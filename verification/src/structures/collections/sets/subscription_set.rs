//! A set of subscribers that all receive the same callback, with each
//! subscriber passed in as the first argument. The owner calls `notify`
//! wherever the event happens.
use vstd::prelude::*;
use crate::structures::traits::key::Key;
use crate::structures::traits::collection::{Choose, Collection, CollectionInsert, CollectionRemove, UniqueCollection};
use super::unordered_set::UnorderedSet;

verus! {

/// Unique subscribers paired with a callback invoked for each of them when
/// an event is published.
pub struct SubscriptionSet<S, F> {
    subscribers: UnorderedSet<S>,
    callback: F,
}

impl<S, F> View for SubscriptionSet<S, F> {
    type V = Set<S>;

    closed spec fn view(&self) -> Set<S> {
        self.subscribers@
    }
}

impl<S: Key, F> SubscriptionSet<S, F> {
    /// Creates an empty subscription set using `callback` for notifications.
    pub fn new(callback: F) -> (s: Self)
        ensures
            s@ == Set::<S>::empty(),
            s.callback_spec() == callback,
    {
        SubscriptionSet { subscribers: UnorderedSet::new(), callback }
    }

    /// The callback the set was made with.
    pub closed spec fn callback_spec(&self) -> F {
        self.callback
    }

    /// Number of subscribers.
    pub fn len(&self) -> (n: usize)
        ensures
            n == self@.len(),
    {
        self.subscribers.len()
    }

    /// Whether there are no subscribers.
    pub fn is_empty(&self) -> (empty: bool)
        ensures
            empty == (self@.len() == 0),
    {
        self.subscribers.is_empty()
    }

    /// Whether `subscriber` is registered.
    pub fn contains(&self, subscriber: &S) -> (found: bool)
        ensures
            found == self@.contains(*subscriber),
    {
        self.subscribers.contains(subscriber)
    }

    /// Registers `subscriber`, returning whether it was new.
    pub fn insert(&mut self, subscriber: S) -> (added: bool)
        ensures
            added == !old(self)@.contains(subscriber),
            final(self)@ == old(self)@.insert(subscriber),
            final(self).callback_spec() == old(self).callback_spec(),
    {
        self.subscribers.insert(subscriber)
    }

    /// Unregisters `subscriber`, returning whether it was present.
    pub fn remove(&mut self, subscriber: &S) -> (removed: bool)
        ensures
            removed == old(self)@.contains(*subscriber),
            final(self)@ == old(self)@.remove(*subscriber),
            final(self).callback_spec() == old(self).callback_spec(),
    {
        self.subscribers.remove(subscriber)
    }

    /// Removes every subscriber.
    pub fn clear(&mut self)
        ensures
            final(self)@ == Set::<S>::empty(),
            final(self).callback_spec() == old(self).callback_spec(),
    {
        self.subscribers.clear();
    }

    /// Keeps the subscribers `keep` accepts.
    pub fn retain<P: Fn(&S) -> bool>(&mut self, keep: P)
        requires
            forall|x: &S| #[trigger] keep.requires((x,)),
        ensures
            forall|x: S| #[trigger] final(self)@.contains(x) ==> old(self)@.contains(x) && keep.ensures((&x,), true),
            forall|x: S| old(self)@.contains(x) && !final(self)@.contains(x) ==> keep.ensures((&x,), false),
            final(self).callback_spec() == old(self).callback_spec(),
    {
        self.subscribers.retain(keep);
    }

    /// The subscribers, each once.
    pub fn iter(&self) -> (items: Vec<S>)
        ensures
            items@.to_set() == self@,
            items@.no_duplicates(),
    {
        self.subscribers.iter()
    }

    /// The subscriber set.
    pub fn subscribers(&self) -> (set: &UnorderedSet<S>)
        ensures
            set@ == self@,
    {
        &self.subscribers
    }

    /// The callback, without invoking it.
    pub fn callback(&self) -> (callback: &F)
        ensures
            *callback == self.callback_spec(),
    {
        &self.callback
    }

    /// Calls the callback once per subscriber.
    pub fn notify<E>(&self, event: &E)
        where
            F: Fn(&S, &E),
        requires
            forall|s: &S| #[trigger] self.callback_spec().requires((s, event)),
    {
        let items = self.subscribers.iter();
        let mut i: usize = 0;
        while i < items.len()
            invariant
                forall|s: &S| #[trigger] self.callback_spec().requires((s, event)),
            decreases items@.len() - i,
        {
            let subscriber = &items[i];
            assert(self.callback_spec().requires((subscriber, event)));
            (self.callback)(subscriber, event);
            i += 1;
        }
    }
}

impl<S: Key, F> Collection for SubscriptionSet<S, F> {
    type Item = S;

    closed spec fn listed(&self) -> Seq<S> {
        self.subscribers.listing()
    }

    fn len(&self) -> usize {
        SubscriptionSet::len(self)
    }

    fn contains(&self, subscriber: &S) -> bool {
        proof {
            self.subscribers.lemma_listing();
        }
        SubscriptionSet::contains(self, subscriber)
    }

    fn elements(&self) -> Vec<S> {
        self.subscribers.iter()
    }
}

impl<S: Key, F> CollectionInsert for SubscriptionSet<S, F> {
    fn insert(&mut self, subscriber: S) -> bool {
        SubscriptionSet::insert(self, subscriber)
    }
}

impl<S: Key, F> CollectionRemove for SubscriptionSet<S, F> {
    fn remove(&mut self, subscriber: &S) -> bool {
        SubscriptionSet::remove(self, subscriber)
    }

    fn clear(&mut self) {
        SubscriptionSet::clear(self)
    }
}

impl<S: Key, F> UniqueCollection for SubscriptionSet<S, F> {

}

impl<S: Key, F> Choose for SubscriptionSet<S, F> {

}

} // verus!
