//! Traits for structures that sort their members into labeled groups.
use vstd::prelude::*;
use super::key::Key;

verus! {

/// Read access to members partitioned or indexed under labels.
pub trait Grouping {
    /// Type stored in each group.
    type Member: Key;
    /// Type used to identify groups.
    type Label: Key;

    /// Whether `member` carries `label`.
    spec fn carries(&self, member: Self::Member, label: Self::Label) -> bool;

    /// The members carrying `label`.
    fn group(&self, label: &Self::Label) -> (members: Vec<Self::Member>)
        ensures
            forall|m: Self::Member| #[trigger] members@.contains(m) == self.carries(m, *label),
    ;

    /// Every label that has a non-empty group.
    fn labels(&self) -> Vec<Self::Label>;

    /// Number of non-empty labels.
    fn label_count(&self) -> usize;

    /// Number of members carrying `label`.
    fn group_len(&self, label: &Self::Label) -> usize {
        self.group(label).len()
    }

    /// Whether `label` has a non-empty group.
    fn contains_label(&self, label: &Self::Label) -> bool {
        self.group_len(label) > 0
    }

    /// Whether `member` carries `label`.
    fn is_in_group(&self, member: &Self::Member, label: &Self::Label) -> (found: bool)
        ensures
            found == self.carries(*member, *label),
    {
        let members = self.group(label);
        let mut i: usize = 0;
        while i < members.len()
            invariant
                i <= members@.len(),
                forall|m: Self::Member| #[trigger] members@.contains(m) == self.carries(m, *label),
                forall|j: int| 0 <= j < i ==> members@[j] != *member,
            decreases members@.len() - i,
        {
            if members[i].key_eq(member) {
                proof {
                    assert(members@.contains(members@[i as int]));
                }
                return true;
            }
            i += 1;
        }
        proof {
            if members@.contains(*member) {
                let j = choose|j: int| 0 <= j < members@.len() && members@[j] == *member;
            }
        }
        false
    }
}

/// Groupings that keep their groups indexed by size.
pub trait GroupSizes: Grouping {
    /// Labels whose group has exactly `len` members.
    fn labels_with_len(&self, len: usize) -> Vec<Self::Label>;

    /// One largest group's label, or `None` when there are no groups.
    fn largest_group(&self) -> Option<Self::Label>;

    /// One smallest group's label, or `None` when there are no groups.
    fn smallest_group(&self) -> Option<Self::Label>;

    /// Every label tied for the largest group.
    fn largest_groups(&self) -> Vec<Self::Label> {
        match self.largest_group() {
            Some(label) => {
                let n = self.group_len(&label);
                self.labels_with_len(n)
            },
            None => Vec::new(),
        }
    }

    /// Every label tied for the smallest group.
    fn smallest_groups(&self) -> Vec<Self::Label> {
        match self.smallest_group() {
            Some(label) => {
                let n = self.group_len(&label);
                self.labels_with_len(n)
            },
            None => Vec::new(),
        }
    }

    /// Labels with exactly one member.
    fn singleton_groups(&self) -> Vec<Self::Label> {
        self.labels_with_len(1)
    }
}

} // verus!
