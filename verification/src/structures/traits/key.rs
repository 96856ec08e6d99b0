//! Element types the structures can hold: anything that can be copied and
//! compared for equality.
use vstd::prelude::*;
use crate::structures::hashing::{FastHasher, add_word_spec};

verus! {

/// A value that structures can store and look up. Equality is decided by
/// `key_eq`, which agrees with mathematical equality.
pub trait Key: Copy {
    /// Whether the two values are the same.
    fn key_eq(&self, other: &Self) -> (same: bool)
        ensures
            same == (*self == *other),
    ;

    /// The hasher state after the value is fed to one in state `h`.
    spec fn fed(self, h: u64) -> u64;

    /// Feeds the value to `hasher` as the standard `Hash` implementation
    /// of the type does: the value's bits as one word, two for 128 bits.
    fn feed(&self, hasher: &mut FastHasher)
        ensures
            final(hasher)@ == self.fed(old(hasher)@),
    ;
}

/// A key that can also be duplicated into secondary indices.
pub trait Element: Key {

}

impl<T: Key> Element for T {

}

impl Key for u8 {
    fn key_eq(&self, other: &Self) -> (same: bool) {
        *self == *other
    }

    open spec fn fed(self, h: u64) -> u64 {
        add_word_spec(h, self as u64)
    }

    fn feed(&self, hasher: &mut FastHasher) {
        hasher.write_u8(*self);
    }
}

impl Key for u16 {
    fn key_eq(&self, other: &Self) -> (same: bool) {
        *self == *other
    }

    open spec fn fed(self, h: u64) -> u64 {
        add_word_spec(h, self as u64)
    }

    fn feed(&self, hasher: &mut FastHasher) {
        hasher.write_u16(*self);
    }
}

impl Key for u32 {
    fn key_eq(&self, other: &Self) -> (same: bool) {
        *self == *other
    }

    open spec fn fed(self, h: u64) -> u64 {
        add_word_spec(h, self as u64)
    }

    fn feed(&self, hasher: &mut FastHasher) {
        hasher.write_u32(*self);
    }
}

impl Key for u64 {
    fn key_eq(&self, other: &Self) -> (same: bool) {
        *self == *other
    }

    open spec fn fed(self, h: u64) -> u64 {
        add_word_spec(h, self)
    }

    fn feed(&self, hasher: &mut FastHasher) {
        hasher.write_u64(*self);
    }
}

impl Key for u128 {
    fn key_eq(&self, other: &Self) -> (same: bool) {
        *self == *other
    }

    open spec fn fed(self, h: u64) -> u64 {
        add_word_spec(add_word_spec(h, self as u64), (self >> 64u128) as u64)
    }

    fn feed(&self, hasher: &mut FastHasher) {
        hasher.write_u128(*self);
    }
}

impl Key for usize {
    fn key_eq(&self, other: &Self) -> (same: bool) {
        *self == *other
    }

    open spec fn fed(self, h: u64) -> u64 {
        add_word_spec(h, self as u64)
    }

    fn feed(&self, hasher: &mut FastHasher) {
        hasher.write_usize(*self);
    }
}

impl Key for i8 {
    fn key_eq(&self, other: &Self) -> (same: bool) {
        *self == *other
    }

    open spec fn fed(self, h: u64) -> u64 {
        add_word_spec(h, (self as u8) as u64)
    }

    fn feed(&self, hasher: &mut FastHasher) {
        hasher.write_u8(*self as u8);
    }
}

impl Key for i16 {
    fn key_eq(&self, other: &Self) -> (same: bool) {
        *self == *other
    }

    open spec fn fed(self, h: u64) -> u64 {
        add_word_spec(h, (self as u16) as u64)
    }

    fn feed(&self, hasher: &mut FastHasher) {
        hasher.write_u16(*self as u16);
    }
}

impl Key for i32 {
    fn key_eq(&self, other: &Self) -> (same: bool) {
        *self == *other
    }

    open spec fn fed(self, h: u64) -> u64 {
        add_word_spec(h, (self as u32) as u64)
    }

    fn feed(&self, hasher: &mut FastHasher) {
        hasher.write_u32(*self as u32);
    }
}

impl Key for i64 {
    fn key_eq(&self, other: &Self) -> (same: bool) {
        *self == *other
    }

    open spec fn fed(self, h: u64) -> u64 {
        add_word_spec(h, self as u64)
    }

    fn feed(&self, hasher: &mut FastHasher) {
        hasher.write_u64(*self as u64);
    }
}

impl Key for i128 {
    fn key_eq(&self, other: &Self) -> (same: bool) {
        *self == *other
    }

    open spec fn fed(self, h: u64) -> u64 {
        add_word_spec(add_word_spec(h, (self as u128) as u64), ((self as u128) >> 64u128) as u64)
    }

    fn feed(&self, hasher: &mut FastHasher) {
        hasher.write_u128(*self as u128);
    }
}

impl Key for isize {
    fn key_eq(&self, other: &Self) -> (same: bool) {
        *self == *other
    }

    open spec fn fed(self, h: u64) -> u64 {
        add_word_spec(h, (self as usize) as u64)
    }

    fn feed(&self, hasher: &mut FastHasher) {
        hasher.write_usize(*self as usize);
    }
}

impl Key for bool {
    fn key_eq(&self, other: &Self) -> (same: bool) {
        *self == *other
    }

    open spec fn fed(self, h: u64) -> u64 {
        add_word_spec(h, if self { 1 } else { 0 })
    }

    fn feed(&self, hasher: &mut FastHasher) {
        hasher.write_u8(if *self { 1 } else { 0 });
    }
}

impl Key for char {
    fn key_eq(&self, other: &Self) -> (same: bool) {
        *self == *other
    }

    open spec fn fed(self, h: u64) -> u64 {
        add_word_spec(h, (self as u32) as u64)
    }

    fn feed(&self, hasher: &mut FastHasher) {
        hasher.write_u32(*self as u32);
    }
}

} // verus!
