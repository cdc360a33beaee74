use vstd::prelude::*;
use core::cmp::Ordering;

verus! {

/// A total order on a key type, described by an order-preserving map into the integers.
///
/// Two keys with the same rank count as the same element of a set.
pub trait TotalOrder: Sized {
    /// Where the key stands in the order.
    spec fn rank(&self) -> int;

    /// Three-way comparison that agrees with `rank`.
    fn compare(&self, other: &Self) -> (r: Ordering)
        ensures
            (r == Ordering::Less) == (self.rank() < other.rank()),
            (r == Ordering::Equal) == (self.rank() == other.rank()),
            (r == Ordering::Greater) == (self.rank() > other.rank()),
    ;
}

impl TotalOrder for u8 {
    open spec fn rank(&self) -> int {
        *self as int
    }

    fn compare(&self, other: &Self) -> (r: Ordering) {
        if *self < *other {
            Ordering::Less
        } else if *self == *other {
            Ordering::Equal
        } else {
            Ordering::Greater
        }
    }
}

impl TotalOrder for u16 {
    open spec fn rank(&self) -> int {
        *self as int
    }

    fn compare(&self, other: &Self) -> (r: Ordering) {
        if *self < *other {
            Ordering::Less
        } else if *self == *other {
            Ordering::Equal
        } else {
            Ordering::Greater
        }
    }
}

impl TotalOrder for u32 {
    open spec fn rank(&self) -> int {
        *self as int
    }

    fn compare(&self, other: &Self) -> (r: Ordering) {
        if *self < *other {
            Ordering::Less
        } else if *self == *other {
            Ordering::Equal
        } else {
            Ordering::Greater
        }
    }
}

impl TotalOrder for u64 {
    open spec fn rank(&self) -> int {
        *self as int
    }

    fn compare(&self, other: &Self) -> (r: Ordering) {
        if *self < *other {
            Ordering::Less
        } else if *self == *other {
            Ordering::Equal
        } else {
            Ordering::Greater
        }
    }
}

impl TotalOrder for usize {
    open spec fn rank(&self) -> int {
        *self as int
    }

    fn compare(&self, other: &Self) -> (r: Ordering) {
        if *self < *other {
            Ordering::Less
        } else if *self == *other {
            Ordering::Equal
        } else {
            Ordering::Greater
        }
    }
}

impl TotalOrder for i32 {
    open spec fn rank(&self) -> int {
        *self as int
    }

    fn compare(&self, other: &Self) -> (r: Ordering) {
        if *self < *other {
            Ordering::Less
        } else if *self == *other {
            Ordering::Equal
        } else {
            Ordering::Greater
        }
    }
}

impl TotalOrder for i64 {
    open spec fn rank(&self) -> int {
        *self as int
    }

    fn compare(&self, other: &Self) -> (r: Ordering) {
        if *self < *other {
            Ordering::Less
        } else if *self == *other {
            Ordering::Equal
        } else {
            Ordering::Greater
        }
    }
}

impl TotalOrder for char {
    open spec fn rank(&self) -> int {
        *self as int
    }

    fn compare(&self, other: &Self) -> (r: Ordering) {
        if *self < *other {
            Ordering::Less
        } else if *self == *other {
            Ordering::Equal
        } else {
            Ordering::Greater
        }
    }
}

/// A key that projects to a 64-bit unsigned integer, as a binary trie needs.
///
/// Distinct keys that a trie holds together must project to distinct integers.
pub trait IntValue: Sized {
    /// The projection, as a spec function.
    spec fn int_spec(&self) -> u64;

    /// Computes the projection.
    fn int_value(&self) -> (r: u64)
        ensures
            r == self.int_spec(),
    ;
}

impl IntValue for bool {
    open spec fn int_spec(&self) -> u64 {
        if *self { 1 } else { 0 }
    }

    fn int_value(&self) -> (r: u64) {
        if *self { 1 } else { 0 }
    }
}

impl IntValue for char {
    open spec fn int_spec(&self) -> u64 {
        *self as u64
    }

    fn int_value(&self) -> (r: u64) {
        *self as u64
    }
}

impl IntValue for u8 {
    open spec fn int_spec(&self) -> u64 {
        *self as u64
    }

    fn int_value(&self) -> (r: u64) {
        *self as u64
    }
}

impl IntValue for u16 {
    open spec fn int_spec(&self) -> u64 {
        *self as u64
    }

    fn int_value(&self) -> (r: u64) {
        *self as u64
    }
}

impl IntValue for u32 {
    open spec fn int_spec(&self) -> u64 {
        *self as u64
    }

    fn int_value(&self) -> (r: u64) {
        *self as u64
    }
}

impl IntValue for u64 {
    open spec fn int_spec(&self) -> u64 {
        *self
    }

    fn int_value(&self) -> (r: u64) {
        *self
    }
}

} // verus!
