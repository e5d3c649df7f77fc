//! The total order that tree keys must supply.

use vstd::prelude::*;

verus! {

use core::cmp::Ordering;

/// A strict total order on a key type, together with an executable
/// three-way comparison that decides it.
///
/// `lt` is the mathematical order the tree's contracts are stated over;
/// the proof obligations say it is a strict total order, and `compare`
/// is the runtime decision procedure the tree descends with.
pub trait TotalOrder: Sized {
    /// `self` comes strictly before `other` in the order.
    spec fn lt(self, other: Self) -> bool;

    /// Any two keys are comparable, and `lt` is asymmetric.
    proof fn lemma_total(a: Self, b: Self)
        ensures
            a.lt(b) || b.lt(a) || a == b,
            a.lt(b) ==> !b.lt(a) && a != b,
    ;

    /// `lt` is transitive.
    proof fn lemma_transitive(a: Self, b: Self, c: Self)
        requires
            a.lt(b),
            b.lt(c),
        ensures
            a.lt(c),
    ;

    /// Decide how `self` and `other` are ordered.
    fn compare(&self, other: &Self) -> (c: Ordering)
        ensures
            match c {
                Ordering::Less => self.lt(*other),
                Ordering::Equal => *self == *other,
                Ordering::Greater => other.lt(*self),
            },
    ;
}

impl TotalOrder for u8 {
    open spec fn lt(self, other: Self) -> bool {
        self < other
    }

    proof fn lemma_total(a: Self, b: Self) {
    }

    proof fn lemma_transitive(a: Self, b: Self, c: Self) {
    }

    fn compare(&self, other: &Self) -> (c: Ordering) {
        if *self < *other {
            Ordering::Less
        } else if *self == *other {
            Ordering::Equal
        } else {
            Ordering::Greater
        }
    }
}

impl TotalOrder for u32 {
    open spec fn lt(self, other: Self) -> bool {
        self < other
    }

    proof fn lemma_total(a: Self, b: Self) {
    }

    proof fn lemma_transitive(a: Self, b: Self, c: Self) {
    }

    fn compare(&self, other: &Self) -> (c: Ordering) {
        if *self < *other {
            Ordering::Less
        } else if *self == *other {
            Ordering::Equal
        } else {
            Ordering::Greater
        }
    }
}

impl TotalOrder for u64 {
    open spec fn lt(self, other: Self) -> bool {
        self < other
    }

    proof fn lemma_total(a: Self, b: Self) {
    }

    proof fn lemma_transitive(a: Self, b: Self, c: Self) {
    }

    fn compare(&self, other: &Self) -> (c: Ordering) {
        if *self < *other {
            Ordering::Less
        } else if *self == *other {
            Ordering::Equal
        } else {
            Ordering::Greater
        }
    }
}

impl TotalOrder for usize {
    open spec fn lt(self, other: Self) -> bool {
        self < other
    }

    proof fn lemma_total(a: Self, b: Self) {
    }

    proof fn lemma_transitive(a: Self, b: Self, c: Self) {
    }

    fn compare(&self, other: &Self) -> (c: Ordering) {
        if *self < *other {
            Ordering::Less
        } else if *self == *other {
            Ordering::Equal
        } else {
            Ordering::Greater
        }
    }
}

impl TotalOrder for i64 {
    open spec fn lt(self, other: Self) -> bool {
        self < other
    }

    proof fn lemma_total(a: Self, b: Self) {
    }

    proof fn lemma_transitive(a: Self, b: Self, c: Self) {
    }

    fn compare(&self, other: &Self) -> (c: Ordering) {
        if *self < *other {
            Ordering::Less
        } else if *self == *other {
            Ordering::Equal
        } else {
            Ordering::Greater
        }
    }
}

impl TotalOrder for char {
    open spec fn lt(self, other: Self) -> bool {
        (self as u32) < (other as u32)
    }

    proof fn lemma_total(a: Self, b: Self) {
        vstd::utf8::char_u32_cast(a, a as u32);
        vstd::utf8::char_u32_cast(b, b as u32);
    }

    proof fn lemma_transitive(a: Self, b: Self, c: Self) {
    }

    fn compare(&self, other: &Self) -> (c: Ordering) {
        let a = *self as u32;
        let b = *other as u32;
        if a < b {
            Ordering::Less
        } else if a == b {
            proof {
                vstd::utf8::char_u32_cast(*self, a);
                vstd::utf8::char_u32_cast(*other, b);
            }
            Ordering::Equal
        } else {
            Ordering::Greater
        }
    }
}

} // verus!
