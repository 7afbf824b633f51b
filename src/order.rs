use vstd::prelude::*;

verus! {

/// A type whose values can be sorted: `precedes` is a strict total order.
pub trait Sortable: Sized + Copy {
    /// `self` comes strictly before `other`.
    spec fn precedes(self, other: Self) -> bool;

    /// `precedes` is irreflexive, transitive and total.
    proof fn lemma_strict_total(a: Self, b: Self, c: Self)
        ensures
            !a.precedes(a),
            a.precedes(b) && b.precedes(c) ==> a.precedes(c),
            a == b || a.precedes(b) || b.precedes(a),
    ;

    fn exec_precedes(&self, other: &Self) -> (r: bool)
        ensures
            r == self.precedes(*other),
    ;

    fn exec_same(&self, other: &Self) -> (r: bool)
        ensures
            r == (*self == *other),
    ;
}

impl Sortable for u64 {
    open spec fn precedes(self, other: Self) -> bool {
        self < other
    }

    proof fn lemma_strict_total(a: Self, b: Self, c: Self) {
    }

    fn exec_precedes(&self, other: &Self) -> (r: bool) {
        *self < *other
    }

    fn exec_same(&self, other: &Self) -> (r: bool) {
        *self == *other
    }
}

/// The position of an update in a batch: key, value and time.
#[derive(Clone, Copy, Debug, PartialEq, Eq)]
pub struct KeyValTime {
    pub key: u64,
    pub val: u64,
    pub time: u64,
}

/// Positions are ordered by key, then value, then time.
impl Sortable for KeyValTime {
    open spec fn precedes(self, other: Self) -> bool {
        self.key < other.key || (self.key == other.key && (self.val < other.val || (self.val
            == other.val && self.time < other.time)))
    }

    proof fn lemma_strict_total(a: Self, b: Self, c: Self) {
    }

    fn exec_precedes(&self, other: &Self) -> (r: bool) {
        self.key < other.key || (self.key == other.key && (self.val < other.val || (self.val
            == other.val && self.time < other.time)))
    }

    fn exec_same(&self, other: &Self) -> (r: bool) {
        self.key == other.key && self.val == other.val && self.time == other.time
    }
}

} // verus!
