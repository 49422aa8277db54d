use vstd::prelude::*;

verus! {

/// An edge weight: a non-negative quantity with a zero, an order and a
/// bounded addition.
pub trait GraphWeight: Copy + Sized {
    /// The number this weight stands for.
    spec fn value(&self) -> int;

    /// The largest value the type can hold.
    spec fn limit() -> int;

    proof fn lemma_range(&self)
        ensures
            0 <= self.value() <= Self::limit(),
    ;

    fn zero() -> (r: Self)
        ensures
            r.value() == 0,
    ;

    fn plus(&self, other: &Self) -> (r: Self)
        requires
            self.value() + other.value() <= Self::limit(),
        ensures
            r.value() == self.value() + other.value(),
    ;

    fn checked_plus(&self, other: &Self) -> (r: Option<Self>)
        ensures
            r.is_some() == (self.value() + other.value() <= Self::limit()),
            r matches Some(s) ==> s.value() == self.value() + other.value(),
    ;

    fn less_than(&self, other: &Self) -> (r: bool)
        ensures
            r == (self.value() < other.value()),
    ;
}

impl GraphWeight for u32 {
    open spec fn value(&self) -> int {
        *self as int
    }

    open spec fn limit() -> int {
        u32::MAX as int
    }

    proof fn lemma_range(&self) {
    }

    fn zero() -> (r: Self) {
        0
    }

    fn plus(&self, other: &Self) -> (r: Self) {
        *self + *other
    }

    fn checked_plus(&self, other: &Self) -> (r: Option<Self>) {
        self.checked_add(*other)
    }

    fn less_than(&self, other: &Self) -> (r: bool) {
        *self < *other
    }
}

impl GraphWeight for u64 {
    open spec fn value(&self) -> int {
        *self as int
    }

    open spec fn limit() -> int {
        u64::MAX as int
    }

    proof fn lemma_range(&self) {
    }

    fn zero() -> (r: Self) {
        0
    }

    fn plus(&self, other: &Self) -> (r: Self) {
        *self + *other
    }

    fn checked_plus(&self, other: &Self) -> (r: Option<Self>) {
        self.checked_add(*other)
    }

    fn less_than(&self, other: &Self) -> (r: bool) {
        *self < *other
    }
}

} // verus!
