use vstd::multiset::Multiset;
use vstd::prelude::*;

verus! {

/// The capability the heap requires of its elements: a total order, given as a
/// spec-level relation `le_spec` together with an executable test `le` that
/// decides it.  The proof obligations make the relation reflexive,
/// antisymmetric, transitive and total, so the heap's contracts pin the
/// minimum exactly, not merely up to order-equivalence.
pub trait TotalOrdered: Sized {
    spec fn le_spec(self, other: Self) -> bool;

    proof fn reflexive(x: Self)
        ensures
            x.le_spec(x),
    ;

    proof fn antisymmetric(x: Self, y: Self)
        requires
            x.le_spec(y),
            y.le_spec(x),
        ensures
            x == y,
    ;

    proof fn transitive(x: Self, y: Self, z: Self)
        requires
            x.le_spec(y),
            y.le_spec(z),
        ensures
            x.le_spec(z),
    ;

    proof fn total(x: Self, y: Self)
        ensures
            x.le_spec(y) || y.le_spec(x),
    ;

    fn le(&self, other: &Self) -> (r: bool)
        ensures
            r == self.le_spec(*other),
    ;
}

impl TotalOrdered for u32 {
    open spec fn le_spec(self, other: Self) -> bool {
        self <= other
    }

    proof fn reflexive(x: Self) {
    }

    proof fn antisymmetric(x: Self, y: Self) {
    }

    proof fn transitive(x: Self, y: Self, z: Self) {
    }

    proof fn total(x: Self, y: Self) {
    }

    fn le(&self, other: &Self) -> (r: bool) {
        *self <= *other
    }
}

impl TotalOrdered for u64 {
    open spec fn le_spec(self, other: Self) -> bool {
        self <= other
    }

    proof fn reflexive(x: Self) {
    }

    proof fn antisymmetric(x: Self, y: Self) {
    }

    proof fn transitive(x: Self, y: Self, z: Self) {
    }

    proof fn total(x: Self, y: Self) {
    }

    fn le(&self, other: &Self) -> (r: bool) {
        *self <= *other
    }
}

impl TotalOrdered for i32 {
    open spec fn le_spec(self, other: Self) -> bool {
        self <= other
    }

    proof fn reflexive(x: Self) {
    }

    proof fn antisymmetric(x: Self, y: Self) {
    }

    proof fn transitive(x: Self, y: Self, z: Self) {
    }

    proof fn total(x: Self, y: Self) {
    }

    fn le(&self, other: &Self) -> (r: bool) {
        *self <= *other
    }
}

impl TotalOrdered for i64 {
    open spec fn le_spec(self, other: Self) -> bool {
        self <= other
    }

    proof fn reflexive(x: Self) {
    }

    proof fn antisymmetric(x: Self, y: Self) {
    }

    proof fn transitive(x: Self, y: Self, z: Self) {
    }

    proof fn total(x: Self, y: Self) {
    }

    fn le(&self, other: &Self) -> (r: bool) {
        *self <= *other
    }
}

/// `v` is less than or equal to every element of the multiset `m`.
pub open spec fn below_all<T: TotalOrdered>(v: T, m: Multiset<T>) -> bool {
    forall|x: T| #[trigger] m.count(x) > 0 ==> v.le_spec(x)
}

/// `v` occurs in `m` and is less than or equal to every element of `m`.
pub open spec fn is_min_of<T: TotalOrdered>(v: T, m: Multiset<T>) -> bool {
    m.count(v) > 0 && below_all(v, m)
}

} // verus!
