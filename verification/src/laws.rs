use crate::order::{is_min_of, TotalOrdered};
use vstd::multiset::Multiset;
use vstd::prelude::*;

verus! {

broadcast use vstd::multiset::group_multiset_axioms, vstd::seq_lib::group_to_multiset_ensures;

/// What remains of the elements `m0` after the values of `popped` have been
/// removed from it, one occurrence each, in order.
pub open spec fn after_pops<T>(m0: Multiset<T>, popped: Seq<T>) -> Multiset<T>
    decreases popped.len(),
{
    if popped.len() == 0 {
        m0
    } else {
        after_pops(m0, popped.drop_last()).remove(popped.last())
    }
}

/// `popped` is a possible pop history of a heap holding `m0`: each value was
/// a minimum of what remained at its turn.  This is exactly what `pop`'s
/// contract guarantees of the values a drain loop collects.
pub open spec fn is_drain<T: TotalOrdered>(m0: Multiset<T>, popped: Seq<T>) -> bool {
    forall|i: int|
        0 <= i < popped.len() ==> is_min_of(
            #[trigger] popped[i],
            after_pops(m0, popped.subrange(0, i)),
        )
}

proof fn lemma_after_pops_monotone<T: TotalOrdered>(
    m0: Multiset<T>,
    popped: Seq<T>,
    i: int,
    j: int,
    y: T,
)
    requires
        0 <= i <= j <= popped.len(),
    ensures
        after_pops(m0, popped.subrange(0, j)).count(y) <= after_pops(
            m0,
            popped.subrange(0, i),
        ).count(y),
    decreases j - i,
{
    if i < j {
        lemma_after_pops_monotone(m0, popped, i, j - 1, y);
        assert(popped.subrange(0, j).drop_last() =~= popped.subrange(0, j - 1));
        assert(popped.subrange(0, j).last() == popped[j - 1]);
    }
}

proof fn lemma_after_pops_ms<T: TotalOrdered>(m0: Multiset<T>, popped: Seq<T>)
    requires
        is_drain(m0, popped),
    ensures
        m0 == after_pops(m0, popped).add(popped.to_multiset()),
    decreases popped.len(),
{
    if popped.len() == 0 {
        assert(m0 =~= after_pops(m0, popped).add(popped.to_multiset()));
    } else {
        let prefix = popped.drop_last();
        let x = popped.last();
        assert forall|i: int| 0 <= i < prefix.len() implies is_min_of(
            #[trigger] prefix[i],
            after_pops(m0, prefix.subrange(0, i)),
        ) by {
            assert(prefix.subrange(0, i) =~= popped.subrange(0, i));
            assert(prefix[i] == popped[i]);
        };
        lemma_after_pops_ms(m0, prefix);
        assert(popped.subrange(0, popped.len() - 1) =~= prefix);
        assert(is_min_of(x, after_pops(m0, prefix)));
        assert(after_pops(m0, prefix) =~= after_pops(m0, popped).insert(x));
        assert(prefix.push(x) =~= popped);
        assert(m0 =~= after_pops(m0, popped).add(popped.to_multiset()));
    }
}

/// Sorted-drain law: when `popped` is a pop history of a heap that held `m0`
/// — each value a minimum of what remained at its turn, which is what `pop`'s
/// contract gives — and the pops went on until nothing remained, then the
/// values popped are exactly the multiset `m0`, in non-decreasing order.
pub proof fn lemma_drain_sorted<T: TotalOrdered>(m0: Multiset<T>, popped: Seq<T>)
    requires
        is_drain(m0, popped),
        after_pops(m0, popped) == Multiset::<T>::empty(),
    ensures
        popped.to_multiset() == m0,
        forall|i: int, j: int|
            0 <= i < j < popped.len() ==> (#[trigger] popped[i]).le_spec(#[trigger] popped[j]),
{
    lemma_after_pops_ms(m0, popped);
    assert(popped.to_multiset() =~= m0);
    assert forall|i: int, j: int|
        0 <= i < j < popped.len() implies (#[trigger] popped[i]).le_spec(
        #[trigger] popped[j],
    ) by {
        lemma_after_pops_monotone(m0, popped, i, j, popped[j]);
        assert(is_min_of(popped[j], after_pops(m0, popped.subrange(0, j))));
        assert(after_pops(m0, popped.subrange(0, i)).count(popped[j]) > 0);
        assert(is_min_of(popped[i], after_pops(m0, popped.subrange(0, i))));
    };
}

/// Push-monotonicity law: when `mn` is a minimum of the elements `m` and `x`
/// is added, the new minimum is `x` if `x` is at or below `mn`, and is still
/// `mn` otherwise.  Together with `push`'s contract — the view gains exactly
/// one occurrence of `x` — this says what `peek` returns after a push.
pub proof fn lemma_push_monotonic<T: TotalOrdered>(m: Multiset<T>, mn: T, x: T)
    requires
        is_min_of(mn, m),
    ensures
        x.le_spec(mn) ==> is_min_of(x, m.insert(x)),
        !x.le_spec(mn) ==> is_min_of(mn, m.insert(x)),
{
    if x.le_spec(mn) {
        assert(m.insert(x).count(x) > 0);
        assert forall|y: T| m.insert(x).count(y) > 0 implies x.le_spec(y) by {
            if m.count(y) > 0 {
                T::transitive(x, mn, y);
            } else {
                assert(y == x);
                T::reflexive(x);
            }
        };
    } else {
        T::total(x, mn);
        assert(m.insert(x).count(mn) > 0);
        assert forall|y: T| m.insert(x).count(y) > 0 implies mn.le_spec(y) by {
            if m.count(y) > 0 {
            } else {
                assert(y == x);
            }
        };
    }
}

/// A multiset has exactly one minimum value: two elements that are each at or
/// below everything present are mutually related, hence equal by
/// antisymmetry, so `peek` is determined by the heap's contents alone.
pub proof fn lemma_min_unique<T: TotalOrdered>(m: Multiset<T>, a: T, b: T)
    requires
        is_min_of(a, m),
        is_min_of(b, m),
    ensures
        a == b,
{
    T::antisymmetric(a, b);
}

} // verus!
