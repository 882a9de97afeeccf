use crate::consolidate::rebalance;
use crate::order::{below_all, is_min_of, TotalOrdered};
use crate::tree::{
    forest_binomial, forest_ms, forest_wf, lemma_forest_min, lemma_forest_ms_insert,
    lemma_forest_ms_len, lemma_forest_ms_push, lemma_forest_ms_remove, lemma_tree_ms_len,
    tree_binomial, tree_ms, tree_wf, Tree,
};
use vstd::multiset::Multiset;
use vstd::prelude::*;

verus! {

broadcast use vstd::multiset::group_multiset_axioms, vstd::seq_lib::group_to_multiset_ensures;

/// Locate the first minimum-valued root and swap it into the last slot: only
/// the first-minimum slot and the last slot exchange places, every other
/// root stays where it was.
pub fn order_min<T: TotalOrdered>(roots: &mut Vec<Tree<T>>)
    requires
        forest_wf(old(roots)@),
        forest_binomial(old(roots)@),
    ensures
        final(roots)@.len() == old(roots)@.len(),
        forest_ms(final(roots)@) == forest_ms(old(roots)@),
        forest_wf(final(roots)@),
        forest_binomial(final(roots)@),
        final(roots)@.len() > 0 ==> below_all(
            final(roots)@[final(roots)@.len() - 1].node,
            forest_ms(final(roots)@),
        ),
        old(roots)@.len() > 0 ==> exists|b: int|
            #![trigger old(roots)@[b]]
            (0 <= b < old(roots)@.len() && (forall|k: int|
                0 <= k < old(roots)@.len() ==> old(roots)@[b].node.le_spec(
                    (#[trigger] old(roots)@[k]).node,
                )) && (forall|k: int|
                0 <= k < b ==> !(#[trigger] old(roots)@[k]).node.le_spec(old(roots)@[b].node))
                && final(roots)@ == old(roots)@.update(b, old(roots)@[old(roots)@.len() - 1]).update(
                old(roots)@.len() - 1,
                old(roots)@[b],
            )),
{
    if roots.len() == 0 {
        return ;
    }
    let mut best: usize = 0;
    let mut i: usize = 1;
    proof {
        T::reflexive(roots@[0].node);
    }
    while i < roots.len()
        invariant
            1 <= i <= roots@.len(),
            (best as int) < i,
            forall|k: int|
                0 <= k < i ==> roots@[best as int].node.le_spec((#[trigger] roots@[k]).node),
            forall|k: int|
                0 <= k < best ==> !(#[trigger] roots@[k]).node.le_spec(
                    roots@[best as int].node,
                ),
        decreases roots@.len() - i,
    {
        if !(roots[best].node.le(&roots[i].node)) {
            proof {
                T::total(roots@[best as int].node, roots@[i as int].node);
                assert forall|k: int| 0 <= k < i + 1 implies roots@[i as int].node.le_spec(
                    (#[trigger] roots@[k]).node,
                ) by {
                    if k < i {
                        T::transitive(
                            roots@[i as int].node,
                            roots@[best as int].node,
                            roots@[k].node,
                        );
                    } else {
                        T::reflexive(roots@[i as int].node);
                    }
                };
                assert forall|k: int| 0 <= k < i implies !(#[trigger] roots@[k]).node.le_spec(
                    roots@[i as int].node,
                ) by {
                    if roots@[k].node.le_spec(roots@[i as int].node) {
                        T::transitive(
                            roots@[best as int].node,
                            roots@[k].node,
                            roots@[i as int].node,
                        );
                    }
                };
            }
            best = i;
        }
        i = i + 1;
    }
    let lastidx = roots.len() - 1;
    let ghost orig = roots@;
    let ghost minv = roots@[best as int].node;
    if best != lastidx {
        let tb = roots.remove(best);
        let ghost r1 = roots@;
        let tl = roots.pop().unwrap();
        let ghost r2 = roots@;
        roots.insert(best, tl);
        let ghost r3 = roots@;
        roots.push(tb);
        proof {
            assert(r2 =~= r1.drop_last());
            assert(tl == orig[lastidx as int]);
            lemma_forest_ms_remove(orig, best as int);
            assert(forest_ms(r1) == forest_ms(r2).add(tree_ms(tl)));
            lemma_forest_ms_insert(r2, best as int, tl);
            lemma_forest_ms_push(r3, tb);
            assert(forest_ms(roots@) =~= forest_ms(orig));
            assert(roots@ =~= orig.update(best as int, orig[lastidx as int]).update(
                lastidx as int,
                orig[best as int],
            ));
        }
    }
    proof {
        let len = orig.len() as int;
        let b = best as int;
        if best == lastidx {
            assert(roots@ =~= orig.update(b, orig[len - 1]).update(len - 1, orig[b]));
        }
        assert forall|j: int| 0 <= j < len implies tree_wf(#[trigger] roots@[j]) && tree_binomial(
            roots@[j],
        ) && minv.le_spec(roots@[j].node) by {
            if j == b {
                assert(roots@[j] == orig[len - 1]);
            } else if j == len - 1 {
                assert(roots@[j] == orig[b]);
            } else {
                assert(roots@[j] == orig[j]);
            }
        };
        assert(roots@[len - 1] == orig[b]);
        lemma_forest_min(roots@, minv);
        assert(orig == old(roots)@);
        assert(old(roots)@[b] == orig[b]);
        assert(forall|k: int|
            0 <= k < orig.len() ==> orig[b].node.le_spec((#[trigger] orig[k]).node));
        assert(forall|k: int| 0 <= k < b ==> !(#[trigger] orig[k]).node.le_spec(orig[b].node));
        assert(roots@ == orig.update(b, orig[len - 1]).update(len - 1, orig[b]));
    }
}

/// A Fibonacci-style min-heap whose root forest keeps its minimum at the last
/// index of a contiguous array of trees: insertion appends and conditionally
/// swaps the last two slots, and extraction pops the last index.
pub struct FibonacciHeap<T> {
    roots: Vec<Tree<T>>,
    len: usize,
}

impl<T: TotalOrdered> View for FibonacciHeap<T> {
    type V = Multiset<T>;

    closed spec fn view(&self) -> Multiset<T> {
        forest_ms(self.roots@)
    }
}

impl<T: TotalOrdered> FibonacciHeap<T> {
    /// The heap's invariant: every tree is heap-ordered and binomial, `len`
    /// counts every element across the forest, and the last root holds the
    /// minimum of everything stored.
    pub closed spec fn wf(self) -> bool {
        &&& forest_wf(self.roots@)
        &&& forest_binomial(self.roots@)
        &&& self.len == forest_ms(self.roots@).len()
        &&& self.roots@.len() > 0 ==> below_all(
            self.roots@[self.roots@.len() - 1].node,
            forest_ms(self.roots@),
        )
    }

    /// An empty heap.
    pub fn new() -> (h: Self)
        ensures
            h.wf(),
            h@ == Multiset::<T>::empty(),
            h@.len() == 0,
    {
        let h = FibonacciHeap { roots: Vec::new(), len: 0 };
        proof {
            assert(h@ =~= Multiset::<T>::empty());
        }
        h
    }

    /// The number of elements currently held; tracked incrementally, O(1).
    pub fn len(&self) -> (n: usize)
        requires
            self.wf(),
        ensures
            n == self@.len(),
    {
        self.len
    }

    /// A reference to the minimum element, or `None` when the heap is empty.
    pub fn peek(&self) -> (r: Option<&T>)
        requires
            self.wf(),
        ensures
            match r {
                Option::None => self@.len() == 0,
                Option::Some(v) => self@.len() > 0 && is_min_of(*v, self@),
            },
    {
        proof {
            lemma_forest_ms_len(self.roots@);
        }
        if self.roots.len() == 0 {
            Option::None
        } else {
            proof {
                lemma_forest_ms_remove(self.roots@, self.roots@.len() - 1);
                lemma_tree_ms_len(self.roots@[self.roots@.len() - 1]);
            }
            Option::Some(self.roots[self.roots.len() - 1].root())
        }
    }

    /// Insert an element.  The element is appended; if it is not a new
    /// minimum the last two slots are swapped so the previous minimum stays
    /// last.
    pub fn push(&mut self, item: T)
        requires
            old(self).wf(),
            old(self)@.len() < usize::MAX,
        ensures
            final(self).wf(),
            final(self)@ == old(self)@.insert(item),
            final(self)@.len() == old(self)@.len() + 1,
    {
        let ghost orig = self.roots@;
        let ghost oldms = forest_ms(orig);
        let new_min = if self.roots.len() == 0 {
            true
        } else {
            item.le(&self.roots[self.roots.len() - 1].node)
        };
        let t = Tree::new(item);
        self.roots.push(t);
        proof {
            lemma_forest_ms_push(orig, t);
            assert(forest_ms(self.roots@) =~= oldms.insert(item));
        }
        if !new_min {
            let n = self.roots.len();
            let ghost mid = self.roots@;
            let tmin = self.roots.remove(n - 2);
            self.roots.push(tmin);
            proof {
                lemma_forest_ms_remove(mid, n - 2);
                lemma_forest_ms_push(mid.remove(n - 2), tmin);
                assert(forest_ms(self.roots@) =~= forest_ms(mid));
                assert(tmin == orig[orig.len() - 1]);
                assert(self.roots@[self.roots@.len() - 1] == tmin);
                assert(self.roots@[self.roots@.len() - 2] == t);
            }
        }
        self.len = self.len + 1;
        proof {
            if new_min {
                assert(self.roots@[self.roots@.len() - 1] == t);
                assert forall|x: T| forest_ms(self.roots@).count(x) > 0 implies item.le_spec(
                    x,
                ) by {
                    if oldms.count(x) > 0 {
                        T::transitive(item, orig[orig.len() - 1].node, x);
                    } else {
                        assert(x == item);
                        T::reflexive(item);
                    }
                };
            } else {
                T::total(item, orig[orig.len() - 1].node);
                assert forall|x: T| forest_ms(self.roots@).count(x) > 0 implies orig[orig.len()
                    - 1].node.le_spec(x) by {
                    if oldms.count(x) > 0 {
                    } else {
                        assert(x == item);
                    }
                };
            }
        }
    }

    /// Remove and return the minimum element, or `None` when the heap is
    /// empty.  The popped root's children are promoted into the forest, the
    /// forest is consolidated, and the new minimum is swapped to the last
    /// slot.
    pub fn pop(&mut self) -> (r: Option<T>)
        requires
            old(self).wf(),
        ensures
            final(self).wf(),
            match r {
                Option::None => old(self)@.len() == 0 && final(self)@ == old(self)@,
                Option::Some(v) => {
                    &&& old(self)@.len() > 0
                    &&& is_min_of(v, old(self)@)
                    &&& final(self)@ == old(self)@.remove(v)
                    &&& final(self)@.len() == old(self)@.len() - 1
                },
            },
    {
        proof {
            lemma_forest_ms_len(self.roots@);
        }
        if self.roots.len() == 0 {
            return Option::None;
        }
        let ghost orig = self.roots@;
        let ghost oldms = forest_ms(orig);
        let t = self.roots.pop().unwrap();
        proof {
            assert(self.roots@ =~= orig.drop_last());
            assert(t == orig.last());
            lemma_tree_ms_len(t);
            assert(oldms.count(t.node) > 0);
        }
        self.len = self.len - 1;
        let Tree { node, children } = t;
        let mut children = children;
        proof {
            assert(oldms.remove(node) =~= forest_ms(self.roots@).add(forest_ms(children@)));
        }
        while children.len() > 0
            invariant
                forest_wf(self.roots@),
                forest_binomial(self.roots@),
                forall|k: int| 0 <= k < children@.len() ==> tree_wf(#[trigger] children@[k]),
                forall|k: int| 0 <= k < children@.len() ==> tree_binomial(#[trigger] children@[k]),
                forest_ms(self.roots@).add(forest_ms(children@)) == oldms.remove(node),
                oldms.count(node) > 0,
                self.len == oldms.len() - 1,
            decreases children@.len(),
        {
            let ghost pr = self.roots@;
            let c = children.pop().unwrap();
            self.roots.push(c);
            proof {
                lemma_forest_ms_push(pr, c);
                assert(forest_ms(self.roots@).add(forest_ms(children@)) =~= oldms.remove(node));
            }
        }
        proof {
            assert(forest_ms(self.roots@).add(forest_ms(children@)) =~= forest_ms(self.roots@));
            assert(oldms =~= forest_ms(self.roots@).insert(node));
        }
        rebalance(&mut self.roots, self.len);
        order_min(&mut self.roots);
        proof {
            lemma_forest_ms_len(self.roots@);
        }
        Option::Some(node)
    }

    /// Build a heap from a sequence of elements; observably the same as
    /// pushing each element in turn.
    pub fn from_vec(items: Vec<T>) -> (h: Self)
        ensures
            h.wf(),
            h@ == items@.to_multiset(),
    {
        let ghost all = items@;
        let total = items.len();
        let mut items = items;
        let mut h = Self::new();
        proof {
            assert(h@.add(items@.to_multiset()) =~= all.to_multiset());
        }
        while items.len() > 0
            invariant
                h.wf(),
                h@.add(items@.to_multiset()) == all.to_multiset(),
                h@.len() + items@.len() == total,
            decreases items@.len(),
        {
            let ghost prev = items@;
            let x = items.pop().unwrap();
            proof {
                assert(items@ =~= prev.remove(prev.len() - 1));
                assert(prev[prev.len() - 1] == x);
                assert(prev.contains(x));
                assert(prev.to_multiset().count(x) > 0);
            }
            h.push(x);
            proof {
                assert(h@.add(items@.to_multiset()) =~= all.to_multiset());
            }
        }
        proof {
            assert(h@ =~= all.to_multiset());
        }
        h
    }
}

} // verus!
