use crate::consolidate::rebalance;
use crate::order::{below_all, is_min_of, TotalOrdered};
use crate::tree::{
    forest_binomial, forest_ms, forest_wf, lemma_forest_min, lemma_forest_ms_insert,
    lemma_forest_ms_len, lemma_forest_ms_push, lemma_forest_ms_remove, lemma_tree_ms_len,
    tree_binomial, tree_ms, tree_wf, Tree,
};
use vstd::multiset::Multiset;
use vstd::prelude::*;

verus! {

broadcast use vstd::multiset::group_multiset_axioms, vstd::seq_lib::group_to_multiset_ensures;

/// The total number of elements across all trees of the forest.
pub fn count_nodes<T: TotalOrdered>(xs: &Vec<Tree<T>>) -> (n: usize)
    requires
        forest_ms(xs@).len() <= usize::MAX,
    ensures
        n == forest_ms(xs@).len(),
{
    let mut n: usize = 0;
    let mut i: usize = 0;
    proof {
        assert(xs@.subrange(0, xs@.len() as int) =~= xs@);
    }
    while i < xs.len()
        invariant
            i <= xs@.len(),
            forest_ms(xs@).len() <= usize::MAX,
            n + forest_ms(xs@.subrange(i as int, xs@.len() as int)).len() == forest_ms(xs@).len(),
        decreases xs@.len() - i,
    {
        proof {
            let rest = xs@.subrange(i as int, xs@.len() as int);
            crate::tree::lemma_forest_ms_drop_first(rest);
            assert(rest.drop_first() =~= xs@.subrange(i + 1, xs@.len() as int));
            assert(rest.first() == xs@[i as int]);
        }
        let c = xs[i].count_nodes();
        n = n + c;
        i = i + 1;
    }
    proof {
        assert(xs@.subrange(xs@.len() as int, xs@.len() as int) =~= Seq::<Tree<T>>::empty());
    }
    n
}

/// Locate the first minimum-valued root and rotate it to the front,
/// preserving the relative order of the remaining roots: the forest becomes
/// `old[b..] ++ old[..b]`, where `b` is the first index holding a minimum.
pub fn bring_min_to_front<T: TotalOrdered>(roots: &mut Vec<Tree<T>>)
    requires
        forest_wf(old(roots)@),
        forest_binomial(old(roots)@),
    ensures
        final(roots)@.len() == old(roots)@.len(),
        forest_ms(final(roots)@) == forest_ms(old(roots)@),
        forest_wf(final(roots)@),
        forest_binomial(final(roots)@),
        final(roots)@.len() > 0 ==> below_all(final(roots)@[0].node, forest_ms(final(roots)@)),
        old(roots)@.len() > 0 ==> exists|b: int|
            #![auto]
            (0 <= b < old(roots)@.len() && (forall|k: int|
                0 <= k < old(roots)@.len() ==> old(roots)@[b].node.le_spec(
                    (#[trigger] old(roots)@[k]).node,
                )) && (forall|k: int|
                0 <= k < b ==> !(#[trigger] old(roots)@[k]).node.le_spec(old(roots)@[b].node))
                && final(roots)@ == old(roots)@.subrange(b, old(roots)@.len() as int)
                + old(roots)@.subrange(0, b)),
{
    if roots.len() == 0 {
        return ;
    }
    let mut best: usize = 0;
    let mut i: usize = 1;
    proof {
        T::reflexive(roots@[0].node);
    }
    while i < roots.len()
        invariant
            1 <= i <= roots@.len(),
            (best as int) < i,
            forall|k: int|
                0 <= k < i ==> roots@[best as int].node.le_spec((#[trigger] roots@[k]).node),
            forall|k: int|
                0 <= k < best ==> !(#[trigger] roots@[k]).node.le_spec(
                    roots@[best as int].node,
                ),
        decreases roots@.len() - i,
    {
        if !(roots[best].node.le(&roots[i].node)) {
            proof {
                T::total(roots@[best as int].node, roots@[i as int].node);
                assert forall|k: int| 0 <= k < i + 1 implies roots@[i as int].node.le_spec(
                    (#[trigger] roots@[k]).node,
                ) by {
                    if k < i {
                        T::transitive(
                            roots@[i as int].node,
                            roots@[best as int].node,
                            roots@[k].node,
                        );
                    } else {
                        T::reflexive(roots@[i as int].node);
                    }
                };
                assert forall|k: int| 0 <= k < i implies !(#[trigger] roots@[k]).node.le_spec(
                    roots@[i as int].node,
                ) by {
                    if roots@[k].node.le_spec(roots@[i as int].node) {
                        T::transitive(
                            roots@[best as int].node,
                            roots@[k].node,
                            roots@[i as int].node,
                        );
                    }
                };
            }
            best = i;
        }
        i = i + 1;
    }
    let ghost orig = roots@;
    let ghost minv = roots@[best as int].node;
    proof {
        assert(roots@ =~= orig.subrange(0, orig.len() as int) + orig.subrange(0, 0));
    }
    let mut k: usize = 0;
    while k < best
        invariant
            k <= best,
            (best as int) < orig.len(),
            roots@.len() == orig.len(),
            roots@ == orig.subrange(k as int, orig.len() as int) + orig.subrange(0, k as int),
            forest_ms(roots@) == forest_ms(orig),
        decreases best - k,
    {
        let ghost prev = roots@;
        let t = roots.remove(0);
        roots.push(t);
        proof {
            lemma_forest_ms_remove(prev, 0);
            lemma_forest_ms_push(prev.remove(0), t);
            assert(forest_ms(roots@) =~= forest_ms(orig));
            assert(roots@ =~= orig.subrange(k + 1, orig.len() as int) + orig.subrange(0, k + 1));
        }
        k = k + 1;
    }
    proof {
        let len = orig.len() as int;
        let b = best as int;
        assert forall|j: int| 0 <= j < len implies tree_wf(#[trigger] roots@[j]) && tree_binomial(
            roots@[j],
        ) && minv.le_spec(roots@[j].node) by {
            if j < len - b {
                assert(roots@[j] == orig[b + j]);
            } else {
                assert(roots@[j] == orig[j - (len - b)]);
            }
        };
        assert(roots@[0] == orig[b]);
        lemma_forest_min(roots@, minv);
        assert(orig == old(roots)@);
        assert(forall|k: int|
            0 <= k < orig.len() ==> orig[b].node.le_spec((#[trigger] orig[k]).node));
        assert(forall|k: int| 0 <= k < b ==> !(#[trigger] orig[k]).node.le_spec(orig[b].node));
        assert(roots@ == orig.subrange(b, orig.len() as int) + orig.subrange(0, b));
    }
}

/// A Fibonacci-style min-heap whose root forest keeps its minimum at the
/// front of a sequence of trees: insertion prepends or appends depending on a
/// comparison with the current minimum, and extraction pops the front.
pub struct FibonacciHeap<T> {
    roots: Vec<Tree<T>>,
    len: usize,
}

impl<T: TotalOrdered> View for FibonacciHeap<T> {
    type V = Multiset<T>;

    closed spec fn view(&self) -> Multiset<T> {
        forest_ms(self.roots@)
    }
}

impl<T: TotalOrdered> FibonacciHeap<T> {
    /// The heap's invariant: every tree is heap-ordered and binomial, `len`
    /// counts every element across the forest, and the front root holds the
    /// minimum of everything stored.
    pub closed spec fn wf(self) -> bool {
        &&& forest_wf(self.roots@)
        &&& forest_binomial(self.roots@)
        &&& self.len == forest_ms(self.roots@).len()
        &&& self.roots@.len() > 0 ==> below_all(self.roots@[0].node, forest_ms(self.roots@))
    }

    /// An empty heap.
    pub fn new() -> (h: Self)
        ensures
            h.wf(),
            h@ == Multiset::<T>::empty(),
            h@.len() == 0,
    {
        let h = FibonacciHeap { roots: Vec::new(), len: 0 };
        proof {
            assert(h@ =~= Multiset::<T>::empty());
        }
        h
    }

    /// The number of elements currently held; tracked incrementally, O(1).
    pub fn len(&self) -> (n: usize)
        requires
            self.wf(),
        ensures
            n == self@.len(),
    {
        self.len
    }

    /// A reference to the minimum element, or `None` when the heap is empty.
    pub fn peek(&self) -> (r: Option<&T>)
        requires
            self.wf(),
        ensures
            match r {
                Option::None => self@.len() == 0,
                Option::Some(v) => self@.len() > 0 && is_min_of(*v, self@),
            },
    {
        proof {
            lemma_forest_ms_len(self.roots@);
        }
        if self.roots.len() == 0 {
            Option::None
        } else {
            proof {
                lemma_forest_ms_remove(self.roots@, 0);
                lemma_tree_ms_len(self.roots@[0]);
            }
            Option::Some(self.roots[0].root())
        }
    }

    /// Insert an element.  A new minimum goes to the front; anything else is
    /// appended, leaving the previous minimum in place.
    pub fn push(&mut self, item: T)
        requires
            old(self).wf(),
            old(self)@.len() < usize::MAX,
        ensures
            final(self).wf(),
            final(self)@ == old(self)@.insert(item),
            final(self)@.len() == old(self)@.len() + 1,
    {
        let ghost orig = self.roots@;
        let ghost oldms = forest_ms(orig);
        if self.roots.len() == 0 {
            let t = Tree::new(item);
            self.roots.push(t);
            proof {
                lemma_forest_ms_push(orig, t);
                assert(forest_ms(self.roots@) =~= oldms.insert(item));
                T::reflexive(item);
                assert forall|x: T| forest_ms(self.roots@).count(x) > 0 implies item.le_spec(
                    x,
                ) by {
                    assert(x == item);
                };
            }
        } else {
            let new_min = item.le(&self.roots[0].node);
            let t = Tree::new(item);
            if new_min {
                self.roots.insert(0, t);
                proof {
                    lemma_forest_ms_insert(orig, 0, t);
                    assert(forest_ms(self.roots@) =~= oldms.insert(item));
                    assert forall|x: T| forest_ms(self.roots@).count(x) > 0 implies item.le_spec(
                        x,
                    ) by {
                        if oldms.count(x) > 0 {
                            T::transitive(item, orig[0].node, x);
                        } else {
                            assert(x == item);
                            T::reflexive(item);
                        }
                    };
                }
            } else {
                self.roots.push(t);
                proof {
                    lemma_forest_ms_push(orig, t);
                    assert(forest_ms(self.roots@) =~= oldms.insert(item));
                    T::total(item, orig[0].node);
                    assert forall|x: T| forest_ms(self.roots@).count(x) > 0 implies orig[0].node.le_spec(
                        x,
                    ) by {
                        if oldms.count(x) > 0 {
                        } else {
                            assert(x == item);
                        }
                    };
                }
            }
        }
        self.len = self.len + 1;
    }

    /// Remove and return the minimum element, or `None` when the heap is
    /// empty.  The popped root's children are promoted into the forest, the
    /// forest is consolidated, and the new minimum is rotated to the front.
    pub fn pop(&mut self) -> (r: Option<T>)
        requires
            old(self).wf(),
        ensures
            final(self).wf(),
            match r {
                Option::None => old(self)@.len() == 0 && final(self)@ == old(self)@,
                Option::Some(v) => {
                    &&& old(self)@.len() > 0
                    &&& is_min_of(v, old(self)@)
                    &&& final(self)@ == old(self)@.remove(v)
                    &&& final(self)@.len() == old(self)@.len() - 1
                },
            },
    {
        proof {
            lemma_forest_ms_len(self.roots@);
        }
        if self.roots.len() == 0 {
            return Option::None;
        }
        let ghost orig = self.roots@;
        let ghost oldms = forest_ms(orig);
        let t = self.roots.remove(0);
        proof {
            lemma_forest_ms_remove(orig, 0);
            lemma_tree_ms_len(t);
            assert(oldms.count(t.node) > 0);
        }
        self.len = self.len - 1;
        let Tree { node, children } = t;
        let mut children = children;
        proof {
            assert(oldms.remove(node) =~= forest_ms(self.roots@).add(forest_ms(children@)));
        }
        while children.len() > 0
            invariant
                forest_wf(self.roots@),
                forest_binomial(self.roots@),
                forall|k: int| 0 <= k < children@.len() ==> tree_wf(#[trigger] children@[k]),
                forall|k: int| 0 <= k < children@.len() ==> tree_binomial(#[trigger] children@[k]),
                forest_ms(self.roots@).add(forest_ms(children@)) == oldms.remove(node),
                oldms.count(node) > 0,
                self.len == oldms.len() - 1,
            decreases children@.len(),
        {
            let ghost pr = self.roots@;
            let c = children.pop().unwrap();
            self.roots.push(c);
            proof {
                lemma_forest_ms_push(pr, c);
                assert(forest_ms(self.roots@).add(forest_ms(children@)) =~= oldms.remove(node));
            }
        }
        proof {
            assert(forest_ms(self.roots@).add(forest_ms(children@)) =~= forest_ms(
                self.roots@,
            ));
            assert(oldms =~= forest_ms(self.roots@).insert(node));
        }
        rebalance(&mut self.roots, self.len);
        bring_min_to_front(&mut self.roots);
        proof {
            lemma_forest_ms_len(self.roots@);
        }
        Option::Some(node)
    }

    /// Build a heap from a sequence of elements; observably the same as
    /// pushing each element in turn.
    pub fn from_vec(items: Vec<T>) -> (h: Self)
        ensures
            h.wf(),
            h@ == items@.to_multiset(),
    {
        let ghost all = items@;
        let total = items.len();
        let mut items = items;
        let mut h = Self::new();
        proof {
            assert(h@.add(items@.to_multiset()) =~= all.to_multiset());
        }
        while items.len() > 0
            invariant
                h.wf(),
                h@.add(items@.to_multiset()) == all.to_multiset(),
                h@.len() + items@.len() == total,
            decreases items@.len(),
        {
            let ghost prev = items@;
            let x = items.pop().unwrap();
            proof {
                assert(items@ =~= prev.remove(prev.len() - 1));
                assert(prev[prev.len() - 1] == x);
                assert(prev.contains(x));
                assert(prev.to_multiset().count(x) > 0);
            }
            h.push(x);
            proof {
                assert(h@.add(items@.to_multiset()) =~= all.to_multiset());
            }
        }
        proof {
            assert(h@ =~= all.to_multiset());
        }
        h
    }
}

} // verus!
