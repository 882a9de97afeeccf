use crate::order::TotalOrdered;
use crate::tree::{
    forest_binomial, forest_ms, forest_wf, lemma_forest_ms_len, tree_binomial, tree_ms, tree_wf,
    Tree,
};
use vstd::arithmetic::power2::{
    lemma2_to64, lemma_pow2_adds, lemma_pow2_pos, lemma_pow2_strictly_increases, pow2,
};
use vstd::multiset::Multiset;
use vstd::prelude::*;

verus! {

broadcast use vstd::multiset::group_multiset_axioms;

/// The elements held in one bucket slot.
pub open spec fn slot_ms<T>(o: Option<Tree<T>>) -> Multiset<T> {
    match o {
        Option::Some(t) => tree_ms(t),
        Option::None => Multiset::empty(),
    }
}

/// The elements held across all bucket slots.
pub open spec fn buckets_ms<T>(s: Seq<Option<Tree<T>>>) -> Multiset<T>
    decreases s,
{
    if s.len() == 0 {
        Multiset::empty()
    } else {
        buckets_ms(s.drop_last()).add(slot_ms(s.last()))
    }
}

/// Bucket invariant: slot `k` holds, if anything, a well-formed binomial tree
/// of degree exactly `k`.
pub open spec fn buckets_ok<T: TotalOrdered>(s: Seq<Option<Tree<T>>>) -> bool {
    forall|k: int|
        0 <= k < s.len() ==> match #[trigger] s[k] {
            Option::Some(t) => t.children@.len() == k && tree_wf(t) && tree_binomial(t),
            Option::None => true,
        }
}

proof fn lemma_buckets_ms_remove<T>(s: Seq<Option<Tree<T>>>, i: int)
    requires
        0 <= i < s.len(),
    ensures
        buckets_ms(s) == buckets_ms(s.remove(i)).add(slot_ms(s[i])),
    decreases s.len(),
{
    if i == s.len() - 1 {
        assert(s.remove(i) =~= s.drop_last());
        assert(buckets_ms(s) =~= buckets_ms(s.remove(i)).add(slot_ms(s[i])));
    } else {
        lemma_buckets_ms_remove(s.drop_last(), i);
        assert(s.remove(i).drop_last() =~= s.drop_last().remove(i));
        assert(s.remove(i).last() == s.last());
        assert(s.drop_last()[i] == s[i]);
        assert(buckets_ms(s) =~= buckets_ms(s.remove(i)).add(slot_ms(s[i])));
    }
}

proof fn lemma_buckets_ms_insert<T>(s: Seq<Option<Tree<T>>>, i: int, o: Option<Tree<T>>)
    requires
        0 <= i <= s.len(),
    ensures
        buckets_ms(s.insert(i, o)) == buckets_ms(s).add(slot_ms(o)),
    decreases s.len(),
{
    if i == s.len() {
        assert(s.insert(i, o).drop_last() =~= s);
        assert(s.insert(i, o).last() == o);
    } else {
        lemma_buckets_ms_insert(s.drop_last(), i, o);
        assert(s.insert(i, o).drop_last() =~= s.drop_last().insert(i, o));
        assert(s.insert(i, o).last() == s.last());
        assert(buckets_ms(s.insert(i, o)) =~= buckets_ms(s).add(slot_ms(o)));
    }
}

/// Every natural number is below its power of two.
proof fn lemma_nat_lt_pow2(n: nat)
    ensures
        n < pow2(n),
    decreases n,
{
    lemma2_to64();
    if n > 0 {
        lemma_nat_lt_pow2((n - 1) as nat);
        lemma_pow2_adds((n - 1) as nat, 1);
        lemma_pow2_pos((n - 1) as nat);
    }
}

/// The number of degree buckets consolidation needs for a forest holding
/// `nodes` elements: the smallest `c` with `nodes < 2^c`, which equals
/// `floor(log2(nodes)) + 1`.
pub fn bucket_count(nodes: usize) -> (c: usize)
    requires
        1 <= nodes,
    ensures
        nodes < pow2(c as nat),
        pow2((c - 1) as nat) <= nodes,
        1 <= c,
{
    let mut m: usize = nodes;
    let mut c: usize = 0;
    proof {
        lemma2_to64();
    }
    while m > 0
        invariant
            pow2(c as nat) * m <= nodes,
            nodes < pow2(c as nat) * (m + 1),
            c >= 1 ==> pow2((c - 1) as nat) <= nodes,
        decreases m,
    {
        proof {
            let p = pow2(c as nat);
            let h = m as int / 2;
            lemma_nat_lt_pow2(c as nat);
            lemma_pow2_pos(c as nat);
            assert(p <= p * m) by (nonlinear_arith)
                requires
                    m >= 1,
                    p >= 1,
            ;
            assert(c < usize::MAX);
            lemma_pow2_adds(c as nat, 1);
            lemma2_to64();
            assert(pow2((c + 1) as nat) == 2 * p);
            assert(2 * h <= m as int && m as int <= 2 * h + 1);
            assert(2 * p * h <= p * (m as int)) by (nonlinear_arith)
                requires
                    2 * h <= m as int,
                    p >= 0,
            ;
            assert(p * (m as int + 1) <= 2 * p * (h + 1)) by (nonlinear_arith)
                requires
                    m as int + 1 <= 2 * h + 2,
                    p >= 0,
            ;
        }
        m = m / 2;
        c = c + 1;
    }
    proof {
        assert(m == 0);
        assert(pow2(c as nat) * (m + 1) == pow2(c as nat)) by (nonlinear_arith)
            requires
                m == 0,
        ;
        if c == 0 {
            lemma2_to64();
            assert(false);
        }
    }
    c
}

proof fn lemma_merge<T: TotalOrdered>(w: Tree<T>, l: Tree<T>, r: Tree<T>)
    requires
        tree_wf(w),
        tree_wf(l),
        tree_binomial(w),
        tree_binomial(l),
        w.children@.len() == l.children@.len(),
        w.node.le_spec(l.node),
        r.node == w.node,
        r.children@ == w.children@.push(l),
    ensures
        tree_wf(r),
        tree_binomial(r),
        r.children@.len() == w.children@.len() + 1,
        tree_ms(r) == tree_ms(w).add(tree_ms(l)),
{
    crate::tree::lemma_forest_ms_push(w.children@, l);
    assert(tree_ms(r) =~= tree_ms(w).add(tree_ms(l)));
    let d = w.children@.len() as nat;
    lemma_pow2_adds(d, 1);
    lemma2_to64();
    assert(tree_ms(r).len() == pow2(d + 1));
    assert(tree_wf(r));
    assert(tree_binomial(r));
}

/// Merge two trees of equal degree: the root holding the larger element
/// becomes a child of the other, whose degree grows by one.
pub fn merge<T: TotalOrdered>(a: Tree<T>, b: Tree<T>) -> (r: Tree<T>)
    requires
        tree_wf(a),
        tree_wf(b),
        tree_binomial(a),
        tree_binomial(b),
        a.children@.len() == b.children@.len(),
    ensures
        tree_wf(r),
        tree_binomial(r),
        r.children@.len() == a.children@.len() + 1,
        tree_ms(r) == tree_ms(a).add(tree_ms(b)),
{
    if a.node.le(&b.node) {
        let mut win = a;
        win.children.push(b);
        proof {
            lemma_merge(a, b, win);
        }
        win
    } else {
        proof {
            T::total(a.node, b.node);
        }
        let mut win = b;
        win.children.push(a);
        proof {
            lemma_merge(b, a, win);
            assert(tree_ms(win) =~= tree_ms(a).add(tree_ms(b)));
        }
        win
    }
}

/// Place `t` into the bucket of its degree; on collision merge the two
/// occupants and retry at the next degree, as consolidation demands.
fn bucket_insert<T: TotalOrdered>(buf: Vec<Option<Tree<T>>>, t: Tree<T>, nodes: usize) -> (r:
    Vec<Option<Tree<T>>>)
    requires
        buckets_ok(buf@),
        tree_wf(t),
        tree_binomial(t),
        buckets_ms(buf@).len() + tree_ms(t).len() <= nodes,
        nodes < pow2(buf@.len() as nat),
    ensures
        r@.len() == buf@.len(),
        buckets_ok(r@),
        buckets_ms(r@) == buckets_ms(buf@).add(tree_ms(t)),
    decreases buf@.len() - t.children@.len(),
{
    proof {
        if t.children@.len() >= buf@.len() {
            if t.children@.len() > buf@.len() {
                lemma_pow2_strictly_increases(buf@.len() as nat, t.children@.len() as nat);
            }
            assert(false);
        }
    }
    let ghost orig = buf@;
    let d = t.children.len();
    let mut buf = buf;
    let slot = buf.remove(d);
    proof {
        lemma_buckets_ms_remove(orig, d as int);
    }
    match slot {
        Option::None => {
            buf.insert(d, Option::Some(t));
            proof {
                lemma_buckets_ms_insert(orig.remove(d as int), d as int, Option::Some(t));
                assert(buf@ =~= orig.update(d as int, Option::Some(t)));
                assert(buckets_ms(buf@) =~= buckets_ms(orig).add(tree_ms(t)));
            }
            buf
        },
        Option::Some(b) => {
            buf.insert(d, Option::None);
            proof {
                lemma_buckets_ms_insert(orig.remove(d as int), d as int, Option::None);
                assert(buf@ =~= orig.update(d as int, Option::None));
            }
            let m = merge(t, b);
            proof {
                assert(buckets_ms(buf@).add(slot_ms(Option::Some(b))) =~= buckets_ms(orig));
                assert(buckets_ms(buf@).len() + tree_ms(m).len() <= nodes);
            }
            let r = bucket_insert(buf, m, nodes);
            proof {
                assert(buckets_ms(r@) =~= buckets_ms(orig).add(tree_ms(t)));
            }
            r
        },
    }
}

/// Consolidate a non-trivial forest: repeatedly merge equal-degree trees
/// through a degree-indexed bucket array until all root degrees are pairwise
/// distinct.  No element is lost or duplicated, the min-heap property of
/// every tree is preserved, and the result lists its trees in strictly
/// ascending degree order.  `nodes` must be the exact element count.
pub fn rebalance<T: TotalOrdered>(roots: &mut Vec<Tree<T>>, nodes: usize)
    requires
        forest_wf(old(roots)@),
        forest_binomial(old(roots)@),
        forest_ms(old(roots)@).len() == nodes,
    ensures
        forest_ms(final(roots)@) == forest_ms(old(roots)@),
        forest_wf(final(roots)@),
        forest_binomial(final(roots)@),
        forall|i: int, j: int|
            0 <= i < j < final(roots)@.len() ==> (#[trigger] final(roots)@[i]).children@.len() < (
            #[trigger] final(roots)@[j]).children@.len(),
{
    if roots.len() == 0 {
        return ;
    }
    proof {
        lemma_forest_ms_len(old(roots)@);
    }
    let cap = bucket_count(nodes);
    let ghost orig = roots@;
    let mut buf: Vec<Option<Tree<T>>> = Vec::new();
    while buf.len() < cap
        invariant
            buf@.len() <= cap,
            buckets_ok(buf@),
            buckets_ms(buf@) == Multiset::<T>::empty(),
        decreases cap - buf@.len(),
    {
        let ghost prev = buf@;
        buf.push(Option::None);
        proof {
            assert(buf@.drop_last() =~= prev);
            assert(buckets_ms(buf@) =~= Multiset::<T>::empty());
        }
    }
    while roots.len() > 0
        invariant
            buf@.len() == cap,
            nodes < pow2(cap as nat),
            buckets_ok(buf@),
            forest_wf(roots@),
            forest_binomial(roots@),
            buckets_ms(buf@).add(forest_ms(roots@)) == forest_ms(orig),
            forest_ms(orig).len() == nodes,
        decreases roots@.len(),
    {
        let ghost prev = roots@;
        let ghost prev_buckets = buckets_ms(buf@);
        let t = roots.pop().unwrap();
        proof {
            assert(roots@ =~= prev.drop_last());
            assert(t == prev.last());
            assert(forest_ms(prev) == forest_ms(roots@).add(tree_ms(t)));
        }
        buf = bucket_insert(buf, t, nodes);
        proof {
            assert(buckets_ms(buf@).add(forest_ms(roots@)) =~= forest_ms(orig));
        }
    }
    proof {
        assert(buckets_ms(buf@) =~= forest_ms(orig));
    }
    let mut j: usize = 0;
    while buf.len() > 0
        invariant
            j as int + buf@.len() == cap,
            forall|k: int|
                0 <= k < buf@.len() ==> match #[trigger] buf@[k] {
                    Option::Some(t) => t.children@.len() == j + k && tree_wf(t) && tree_binomial(
                        t,
                    ),
                    Option::None => true,
                },
            forest_wf(roots@),
            forest_binomial(roots@),
            forall|i: int| 0 <= i < roots@.len() ==> (#[trigger] roots@[i]).children@.len() < j,
            forall|i1: int, i2: int|
                0 <= i1 < i2 < roots@.len() ==> (#[trigger] roots@[i1]).children@.len() < (
                #[trigger] roots@[i2]).children@.len(),
            buckets_ms(buf@).add(forest_ms(roots@)) == forest_ms(orig),
        decreases buf@.len(),
    {
        let ghost prevb = buf@;
        let ghost prevr = roots@;
        let slot = buf.remove(0);
        proof {
            lemma_buckets_ms_remove(prevb, 0);
        }
        match slot {
            Option::Some(t) => {
                roots.push(t);
                proof {
                    crate::tree::lemma_forest_ms_push(prevr, t);
                    assert(buckets_ms(buf@).add(forest_ms(roots@)) =~= forest_ms(orig));
                }
            },
            Option::None => {
                proof {
                    assert(buckets_ms(buf@).add(forest_ms(roots@)) =~= forest_ms(orig));
                }
            },
        }
        j = j + 1;
    }
    proof {
        assert(forest_ms(roots@) =~= forest_ms(orig));
    }
}

} // verus!
