use crate::order::{below_all, TotalOrdered};
use vstd::arithmetic::power2::{lemma2_to64, pow2};
use vstd::multiset::Multiset;
use vstd::prelude::*;

verus! {

broadcast use vstd::multiset::group_multiset_axioms;

/// An owned multiway tree node: one element and an ordered sequence of child
/// trees.  A heap's forest is a `Vec` of these.
pub struct Tree<T> {
    pub node: T,
    pub children: Vec<Tree<T>>,
}

/// The multiset of every element stored in `t`, descendants included.
pub open spec fn tree_ms<T>(t: Tree<T>) -> Multiset<T>
    decreases t,
{
    forest_ms(t.children@).insert(t.node)
}

/// The multiset of every element stored in any tree of `s`.
pub open spec fn forest_ms<T>(s: Seq<Tree<T>>) -> Multiset<T>
    decreases s,
{
    if s.len() == 0 {
        Multiset::empty()
    } else {
        forest_ms(s.drop_last()).add(tree_ms(s.last()))
    }
}

/// The min-heap property: a node's element is less than or equal to each
/// direct child's element, recursively through the whole tree.
pub open spec fn tree_wf<T: TotalOrdered>(t: Tree<T>) -> bool
    decreases t,
{
    &&& forall|i: int|
        0 <= i < t.children@.len() ==> t.node.le_spec((#[trigger] t.children@[i]).node)
    &&& forall|i: int| 0 <= i < t.children@.len() ==> tree_wf(#[trigger] t.children@[i])
}

/// Every tree of the forest satisfies the min-heap property.
pub open spec fn forest_wf<T: TotalOrdered>(s: Seq<Tree<T>>) -> bool {
    forall|i: int| 0 <= i < s.len() ==> tree_wf(#[trigger] s[i])
}

/// The shape invariant that degree-doubling merges maintain: a tree of degree
/// `d` holds exactly `2^d` elements, recursively through its children.  This
/// is what bounds every degree by `log2` of the element count.
pub open spec fn tree_binomial<T>(t: Tree<T>) -> bool
    decreases t,
{
    &&& tree_ms(t).len() == pow2(t.children@.len() as nat)
    &&& forall|i: int| 0 <= i < t.children@.len() ==> tree_binomial(#[trigger] t.children@[i])
}

/// Every tree of the forest has the binomial shape.
pub open spec fn forest_binomial<T>(s: Seq<Tree<T>>) -> bool {
    forall|i: int| 0 <= i < s.len() ==> tree_binomial(#[trigger] s[i])
}

impl<T: TotalOrdered> Tree<T> {
    /// A degree-0 singleton holding `root`.
    pub fn new(root: T) -> (t: Self)
        ensures
            t.node == root,
            t.children@.len() == 0,
            tree_ms(t) == Multiset::empty().insert(root),
            tree_wf(t),
            tree_binomial(t),
    {
        let t = Tree { node: root, children: Vec::new() };
        proof {
            assert(tree_ms(t) =~= Multiset::empty().insert(root));
            lemma2_to64();
        }
        t
    }

    /// The element at the root of the tree.
    pub fn root(&self) -> (r: &T)
        ensures
            *r == self.node,
    {
        &self.node
    }

    /// The number of direct children; used as the bucket key during
    /// consolidation.
    pub fn degree(&self) -> (d: usize)
        ensures
            d == self.children@.len(),
    {
        self.children.len()
    }

    /// The number of elements in this tree, the root included.
    pub fn count_nodes(&self) -> (n: usize)
        requires
            tree_ms(*self).len() <= usize::MAX,
        ensures
            n == tree_ms(*self).len(),
        decreases *self,
    {
        let mut n: usize = 1;
        let mut i: usize = 0;
        proof {
            assert(self.children@.subrange(0, self.children@.len() as int) =~= self.children@);
        }
        while i < self.children.len()
            invariant
                i <= self.children@.len(),
                tree_ms(*self).len() <= usize::MAX,
                n + forest_ms(
                    self.children@.subrange(i as int, self.children@.len() as int),
                ).len() == tree_ms(*self).len(),
            decreases self.children@.len() - i,
        {
            proof {
                let rest = self.children@.subrange(i as int, self.children@.len() as int);
                lemma_forest_ms_drop_first(rest);
                assert(rest.drop_first() =~= self.children@.subrange(
                    i + 1,
                    self.children@.len() as int,
                ));
                assert(rest.first() == self.children@[i as int]);
            }
            let c = self.children[i].count_nodes();
            n = n + c;
            i = i + 1;
        }
        proof {
            assert(self.children@.subrange(
                self.children@.len() as int,
                self.children@.len() as int,
            ) =~= Seq::<Tree<T>>::empty());
        }
        n
    }
}

/// A tree holds at least its root.
pub proof fn lemma_tree_ms_len<T>(t: Tree<T>)
    ensures
        tree_ms(t).len() >= 1,
        tree_ms(t).count(t.node) >= 1,
{
}

/// A forest is empty exactly when it holds no element.
pub proof fn lemma_forest_ms_len<T>(s: Seq<Tree<T>>)
    ensures
        forest_ms(s).len() == 0 <==> s.len() == 0,
{
    if s.len() > 0 {
        lemma_tree_ms_len(s.last());
    }
}

/// A non-empty forest's elements split as its first tree plus the rest.
pub proof fn lemma_forest_ms_drop_first<T>(s: Seq<Tree<T>>)
    requires
        s.len() > 0,
    ensures
        forest_ms(s) == forest_ms(s.drop_first()).add(tree_ms(s.first())),
    decreases s.len(),
{
    if s.len() == 1 {
        assert(s.drop_first() =~= Seq::<Tree<T>>::empty());
        assert(s.drop_last() =~= Seq::<Tree<T>>::empty());
        assert(s.last() == s.first());
        assert(forest_ms(s) =~= forest_ms(s.drop_first()).add(tree_ms(s.first())));
    } else {
        lemma_forest_ms_drop_first(s.drop_last());
        assert(s.drop_last().drop_first() =~= s.drop_first().drop_last());
        assert(s.drop_last().first() == s.first());
        assert(s.drop_first().last() == s.last());
        assert(forest_ms(s) =~= forest_ms(s.drop_first()).add(tree_ms(s.first())));
    }
}

/// Appending a tree to a forest adds exactly that tree's elements.
pub proof fn lemma_forest_ms_push<T>(s: Seq<Tree<T>>, t: Tree<T>)
    ensures
        forest_ms(s.push(t)) == forest_ms(s).add(tree_ms(t)),
{
    assert(s.push(t).drop_last() =~= s);
    assert(s.push(t).last() == t);
}

/// Removing the tree at index `i` takes away exactly that tree's elements.
pub proof fn lemma_forest_ms_remove<T>(s: Seq<Tree<T>>, i: int)
    requires
        0 <= i < s.len(),
    ensures
        forest_ms(s) == forest_ms(s.remove(i)).add(tree_ms(s[i])),
    decreases s.len(),
{
    if i == s.len() - 1 {
        assert(s.remove(i) =~= s.drop_last());
        assert(forest_ms(s) =~= forest_ms(s.remove(i)).add(tree_ms(s[i])));
    } else {
        lemma_forest_ms_remove(s.drop_last(), i);
        assert(s.remove(i).drop_last() =~= s.drop_last().remove(i));
        assert(s.remove(i).last() == s.last());
        assert(s.drop_last()[i] == s[i]);
        assert(forest_ms(s) =~= forest_ms(s.remove(i)).add(tree_ms(s[i])));
    }
}

/// Inserting a tree at index `i` adds exactly that tree's elements.
pub proof fn lemma_forest_ms_insert<T>(s: Seq<Tree<T>>, i: int, t: Tree<T>)
    requires
        0 <= i <= s.len(),
    ensures
        forest_ms(s.insert(i, t)) == forest_ms(s).add(tree_ms(t)),
    decreases s.len(),
{
    if i == s.len() {
        assert(s.insert(i, t).drop_last() =~= s);
        assert(s.insert(i, t).last() == t);
    } else {
        lemma_forest_ms_insert(s.drop_last(), i, t);
        assert(s.insert(i, t).drop_last() =~= s.drop_last().insert(i, t));
        assert(s.insert(i, t).last() == s.last());
        assert(forest_ms(s.insert(i, t)) =~= forest_ms(s).add(tree_ms(t)));
    }
}

/// Every element of a forest lives in one of its trees.
pub proof fn lemma_forest_ms_member<T>(s: Seq<Tree<T>>, x: T)
    requires
        forest_ms(s).count(x) > 0,
    ensures
        exists|i: int| 0 <= i < s.len() && #[trigger] tree_ms(s[i]).count(x) > 0,
    decreases s.len(),
{
    if tree_ms(s.last()).count(x) > 0 {
        assert(tree_ms(s[s.len() - 1]).count(x) > 0);
    } else {
        lemma_forest_ms_member(s.drop_last(), x);
        let i = choose|i: int|
            0 <= i < s.drop_last().len() && #[trigger] tree_ms(s.drop_last()[i]).count(x) > 0;
        assert(tree_ms(s[i]).count(x) > 0);
    }
}

/// The min-heap property makes the root a lower bound for the whole tree.
pub proof fn lemma_tree_wf_min<T: TotalOrdered>(t: Tree<T>)
    requires
        tree_wf(t),
    ensures
        below_all(t.node, tree_ms(t)),
    decreases t,
{
    assert forall|x: T| tree_ms(t).count(x) > 0 implies t.node.le_spec(x) by {
        if forest_ms(t.children@).count(x) > 0 {
            lemma_forest_ms_member(t.children@, x);
            let i = choose|i: int|
                0 <= i < t.children@.len() && #[trigger] tree_ms(t.children@[i]).count(x) > 0;
            lemma_tree_wf_min(t.children@[i]);
            T::transitive(t.node, t.children@[i].node, x);
        } else {
            assert(x == t.node);
            T::reflexive(t.node);
        }
    }
}

/// A value below every root of a well-formed forest is below every element
/// the forest holds.
pub proof fn lemma_forest_min<T: TotalOrdered>(s: Seq<Tree<T>>, v: T)
    requires
        forest_wf(s),
        forall|i: int| 0 <= i < s.len() ==> v.le_spec((#[trigger] s[i]).node),
    ensures
        below_all(v, forest_ms(s)),
{
    assert forall|x: T| forest_ms(s).count(x) > 0 implies v.le_spec(x) by {
        lemma_forest_ms_member(s, x);
        let i = choose|i: int| 0 <= i < s.len() && #[trigger] tree_ms(s[i]).count(x) > 0;
        lemma_tree_wf_min(s[i]);
        T::transitive(v, s[i].node, x);
    }
}

} // verus!
