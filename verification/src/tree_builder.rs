//! Builds a tree from its root: each node, in turn, is asked for the data of
//! its children, which are added under fresh ids and built in the same way.
use vstd::prelude::*;
use vstd::relations::{sorted_by, total_ordering};
use vstd::seq_lib::lemma_sorted_unique;
use crate::tree::{ElementId, ElementIds, Node, Tree, is_new_node, same_but_children, sorted};

verus! {

/// Every id in `(lo, hi]` is a key of `m` and is a child of `root` or of a
/// key of `m` in `(lo, k)`; the children of these keys are keys in `(k, hi]`.
pub open spec fn grown_below<T>(m: Map<ElementId, Node<T>>, root: ElementId, lo: int, hi: int) -> bool {
    &&& forall|k: ElementId| lo < k <= hi ==> #[trigger] m.contains_key(k)
    &&& forall|k: ElementId| lo < k <= hi ==> #[trigger] has_parent_below(m, root, lo, k)
    &&& forall|k: ElementId, c: ElementId| lo < k <= hi && #[trigger] m[k].children@.contains(c) ==> k < c <= hi
}

/// `k` is a child of `root` or of a key of `m` in `(lo, k)`.
pub open spec fn has_parent_below<T>(m: Map<ElementId, Node<T>>, root: ElementId, lo: int, k: ElementId) -> bool {
    exists|p: ElementId| #[trigger] m.contains_key(p) && m[p].children@.contains(k) && (p == root || lo < p < k)
}

/// The ids of `m` are all at most `last`.
pub open spec fn ids_at_most<T>(m: Map<ElementId, Node<T>>, last: int) -> bool {
    forall|k: ElementId| #[trigger] m.contains_key(k) ==> k <= last
}

/// `m` is `m0` after the node `id` grew, below it, the nodes with the ids in
/// `(lo, hi]`: no other node of `m0` changed, and `id` kept its bounds and
/// its children and gained only new ones.
pub open spec fn build_inv<T>(m0: Map<ElementId, Node<T>>, m: Map<ElementId, Node<T>>, id: ElementId, lo: int, hi: int) -> bool {
    &&& m.dom() == m0.dom() + Set::new(|k: ElementId| lo < k <= hi)
    &&& forall|k: ElementId| #[trigger] m0.contains_key(k) && k != id ==> m[k] == m0[k]
    &&& m[id].local_bounds == m0[id].local_bounds
    &&& m[id].global_bounds == m0[id].global_bounds
    &&& forall|c: ElementId| #[trigger] m0[id].children@.contains(c) ==> m[id].children@.contains(c)
    &&& forall|c: ElementId| #[trigger] m[id].children@.contains(c) ==> m0[id].children@.contains(c) || lo < c <= hi
    &&& grown_below(m, id, lo, hi)
    &&& ids_at_most(m, hi)
}

proof fn lemma_step<T>(
    m0: Map<ElementId, Node<T>>,
    mb: Map<ElementId, Node<T>>,
    ma: Map<ElementId, Node<T>>,
    mr: Map<ElementId, Node<T>>,
    mf: Map<ElementId, Node<T>>,
    id: ElementId,
    c: ElementId,
    last0: int,
    lb: int,
    hi: int,
)
    requires
        m0.contains_key(id),
        ids_at_most(m0, last0),
        last0 <= lb,
        build_inv(m0, mb, id, last0, lb),
        c == lb + 1,
        c <= hi,
        ma.dom() == mb.dom().insert(c),
        forall|k: ElementId| #[trigger] mb.contains_key(k) && k != c ==> ma[k] == mb[k],
        ma[c].children@ == Seq::<ElementId>::empty(),
        build_inv(ma, mr, c, c as int, hi),
        mf.dom() == mr.dom(),
        forall|k: ElementId| #[trigger] mf.contains_key(k) && k != id ==> mf[k] == mr[k],
        same_but_children(mr[id], mf[id]),
        mf[id].children@.to_multiset() == mr[id].children@.to_multiset().insert(c),
    ensures
        build_inv(m0, mf, id, last0, hi),
{
    mr[id].children@.to_multiset_ensures();
    mf[id].children@.to_multiset_ensures();
    assert(mb.contains_key(id));
    assert(ma.contains_key(id));
    assert(id < c);
    assert(mr[id] == ma[id]);
    assert(ma[id] == mb[id]);
    assert forall|x: ElementId| #[trigger] mr[id].children@.contains(x) implies mf[id].children@.contains(x) by {
        assert(mr[id].children@.to_multiset().count(x) > 0);
        assert(mf[id].children@.to_multiset().count(x) > 0);
    }
    assert(mf[id].children@.contains(c)) by {
        assert(mf[id].children@.to_multiset().count(c) > 0);
    }
    assert forall|x: ElementId| #[trigger] mf[id].children@.contains(x) implies mr[id].children@.contains(x) || x == c by {
        assert(mf[id].children@.to_multiset().count(x) > 0);
        if x != c {
            assert(mr[id].children@.to_multiset().count(x) > 0);
        }
    }
    assert(mf.dom() =~= m0.dom() + Set::new(|k: ElementId| last0 < k <= hi));
    assert forall|k: ElementId| #[trigger] m0.contains_key(k) && k != id implies mf[k] == m0[k] by {
        assert(mb.contains_key(k));
        assert(ma.contains_key(k));
        assert(mf.contains_key(k));
        assert(k < c);
        assert(mf[k] == mr[k]);
        assert(mr[k] == ma[k]);
        assert(ma[k] == mb[k]);
    }
    assert forall|k: ElementId| last0 < k <= hi implies #[trigger] has_parent_below(mf, id, last0, k) by {
        if k < c {
            assert(has_parent_below(mb, id, last0, k));
            let p = choose|p: ElementId| #[trigger] mb.contains_key(p) && mb[p].children@.contains(k) && (p == id || last0 < p < k);
            if p != id {
                assert(ma.contains_key(p));
                assert(mr[p] == ma[p]);
                assert(mf.contains_key(p));
                assert(mf[p] == mr[p]);
            }
            assert(mf.contains_key(p) && mf[p].children@.contains(k));
        } else if k == c {
            assert(mf.contains_key(id) && mf[id].children@.contains(k));
        } else {
            assert(has_parent_below(mr, c, c as int, k));
            let p = choose|p: ElementId| #[trigger] mr.contains_key(p) && mr[p].children@.contains(k) && (p == c || c < p < k);
            assert(mf.contains_key(p));
            assert(mf[p] == mr[p]);
            assert(mf.contains_key(p) && mf[p].children@.contains(k));
        }
    }
    assert forall|k: ElementId, x: ElementId| last0 < k <= hi && #[trigger] mf[k].children@.contains(x) implies k < x <= hi by {
        assert(k != id);
        assert(mf.contains_key(k));
        assert(mf[k] == mr[k]);
        if k < c {
            assert(mb.contains_key(k));
            assert(ma[k] == mb[k]);
            assert(mr[k] == ma[k]);
            assert(mb[k].children@.contains(x));
        } else if k == c {
            assert(mr[c].children@.contains(x));
            assert(!ma[c].children@.contains(x));
        } else {
            assert(mr[k].children@.contains(x));
        }
    }
    assert forall|x: ElementId| #[trigger] m0[id].children@.contains(x) implies mf[id].children@.contains(x) by {
        assert(mb[id].children@.contains(x));
    }
    assert forall|x: ElementId| #[trigger] mf[id].children@.contains(x) implies m0[id].children@.contains(x) || last0 < x <= hi by {
        if x != c {
            assert(mr[id].children@.contains(x));
            assert(mb[id].children@.contains(x));
        }
    }
}

/// The building of the node `id`, found in `m` before, ends with the ids
/// `(lo, hi]` handed out, none left over, from a tree whose ids were at most
/// `lo`, and `id` had no children.
pub open spec fn fresh_build<T>(m: Map<ElementId, Node<T>>, id: ElementId, lo: int, hi: int) -> bool {
    &&& hi < usize::MAX
    &&& ids_at_most(m, lo)
    &&& m[id].children@.len() == 0
}

/// The children of `k` in `m` are, in order, one per item of `out`, each
/// recorded in `inputs` as built from that item.
pub open spec fn children_from<T>(m: Map<ElementId, Node<T>>, inputs: Map<ElementId, T>, k: ElementId, out: Seq<T>) -> bool {
    &&& m[k].children@.len() == out.len()
    &&& forall|j: int| 0 <= j < out.len() ==> inputs.contains_key(#[trigger] m[k].children@[j]) && inputs[m[k].children@[j]] == out[j]
}

/// `s` holds strictly ascending ids.
pub open spec fn ascending(s: Seq<ElementId>) -> bool {
    forall|i: int, j: int| 0 <= i < j < s.len() ==> s[i] < s[j]
}

/// Each node of `m` recorded in `inputs` lists its children in strictly
/// ascending order, so each once, and no two of them list the same child.
pub open spec fn one_parent_each<T>(m: Map<ElementId, Node<T>>, inputs: Map<ElementId, T>) -> bool {
    &&& forall|k: ElementId| #[trigger] inputs.contains_key(k) ==> ascending(m[k].children@)
    &&& forall|k1: ElementId, k2: ElementId, c: ElementId|
        inputs.contains_key(k1) && inputs.contains_key(k2) && #[trigger] m[k1].children@.contains(c)
            && #[trigger] m[k2].children@.contains(c) ==> k1 == k2
}

proof fn lemma_ascending_push(s: Seq<ElementId>, t: Seq<ElementId>, c: ElementId)
    requires
        sorted(t),
        t.to_multiset() == s.to_multiset().insert(c),
        forall|i: int, j: int| 0 <= i < j < s.len() ==> s[i] < s[j],
        forall|i: int| 0 <= i < s.len() ==> #[trigger] s[i] < c,
    ensures
        t == s.push(c),
{
    let leq = |a: ElementId, b: ElementId| a <= b;
    s.to_multiset_ensures();
    assert(sorted_by(t, leq));
    assert(sorted_by(s.push(c), leq));
    assert(total_ordering(leq));
    lemma_sorted_unique(t, s.push(c), leq);
}

#[verifier::rlimit(50)]
proof fn lemma_expanded_step<T, F: Fn(ElementId, &mut T) -> Vec<T>>(
    expand: F,
    mb: Map<ElementId, Node<T>>,
    ma: Map<ElementId, Node<T>>,
    mr: Map<ElementId, Node<T>>,
    mf: Map<ElementId, Node<T>>,
    inputs: Map<ElementId, T>,
    sub: Map<ElementId, T>,
    added: Seq<ElementId>,
    out: Seq<T>,
    id: ElementId,
    c: ElementId,
    last0: int,
    lb: int,
    hi: int,
)
    requires
        id <= last0 <= lb,
        c == lb + 1,
        c <= hi,
        mb.contains_key(id),
        forall|k: ElementId| last0 < k <= lb ==> #[trigger] mb.contains_key(k),
        mb[id].children@ == added,
        forall|i: int| 0 <= i < added.len() ==> last0 < #[trigger] added[i] <= lb,
        forall|i: int, j: int| 0 <= i < j < added.len() ==> added[i] < added[j],
        forall|i: int| 0 <= i < added.len() ==> inputs.contains_key(#[trigger] added[i]) && inputs[added[i]] == out[i],
        added.len() < out.len(),
        inputs.dom() == set![id] + Set::new(|k: ElementId| last0 < k <= lb),
        forall|k: ElementId| #[trigger] inputs.contains_key(k) && k != id ==>
            exists|r: &mut T, o: Vec<T>| #[trigger] expand.ensures((k, r), o) && *r == inputs[k]
                && mut_ref_future(r) == mb[k].data && children_from(mb, inputs, k, o@),
        ma.dom() == mb.dom().insert(c),
        forall|k: ElementId| #[trigger] mb.contains_key(k) && k != c ==> ma[k] == mb[k],
        ma[c].data == out[added.len() as int],
        sub.dom() == set![c] + Set::new(|k: ElementId| c < k <= hi),
        sub[c] == ma[c].data,
        forall|k: ElementId| #[trigger] sub.contains_key(k) ==>
            exists|r: &mut T, o: Vec<T>| #[trigger] expand.ensures((k, r), o) && *r == sub[k]
                && mut_ref_future(r) == mr[k].data && children_from(mr, sub, k, o@),
        mr.dom() == ma.dom() + Set::new(|k: ElementId| c < k <= hi),
        forall|k: ElementId| #[trigger] ma.contains_key(k) && k != c ==> mr[k] == ma[k],
        mf.dom() == mr.dom(),
        forall|k: ElementId| #[trigger] mf.contains_key(k) && k != id ==> mf[k] == mr[k],
        sorted(mf[id].children@),
        mf[id].children@.to_multiset() == mr[id].children@.to_multiset().insert(c),
        one_parent_each(mb, inputs),
        one_parent_each(mr, sub),
        grown_below(mb, id, last0, lb),
        grown_below(mr, c, c as int, hi),
        forall|x: ElementId| #[trigger] mr[c].children@.contains(x) ==> c < x <= hi,
    ensures
        one_parent_each(mf, inputs.union_prefer_right(sub)),
        ({
            let inputs2 = inputs.union_prefer_right(sub);
            let added2 = added.push(c);
            &&& mf[id].children@ == added2
            &&& forall|i: int| 0 <= i < added2.len() ==> last0 < #[trigger] added2[i] <= hi
            &&& forall|i: int, j: int| 0 <= i < j < added2.len() ==> added2[i] < added2[j]
            &&& forall|i: int| 0 <= i < added2.len() ==> inputs2.contains_key(#[trigger] added2[i]) && inputs2[added2[i]] == out[i]
            &&& inputs2.dom() == set![id] + Set::new(|k: ElementId| last0 < k <= hi)
            &&& inputs2[id] == inputs[id]
            &&& forall|k: ElementId| #[trigger] inputs2.contains_key(k) && k != id ==>
                exists|r: &mut T, o: Vec<T>| #[trigger] expand.ensures((k, r), o) && *r == inputs2[k]
                    && mut_ref_future(r) == mf[k].data && children_from(mf, inputs2, k, o@)
        }),
{
    let inputs2 = inputs.union_prefer_right(sub);
    let added2 = added.push(c);
    assert(ma.contains_key(id));
    assert(mr[id] == ma[id]);
    assert(ma[id] == mb[id]);
    lemma_ascending_push(added, mf[id].children@, c);
    assert(inputs2.dom() =~= set![id] + Set::new(|k: ElementId| last0 < k <= hi));
    // where the children of each recorded node lie
    assert forall|k: ElementId, x: ElementId| #[trigger] inputs2.contains_key(k) && #[trigger] mf[k].children@.contains(x)
        implies (if sub.contains_key(k) { c < x <= hi } else { last0 < x <= c && (k != id ==> x <= lb) }) by {
        if sub.contains_key(k) {
            assert(ma.contains_key(c));
            assert(mr.contains_key(k));
            assert(mf.contains_key(k));
            assert(mf[k] == mr[k]);
            if k != c {
                assert(c < k <= hi);
            }
        } else if k == id {
            let j = choose|j: int| 0 <= j < added2.len() && added2[j] == x;
            assert(added2[j] == x);
        } else {
            assert(last0 < k <= lb);
            assert(mb.contains_key(k));
            assert(ma[k] == mb[k]);
            assert(ma.contains_key(k));
            assert(mr[k] == ma[k]);
            assert(mf.contains_key(k));
            assert(mf[k] == mr[k]);
            assert(mb[k].children@.contains(x));
        }
    }
    assert forall|k: ElementId| #[trigger] inputs2.contains_key(k) implies ascending(mf[k].children@) by {
        if k == id {
        } else if sub.contains_key(k) {
            assert(ma.contains_key(c));
            assert(mr.contains_key(k));
            assert(mf.contains_key(k));
            assert(mf[k] == mr[k]);
        } else {
            assert(inputs.contains_key(k));
            assert(mb.contains_key(k));
            assert(ma[k] == mb[k]);
            assert(ma.contains_key(k));
            assert(mr[k] == ma[k]);
            assert(mf.contains_key(k));
            assert(mf[k] == mr[k]);
        }
    }
    assert forall|k1: ElementId, k2: ElementId, x: ElementId|
        inputs2.contains_key(k1) && inputs2.contains_key(k2) && #[trigger] mf[k1].children@.contains(x)
            && #[trigger] mf[k2].children@.contains(x) implies k1 == k2 by {
        if sub.contains_key(k1) && sub.contains_key(k2) {
            assert(ma.contains_key(c));
            assert(mr.contains_key(k1) && mr.contains_key(k2));
            assert(mf.contains_key(k1) && mf.contains_key(k2));
            assert(mf[k1] == mr[k1]);
            assert(mf[k2] == mr[k2]);
        } else if !sub.contains_key(k1) && !sub.contains_key(k2) {
            if k1 != id && k2 != id {
                assert(mb.contains_key(k1) && mb.contains_key(k2));
                assert(mf[k1] == mb[k1]) by {
                    assert(ma[k1] == mb[k1]);
                    assert(ma.contains_key(k1));
                    assert(mr[k1] == ma[k1]);
                    assert(mf.contains_key(k1));
                }
                assert(mf[k2] == mb[k2]) by {
                    assert(ma[k2] == mb[k2]);
                    assert(ma.contains_key(k2));
                    assert(mr[k2] == ma[k2]);
                    assert(mf.contains_key(k2));
                }
                assert(inputs.contains_key(k1) && inputs.contains_key(k2));
            } else if k1 == id && k2 != id {
                assert(x <= lb);
                let j = choose|j: int| 0 <= j < added2.len() && added2[j] == x;
                if j < added.len() {
                    assert(mb[id].children@.contains(x));
                    assert(mf[k2] == mb[k2]) by {
                        assert(mb.contains_key(k2));
                        assert(ma[k2] == mb[k2]);
                        assert(ma.contains_key(k2));
                        assert(mr[k2] == ma[k2]);
                        assert(mf.contains_key(k2));
                    }
                    assert(inputs.contains_key(k2));
                    assert(mb[k2].children@.contains(x));
                }
            } else if k2 == id && k1 != id {
                assert(x <= lb);
                let j = choose|j: int| 0 <= j < added2.len() && added2[j] == x;
                if j < added.len() {
                    assert(mb[id].children@.contains(x));
                    assert(mf[k1] == mb[k1]) by {
                        assert(mb.contains_key(k1));
                        assert(ma[k1] == mb[k1]);
                        assert(ma.contains_key(k1));
                        assert(mr[k1] == ma[k1]);
                        assert(mf.contains_key(k1));
                    }
                    assert(inputs.contains_key(k1));
                    assert(mb[k1].children@.contains(x));
                }
            }
        }
    }
    assert forall|i: int| 0 <= i < added2.len() implies inputs2.contains_key(#[trigger] added2[i]) && inputs2[added2[i]] == out[i] by {
        if i < added.len() {
            assert(added2[i] == added[i]);
            assert(!sub.contains_key(added[i]));
        } else {
            assert(sub.contains_key(c));
        }
    }
    assert forall|k: ElementId| #[trigger] inputs2.contains_key(k) && k != id implies
        exists|r: &mut T, o: Vec<T>| #[trigger] expand.ensures((k, r), o) && *r == inputs2[k]
            && mut_ref_future(r) == mf[k].data && children_from(mf, inputs2, k, o@) by {
        if sub.contains_key(k) {
            let (r, o) = choose|r: &mut T, o: Vec<T>| #[trigger] expand.ensures((k, r), o) && *r == sub[k]
                && mut_ref_future(r) == mr[k].data && children_from(mr, sub, k, o@);
            assert(mf.contains_key(k));
            assert(mf[k] == mr[k]);
            assert forall|j: int| 0 <= j < o@.len() implies inputs2.contains_key(#[trigger] mf[k].children@[j])
                && inputs2[mf[k].children@[j]] == o@[j] by {
                assert(sub.contains_key(mr[k].children@[j]));
            }
            assert(expand.ensures((k, r), o) && *r == inputs2[k] && mut_ref_future(r) == mf[k].data && children_from(mf, inputs2, k, o@));
        } else {
            assert(inputs.contains_key(k));
            let (r, o) = choose|r: &mut T, o: Vec<T>| #[trigger] expand.ensures((k, r), o) && *r == inputs[k]
                && mut_ref_future(r) == mb[k].data && children_from(mb, inputs, k, o@);
            assert(last0 < k <= lb);
            assert(mb.contains_key(k));
            assert(ma[k] == mb[k]);
            assert(ma.contains_key(k));
            assert(mr[k] == ma[k]);
            assert(mf.contains_key(k));
            assert(mf[k] == mr[k]);
            assert forall|j: int| 0 <= j < o@.len() implies inputs2.contains_key(#[trigger] mf[k].children@[j])
                && inputs2[mf[k].children@[j]] == o@[j] by {
                let x = mb[k].children@[j];
                assert(inputs.contains_key(x));
                assert(!sub.contains_key(x));
            }
            assert(expand.ensures((k, r), o) && *r == inputs2[k] && mut_ref_future(r) == mf[k].data && children_from(mf, inputs2, k, o@));
        }
    }
}

/// Builds a tree of data `T` from its root.
pub struct WidgetTreeBuilder<T> {
    tree: Tree<T>,
}

impl<T> WidgetTreeBuilder<T> {
    /// The tree built so far.
    pub closed spec fn tree_spec(&self) -> Tree<T> {
        self.tree
    }

    /// A builder whose root, made from `root`, gets a fresh id.
    pub fn new(root: T, ids: &mut ElementIds) -> (b: Self)
        requires
            old(ids).can_allocate(),
        ensures
            final(ids).last() == old(ids).last() + 1,
            b.tree_spec().root() == final(ids).last(),
            b.tree_spec()@.dom() == set![b.tree_spec().root()],
            is_new_node(b.tree_spec()@[b.tree_spec().root()], root),
    {
        WidgetTreeBuilder { tree: Tree::new(root, ids) }
    }

    /// A builder whose root, made from `root`, has the id `root_id`.
    pub fn new_with_root_id(root: T, root_id: ElementId) -> (b: Self)
        ensures
            b.tree_spec().root() == root_id,
            b.tree_spec()@.dom() == set![root_id],
            is_new_node(b.tree_spec()@[root_id], root),
    {
        WidgetTreeBuilder { tree: Tree::new_with_root_id(root, root_id) }
    }

    /// A builder that goes on from the tree `tree`, from its root.
    pub fn from_tree(tree: Tree<T>) -> (b: Self)
        ensures
            b.tree_spec() == tree,
    {
        WidgetTreeBuilder { tree }
    }

    /// A builder whose root is `node`, under the id `id`.
    pub fn new_with_root_node(node: Node<T>, id: ElementId) -> (b: Self)
        ensures
            b.tree_spec().root() == id,
            b.tree_spec()@ == map![id => node],
    {
        WidgetTreeBuilder { tree: Tree::new_with_root_node(node, id) }
    }

    /// Asks `expand` for the children of the node `id` (it may also change
    /// the node's data), adds each under a fresh id, builds it, and makes it
    /// a child of `id`. Children stop being added when no fresh id is left.
    /// Returns the data each expanded node was expanded from.
    fn build_element<F: Fn(ElementId, &mut T) -> Vec<T>>(&mut self, expand: &F, ids: &mut ElementIds, id: ElementId) -> (inputs: Ghost<Map<ElementId, T>>)
        requires
            old(self).tree_spec()@.contains_key(id),
            forall|i: ElementId, t: &mut T| #[trigger] expand.requires((i, t)),
        ensures
            final(ids).last() >= old(ids).last(),
            final(self).tree_spec().root() == old(self).tree_spec().root(),
            ids_at_most(old(self).tree_spec()@, old(ids).last() as int) ==>
                build_inv(old(self).tree_spec()@, final(self).tree_spec()@, id, old(ids).last() as int, final(ids).last() as int),
            fresh_build(old(self).tree_spec()@, id, old(ids).last() as int, final(ids).last() as int) ==> {
                &&& inputs@.dom() == set![id] + Set::new(|k: ElementId| old(ids).last() < k <= final(ids).last())
                &&& inputs@[id] == old(self).tree_spec()@[id].data
                &&& one_parent_each(final(self).tree_spec()@, inputs@)
                &&& forall|k: ElementId| #[trigger] inputs@.contains_key(k) ==>
                    exists|r: &mut T, out: Vec<T>| #[trigger] expand.ensures((k, r), out) && *r == inputs@[k]
                        && mut_ref_future(r) == final(self).tree_spec()@[k].data
                        && children_from(final(self).tree_spec()@, inputs@, k, out@)
            },
        decreases usize::MAX - old(ids).last(),
    {
        let ghost m0 = self.tree@;
        let ghost last0 = ids.last();
        let children = match self.tree.get_mut(id) {
            Some(node) => expand(id, &mut node.data),
            None => Vec::new(),
        };
        let ghost m1 = self.tree@;
        let ghost out_vec = children;
        let ghost mut inputs: Map<ElementId, T> = map![id => m0[id].data];
        let ghost mut added: Seq<ElementId> = Seq::empty();
        proof {
            assert(exists|r: &mut T| #[trigger] expand.ensures((id, r), out_vec) && *r == m0[id].data && mut_ref_future(r) == m1[id].data);
            assert(m1[id].children == m0[id].children);
            if ids_at_most(m0, last0 as int) {
                assert(m1.dom() =~= m0.dom() + Set::new(|k: ElementId| last0 < k <= last0));
                assert(build_inv(m0, m1, id, last0 as int, last0 as int));
                assert(inputs.dom() =~= set![id] + Set::new(|k: ElementId| last0 < k <= last0));
            }
        }
        for child in it: children
            invariant
                ids.last() >= last0,
                last0 == old(ids).last(),
                self.tree.root() == old(self).tree.root(),
                forall|i: ElementId, t: &mut T| #[trigger] expand.requires((i, t)),
                m0.contains_key(id),
                m0 == old(self).tree@,
                ids_at_most(m0, last0 as int) ==> build_inv(m0, self.tree@, id, last0 as int, ids.last() as int),
                it.seq() == out_vec@,
                ids_at_most(m0, last0 as int) ==> self.tree@.contains_key(id) && self.tree@[id].data == m1[id].data,
                exists|r: &mut T| #[trigger] expand.ensures((id, r), out_vec) && *r == m0[id].data && mut_ref_future(r) == m1[id].data,
                fresh_build(m0, id, last0 as int, ids.last() as int) ==> {
                    &&& added.len() == it.index()
                    &&& self.tree@[id].children@ == added
                    &&& forall|i: int| 0 <= i < added.len() ==> last0 < #[trigger] added[i] <= ids.last()
                    &&& forall|i: int, j: int| 0 <= i < j < added.len() ==> added[i] < added[j]
                    &&& forall|i: int| 0 <= i < added.len() ==> inputs.contains_key(#[trigger] added[i]) && inputs[added[i]] == out_vec@[i]
                    &&& inputs.dom() == set![id] + Set::new(|k: ElementId| last0 < k <= ids.last())
                    &&& inputs[id] == m0[id].data
                    &&& one_parent_each(self.tree@, inputs)
                    &&& forall|k: ElementId| #[trigger] inputs.contains_key(k) && k != id ==>
                        exists|r: &mut T, out: Vec<T>| #[trigger] expand.ensures((k, r), out) && *r == inputs[k]
                            && mut_ref_future(r) == self.tree@[k].data && children_from(self.tree@, inputs, k, out@)
                },
        {
            let ghost child_val = child;
            proof {
                assert(child_val == out_vec@[it.index()]);
            }
            if ids.last_id() < usize::MAX {
                let ghost m_before = self.tree@;
                let ghost last_before = ids.last();
                let child_id = self.tree.add_node(child, ids);
                let ghost m_added = self.tree@;
                proof {
                    if ids_at_most(m0, last0 as int) {
                        assert(ids_at_most(m_added, child_id as int));
                    }
                }
                let sub = self.build_element(expand, ids, child_id);
                let ghost m_built = self.tree@;
                self.tree.add_child(id, child_id);
                proof {
                    if ids_at_most(m0, last0 as int) {
                        assert(m_before.contains_key(id));
                        assert(id < child_id);
                        assert(m_added[id] == m_before[id]);
                        assert(m_added.contains_key(id));
                        assert(m_built[id] == m_added[id]);
                        assert(self.tree@[id].data == m_built[id].data);
                        lemma_step(m0, m_before, m_added, m_built, self.tree@, id, child_id, last0 as int, last_before as int, ids.last() as int);
                    }
                    if fresh_build(m0, id, last0 as int, ids.last() as int) {
                        assert(fresh_build(m_added, child_id, child_id as int, ids.last() as int));
                        lemma_expanded_step(*expand, m_before, m_added, m_built, self.tree@, inputs, sub@, added, out_vec@,
                            id, child_id, last0 as int, last_before as int, ids.last() as int);
                    }
                    inputs = inputs.union_prefer_right(sub@);
                    added = added.push(child_id);
                }
            }
        }
        proof {
            if fresh_build(m0, id, last0 as int, ids.last() as int) {
                let m = self.tree@;
                let r = choose|r: &mut T| #[trigger] expand.ensures((id, r), out_vec) && *r == m0[id].data && mut_ref_future(r) == m1[id].data;
                assert(children_from(m, inputs, id, out_vec@));
                assert(expand.ensures((id, r), out_vec) && *r == inputs[id] && mut_ref_future(r) == m[id].data && children_from(m, inputs, id, out_vec@));
                assert forall|k: ElementId| #[trigger] inputs.contains_key(k) implies
                    exists|r: &mut T, out: Vec<T>| #[trigger] expand.ensures((k, r), out) && *r == inputs[k]
                        && mut_ref_future(r) == m[k].data && children_from(m, inputs, k, out@) by {
                    if k == id {
                        assert(expand.ensures((id, r), out_vec));
                    }
                }
            }
        }
        Ghost(inputs)
    }

    /// Builds the tree from its root with `expand` and returns it. When
    /// the root had no children and no id ran out, each node of the result
    /// was expanded once, from the data it was added with (the root: its
    /// data before), and has, in order, one fresh child per item that
    /// `expand` returned for it, added with that item.
    pub fn build<F: Fn(ElementId, &mut T) -> Vec<T>>(self, expand: F, ids: &mut ElementIds) -> (t: Tree<T>)
        requires
            self.tree_spec()@.contains_key(self.tree_spec().root()),
            forall|i: ElementId, d: &mut T| #[trigger] expand.requires((i, d)),
        ensures
            final(ids).last() >= old(ids).last(),
            t.root() == self.tree_spec().root(),
            ids_at_most(self.tree_spec()@, old(ids).last() as int) ==>
                build_inv(self.tree_spec()@, t@, t.root(), old(ids).last() as int, final(ids).last() as int),
            fresh_build(self.tree_spec()@, t.root(), old(ids).last() as int, final(ids).last() as int) ==>
                exists|inputs: Map<ElementId, T>| {
                    &&& #[trigger] inputs.dom() == set![t.root()] + Set::new(|k: ElementId| old(ids).last() < k <= final(ids).last())
                    &&& inputs[t.root()] == self.tree_spec()@[t.root()].data
                    &&& one_parent_each(t@, inputs)
                    &&& forall|k: ElementId| #[trigger] inputs.contains_key(k) ==>
                        exists|r: &mut T, out: Vec<T>| #[trigger] expand.ensures((k, r), out) && *r == inputs[k]
                            && mut_ref_future(r) == t@[k].data && children_from(t@, inputs, k, out@)
                },
    {
        let mut builder = self;
        let root = builder.tree.root_id();
        let inputs = builder.build_element(&expand, ids, root);
        proof {
            if fresh_build(self.tree_spec()@, root, old(ids).last() as int, ids.last() as int) {
                assert(inputs@.dom() == set![root] + Set::new(|k: ElementId| old(ids).last() < k <= ids.last()));
            }
        }
        builder.tree
    }
}

} // verus!
