//! Changes to a built tree: placing the children that a layout gave bounds
//! to, and taking out an element to rebuild it and putting the rebuilt
//! subtree back.
use std::collections::HashMap;
use vstd::prelude::*;
use vstd::std_specs::iter::IteratorSpec;
use crate::geo::{Point, Rect, fits_i64};
use crate::tree::{ElementId, ElementIds, Node, Tree, pruned, remove_first, same_but_children, children_replaced, reach_within, reachable, lemma_reach_in_dom, lemma_reach_grows};
use crate::tree_builder::{WidgetTreeBuilder, build_inv, children_from, fresh_build, ids_at_most, one_parent_each};

verus! {

broadcast use vstd::std_specs::hash::group_hash_axioms;

/// What a widget asks for when a value it is bound to changes.
#[derive(Clone, Copy, PartialEq, Eq, Structural, Debug)]
pub enum ChangeResponse {
    Build,
    Layout,
    Paint,
}

/// `local` moved by the position `origin`.
pub open spec fn shifted(local: Rect, origin: Point) -> Rect {
    Rect {
        position: Point { x: (origin.x + local.position.x) as i64, y: (origin.y + local.position.y) as i64 },
        size: local.size,
    }
}

/// `b` is `a` with only its bounds changed.
pub open spec fn same_but_bounds<T>(a: Node<T>, b: Node<T>) -> bool {
    a.data == b.data && a.children == b.children
}

/// Gives the children of `id` the bounds `child_local` that its layout
/// produced, relative to it, and global bounds moved by its global position;
/// records both, global first, in `results`. When the tree holds no `id`,
/// only the local bounds are set and nothing is recorded.
pub fn apply_child_layout<T>(
    tree: &mut Tree<T>,
    id: ElementId,
    child_local: &HashMap<ElementId, Rect>,
    results: &mut HashMap<ElementId, (Rect, Rect)>,
)
    requires
        forall|c: ElementId| #[trigger] child_local@.contains_key(c) ==> old(tree)@.contains_key(c),
        old(tree)@.contains_key(id) ==> forall|c: ElementId| #[trigger] child_local@.contains_key(c) ==> {
            let o = old(tree)@[id].global_bounds.position;
            &&& fits_i64(o.x + child_local@[c].position.x)
            &&& fits_i64(o.y + child_local@[c].position.y)
        },
    ensures
        final(tree).root() == old(tree).root(),
        final(tree)@.dom() == old(tree)@.dom(),
        forall|k: ElementId| #[trigger] final(tree)@.contains_key(k) && !child_local@.contains_key(k)
            ==> final(tree)@[k] == old(tree)@[k],
        forall|c: ElementId| #[trigger] child_local@.contains_key(c) ==> {
            &&& same_but_bounds(old(tree)@[c], final(tree)@[c])
            &&& final(tree)@[c].local_bounds == child_local@[c]
            &&& final(tree)@[c].global_bounds == if old(tree)@.contains_key(id) {
                shifted(child_local@[c], old(tree)@[id].global_bounds.position)
            } else {
                old(tree)@[c].global_bounds
            }
        },
        final(results)@ == if old(tree)@.contains_key(id) {
            old(results)@.union_prefer_right(
                Map::new(
                    |c: ElementId| child_local@.contains_key(c),
                    |c: ElementId| (shifted(child_local@[c], old(tree)@[id].global_bounds.position), child_local@[c]),
                ),
            )
        } else {
            old(results)@
        },
{
    let ghost m0 = tree@;
    let ghost r0 = results@;
    let origin: Option<Point> = match tree.get(id) {
        Some(node) => Some(node.global_bounds.position()),
        None => None,
    };
    let ghost b = child_local@;
    for (cid, rect) in it: child_local.iter()
        invariant
            b == child_local@,
            tree.root() == old(tree).root(),
            origin == if m0.contains_key(id) { Some(m0[id].global_bounds.position) } else { None::<Point> },
            forall|c: ElementId| #[trigger] b.contains_key(c) ==> m0.contains_key(c),
            m0.contains_key(id) ==> forall|c: ElementId| #[trigger] b.contains_key(c) ==> {
                let o = m0[id].global_bounds.position;
                &&& fits_i64(o.x + b[c].position.x)
                &&& fits_i64(o.y + b[c].position.y)
            },
            it.seq() == child_local.iter().remaining(),
            it.seq().no_duplicates(),
            forall|j: int| 0 <= j < it.seq().len() ==> b.contains_key(*(#[trigger] it.seq()[j]).0)
                && b[*it.seq()[j].0] == *it.seq()[j].1,
            tree@.dom() == m0.dom(),
            forall|k: ElementId| #[trigger] tree@.contains_key(k) && !done_keys(it.seq(), it.index(), k)
                ==> tree@[k] == m0[k],
            forall|c: ElementId| #[trigger] done_keys(it.seq(), it.index(), c) ==> {
                &&& b.contains_key(c)
                &&& same_but_bounds(m0[c], tree@[c])
                &&& tree@[c].local_bounds == b[c]
                &&& tree@[c].global_bounds == if m0.contains_key(id) {
                    shifted(b[c], m0[id].global_bounds.position)
                } else {
                    m0[c].global_bounds
                }
            },
            results@ == if m0.contains_key(id) {
                r0.union_prefer_right(
                    Map::new(
                        |c: ElementId| done_keys(it.seq(), it.index(), c),
                        |c: ElementId| (shifted(b[c], m0[id].global_bounds.position), b[c]),
                    ),
                )
            } else {
                r0
            },
    {
        let cid = *cid;
        let rect = *rect;
        let ghost idx = it.index();
        proof {
            assert(it.seq()[idx].0 == &cid);
            assert(!done_keys(it.seq(), idx, cid)) by {
                if done_keys(it.seq(), idx, cid) {
                    let j = choose|j: int| 0 <= j < idx && *(#[trigger] it.seq()[j]).0 == cid;
                    assert(it.seq()[j] != it.seq()[idx]);
                }
            }
            assert(m0.contains_key(cid));
        }
        let global = match origin {
            Some(o) => {
                let mut g = rect;
                g.set_position(o.add(rect.position()));
                results.insert(cid, (g, rect));
                Some(g)
            },
            None => None,
        };
        let node = tree.get_mut(cid).unwrap();
        node.local_bounds = rect;
        if let Some(g) = global {
            node.global_bounds = g;
        }
        proof {
            assert forall|k: ElementId| #[trigger] done_keys(it.seq(), idx + 1, k) == (done_keys(it.seq(), idx, k) || k == cid) by {
                if done_keys(it.seq(), idx + 1, k) {
                    let j = choose|j: int| 0 <= j < idx + 1 && *(#[trigger] it.seq()[j]).0 == k;
                    if j < idx {
                        assert(done_keys(it.seq(), idx, k));
                    }
                }
                if done_keys(it.seq(), idx, k) {
                    let j = choose|j: int| 0 <= j < idx && *(#[trigger] it.seq()[j]).0 == k;
                    assert(done_keys(it.seq(), idx + 1, k));
                }
                if k == cid {
                    assert(*it.seq()[idx].0 == k);
                    assert(done_keys(it.seq(), idx + 1, k));
                }
            }
            if m0.contains_key(id) {
                assert(results@ =~= r0.union_prefer_right(
                    Map::new(
                        |c: ElementId| done_keys(it.seq(), idx + 1, c),
                        |c: ElementId| (shifted(b[c], m0[id].global_bounds.position), b[c]),
                    ),
                ));
            }
        }
    }
    proof {
        let s = child_local.iter().remaining();
        assert forall|c: ElementId| #[trigger] b.contains_key(c) implies done_keys(s, s.len() as int, c) by {
            assert(s.contains((&c, &b[c])));
            let j = choose|j: int| 0 <= j < s.len() && s[j] == (&c, &b[c]);
            assert(*s[j].0 == c);
        }
        assert forall|c: ElementId| #[trigger] done_keys(s, s.len() as int, c) implies b.contains_key(c) by {
            let j = choose|j: int| 0 <= j < s.len() && *(#[trigger] s[j]).0 == c;
        }
        if m0.contains_key(id) {
            assert(Map::new(
                |c: ElementId| done_keys(s, s.len() as int, c),
                |c: ElementId| (shifted(b[c], m0[id].global_bounds.position), b[c]),
            ) =~= Map::new(
                |c: ElementId| b.contains_key(c),
                |c: ElementId| (shifted(b[c], m0[id].global_bounds.position), b[c]),
            ));
        }
    }
}

/// What a layout of the node `i` of `m` may hand out: bounds for nodes of
/// `m` only, whose positions, moved by the global position of `i`, stay in
/// range.
pub open spec fn layout_fits<T>(m: Map<ElementId, Node<T>>, i: ElementId, b: Map<ElementId, Rect>) -> bool {
    &&& forall|c: ElementId| #[trigger] b.contains_key(c) ==> m.contains_key(c)
    &&& m.contains_key(i) ==> forall|c: ElementId| #[trigger] b.contains_key(c) ==> {
        let o = m[i].global_bounds.position;
        &&& fits_i64(o.x + b[c].position.x)
        &&& fits_i64(o.y + b[c].position.y)
    }
}

/// From `m0`, `r0` to `m`, `r`, only bounds changed, and the results keep
/// every element and record the bounds each changed element ends with.
pub open spec fn only_bounds_change_recorded<T>(
    m0: Map<ElementId, Node<T>>,
    r0: Map<ElementId, (Rect, Rect)>,
    m: Map<ElementId, Node<T>>,
    r: Map<ElementId, (Rect, Rect)>,
) -> bool {
    &&& m.dom() == m0.dom()
    &&& forall|k: ElementId| #[trigger] m.contains_key(k) ==> same_but_bounds(m0[k], m[k])
    &&& forall|k: ElementId| #[trigger] r0.contains_key(k) ==> r.contains_key(k)
    &&& forall|k: ElementId| #[trigger] r.contains_key(k) && (!r0.contains_key(k) || r[k] != r0[k])
        ==> m.contains_key(k) && r[k] == (m[k].global_bounds, m[k].local_bounds)
    &&& forall|k: ElementId| #[trigger] m.contains_key(k)
        && (m[k].local_bounds != m0[k].local_bounds || m[k].global_bounds != m0[k].global_bounds)
        ==> r.contains_key(k) && r[k] == (m[k].global_bounds, m[k].local_bounds)
}

proof fn lemma_only_bounds_change_recorded_trans<T>(
    m0: Map<ElementId, Node<T>>,
    r0: Map<ElementId, (Rect, Rect)>,
    m1: Map<ElementId, Node<T>>,
    r1: Map<ElementId, (Rect, Rect)>,
    m2: Map<ElementId, Node<T>>,
    r2: Map<ElementId, (Rect, Rect)>,
)
    requires
        only_bounds_change_recorded(m0, r0, m1, r1),
        only_bounds_change_recorded(m1, r1, m2, r2),
    ensures
        only_bounds_change_recorded(m0, r0, m2, r2),
{
    assert forall|k: ElementId| #[trigger] r2.contains_key(k) && (!r0.contains_key(k) || r2[k] != r0[k])
        implies m2.contains_key(k) && r2[k] == (m2[k].global_bounds, m2[k].local_bounds) by {
        if r1.contains_key(k) && r2[k] == r1[k] {
            assert(m1.contains_key(k));
            assert(m2.contains_key(k));
        }
    }
    assert forall|k: ElementId| #[trigger] m2.contains_key(k)
        && (m2[k].local_bounds != m0[k].local_bounds || m2[k].global_bounds != m0[k].global_bounds)
        implies r2.contains_key(k) && r2[k] == (m2[k].global_bounds, m2[k].local_bounds) by {
        assert(m1.contains_key(k));
        if m2[k].local_bounds == m1[k].local_bounds && m2[k].global_bounds == m1[k].global_bounds {
            assert(r1.contains_key(k));
            if r2[k] == r1[k] {
            } else {
            }
        }
    }
    assert forall|k: ElementId| #[trigger] m2.contains_key(k) implies same_but_bounds(m0[k], m2[k]) by {
        assert(m1.contains_key(k));
    }
}

/// Each layout hands out bounds only to children of the node it lays out.
pub open spec fn places_own_children<T, F: Fn(ElementId, &Tree<T>) -> HashMap<ElementId, Rect>>(layout: F) -> bool {
    forall|i: ElementId, t: &Tree<T>, b: HashMap<ElementId, Rect>| #[trigger] layout.ensures((i, t), b)
        ==> forall|c: ElementId| #[trigger] b@.contains_key(c) ==> t@.contains_key(i) && t@[i].children@.contains(c)
}

/// Every child has a larger id than its parent, and no node is the child of
/// two nodes.
pub open spec fn tree_shaped<T>(m: Map<ElementId, Node<T>>) -> bool {
    &&& forall|k: ElementId, c: ElementId| m.contains_key(k) && #[trigger] m[k].children@.contains(c) ==> k < c
    &&& forall|k1: ElementId, k2: ElementId, c: ElementId|
        m.contains_key(k1) && m.contains_key(k2) && #[trigger] m[k1].children@.contains(c)
            && #[trigger] m[k2].children@.contains(c) ==> k1 == k2
}

/// From `m0`, `r0` to `m`, `r`, the bounds of `k` or its record changed.
pub open spec fn changed<T>(
    m0: Map<ElementId, Node<T>>,
    r0: Map<ElementId, (Rect, Rect)>,
    m: Map<ElementId, Node<T>>,
    r: Map<ElementId, (Rect, Rect)>,
    k: ElementId,
) -> bool {
    ||| m.contains_key(k) && (m[k].local_bounds != m0[k].local_bounds || m[k].global_bounds != m0[k].global_bounds)
    ||| r.contains_key(k) && (!r0.contains_key(k) || r[k] != r0[k])
}

/// Every element whose bounds or record changed is a child, in `m0`, of a
/// node of the subtree of `id`: nothing outside that subtree changed.
pub open spec fn changes_below<T>(
    m0: Map<ElementId, Node<T>>,
    r0: Map<ElementId, (Rect, Rect)>,
    m: Map<ElementId, Node<T>>,
    r: Map<ElementId, (Rect, Rect)>,
    id: ElementId,
) -> bool {
    forall|k: ElementId| #[trigger] changed(m0, r0, m, r, k) ==>
        exists|p: ElementId| #[trigger] reachable(m0, seq![id], p) && m0[p].children@.contains(k)
}

/// The children of `id` in `b` have, in `m` and `r`, the bounds that `b`
/// gives them, moved by `origin` for their global bounds.
pub open spec fn placed<T>(
    m: Map<ElementId, Node<T>>,
    r: Map<ElementId, (Rect, Rect)>,
    b: Map<ElementId, Rect>,
    origin: Point,
) -> bool {
    forall|c: ElementId| #[trigger] b.contains_key(c) ==> {
        &&& m.contains_key(c)
        &&& m[c].local_bounds == b[c]
        &&& m[c].global_bounds == shifted(b[c], origin)
        &&& r.contains_key(c)
        &&& r[c] == (shifted(b[c], origin), b[c])
    }
}

/// What is reached in `m1` from `roots2`, each reached in `m0` from `roots`
/// within `j` steps, is reached in `m0` within `j + n` steps, when the two
/// maps hold the same keys with the same children.
proof fn lemma_reach_same_shape<T>(
    m0: Map<ElementId, Node<T>>,
    m1: Map<ElementId, Node<T>>,
    roots: Seq<ElementId>,
    roots2: Seq<ElementId>,
    j: nat,
    n: nat,
)
    requires
        m1.dom() == m0.dom(),
        forall|k: ElementId| #[trigger] m1.contains_key(k) ==> m1[k].children == m0[k].children,
        forall|x: ElementId| #[trigger] roots2.contains(x) && m0.contains_key(x) ==> reach_within(m0, roots, j).contains(x),
    ensures
        forall|k: ElementId| #[trigger] reach_within(m1, roots2, n).contains(k) ==> reach_within(m0, roots, j + n).contains(k),
    decreases n,
{
    if n > 0 {
        let n1 = (n - 1) as nat;
        lemma_reach_same_shape(m0, m1, roots, roots2, j, n1);
        lemma_reach_in_dom(m1, roots2, n1);
        lemma_reach_grows(m0, roots, j + n1);
        assert forall|k: ElementId| #[trigger] reach_within(m1, roots2, n).contains(k) implies reach_within(m0, roots, j + n).contains(k) by {
            let prev = reach_within(m1, roots2, n1);
            if !prev.contains(k) {
                let p = choose|p: ElementId| #[trigger] prev.contains(p) && m1[p].children@.contains(k);
                assert(reach_within(m0, roots, j + n1).contains(p));
                assert(m0[p].children@.contains(k));
                assert(reach_within(m0, roots, (j + n1 + 1) as nat) == reach_within(m0, roots, j + n1).union(
                    Set::new(|k2: ElementId| m0.contains_key(k2) && exists|p2: ElementId| #[trigger]
                        reach_within(m0, roots, j + n1).contains(p2) && m0[p2].children@.contains(k2))));
            }
        }
    }
}

/// With ids growing from parent to child, nothing below `x` has an id below `x`.
proof fn lemma_reach_ascending<T>(m: Map<ElementId, Node<T>>, x: ElementId, n: nat)
    requires
        tree_shaped(m),
    ensures
        forall|p: ElementId| #[trigger] reach_within(m, seq![x], n).contains(p) ==> x <= p,
    decreases n,
{
    if n > 0 {
        let n1 = (n - 1) as nat;
        lemma_reach_ascending(m, x, n1);
        assert forall|p: ElementId| #[trigger] reach_within(m, seq![x], n).contains(p) implies x <= p by {
            let prev = reach_within(m, seq![x], n1);
            if !prev.contains(p) {
                let q = choose|q: ElementId| #[trigger] prev.contains(q) && m[q].children@.contains(p);
                lemma_reach_in_dom(m, seq![x], n1);
                assert(m.contains_key(q));
                assert(q < p);
            }
        }
    } else {
        assert forall|p: ElementId| #[trigger] reach_within(m, seq![x], n).contains(p) implies x <= p by {
            assert(seq![x].contains(p));
            assert(seq![x][0] == x);
        }
    }
}

/// Changes below a child `x` of `id`, in a tree of the same shape as `m0`,
/// are changes below `id` in `m0`.
proof fn lemma_changes_below_child<T>(
    m0: Map<ElementId, Node<T>>,
    r0: Map<ElementId, (Rect, Rect)>,
    mi: Map<ElementId, Node<T>>,
    ri: Map<ElementId, (Rect, Rect)>,
    m2: Map<ElementId, Node<T>>,
    r2: Map<ElementId, (Rect, Rect)>,
    id: ElementId,
    x: ElementId,
)
    requires
        m0.contains_key(id),
        m0[id].children@.contains(x),
        mi.dom() == m0.dom(),
        forall|k: ElementId| #[trigger] mi.contains_key(k) ==> mi[k].children == m0[k].children,
        m2.dom() == mi.dom(),
        changes_below(m0, r0, mi, ri, id),
        changes_below(mi, ri, m2, r2, x),
    ensures
        changes_below(m0, r0, m2, r2, id),
{
    assert forall|k: ElementId| #[trigger] changed(m0, r0, m2, r2, k) implies
        exists|p: ElementId| #[trigger] reachable(m0, seq![id], p) && m0[p].children@.contains(k) by {
        if changed(mi, ri, m2, r2, k) {
            let p = choose|p: ElementId| #[trigger] reachable(mi, seq![x], p) && mi[p].children@.contains(k);
            let n = choose|n: nat| #[trigger] reach_within(mi, seq![x], n).contains(p);
            assert(reach_within(m0, seq![id], 0).contains(id)) by {
                assert(seq![id][0] == id);
            }
            let prev = reach_within(m0, seq![id], 0);
            assert(reach_within(m0, seq![id], 1) == prev.union(
                Set::new(|k2: ElementId| m0.contains_key(k2) && exists|p2: ElementId| #[trigger]
                    prev.contains(p2) && m0[p2].children@.contains(k2))));
            assert forall|y: ElementId| #[trigger] seq![x].contains(y) && m0.contains_key(y) implies reach_within(m0, seq![id], 1).contains(y) by {
                assert(seq![x][0] == x);
                assert(y == x);
                assert(prev.contains(id) && m0[id].children@.contains(y));
            }
            lemma_reach_same_shape(m0, mi, seq![id], seq![x], 1, n);
            assert(reach_within(m0, seq![id], 1 + n).contains(p));
            lemma_reach_in_dom(mi, seq![x], n);
            assert(m0[p].children@.contains(k));
            assert(reachable(m0, seq![id], p));
        } else {
            if m2.contains_key(k) {
                assert(mi.contains_key(k));
            }
            assert(changed(m0, r0, mi, ri, k));
        }
    }
}

/// A node reached from `id` in `n + 1` steps other than `id` is reached in
/// `n` steps from a child of `id`.
proof fn lemma_reach_from_child<T>(m: Map<ElementId, Node<T>>, id: ElementId, n: nat, p: ElementId)
    requires
        reach_within(m, seq![id], n + 1).contains(p),
        p != id,
    ensures
        exists|x: ElementId| #[trigger] m[id].children@.contains(x) && m.contains_key(id)
            && reach_within(m, seq![x], n).contains(p),
    decreases n,
{
    let prev = reach_within(m, seq![id], n);
    if prev.contains(p) {
        if n == 0 {
            assert(seq![id].contains(p));
            assert(seq![id][0] == id);
        } else {
            lemma_reach_from_child(m, id, (n - 1) as nat, p);
            let x = choose|x: ElementId| #[trigger] m[id].children@.contains(x) && m.contains_key(id)
                && reach_within(m, seq![x], (n - 1) as nat).contains(p);
            lemma_reach_grows(m, seq![x], (n - 1) as nat);
        }
    } else {
        let q = choose|q: ElementId| #[trigger] prev.contains(q) && m[q].children@.contains(p);
        assert(m.contains_key(p));
        if q == id {
            lemma_reach_in_dom(m, seq![id], n);
            assert(reach_within(m, seq![p], 0).contains(p)) by {
                assert(seq![p][0] == p);
            }
            lemma_reach_mono(m, seq![p], 0, n);
        } else {
            assert(n > 0) by {
                if n == 0 {
                    assert(seq![id].contains(q));
                    assert(seq![id][0] == id);
                }
            }
            lemma_reach_from_child(m, id, (n - 1) as nat, q);
            let x = choose|x: ElementId| #[trigger] m[id].children@.contains(x) && m.contains_key(id)
                && reach_within(m, seq![x], (n - 1) as nat).contains(q);
            let pr = reach_within(m, seq![x], (n - 1) as nat);
            assert(reach_within(m, seq![x], n) == pr.union(
                Set::new(|k2: ElementId| m.contains_key(k2) && exists|p2: ElementId| #[trigger]
                    pr.contains(p2) && m[p2].children@.contains(k2))));
            assert(pr.contains(q) && m[q].children@.contains(p));
        }
    }
}

/// Reaching within `a` steps is reaching within `b >= a` steps.
proof fn lemma_reach_mono<T>(m: Map<ElementId, Node<T>>, roots: Seq<ElementId>, a: nat, b: nat)
    requires
        a <= b,
    ensures
        reach_within(m, roots, a).subset_of(reach_within(m, roots, b)),
    decreases b - a,
{
    if a < b {
        lemma_reach_mono(m, roots, a, (b - 1) as nat);
        lemma_reach_grows(m, roots, (b - 1) as nat);
    }
}

/// A node reached from `x` other than `x` has a parent reached from `x`.
proof fn lemma_reached_has_parent<T>(m: Map<ElementId, Node<T>>, x: ElementId, n: nat, y: ElementId)
    requires
        reach_within(m, seq![x], n).contains(y),
        y != x,
    ensures
        exists|q: ElementId| #[trigger] reach_within(m, seq![x], n).contains(q) && m[q].children@.contains(y),
    decreases n,
{
    if n == 0 {
        assert(seq![x].contains(y));
        assert(seq![x][0] == x);
    } else {
        let prev = reach_within(m, seq![x], (n - 1) as nat);
        lemma_reach_grows(m, seq![x], (n - 1) as nat);
        if prev.contains(y) {
            lemma_reached_has_parent(m, x, (n - 1) as nat, y);
        } else {
            let q = choose|q: ElementId| #[trigger] prev.contains(q) && m[q].children@.contains(y);
            assert(reach_within(m, seq![x], n).contains(q));
        }
    }
}

/// In a tree-shaped map, two nodes that reach a common node are one
/// reached from the other.
proof fn lemma_common_descendant<T>(m: Map<ElementId, Node<T>>, x: ElementId, y: ElementId, n1: nat, n2: nat, p: ElementId)
    requires
        tree_shaped(m),
        reach_within(m, seq![x], n1).contains(p),
        reach_within(m, seq![y], n2).contains(p),
    ensures
        reach_within(m, seq![y], n2).contains(x) || reach_within(m, seq![x], n1).contains(y),
    decreases n1 + n2,
{
    if p == x || p == y {
    } else {
        lemma_reached_has_parent(m, x, n1, p);
        lemma_reached_has_parent(m, y, n2, p);
        let q1 = choose|q: ElementId| #[trigger] reach_within(m, seq![x], n1).contains(q) && m[q].children@.contains(p);
        let q2 = choose|q: ElementId| #[trigger] reach_within(m, seq![y], n2).contains(q) && m[q].children@.contains(p);
        lemma_reach_in_dom(m, seq![x], n1);
        lemma_reach_in_dom(m, seq![y], n2);
        assert(q1 == q2);
        // q1 is reached in fewer steps: peel the last step off each path
        lemma_reach_ascending(m, x, n1);
        lemma_reach_ascending(m, y, n2);
        assert(q1 < p);
        lemma_parent_reached_sooner(m, x, n1, q1, p);
        lemma_parent_reached_sooner(m, y, n2, q1, p);
        lemma_common_descendant(m, x, y, (n1 - 1) as nat, (n2 - 1) as nat, q1);
        lemma_reach_grows(m, seq![x], (n1 - 1) as nat);
        lemma_reach_grows(m, seq![y], (n2 - 1) as nat);
    }
}

/// In a tree-shaped map, the parent `q` of a node `c` reached from `x`
/// within `n` steps, other than `x`, is reached within `n - 1` steps.
proof fn lemma_parent_reached_sooner<T>(m: Map<ElementId, Node<T>>, x: ElementId, n: nat, q: ElementId, c: ElementId)
    requires
        tree_shaped(m),
        m.contains_key(q),
        m[q].children@.contains(c),
        reach_within(m, seq![x], n).contains(c),
        c != x,
    ensures
        n > 0,
        reach_within(m, seq![x], (n - 1) as nat).contains(q),
    decreases n,
{
    if n == 0 {
        assert(seq![x].contains(c));
        assert(seq![x][0] == x);
    } else {
        let prev = reach_within(m, seq![x], (n - 1) as nat);
        if prev.contains(c) {
            lemma_parent_reached_sooner(m, x, (n - 1) as nat, q, c);
            lemma_reach_grows(m, seq![x], (n - 2) as nat);
        } else {
            let q2 = choose|q2: ElementId| #[trigger] prev.contains(q2) && m[q2].children@.contains(c);
            lemma_reach_in_dom(m, seq![x], (n - 1) as nat);
            assert(q2 == q);
        }
    }
}

/// In a tree-shaped map, nothing is reached both from a child `x` of `id`
/// and from another child `y` of it.
proof fn lemma_siblings_apart<T>(m: Map<ElementId, Node<T>>, id: ElementId, x: ElementId, y: ElementId, n1: nat, n2: nat, p: ElementId)
    requires
        tree_shaped(m),
        m.contains_key(id),
        m[id].children@.contains(x),
        m[id].children@.contains(y),
        x != y,
        reach_within(m, seq![x], n1).contains(p),
    ensures
        !reach_within(m, seq![y], n2).contains(p),
{
    if reach_within(m, seq![y], n2).contains(p) {
        lemma_common_descendant(m, x, y, n1, n2, p);
        if reach_within(m, seq![y], n2).contains(x) {
            lemma_reached_has_parent(m, y, n2, x);
            let q = choose|q: ElementId| #[trigger] reach_within(m, seq![y], n2).contains(q) && m[q].children@.contains(x);
            lemma_reach_in_dom(m, seq![y], n2);
            assert(q == id);
            lemma_reach_ascending(m, y, n2);
            assert(y < id) by {
                assert(m[id].children@.contains(y));
            }
        } else {
            lemma_reached_has_parent(m, x, n1, y);
            let q = choose|q: ElementId| #[trigger] reach_within(m, seq![x], n1).contains(q) && m[q].children@.contains(y);
            lemma_reach_in_dom(m, seq![x], n1);
            assert(q == id);
            lemma_reach_ascending(m, x, n1);
            assert(x < id) by {
                assert(m[id].children@.contains(x));
            }
        }
    }
}

/// The node `p` was laid out: a layout of it, given a tree, handed out the
/// bounds `b`, to children `p` has in `m0`, and every child in `b` has in
/// `m` and `r` the bounds `b` gives it, moved by the global position `p`
/// has in `m`.
pub open spec fn laid_out<T, F: Fn(ElementId, &Tree<T>) -> HashMap<ElementId, Rect>>(
    layout: F,
    m0: Map<ElementId, Node<T>>,
    m: Map<ElementId, Node<T>>,
    r: Map<ElementId, (Rect, Rect)>,
    p: ElementId,
) -> bool {
    exists|t: Tree<T>, b: HashMap<ElementId, Rect>| #[trigger] layout.ensures((p, &t), b)
        && (forall|c: ElementId| #[trigger] b@.contains_key(c) ==> m0[p].children@.contains(c))
        && placed(m, r, b@, m[p].global_bounds.position)
}

/// Reaching a node and one of its children.
proof fn lemma_reach_step<T>(m: Map<ElementId, Node<T>>, roots: Seq<ElementId>, n: nat, q: ElementId, c: ElementId)
    requires
        reach_within(m, roots, n).contains(q),
        m[q].children@.contains(c),
        m.contains_key(c),
    ensures
        reach_within(m, roots, n + 1).contains(c),
{
    let prev = reach_within(m, roots, n);
    assert(reach_within(m, roots, n + 1) == prev.union(
        Set::new(|k2: ElementId| m.contains_key(k2) && exists|p2: ElementId| #[trigger]
            prev.contains(p2) && m[p2].children@.contains(k2))));
    assert(prev.contains(q) && m[q].children@.contains(c));
}

/// Two maps with the same keys and the same children are tree-shaped alike
/// and reach alike.
proof fn lemma_same_shape<T>(m0: Map<ElementId, Node<T>>, m1: Map<ElementId, Node<T>>, x: ElementId, n: nat)
    requires
        m1.dom() == m0.dom(),
        forall|k: ElementId| #[trigger] m1.contains_key(k) ==> m1[k].children == m0[k].children,
    ensures
        tree_shaped(m0) ==> tree_shaped(m1),
        forall|p: ElementId| #[trigger] reach_within(m0, seq![x], n).contains(p) ==> reach_within(m1, seq![x], n).contains(p),
        forall|p: ElementId| #[trigger] reach_within(m1, seq![x], n).contains(p) ==> reach_within(m0, seq![x], n).contains(p),
{
    assert forall|k: ElementId| #[trigger] m0.contains_key(k) implies m0[k].children == m1[k].children by {
        assert(m1.contains_key(k));
    }
    assert forall|y: ElementId| #[trigger] seq![x].contains(y) && m1.contains_key(y) implies reach_within(m1, seq![x], 0).contains(y) by {
    }
    assert forall|y: ElementId| #[trigger] seq![x].contains(y) && m0.contains_key(y) implies reach_within(m0, seq![x], 0).contains(y) by {
    }
    lemma_reach_same_shape(m1, m0, seq![x], seq![x], 0, n);
    lemma_reach_same_shape(m0, m1, seq![x], seq![x], 0, n);
    if tree_shaped(m0) {
        assert forall|k: ElementId, c: ElementId| m1.contains_key(k) && #[trigger] m1[k].children@.contains(c) implies k < c by {
            assert(m0[k].children@.contains(c));
        }
        assert forall|k1: ElementId, k2: ElementId, c: ElementId|
            m1.contains_key(k1) && m1.contains_key(k2) && #[trigger] m1[k1].children@.contains(c)
                && #[trigger] m1[k2].children@.contains(c) implies k1 == k2 by {
            assert(m0[k1].children@.contains(c) && m0[k2].children@.contains(c));
        }
    }
}

/// A node reached from `x` in a tree of the shape of `m0` was not changed,
/// nor were its children, by laying out below a sibling `y` of `x`.
proof fn lemma_untouched_by_sibling<T>(
    m0: Map<ElementId, Node<T>>,
    mi: Map<ElementId, Node<T>>,
    ri: Map<ElementId, (Rect, Rect)>,
    m2: Map<ElementId, Node<T>>,
    r2: Map<ElementId, (Rect, Rect)>,
    id: ElementId,
    x: ElementId,
    y: ElementId,
    n: nat,
    k: ElementId,
)
    requires
        tree_shaped(m0),
        m0.contains_key(id),
        m0[id].children@.contains(x),
        m0[id].children@.contains(y),
        x != y,
        reach_within(m0, seq![x], n).contains(k),
        mi.dom() == m0.dom(),
        forall|j: ElementId| #[trigger] mi.contains_key(j) ==> mi[j].children == m0[j].children,
        changes_below(mi, ri, m2, r2, y),
    ensures
        !changed(mi, ri, m2, r2, k),
{
    if changed(mi, ri, m2, r2, k) {
        let q = choose|q: ElementId| #[trigger] reachable(mi, seq![y], q) && mi[q].children@.contains(k);
        let nq = choose|nq: nat| #[trigger] reach_within(mi, seq![y], nq).contains(q);
        lemma_same_shape(m0, mi, y, nq);
        lemma_reach_in_dom(m0, seq![y], nq);
        lemma_reach_in_dom(m0, seq![x], n);
        assert(m0[q].children@.contains(k));
        lemma_reach_step(m0, seq![y], nq, q, k);
        lemma_siblings_apart(m0, id, x, y, n, nq + 1, k);
    }
}

/// Laying out below a sibling leaves a node reached from `x` laid out.
proof fn lemma_laid_out_kept<T, F: Fn(ElementId, &Tree<T>) -> HashMap<ElementId, Rect>>(
    layout: F,
    m0: Map<ElementId, Node<T>>,
    mi: Map<ElementId, Node<T>>,
    ri: Map<ElementId, (Rect, Rect)>,
    m2: Map<ElementId, Node<T>>,
    r2: Map<ElementId, (Rect, Rect)>,
    id: ElementId,
    x: ElementId,
    y: ElementId,
    n: nat,
    p: ElementId,
)
    requires
        tree_shaped(m0),
        m0.contains_key(id),
        m0[id].children@.contains(x),
        m0[id].children@.contains(y),
        x != y,
        reach_within(m0, seq![x], n).contains(p),
        mi.dom() == m0.dom(),
        forall|j: ElementId| #[trigger] mi.contains_key(j) ==> mi[j].children == m0[j].children,
        only_bounds_change_recorded(mi, ri, m2, r2),
        changes_below(mi, ri, m2, r2, y),
        laid_out(layout, m0, mi, ri, p),
    ensures
        laid_out(layout, m0, m2, r2, p),
{
    let (t, b) = choose|t: Tree<T>, b: HashMap<ElementId, Rect>| #[trigger] layout.ensures((p, &t), b)
        && (forall|c: ElementId| #[trigger] b@.contains_key(c) ==> m0[p].children@.contains(c))
        && placed(mi, ri, b@, mi[p].global_bounds.position);
    lemma_reach_in_dom(m0, seq![x], n);
    lemma_untouched_by_sibling(m0, mi, ri, m2, r2, id, x, y, n, p);
    assert(m2.contains_key(p));
    assert(m2[p].global_bounds == mi[p].global_bounds);
    assert forall|c: ElementId| #[trigger] b@.contains_key(c) implies {
        &&& m2.contains_key(c)
        &&& m2[c].local_bounds == b@[c]
        &&& m2[c].global_bounds == shifted(b@[c], m2[p].global_bounds.position)
        &&& r2.contains_key(c)
        &&& r2[c] == (shifted(b@[c], m2[p].global_bounds.position), b@[c])
    } by {
        assert(mi.contains_key(c));
        assert(m0.contains_key(c));
        lemma_reach_step(m0, seq![x], n, p, c);
        lemma_untouched_by_sibling(m0, mi, ri, m2, r2, id, x, y, n + 1, c);
        assert(m2.contains_key(c));
        assert(ri.contains_key(c));
        assert(r2.contains_key(c));
    }
    assert(placed(m2, r2, b@, m2[p].global_bounds.position));
}

/// Being laid out does not depend on the tree it was stated against, but
/// for the children of the node.
proof fn lemma_laid_out_reshape<T, F: Fn(ElementId, &Tree<T>) -> HashMap<ElementId, Rect>>(
    layout: F,
    ma: Map<ElementId, Node<T>>,
    mb: Map<ElementId, Node<T>>,
    m: Map<ElementId, Node<T>>,
    r: Map<ElementId, (Rect, Rect)>,
    p: ElementId,
)
    requires
        ma[p].children == mb[p].children,
        laid_out(layout, ma, m, r, p),
    ensures
        laid_out(layout, mb, m, r, p),
{
    let (t, b) = choose|t: Tree<T>, b: HashMap<ElementId, Rect>| #[trigger] layout.ensures((p, &t), b)
        && (forall|c: ElementId| #[trigger] b@.contains_key(c) ==> ma[p].children@.contains(c))
        && placed(m, r, b@, m[p].global_bounds.position);
    assert(forall|c: ElementId| #[trigger] b@.contains_key(c) ==> mb[p].children@.contains(c));
}

/// Laying out below `id` in a tree-shaped map leaves `id` itself as it was.
proof fn lemma_root_of_layout_kept<T>(
    m0: Map<ElementId, Node<T>>,
    r0: Map<ElementId, (Rect, Rect)>,
    m: Map<ElementId, Node<T>>,
    r: Map<ElementId, (Rect, Rect)>,
    id: ElementId,
)
    requires
        tree_shaped(m0),
        changes_below(m0, r0, m, r, id),
    ensures
        !changed(m0, r0, m, r, id),
{
    if changed(m0, r0, m, r, id) {
        let q = choose|q: ElementId| #[trigger] reachable(m0, seq![id], q) && m0[q].children@.contains(id);
        let n = choose|n: nat| #[trigger] reach_within(m0, seq![id], n).contains(q);
        lemma_reach_ascending(m0, id, n);
        lemma_reach_in_dom(m0, seq![id], n);
        assert(q < id);
    }
}

/// Each set of nodes reached in more steps than `m` has keys is already
/// reached in one step fewer than that.
proof fn lemma_reach_saturates<T>(m: Map<ElementId, Node<T>>, roots: Seq<ElementId>, k: nat)
    requires
        m.dom().finite(),
        m.dom().len() > 0,
    ensures
        reach_within(m, roots, k).subset_of(reach_within(m, roots, (m.dom().len() - 1) as nat)),
{
    let top = (m.dom().len() - 1) as nat;
    if k <= top {
        lemma_reach_mono(m, roots, k, top);
    } else {
        lemma_reach_grows_or_stops(m, roots, m.dom().len());
        if reach_within(m, roots, 0).len() == 0 {
            lemma_reach_in_dom(m, roots, 0);
            vstd::set_lib::lemma_len_subset(reach_within(m, roots, 0), m.dom());
            assert(reach_within(m, roots, 0) =~= Set::empty());
            assert(reach_within(m, roots, 1) =~= reach_within(m, roots, 0));
            assert(0 < m.dom().len() && reach_within(m, roots, 0 + 1) == reach_within(m, roots, 0));
        }
        let j = choose|j: nat| j < m.dom().len() && #[trigger] reach_within(m, roots, j + 1) == reach_within(m, roots, j);
        lemma_reach_stays(m, roots, j, k);
        lemma_reach_mono(m, roots, j, top);
    }
}

/// Once reaching stops growing, it stays as it is.
proof fn lemma_reach_stays<T>(m: Map<ElementId, Node<T>>, roots: Seq<ElementId>, j: nat, k: nat)
    requires
        reach_within(m, roots, j + 1) == reach_within(m, roots, j),
        j <= k,
    ensures
        reach_within(m, roots, k) == reach_within(m, roots, j),
    decreases k - j,
{
    if k > j {
        lemma_reach_stays(m, roots, j, (k - 1) as nat);
        assert(reach_within(m, roots, k) == reach_within(m, roots, j + 1));
    }
}

/// Within `n` steps, reaching stops growing at some step, or it reached
/// more than `n` keys.
proof fn lemma_reach_grows_or_stops<T>(m: Map<ElementId, Node<T>>, roots: Seq<ElementId>, n: nat)
    requires
        m.dom().finite(),
    ensures
        (exists|j: nat| j < n && #[trigger] reach_within(m, roots, j + 1) == reach_within(m, roots, j))
            || n + 1 <= reach_within(m, roots, n).len() + if reach_within(m, roots, 0).len() == 0 { n + 1 } else { 0 },
        reach_within(m, roots, n).len() <= m.dom().len(),
    decreases n,
{
    lemma_reach_in_dom(m, roots, n);
    vstd::set_lib::lemma_len_subset(reach_within(m, roots, n), m.dom());
    if reach_within(m, roots, 0).len() == 0 {
    } else if n == 0 {
        assert(reach_within(m, roots, 0).len() >= 1);
    } else {
        let n1 = (n - 1) as nat;
        lemma_reach_grows_or_stops(m, roots, n1);
        if exists|j: nat| j < n1 && #[trigger] reach_within(m, roots, j + 1) == reach_within(m, roots, j) {
            let j = choose|j: nat| j < n1 && #[trigger] reach_within(m, roots, j + 1) == reach_within(m, roots, j);
            assert(j < n && reach_within(m, roots, j + 1) == reach_within(m, roots, j));
        } else if reach_within(m, roots, n) == reach_within(m, roots, n1) {
            assert(reach_within(m, roots, n1 + 1) == reach_within(m, roots, n1));
        } else {
            lemma_reach_grows(m, roots, n1);
            let a = reach_within(m, roots, n1);
            let b = reach_within(m, roots, n);
            assert(!(a =~= b));
            let e = choose|e: ElementId| !(a.contains(e) <==> b.contains(e));
            lemma_reach_in_dom(m, roots, n);
            vstd::set_lib::lemma_len_subset(b, m.dom());
            a.lemma_subset_not_in_lt(b, e);
        }
    }
}

/// Laying out below a child `x` of `id` leaves the children of `id` as they
/// were placed, when ids grow from parent to child and no node has two
/// parents.
proof fn lemma_placed_kept<T>(
    m0: Map<ElementId, Node<T>>,
    mi: Map<ElementId, Node<T>>,
    ri: Map<ElementId, (Rect, Rect)>,
    m2: Map<ElementId, Node<T>>,
    r2: Map<ElementId, (Rect, Rect)>,
    b: Map<ElementId, Rect>,
    origin: Point,
    id: ElementId,
    x: ElementId,
)
    requires
        tree_shaped(m0),
        m0.contains_key(id),
        m0[id].children@.contains(x),
        mi.dom() == m0.dom(),
        forall|k: ElementId| #[trigger] mi.contains_key(k) ==> mi[k].children == m0[k].children,
        forall|c: ElementId| #[trigger] b.contains_key(c) ==> m0[id].children@.contains(c),
        placed(mi, ri, b, origin),
        only_bounds_change_recorded(mi, ri, m2, r2),
        changes_below(mi, ri, m2, r2, x),
    ensures
        placed(m2, r2, b, origin),
{
    assert forall|c: ElementId| #[trigger] b.contains_key(c) implies {
        &&& m2.contains_key(c)
        &&& m2[c].local_bounds == b[c]
        &&& m2[c].global_bounds == shifted(b[c], origin)
        &&& r2.contains_key(c)
        &&& r2[c] == (shifted(b[c], origin), b[c])
    } by {
        assert(mi.contains_key(c));
        assert(m2.contains_key(c));
        if changed(mi, ri, m2, r2, c) {
            let p = choose|p: ElementId| #[trigger] reachable(mi, seq![x], p) && mi[p].children@.contains(c);
            let n = choose|n: nat| #[trigger] reach_within(mi, seq![x], n).contains(p);
            assert forall|y: ElementId| #[trigger] seq![x].contains(y) && m0.contains_key(y) implies reach_within(m0, seq![x], 0).contains(y) by {
            }
            lemma_reach_same_shape(m0, mi, seq![x], seq![x], 0, n);
            assert(reach_within(m0, seq![x], n).contains(p));
            lemma_reach_ascending(m0, x, n);
            lemma_reach_in_dom(m0, seq![x], n);
            assert(m0.contains_key(p));
            assert(m0[p].children@.contains(c));
            assert(m0[id].children@.contains(c));
            assert(p == id);
            assert(id < x);
        }
    }
}

/// Lays out the subtree of `id`, going at most `depth` levels down: when the
/// tree holds `id`, `layout` gives bounds to the children of `id`, relative
/// to it, which `apply_child_layout` places and records; then each child of
/// `id`, in order, is laid out in the same way. Only bounds change, and
/// `results` ends up holding, for every element whose bounds or whose
/// record changed, the global and local bounds it ends with.
pub fn layout_subtree<T, F: Fn(ElementId, &Tree<T>) -> HashMap<ElementId, Rect>>(
    tree: &mut Tree<T>,
    id: ElementId,
    layout: &F,
    results: &mut HashMap<ElementId, (Rect, Rect)>,
    depth: usize,
)
    requires
        forall|i: ElementId, t: &Tree<T>| #[trigger] layout.requires((i, t)),
        forall|i: ElementId, t: &Tree<T>, b: HashMap<ElementId, Rect>| #[trigger] layout.ensures((i, t), b)
            ==> layout_fits(t@, i, b@),
    ensures
        final(tree).root() == old(tree).root(),
        only_bounds_change_recorded(old(tree)@, old(results)@, final(tree)@, final(results)@),
        depth > 0 && old(tree)@.contains_key(id) ==> exists|b: HashMap<ElementId, Rect>| #[trigger] layout.ensures((id, &*old(tree)), b),
        places_own_children(*layout) ==> changes_below(old(tree)@, old(results)@, final(tree)@, final(results)@, id),
        places_own_children(*layout) && tree_shaped(old(tree)@) && depth > 0 && old(tree)@.contains_key(id) ==>
            exists|b: HashMap<ElementId, Rect>| #[trigger] layout.ensures((id, &*old(tree)), b)
                && placed(final(tree)@, final(results)@, b@, old(tree)@[id].global_bounds.position),
        places_own_children(*layout) && tree_shaped(old(tree)@) && depth > 0 ==>
            forall|p: ElementId| #[trigger] reach_within(old(tree)@, seq![id], (depth - 1) as nat).contains(p)
                ==> laid_out(*layout, old(tree)@, final(tree)@, final(results)@, p),
    decreases depth,
{
    let ghost m0 = tree@;
    let ghost r0 = results@;
    let ghost t0 = *tree;
    if depth == 0 || tree.get(id).is_none() {
        proof {
            assert(only_bounds_change_recorded(m0, r0, tree@, results@));
            if depth > 0 {
                assert forall|p: ElementId| #[trigger] reach_within(m0, seq![id], (depth - 1) as nat).contains(p)
                    implies laid_out(*layout, m0, tree@, results@, p) by {
                    lemma_reach_in_dom(m0, seq![id], (depth - 1) as nat);
                    if p != id {
                        if depth > 1 {
                            lemma_reach_from_child(m0, id, (depth - 2) as nat, p);
                        } else {
                            assert(seq![id].contains(p));
                            assert(seq![id][0] == id);
                        }
                    }
                }
            }
            assert forall|k: ElementId| #[trigger] changed(m0, r0, tree@, results@, k) implies
                exists|p: ElementId| #[trigger] reachable(m0, seq![id], p) && m0[p].children@.contains(k) by {
            }
        }
        return;
    }
    let child_local = layout(id, &*tree);
    proof {
        assert(layout_fits(m0, id, child_local@));
    }
    apply_child_layout(tree, id, &child_local, results);
    proof {
        let m1 = tree@;
        let r1 = results@;
        assert forall|k: ElementId| #[trigger] r1.contains_key(k) && (!r0.contains_key(k) || r1[k] != r0[k])
            implies m1.contains_key(k) && r1[k] == (m1[k].global_bounds, m1[k].local_bounds) by {
            assert(child_local@.contains_key(k));
        }
        assert forall|k: ElementId| #[trigger] m1.contains_key(k)
            && (m1[k].local_bounds != m0[k].local_bounds || m1[k].global_bounds != m0[k].global_bounds)
            implies r1.contains_key(k) && r1[k] == (m1[k].global_bounds, m1[k].local_bounds) by {
            assert(child_local@.contains_key(k));
        }
        assert(only_bounds_change_recorded(m0, r0, m1, r1));
        if places_own_children(*layout) {
            assert forall|k: ElementId| #[trigger] changed(m0, r0, m1, r1, k) implies
                exists|p: ElementId| #[trigger] reachable(m0, seq![id], p) && m0[p].children@.contains(k) by {
                assert(child_local@.contains_key(k));
                assert(m0[id].children@.contains(k));
                assert(reach_within(m0, seq![id], 0).contains(id)) by {
                    assert(seq![id][0] == id);
                }
                assert(reachable(m0, seq![id], id));
            }
        }
    }
    let ghost b = child_local@;
    let ghost m1 = tree@;
    let ghost r1 = results@;
    let ghost origin = m0[id].global_bounds.position;
    proof {
        if places_own_children(*layout) {
            assert(placed(m1, r1, b, origin));
            assert forall|c: ElementId| #[trigger] b.contains_key(c) implies m0[id].children@.contains(c) by {
            }
        }
    }
    let children = match tree.get(id) {
        Some(node) => crate::ui_state::copy_ids(&node.children),
        None => Vec::new(),
    };
    let mut i: usize = 0;
    while i < children.len()
        invariant
            i <= children@.len(),
            forall|a: ElementId, t: &Tree<T>| #[trigger] layout.requires((a, t)),
            forall|a: ElementId, t: &Tree<T>, b: HashMap<ElementId, Rect>| #[trigger] layout.ensures((a, t), b)
                ==> layout_fits(t@, a, b@),
            tree.root() == old(tree).root(),
            only_bounds_change_recorded(m0, r0, tree@, results@),
            depth > 0,
            m0.contains_key(id),
            children@ == m0[id].children@,
            places_own_children(*layout) ==> changes_below(m0, r0, tree@, results@, id),
            places_own_children(*layout) && tree_shaped(m0) ==> placed(tree@, results@, b, origin),
            places_own_children(*layout) ==> forall|c: ElementId| #[trigger] b.contains_key(c) ==> m0[id].children@.contains(c),
            places_own_children(*layout) && tree_shaped(m0) && depth > 1 ==>
                forall|j: int, p: ElementId| 0 <= j < i && #[trigger] reach_within(m0, seq![children@[j]], (depth - 2) as nat).contains(p)
                    ==> laid_out(*layout, m0, tree@, results@, p),
        decreases children@.len() - i,
    {
        let ghost mi = tree@;
        let ghost ri = results@;
        let x = children[i];
        layout_subtree(tree, x, layout, results, depth - 1);
        proof {
            lemma_only_bounds_change_recorded_trans(m0, r0, mi, ri, tree@, results@);
            assert(m0[id].children@.contains(x)) by {
                assert(children@[i as int] == x);
            }
            if places_own_children(*layout) {
                assert forall|k: ElementId| #[trigger] mi.contains_key(k) implies mi[k].children == m0[k].children by {
                    assert(same_but_bounds(m0[k], mi[k]));
                }
                lemma_changes_below_child(m0, r0, mi, ri, tree@, results@, id, x);
                if tree_shaped(m0) {
                    lemma_placed_kept(m0, mi, ri, tree@, results@, b, origin, id, x);
                    if depth > 1 {
                        let d2 = (depth - 2) as nat;
                        lemma_same_shape(m0, mi, x, d2);
                        assert(tree_shaped(mi));
                        assert(d2 == (((depth - 1) as usize) - 1) as nat);
                        assert(forall|p: ElementId| #[trigger] reach_within(mi, seq![x], (((depth - 1) as usize) - 1) as nat).contains(p)
                            ==> laid_out(*layout, mi, tree@, results@, p));
                        assert forall|j: int, p: ElementId| 0 <= j < i + 1 && #[trigger] reach_within(m0, seq![children@[j]], d2).contains(p)
                            implies laid_out(*layout, m0, tree@, results@, p) by {
                            let cj = children@[j];
                            lemma_reach_in_dom(m0, seq![cj], d2);
                            if cj == x {
                                assert(reach_within(mi, seq![x], d2).contains(p));
                                assert(mi.contains_key(p));
                                lemma_laid_out_reshape(*layout, mi, m0, tree@, results@, p);
                            } else {
                                assert(m0[id].children@.contains(cj)) by {
                                    assert(children@[j] == cj);
                                }
                                lemma_laid_out_kept(*layout, m0, mi, ri, tree@, results@, id, cj, x, d2, p);
                            }
                        }
                    }
                }
            }
        }
        i += 1;
    }
    proof {
        if places_own_children(*layout) && tree_shaped(m0) {
            lemma_root_of_layout_kept(m0, r0, tree@, results@, id);
            assert(tree@[id].global_bounds == m0[id].global_bounds);
            assert(layout.ensures((id, &t0), child_local));
            assert forall|p: ElementId| #[trigger] reach_within(m0, seq![id], (depth - 1) as nat).contains(p)
                implies laid_out(*layout, m0, tree@, results@, p) by {
                if p == id {
                    assert(layout.ensures((id, &t0), child_local)
                        && (forall|c: ElementId| #[trigger] child_local@.contains_key(c) ==> m0[id].children@.contains(c))
                        && placed(tree@, results@, child_local@, tree@[id].global_bounds.position));
                } else {
                    if depth > 1 {
                        lemma_reach_from_child(m0, id, (depth - 2) as nat, p);
                        let x = choose|x: ElementId| #[trigger] m0[id].children@.contains(x) && m0.contains_key(id)
                            && reach_within(m0, seq![x], (depth - 2) as nat).contains(p);
                        let j = choose|j: int| 0 <= j < children@.len() && children@[j] == x;
                        assert(reach_within(m0, seq![children@[j]], (depth - 2) as nat).contains(p));
                    } else {
                        assert(seq![id].contains(p));
                        assert(seq![id][0] == id);
                    }
                }
            }
        }
    }
}

/// Lays out the subtree of `id` with `layout`, at most as many levels down
/// as the tree has nodes; see `layout_subtree`.
pub fn layout_element<T, F: Fn(ElementId, &Tree<T>) -> HashMap<ElementId, Rect>>(
    tree: &mut Tree<T>,
    id: ElementId,
    layout: &F,
    results: &mut HashMap<ElementId, (Rect, Rect)>,
)
    requires
        forall|i: ElementId, t: &Tree<T>| #[trigger] layout.requires((i, t)),
        forall|i: ElementId, t: &Tree<T>, b: HashMap<ElementId, Rect>| #[trigger] layout.ensures((i, t), b)
            ==> layout_fits(t@, i, b@),
    ensures
        final(tree).root() == old(tree).root(),
        only_bounds_change_recorded(old(tree)@, old(results)@, final(tree)@, final(results)@),
        old(tree)@.contains_key(id) ==> exists|b: HashMap<ElementId, Rect>| #[trigger] layout.ensures((id, &*old(tree)), b),
        places_own_children(*layout) ==> changes_below(old(tree)@, old(results)@, final(tree)@, final(results)@, id),
        places_own_children(*layout) && tree_shaped(old(tree)@) && old(tree)@.contains_key(id) ==>
            exists|b: HashMap<ElementId, Rect>| #[trigger] layout.ensures((id, &*old(tree)), b)
                && placed(final(tree)@, final(results)@, b@, old(tree)@[id].global_bounds.position),
        places_own_children(*layout) && tree_shaped(old(tree)@) ==>
            forall|p: ElementId| #[trigger] reachable(old(tree)@, seq![id], p)
                ==> laid_out(*layout, old(tree)@, final(tree)@, final(results)@, p),
{
    let ghost m0 = tree@;
    let nodes = tree.nodes();
    let depth = nodes.len();
    proof {
        assert(nodes@.dom().finite());
        if old(tree)@.contains_key(id) {
            assert(old(tree)@.dom().contains(id));
            assert(old(tree)@.dom().len() > 0);
        }
    }
    layout_subtree(tree, id, layout, results, depth);
    proof {
        if places_own_children(*layout) && tree_shaped(m0) {
            assert forall|p: ElementId| #[trigger] reachable(m0, seq![id], p)
                implies laid_out(*layout, m0, tree@, results@, p) by {
                let n = choose|n: nat| #[trigger] reach_within(m0, seq![id], n).contains(p);
                lemma_reach_in_dom(m0, seq![id], n);
                assert(m0.dom().contains(p));
                assert(m0.dom().len() > 0);
                lemma_reach_saturates(m0, seq![id], n);
                assert(reach_within(m0, seq![id], (depth - 1) as nat).contains(p));
            }
        }
    }
}

/// What being laid out means for each child: a node laid out gave each
/// child in the bounds its layout returned exactly those local bounds, and
/// global bounds of the same size whose corner is the node's global corner
/// plus the local one (where that sum is an `i64`), and the results record
/// both.
pub proof fn law_laid_out_children_are_placed<T, F: Fn(ElementId, &Tree<T>) -> HashMap<ElementId, Rect>>(
    layout: F,
    m0: Map<ElementId, Node<T>>,
    m: Map<ElementId, Node<T>>,
    r: Map<ElementId, (Rect, Rect)>,
    p: ElementId,
)
    requires
        laid_out(layout, m0, m, r, p),
    ensures
        exists|t: Tree<T>, b: HashMap<ElementId, Rect>| #[trigger] layout.ensures((p, &t), b)
            && forall|c: ElementId| #[trigger] b@.contains_key(c) ==> {
                let g = m[c].global_bounds;
                let o = m[p].global_bounds.position;
                &&& m0[p].children@.contains(c)
                &&& m.contains_key(c) && r.contains_key(c)
                &&& m[c].local_bounds == b@[c]
                &&& g.size == b@[c].size
                &&& fits_i64(o.x + b@[c].position.x) ==> g.position.x == o.x + b@[c].position.x
                &&& fits_i64(o.y + b@[c].position.y) ==> g.position.y == o.y + b@[c].position.y
                &&& r[c].0 == g && r[c].1 == b@[c]
            },
{
    let (t, b) = choose|t: Tree<T>, b: HashMap<ElementId, Rect>| #[trigger] layout.ensures((p, &t), b)
        && (forall|c: ElementId| #[trigger] b@.contains_key(c) ==> m0[p].children@.contains(c))
        && placed(m, r, b@, m[p].global_bounds.position);
    assert forall|c: ElementId| #[trigger] b@.contains_key(c) implies {
        let g = m[c].global_bounds;
        let o = m[p].global_bounds.position;
        &&& m0[p].children@.contains(c)
        &&& m.contains_key(c) && r.contains_key(c)
        &&& m[c].local_bounds == b@[c]
        &&& g.size == b@[c].size
        &&& fits_i64(o.x + b@[c].position.x) ==> g.position.x == o.x + b@[c].position.x
        &&& fits_i64(o.y + b@[c].position.y) ==> g.position.y == o.y + b@[c].position.y
        &&& r[c].0 == g && r[c].1 == b@[c]
    } by {
    }
}

/// Some key among the first `n` entries of `s` is `k`.
pub open spec fn done_keys(s: Seq<(&ElementId, &Rect)>, n: int, k: ElementId) -> bool {
    exists|j: int| 0 <= j < n && *(#[trigger] s[j]).0 == k
}

/// An element taken out of a tree to be rebuilt: the node it hung below, if
/// any, its id, and the subtree built anew from it.
pub struct Rebuild<T> {
    pub parent: Option<ElementId>,
    pub id: ElementId,
    pub tree: Tree<T>,
}

/// The rebuilds that changes of the UI state caused.
pub struct MutationResult<T> {
    pub rebuilds: Vec<Rebuild<T>>,
}

impl<T> Default for MutationResult<T> {
    fn default() -> (r: Self)
        ensures
            r.rebuilds@.len() == 0,
    {
        MutationResult { rebuilds: Vec::new() }
    }
}

impl<T> MutationResult<T> {
    /// No rebuild.
    pub fn new() -> (r: Self)
        ensures
            r.rebuilds@.len() == 0,
    {
        MutationResult { rebuilds: Vec::new() }
    }
}

/// Takes the element `id` out of `tree` to rebuild it: finds a node it hangs
/// below, removes it with everything below it, and returns that node and the
/// element's node with its children forgotten.
pub fn detach_for_rebuild<T>(tree: &mut Tree<T>, id: ElementId) -> (r: (Option<ElementId>, Node<T>))
    requires
        old(tree)@.contains_key(id),
    ensures
        final(tree).root() == old(tree).root(),
        r.0 is Some ==> old(tree)@.contains_key(r.0->0) && old(tree)@[r.0->0].children@.contains(id),
        r.0 is None ==> forall|k: ElementId| #[trigger] old(tree)@.contains_key(k) ==> !old(tree)@[k].children@.contains(id),
        same_but_children(old(tree)@[id], r.1),
        r.1.children@ == Seq::<ElementId>::empty(),
        ({
            let rest = pruned(old(tree)@.remove(id), old(tree)@[id].children@);
            ||| (forall|k: ElementId| #[trigger] rest.contains_key(k) ==> !rest[k].children@.contains(id))
                && final(tree)@ == rest
            ||| exists|p: ElementId| #[trigger] rest.contains_key(p) && rest[p].children@.contains(id)
                && children_replaced(rest, final(tree)@, p, remove_first(rest[p].children@, id))
        }),
{
    let parent = tree.find_parent(id);
    let mut node = tree.remove_node(id);
    node.children.clear();
    (parent, node)
}

/// Takes the element `id` out of `tree` and builds it anew with `expand`:
/// its node, with its children forgotten, becomes under the same id the
/// root of a tree that `WidgetTreeBuilder::build` builds from it. Returns
/// the node it hung below, if any, its id, and that tree.
pub fn rebuild_element<T, F: Fn(ElementId, &mut T) -> Vec<T>>(
    tree: &mut Tree<T>,
    id: ElementId,
    expand: F,
    ids: &mut ElementIds,
) -> (r: Rebuild<T>)
    requires
        old(tree)@.contains_key(id),
        forall|i: ElementId, d: &mut T| #[trigger] expand.requires((i, d)),
    ensures
        r.id == id,
        r.tree.root() == id,
        final(tree).root() == old(tree).root(),
        r.parent is Some ==> old(tree)@.contains_key(r.parent->0) && old(tree)@[r.parent->0].children@.contains(id),
        r.parent is None ==> forall|k: ElementId| #[trigger] old(tree)@.contains_key(k) ==> !old(tree)@[k].children@.contains(id),
        ({
            let rest = pruned(old(tree)@.remove(id), old(tree)@[id].children@);
            ||| (forall|k: ElementId| #[trigger] rest.contains_key(k) ==> !rest[k].children@.contains(id))
                && final(tree)@ == rest
            ||| exists|p: ElementId| #[trigger] rest.contains_key(p) && rest[p].children@.contains(id)
                && children_replaced(rest, final(tree)@, p, remove_first(rest[p].children@, id))
        }),
        final(ids).last() >= old(ids).last(),
        exists|n: Node<T>| {
            &&& #[trigger] same_but_children(old(tree)@[id], n)
            &&& n.children@.len() == 0
            &&& ids_at_most(map![id => n], old(ids).last() as int) ==>
                build_inv(map![id => n], r.tree@, id, old(ids).last() as int, final(ids).last() as int)
            &&& fresh_build(map![id => n], id, old(ids).last() as int, final(ids).last() as int) ==>
                exists|inputs: Map<ElementId, T>| {
                    &&& #[trigger] inputs.dom() == set![id] + Set::new(|k: ElementId| old(ids).last() < k <= final(ids).last())
                    &&& inputs[id] == old(tree)@[id].data
                    &&& one_parent_each(r.tree@, inputs)
                    &&& forall|k: ElementId| #[trigger] inputs.contains_key(k) ==>
                        exists|x: &mut T, out: Vec<T>| #[trigger] expand.ensures((k, x), out) && *x == inputs[k]
                            && mut_ref_future(x) == r.tree@[k].data && children_from(r.tree@, inputs, k, out@)
                }
        },
{
    let (parent, node) = detach_for_rebuild(tree, id);
    let ghost n = node;
    let builder = WidgetTreeBuilder::new_with_root_node(node, id);
    let built = builder.build(expand, ids);
    proof {
        assert(same_but_children(old(tree)@[id], n));
    }
    Rebuild { parent, id, tree: built }
}

/// Puts a rebuilt subtree back: below its parent, whose layout is then to be
/// redone, or, without a parent, as the whole tree. Returns the element whose
/// layout is to be redone, or none when the whole tree is to be laid out.
pub fn merge_rebuild<T>(root_tree: &mut Tree<T>, rebuild: Rebuild<T>) -> (relayout: Option<ElementId>)
    ensures
        relayout == rebuild.parent,
        rebuild.parent is None ==> final(root_tree)@ == rebuild.tree@ && final(root_tree).root() == rebuild.tree.root(),
        rebuild.parent is Some ==> {
            let p = rebuild.parent->0;
            let sub = rebuild.tree@;
            &&& final(root_tree).root() == old(root_tree).root()
            &&& final(root_tree)@.dom() == old(root_tree)@.dom() + sub.dom()
            &&& forall|k: ElementId| #[trigger] sub.contains_key(k) ==> final(root_tree)@[k] == sub[k]
            &&& forall|k: ElementId| #[trigger] old(root_tree)@.contains_key(k) && !sub.contains_key(k) && k != p
                ==> final(root_tree)@[k] == old(root_tree)@[k]
            &&& old(root_tree)@.contains_key(p) && !sub.contains_key(p) ==> {
                &&& same_but_children(old(root_tree)@[p], final(root_tree)@[p])
                &&& final(root_tree)@[p].children@.to_multiset()
                    == old(root_tree)@[p].children@.to_multiset().insert(rebuild.tree.root())
            }
        },
{
    match rebuild.parent {
        Some(parent) => {
            root_tree.merge_subtree(parent, rebuild.tree);
            Some(parent)
        },
        None => {
            *root_tree = rebuild.tree;
            None
        },
    }
}

/// Whether the entry `i` of `s` is the last one for its element.
pub open spec fn last_for_element(s: Seq<(ElementId, Option<ChangeResponse>)>, i: int) -> bool {
    forall|j: int| i < j < s.len() ==> (#[trigger] s[j]).0 != s[i].0
}

/// The elements to rebuild after the first `n` answers of `s`: in order,
/// each element whose last answer in `s` is among them and asks to be built.
pub open spec fn rebuilds_among(s: Seq<(ElementId, Option<ChangeResponse>)>, n: int) -> Seq<ElementId>
    decreases n,
{
    if n <= 0 {
        Seq::empty()
    } else {
        rebuilds_among(s, n - 1) + if s[n - 1].1 is Some && last_for_element(s, n - 1) {
            seq![s[n - 1].0]
        } else {
            Seq::<ElementId>::empty()
        }
    }
}

/// The elements to rebuild, in order, after the elements told of a change
/// of a value they are bound to answered with `actions`: each element once,
/// when its last answer asks it to be built again. A layout or a paint
/// answer as last answer is not handled.
pub fn rebuilds_needed(actions: &Vec<(ElementId, Option<ChangeResponse>)>) -> (ids: Vec<ElementId>)
    requires
        forall|i: int| 0 <= i < actions@.len() && last_for_element(actions@, i) ==>
            (#[trigger] actions@[i]).1 is None || actions@[i].1 == Some(ChangeResponse::Build),
    ensures
        ids@ == rebuilds_among(actions@, actions@.len() as int),
        ids@.no_duplicates(),
{
    let n = actions.len();
    let mut ids: Vec<ElementId> = Vec::new();
    let ghost mut from: Seq<int> = Seq::empty();
    let mut i: usize = 0;
    while i < n
        invariant
            n == actions@.len(),
            i <= n,
            ids@ == rebuilds_among(actions@, i as int),
            from.len() == ids@.len(),
            forall|k: int| 0 <= k < from.len() ==> 0 <= #[trigger] from[k] < i && last_for_element(actions@, from[k])
                && ids@[k] == actions@[from[k]].0,
            ids@.no_duplicates(),
        decreases n - i,
    {
        let id = actions[i].0;
        let mut last = true;
        let mut j: usize = i + 1;
        while j < n
            invariant
                n == actions@.len(),
                i < j <= n,
                id == actions@[i as int].0,
                last == forall|k: int| i < k < j ==> (#[trigger] actions@[k]).0 != actions@[i as int].0,
            decreases n - j,
        {
            if actions[j].0 == id {
                last = false;
            }
            j += 1;
        }
        if last && actions[i].1.is_some() {
            proof {
                assert forall|k: int| 0 <= k < ids@.len() implies ids@[k] != id by {
                    assert(from[k] < i);
                    assert(actions@[i as int].0 != actions@[from[k]].0);
                }
                from = from.push(i as int);
            }
            ids.push(id);
        }
        proof {
            assert(actions@[i as int].1 is Some && last_for_element(actions@, i as int) <==> last && actions@[i as int].1 is Some);
            if last && actions@[i as int].1 is Some {
                assert(ids@ =~= rebuilds_among(actions@, i as int) + seq![actions@[i as int].0]);
            } else {
                assert(rebuilds_among(actions@, i + 1) =~= rebuilds_among(actions@, i as int));
            }
        }
        i += 1;
    }
    ids
}

} // verus!
