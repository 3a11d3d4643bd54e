//! Which elements of a tree a pointer position hits.
//!
//! The tree is walked depth first from the root, children in order, into
//! every element whose global bounds hold the position. Each element walked
//! through either intercepts pointer events (it is then recorded, in order)
//! or is a candidate for the hit (the last one walked through wins).
use vstd::prelude::*;
use crate::geo::{Point, Size, contains_point};
use crate::tree::{ElementId, Node, Tree};

verus! {

/// Whether the node `id` of `m` holds the point in its global bounds.
pub open spec fn node_hit<T>(m: Map<ElementId, Node<T>>, p: Point, id: ElementId) -> bool {
    m.contains_key(id) && contains_point(m[id].global_bounds.position, m[id].global_bounds.size, p)
}

/// The elements walked through from `id`, in order, going at most `depth`
/// levels down.
pub open spec fn walk<T>(m: Map<ElementId, Node<T>>, p: Point, id: ElementId, depth: nat) -> Seq<ElementId>
    decreases depth, 0nat,
{
    if depth == 0 || !node_hit(m, p, id) {
        Seq::empty()
    } else {
        seq![id] + walk_all(m, p, m[id].children@, (depth - 1) as nat)
    }
}

/// The elements walked through from each of `ids` in turn.
pub open spec fn walk_all<T>(m: Map<ElementId, Node<T>>, p: Point, ids: Seq<ElementId>, depth: nat) -> Seq<ElementId>
    decreases depth, ids.len() + 1,
{
    if ids.len() == 0 {
        Seq::empty()
    } else {
        walk_all(m, p, ids.drop_last(), depth) + walk(m, p, ids.last(), depth)
    }
}

/// The intercepting elements recorded and the hit after walking through
/// `visits`, starting from `acc`.
pub open spec fn record_hits(
    visits: Seq<ElementId>,
    intercepting: Seq<ElementId>,
    acc: (Seq<ElementId>, Option<ElementId>),
) -> (Seq<ElementId>, Option<ElementId>)
    decreases visits.len(),
{
    if visits.len() == 0 {
        acc
    } else {
        let prev = record_hits(visits.drop_last(), intercepting, acc);
        let v = visits.last();
        if intercepting.contains(v) {
            (prev.0.push(v), prev.1)
        } else {
            (prev.0, Some(v))
        }
    }
}

proof fn lemma_record_concat(
    a: Seq<ElementId>,
    b: Seq<ElementId>,
    intercepting: Seq<ElementId>,
    acc: (Seq<ElementId>, Option<ElementId>),
)
    ensures
        record_hits(a + b, intercepting, acc) == record_hits(b, intercepting, record_hits(a, intercepting, acc)),
    decreases b.len(),
{
    if b.len() == 0 {
        assert(a + b =~= a);
    } else {
        lemma_record_concat(a, b.drop_last(), intercepting, acc);
        assert((a + b).drop_last() =~= a + b.drop_last());
        assert((a + b).last() == b.last());
    }
}

/// Every child of a node of `m` is a node of `m`.
pub open spec fn children_present<T>(m: Map<ElementId, Node<T>>) -> bool {
    forall|k: ElementId, c: ElementId| m.contains_key(k) && #[trigger] m[k].children@.contains(c) ==> m.contains_key(c)
}

fn contains_id(v: &Vec<ElementId>, x: ElementId) -> (r: bool)
    ensures
        r == v@.contains(x),
{
    let mut i: usize = 0;
    while i < v.len()
        invariant
            i <= v.len(),
            forall|j: int| 0 <= j < i ==> v@[j] != x,
        decreases v.len() - i,
    {
        if v[i] == x {
            return true;
        }
        i += 1;
    }
    false
}

fn hit_test_element<T>(
    tree: &Tree<T>,
    id: ElementId,
    position: &Point,
    intercepting: &Vec<ElementId>,
    depth: usize,
    intercepted: &mut Vec<ElementId>,
    hit: &mut Option<ElementId>,
)
    ensures
        (final(intercepted)@, *final(hit)) == record_hits(
            walk(tree@, *position, id, depth as nat),
            intercepting@,
            (old(intercepted)@, *old(hit)),
        ),
    decreases depth,
{
    if depth == 0 {
        return ;
    }
    match tree.get(id) {
        None => {},
        Some(node) => {
            if node.hit_test(position) {
                if contains_id(intercepting, id) {
                    intercepted.push(id);
                } else {
                    *hit = Some(id);
                }
                proof {
                    let v = seq![id];
                    assert(v.drop_last() =~= Seq::<ElementId>::empty());
                    assert(v.last() == id);
                    assert(record_hits(v.drop_last(), intercepting@, (old(intercepted)@, *old(hit))) == (old(intercepted)@, *old(hit)));
                    assert(record_hits(v, intercepting@, (old(intercepted)@, *old(hit))) == (intercepted@, *hit));
                }
                let ghost after_self = (intercepted@, *hit);
                let mut i: usize = 0;
                while i < node.children.len()
                    invariant
                        i <= node.children@.len(),
                        depth > 0,
                        tree@.contains_key(id),
                        *node == tree@[id],
                        (intercepted@, *hit) == record_hits(
                            walk_all(tree@, *position, node.children@.take(i as int), (depth - 1) as nat),
                            intercepting@,
                            after_self,
                        ),
                    decreases node.children@.len() - i,
                {
                    let ghost before = (intercepted@, *hit);
                    hit_test_element(tree, node.children[i], position, intercepting, depth - 1, intercepted, hit);
                    proof {
                        let ids = node.children@.take(i + 1);
                        assert(ids.drop_last() =~= node.children@.take(i as int));
                        assert(ids.last() == node.children@[i as int]);
                        lemma_record_concat(
                            walk_all(tree@, *position, node.children@.take(i as int), (depth - 1) as nat),
                            walk(tree@, *position, node.children@[i as int], (depth - 1) as nat),
                            intercepting@,
                            after_self,
                        );
                    }
                    i += 1;
                }
                proof {
                    assert(node.children@.take(i as int) =~= node.children@);
                    lemma_record_concat(
                        seq![id],
                        walk_all(tree@, *position, node.children@, (depth - 1) as nat),
                        intercepting@,
                        (old(intercepted)@, *old(hit)),
                    );
                }
            }
        },
    }
}

/// Walks the tree from its root at `position`: appends the intercepting
/// elements walked through to `intercepted`, in order, and sets `hit` to the
/// last other element walked through, if any. The walk goes at most as many
/// levels down as the tree has nodes.
pub fn hit_test<T>(
    tree: &Tree<T>,
    position: &Point,
    intercepting: &Vec<ElementId>,
    intercepted: &mut Vec<ElementId>,
    hit: &mut Option<ElementId>,
)
    requires
        tree@.contains_key(tree.root()),
        children_present(tree@),
    ensures
        (final(intercepted)@, *final(hit)) == record_hits(
            walk(tree@, *position, tree.root(), tree@.len()),
            intercepting@,
            (old(intercepted)@, *old(hit)),
        ),
{
    let depth = tree.nodes().len();
    hit_test_element(tree, tree.root_id(), position, intercepting, depth, intercepted, hit);
}

/// Every element that a walk goes through holds the position in its
/// global bounds: the hit and every recorded intercepting element do.
pub proof fn law_walk_only_hits<T>(m: Map<ElementId, Node<T>>, p: Point, id: ElementId, depth: nat)
    ensures
        forall|j: int| 0 <= j < walk(m, p, id, depth).len() ==> node_hit(m, p, #[trigger] walk(m, p, id, depth)[j]),
    decreases depth, 0nat,
{
    if depth > 0 && node_hit(m, p, id) {
        law_walk_all_only_hits(m, p, m[id].children@, (depth - 1) as nat);
        let w = walk_all(m, p, m[id].children@, (depth - 1) as nat);
        assert forall|j: int| 0 <= j < walk(m, p, id, depth).len() implies node_hit(m, p, #[trigger] walk(m, p, id, depth)[j]) by {
            if j > 0 {
                assert(walk(m, p, id, depth)[j] == w[j - 1]);
            }
        }
    }
}

proof fn law_walk_all_only_hits<T>(m: Map<ElementId, Node<T>>, p: Point, ids: Seq<ElementId>, depth: nat)
    ensures
        forall|j: int| 0 <= j < walk_all(m, p, ids, depth).len() ==> node_hit(m, p, #[trigger] walk_all(m, p, ids, depth)[j]),
    decreases depth, ids.len() + 1,
{
    if ids.len() > 0 {
        law_walk_all_only_hits(m, p, ids.drop_last(), depth);
        law_walk_only_hits(m, p, ids.last(), depth);
        let a = walk_all(m, p, ids.drop_last(), depth);
        let b = walk(m, p, ids.last(), depth);
        assert forall|j: int| 0 <= j < walk_all(m, p, ids, depth).len() implies node_hit(m, p, #[trigger] walk_all(m, p, ids, depth)[j]) by {
            if j < a.len() {
                assert(walk_all(m, p, ids, depth)[j] == a[j]);
            } else {
                assert(walk_all(m, p, ids, depth)[j] == b[j - a.len()]);
            }
        }
    }
}

/// What a hit test records: every recorded intercepting element and the
/// hit, when it changes, come from the walk.
pub proof fn law_recorded_from_walk(
    visits: Seq<ElementId>,
    intercepting: Seq<ElementId>,
    acc: (Seq<ElementId>, Option<ElementId>),
)
    ensures
        ({
            let r = record_hits(visits, intercepting, acc);
            &&& r.0.len() >= acc.0.len()
            &&& r.0.take(acc.0.len() as int) == acc.0
            &&& forall|j: int| acc.0.len() <= j < r.0.len() ==> visits.contains(#[trigger] r.0[j]) && intercepting.contains(r.0[j])
            &&& r.1 != acc.1 ==> r.1 is Some && visits.contains(r.1->0) && !intercepting.contains(r.1->0)
        }),
    decreases visits.len(),
{
    if visits.len() > 0 {
        let prev_visits = visits.drop_last();
        law_recorded_from_walk(prev_visits, intercepting, acc);
        let prev = record_hits(prev_visits, intercepting, acc);
        let r = record_hits(visits, intercepting, acc);
        let v = visits.last();
        assert(visits.contains(v)) by {
            assert(visits[visits.len() - 1] == v);
        }
        assert forall|j: int| acc.0.len() <= j < r.0.len() implies visits.contains(#[trigger] r.0[j]) && intercepting.contains(r.0[j]) by {
            if j < prev.0.len() {
                assert(r.0[j] == prev.0[j]);
                assert(prev_visits.contains(prev.0[j]));
                let k = choose|k: int| 0 <= k < prev_visits.len() && prev_visits[k] == prev.0[j];
                assert(visits[k] == prev_visits[k]);
            }
        }
        if prev.1 != acc.1 && r.1 == prev.1 {
            let k = choose|k: int| 0 <= k < prev_visits.len() && prev_visits[k] == prev.1->0;
            assert(visits[k] == prev_visits[k]);
        }
        assert(r.0.take(acc.0.len() as int) =~= acc.0) by {
            assert(prev.0.take(acc.0.len() as int) == acc.0);
        }
    }
}

/// The hit of a hit test, and every intercepting element it records, holds
/// the position: at or right of its left edge and left of its right edge,
/// at or below its top edge and above its bottom edge.
pub proof fn law_hit_holds_the_position<T>(
    m: Map<ElementId, Node<T>>,
    p: Point,
    root: ElementId,
    depth: nat,
    intercepting: Seq<ElementId>,
    acc: (Seq<ElementId>, Option<ElementId>),
)
    ensures
        ({
            let r = record_hits(walk(m, p, root, depth), intercepting, acc);
            &&& r.1 != acc.1 ==> inside(m, p, r.1->0)
            &&& forall|j: int| acc.0.len() <= j < r.0.len() ==> inside(m, p, #[trigger] r.0[j])
        }),
{
    let w = walk(m, p, root, depth);
    law_walk_only_hits(m, p, root, depth);
    law_recorded_from_walk(w, intercepting, acc);
    let r = record_hits(w, intercepting, acc);
    if r.1 != acc.1 {
        let k = choose|k: int| 0 <= k < w.len() && w[k] == r.1->0;
        assert(node_hit(m, p, w[k]));
    }
    assert forall|j: int| acc.0.len() <= j < r.0.len() implies inside(m, p, #[trigger] r.0[j]) by {
        let k = choose|k: int| 0 <= k < w.len() && w[k] == r.0[j];
        assert(node_hit(m, p, w[k]));
    }
}

/// The node `k` of `m` holds `p` within its global bounds, edges written out.
pub open spec fn inside<T>(m: Map<ElementId, Node<T>>, p: Point, k: ElementId) -> bool {
    let b = m[k].global_bounds;
    &&& m.contains_key(k)
    &&& b.position.x <= p.x && p.x < b.position.x + b.size.width
    &&& b.position.y <= p.y && p.y < b.position.y + b.size.height
}

/// A point left of, right of or at the right edge, above, or below or at
/// the bottom edge of a rectangle is not inside it; every other point is.
pub proof fn law_rect_edges(pos: Point, size: Size, p: Point)
    ensures
        p.x < pos.x ==> !contains_point(pos, size, p),
        p.x >= pos.x + size.width ==> !contains_point(pos, size, p),
        p.y < pos.y ==> !contains_point(pos, size, p),
        p.y >= pos.y + size.height ==> !contains_point(pos, size, p),
        pos.x <= p.x < pos.x + size.width && pos.y <= p.y < pos.y + size.height ==> contains_point(pos, size, p),
{
}

} // verus!
