//! The nodes and edges of a drawing of a tree, in the order a depth-first
//! walk from the root meets them.
use vstd::prelude::*;
use crate::tree::{ElementId, Node, Tree};

verus! {

/// The nodes and edges met from `id`, going at most `depth` levels down:
/// the node itself, then, for each child in turn, what is met from the
/// child and the edge to it.
pub open spec fn dot_walk<T>(m: Map<ElementId, Node<T>>, id: ElementId, depth: nat) -> (Seq<ElementId>, Seq<(ElementId, ElementId)>)
    decreases depth, 0nat,
{
    if depth == 0 || !m.contains_key(id) {
        (Seq::empty(), Seq::empty())
    } else {
        let below = dot_walk_all(m, id, m[id].children@, (depth - 1) as nat);
        (seq![id] + below.0, below.1)
    }
}

/// What is met from each of `ids`, children of `parent`, in turn, with the
/// edge to each.
pub open spec fn dot_walk_all<T>(
    m: Map<ElementId, Node<T>>,
    parent: ElementId,
    ids: Seq<ElementId>,
    depth: nat,
) -> (Seq<ElementId>, Seq<(ElementId, ElementId)>)
    decreases depth, ids.len() + 1,
{
    if ids.len() == 0 {
        (Seq::empty(), Seq::empty())
    } else {
        let before = dot_walk_all(m, parent, ids.drop_last(), depth);
        let last = dot_walk(m, ids.last(), depth);
        (before.0 + last.0, before.1 + last.1 + seq![(parent, ids.last())])
    }
}

fn dot_element<T>(
    tree: &Tree<T>,
    id: ElementId,
    depth: usize,
    nodes: &mut Vec<ElementId>,
    edges: &mut Vec<(ElementId, ElementId)>,
)
    ensures
        final(nodes)@ == old(nodes)@ + dot_walk(tree@, id, depth as nat).0,
        final(edges)@ == old(edges)@ + dot_walk(tree@, id, depth as nat).1,
    decreases depth,
{
    if depth == 0 {
        proof {
            assert(old(nodes)@ + Seq::<ElementId>::empty() =~= old(nodes)@);
            assert(old(edges)@ + Seq::<(ElementId, ElementId)>::empty() =~= old(edges)@);
        }
        return ;
    }
    match tree.get(id) {
        None => {
            proof {
                assert(old(nodes)@ + Seq::<ElementId>::empty() =~= old(nodes)@);
                assert(old(edges)@ + Seq::<(ElementId, ElementId)>::empty() =~= old(edges)@);
            }
        },
        Some(node) => {
            nodes.push(id);
            let ghost nodes0 = nodes@;
            let ghost edges0 = edges@;
            let mut i: usize = 0;
            while i < node.children.len()
                invariant
                    i <= node.children@.len(),
                    depth > 0,
                    tree@.contains_key(id),
                    *node == tree@[id],
                    nodes@ == nodes0 + dot_walk_all(tree@, id, node.children@.take(i as int), (depth - 1) as nat).0,
                    edges@ == edges0 + dot_walk_all(tree@, id, node.children@.take(i as int), (depth - 1) as nat).1,
                decreases node.children@.len() - i,
            {
                let child = node.children[i];
                dot_element(tree, child, depth - 1, nodes, edges);
                edges.push((id, child));
                proof {
                    let ids = node.children@.take(i + 1);
                    assert(ids.drop_last() =~= node.children@.take(i as int));
                    assert(ids.last() == child);
                    let before = dot_walk_all(tree@, id, node.children@.take(i as int), (depth - 1) as nat);
                    let last = dot_walk(tree@, child, (depth - 1) as nat);
                    assert(nodes@ =~= nodes0 + (before.0 + last.0));
                    assert(edges@ =~= edges0 + (before.1 + last.1 + seq![(id, child)]));
                }
                i += 1;
            }
            proof {
                assert(node.children@.take(i as int) =~= node.children@);
                let below = dot_walk_all(tree@, id, node.children@, (depth - 1) as nat);
                assert(nodes@ =~= old(nodes)@ + (seq![id] + below.0));
            }
        },
    }
}

impl<T> Tree<T> {
    /// The nodes and the edges of a drawing of the tree, met in a depth-first
    /// walk from the root that goes at most as many levels down as the tree
    /// has nodes.
    pub fn dot_elements(&self) -> (r: (Vec<ElementId>, Vec<(ElementId, ElementId)>))
        ensures
            r.0@ == dot_walk(self@, self.root(), self@.len()).0,
            r.1@ == dot_walk(self@, self.root(), self@.len()).1,
    {
        let mut nodes: Vec<ElementId> = Vec::new();
        let mut edges: Vec<(ElementId, ElementId)> = Vec::new();
        let depth = self.nodes().len();
        dot_element(self, self.root_id(), depth, &mut nodes, &mut edges);
        proof {
            assert(nodes@ =~= dot_walk(self@, self.root(), self@.len()).0);
            assert(edges@ =~= dot_walk(self@, self.root(), self@.len()).1);
        }
        (nodes, edges)
    }
}

} // verus!
