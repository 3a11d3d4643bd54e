//! An arena tree of elements keyed by element ids.
//!
//! Every node holds its data, the ids of its children (kept sorted by
//! `add_child`) and its local and global bounds. The tree does not enforce
//! a shape of its own: its operations are stated over the map from ids to
//! nodes that it holds.
use std::collections::HashMap;
use vstd::prelude::*;
use vstd::std_specs::iter::IteratorSpec;
use crate::geo::{Point, Rect, contains_point, zero_rect};

verus! {

broadcast use vstd::std_specs::hash::group_hash_axioms;

/// The id of an element of a tree.
pub type ElementId = usize;

/// The source of fresh element ids: it hands out 1, 2, 3, ... in turn.
pub struct ElementIds {
    last: usize,
}

impl ElementIds {
    /// A source that has handed out no id yet.
    pub fn new() -> (ids: ElementIds)
        ensures
            ids.last() == 0,
    {
        ElementIds { last: 0 }
    }

    /// The last id handed out, or 0 when none was.
    pub closed spec fn last(&self) -> usize {
        self.last
    }

    /// The last id handed out, or 0 when none was.
    pub fn last_id(&self) -> (r: usize)
        ensures
            r == self.last(),
    {
        self.last
    }

    /// Whether another id can still be handed out.
    pub open spec fn can_allocate(&self) -> bool {
        self.last() < usize::MAX
    }
}

/// Hands out the next element id: one more than the last one handed out.
pub fn next_element_id(ids: &mut ElementIds) -> (id: ElementId)
    requires
        old(ids).can_allocate(),
    ensures
        id == old(ids).last() + 1,
        final(ids).last() == id,
{
    ids.last = ids.last + 1;
    ids.last
}

/// A node of a tree: its data, its children's ids and its bounds.
pub struct Node<T> {
    pub data: T,
    pub children: Vec<ElementId>,
    pub local_bounds: Rect,
    pub global_bounds: Rect,
}

impl<T> Node<T> {
    /// A node with the given data, no children and empty bounds.
    pub fn new(data: T) -> (n: Node<T>)
        ensures
            n.data == data,
            n.children@ == Seq::<ElementId>::empty(),
            n.local_bounds == zero_rect(),
            n.global_bounds == zero_rect(),
    {
        Node { data, children: Vec::new(), local_bounds: Rect::zero(), global_bounds: Rect::zero() }
    }

    pub fn data(&self) -> (d: &T)
        ensures
            *d == self.data,
    {
        &self.data
    }

    /// Sets both the local and the global bounds to `rect`.
    pub fn set_bounds(&mut self, rect: &Rect)
        ensures
            final(self).local_bounds == *rect,
            final(self).global_bounds == *rect,
            final(self).data == old(self).data,
            final(self).children == old(self).children,
    {
        self.local_bounds = *rect;
        self.global_bounds = *rect;
    }

    /// Whether the point lies inside the node's global bounds.
    pub fn hit_test(&self, point: &Point) -> (hit: bool)
        ensures
            hit == contains_point(self.global_bounds.position, self.global_bounds.size, *point),
    {
        self.global_bounds.hit_test(point)
    }
}

/// `n` is a node just made from `data`: no children and empty bounds.
pub open spec fn is_new_node<T>(n: Node<T>, data: T) -> bool {
    &&& n.data == data
    &&& n.children@ == Seq::<ElementId>::empty()
    &&& n.local_bounds == zero_rect()
    &&& n.global_bounds == zero_rect()
}

/// `b` is `a` with nothing changed but, possibly, its children.
pub open spec fn same_but_children<T>(a: Node<T>, b: Node<T>) -> bool {
    &&& a.data == b.data
    &&& a.local_bounds == b.local_bounds
    &&& a.global_bounds == b.global_bounds
}

/// `new` is `old` with the children of `p` replaced by `children`, when `old`
/// holds `p`, and nothing else changed.
pub open spec fn children_replaced<T>(
    old: Map<ElementId, Node<T>>,
    new: Map<ElementId, Node<T>>,
    p: ElementId,
    children: Seq<ElementId>,
) -> bool {
    &&& new.dom() == old.dom()
    &&& forall|k: ElementId| #[trigger] new.contains_key(k) && k != p ==> new[k] == old[k]
    &&& old.contains_key(p) ==> same_but_children(old[p], new[p]) && new[p].children@ == children
}

/// The ids are in ascending order.
pub open spec fn sorted(s: Seq<ElementId>) -> bool {
    forall|i: int, j: int| 0 <= i < j < s.len() ==> s[i] <= s[j]
}

/// The index of the first occurrence of `x` in `s`.
pub open spec fn first_index(s: Seq<ElementId>, x: ElementId) -> int {
    choose|i: int| 0 <= i < s.len() && s[i] == x && forall|j: int| 0 <= j < i ==> s[j] != x
}

/// `s` without the first occurrence of `x`, or `s` itself when `x` does not occur.
pub open spec fn remove_first(s: Seq<ElementId>, x: ElementId) -> Seq<ElementId> {
    if s.contains(x) {
        s.remove(first_index(s, x))
    } else {
        s
    }
}

/// The keys of `m` that can be reached from `roots` in at most `n` steps, each
/// step going from a key of `m` to one of the children of its node.
pub open spec fn reach_within<T>(m: Map<ElementId, Node<T>>, roots: Seq<ElementId>, n: nat) -> Set<ElementId>
    decreases n,
{
    if n == 0 {
        Set::new(|k: ElementId| m.contains_key(k) && roots.contains(k))
    } else {
        let prev = reach_within(m, roots, (n - 1) as nat);
        prev.union(
            Set::new(
                |k: ElementId|
                    m.contains_key(k) && exists|p: ElementId| #[trigger]
                        prev.contains(p) && m[p].children@.contains(k),
            ),
        )
    }
}

/// `k` is a key of `m` that can be reached from `roots` along children.
pub open spec fn reachable<T>(m: Map<ElementId, Node<T>>, roots: Seq<ElementId>, k: ElementId) -> bool {
    exists|n: nat| #[trigger] reach_within(m, roots, n).contains(k)
}

/// `m` without every key that can be reached from `roots` along children.
pub open spec fn pruned<T>(m: Map<ElementId, Node<T>>, roots: Seq<ElementId>) -> Map<ElementId, Node<T>> {
    m.restrict(Set::new(|k: ElementId| m.contains_key(k) && !reachable(m, roots, k)))
}

pub(crate) proof fn lemma_reach_in_dom<T>(m: Map<ElementId, Node<T>>, roots: Seq<ElementId>, n: nat)
    ensures
        forall|k: ElementId| #[trigger] reach_within(m, roots, n).contains(k) ==> m.contains_key(k),
    decreases n,
{
    if n > 0 {
        let n1 = (n - 1) as nat;
        lemma_reach_in_dom(m, roots, n1);
        assert forall|k: ElementId| #[trigger] reach_within(m, roots, n).contains(k) implies m.contains_key(k) by {
            if !reach_within(m, roots, n1).contains(k) {
            }
        }
    } else {
        assert forall|k: ElementId| #[trigger] reach_within(m, roots, n).contains(k) implies m.contains_key(k) by {
        }
    }
}

pub(crate) proof fn lemma_reach_grows<T>(m: Map<ElementId, Node<T>>, roots: Seq<ElementId>, n: nat)
    ensures
        reach_within(m, roots, n).subset_of(reach_within(m, roots, n + 1)),
{
}

/// What a traversal of a part of `old` reaches from `roots2` is reachable in
/// `old` from `roots`, when `roots2` starts from keys reached within `j` steps.
proof fn lemma_reach_transfer<T>(
    old: Map<ElementId, Node<T>>,
    m1: Map<ElementId, Node<T>>,
    roots: Seq<ElementId>,
    roots2: Seq<ElementId>,
    j: nat,
    n: nat,
)
    requires
        forall|k: ElementId| #[trigger] m1.contains_key(k) ==> old.contains_key(k) && m1[k] == old[k],
        forall|r: ElementId| #[trigger] roots2.contains(r) && old.contains_key(r) ==> reach_within(old, roots, j).contains(r),
    ensures
        forall|k: ElementId| #[trigger] reach_within(m1, roots2, n).contains(k) ==> reach_within(old, roots, j + n).contains(k),
    decreases n,
{
    if n > 0 {
        let n1 = (n - 1) as nat;
        lemma_reach_transfer(old, m1, roots, roots2, j, n1);
        lemma_reach_in_dom(m1, roots2, n1);
        lemma_reach_grows(old, roots, j + n1);
        assert forall|k: ElementId| #[trigger] reach_within(m1, roots2, n).contains(k) implies reach_within(old, roots, j + n).contains(k) by {
            let prev = reach_within(m1, roots2, n1);
            if !prev.contains(k) {
                let p = choose|p: ElementId| #[trigger] prev.contains(p) && m1[p].children@.contains(k);
                assert(reach_within(old, roots, j + n1).contains(p));
                assert(old[p].children@.contains(k));
                assert(reach_within(old, roots, (j + n1 + 1) as nat) == reach_within(old, roots, j + n1).union(
                    Set::new(|k2: ElementId| old.contains_key(k2) && exists|p2: ElementId| #[trigger]
                        reach_within(old, roots, j + n1).contains(p2) && old[p2].children@.contains(k2))));
            }
        }
    }
}

/// A part of `old` that holds none of `roots` and none of the children of a
/// node that it lost holds nothing reachable from `roots`.
proof fn lemma_closed_excludes_reach<T>(
    old: Map<ElementId, Node<T>>,
    new: Map<ElementId, Node<T>>,
    roots: Seq<ElementId>,
    n: nat,
)
    requires
        forall|r: ElementId| #[trigger] roots.contains(r) ==> !new.contains_key(r),
        forall|k: ElementId, c: ElementId|
            #![trigger old[k].children@.contains(c), new.contains_key(c)]
            old.contains_key(k) && !new.contains_key(k) && old[k].children@.contains(c) ==> !new.contains_key(c),
    ensures
        forall|k: ElementId| #[trigger] reach_within(old, roots, n).contains(k) ==> !new.contains_key(k),
    decreases n,
{
    if n > 0 {
        let n1 = (n - 1) as nat;
        lemma_closed_excludes_reach(old, new, roots, n1);
        lemma_reach_in_dom(old, roots, n1);
        assert forall|k: ElementId| #[trigger] reach_within(old, roots, n).contains(k) implies !new.contains_key(k) by {
            let prev = reach_within(old, roots, n1);
            if !prev.contains(k) {
                let p = choose|p: ElementId| #[trigger] prev.contains(p) && old[p].children@.contains(k);
                assert(!new.contains_key(p));
                assert(old.contains_key(p));
            }
        }
    }
}

/// Sorts the ids in ascending order: `slice::sort` from std. The contract
/// claims what its documentation says: the result is sorted and holds the
/// same ids, each as often as before.
#[verifier::external_body]
fn sort_ids(v: &mut Vec<ElementId>)
    ensures
        final(v)@.to_multiset() == old(v)@.to_multiset(),
        sorted(final(v)@),
{
    v.sort();
}

/// `HashMap::get_mut` from std on a map keyed by ids. The contract claims
/// what its documentation says: it hands out the value stored under `k`,
/// and the map afterwards holds under `k` whatever was written through it.
#[verifier::external_body]
fn map_get_mut<V>(m: &mut HashMap<ElementId, V>, k: ElementId) -> (r: Option<&mut V>)
    ensures
        r is Some <==> old(m)@.contains_key(k),
        r is None ==> final(m)@ == old(m)@,
        r is Some ==> *r->0 == old(m)@[k] && final(m)@ == old(m)@.insert(k, *final(r->0)),
{
    m.get_mut(&k)
}

/// Whether `x` occurs in `v`.
fn contains_id(v: &Vec<ElementId>, x: ElementId) -> (r: bool)
    ensures
        r == v@.contains(x),
{
    let mut i: usize = 0;
    while i < v.len()
        invariant
            i <= v.len(),
            forall|j: int| 0 <= j < i ==> v@[j] != x,
        decreases v.len() - i,
    {
        if v[i] == x {
            return true;
        }
        i += 1;
    }
    false
}

/// The index of the first occurrence of `x` in `v`, if any.
fn position_of(v: &Vec<ElementId>, x: ElementId) -> (r: Option<usize>)
    ensures
        r is None ==> !v@.contains(x),
        r is Some ==> r->0 < v@.len() && r->0 == first_index(v@, x) && v@.contains(x),
{
    let mut i: usize = 0;
    while i < v.len()
        invariant
            i <= v.len(),
            forall|j: int| 0 <= j < i ==> v@[j] != x,
        decreases v.len() - i,
    {
        if v[i] == x {
            proof {
                lemma_first_index(v@, x, i as int);
            }
            return Some(i);
        }
        i += 1;
    }
    None
}

proof fn lemma_first_index(s: Seq<ElementId>, x: ElementId, i: int)
    requires
        0 <= i < s.len(),
        s[i] == x,
        forall|j: int| 0 <= j < i ==> s[j] != x,
    ensures
        first_index(s, x) == i,
        s.contains(x),
{
    let k = first_index(s, x);
    assert(s.contains(x));
    if k < i {
        assert(s[k] != x);
    }
    if k > i {
        assert(s[i] != x);
    }
}

proof fn lemma_take_push_to_set(s: Seq<ElementId>, i: int)
    requires
        0 <= i < s.len(),
    ensures
        s.take(i + 1).to_set() == s.take(i).to_set().insert(s[i]),
        forall|x: ElementId| s.take(i + 1).contains(x) <==> (s.take(i).contains(x) || x == s[i]),
{
    assert(s.take(i + 1) =~= s.take(i).push(s[i]));
    assert forall|x: ElementId| s.take(i + 1).contains(x) <==> (s.take(i).contains(x) || x == s[i]) by {
        if s.take(i + 1).contains(x) {
            let j = choose|j: int| 0 <= j < i + 1 && #[trigger] s.take(i + 1)[j] == x;
            if j < i {
                assert(s.take(i)[j] == x);
            }
        }
        if s.take(i).contains(x) {
            let j = choose|j: int| 0 <= j < i && #[trigger] s.take(i)[j] == x;
            assert(s.take(i + 1)[j] == x);
        }
        if x == s[i] {
            assert(s.take(i + 1)[i] == x);
        }
    }
    assert forall|x: ElementId| #[trigger] s.take(i + 1).to_set().contains(x) == s.take(i).to_set().insert(s[i]).contains(x) by {
        assert(s.take(i + 1).contains(x) <==> (s.take(i).contains(x) || x == s[i]));
    }
    assert(s.take(i + 1).to_set() =~= s.take(i).to_set().insert(s[i]));
}

/// A tree of nodes keyed by element id, with a root id.
pub struct Tree<T> {
    nodes: HashMap<ElementId, Node<T>>,
    root: ElementId,
}

impl<T> View for Tree<T> {
    type V = Map<ElementId, Node<T>>;

    /// The nodes of the tree by id.
    closed spec fn view(&self) -> Map<ElementId, Node<T>> {
        self.nodes@
    }
}

impl<T> Default for Tree<T> {
    fn default() -> (t: Self)
        ensures
            t@ == Map::<ElementId, Node<T>>::empty(),
            t.root() == 0,
    {
        Tree { nodes: HashMap::new(), root: 0 }
    }
}

impl<T> Tree<T> {
    /// The root id of the tree.
    pub closed spec fn root(&self) -> ElementId {
        self.root
    }

    /// A tree holding one node made from `data`, under a fresh id, which is its root.
    pub fn new(data: T, ids: &mut ElementIds) -> (t: Self)
        requires
            old(ids).can_allocate(),
        ensures
            final(ids).last() == old(ids).last() + 1,
            t.root() == final(ids).last(),
            t@.dom() == set![t.root()],
            is_new_node(t@[t.root()], data),
    {
        let mut tree = Tree { nodes: HashMap::new(), root: 0 };
        let root = tree.add_node(data, ids);
        tree.root = root;
        proof {
            assert(tree@.dom() =~= set![root]);
        }
        tree
    }

    /// A tree holding one node made from `data` under the id `root`.
    pub fn new_with_root_id(data: T, root: ElementId) -> (t: Self)
        ensures
            t.root() == root,
            t@.dom() == set![root],
            is_new_node(t@[root], data),
    {
        let mut tree = Tree { nodes: HashMap::new(), root };
        tree.add_node_with_id(root, Node::new(data));
        proof {
            assert(tree@.dom() =~= set![root]);
        }
        tree
    }

    /// A tree holding `node` under the id `id`, which is its root.
    pub fn new_with_root_node(node: Node<T>, id: ElementId) -> (t: Self)
        ensures
            t.root() == id,
            t@ == map![id => node],
    {
        let mut tree = Tree { nodes: HashMap::new(), root: id };
        tree.add_node_with_id(id, node);
        proof {
            assert(tree@ =~= map![id => node]);
        }
        tree
    }

    /// The root node, to be changed in place.
    pub fn root_mut(&mut self) -> (n: &mut Node<T>)
        requires
            old(self)@.contains_key(old(self).root()),
        ensures
            *n == old(self)@[old(self).root()],
            final(self)@ == old(self)@.insert(old(self).root(), *final(n)),
            final(self).root() == old(self).root(),
    {
        let id = self.root_id();
        map_get_mut(&mut self.nodes, id).unwrap()
    }

    /// The map of nodes, taking the tree apart.
    pub fn consume_nodes(self) -> (m: HashMap<ElementId, Node<T>>)
        ensures
            m@ == self@,
    {
        self.nodes
    }

    /// The map of nodes.
    pub fn nodes(&self) -> (m: &HashMap<ElementId, Node<T>>)
        ensures
            m@ == self@,
    {
        &self.nodes
    }

    /// The map of nodes, to be changed in place.
    pub fn nodes_mut(&mut self) -> (m: &mut HashMap<ElementId, Node<T>>)
        ensures
            m@ == old(self)@,
            final(self)@ == final(m)@,
            final(self).root() == old(self).root(),
    {
        &mut self.nodes
    }

    pub fn set_root_id(&mut self, id: ElementId)
        ensures
            final(self).root() == id,
            final(self)@ == old(self)@,
    {
        self.root = id
    }

    pub fn root_id(&self) -> (id: ElementId)
        ensures
            id == self.root(),
    {
        self.root
    }

    /// Adds a node made from `data` under a fresh id and returns the id.
    pub fn add_node(&mut self, data: T, ids: &mut ElementIds) -> (id: ElementId)
        requires
            old(ids).can_allocate(),
        ensures
            id == old(ids).last() + 1,
            final(ids).last() == id,
            final(self)@.dom() == old(self)@.dom().insert(id),
            forall|k: ElementId| #[trigger] old(self)@.contains_key(k) && k != id ==> final(self)@[k] == old(self)@[k],
            is_new_node(final(self)@[id], data),
            final(self).root() == old(self).root(),
    {
        let id = next_element_id(ids);
        self.nodes.insert(id, Node::new(data));
        id
    }

    /// Stores `node` under `id`, replacing any node stored there.
    pub fn add_node_with_id(&mut self, id: ElementId, node: Node<T>)
        ensures
            final(self)@ == old(self)@.insert(id, node),
            final(self).root() == old(self).root(),
    {
        self.nodes.insert(id, node);
    }

    pub fn get(&self, id: ElementId) -> (n: Option<&Node<T>>)
        ensures
            n is Some <==> self@.contains_key(id),
            n is Some ==> *n->0 == self@[id],
    {
        self.nodes.get(&id)
    }

    pub fn get_mut(&mut self, id: ElementId) -> (n: Option<&mut Node<T>>)
        ensures
            n is Some <==> old(self)@.contains_key(id),
            n is None ==> final(self)@ == old(self)@,
            n is Some ==> *n->0 == old(self)@[id] && final(self)@ == old(self)@.insert(id, *final(n->0)),
            final(self).root() == old(self).root(),
    {
        map_get_mut(&mut self.nodes, id)
    }

    /// Adds `child` to the children of `parent`, keeping them sorted; does
    /// nothing when the tree holds no `parent`.
    pub fn add_child(&mut self, parent: ElementId, child: ElementId)
        ensures
            final(self).root() == old(self).root(),
            final(self)@.dom() == old(self)@.dom(),
            forall|k: ElementId| #[trigger] final(self)@.contains_key(k) && k != parent ==> final(self)@[k] == old(self)@[k],
            old(self)@.contains_key(parent) ==> {
                &&& same_but_children(old(self)@[parent], final(self)@[parent])
                &&& sorted(final(self)@[parent].children@)
                &&& final(self)@[parent].children@.to_multiset() == old(self)@[parent].children@.to_multiset().insert(child)
            },
    {
        if let Some(mut node) = self.nodes.remove(&parent) {
            node.children.push(child);
            proof {
                old(self)@[parent].children@.to_multiset_ensures();
            }
            sort_ids(&mut node.children);
            self.nodes.insert(parent, node);
            proof {
                assert(final(self)@.dom() =~= old(self)@.dom());
            }
        } else {
            proof {
                assert(final(self)@ =~= old(self)@);
            }
        }
    }

    /// Removes the first occurrence of `child` from the children of `parent`.
    pub fn remove_child_from_parent(&mut self, parent: ElementId, child: ElementId)
        ensures
            final(self).root() == old(self).root(),
            children_replaced(old(self)@, final(self)@, parent, remove_first(old(self)@[parent].children@, child)),
    {
        if let Some(mut node) = self.nodes.remove(&parent) {
            let pos = position_of(&node.children, child);
            if let Some(index) = pos {
                node.children.remove(index);
            }
            self.nodes.insert(parent, node);
            proof {
                assert(final(self)@.dom() =~= old(self)@.dom());
            }
        } else {
            proof {
                assert(final(self)@ =~= old(self)@);
            }
        }
    }

    /// Some node of the tree that has `child` among its children, if any.
    pub fn find_parent(&self, child: ElementId) -> (p: Option<ElementId>)
        ensures
            p is Some ==> self@.contains_key(p->0) && self@[p->0].children@.contains(child),
            p is None ==> forall|k: ElementId| #[trigger] self@.contains_key(k) ==> !self@[k].children@.contains(child),
    {
        for (id, node) in it: self.nodes.iter()
            invariant
                forall|j: int| 0 <= j < it.index() ==> !(#[trigger] it.seq()[j]).1.children@.contains(child),
                it.seq() == self.nodes.iter().remaining(),
        {
            if contains_id(&node.children, child) {
                return Some(*id);
            }
        }
        proof {
            let v = self.nodes.iter().remaining();
            assert forall|k: ElementId| #[trigger] self@.contains_key(k) implies !self@[k].children@.contains(child) by {
                assert(v.contains((&k, &self@[k])));
                let j = choose|j: int| 0 <= j < v.len() && v[j] == (&k, &self@[k]);
            }
        }
        None
    }

    /// Removes from the tree every node reachable from the children of `parent`.
    fn remove_children(&mut self, parent: &Node<T>)
        ensures
            final(self)@ == pruned(old(self)@, parent.children@),
            final(self).root() == old(self).root(),
        decreases old(self)@.len(),
    {
        let ghost old_m = self@;
        let ghost roots = parent.children@;
        let mut i: usize = 0;
        while i < parent.children.len()
            invariant
                i <= parent.children.len(),
                roots == parent.children@,
                old_m == old(self)@,
                old_m.dom().finite(),
                self.root == old(self).root,
                forall|k: ElementId| #[trigger] self@.contains_key(k) ==> old_m.contains_key(k) && self@[k] == old_m[k],
                forall|k: ElementId| #[trigger] old_m.contains_key(k) && !self@.contains_key(k) ==> reachable(old_m, roots, k),
                forall|j: int| 0 <= j < i ==> !self@.contains_key(#[trigger] roots[j]),
                forall|k: ElementId, c: ElementId|
                    #![trigger old_m[k].children@.contains(c), self@.contains_key(c)]
                    old_m.contains_key(k) && !self@.contains_key(k) && old_m[k].children@.contains(c) ==> !self@.contains_key(c),
            decreases parent.children.len() - i,
        {
            let child_id = parent.children[i];
            let ghost m_before = self@;
            if let Some(child) = self.nodes.remove(&child_id) {
                let ghost m_cur = self@;
                proof {
                    assert(m_before.contains_key(child_id));
                    assert(roots[i as int] == child_id);
                    assert(roots.contains(child_id));
                    assert(reach_within(old_m, roots, 0).contains(child_id));
                    assert(reachable(old_m, roots, child_id));
                    assert forall|k: ElementId| #[trigger] self@.dom().contains(k) implies old_m.dom().remove(child_id).contains(k) by {
                        assert(m_before.contains_key(k));
                    }
                    assert(self@.dom().subset_of(old_m.dom().remove(child_id)));
                    vstd::set_lib::lemma_len_subset(self@.dom(), old_m.dom().remove(child_id));
                }
                self.remove_children(&child);
                proof {
                    let roots2 = child.children@;
                    assert forall|r: ElementId| #[trigger] roots2.contains(r) && old_m.contains_key(r) implies reach_within(old_m, roots, 1).contains(r) by {
                        assert(reach_within(old_m, roots, 0).contains(child_id));
                        assert(old_m[child_id].children@.contains(r));
                    }
                    assert forall|k: ElementId| #[trigger] old_m.contains_key(k) && !self@.contains_key(k) implies reachable(old_m, roots, k) by {
                        if m_cur.contains_key(k) {
                            assert(reachable(m_cur, roots2, k));
                            let n = choose|n: nat| #[trigger] reach_within(m_cur, roots2, n).contains(k);
                            lemma_reach_transfer(old_m, m_cur, roots, roots2, 1, n);
                            assert(reach_within(old_m, roots, 1 + n).contains(k));
                        } else if k != child_id {
                        }
                    }
                    assert forall|k: ElementId, c: ElementId|
                        #![trigger old_m[k].children@.contains(c), self@.contains_key(c)]
                        old_m.contains_key(k) && !self@.contains_key(k) && old_m[k].children@.contains(c) implies !self@.contains_key(c) by {
                        if self@.contains_key(c) {
                            assert(m_cur.contains_key(c));
                            if k == child_id {
                                assert(reach_within(m_cur, roots2, 0).contains(c));
                                assert(reachable(m_cur, roots2, c));
                            } else if m_cur.contains_key(k) {
                                assert(reachable(m_cur, roots2, k));
                                let n = choose|n: nat| #[trigger] reach_within(m_cur, roots2, n).contains(k);
                                assert(reach_within(m_cur, roots2, n + 1).contains(c));
                                assert(reachable(m_cur, roots2, c));
                            }
                        }
                    }
                }
            }
            i += 1;
        }
        proof {
            assert forall|r: ElementId| #[trigger] roots.contains(r) implies !self@.contains_key(r) by {
                let j = choose|j: int| 0 <= j < roots.len() && roots[j] == r;
            }
            assert forall|k: ElementId| #[trigger] old_m.contains_key(k) implies (self@.contains_key(k) <==> !reachable(old_m, roots, k)) by {
                if reachable(old_m, roots, k) {
                    let n = choose|n: nat| #[trigger] reach_within(old_m, roots, n).contains(k);
                    lemma_closed_excludes_reach(old_m, self@, roots, n);
                }
            }
            assert(self@ =~= pruned(old_m, roots));
        }
    }

    /// Removes the node `id`, every node reachable from its children, and the
    /// first occurrence of `id` among the children of one node that has it as
    /// a child, if any; returns the removed node.
    pub fn remove_node(&mut self, id: ElementId) -> (node: Node<T>)
        requires
            old(self)@.contains_key(id),
        ensures
            node == old(self)@[id],
            final(self).root() == old(self).root(),
            ({
                let rest = pruned(old(self)@.remove(id), node.children@);
                ||| (forall|k: ElementId| #[trigger] rest.contains_key(k) ==> !rest[k].children@.contains(id))
                    && final(self)@ == rest
                ||| exists|p: ElementId| #[trigger] rest.contains_key(p) && rest[p].children@.contains(id)
                    && children_replaced(rest, final(self)@, p, remove_first(rest[p].children@, id))
            }),
    {
        let node = self.nodes.remove(&id).unwrap();
        self.remove_children(&node);
        let parent = self.find_parent(id);
        if let Some(p) = parent {
            self.remove_child_from_parent(p, id);
        }
        node
    }

    /// Makes the root of `subtree` a child of `parent` and moves every node
    /// of `subtree` into this tree, replacing nodes with the same ids;
    /// returns the ids of the moved nodes, each once.
    pub fn merge_subtree(&mut self, parent: ElementId, subtree: Self) -> (added: Vec<ElementId>)
        ensures
            final(self).root() == old(self).root(),
            added@.no_duplicates(),
            added@.to_set() == subtree@.dom(),
            final(self)@.dom() == old(self)@.dom() + subtree@.dom(),
            forall|k: ElementId| #[trigger] subtree@.contains_key(k) ==> final(self)@[k] == subtree@[k],
            forall|k: ElementId| #[trigger] old(self)@.contains_key(k) && !subtree@.contains_key(k) && k != parent
                ==> final(self)@[k] == old(self)@[k],
            old(self)@.contains_key(parent) && !subtree@.contains_key(parent) ==> {
                &&& same_but_children(old(self)@[parent], final(self)@[parent])
                &&& sorted(final(self)@[parent].children@)
                &&& final(self)@[parent].children@.to_multiset() == old(self)@[parent].children@.to_multiset().insert(subtree.root())
            },
    {
        let mut results: Vec<ElementId> = Vec::new();
        self.add_child(parent, subtree.root_id());
        let ghost linked = self@;
        let ghost sub = subtree@;
        let mut keys: Vec<ElementId> = Vec::new();
        for k in it: subtree.nodes.keys()
            invariant
                keys@ == it.seq().take(it.index()).map_values(|r: &ElementId| *r),
        {
            keys.push(*k);
        }
        proof {
            let all = subtree.nodes.keys().remaining();
            assert(keys@ == all.map_values(|r: &ElementId| *r));
            assert(keys@ =~= all.unref());
        }
        let mut rest = subtree.consume_nodes();
        let mut i: usize = 0;
        while i < keys.len()
            invariant
                i <= keys.len(),
                keys@.no_duplicates(),
                keys@.to_set() == sub.dom(),
                results@ == keys@.take(i as int),
                self.root == old(self).root,
                rest@ == sub.remove_keys(keys@.take(i as int).to_set()),
                self@.dom() == linked.dom() + keys@.take(i as int).to_set(),
                forall|k: ElementId| #[trigger] self@.contains_key(k) ==>
                    if keys@.take(i as int).contains(k) { self@[k] == sub[k] } else { self@[k] == linked[k] },
            decreases keys.len() - i,
        {
            let k = keys[i];
            proof {
                assert(keys@.contains(k));
                assert(sub.contains_key(k));
                assert(!keys@.take(i as int).contains(k));
            }
            let node = rest.remove(&k).unwrap();
            self.nodes.insert(k, node);
            results.push(k);
            proof {
                lemma_take_push_to_set(keys@, i as int);
                assert(rest@ =~= sub.remove_keys(keys@.take(i + 1).to_set()));
                assert(self@.dom() =~= linked.dom() + keys@.take(i + 1).to_set());
            }
            i += 1;
        }
        proof {
            assert(keys@.take(i as int) == keys@);
            assert forall|k: ElementId| #[trigger] sub.contains_key(k) implies keys@.contains(k) by {
                assert(keys@.to_set().contains(k));
            }
            assert forall|k: ElementId| #[trigger] keys@.contains(k) implies sub.contains_key(k) by {
                assert(keys@.to_set().contains(k));
            }
            assert(self@.dom() =~= old(self)@.dom() + sub.dom());
            assert forall|k: ElementId| #[trigger] sub.contains_key(k) implies self@[k] == sub[k] by {
                assert(keys@.to_set().contains(k));
                assert(self@.contains_key(k));
            }
            assert forall|k: ElementId| #[trigger] old(self)@.contains_key(k) && !sub.contains_key(k) && k != parent
                implies self@[k] == old(self)@[k] by {
                assert(!keys@.to_set().contains(k));
                assert(self@.contains_key(k));
            }
            if old(self)@.contains_key(parent) && !sub.contains_key(parent) {
                assert(!keys@.to_set().contains(parent));
                assert(self@.contains_key(parent));
                assert(self@[parent] == linked[parent]);
            }
        }
        results
    }
}

/// Nothing is reachable from no roots.
proof fn lemma_reach_from_nothing<T>(m: Map<ElementId, Node<T>>, n: nat)
    ensures
        reach_within(m, Seq::<ElementId>::empty(), n) == Set::<ElementId>::empty(),
    decreases n,
{
    if n > 0 {
        lemma_reach_from_nothing(m, (n - 1) as nat);
    }
    assert(reach_within(m, Seq::<ElementId>::empty(), n) =~= Set::<ElementId>::empty());
}

/// Removing a node just added under an id that no node held, and that no
/// node has among its children, gives back the nodes as they were before
/// the addition, with no parent to update.
pub proof fn law_remove_undoes_add<T>(m: Map<ElementId, Node<T>>, id: ElementId, data: T, n: Node<T>)
    requires
        !m.contains_key(id),
        forall|k: ElementId| #[trigger] m.contains_key(k) ==> !m[k].children@.contains(id),
        is_new_node(n, data),
    ensures
        ({
            let rest = pruned(m.insert(id, n).remove(id), n.children@);
            &&& rest == m
            &&& forall|k: ElementId| #[trigger] rest.contains_key(k) ==> !rest[k].children@.contains(id)
        }),
{
    let m1 = m.insert(id, n).remove(id);
    assert(m1 =~= m);
    assert forall|k: ElementId| m1.contains_key(k) implies !reachable(m1, n.children@, k) by {
        if reachable(m1, n.children@, k) {
            let j = choose|j: nat| #[trigger] reach_within(m1, n.children@, j).contains(k);
            assert(n.children@ =~= Seq::<ElementId>::empty());
            lemma_reach_from_nothing(m1, j);
        }
    }
    assert(pruned(m1, n.children@) =~= m);
}

/// Removing the first occurrence of an id takes exactly one of it out.
pub proof fn law_remove_first_multiset(s: Seq<ElementId>, x: ElementId)
    requires
        s.contains(x),
    ensures
        remove_first(s, x).to_multiset() == s.to_multiset().remove(x),
{
    let j = choose|j: int| 0 <= j < s.len() && s[j] == x;
    lemma_least_index(s, x, j);
    s.to_multiset_ensures();
}

proof fn lemma_least_index(s: Seq<ElementId>, x: ElementId, j: int)
    requires
        0 <= j < s.len(),
        s[j] == x,
    ensures
        exists|i2: int| 0 <= i2 < s.len() && s[i2] == x && forall|k: int| 0 <= k < i2 ==> s[k] != x,
    decreases j,
{
    if exists|k: int| 0 <= k < j && s[k] == x {
        let k = choose|k: int| 0 <= k < j && s[k] == x;
        lemma_least_index(s, x, k);
    } else {
        assert(forall|k: int| 0 <= k < j ==> s[k] != x);
    }
}

/// Adding a child and then removing it gives back the children from before,
/// each as often as before; the very same list when the children were kept
/// sorted, as `add_child` keeps them.
pub proof fn law_add_then_remove_child(before: Seq<ElementId>, added: Seq<ElementId>, child: ElementId)
    requires
        added.to_multiset() == before.to_multiset().insert(child),
    ensures
        remove_first(added, child).to_multiset() == before.to_multiset(),
        sorted(before) && sorted(added) ==> remove_first(added, child) == before,
{
    added.to_multiset_ensures();
    assert(added.to_multiset().count(child) > 0);
    assert(added.contains(child));
    law_remove_first_multiset(added, child);
    assert(before.to_multiset().insert(child).remove(child) =~= before.to_multiset());
    if sorted(before) && sorted(added) {
        let r = remove_first(added, child);
        let k = first_index(added, child);
        let j = choose|j: int| 0 <= j < added.len() && added[j] == child;
        lemma_least_index(added, child, j);
        assert(r == added.remove(k));
        assert(sorted(r)) by {
            assert forall|a: int, b: int| 0 <= a < b < r.len() implies r[a] <= r[b] by {
                let a2 = if a < k { a } else { a + 1 };
                let b2 = if b < k { b } else { b + 1 };
                assert(r[a] == added[a2]);
                assert(r[b] == added[b2]);
            }
        }
        let leq = |x: ElementId, y: ElementId| x <= y;
        assert(vstd::relations::sorted_by(r, leq));
        assert(vstd::relations::sorted_by(before, leq));
        assert(vstd::relations::total_ordering(leq));
        vstd::seq_lib::lemma_sorted_unique(r, before, leq);
    }
}

} // verus!
