use widget_ui::geo::{Point, Rect, Size};
use widget_ui::tree::{next_element_id, ElementIds, Node, Tree};
use widget_ui::tree_builder::WidgetTreeBuilder;

fn sorted_keys<T>(tree: &Tree<T>) -> Vec<usize> {
    let mut keys: Vec<usize> = tree.nodes().keys().copied().collect();
    keys.sort();
    keys
}

#[test]
fn new_tree_has_root_node() {
    let mut ids = ElementIds::new();
    let tree = Tree::new(7u32, &mut ids);
    assert_eq!(tree.root_id(), 1);
    assert_eq!(tree.get(1).map(|n| n.data), Some(7));
    assert_eq!(tree.nodes().len(), 1);
    assert_eq!(ids.last_id(), 1);
}

#[test]
fn element_ids_count_up() {
    let mut ids = ElementIds::new();
    assert_eq!(next_element_id(&mut ids), 1);
    assert_eq!(next_element_id(&mut ids), 2);
    assert_eq!(next_element_id(&mut ids), 3);
    assert_eq!(ids.last_id(), 3);
}

#[test]
fn new_with_root_id_and_node() {
    let tree = Tree::new_with_root_id("root", 42);
    assert_eq!(tree.root_id(), 42);
    assert!(tree.get(42).unwrap().children.is_empty());

    let mut node = Node::new(5i32);
    node.children.push(9);
    let tree = Tree::new_with_root_node(node, 3);
    assert_eq!(tree.root_id(), 3);
    assert_eq!(tree.get(3).unwrap().children, vec![9]);
    assert_eq!(tree.get(3).unwrap().data, 5);
}

#[test]
fn default_tree_is_empty() {
    let tree: Tree<u8> = Tree::default();
    assert_eq!(tree.root_id(), 0);
    assert!(tree.nodes().is_empty());
}

#[test]
fn add_child_keeps_children_sorted() {
    let mut ids = ElementIds::new();
    let mut tree = Tree::new(0, &mut ids);
    tree.add_child(1, 30);
    tree.add_child(1, 10);
    tree.add_child(1, 20);
    tree.add_child(1, 10);
    assert_eq!(tree.get(1).unwrap().children, vec![10, 10, 20, 30]);
    // no such parent: nothing happens
    tree.add_child(99, 5);
    assert!(tree.get(99).is_none());
}

#[test]
fn remove_child_from_parent_removes_first_occurrence() {
    let mut ids = ElementIds::new();
    let mut tree = Tree::new(0, &mut ids);
    tree.get_mut(1).unwrap().children = vec![4, 2, 4, 7];
    tree.remove_child_from_parent(1, 4);
    assert_eq!(tree.get(1).unwrap().children, vec![2, 4, 7]);
    tree.remove_child_from_parent(1, 8);
    assert_eq!(tree.get(1).unwrap().children, vec![2, 4, 7]);
}

#[test]
fn add_then_remove_child_restores_children() {
    let mut ids = ElementIds::new();
    let mut tree = Tree::new(0, &mut ids);
    tree.get_mut(1).unwrap().children = vec![5, 3];
    tree.add_child(1, 4);
    tree.remove_child_from_parent(1, 4);
    let mut children = tree.get(1).unwrap().children.clone();
    children.sort();
    assert_eq!(children, vec![3, 5]);
}

#[test]
fn find_parent_finds_the_node_holding_the_child() {
    let mut ids = ElementIds::new();
    let mut tree = Tree::new("a", &mut ids);
    let b = tree.add_node("b", &mut ids);
    let c = tree.add_node("c", &mut ids);
    tree.add_child(1, b);
    tree.add_child(b, c);
    assert_eq!(tree.find_parent(c), Some(b));
    assert_eq!(tree.find_parent(b), Some(1));
    assert_eq!(tree.find_parent(1), None);
}

#[test]
fn remove_node_removes_subtree_and_link() {
    let mut ids = ElementIds::new();
    let mut tree = Tree::new("root", &mut ids);
    let a = tree.add_node("a", &mut ids);
    let b = tree.add_node("b", &mut ids);
    let c = tree.add_node("c", &mut ids);
    let d = tree.add_node("d", &mut ids);
    tree.add_child(1, a);
    tree.add_child(1, d);
    tree.add_child(a, b);
    tree.add_child(b, c);
    let removed = tree.remove_node(a);
    assert_eq!(removed.data, "a");
    assert_eq!(sorted_keys(&tree), vec![1, d]);
    assert_eq!(tree.get(1).unwrap().children, vec![d]);
}

#[test]
fn remove_node_undoes_add_node() {
    let mut ids = ElementIds::new();
    let mut tree = Tree::new(1u8, &mut ids);
    let before = sorted_keys(&tree);
    let id = tree.add_node(2u8, &mut ids);
    let node = tree.remove_node(id);
    assert_eq!(node.data, 2);
    assert_eq!(sorted_keys(&tree), before);
}

#[test]
fn merge_subtree_links_and_moves_nodes() {
    let mut ids = ElementIds::new();
    let mut tree = Tree::new("root", &mut ids);
    let mut sub = Tree::new("sub", &mut ids);
    let leaf = sub.add_node("leaf", &mut ids);
    let sub_root = sub.root_id();
    sub.add_child(sub_root, leaf);
    let mut added = tree.merge_subtree(1, sub);
    added.sort();
    assert_eq!(added, vec![sub_root, leaf]);
    assert_eq!(tree.get(1).unwrap().children, vec![sub_root]);
    assert_eq!(tree.get(sub_root).unwrap().children, vec![leaf]);
    assert_eq!(tree.get(leaf).unwrap().data, "leaf");
    assert_eq!(sorted_keys(&tree), vec![1, 2, 3]);
}

#[test]
fn root_mut_and_nodes_mut_change_in_place() {
    let mut ids = ElementIds::new();
    let mut tree = Tree::new(1i32, &mut ids);
    tree.root_mut().data = 10;
    assert_eq!(tree.get(1).unwrap().data, 10);
    tree.nodes_mut().insert(8, Node::new(8));
    assert!(tree.get(8).is_some());
    tree.set_root_id(8);
    assert_eq!(tree.root_id(), 8);
    tree.add_node_with_id(9, Node::new(9));
    assert_eq!(tree.consume_nodes().len(), 3);
}

#[test]
fn node_bounds_and_hit_test() {
    let mut node = Node::new(());
    assert_eq!(node.local_bounds, Rect::zero());
    let r = Rect::new(Point::new(10, 20), Size::new(30, 40));
    node.set_bounds(&r);
    assert_eq!(node.local_bounds, r);
    assert_eq!(node.global_bounds, r);
    assert!(node.hit_test(&Point::new(10, 20)));
    assert!(node.hit_test(&Point::new(39, 59)));
    assert!(!node.hit_test(&Point::new(40, 20)));
    assert!(!node.hit_test(&Point::new(9, 30)));
    assert_eq!(*node.data(), ());
}

#[test]
fn dot_elements_walk_depth_first() {
    let mut ids = ElementIds::new();
    let mut tree = Tree::new((), &mut ids);
    let a = tree.add_node((), &mut ids);
    let b = tree.add_node((), &mut ids);
    let c = tree.add_node((), &mut ids);
    tree.add_child(1, a);
    tree.add_child(1, c);
    tree.add_child(a, b);
    let (nodes, edges) = tree.dot_elements();
    assert_eq!(nodes, vec![1, a, b, c]);
    assert_eq!(edges, vec![(a, b), (1, a), (1, c)]);
}

#[test]
fn builder_adds_fresh_children_below_root() {
    let mut ids = ElementIds::new();
    let builder = WidgetTreeBuilder::new(3u32, &mut ids);
    // each node n > 0 gets two children n - 1
    let tree = builder.build(
        |_id: usize, data: &mut u32| if *data > 0 { vec![*data - 1, *data - 1] } else { vec![] },
        &mut ids,
    );
    assert_eq!(tree.root_id(), 1);
    assert_eq!(tree.nodes().len(), 15);
    assert_eq!(ids.last_id(), 15);
    assert_eq!(tree.get(1).unwrap().children.len(), 2);
    for (id, node) in tree.nodes() {
        for child in &node.children {
            assert!(child > id);
        }
    }
}

#[test]
fn builder_with_root_id_can_change_data() {
    let mut ids = ElementIds::new();
    next_element_id(&mut ids);
    let builder = WidgetTreeBuilder::new_with_root_id(String::from("x"), 1);
    let tree = builder.build(
        |_id: usize, data: &mut String| {
            data.push('!');
            vec![]
        },
        &mut ids,
    );
    assert_eq!(tree.get(1).unwrap().data, "x!");
    assert_eq!(tree.nodes().len(), 1);

    let builder = WidgetTreeBuilder::new_with_root_node(Node::new(0u8), 5);
    let tree = builder.build(|_id: usize, d: &mut u8| if *d == 0 { vec![1u8] } else { vec![] }, &mut ids);
    assert_eq!(tree.get(5).unwrap().children, vec![2]);
}

#[test]
fn builder_adds_one_child_per_item_in_order() {
    let mut ids = ElementIds::new();
    let builder = WidgetTreeBuilder::new(String::from("r"), &mut ids);
    let tree = builder.build(
        |_id: usize, data: &mut String| {
            let out = if data.len() < 3 { vec![format!("{data}a"), format!("{data}b")] } else { vec![] };
            data.push('!');
            out
        },
        &mut ids,
    );
    let root = tree.get(1).unwrap();
    assert_eq!(root.data, "r!");
    assert_eq!(root.children, vec![2, 5]);
    assert_eq!(tree.get(2).unwrap().data, "ra!");
    assert_eq!(tree.get(2).unwrap().children, vec![3, 4]);
    assert_eq!(tree.get(3).unwrap().data, "raa!");
    assert_eq!(tree.get(4).unwrap().data, "rab!");
    assert_eq!(tree.get(5).unwrap().data, "rb!");
    assert_eq!(tree.get(5).unwrap().children, vec![6, 7]);
    assert_eq!(tree.nodes().len(), 7);
}

#[test]
fn only_set_root_id_changes_the_root() {
    let mut ids = ElementIds::new();
    let mut tree = Tree::new(0u8, &mut ids);
    tree.set_root_id(9);
    let a = tree.add_node(1, &mut ids);
    let b = tree.add_node(2, &mut ids);
    tree.add_node_with_id(20, Node::new(3));
    tree.add_child(1, a);
    tree.add_child(a, b);
    tree.remove_child_from_parent(a, b);
    let other = Tree::new_with_root_id(4u8, 30);
    tree.merge_subtree(a, other);
    tree.remove_node(a);
    assert_eq!(tree.root_id(), 9);
}

#[test]
fn ids_keep_growing() {
    let mut ids = ElementIds::new();
    let mut last = 0;
    for _ in 0..100 {
        let id = next_element_id(&mut ids);
        assert_eq!(id, last + 1);
        assert!(id >= 1);
        last = id;
    }
    assert_eq!(ids.last_id(), 100);
}
