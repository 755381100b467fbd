use spatree::ncube::NCube;
use spatree::node::{Node, NodeTopology};
use spatree::partition::Partition;
use spatree::position::Position;
use spatree::tree::{InsertError, Mutation, Tree};
use spatree::view::NodeView;

fn pos(c: &[i64]) -> Position {
    Position::new(c.to_vec())
}

fn cube(c: &[i64], e: u64) -> NCube {
    NCube::new(pos(c), e).unwrap()
}

fn count(t: NodeTopology<(&u64, &u64), &Position>) -> u64 {
    match t {
        NodeTopology::Leaf(_) => 1,
        NodeTopology::Branch((acc, next)) => acc + next,
    }
}

fn find<'a, A>(node: &'a Node<Position, A>, p: &Position) -> Option<&'a Position> {
    let mut node = node;
    loop {
        match node.topology() {
            NodeTopology::Leaf(leaf) => return leaf.get(),
            NodeTopology::Branch(branch) => {
                let k = node.partition().index_unchecked(p);
                node = &branch.nodes()[k];
            }
        }
    }
}

fn scattered() -> Vec<Position> {
    [
        [-60, -60],
        [-10, 50],
        [3, 7],
        [40, -33],
        [63, 63],
        [-64, 64],
        [17, 2],
        [-5, -40],
        [25, 25],
    ]
    .iter()
    .map(|c| pos(c))
    .collect()
}

#[test]
fn empty_tree_has_empty_leaf_root() {
    let tree: Tree<Position, ()> = Tree::empty(cube(&[0, 0], 8));
    let root = tree.as_root_node();
    assert!(root.as_branch().is_none());
    assert!(root.as_leaf().unwrap().get().is_none());
    assert_eq!(root.partition(), &cube(&[0, 0], 8));
}

#[test]
fn first_insert_fills_root_leaf() {
    let mut m = Tree::<Position, ()>::empty(cube(&[0, 0], 8)).mutate();
    assert_eq!(m.insert(pos(&[1, 2])), Ok(()));
    let tree = m.commit();
    let leaf = tree.as_root_node().as_leaf().unwrap();
    assert_eq!(leaf.get(), Some(&pos(&[1, 2])));
}

#[test]
fn out_of_domain_insert_is_rejected_and_changes_nothing() {
    let mut m = Tree::<Position, ()>::empty(cube(&[0, 0], 8)).mutate();
    assert_eq!(m.insert(pos(&[1, 1])), Ok(()));
    assert_eq!(m.insert(pos(&[9, 0])), Err(InsertError::OutOfDomain));
    assert_eq!(m.insert(pos(&[0, 0, 0])), Err(InsertError::OutOfDomain));
    let tree = m.commit();
    let leaf = tree.as_root_node().as_leaf().unwrap();
    assert_eq!(leaf.get(), Some(&pos(&[1, 1])));
}

#[test]
fn coincident_insert_is_a_collision() {
    let mut m = Tree::<Position, ()>::empty(cube(&[0, 0], 8)).mutate();
    assert_eq!(m.insert(pos(&[3, 3])), Ok(()));
    assert_eq!(m.insert(pos(&[3, 3])), Err(InsertError::Collision));
    let tree = m.commit();
    assert!(tree.as_root_node().as_leaf().is_some());
}

#[test]
fn odd_extent_root_splits_into_branch() {
    let mut m = Tree::<Position, ()>::empty(cube(&[0, 0], 3)).mutate();
    assert_eq!(m.insert(pos(&[-2, -2])), Ok(()));
    assert_eq!(m.insert(pos(&[2, 2])), Ok(()));
    let tree = m.commit();
    let nodes = tree.as_root_node().as_branch().unwrap().nodes();
    assert_eq!(nodes[0].as_leaf().unwrap().get(), Some(&pos(&[-2, -2])));
    assert_eq!(nodes[3].as_leaf().unwrap().get(), Some(&pos(&[2, 2])));
    assert_eq!(nodes[1].as_leaf().unwrap().get(), None);
    assert_eq!(nodes[2].as_leaf().unwrap().get(), None);
}

#[test]
fn two_points_split_root_into_branch() {
    let root = cube(&[0, 0], 8);
    let a = pos(&[-3, 5]);
    let b = pos(&[4, -1]);
    let ka = root.index_unchecked(&a);
    let kb = root.index_unchecked(&b);
    assert_ne!(ka, kb);
    let mut m = Tree::<Position, ()>::empty(root).mutate();
    assert_eq!(m.insert(a.clone()), Ok(()));
    assert_eq!(m.insert(b.clone()), Ok(()));
    let tree = m.commit();
    let branch = tree.as_root_node().as_branch().unwrap();
    let nodes = branch.nodes();
    assert_eq!(nodes.len(), 4);
    for (k, node) in nodes.iter().enumerate() {
        let item = node.as_leaf().unwrap().get();
        if k == ka {
            assert_eq!(item, Some(&a));
        } else if k == kb {
            assert_eq!(item, Some(&b));
        } else {
            assert_eq!(item, None);
        }
    }
}

#[test]
fn nearby_points_subdivide_repeatedly() {
    let mut m = Tree::<Position, ()>::empty(cube(&[0, 0], 8)).mutate();
    assert_eq!(m.insert(pos(&[1, 1])), Ok(()));
    assert_eq!(m.insert(pos(&[2, 2])), Ok(()));
    let tree = m.commit();
    let root = tree.as_root_node();
    let child = &root.as_branch().unwrap().nodes()[3];
    assert_eq!(child.partition().origin_numerator(0), 8);
    assert_eq!(child.partition().origin_numerator(1), 8);
    assert_eq!(child.partition().extent_numerator(), 8);
    assert_eq!(child.partition().scale(), 2);
    assert!(child.as_branch().is_some());
    assert_eq!(find(root, &pos(&[1, 1])), Some(&pos(&[1, 1])));
    assert_eq!(find(root, &pos(&[2, 2])), Some(&pos(&[2, 2])));
}

#[test]
fn inserted_items_are_found_by_index_path() {
    let mut m = Tree::<Position, ()>::empty(cube(&[0, 0], 64)).mutate();
    for p in scattered() {
        assert_eq!(m.insert(p), Ok(()));
    }
    let tree = m.commit();
    for p in scattered() {
        assert_eq!(find(tree.as_root_node(), &p), Some(&p));
    }
}

#[test]
fn three_dimensional_tree_has_eight_children() {
    let mut m = Tree::<Position, ()>::empty(cube(&[0, 0, 0], 16)).mutate();
    assert_eq!(m.insert(pos(&[1, 2, 3])), Ok(()));
    assert_eq!(m.insert(pos(&[-1, -2, -3])), Ok(()));
    let tree = m.commit();
    let nodes = tree.as_root_node().as_branch().unwrap().nodes();
    assert_eq!(nodes.len(), 8);
    assert_eq!(nodes[7].as_leaf().unwrap().get(), Some(&pos(&[1, 2, 3])));
    assert_eq!(nodes[0].as_leaf().unwrap().get(), Some(&pos(&[-1, -2, -3])));
}

#[test]
fn append_stops_at_first_failure_and_keeps_earlier_items() {
    let mut m = Tree::<Position, ()>::empty(cube(&[0, 0], 8)).mutate();
    let items = vec![pos(&[1, 1]), pos(&[-3, 2]), pos(&[20, 0]), pos(&[-1, -1])];
    assert_eq!(m.append(items), Err(InsertError::OutOfDomain));
    let tree = m.commit();
    let root = tree.as_root_node();
    assert_eq!(find(root, &pos(&[1, 1])), Some(&pos(&[1, 1])));
    assert_eq!(find(root, &pos(&[-3, 2])), Some(&pos(&[-3, 2])));
    assert_eq!(find(root, &pos(&[-1, -1])), None);
}

#[test]
fn append_all_succeeds() {
    let mut m = Tree::<Position, ()>::empty(cube(&[0, 0], 64)).mutate();
    assert_eq!(m.append(scattered()), Ok(()));
    let tree = m.commit();
    for p in scattered() {
        assert_eq!(find(tree.as_root_node(), &p), Some(&p));
    }
}

#[test]
fn from_iter_builds_or_fails() {
    let tree = Tree::<Position, ()>::from_iter(cube(&[0, 0], 64), scattered()).unwrap();
    assert!(tree.as_root_node().as_branch().is_some());
    let bad = vec![pos(&[0, 0]), pos(&[0, 0])];
    assert!(matches!(
        Tree::<Position, ()>::from_iter(cube(&[0, 0], 64), bad),
        Err(InsertError::Collision)
    ));
}

#[test]
fn count_of_empty_tree_is_zero() {
    let tree = Tree::<Position, u64>::empty(cube(&[0, 0], 64)).mutate().commit_with(count);
    assert_eq!(*tree.as_root_node().get(), 0);
}

#[test]
fn count_of_one_item_is_one() {
    let tree = Tree::from_iter_with(cube(&[0, 0], 64), vec![pos(&[5, 5])], count).unwrap();
    assert_eq!(*tree.as_root_node().get(), 1);
}

#[test]
fn count_of_two_items_is_two() {
    let items = vec![pos(&[5, 5]), pos(&[-5, 5])];
    let tree = Tree::from_iter_with(cube(&[0, 0], 64), items, count).unwrap();
    assert_eq!(*tree.as_root_node().get(), 2);
}

#[test]
fn count_of_nine_scattered_items() {
    let tree = Tree::from_iter_with(cube(&[0, 0], 64), scattered(), count).unwrap();
    let root = tree.as_root_node();
    assert_eq!(*root.get(), 9);
    let sum: u64 = root.as_branch().unwrap().nodes().iter().map(|n| *n.get()).sum();
    assert_eq!(sum, 9);
}

#[test]
fn fold_order_is_ascending_child_index() {
    let items = vec![pos(&[-5, -5]), pos(&[5, -5]), pos(&[-5, 5]), pos(&[5, 5])];
    let digits = |t: NodeTopology<(&u64, &u64), &Position>| match t {
        NodeTopology::Leaf(p) => (p.coordinate(0) > 0) as u64 + 2 * (p.coordinate(1) > 0) as u64,
        NodeTopology::Branch((acc, next)) => acc * 10 + next,
    };
    let tree = Tree::from_iter_with(cube(&[0, 0], 64), items, digits).unwrap();
    assert_eq!(*tree.as_root_node().get(), 123);
}

#[test]
fn subdivisions_are_restartable() {
    let tree = Tree::<Position, ()>::from_iter(cube(&[0, 0], 64), scattered()).unwrap();
    let view = NodeView::<&Node<Position, ()>>::new(tree.as_root_node());
    let first = view.subdivisions().unwrap();
    let second = view.subdivisions().unwrap();
    assert_eq!(first.len(), 4);
    assert_eq!(first.len(), second.len());
    for (a, b) in first.iter().zip(second.iter()) {
        assert!(std::ptr::eq(a.node(), b.node()));
        assert_eq!(a.node().partition(), b.node().partition());
    }
}

#[test]
fn leaf_view_has_no_subdivisions() {
    let tree = Tree::<Position, ()>::empty(cube(&[0, 0], 4));
    let view = NodeView::<&Node<Position, ()>>::new(tree.as_root_node());
    assert!(view.subdivisions().is_none());
}

#[test]
fn views_reborrow_to_the_same_node() {
    let tree = Tree::<Position, ()>::from_iter(cube(&[0, 0], 64), scattered()).unwrap();
    let shared = NodeView::<&Node<Position, ()>>::new(tree.as_root_node());
    let again = shared.to_ref();
    assert!(std::ptr::eq(shared.node(), again.node()));
    let into = shared.into_ref();
    assert!(std::ptr::eq(into.node(), tree.as_root_node()));
}

#[test]
fn owned_and_exclusive_views_of_a_node() {
    let mut node: Node<Position, u64> = Node::empty(cube(&[0, 0], 4), 7);
    {
        let exclusive = NodeView::<&mut Node<Position, u64>>::new(&mut node);
        assert_eq!(*exclusive.node().get(), 7);
        assert!(exclusive.subdivisions().is_none());
        assert_eq!(*exclusive.to_ref().node().get(), 7);
        let shared = exclusive.into_ref();
        assert_eq!(shared.node().partition(), &cube(&[0, 0], 4));
    }
    let owned = NodeView::<Node<Position, u64>>::new(node);
    assert!(owned.subdivisions().is_none());
    assert_eq!(*owned.to_ref().node().get(), 7);
    assert_eq!(*owned.into_inner().get(), 7);
}

#[test]
fn exclusive_views_of_a_leaf_have_no_children() {
    let mut node: Node<Position, u64> = Node::empty(cube(&[0, 0, 0], 2), 3);
    let mut view = NodeView::<&mut Node<Position, u64>>::new(&mut node);
    assert!(view.subdivisions_mut().is_none());
    assert_eq!(*view.node_mut().get(), 3);
    assert!(view.into_subdivisions_mut().is_none());
}

#[test]
fn mutation_from_tree_inserts_like_mutate() {
    let tree: Tree<Position, ()> = Tree::empty(cube(&[0, 0], 8));
    let mut m: Mutation<Position, ()> = Mutation::from(tree);
    assert_eq!(m.insert(pos(&[2, -2])), Ok(()));
    let tree = m.commit();
    assert_eq!(find(tree.as_root_node(), &pos(&[2, -2])), Some(&pos(&[2, -2])));
}

#[test]
fn topology_accessors_agree() {
    let tree = Tree::<Position, ()>::from_iter(cube(&[0, 0], 8), vec![pos(&[1, 1]), pos(&[-1, -1])])
        .unwrap();
    let root = tree.as_root_node();
    assert!(root.topology().into_branch().is_some());
    assert!(root.topology().into_leaf().is_none());
    let child = &root.as_branch().unwrap().nodes()[0];
    assert!(child.topology().into_leaf().is_some());
    assert_eq!(child.topology().into_leaf().unwrap().get(), Some(&pos(&[-1, -1])));
    let empty = NodeTopology::<u8, u16>::Leaf(4);
    assert!(matches!(empty.to_ref(), NodeTopology::Leaf(&4)));
}

#[test]
fn tree_over_largest_cube_accepts_corner_points() {
    let e: i64 = 1 << 62;
    let items = vec![pos(&[e, e]), pos(&[-e, -e]), pos(&[1, 1]), pos(&[0, 0])];
    let tree = Tree::from_iter_with(cube(&[0, 0], 1 << 62), items, count).unwrap();
    assert_eq!(*tree.as_root_node().get(), 4);
    assert_eq!(find(tree.as_root_node(), &pos(&[0, 0])), Some(&pos(&[0, 0])));
    assert_eq!(find(tree.as_root_node(), &pos(&[e, e])), Some(&pos(&[e, e])));
}

#[test]
fn neighbouring_points_are_separated() {
    let mut m = Tree::<Position, ()>::empty(cube(&[0, 0], 1 << 62)).mutate();
    assert_eq!(m.insert(pos(&[0, 0])), Ok(()));
    assert_eq!(m.insert(pos(&[1, 1])), Ok(()));
    assert_eq!(m.insert(pos(&[0, 1])), Ok(()));
    assert_eq!(m.insert(pos(&[1, 1])), Err(InsertError::Collision));
    let tree = m.commit();
    for p in [[0, 0], [1, 1], [0, 1]] {
        assert_eq!(find(tree.as_root_node(), &pos(&p)), Some(&pos(&p)));
    }
}
