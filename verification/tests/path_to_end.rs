use maze_solver::maze::Coordinate;
use maze_solver::path_to_end::path_to_end;
use maze_solver::tree::{Node, QuaternaryTree};

#[test]
fn t_path_to_end() {
    let mut tree = QuaternaryTree::new();
    tree.root = Some(Box::new(Node::new(Coordinate::new(1, 0))));
    tree.root.as_mut().unwrap().left = Some(Box::new(Node::new(Coordinate::new(0, 0))));
    tree.root.as_mut().unwrap().left.as_mut().unwrap().down = Some(Box::new(Node::new(Coordinate::new(0, 1))));
    tree.root.as_mut().unwrap().right = Some(Box::new(Node::new(Coordinate::new(2, 0))));
    tree.root.as_mut().unwrap().right.as_mut().unwrap().down = Some(Box::new(Node::new(Coordinate::new(2, 1))));
    tree.root.as_mut().unwrap().right.as_mut().unwrap().down.as_mut().unwrap().down = Some(Box::new(Node::new(Coordinate::new(2, 2))));
    tree.root.as_mut().unwrap().right.as_mut().unwrap().down.as_mut().unwrap().down.as_mut().unwrap().left = Some(Box::new(Node::new(Coordinate::new(1, 2))));
    assert_eq!(path_to_end(Coordinate::new(1, 2), &tree), Some(vec![
        Coordinate::new(1, 0),
        Coordinate::new(2, 0),
        Coordinate::new(2, 1),
        Coordinate::new(2, 2),
        Coordinate::new(1, 2)
    ]));
    assert_eq!(path_to_end(Coordinate::new(0, 2), &tree), None);
}

fn node(x: usize, y: usize) -> Node<Coordinate> {
    Node::new(Coordinate::new(x, y))
}

fn boxed(n: Node<Coordinate>) -> Option<Box<Node<Coordinate>>> {
    Some(Box::new(n))
}

#[test]
fn empty_tree_has_no_path() {
    let tree: QuaternaryTree<Coordinate> = QuaternaryTree::new();
    assert_eq!(None, path_to_end(Coordinate::new(0, 0), &tree));
}

#[test]
fn root_that_holds_the_end_is_the_whole_path() {
    let mut tree = QuaternaryTree::new();
    let mut root = node(4, 4);
    root.left = boxed(node(3, 4));
    tree.root = boxed(root);
    assert_eq!(Some(vec![Coordinate::new(4, 4)]), path_to_end(Coordinate::new(4, 4), &tree));
}

#[test]
fn path_backtracks_out_of_dead_ends() {
    // root -> down -> down -> down is a dead end of three nodes; the end
    // hangs to the left of the root.
    let mut d1 = node(0, 1);
    let mut d2 = node(0, 2);
    d2.down = boxed(node(0, 3));
    d2.right = boxed(node(1, 2));
    d1.down = boxed(d2);
    let mut l1 = node(9, 0);
    l1.up = boxed(node(9, 9));
    let mut root = node(0, 0);
    root.down = boxed(d1);
    root.left = boxed(l1);
    let mut tree = QuaternaryTree::new();
    tree.root = boxed(root);
    assert_eq!(
        Some(vec![Coordinate::new(0, 0), Coordinate::new(9, 0), Coordinate::new(9, 9)]),
        path_to_end(Coordinate::new(9, 9), &tree)
    );
    assert_eq!(
        Some(vec![
            Coordinate::new(0, 0),
            Coordinate::new(0, 1),
            Coordinate::new(0, 2),
            Coordinate::new(1, 2)
        ]),
        path_to_end(Coordinate::new(1, 2), &tree)
    );
    assert_eq!(None, path_to_end(Coordinate::new(5, 5), &tree));
}

#[test]
fn of_two_nodes_with_the_end_the_one_searched_first_is_found() {
    // The slots are searched below, above, right, left: the last one put on
    // the stack is the first one taken from it.
    let mut left = node(1, 0);
    left.left = boxed(node(7, 7));
    let mut down = node(2, 0);
    down.up = boxed(node(7, 7));
    let mut right = node(3, 0);
    right.right = boxed(node(7, 7));
    let mut root = node(0, 0);
    root.left = boxed(left);
    root.right = boxed(right);
    root.down = boxed(down);
    let mut tree = QuaternaryTree::new();
    tree.root = boxed(root);
    assert_eq!(
        Some(vec![Coordinate::new(0, 0), Coordinate::new(2, 0), Coordinate::new(7, 7)]),
        path_to_end(Coordinate::new(7, 7), &tree)
    );
}

#[test]
fn a_node_is_found_before_the_nodes_below_it() {
    let mut child = node(5, 5);
    child.down = boxed(node(5, 5));
    let mut root = node(0, 0);
    root.up = boxed(child);
    let mut tree = QuaternaryTree::new();
    tree.root = boxed(root);
    assert_eq!(
        Some(vec![Coordinate::new(0, 0), Coordinate::new(5, 5)]),
        path_to_end(Coordinate::new(5, 5), &tree)
    );
}
