use crate::direction::{step, Direction};
use crate::maze::{Coordinate, Maze};
use crate::tree::{alike, lemma_alike_equal, link_at, Node, QuaternaryTree};
use crate::walk::{
    lemma_least_walk_exists, lemma_least_walk_unique, lemma_walk_push, lemma_wall_start,
};
use vstd::prelude::*;

verus! {

/// Whether `tree` is the tree of `maze`: it has a node at the end of a path
/// exactly where the path, taken as a walk from the start of the maze, is the
/// least walk to the cell it ends in, and that node holds this cell.
/// So the root holds the start, a child in a slot holds the neighbour of its
/// parent's cell in the slot's direction, and every cell hangs below the
/// neighbour through which it is reached first. Where the start is a wall, no
/// step can be taken from it, and the tree is the root alone.
pub open spec fn is_maze_tree(maze: &Maze, tree: QuaternaryTree<Coordinate>) -> bool {
    forall|walk: Seq<Direction>|
        match #[trigger] tree.at(walk) {
            Some(node) => maze.is_least_walk(walk) && node.elem@ == maze.walk_end(walk),
            None => !maze.is_least_walk(walk),
        }
}

/// The tree of a maze has a root, which holds the start.
pub proof fn lemma_tree_root(maze: &Maze, tree: QuaternaryTree<Coordinate>)
    requires
        is_maze_tree(maze, tree),
    ensures
        tree.root matches Some(root) && root.elem == maze.start,
{
    let empty = Seq::<Direction>::empty();
    assert(maze.is_least_walk(empty));
    assert(tree.at(empty) is Some);
}

/// No path with a step leads anywhere from a node without children.
proof fn lemma_leaf_at<T>(leaf: Node<T>, path: Seq<Direction>)
    requires
        leaf.left is None,
        leaf.right is None,
        leaf.up is None,
        leaf.down is None,
        path.len() > 0,
    ensures
        leaf.at(path) is None,
    decreases path.len(),
{
    if path.len() > 1 {
        lemma_leaf_at(leaf, path.drop_last());
    } else {
        assert(leaf.at(path.drop_last()) == Some(leaf));
    }
}

/// The tree of a maze whose start is a wall is the root alone, and the other
/// way round: a root without children that holds the start is the tree of
/// such a maze.
pub proof fn lemma_wall_start_tree(maze: &Maze, tree: QuaternaryTree<Coordinate>)
    requires
        !maze.passable(maze.start@),
    ensures
        is_maze_tree(maze, tree) <==> tree.root == Some(
            Box::new(
                Node { elem: maze.start, left: None, right: None, up: None, down: None },
            ),
        ),
{
    let empty = Seq::<Direction>::empty();
    let lone = Node { elem: maze.start, left: None, right: None, up: None, down: None };
    if tree.root == Some(Box::new(lone)) {
        assert forall|walk: Seq<Direction>|
            match #[trigger] tree.at(walk) {
                Some(node) => maze.is_least_walk(walk) && node.elem@ == maze.walk_end(walk),
                None => !maze.is_least_walk(walk),
            } by {
            lemma_wall_start(maze, walk);
            if walk.len() > 0 {
                lemma_leaf_at(lone, walk);
            }
        }
    }
    if is_maze_tree(maze, tree) {
        lemma_tree_root(maze, tree);
        let root = *tree.root.unwrap();
        assert forall|d: Direction| root.child(d) is None by {
            let one = seq![d];
            lemma_wall_start(maze, one);
            assert(one.drop_last() =~= empty);
            assert(tree.at(one) is None);
            assert(root.at(one.drop_last()) == Some(root));
        }
        assert(root.child(Direction::Left) is None);
        assert(root.child(Direction::Right) is None);
        assert(root.child(Direction::Up) is None);
        assert(root.child(Direction::Down) is None);
        assert(root == lone);
    }
}

/// The tree of a maze holds the cells that can be reached from the start, and
/// no others.
pub proof fn lemma_tree_holds_reachable(
    maze: &Maze,
    tree: QuaternaryTree<Coordinate>,
    cell: Coordinate,
)
    requires
        is_maze_tree(maze, tree),
    ensures
        tree.contains(cell) <==> maze.reachable(cell@),
{
    if tree.contains(cell) {
        let path = choose|path: Seq<Direction>| tree.holds_at(path, cell);
        assert(tree.at(path) is Some);
        assert(maze.leads_to(path, cell@));
    }
    if maze.reachable(cell@) {
        let walk = choose|walk: Seq<Direction>| maze.leads_to(walk, cell@);
        let least = lemma_least_walk_exists(maze, walk);
        assert(tree.at(least) is Some);
        assert(tree.holds_at(least, cell));
    }
}

/// No two nodes of the tree of a maze hold the same cell: paths that lead to
/// nodes with one cell are one path.
pub proof fn lemma_tree_holds_once(
    maze: &Maze,
    tree: QuaternaryTree<Coordinate>,
    a: Seq<Direction>,
    b: Seq<Direction>,
    cell: Coordinate,
)
    requires
        is_maze_tree(maze, tree),
        tree.holds_at(a, cell),
        tree.holds_at(b, cell),
    ensures
        a == b,
{
    assert(tree.at(a) is Some);
    assert(tree.at(b) is Some);
    lemma_least_walk_unique(maze, a, b);
}

/// A child in the tree of a maze holds the neighbour of its parent's cell in
/// the direction of its slot, and this neighbour can be walked on.
pub proof fn lemma_tree_child(
    maze: &Maze,
    tree: QuaternaryTree<Coordinate>,
    path: Seq<Direction>,
    d: Direction,
)
    requires
        is_maze_tree(maze, tree),
        tree.at(path.push(d)) is Some,
    ensures
        tree.at(path) is Some,
        tree.at(path.push(d)).unwrap().elem@ == step(tree.at(path).unwrap().elem@, d),
        maze.passable(tree.at(path.push(d)).unwrap().elem@),
{
    assert(path.push(d).drop_last() =~= path);
    lemma_walk_push(maze, path, d);
    assert(tree.at(path) is Some) by {
        if tree.root is Some {
            assert(tree.root.unwrap().at(path.push(d)) is Some);
        }
    }
}

/// A maze has one tree only: building it again gives the same tree, with the
/// same nodes in the same slots.
pub proof fn lemma_tree_unique(
    maze: &Maze,
    first: QuaternaryTree<Coordinate>,
    second: QuaternaryTree<Coordinate>,
)
    requires
        is_maze_tree(maze, first),
        is_maze_tree(maze, second),
    ensures
        first == second,
{
    assert(alike(first.root, second.root)) by {
        assert forall|path: Seq<Direction>|
            match (#[trigger] link_at(first.root, path), #[trigger] link_at(second.root, path)) {
                (Some(n), Some(m)) => n.elem == m.elem,
                (None, None) => true,
                _ => false,
            } by {
            assert(first.at(path) == link_at(first.root, path));
            assert(second.at(path) == link_at(second.root, path));
        }
    }
    lemma_alike_equal(first.root, second.root);
}

} // verus!
