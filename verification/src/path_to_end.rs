use crate::direction::{adjacent, step, Direction};
use crate::maze::{Coordinate, Maze};
use crate::maze_tree::{is_maze_tree, lemma_tree_child};
use crate::tree::{link_at, link_size, Link, Node, QuaternaryTree};
use vstd::prelude::*;

verus! {

/// The cells from `node` down to the first node that holds `end`, where the
/// nodes are taken in the order in which the search comes to them: a node
/// before the nodes below it, and of these the ones in the slot below first,
/// then those above, to the right and to the left. `None` where no node holds
/// `end`.
pub open spec fn search(node: Node<Coordinate>, end: Coordinate) -> Option<Seq<Coordinate>>
    decreases node,
{
    if node.elem == end {
        Some(seq![node.elem])
    } else {
        let down = search_link(node.down, end);
        let up = search_link(node.up, end);
        let right = search_link(node.right, end);
        let left = search_link(node.left, end);
        let below = if down is Some {
            down
        } else if up is Some {
            up
        } else if right is Some {
            right
        } else {
            left
        };
        match below {
            Some(rest) => Some(seq![node.elem] + rest),
            None => None,
        }
    }
}

/// What `search` finds from the node in `link`, if there is one.
pub open spec fn search_link(link: Link<Coordinate>, end: Coordinate) -> Option<Seq<Coordinate>>
    decreases link,
{
    match link {
        Some(node) => search(*node, end),
        None => None,
    }
}

/// Whether `path` holds the cells of the nodes that one passes on the way
/// along `dirs` from the node in `link`: first the cell of that node, then
/// the cell of its child in the slot of the first direction, and so on.
pub open spec fn follows(
    link: Link<Coordinate>,
    dirs: Seq<Direction>,
    path: Seq<Coordinate>,
) -> bool {
    &&& path.len() == dirs.len() + 1
    &&& forall|k: int|
        0 <= k <= dirs.len() ==> (#[trigger] link_at(link, dirs.take(k)) matches Some(node)
            && node.elem == path[k])
}

/// Whether `path` leads down the tree from the root to a node that holds
/// `end`: it begins with what the root holds, each of its cells is held by a
/// child of the node that holds the cell before it, and it ends with `end`.
pub open spec fn descends(
    tree: QuaternaryTree<Coordinate>,
    end: Coordinate,
    path: Seq<Coordinate>,
) -> bool {
    &&& tree.root is Some
    &&& path.len() > 0
    &&& path[0] == tree.root.unwrap().elem
    &&& path.last() == end
    &&& exists|dirs: Seq<Direction>| follows(tree.root, dirs, path)
}

/// A node that waits to be searched, with the number of its ancestors.
type Pending<'a> = (&'a Node<Coordinate>, usize);

/// What the search finds if it goes on with the nodes of `stack`, the last
/// first, while `path` holds the cells of the nodes above the one it has come
/// to last.
spec fn resume(stack: Seq<Pending>, path: Seq<Coordinate>, end: Coordinate) -> Option<
    Seq<Coordinate>,
>
    decreases stack.len(),
{
    if stack.len() == 0 {
        None
    } else {
        match search(*stack.last().0, end) {
            Some(rest) => Some(path.take(stack.last().1 as int) + rest),
            None => resume(stack.drop_last(), path, end),
        }
    }
}

/// The number of nodes in and below the nodes of `stack`.
spec fn weight(stack: Seq<Pending>) -> nat
    decreases stack.len(),
{
    if stack.len() == 0 {
        0
    } else {
        weight(stack.drop_last()) + stack.last().0.size()
    }
}

/// Each node of `stack` has at most `limit` ancestors, and none has more than
/// a node that was pushed after it.
spec fn stacked(stack: Seq<Pending>, limit: int) -> bool {
    &&& forall|k: int| 0 <= k < stack.len() ==> (#[trigger] stack[k]).1 <= limit
    &&& forall|k: int, l: int|
        0 <= k <= l < stack.len() ==> (#[trigger] stack[k]).1 <= (#[trigger] stack[l]).1
}

/// The stack of nodes that wait once the node in `link`, if there is one,
/// has been put on `stack`.
spec fn pushed(stack: Seq<Pending>, link: Link<Coordinate>, depth: usize) -> Seq<Pending> {
    match link {
        Some(node) => stack.push((&*node, depth)),
        None => stack,
    }
}

/// A node that is put on the stack is searched before the nodes that have
/// waited there.
proof fn lemma_resume_pushed(
    stack: Seq<Pending>,
    link: Link<Coordinate>,
    depth: usize,
    path: Seq<Coordinate>,
    end: Coordinate,
)
    requires
        stacked(stack, depth as int),
    ensures
        resume(pushed(stack, link, depth), path, end) == (match search_link(link, end) {
            Some(rest) => Some(path.take(depth as int) + rest),
            None => resume(stack, path, end),
        }),
        weight(pushed(stack, link, depth)) == weight(stack) + link_size(link),
        stacked(pushed(stack, link, depth), depth as int),
{
    let longer = pushed(stack, link, depth);
    if link is Some {
        assert(longer.drop_last() =~= stack);
        assert forall|k: int| 0 <= k < longer.len() implies (#[trigger] longer[k]).1 <= depth by {
            if k < stack.len() {
                assert(longer[k] == stack[k]);
            }
        }
        assert forall|k: int, l: int| 0 <= k <= l < longer.len() implies (#[trigger] longer[k]).1
            <= (#[trigger] longer[l]).1 by {
            if k < stack.len() {
                assert(longer[k] == stack[k]);
            }
            if l < stack.len() {
                assert(longer[l] == stack[l]);
            }
        }
    }
}

/// The search finds the same whatever `path` holds beyond the ancestors of
/// the nodes that wait.
proof fn lemma_resume_prefix(
    stack: Seq<Pending>,
    a: Seq<Coordinate>,
    b: Seq<Coordinate>,
    depth: int,
    end: Coordinate,
)
    requires
        stacked(stack, depth),
        0 <= depth <= a.len(),
        depth <= b.len(),
        a.take(depth) == b.take(depth),
    ensures
        resume(stack, a, end) == resume(stack, b, end),
    decreases stack.len(),
{
    if stack.len() > 0 {
        let d = stack.last().1 as int;
        assert(a.take(d) =~= a.take(depth).take(d));
        assert(b.take(d) =~= b.take(depth).take(d));
        assert(stacked(stack.drop_last(), depth)) by {
            assert forall|k: int| 0 <= k < stack.drop_last().len() implies (
            #[trigger] stack.drop_last()[k]) == stack[k] by {}
        }
        lemma_resume_prefix(stack.drop_last(), a, b, depth, end);
    }
}

/// Checks if the node that waits is a child of the node with whose cell
/// `path` ends: it is if it has as many ancestors as `path` has cells.
fn is_child(path: &Vec<Coordinate>, suspected_child: &Pending) -> (yes: bool)
    ensures
        yes == (suspected_child.1 == path@.len()),
{
    suspected_child.1 == path.len()
}

/// Puts the node in `link`, if there is one, on the stack of nodes that wait
/// to be searched.
fn push_child<'a>(stack: &mut Vec<Pending<'a>>, link: &'a Link<Coordinate>, depth: usize)
    ensures
        final(stack)@ == pushed(old(stack)@, *link, depth),
{
    match link {
        Some(node) => {
            stack.push((&**node, depth));
        },
        None => {},
    }
}

/// Finds the path to take from the root of the tree to the end.
/// Returns None if the end is unreachable.
///
/// A path is found exactly where a node of the tree holds `end`. It holds the
/// cells of the nodes from the root down to such a node, each the child of
/// the one before it. Where several nodes hold `end`, the path leads to the
/// one that `search` comes to first.
pub fn path_to_end(end: Coordinate, tree: &QuaternaryTree<Coordinate>) -> (found: Option<
    Vec<Coordinate>,
>)
    ensures
        match found {
            Some(path) => search_link(tree.root, end) == Some(path@),
            None => search_link(tree.root, end) is None,
        },
        found is Some <==> tree.contains(end),
        found matches Some(path) ==> descends(*tree, end, path@),
{
    proof {
        lemma_search_total(*tree, end);
        if search_link(tree.root, end) is Some {
            let dirs = lemma_search_path(*tree, end);
            assert(follows(tree.root, dirs, search_link(tree.root, end).unwrap()));
        }
    }
    let mut path: Vec<Coordinate> = Vec::new();
    let mut stack: Vec<Pending> = Vec::new();
    push_child(&mut stack, &tree.root, 0);
    proof {
        lemma_resume_pushed(Seq::empty(), tree.root, 0, path@, end);
        assert forall|rest: Seq<Coordinate>| #[trigger] (path@.take(0) + rest) == rest by {
            assert(path@.take(0) + rest =~= rest);
        }
    }
    while stack.len() > 0
        invariant
            stacked(stack@, path@.len() as int),
            resume(stack@, path@, end) == search_link(tree.root, end),
            search_link(tree.root, end) is Some <==> tree.contains(end),
            search_link(tree.root, end) matches Some(whole) ==> descends(*tree, end, whole),
        decreases weight(stack@),
    {
        let ghost above = path@;
        let ghost before = stack@;
        let next = stack.pop().unwrap();
        let (node, depth) = next;
        let ghost rest = stack@;
        proof {
            assert(rest =~= before.drop_last());
            assert(before.last() == (node, depth));
            assert(before[before.len() - 1].1 <= above.len());
        }
        while !is_child(&path, &next)
            invariant
                next == (node, depth),
                depth <= path@.len() <= above.len(),
                path@ == above.take(path@.len() as int),
            decreases path@.len(),
        {
            path.pop();
        }
        path.push(node.elem);
        let ghost grown = path@;
        proof {
            assert(grown =~= above.take(depth as int).push(node.elem));
            assert(grown.take(depth as int) =~= above.take(depth as int));
            assert(stacked(rest, depth as int)) by {
                assert forall|k: int| 0 <= k < rest.len() implies (#[trigger] rest[k]).1
                    <= depth by {
                    assert(rest[k] == before[k]);
                    assert(before[k].1 <= before[before.len() - 1].1);
                }
                assert forall|k: int, l: int| 0 <= k <= l < rest.len() implies (
                #[trigger] rest[k]).1 <= (#[trigger] rest[l]).1 by {
                    assert(rest[k] == before[k] && rest[l] == before[l]);
                }
            }
            lemma_resume_prefix(rest, above, grown, depth as int, end);
        }
        if node.elem == end {
            proof {
                assert(above.take(depth as int) + seq![node.elem] =~= grown);
            }
            return Some(path);
        }
        let below = path.len();
        push_child(&mut stack, &node.left, below);
        let ghost s1 = stack@;
        push_child(&mut stack, &node.right, below);
        let ghost s2 = stack@;
        push_child(&mut stack, &node.up, below);
        let ghost s3 = stack@;
        push_child(&mut stack, &node.down, below);
        proof {
            assert forall|more: Seq<Coordinate>|
                above.take(depth as int) + (seq![node.elem] + more) == #[trigger] (grown.take(
                    below as int,
                ) + more) by {
                assert(grown.take(below as int) =~= grown);
                assert(above.take(depth as int) + (seq![node.elem] + more) =~= grown + more);
            }
            assert(stacked(rest, below as int));
            lemma_resume_pushed(rest, node.left, below, grown, end);
            lemma_resume_pushed(s1, node.right, below, grown, end);
            lemma_resume_pushed(s2, node.up, below, grown, end);
            lemma_resume_pushed(s3, node.down, below, grown, end);
            assert(weight(before) == weight(rest) + node.size());
        }
    }
    None
}

proof fn lemma_search_follows(node: Node<Coordinate>, end: Coordinate) -> (dirs: Seq<Direction>)
    requires
        search(node, end) is Some,
    ensures
        follows(Some(Box::new(node)), dirs, search(node, end).unwrap()),
        search(node, end).unwrap().last() == end,
    decreases node,
{
    let path = search(node, end).unwrap();
    let link = Some(Box::new(node));
    if node.elem == end {
        let dirs = Seq::<Direction>::empty();
        assert forall|k: int| 0 <= k <= dirs.len() implies (#[trigger] link_at(
            link,
            dirs.take(k),
        ) matches Some(n) && n.elem == path[k]) by {
            assert(dirs.take(k) =~= dirs);
        }
        dirs
    } else {
        let d = if search_link(node.down, end) is Some {
            Direction::Down
        } else if search_link(node.up, end) is Some {
            Direction::Up
        } else if search_link(node.right, end) is Some {
            Direction::Right
        } else {
            Direction::Left
        };
        let child = node.child(d).unwrap();
        let rest = search(*child, end).unwrap();
        assert(path == seq![node.elem] + rest);
        let sub = match d {
            Direction::Down => lemma_search_follows(*node.down.unwrap(), end),
            Direction::Up => lemma_search_follows(*node.up.unwrap(), end),
            Direction::Right => lemma_search_follows(*node.right.unwrap(), end),
            Direction::Left => lemma_search_follows(*node.left.unwrap(), end),
        };
        let dirs = seq![d] + sub;
        assert forall|k: int| 0 <= k <= dirs.len() implies (#[trigger] link_at(
            link,
            dirs.take(k),
        ) matches Some(n) && n.elem == path[k]) by {
            if k == 0 {
                assert(dirs.take(0) =~= Seq::<Direction>::empty());
            } else {
                assert(dirs.take(k) =~= seq![d] + sub.take(k - 1));
                node.lemma_at_first(d, sub.take(k - 1));
                assert(link_at(Some(child), sub.take(k - 1)) matches Some(n) && n.elem == rest[k
                    - 1]);
            }
        }
        dirs
    }
}

proof fn lemma_held_found(node: Node<Coordinate>, end: Coordinate, dirs: Seq<Direction>)
    requires
        node.holds_at(dirs, end),
    ensures
        search(node, end) is Some,
    decreases dirs.len(),
{
    if node.elem != end {
        let d = dirs[0];
        let rest = dirs.drop_first();
        assert(dirs =~= seq![d] + rest);
        node.lemma_at_first(d, rest);
        let child = node.child(d).unwrap();
        lemma_held_found(*child, end, rest);
        assert(search_link(node.child(d), end) is Some);
    }
}

/// The search is total: it finds a path, with at least one cell, exactly
/// where a node of the tree holds `end`.
pub proof fn lemma_search_total(tree: QuaternaryTree<Coordinate>, end: Coordinate)
    ensures
        search_link(tree.root, end) is Some <==> tree.contains(end),
        search_link(tree.root, end) matches Some(path) ==> path.len() > 0,
{
    if let Some(path) = search_link(tree.root, end) {
        let dirs = lemma_search_path(tree, end);
        assert(dirs.take(dirs.len() as int) =~= dirs);
        assert(link_at(tree.root, dirs.take(dirs.len() as int)) is Some);
        assert(tree.holds_at(dirs, end));
    }
    if tree.contains(end) {
        let dirs = choose|dirs: Seq<Direction>| tree.holds_at(dirs, end);
        lemma_held_found(*tree.root.unwrap(), end, dirs);
    }
}

/// A path that the search finds leads down the tree: it begins with what the
/// root holds, each of its cells is held by a child of the node that holds
/// the cell before it, and it ends with `end`. The directions returned are
/// those of the slots through which it leads.
pub proof fn lemma_search_path(tree: QuaternaryTree<Coordinate>, end: Coordinate) -> (dirs: Seq<
    Direction,
>)
    requires
        search_link(tree.root, end) is Some,
    ensures
        follows(tree.root, dirs, search_link(tree.root, end).unwrap()),
        search_link(tree.root, end).unwrap()[0] == tree.root.unwrap().elem,
        search_link(tree.root, end).unwrap().last() == end,
{
    let root = tree.root.unwrap();
    let dirs = lemma_search_follows(*root, end);
    assert(tree.root == Some(Box::new(*root)));
    assert(dirs.take(0) =~= Seq::<Direction>::empty());
    assert(link_at(tree.root, dirs.take(0)) == Some(*root));
    dirs
}

/// In the tree of a maze, a path that the search finds begins with the start
/// of the maze, and each of its steps leads from a cell that can be walked on
/// to a neighbour in the grid that can be walked on. So a path out of a start
/// that is a wall has no step.
pub proof fn lemma_search_steps(
    maze: &Maze,
    tree: QuaternaryTree<Coordinate>,
    end: Coordinate,
    k: int,
)
    requires
        is_maze_tree(maze, tree),
        search_link(tree.root, end) matches Some(path) && 0 <= k < path.len() - 1,
    ensures
        search_link(tree.root, end).unwrap()[0] == maze.start,
        adjacent(
            search_link(tree.root, end).unwrap()[k]@,
            search_link(tree.root, end).unwrap()[k + 1]@,
        ),
        maze.passable(search_link(tree.root, end).unwrap()[k]@),
        maze.passable(search_link(tree.root, end).unwrap()[k + 1]@),
        maze.passable(maze.start@),
{
    let path = search_link(tree.root, end).unwrap();
    let dirs = lemma_search_path(tree, end);
    crate::maze_tree::lemma_tree_root(maze, tree);
    let before = dirs.take(k);
    let d = dirs[k];
    assert(dirs.take(k + 1) =~= before.push(d));
    assert(link_at(tree.root, dirs.take(k)) matches Some(n) && n.elem == path[k]);
    assert(link_at(tree.root, dirs.take(k + 1)) matches Some(n) && n.elem == path[k + 1]);
    lemma_tree_child(maze, tree, before, d);
    assert(step(path[k]@, d) == path[k + 1]@);
    assert(tree.at(before.push(d)) is Some);
    crate::walk::lemma_walk_push(maze, before, d);
    assert(maze.is_walk(before));
    assert(tree.at(before) is Some);
}

/// In the tree of a maze, the path that the search finds runs along the least
/// walk from the start to `end`: no way from the start to `end` is shorter.
/// The walk returned is that walk.
pub proof fn lemma_search_least_walk(
    maze: &Maze,
    tree: QuaternaryTree<Coordinate>,
    end: Coordinate,
) -> (walk: Seq<Direction>)
    requires
        is_maze_tree(maze, tree),
        search_link(tree.root, end) is Some,
    ensures
        maze.is_least_walk(walk),
        maze.walk_end(walk) == end@,
        search_link(tree.root, end).unwrap().len() == walk.len() + 1,
        forall|k: int|
            0 <= k <= walk.len() ==> (#[trigger] search_link(tree.root, end).unwrap()[k])@
                == maze.walk_end(walk.take(k)),
{
    let path = search_link(tree.root, end).unwrap();
    let walk = lemma_search_path(tree, end);
    assert forall|k: int| 0 <= k <= walk.len() implies maze.is_least_walk(walk.take(k)) && (
    #[trigger] path[k])@ == maze.walk_end(walk.take(k)) by {
        assert(link_at(tree.root, walk.take(k)) matches Some(n) && n.elem == path[k]);
        assert(tree.at(walk.take(k)) is Some);
    }
    assert(walk.take(walk.len() as int) =~= walk);
    assert(maze.is_least_walk(walk.take(walk.len() as int)));
    walk
}

} // verus!
