use crate::arena::{assemble, Entry};
use crate::direction::{step, Direction};
use crate::maze::{Coordinate, Maze};
use crate::maze_tree::{
    is_maze_tree, lemma_tree_holds_once, lemma_tree_holds_reachable, lemma_tree_root,
    lemma_wall_start_tree,
};
use crate::search::{
    cell_id, is_marked, lemma_discover, lemma_search_done, lemma_search_next, lemma_search_none,
    lemma_search_size, lemma_search_start, searching, Search,
};
use crate::tree::{link_size, Node, QuaternaryTree};
use std::collections::VecDeque;
use vstd::prelude::*;

verus! {

/// Whether `visited` has one entry for each cell of the grid of `maze`.
pub open spec fn covers(maze: &Maze, visited: Seq<Vec<u8>>) -> bool {
    &&& visited.len() == maze.width
    &&& forall|x: int| 0 <= x < maze.width ==> (#[trigger] visited[x])@.len() == maze.height
}

/// Whether the search may enter `cell`: it lies in the grid, can be walked on
/// and has not been visited yet.
pub open spec fn is_open(maze: &Maze, visited: Seq<Vec<u8>>, cell: (int, int)) -> bool {
    maze.passable(cell) && visited[cell.0]@[cell.1] == 0
}

/// The neighbour of `tile` in direction `d`, if the search may enter it.
fn probe(tile: Coordinate, maze: &Maze, visited_tiles: &Vec<Vec<u8>>, d: Direction) -> (found:
    Option<Coordinate>)
    requires
        maze.shaped(),
        covers(maze, visited_tiles@),
    ensures
        found is Some <==> is_open(maze, visited_tiles@, step(tile@, d)),
        found matches Some(cell) ==> cell@ == step(tile@, d),
{
    let next = match d {
        Direction::Left => if tile.x > 0 {
            Some(Coordinate::new(tile.x - 1, tile.y))
        } else {
            None
        },
        Direction::Right => if tile.x < usize::MAX {
            Some(Coordinate::new(tile.x + 1, tile.y))
        } else {
            None
        },
        Direction::Up => if tile.y > 0 {
            Some(Coordinate::new(tile.x, tile.y - 1))
        } else {
            None
        },
        Direction::Down => if tile.y < usize::MAX {
            Some(Coordinate::new(tile.x, tile.y + 1))
        } else {
            None
        },
    };
    match next {
        Some(cell) => {
            if maze.is_passable(cell) && visited_tiles[cell.x][cell.y] == 0 {
                Some(cell)
            } else {
                None
            }
        },
        None => None,
    }
}

/// Gets an adjacent unvisited tile that is not a wall: the first that the
/// search may enter among the neighbours of `tile` to the left, to the right,
/// above and below, in this order. The direction leads from `tile` to it.
pub fn get_adjacent_unvisited_tile(
    tile: Coordinate,
    maze: &Maze,
    visited_tiles: &Vec<Vec<u8>>,
) -> (found: Option<(Coordinate, Direction)>)
    requires
        maze.shaped(),
        covers(maze, visited_tiles@),
    ensures
        match found {
            Some((cell, d)) => {
                &&& cell@ == step(tile@, d)
                &&& is_open(maze, visited_tiles@, cell@)
                &&& forall|e: Direction|
                    e.rank() < d.rank() ==> !is_open(
                        maze,
                        visited_tiles@,
                        #[trigger] step(tile@, e),
                    )
            },
            None => forall|e: Direction| !is_open(maze, visited_tiles@, #[trigger] step(tile@, e)),
        },
{
    if let Some(cell) = probe(tile, maze, visited_tiles, Direction::Left) {
        return Some((cell, Direction::Left));
    }
    if let Some(cell) = probe(tile, maze, visited_tiles, Direction::Right) {
        return Some((cell, Direction::Right));
    }
    if let Some(cell) = probe(tile, maze, visited_tiles, Direction::Up) {
        return Some((cell, Direction::Up));
    }
    if let Some(cell) = probe(tile, maze, visited_tiles, Direction::Down) {
        return Some((cell, Direction::Down));
    }
    None
}

/// The indices from `from` up to `to`, in their order.
spec fn waiting(from: int, to: int) -> Seq<usize> {
    Seq::new((to - from) as nat, |k: int| (from + k) as usize)
}

/// A record of visits in which no cell of the grid has been visited.
fn blank(maze: &Maze) -> (visited: Vec<Vec<u8>>)
    ensures
        covers(maze, visited@),
        forall|c: (int, int)| maze.inside(c) ==> !#[trigger] is_marked(visited@, c),
{
    let mut visited: Vec<Vec<u8>> = Vec::new();
    let mut x: usize = 0;
    while x < maze.width
        invariant
            x <= maze.width,
            visited@.len() == x,
            forall|i: int| 0 <= i < x ==> (#[trigger] visited@[i])@.len() == maze.height,
            forall|i: int, j: int|
                0 <= i < x && 0 <= j < maze.height ==> #[trigger] visited@[i]@[j] == 0,
        decreases maze.width - x,
    {
        visited.push(vec![0u8; maze.height]);
        x = x + 1;
    }
    visited
}

/// Records the visit of `cell`.
fn mark(maze: &Maze, visited: &mut Vec<Vec<u8>>, cell: Coordinate)
    requires
        covers(maze, old(visited)@),
        maze.inside(cell@),
    ensures
        covers(maze, final(visited)@),
        is_marked(final(visited)@, cell@),
        forall|c: (int, int)|
            maze.inside(c) && c != cell@ ==> (#[trigger] is_marked(final(visited)@, c)
                <==> is_marked(old(visited)@, c)),
{
    visited[cell.x][cell.y] = 1;
}

/// What holds of the tree of a maze: it has a root, which holds the start; it
/// holds the cells that can be reached and no others; and it holds none
/// twice.
proof fn lemma_tree_laws(maze: &Maze, tree: QuaternaryTree<Coordinate>)
    requires
        is_maze_tree(maze, tree),
    ensures
        tree.root matches Some(root) && root.elem == maze.start,
        forall|cell: Coordinate| #[trigger] tree.contains(cell) <==> maze.reachable(cell@),
        forall|a: Seq<Direction>, b: Seq<Direction>, cell: Coordinate|
            #[trigger] tree.holds_at(a, cell) && #[trigger] tree.holds_at(b, cell) ==> a == b,
{
    lemma_tree_root(maze, tree);
    assert forall|cell: Coordinate| #[trigger] tree.contains(cell) <==> maze.reachable(
        cell@,
    ) by {
        lemma_tree_holds_reachable(maze, tree, cell);
    }
    assert forall|a: Seq<Direction>, b: Seq<Direction>, cell: Coordinate|
        #[trigger] tree.holds_at(a, cell) && #[trigger] tree.holds_at(b, cell) implies a == b by {
        lemma_tree_holds_once(maze, tree, a, b, cell);
    }
}

/// Lays out the cells of `maze` that can be reached from its start as a
/// tree. The root holds the start. The search goes through the nodes in the
/// order in which it has found them, beginning with the root, and gives each
/// the neighbours of its cell that no node holds yet as children, probing to
/// the left, to the right, above and below in this order. Where the start
/// is a wall, nothing can be reached from it, and the tree is the root alone.
///
/// The tree that comes out is the tree of the maze, which is one tree only.
/// It holds the cells that can be reached from the start and no others, and
/// none of them twice, so that it has no more nodes than the grid has cells.
pub fn maze_to_tree(maze: &Maze) -> (tree: QuaternaryTree<Coordinate>)
    requires
        maze.well_formed(),
    ensures
        is_maze_tree(maze, tree),
        tree.root matches Some(root) && root.elem == maze.start,
        forall|cell: Coordinate| #[trigger] tree.contains(cell) <==> maze.reachable(cell@),
        forall|a: Seq<Direction>, b: Seq<Direction>, cell: Coordinate|
            #[trigger] tree.holds_at(a, cell) && #[trigger] tree.holds_at(b, cell) ==> a == b,
        !maze.passable(maze.start@) ==> tree.root == Some(
            Box::new(
                Node { elem: maze.start, left: None, right: None, up: None, down: None },
            ),
        ),
        tree.size() <= maze.width * maze.height,
{
    if !maze.is_passable(maze.start) {
        let tree = QuaternaryTree { root: Some(Box::new(Node::new(maze.start))) };
        proof {
            lemma_wall_start_tree(maze, tree);
            lemma_tree_laws(maze, tree);
            assert(tree.size() == 1) by {
                let root = tree.root.unwrap();
                assert(link_size(tree.root) == root.size());
                assert(link_size(root.left) == 0 && link_size(root.right) == 0 && link_size(
                    root.up,
                ) == 0 && link_size(root.down) == 0);
            }
            assert(1 <= maze.width * maze.height) by (nonlinear_arith)
                requires
                    maze.width >= 1,
                    maze.height >= 1,
            ;
        }
        return tree;
    }
    let mut visited_tiles = blank(maze);
    mark(maze, &mut visited_tiles, maze.start);
    let mut nodes: Vec<Entry> = Vec::new();
    nodes.push(Entry::fresh(maze.start));
    let mut junctions: VecDeque<usize> = VecDeque::new();
    junctions.push_back(0);
    let ghost mut s = Search {
        nodes: nodes@,
        visited: visited_tiles@,
        paths: seq![Seq::<Direction>::empty()],
        parents: seq![0int],
        vias: seq![Direction::Left],
        index: Map::<(int, int), int>::empty().insert(maze.start@, 0int),
        ids: Set::<int>::empty().insert(cell_id(maze, maze.start@)),
    };
    let ghost mut expanded: int = 0;
    proof {
        assert(nodes@ =~= seq![
            Entry { cell: maze.start, left: None, right: None, up: None, down: None },
        ]);
        assert(maze.passable(maze.start@));
        lemma_search_start(maze, s);
        assert(junctions@ =~= waiting(0, 1));
    }
    while junctions.len() > 0
        invariant
            s.nodes == nodes@,
            s.visited == visited_tiles@,
            searching(maze, s, expanded, 0),
            junctions@ == waiting(expanded, nodes@.len() as int),
        decreases maze.width * maze.height - expanded,
    {
        let ghost queued = junctions@;
        let cur = junctions.pop_front().unwrap();
        proof {
            assert(0 <= expanded < nodes.len());
            assert(queued[0] == (expanded + 0) as usize);
            assert(junctions@ =~= waiting(expanded + 1, nodes@.len() as int));
            lemma_search_size(maze, s, expanded, 0);
        }
        let tile = nodes[cur].cell;
        let ghost mut bound: int = 0;
        let mut probes: usize = 0;
        while probes < 4
            invariant
                probes <= 4,
                probes <= bound,
                cur == expanded,
                cur < nodes@.len(),
                tile == nodes@[cur as int].cell,
                s.nodes == nodes@,
                s.visited == visited_tiles@,
                searching(maze, s, cur as int, bound),
                junctions@ == waiting(cur + 1, nodes@.len() as int),
            decreases 4 - probes,
        {
            match get_adjacent_unvisited_tile(tile, maze, &visited_tiles) {
                Some((cell, d)) => {
                    mark(maze, &mut visited_tiles, cell);
                    let child = nodes.len();
                    nodes.push(Entry::fresh(cell));
                    let parent = nodes[cur].with_child(d, child);
                    nodes[cur] = parent;
                    junctions.push_back(child);
                    proof {
                        let t = Search {
                            nodes: nodes@,
                            visited: visited_tiles@,
                            paths: s.paths.push(s.paths[cur as int].push(d)),
                            parents: s.parents.push(cur as int),
                            vias: s.vias.push(d),
                            index: s.index.insert(cell@, child as int),
                            ids: s.ids.insert(cell_id(maze, cell@)),
                        };
                        assert(t.nodes =~= s.nodes.push(
                            Entry { cell, left: None, right: None, up: None, down: None },
                        ).update(cur as int, s.nodes[cur as int].put(d, child)));
                        lemma_discover(maze, s, cur as int, bound, cell, d, t);
                        s = t;
                        bound = d.rank() as int + 1;
                        assert(junctions@ =~= waiting(cur + 1, nodes@.len() as int));
                    }
                },
                None => {
                    proof {
                        lemma_search_none(maze, s, cur as int, bound);
                        bound = 4;
                    }
                },
            }
            probes = probes + 1;
        }
        proof {
            lemma_search_next(maze, s, cur as int);
            expanded = expanded + 1;
        }
    }
    let tree = assemble(&nodes, Ghost(s.parents), Ghost(s.vias));
    proof {
        lemma_search_done(maze, s, tree);
        lemma_tree_laws(maze, tree);
        lemma_search_size(maze, s, expanded, 0);
    }
    tree
}

} // verus!
