//! What holds while the tree of a maze is searched for, and why the search
//! ends with that tree.

use crate::arena::{branch, subtree, threaded, Entry};
use crate::direction::{step, Direction};
use crate::maze::{lemma_cell_index, Coordinate, Maze};
use crate::maze_to_tree::{covers, is_open};
use crate::maze_tree::is_maze_tree;
use crate::tree::QuaternaryTree;
use crate::walk::{
    lemma_least_walk_rank, lemma_rank_injective, lemma_rank_push, lemma_walk_push, walk_rank,
};
use vstd::prelude::*;

verus! {

/// The state of the search, with what the proof records beside it.
pub(crate) struct Search {
    /// The nodes found so far, in the order in which they were found.
    pub(crate) nodes: Seq<Entry>,
    /// For each cell of the grid, whether a node holds it: 0 where none does.
    pub(crate) visited: Seq<Vec<u8>>,
    /// The walk that leads from the start to each node.
    pub(crate) paths: Seq<Seq<Direction>>,
    /// The node in one of whose slots each node but the first hangs.
    pub(crate) parents: Seq<int>,
    /// The slot in which each node but the first hangs.
    pub(crate) vias: Seq<Direction>,
    /// The node that holds each visited cell.
    pub(crate) index: Map<(int, int), int>,
    /// The numbers of the visited cells.
    pub(crate) ids: Set<int>,
}

/// Whether the search has visited `cell`.
pub(crate) open spec fn is_marked(visited: Seq<Vec<u8>>, cell: (int, int)) -> bool {
    visited[cell.0]@[cell.1] != 0
}

/// The number of `cell` among the cells of the grid, read row by row.
pub(crate) open spec fn cell_id(maze: &Maze, cell: (int, int)) -> int {
    cell.1 * maze.width + cell.0
}

/// The first node holds the start, and the walk of each node leads to the
/// node's cell.
pub(crate) open spec fn placed(maze: &Maze, s: Search) -> bool {
    &&& s.nodes.len() >= 1
    &&& s.paths.len() == s.nodes.len()
    &&& s.paths[0] == Seq::<Direction>::empty()
    &&& s.nodes[0].cell == maze.start
    &&& forall|i: int|
        0 <= i < s.nodes.len() ==> maze.leads_to(#[trigger] s.paths[i], s.nodes[i].cell@)
}

/// The walks stand in the order of their ranks.
#[verifier::opaque]
pub(crate) open spec fn ordered(paths: Seq<Seq<Direction>>) -> bool {
    forall|i: int, j: int|
        0 <= i < j < paths.len() ==> walk_rank(#[trigger] paths[i]) < walk_rank(
            #[trigger] paths[j],
        )
}

/// The cells of the nodes are visited, and `s.index` names for each visited
/// cell the node that holds it.
pub(crate) open spec fn marked(maze: &Maze, s: Search) -> bool {
    &&& covers(maze, s.visited)
    &&& forall|i: int|
        0 <= i < s.nodes.len() ==> maze.inside((#[trigger] s.nodes[i]).cell@) && is_marked(
            s.visited,
            s.nodes[i].cell@,
        ) && s.index[s.nodes[i].cell@] == i
    &&& forall|c: (int, int)|
        maze.inside(c) && #[trigger] is_marked(s.visited, c) ==> s.index.dom().contains(c) && 0
            <= s.index[c] < s.nodes.len() && s.nodes[s.index[c]].cell@ == c
}

/// Each node but the first hangs in a slot of an earlier one, and its walk is
/// that of its parent with the slot's direction added. No node after `cur`
/// has children yet, and `cur` has none in a slot of rank `bound` or more.
pub(crate) open spec fn linked(s: Search, cur: int, bound: int) -> bool {
    &&& threaded(s.nodes, s.parents, s.vias)
    &&& forall|i: int|
        1 <= i < s.nodes.len() ==> #[trigger] s.paths[i] == s.paths[s.parents[i]].push(s.vias[i])
    &&& forall|i: int|
        1 <= i < s.nodes.len() ==> #[trigger] s.parents[i] <= cur && (s.parents[i] == cur
            ==> s.vias[i].rank() < bound)
}

/// The search may enter no neighbour of a node before `cur`, nor a neighbour
/// of `cur` in a direction of rank below `bound`.
pub(crate) open spec fn closed(maze: &Maze, s: Search, cur: int, bound: int) -> bool {
    forall|j: int, d: Direction|
        0 <= j < s.nodes.len() && (j < cur || (j == cur && d.rank() < bound)) ==> !is_open(
            maze,
            s.visited,
            #[trigger] step(s.nodes[j].cell@, d),
        )
}

/// Where the cell of node `i` lies next to that of node `j` in direction `d`,
/// the walk of `i` has no higher rank than the walk of `j` with `d` added.
pub(crate) open spec fn settled(s: Search, j: int, d: Direction, i: int) -> bool {
    0 <= j < s.nodes.len() && 0 <= i < s.nodes.len() && step(s.nodes[j].cell@, d)
        == s.nodes[i].cell@ ==> walk_rank(s.paths[i]) <= walk_rank(s.paths[j].push(d))
}

/// No node could be reached at a lower rank through another node.
pub(crate) open spec fn relaxed(s: Search) -> bool {
    forall|j: int, d: Direction, i: int| #[trigger] settled(s, j, d, i)
}

/// There are as many nodes as visited cells.
pub(crate) open spec fn counted(maze: &Maze, s: Search) -> bool {
    &&& s.ids.finite()
    &&& s.ids.len() == s.nodes.len()
    &&& forall|k: int| s.ids.contains(k) ==> 0 <= k < maze.width * maze.height
    &&& forall|c: (int, int)|
        maze.inside(c) && s.ids.contains(#[trigger] cell_id(maze, c)) ==> is_marked(s.visited, c)
}

/// What holds while the tree is searched for, from a start that can be
/// walked on: the nodes before `cur` have all their children, and `cur` has
/// those in the directions of rank below `bound`.
pub(crate) open spec fn searching(maze: &Maze, s: Search, cur: int, bound: int) -> bool {
    &&& maze.well_formed()
    &&& maze.passable(maze.start@)
    &&& 0 <= cur <= s.nodes.len()
    &&& 0 <= bound <= 4
    &&& placed(maze, s)
    &&& ordered(s.paths)
    &&& marked(maze, s)
    &&& linked(s, cur, bound)
    &&& closed(maze, s, cur, bound)
    &&& relaxed(s)
    &&& counted(maze, s)
}

/// The state in which the search starts: the start is visited, and the one
/// node holds it.
pub(crate) open spec fn starts(maze: &Maze, s: Search) -> bool {
    &&& s.nodes == seq![
        Entry { cell: maze.start, left: None, right: None, up: None, down: None },
    ]
    &&& covers(maze, s.visited)
    &&& forall|c: (int, int)|
        maze.inside(c) ==> (#[trigger] is_marked(s.visited, c) <==> c == maze.start@)
    &&& s.paths == seq![Seq::<Direction>::empty()]
    &&& s.parents == seq![0int]
    &&& s.vias == seq![Direction::Left]
    &&& s.index == Map::<(int, int), int>::empty().insert(maze.start@, 0int)
    &&& s.ids == Set::<int>::empty().insert(cell_id(maze, maze.start@))
}

/// The search finds `cell` from node `cur` in direction `d`, which takes it
/// from state `s` to state `t`.
pub(crate) open spec fn discovers(
    maze: &Maze,
    s: Search,
    cur: int,
    cell: Coordinate,
    d: Direction,
    t: Search,
) -> bool {
    let n = s.nodes.len() as int;
    &&& 0 <= cur < n <= usize::MAX
    &&& cell@ == step(s.nodes[cur].cell@, d)
    &&& is_open(maze, s.visited, cell@)
    &&& forall|e: Direction|
        e.rank() < d.rank() ==> !is_open(maze, s.visited, #[trigger] step(s.nodes[cur].cell@, e))
    &&& t.nodes == s.nodes.push(
        Entry { cell, left: None, right: None, up: None, down: None },
    ).update(cur, s.nodes[cur].put(d, n as usize))
    &&& covers(maze, t.visited)
    &&& is_marked(t.visited, cell@)
    &&& forall|c: (int, int)|
        maze.inside(c) && c != cell@ ==> (#[trigger] is_marked(t.visited, c) <==> is_marked(
            s.visited,
            c,
        ))
    &&& t.paths == s.paths.push(s.paths[cur].push(d))
    &&& t.parents == s.parents.push(cur)
    &&& t.vias == s.vias.push(d)
    &&& t.index == s.index.insert(cell@, n)
    &&& t.ids == s.ids.insert(cell_id(maze, cell@))
}

proof fn lemma_ordered(paths: Seq<Seq<Direction>>, i: int, j: int)
    requires
        ordered(paths),
        0 <= i < j < paths.len(),
    ensures
        walk_rank(paths[i]) < walk_rank(paths[j]),
{
    reveal(ordered);
}

proof fn lemma_ordered_push(paths: Seq<Seq<Direction>>, fresh: Seq<Direction>)
    requires
        ordered(paths),
        paths.len() > 0,
        walk_rank(paths.last()) < walk_rank(fresh),
    ensures
        ordered(paths.push(fresh)),
{
    reveal(ordered);
    let longer = paths.push(fresh);
    let last = paths.len() - 1;
    assert forall|i: int, j: int| 0 <= i < j < longer.len() implies walk_rank(
        #[trigger] longer[i],
    ) < walk_rank(#[trigger] longer[j]) by {
        if j < paths.len() {
            assert(walk_rank(paths[i]) < walk_rank(paths[j]));
        } else if i < last {
            assert(walk_rank(paths[i]) < walk_rank(paths[last]));
        }
    }
}

/// What holds when the search starts.
pub(crate) proof fn lemma_search_start(maze: &Maze, s: Search)
    requires
        maze.well_formed(),
        maze.passable(maze.start@),
        starts(maze, s),
    ensures
        searching(maze, s, 0, 0),
{
    let w = maze.width as int;
    let h = maze.height as int;
    lemma_cell_index(w, h, maze.start@.0, maze.start@.1);
    assert(ordered(s.paths)) by {
        reveal(ordered);
    }
    assert(is_marked(s.visited, maze.start@));
    assert(relaxed(s)) by {
        assert forall|j: int, d: Direction, i: int| #[trigger] settled(s, j, d, i) by {}
    }
    assert(counted(maze, s)) by {
        assert forall|c: (int, int)|
            maze.inside(c) && s.ids.contains(#[trigger] cell_id(maze, c)) implies is_marked(
            s.visited,
            c,
        ) by {
            lemma_cell_index(w, h, c.0, c.1);
        }
    }
}

/// What finding a cell does to the nodes, and that the cell found from `cur`
/// lies in a direction whose rank is `bound` or more.
proof fn lemma_discover_nodes(
    maze: &Maze,
    s: Search,
    cur: int,
    bound: int,
    cell: Coordinate,
    d: Direction,
    t: Search,
)
    requires
        searching(maze, s, cur, bound),
        discovers(maze, s, cur, cell, d, t),
    ensures
        bound <= d.rank(),
        t.nodes.len() == s.nodes.len() + 1,
        forall|i: int| 0 <= i < s.nodes.len() ==> (#[trigger] t.nodes[i]).cell == s.nodes[i].cell,
        t.nodes[s.nodes.len() as int].cell == cell,
        forall|i: int, e: Direction|
            0 <= i < s.nodes.len() && (i != cur || e != d) ==> (#[trigger] t.nodes[i].slot(e))
                == s.nodes[i].slot(e),
        t.nodes[cur].slot(d) == Some(s.nodes.len() as usize),
        forall|e: Direction| (#[trigger] t.nodes[s.nodes.len() as int].slot(e)) is None,
{
    if d.rank() < bound {
        assert(!is_open(maze, s.visited, step(s.nodes[cur].cell@, d)));
    }
}

proof fn lemma_discover_placed(
    maze: &Maze,
    s: Search,
    cur: int,
    bound: int,
    cell: Coordinate,
    d: Direction,
    t: Search,
)
    requires
        searching(maze, s, cur, bound),
        discovers(maze, s, cur, cell, d, t),
    ensures
        placed(maze, t),
{
    lemma_discover_nodes(maze, s, cur, bound, cell, d, t);
    let n = s.nodes.len() as int;
    assert forall|i: int| 0 <= i < t.nodes.len() implies maze.leads_to(
        #[trigger] t.paths[i],
        t.nodes[i].cell@,
    ) by {
        if i < n {
            assert(t.paths[i] == s.paths[i]);
            assert(maze.leads_to(s.paths[i], s.nodes[i].cell@));
        } else {
            assert(maze.leads_to(s.paths[cur], s.nodes[cur].cell@));
            lemma_walk_push(maze, s.paths[cur], d);
        }
    }
}

proof fn lemma_discover_ordered(
    maze: &Maze,
    s: Search,
    cur: int,
    bound: int,
    cell: Coordinate,
    d: Direction,
    t: Search,
)
    requires
        searching(maze, s, cur, bound),
        discovers(maze, s, cur, cell, d, t),
    ensures
        ordered(t.paths),
{
    lemma_discover_nodes(maze, s, cur, bound, cell, d, t);
    let last = s.nodes.len() - 1;
    let fresh = s.paths[cur].push(d);
    lemma_rank_push(s.paths[cur], d);
    // The walk of the node found last has a lower rank than the new walk:
    // that node is `cur`, or an earlier child of `cur`, or the child of an
    // earlier node.
    if last != cur {
        let p = s.parents[last];
        assert(s.paths[last] == s.paths[p].push(s.vias[last]));
        lemma_rank_push(s.paths[p], s.vias[last]);
        if p < cur {
            lemma_ordered(s.paths, p, cur);
        }
    }
    lemma_ordered_push(s.paths, fresh);
}

proof fn lemma_discover_marked(
    maze: &Maze,
    s: Search,
    cur: int,
    bound: int,
    cell: Coordinate,
    d: Direction,
    t: Search,
)
    requires
        searching(maze, s, cur, bound),
        discovers(maze, s, cur, cell, d, t),
    ensures
        marked(maze, t),
{
    lemma_discover_nodes(maze, s, cur, bound, cell, d, t);
    let n = s.nodes.len() as int;
    assert forall|i: int| 0 <= i < t.nodes.len() implies maze.inside((#[trigger] t.nodes[i]).cell@)
        && is_marked(t.visited, t.nodes[i].cell@) && t.index[t.nodes[i].cell@] == i by {
        if i < n {
            assert(maze.inside(s.nodes[i].cell@) && is_marked(s.visited, s.nodes[i].cell@)
                && s.index[s.nodes[i].cell@] == i);
            if s.nodes[i].cell@ != cell@ {
                assert(is_marked(t.visited, s.nodes[i].cell@));
            }
        }
    }
    assert forall|c: (int, int)|
        maze.inside(c) && #[trigger] is_marked(t.visited, c) implies t.index.dom().contains(c)
        && 0 <= t.index[c] < t.nodes.len() && t.nodes[t.index[c]].cell@ == c by {
        if c != cell@ {
            assert(is_marked(s.visited, c));
        }
    }
}

proof fn lemma_discover_linked(
    maze: &Maze,
    s: Search,
    cur: int,
    bound: int,
    cell: Coordinate,
    d: Direction,
    t: Search,
)
    requires
        searching(maze, s, cur, bound),
        discovers(maze, s, cur, cell, d, t),
    ensures
        linked(t, cur, d.rank() as int + 1),
{
    lemma_discover_nodes(maze, s, cur, bound, cell, d, t);
    let n = s.nodes.len() as int;
    // The slot that the new node takes was empty: a child in it would hold
    // the new cell, which has not been visited.
    assert(s.nodes[cur].slot(d) is None) by {
        if let Some(child) = s.nodes[cur].slot(d) {
            let i = child as int;
            assert(s.paths[i] == s.paths[cur].push(d));
            lemma_walk_push(maze, s.paths[cur], d);
            assert(maze.leads_to(s.paths[i], s.nodes[i].cell@));
            assert(maze.leads_to(s.paths[cur], s.nodes[cur].cell@));
            assert(is_marked(s.visited, s.nodes[i].cell@));
        }
    }
    assert forall|j: int, e: Direction| 0 <= j < t.nodes.len() implies (
    #[trigger] t.nodes[j].slot(e) matches Some(child) ==> j < child < t.nodes.len()
        && t.parents[child as int] == j && t.vias[child as int] == e) by {
        if j < n && (j != cur || e != d) {
            assert(t.nodes[j].slot(e) == s.nodes[j].slot(e));
        }
    }
    assert forall|i: int| 1 <= i < t.nodes.len() implies 0 <= #[trigger] t.parents[i] < i
        && t.nodes[t.parents[i]].slot(t.vias[i]) == Some(i as usize) by {
        if i < n {
            let p = s.parents[i];
            assert(0 <= p < i && s.nodes[p].slot(s.vias[i]) == Some(i as usize));
            assert(t.nodes[p].slot(s.vias[i]) == s.nodes[p].slot(s.vias[i]));
        }
    }
    assert forall|i: int| 1 <= i < t.nodes.len() implies #[trigger] t.paths[i]
        == t.paths[t.parents[i]].push(t.vias[i]) by {
        if i < n {
            assert(s.paths[i] == s.paths[s.parents[i]].push(s.vias[i]));
            assert(0 <= s.parents[i] < i);
        }
    }
    assert forall|i: int| 1 <= i < t.nodes.len() implies #[trigger] t.parents[i] <= cur && (
    t.parents[i] == cur ==> t.vias[i].rank() < d.rank() as int + 1) by {
        if i < n {
            assert(s.parents[i] <= cur && (s.parents[i] == cur ==> s.vias[i].rank() < bound));
        }
    }
}

proof fn lemma_discover_closed(
    maze: &Maze,
    s: Search,
    cur: int,
    bound: int,
    cell: Coordinate,
    d: Direction,
    t: Search,
)
    requires
        searching(maze, s, cur, bound),
        discovers(maze, s, cur, cell, d, t),
    ensures
        closed(maze, t, cur, d.rank() as int + 1),
{
    lemma_discover_nodes(maze, s, cur, bound, cell, d, t);
    assert forall|j: int, e: Direction|
        0 <= j < t.nodes.len() && (j < cur || (j == cur && e.rank() < d.rank() as int
            + 1)) implies !is_open(maze, t.visited, #[trigger] step(t.nodes[j].cell@, e)) by {
        let c = step(s.nodes[j].cell@, e);
        assert(t.nodes[j].cell == s.nodes[j].cell);
        if maze.passable(c) && c != cell@ {
            assert(!is_open(maze, s.visited, step(s.nodes[j].cell@, e)));
            assert(is_marked(s.visited, c));
            assert(is_marked(t.visited, c));
        }
    }
}

proof fn lemma_discover_relaxed(
    maze: &Maze,
    s: Search,
    cur: int,
    bound: int,
    cell: Coordinate,
    d: Direction,
    t: Search,
)
    requires
        searching(maze, s, cur, bound),
        discovers(maze, s, cur, cell, d, t),
        ordered(t.paths),
    ensures
        relaxed(t),
{
    lemma_discover_nodes(maze, s, cur, bound, cell, d, t);
    let n = s.nodes.len() as int;
    assert forall|j: int, e: Direction, i: int| #[trigger] settled(t, j, e, i) by {
        if 0 <= j < t.nodes.len() && 0 <= i < t.nodes.len() && step(t.nodes[j].cell@, e)
            == t.nodes[i].cell@ {
            lemma_rank_push(t.paths[j], e);
            if i == n {
                // The new cell lies next to no node before `cur`, whose
                // neighbours are all visited; and the nodes after `cur` have
                // walks of higher rank than `cur`.
                if j < cur {
                    assert(!is_open(maze, s.visited, step(s.nodes[j].cell@, e)));
                } else if j == cur {
                    assert(e == d);
                } else if j < n {
                    lemma_ordered(s.paths, cur, j);
                    lemma_rank_push(s.paths[cur], d);
                }
            } else if j == n {
                lemma_ordered(t.paths, i, j);
            } else {
                assert(settled(s, j, e, i));
            }
        }
    }
}

proof fn lemma_discover_counted(
    maze: &Maze,
    s: Search,
    cur: int,
    bound: int,
    cell: Coordinate,
    d: Direction,
    t: Search,
)
    requires
        searching(maze, s, cur, bound),
        discovers(maze, s, cur, cell, d, t),
    ensures
        counted(maze, t),
{
    lemma_discover_nodes(maze, s, cur, bound, cell, d, t);
    let w = maze.width as int;
    let h = maze.height as int;
    lemma_cell_index(w, h, cell@.0, cell@.1);
    assert(!s.ids.contains(cell_id(maze, cell@)));
    assert forall|c: (int, int)|
        maze.inside(c) && t.ids.contains(#[trigger] cell_id(maze, c)) implies is_marked(
        t.visited,
        c,
    ) by {
        lemma_cell_index(w, h, c.0, c.1);
        if c != cell@ {
            assert(s.ids.contains(cell_id(maze, c)));
            assert(is_marked(s.visited, c));
        }
    }
}

/// Finding a cell keeps what holds while the tree is searched for.
pub(crate) proof fn lemma_discover(
    maze: &Maze,
    s: Search,
    cur: int,
    bound: int,
    cell: Coordinate,
    d: Direction,
    t: Search,
)
    requires
        searching(maze, s, cur, bound),
        discovers(maze, s, cur, cell, d, t),
    ensures
        searching(maze, t, cur, d.rank() as int + 1),
        bound <= d.rank(),
{
    lemma_discover_nodes(maze, s, cur, bound, cell, d, t);
    lemma_discover_placed(maze, s, cur, bound, cell, d, t);
    lemma_discover_ordered(maze, s, cur, bound, cell, d, t);
    lemma_discover_marked(maze, s, cur, bound, cell, d, t);
    lemma_discover_linked(maze, s, cur, bound, cell, d, t);
    lemma_discover_closed(maze, s, cur, bound, cell, d, t);
    lemma_discover_relaxed(maze, s, cur, bound, cell, d, t);
    lemma_discover_counted(maze, s, cur, bound, cell, d, t);
}

/// Once the search may enter no neighbour of `cur`, it has done with `cur`
/// whatever it has probed.
pub(crate) proof fn lemma_search_none(maze: &Maze, s: Search, cur: int, bound: int)
    requires
        searching(maze, s, cur, bound),
        cur < s.nodes.len(),
        forall|e: Direction| !is_open(maze, s.visited, #[trigger] step(s.nodes[cur].cell@, e)),
    ensures
        searching(maze, s, cur, 4),
{
    assert forall|i: int| 1 <= i < s.nodes.len() implies #[trigger] s.parents[i] <= cur && (
    s.parents[i] == cur ==> s.vias[i].rank() < 4) by {
        assert(s.vias[i].rank() < 4);
    }
}

/// Once the neighbours of `cur` have been probed in every direction, the
/// search goes on to the next node.
pub(crate) proof fn lemma_search_next(maze: &Maze, s: Search, cur: int)
    requires
        searching(maze, s, cur, 4),
        cur < s.nodes.len(),
    ensures
        searching(maze, s, cur + 1, 0),
{
    assert forall|j: int, d: Direction|
        0 <= j < s.nodes.len() && (j < cur + 1 || (j == cur + 1 && d.rank() < 0)) implies !is_open(
        maze,
        s.visited,
        #[trigger] step(s.nodes[j].cell@, d),
    ) by {
        assert(d.rank() < 4);
    }
    assert forall|i: int| 1 <= i < s.nodes.len() implies #[trigger] s.parents[i] <= cur + 1 && (
    s.parents[i] == cur + 1 ==> s.vias[i].rank() < 0) by {
        assert(s.parents[i] <= cur);
    }
}

/// The search never has more nodes than the grid has cells.
pub(crate) proof fn lemma_search_size(maze: &Maze, s: Search, cur: int, bound: int)
    requires
        searching(maze, s, cur, bound),
    ensures
        s.nodes.len() <= maze.width * maze.height,
{
    let cells = maze.width * maze.height;
    assert(0 <= cells) by (nonlinear_arith)
        requires
            cells == maze.width * maze.height,
    ;
    vstd::set_lib::lemma_int_range(0, cells);
    assert(s.ids.subset_of(vstd::set_lib::set_int_range(0, cells)));
    vstd::set_lib::lemma_len_subset(s.ids, vstd::set_lib::set_int_range(0, cells));
}

/// When the search is over, every cell to which a walk leads is held by a
/// node whose own walk has no higher rank.
proof fn lemma_found(maze: &Maze, s: Search, walk: Seq<Direction>) -> (i: int)
    requires
        searching(maze, s, s.nodes.len() as int, 0),
        maze.is_walk(walk),
    ensures
        0 <= i < s.nodes.len(),
        s.nodes[i].cell@ == maze.walk_end(walk),
        walk_rank(s.paths[i]) <= walk_rank(walk),
    decreases walk.len(),
{
    if walk.len() == 0 {
        0
    } else {
        let d = walk.last();
        let j = lemma_found(maze, s, walk.drop_last());
        let c = maze.walk_end(walk);
        assert(!is_open(maze, s.visited, step(s.nodes[j].cell@, d)));
        assert(is_marked(s.visited, c));
        let i = s.index[c];
        assert(settled(s, j, d, i));
        lemma_rank_push(s.paths[j], d);
        i
    }
}

/// When the search is over, the walk of every node is the least walk to the
/// node's cell.
proof fn lemma_paths_least(maze: &Maze, s: Search, i: int)
    requires
        searching(maze, s, s.nodes.len() as int, 0),
        0 <= i < s.nodes.len(),
    ensures
        maze.is_least_walk(s.paths[i]),
        maze.walk_end(s.paths[i]) == s.nodes[i].cell@,
{
    assert(maze.leads_to(s.paths[i], s.nodes[i].cell@));
    assert forall|other: Seq<Direction>| #[trigger]
        maze.leads_to(other, maze.walk_end(s.paths[i])) implies walk_rank(s.paths[i])
        <= walk_rank(other) by {
        let k = lemma_found(maze, s, other);
        assert(s.index[s.nodes[k].cell@] == k);
        assert(s.index[s.nodes[i].cell@] == i);
    }
    lemma_least_walk_rank(maze, s.paths[i]);
}

/// What a path leads to in the tree that hangs at the first node: the tree at
/// the node whose walk the path is, or nothing where no node has that walk.
proof fn lemma_position(
    maze: &Maze,
    s: Search,
    cur: int,
    bound: int,
    walk: Seq<Direction>,
) -> (found: Option<int>)
    requires
        placed(maze, s),
        ordered(s.paths),
        linked(s, cur, bound),
    ensures
        match found {
            Some(i) => 0 <= i < s.nodes.len() && s.paths[i] == walk && subtree(s.nodes, 0).at(walk)
                == Some(subtree(s.nodes, i)),
            None => subtree(s.nodes, 0).at(walk) is None && forall|i: int|
                0 <= i < s.nodes.len() ==> #[trigger] s.paths[i] != walk,
        },
    decreases walk.len(),
{
    if walk.len() == 0 {
        assert(s.paths[0] =~= walk);
        Some(0)
    } else {
        let front = walk.drop_last();
        let d = walk.last();
        assert(walk =~= front.push(d));
        match lemma_position(maze, s, cur, bound, front) {
            None => {
                assert forall|i: int| 0 <= i < s.nodes.len() implies #[trigger] s.paths[i]
                    != walk by {
                    if s.paths[i] == walk {
                        let p = s.parents[i];
                        assert(s.paths[i] == s.paths[p].push(s.vias[i]));
                        assert(s.paths[p].push(s.vias[i]).drop_last() =~= s.paths[p]);
                        assert(s.paths[p] == front);
                    }
                }
                None
            },
            Some(j) => {
                assert(subtree(s.nodes, j).child(d) == branch(s.nodes, j, d));
                match s.nodes[j].slot(d) {
                    Some(child) => {
                        let c = child as int;
                        assert(s.paths[c] == s.paths[s.parents[c]].push(s.vias[c]));
                        Some(c)
                    },
                    None => {
                        // A node with this walk would hang in slot `d` of the
                        // one node whose walk is `front`.
                        assert forall|i: int| 0 <= i < s.nodes.len() implies #[trigger] s.paths[i]
                            != walk by {
                            if s.paths[i] == walk {
                                let p = s.parents[i];
                                assert(s.paths[i] == s.paths[p].push(s.vias[i]));
                                assert(s.paths[p].push(s.vias[i]).drop_last() =~= s.paths[p]);
                                assert(s.paths[p].push(s.vias[i]).last() == s.vias[i]);
                                assert(s.paths[p] == front);
                                if p < j {
                                    lemma_ordered(s.paths, p, j);
                                }
                                if j < p {
                                    lemma_ordered(s.paths, j, p);
                                }
                                assert(s.nodes[p].slot(s.vias[i]) == Some(i as usize));
                            }
                        }
                        None
                    },
                }
            },
        }
    }
}

/// When the search is over, the tree that hangs at the first node is the tree
/// of the maze.
pub(crate) proof fn lemma_search_done(maze: &Maze, s: Search, tree: QuaternaryTree<Coordinate>)
    requires
        searching(maze, s, s.nodes.len() as int, 0),
        tree.root == Some(Box::new(subtree(s.nodes, 0))),
    ensures
        is_maze_tree(maze, tree),
{
    let n = s.nodes.len() as int;
    assert forall|walk: Seq<Direction>|
        match #[trigger] tree.at(walk) {
            Some(node) => maze.is_least_walk(walk) && node.elem@ == maze.walk_end(walk),
            None => !maze.is_least_walk(walk),
        } by {
        assert(tree.at(walk) == subtree(s.nodes, 0).at(walk));
        match lemma_position(maze, s, n, 0, walk) {
            Some(i) => {
                lemma_paths_least(maze, s, i);
            },
            None => {
                if maze.is_least_walk(walk) {
                    // Some node holds the cell, and its walk has no higher
                    // rank, so that it is this walk.
                    lemma_least_walk_rank(maze, walk);
                    let k = lemma_found(maze, s, walk);
                    assert(maze.leads_to(s.paths[k], s.nodes[k].cell@));
                    assert(maze.leads_to(s.paths[k], maze.walk_end(walk)));
                    lemma_rank_injective(s.paths[k], walk);
                }
            },
        }
    }
}

} // verus!
