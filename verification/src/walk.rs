use crate::direction::{step, Direction};
use crate::maze::Maze;
use vstd::prelude::*;

verus! {

/// Whether `a` comes before `b` in the order in which the search for the
/// tree of a maze tries walks: a shorter walk comes before a longer one, and
/// of two walks of one length that one comes first which, at the first step
/// where they part, takes the direction that is probed sooner.
pub open spec fn comes_before(a: Seq<Direction>, b: Seq<Direction>) -> bool {
    ||| a.len() < b.len()
    ||| a.len() == b.len() && exists|k: int|
        0 <= k < a.len() && a.take(k) == b.take(k) && a[k].rank() < b[k].rank()
}

/// A number that tells where `walk` stands among all walks: a walk comes
/// before another exactly when its rank is lower, and different walks have
/// different ranks.
pub open spec fn walk_rank(walk: Seq<Direction>) -> nat
    decreases walk.len(),
{
    if walk.len() == 0 {
        0
    } else {
        4 * walk_rank(walk.drop_last()) + walk.last().rank() + 1
    }
}

impl Maze {
    /// The cell to which `walk` leads from the start. It may lie outside the
    /// grid.
    pub open spec fn walk_end(&self, walk: Seq<Direction>) -> (int, int)
        decreases walk.len(),
    {
        if walk.len() == 0 {
            self.start@
        } else {
            step(self.walk_end(walk.drop_last()), walk.last())
        }
    }

    /// Whether `walk` can be taken from the start: the start can be walked
    /// on, and every step leads to a cell of the grid that can be walked on.
    /// The walk without steps can always be taken: it stays at the start,
    /// whatever the start is. From a start that is a wall no step can be
    /// taken.
    pub open spec fn is_walk(&self, walk: Seq<Direction>) -> bool
        decreases walk.len(),
    {
        walk.len() == 0 || (self.passable(self.start@) && self.is_walk(walk.drop_last())
            && self.passable(self.walk_end(walk)))
    }

    /// Whether `walk` can be taken from the start and ends in `cell`.
    pub open spec fn leads_to(&self, walk: Seq<Direction>, cell: (int, int)) -> bool {
        self.is_walk(walk) && self.walk_end(walk) == cell
    }

    /// Whether `cell` can be reached from the start: it is the start, or a
    /// walk leads to it.
    pub open spec fn reachable(&self, cell: (int, int)) -> bool {
        exists|walk: Seq<Direction>| self.leads_to(walk, cell)
    }

    /// Whether `walk` can be taken and no walk to the same cell comes before
    /// it: none is shorter, and none of the same length turns earlier into a
    /// direction that is probed sooner.
    pub open spec fn is_least_walk(&self, walk: Seq<Direction>) -> bool {
        &&& self.is_walk(walk)
        &&& forall|other: Seq<Direction>| #[trigger]
            self.leads_to(other, self.walk_end(walk)) ==> !comes_before(other, walk)
    }

    /// Whether `walk` can be taken and no walk to the same cell has a lower
    /// rank.
    pub open spec fn has_least_rank(&self, walk: Seq<Direction>) -> bool {
        &&& self.is_walk(walk)
        &&& forall|other: Seq<Direction>| #[trigger]
            self.leads_to(other, self.walk_end(walk)) ==> walk_rank(walk) <= walk_rank(other)
    }
}

/// The rank of a walk that has one step more.
pub proof fn lemma_rank_push(walk: Seq<Direction>, d: Direction)
    ensures
        walk_rank(walk.push(d)) == 4 * walk_rank(walk) + d.rank() + 1,
{
    assert(walk.push(d).drop_last() =~= walk);
}

/// Where a walk that has one step more ends, and when it can be taken.
pub proof fn lemma_walk_push(maze: &Maze, walk: Seq<Direction>, d: Direction)
    ensures
        maze.walk_end(walk.push(d)) == step(maze.walk_end(walk), d),
        maze.is_walk(walk.push(d)) <==> maze.passable(maze.start@) && maze.is_walk(walk)
            && maze.passable(step(maze.walk_end(walk), d)),
{
    assert(walk.push(d).drop_last() =~= walk);
}

/// From a start that is a wall only the walk without steps can be taken.
pub proof fn lemma_wall_start(maze: &Maze, walk: Seq<Direction>)
    requires
        !maze.passable(maze.start@),
    ensures
        maze.is_walk(walk) <==> walk.len() == 0,
        maze.is_least_walk(walk) <==> walk.len() == 0,
{
}

/// Different walks have different ranks.
pub proof fn lemma_rank_injective(a: Seq<Direction>, b: Seq<Direction>)
    requires
        walk_rank(a) == walk_rank(b),
    ensures
        a == b,
    decreases a.len(),
{
    if a.len() == 0 || b.len() == 0 {
        assert(a =~= b);
    } else {
        lemma_rank_injective(a.drop_last(), b.drop_last());
        assert(a.last() == b.last());
        assert(a =~= a.drop_last().push(a.last()));
        assert(b =~= b.drop_last().push(b.last()));
    }
}

/// A shorter walk has a lower rank, and of two walks of one length that one
/// has the lower rank which, at the first step where they part, takes the
/// direction that is probed sooner.
proof fn lemma_rank_order(a: Seq<Direction>, b: Seq<Direction>)
    ensures
        a.len() < b.len() ==> walk_rank(a) < walk_rank(b),
        a.len() == b.len() ==> (walk_rank(a) < walk_rank(b) <==> exists|k: int|
            0 <= k < a.len() && a.take(k) == b.take(k) && a[k].rank() < b[k].rank()),
    decreases b.len(),
{
    if b.len() == 0 {
    } else if a.len() == 0 {
    } else if a.len() <= b.len() {
        let a0 = a.drop_last();
        let b0 = b.drop_last();
        lemma_rank_order(a0, b0);
        if a.len() == b.len() {
            let n = a.len() - 1;
            if walk_rank(a) < walk_rank(b) {
                if walk_rank(a0) < walk_rank(b0) {
                    let k = choose|k: int|
                        0 <= k < a0.len() && a0.take(k) == b0.take(k) && a0[k].rank()
                            < b0[k].rank();
                    assert(a.take(k) =~= a0.take(k));
                    assert(b.take(k) =~= b0.take(k));
                    assert(a[k] == a0[k] && b[k] == b0[k]);
                } else {
                    lemma_rank_injective(a0, b0);
                    assert(a.take(n) =~= a0);
                    assert(b.take(n) =~= b0);
                }
            }
            if exists|k: int|
                0 <= k < a.len() && a.take(k) == b.take(k) && a[k].rank() < b[k].rank() {
                let k = choose|k: int|
                    0 <= k < a.len() && a.take(k) == b.take(k) && a[k].rank() < b[k].rank();
                if k < n {
                    assert(a0.take(k) =~= a.take(k));
                    assert(b0.take(k) =~= b.take(k));
                    assert(a[k] == a0[k] && b[k] == b0[k]);
                } else {
                    assert(a.take(n) =~= a0);
                    assert(b.take(n) =~= b0);
                }
            }
        }
    }
}

/// A walk comes before another exactly when its rank is lower.
pub proof fn lemma_comes_before(a: Seq<Direction>, b: Seq<Direction>)
    ensures
        comes_before(a, b) <==> walk_rank(a) < walk_rank(b),
{
    lemma_rank_order(a, b);
    lemma_rank_order(b, a);
}

/// A walk is the least walk to its cell exactly when it has the least rank
/// among the walks to that cell.
pub proof fn lemma_least_walk_rank(maze: &Maze, walk: Seq<Direction>)
    ensures
        maze.is_least_walk(walk) <==> maze.has_least_rank(walk),
{
    if maze.is_least_walk(walk) {
        assert forall|other: Seq<Direction>| #[trigger]
            maze.leads_to(other, maze.walk_end(walk)) implies walk_rank(walk) <= walk_rank(
            other,
        ) by {
            lemma_comes_before(other, walk);
        }
    }
    if maze.has_least_rank(walk) {
        assert forall|other: Seq<Direction>| #[trigger]
            maze.leads_to(other, maze.walk_end(walk)) implies !comes_before(other, walk) by {
            lemma_comes_before(other, walk);
        }
    }
}

/// Among the walks to a cell that can be reached there is a least one.
pub proof fn lemma_least_walk_exists(maze: &Maze, walk: Seq<Direction>) -> (least: Seq<Direction>)
    requires
        maze.is_walk(walk),
    ensures
        maze.is_least_walk(least),
        maze.walk_end(least) == maze.walk_end(walk),
    decreases walk_rank(walk),
{
    if maze.has_least_rank(walk) {
        lemma_least_walk_rank(maze, walk);
        walk
    } else {
        let other = choose|other: Seq<Direction>| #[trigger]
            maze.leads_to(other, maze.walk_end(walk)) && walk_rank(other) < walk_rank(walk);
        lemma_least_walk_exists(maze, other)
    }
}

/// A cell has at most one least walk.
pub proof fn lemma_least_walk_unique(maze: &Maze, a: Seq<Direction>, b: Seq<Direction>)
    requires
        maze.is_least_walk(a),
        maze.is_least_walk(b),
        maze.walk_end(a) == maze.walk_end(b),
    ensures
        a == b,
{
    lemma_least_walk_rank(maze, a);
    lemma_least_walk_rank(maze, b);
    assert(maze.leads_to(a, maze.walk_end(b)));
    assert(maze.leads_to(b, maze.walk_end(a)));
    lemma_rank_injective(a, b);
}

} // verus!
