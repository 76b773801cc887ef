use crate::direction::Direction;
use crate::maze::Coordinate;
use crate::tree::{link_size, Link, Node, QuaternaryTree};
use vstd::prelude::*;

verus! {

/// A node of a tree whose nodes stand in a row and name their children by
/// their places in the row: the cell it holds and, for each direction, the
/// index of the child in that slot.
#[derive(Copy, Clone)]
pub(crate) struct Entry {
    pub(crate) cell: Coordinate,
    pub(crate) left: Option<usize>,
    pub(crate) right: Option<usize>,
    pub(crate) up: Option<usize>,
    pub(crate) down: Option<usize>,
}

impl Entry {
    /// The index of the child in the slot for direction `d`.
    pub(crate) open spec fn slot(self, d: Direction) -> Option<usize> {
        match d {
            Direction::Left => self.left,
            Direction::Right => self.right,
            Direction::Up => self.up,
            Direction::Down => self.down,
        }
    }

    /// This entry with `child` in the slot for direction `d`.
    pub(crate) open spec fn put(self, d: Direction, child: usize) -> Entry {
        match d {
            Direction::Left => Entry { left: Some(child), ..self },
            Direction::Right => Entry { right: Some(child), ..self },
            Direction::Up => Entry { up: Some(child), ..self },
            Direction::Down => Entry { down: Some(child), ..self },
        }
    }

    /// An entry without children.
    pub(crate) fn fresh(cell: Coordinate) -> (entry: Entry)
        ensures
            entry == (Entry { cell, left: None, right: None, up: None, down: None }),
    {
        Entry { cell: cell, left: None, right: None, up: None, down: None }
    }

    /// This entry with `child` in the slot for direction `d`.
    pub(crate) fn with_child(self, d: Direction, child: usize) -> (entry: Entry)
        ensures
            entry == self.put(d, child),
    {
        match d {
            Direction::Left => Entry { left: Some(child), ..self },
            Direction::Right => Entry { right: Some(child), ..self },
            Direction::Up => Entry { up: Some(child), ..self },
            Direction::Down => Entry { down: Some(child), ..self },
        }
    }
}

/// The tree that hangs at entry `i`: the entry's cell and, in each slot, the
/// tree that hangs at the child named there.
pub(crate) open spec fn subtree(nodes: Seq<Entry>, i: int) -> Node<Coordinate>
    decreases nodes.len() - i, 1nat,
{
    Node {
        elem: nodes[i].cell,
        left: branch(nodes, i, Direction::Left),
        right: branch(nodes, i, Direction::Right),
        up: branch(nodes, i, Direction::Up),
        down: branch(nodes, i, Direction::Down),
    }
}

/// What hangs in slot `d` of the tree at entry `i`.
pub(crate) open spec fn branch(nodes: Seq<Entry>, i: int, d: Direction) -> Link<Coordinate>
    decreases nodes.len() - i, 0nat,
{
    match nodes[i].slot(d) {
        Some(child) => if i < child < nodes.len() {
            Some(Box::new(subtree(nodes, child as int)))
        } else {
            None
        },
        None => None,
    }
}

/// Every child comes after its parent, and every entry but the first hangs
/// in one slot only: slot `vias[i]` of entry `parents[i]`.
pub(crate) open spec fn threaded(
    nodes: Seq<Entry>,
    parents: Seq<int>,
    vias: Seq<Direction>,
) -> bool {
    &&& parents.len() == nodes.len()
    &&& vias.len() == nodes.len()
    &&& forall|j: int, d: Direction|
        0 <= j < nodes.len() ==> (#[trigger] nodes[j].slot(d) matches Some(child) ==> j < child
            < nodes.len() && parents[child as int] == j && vias[child as int] == d)
    &&& forall|i: int|
        1 <= i < nodes.len() ==> 0 <= #[trigger] parents[i] < i && nodes[parents[i]].slot(vias[i])
            == Some(i as usize)
}

/// What the assembly holds for entry `j` once the entries from `i` on have
/// been made into trees: nothing yet for an earlier entry, the finished tree
/// for one that still waits for its parent, and nothing for one that its
/// parent has taken.
spec fn stock(nodes: Seq<Entry>, parents: Seq<int>, i: int, j: int) -> Link<Coordinate> {
    if j < i || (j > 0 && parents[j] >= i) {
        None
    } else {
        Some(Box::new(subtree(nodes, j)))
    }
}

/// The number of nodes in all the trees of `built`.
spec fn total(built: Seq<Link<Coordinate>>) -> nat
    decreases built.len(),
{
    if built.len() == 0 {
        0
    } else {
        total(built.drop_last()) + link_size(built.last())
    }
}

/// Putting a tree in the place of another changes the number of nodes by the
/// difference of their sizes.
proof fn lemma_total_update(built: Seq<Link<Coordinate>>, j: int, link: Link<Coordinate>)
    requires
        0 <= j < built.len(),
    ensures
        total(built.update(j, link)) + link_size(built[j]) == total(built) + link_size(link),
    decreases built.len(),
{
    let changed = built.update(j, link);
    if j == built.len() - 1 {
        assert(changed.drop_last() =~= built.drop_last());
    } else {
        assert(changed.drop_last() =~= built.drop_last().update(j, link));
        lemma_total_update(built.drop_last(), j, link);
    }
}

/// Where only the first place holds a tree, it holds all the nodes.
proof fn lemma_total_first(built: Seq<Link<Coordinate>>)
    requires
        built.len() > 0,
        forall|j: int| 1 <= j < built.len() ==> built[j] is None,
    ensures
        total(built) == link_size(built[0]),
    decreases built.len(),
{
    if built.len() > 1 {
        assert(built.last() is None);
        lemma_total_first(built.drop_last());
    } else {
        assert(total(built.drop_last()) == 0);
    }
}

/// Whether `slot` holds the index `j`.
spec fn names(slot: Option<usize>, j: int) -> bool {
    slot matches Some(child) && child == j
}

/// Takes the finished tree of the child in `slot`, if there is one, out of
/// `built`.
fn detach(built: &mut Vec<Link<Coordinate>>, slot: Option<usize>) -> (link: Link<Coordinate>)
    requires
        slot matches Some(child) ==> child < old(built)@.len(),
    ensures
        final(built)@.len() == old(built)@.len(),
        link == (match slot {
            Some(child) => old(built)@[child as int],
            None => None,
        }),
        forall|j: int|
            0 <= j < old(built)@.len() ==> #[trigger] final(built)@[j] == (if names(slot, j) {
                None
            } else {
                old(built)@[j]
            }),
        total(final(built)@) + link_size(link) == total(old(built)@),
{
    match slot {
        Some(child) => {
            let link = built[child].take();
            proof {
                assert(built@ =~= old(built)@.update(child as int, None));
                lemma_total_update(old(built)@, child as int, None);
            }
            link
        },
        None => None,
    }
}

/// Makes of the entries a tree of nodes that own their children. The entries
/// are taken from the last to the first, so that the children of an entry are
/// finished when the entry takes them.
pub(crate) fn assemble(
    nodes: &Vec<Entry>,
    Ghost(parents): Ghost<Seq<int>>,
    Ghost(vias): Ghost<Seq<Direction>>,
) -> (tree: QuaternaryTree<Coordinate>)
    requires
        nodes@.len() > 0,
        threaded(nodes@, parents, vias),
    ensures
        tree.root == Some(Box::new(subtree(nodes@, 0))),
        tree.size() == nodes@.len(),
{
    let count = nodes.len();
    let mut built: Vec<Link<Coordinate>> = Vec::new();
    let mut k: usize = 0;
    while k < count
        invariant
            k <= count,
            built@.len() == k,
            forall|j: int| 0 <= j < k ==> built@[j] is None,
            total(built@) == 0,
        decreases count - k,
    {
        proof {
            assert(built@.push(None).drop_last() =~= built@);
        }
        built.push(None);
        k = k + 1;
    }
    let mut i: usize = count;
    while i > 0
        invariant
            i <= count,
            count == nodes@.len(),
            built@.len() == count,
            threaded(nodes@, parents, vias),
            forall|j: int|
                0 <= j < count ==> #[trigger] built@[j] == stock(nodes@, parents, i as int, j),
            total(built@) == count - i,
        decreases i,
    {
        i = i - 1;
        let entry = nodes[i];
        let ghost b0 = built@;
        let left = detach(&mut built, entry.left);
        let ghost b1 = built@;
        let right = detach(&mut built, entry.right);
        let ghost b2 = built@;
        let up = detach(&mut built, entry.up);
        let ghost b3 = built@;
        let down = detach(&mut built, entry.down);
        let ghost b4 = built@;
        proof {
            assert(entry.slot(Direction::Left) == entry.left);
            assert(entry.slot(Direction::Right) == entry.right);
            assert(entry.slot(Direction::Up) == entry.up);
            assert(entry.slot(Direction::Down) == entry.down);
            assert(left == branch(nodes@, i as int, Direction::Left)) by {
                if let Some(c) = entry.left {
                    assert(b0[c as int] == stock(nodes@, parents, i + 1, c as int));
                }
            }
            assert(right == branch(nodes@, i as int, Direction::Right)) by {
                if let Some(c) = entry.right {
                    assert(b1[c as int] == b0[c as int]);
                    assert(b0[c as int] == stock(nodes@, parents, i + 1, c as int));
                }
            }
            assert(up == branch(nodes@, i as int, Direction::Up)) by {
                if let Some(c) = entry.up {
                    assert(b2[c as int] == b1[c as int]);
                    assert(b1[c as int] == b0[c as int]);
                    assert(b0[c as int] == stock(nodes@, parents, i + 1, c as int));
                }
            }
            assert(down == branch(nodes@, i as int, Direction::Down)) by {
                if let Some(c) = entry.down {
                    assert(b3[c as int] == b2[c as int]);
                    assert(b2[c as int] == b1[c as int]);
                    assert(b1[c as int] == b0[c as int]);
                    assert(b0[c as int] == stock(nodes@, parents, i + 1, c as int));
                }
            }
        }
        let node = Node { elem: entry.cell, left: left, right: right, up: up, down: down };
        proof {
            assert(node == subtree(nodes@, i as int));
            assert(b0[i as int] == stock(nodes@, parents, i + 1, i as int));
            assert(b4[i as int] is None);
            lemma_total_update(b4, i as int, Some(Box::new(node)));
        }
        built[i] = Some(Box::new(node));
        proof {
            assert(built@ =~= b4.update(i as int, Some(Box::new(node))));
            assert forall|j: int| 0 <= j < count implies #[trigger] built@[j] == stock(
                nodes@,
                parents,
                i as int,
                j,
            ) by {
                if j != i {
                    assert(built@[j] == b4[j]);
                    assert(b0[j] == stock(nodes@, parents, i + 1, j));
                    if j > 0 && parents[j] == i {
                        assert(entry.slot(vias[j]) == Some(j as usize));
                    }
                }
            }
        }
    }
    proof {
        assert(built@[0] == stock(nodes@, parents, 0, 0));
        assert forall|j: int| 1 <= j < built@.len() implies built@[j] is None by {
            assert(built@[j] == stock(nodes@, parents, 0, j));
        }
        lemma_total_first(built@);
    }
    QuaternaryTree { root: built[0].take() }
}

} // verus!
