use crate::direction::Direction;
use vstd::prelude::*;

verus! {

/// A child slot: empty, or the node that hangs there.
pub type Link<T> = Option<Box<Node<T>>>;

/// A tree in which every node has up to four children, one for each
/// direction.
pub struct QuaternaryTree<T> {
    pub root: Link<T>,
}

/// A node of a `QuaternaryTree`. It owns the nodes in its four slots.
#[derive(PartialEq, Eq, Debug)]
pub struct Node<T> {
    pub elem: T,
    pub left: Link<T>,
    pub right: Link<T>,
    pub up: Link<T>,
    pub down: Link<T>,
}

/// The node that `path` leads to from the node in `link`, if both exist.
pub open spec fn link_at<T>(link: Link<T>, path: Seq<Direction>) -> Option<Node<T>> {
    match link {
        Some(node) => node.at(path),
        None => None,
    }
}

/// The number of nodes that hang in `link`.
pub open spec fn link_size<T>(link: Link<T>) -> nat
    decreases link,
{
    match link {
        Some(node) => node.size(),
        None => 0,
    }
}

/// The number of nodes in and below the nodes of `stack`.
spec fn load<T>(stack: Seq<Box<Node<T>>>) -> nat
    decreases stack.len(),
{
    if stack.len() == 0 {
        0
    } else {
        load(stack.drop_last()) + stack.last().size()
    }
}

/// The nodes that wait to be released once the node in `link`, if there is
/// one, has been put on `stack`.
spec fn kept<T>(stack: Seq<Box<Node<T>>>, link: Link<T>) -> Seq<Box<Node<T>>> {
    match link {
        Some(node) => stack.push(node),
        None => stack,
    }
}

proof fn lemma_load_kept<T>(stack: Seq<Box<Node<T>>>, link: Link<T>)
    ensures
        load(kept(stack, link)) == load(stack) + link_size(link),
{
    if link is Some {
        assert(kept(stack, link).drop_last() =~= stack);
    }
}

/// Puts the node in `link`, if there is one, on the stack of nodes that wait
/// to be released.
fn keep<T>(stack: &mut Vec<Box<Node<T>>>, link: Link<T>)
    ensures
        final(stack)@ == kept(old(stack)@, link),
{
    match link {
        Some(node) => {
            stack.push(node);
        },
        None => {},
    }
}

impl<T> Node<T> {
    /// A node without children.
    pub fn new(elem: T) -> (node: Self)
        ensures
            node == (Node { elem, left: None, right: None, up: None, down: None }),
    {
        Node { elem: elem, left: None, up: None, right: None, down: None }
    }

    /// The slot for direction `d`.
    pub open spec fn child(self, d: Direction) -> Link<T> {
        match d {
            Direction::Left => self.left,
            Direction::Right => self.right,
            Direction::Up => self.up,
            Direction::Down => self.down,
        }
    }

    /// The node that `path` leads to: the one found by going, from this node,
    /// into the slot of each direction of `path` in turn. `None` where the
    /// path leaves the tree.
    pub open spec fn at(self, path: Seq<Direction>) -> Option<Node<T>>
        decreases path.len(),
    {
        if path.len() == 0 {
            Some(self)
        } else {
            match self.at(path.drop_last()) {
                Some(parent) => match parent.child(path.last()) {
                    Some(node) => Some(*node),
                    None => None,
                },
                None => None,
            }
        }
    }

    /// Whether `path` leads to a node that holds `elem`.
    pub open spec fn holds_at(self, path: Seq<Direction>, elem: T) -> bool {
        self.at(path) matches Some(node) && node.elem == elem
    }

    /// The number of nodes: this one and all below it.
    pub open spec fn size(self) -> nat
        decreases self,
    {
        1 + link_size(self.left) + link_size(self.right) + link_size(self.up) + link_size(
            self.down,
        )
    }

    /// Following a path that starts with `d` is the same as following the rest
    /// of it from the child in slot `d`.
    pub proof fn lemma_at_first(self, d: Direction, rest: Seq<Direction>)
        ensures
            self.at(seq![d] + rest) == link_at(self.child(d), rest),
        decreases rest.len(),
    {
        let path = seq![d] + rest;
        if rest.len() == 0 {
            assert(path.drop_last() =~= Seq::<Direction>::empty());
            assert(self.at(path.drop_last()) == Some(self));
            assert(path.last() == d);
        } else {
            assert(path.drop_last() =~= seq![d] + rest.drop_last());
            assert(path.last() == rest.last());
            self.lemma_at_first(d, rest.drop_last());
        }
    }
}

/// Whether the same paths lead to a node in `a` and in `b`, and to nodes
/// that hold the same.
pub open spec fn alike<T>(a: Link<T>, b: Link<T>) -> bool {
    forall|path: Seq<Direction>|
        match (#[trigger] link_at(a, path), #[trigger] link_at(b, path)) {
            (Some(n), Some(m)) => n.elem == m.elem,
            (None, None) => true,
            _ => false,
        }
}

/// Two trees are the same tree if the same paths lead to a node in both,
/// and to nodes that hold the same.
pub proof fn lemma_alike_equal<T>(a: Link<T>, b: Link<T>)
    requires
        alike(a, b),
    ensures
        a == b,
    decreases a,
{
    let empty = Seq::<Direction>::empty();
    assert(link_at(a, empty) is Some <==> link_at(b, empty) is Some);
    match (a, b) {
        (Some(n), Some(m)) => {
            assert(link_at(a, empty) == Some(*n));
            assert(link_at(b, empty) == Some(*m));
            assert(n.elem == m.elem);
            assert forall|d: Direction| n.child(d) == m.child(d) by {
                assert forall|path: Seq<Direction>|
                    match (
                        #[trigger] link_at(n.child(d), path),
                        #[trigger] link_at(m.child(d), path),
                    ) {
                        (Some(x), Some(y)) => x.elem == y.elem,
                        (None, None) => true,
                        _ => false,
                    } by {
                    n.lemma_at_first(d, path);
                    m.lemma_at_first(d, path);
                    assert(link_at(a, seq![d] + path) == link_at(n.child(d), path));
                    assert(link_at(b, seq![d] + path) == link_at(m.child(d), path));
                }
                match d {
                    Direction::Left => lemma_alike_equal(n.left, m.left),
                    Direction::Right => lemma_alike_equal(n.right, m.right),
                    Direction::Up => lemma_alike_equal(n.up, m.up),
                    Direction::Down => lemma_alike_equal(n.down, m.down),
                }
            }
            assert(n.child(Direction::Left) == m.child(Direction::Left));
            assert(n.child(Direction::Right) == m.child(Direction::Right));
            assert(n.child(Direction::Up) == m.child(Direction::Up));
            assert(n.child(Direction::Down) == m.child(Direction::Down));
            assert(*n == *m);
        },
        _ => {},
    }
}

impl<T> QuaternaryTree<T> {
    /// The empty tree.
    pub fn new() -> (tree: Self)
        ensures
            tree.root is None,
    {
        QuaternaryTree { root: None }
    }

    /// Releases every node of the tree and leaves the tree empty. The nodes
    /// wait on a stack and are taken apart one after the other, each after
    /// its parent, so that none is released while it still owns a child and
    /// no call is nested as deep as the tree. Returns the number of nodes
    /// released, or `usize::MAX` where they are more than that.
    pub fn teardown(&mut self) -> (released: usize)
        ensures
            final(self).root is None,
            released == (if old(self).size() <= usize::MAX {
                old(self).size()
            } else {
                usize::MAX as nat
            }),
    {
        let mut stack: Vec<Box<Node<T>>> = Vec::new();
        let root = self.root.take();
        keep(&mut stack, root);
        let mut released: usize = 0;
        let ghost mut done: nat = 0;
        proof {
            lemma_load_kept(Seq::empty(), root);
        }
        while stack.len() > 0
            invariant
                done + load(stack@) == old(self).size(),
                released == (if done <= usize::MAX {
                    done
                } else {
                    usize::MAX as nat
                }),
                self.root is None,
            decreases load(stack@),
        {
            let ghost before = stack@;
            let node = stack.pop().unwrap();
            let ghost rest = stack@;
            let Node { left, right, up, down, .. } = *node;
            keep(&mut stack, left);
            let ghost s1 = stack@;
            keep(&mut stack, right);
            let ghost s2 = stack@;
            keep(&mut stack, up);
            let ghost s3 = stack@;
            keep(&mut stack, down);
            proof {
                assert(rest =~= before.drop_last());
                lemma_load_kept(rest, left);
                lemma_load_kept(s1, right);
                lemma_load_kept(s2, up);
                lemma_load_kept(s3, down);
                done = done + 1;
            }
            if released < usize::MAX {
                released = released + 1;
            }
        }
        released
    }

    /// The node that `path` leads to from the root.
    pub open spec fn at(self, path: Seq<Direction>) -> Option<Node<T>> {
        link_at(self.root, path)
    }

    /// Whether some node of the tree holds `elem`.
    pub open spec fn contains(self, elem: T) -> bool {
        exists|path: Seq<Direction>| self.holds_at(path, elem)
    }

    /// Whether `path` leads from the root to a node that holds `elem`.
    pub open spec fn holds_at(self, path: Seq<Direction>, elem: T) -> bool {
        self.at(path) matches Some(node) && node.elem == elem
    }

    /// The number of nodes of the tree.
    pub open spec fn size(self) -> nat {
        link_size(self.root)
    }
}

/// The number of nodes on the way from the node in `link` down through the
/// slots below.
spec fn spine<T>(link: Link<T>) -> nat
    decreases link,
{
    match link {
        Some(node) => 1 + spine(node.down),
        None => 0,
    }
}

proof fn lemma_spine_size<T>(link: Link<T>)
    ensures
        spine(link) <= link_size(link),
    decreases link,
{
    if let Some(node) = link {
        lemma_spine_size(node.down);
    }
}

/// Takes what hangs in `slot` out of it and leaves the slot empty.
fn unhook<T>(slot: &mut Link<T>) -> (link: Link<T>)
    ensures
        link == *old(slot),
        *final(slot) is None,
    opens_invariants none
    no_unwind
{
    let mut link: Link<T> = None;
    core::mem::swap(&mut link, slot);
    link
}

impl<T> Drop for QuaternaryTree<T> {
    /// Releases the nodes one after the other, so that no call is nested as
    /// deep as the tree. Nothing is set aside for it: a node with a child to
    /// its left, to its right or above is hung below that child, in exchange
    /// for what hung there, and a node with no such child is released and
    /// leaves what hangs below it.
    fn drop(&mut self)
        ensures
            final(self).root is None,
        opens_invariants none
        no_unwind
    {
        let mut cur = unhook(&mut self.root);
        loop
            invariant
                self.root is None,
            decreases 2 * link_size(cur) - spine(cur),
        {
            proof {
                lemma_spine_size(cur);
            }
            match cur {
                None => {
                    break ;
                },
                Some(mut node) => {
                    let ghost whole = *node;
                    let mut side = unhook(&mut node.left);
                    match side {
                        None => {
                            side = unhook(&mut node.right);
                        },
                        _ => {},
                    }
                    match side {
                        None => {
                            side = unhook(&mut node.up);
                        },
                        _ => {},
                    }
                    match side {
                        None => {
                            cur = unhook(&mut node.down);
                            proof {
                                assert(whole.size() == 1 + link_size(cur));
                                assert(spine(Some(Box::new(whole))) == 1 + spine(cur));
                            }
                        },
                        Some(mut child) => {
                            let ghost taken = *child;
                            let below = unhook(&mut child.down);
                            node.left = below;
                            let ghost hung = *node;
                            child.down = Some(node);
                            proof {
                                // The same nodes, one more of them on the way
                                // down from the first.
                                assert(taken.size() == 1 + link_size(taken.left) + link_size(
                                    taken.right,
                                ) + link_size(taken.up) + link_size(below));
                                assert(whole.size() == hung.size() - link_size(below)
                                    + taken.size());
                                assert(child.size() == 1 + link_size(taken.left) + link_size(
                                    taken.right,
                                ) + link_size(taken.up) + hung.size());
                                assert(spine(Some(Box::new(hung))) == spine(
                                    Some(Box::new(whole)),
                                ));
                                assert(spine(Some(child)) == 1 + spine(Some(Box::new(hung))));
                            }
                            cur = Some(child);
                        },
                    }
                },
            }
        }
    }
}

} // verus!
