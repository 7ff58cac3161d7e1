//! The Michael-Scott linked queue.
//!
//! Nodes live in an arena and point at each other by position. A node that
//! leaves the queue is retired in place, so a position read during an
//! operation can always be followed; retired nodes are freed between
//! operations, when the live nodes are renumbered.
use vstd::prelude::*;
use crate::model::{after_pop, popped, run, Op};

verus! {

/// A node of the linked queue. The node at `head` is the sentinel and holds no
/// element; each node after it holds the element that it was pushed with.
struct Node<T> {
    elem: Option<T>,
    next: Option<usize>,
}

impl<T> Node<T> {
    /// A sentinel node: no element and no successor.
    fn sentinel() -> (r: Self)
        ensures
            r.elem is None,
            r.next is None,
    {
        Node { elem: None, next: None }
    }

    /// A node holding `elem`, with no successor yet.
    fn new(elem: T) -> (r: Self)
        ensures
            r.elem == Some(elem),
            r.next is None,
    {
        Node { elem: Some(elem), next: None }
    }
}

/// Points the node at position `i` at `next`, leaving its element alone.
fn set_next<T>(nodes: &mut Vec<Node<T>>, i: usize, next: usize)
    requires
        i < old(nodes)@.len(),
    ensures
        final(nodes)@.len() == old(nodes)@.len(),
        final(nodes)@[i as int].elem == old(nodes)@[i as int].elem,
        final(nodes)@[i as int].next == Some(next),
        forall|j: int| 0 <= j < old(nodes)@.len() && j != i ==> final(nodes)@[j] == old(nodes)@[j],
{
    let mut cell = Node::sentinel();
    nodes.set_and_swap(i, &mut cell);
    cell.next = Some(next);
    nodes.set_and_swap(i, &mut cell);
}

/// Moves the element out of the node at position `i`, leaving it empty.
fn take_elem<T>(nodes: &mut Vec<Node<T>>, i: usize) -> (r: Option<T>)
    requires
        i < old(nodes)@.len(),
    ensures
        r == old(nodes)@[i as int].elem,
        final(nodes)@.len() == old(nodes)@.len(),
        final(nodes)@[i as int].elem is None,
        final(nodes)@[i as int].next == old(nodes)@[i as int].next,
        forall|j: int| 0 <= j < old(nodes)@.len() && j != i ==> final(nodes)@[j] == old(nodes)@[j],
{
    let mut cell = Node::sentinel();
    nodes.set_and_swap(i, &mut cell);
    let Node { elem, next } = cell;
    let mut emptied = Node { elem: None, next };
    nodes.set_and_swap(i, &mut emptied);
    elem
}

/// A lock-free Michael-Scott queue: `head` is the sentinel, the element at the
/// front of the queue sits in the node after it, and `tail` is the last node or
/// lags one link behind it.
pub struct Queue<T> {
    nodes: Vec<Node<T>>,
    head: usize,
    tail: usize,
}

impl<T> View for Queue<T> {
    type V = Seq<T>;

    /// The elements of the nodes after the sentinel, front first.
    closed spec fn view(&self) -> Seq<T> {
        Seq::new(
            (self.nodes@.len() - 1 - self.head) as nat,
            |j: int| self.nodes@[self.head + 1 + j].elem->Some_0,
        )
    }
}

impl<T> Queue<T> {
    /// The number of nodes in the arena, retired ones included.
    pub closed spec fn node_count(&self) -> nat {
        self.nodes@.len()
    }

    /// The arena position of the sentinel.
    pub closed spec fn head_pos(&self) -> int {
        self.head as int
    }

    /// The arena position that `tail` points at.
    pub closed spec fn tail_pos(&self) -> int {
        self.tail as int
    }

    /// The element held by the node at arena position `i`.
    pub closed spec fn node_elem(&self, i: int) -> Option<T> {
        self.nodes@[i].elem
    }

    /// The successor of the node at arena position `i`.
    pub closed spec fn node_next(&self, i: int) -> Option<usize> {
        self.nodes@[i].next
    }

    /// The list from `head` is linked in arena order and ends in the only node
    /// without a successor; `tail` lies on it, at most one link behind its end.
    /// Only the nodes after the sentinel hold an element, so dropping the queue
    /// drops exactly the queued elements.
    pub closed spec fn wf(&self) -> bool {
        &&& self.nodes@.len() > 0
        &&& self.head <= self.tail < self.nodes@.len()
        &&& self.tail + 2 >= self.nodes@.len()
        &&& forall|i: int|
            0 <= i < self.nodes@.len() - 1 ==> #[trigger] self.nodes@[i].next == Some(
                (i + 1) as usize,
            )
        &&& self.nodes@.last().next is None
        &&& forall|i: int| 0 <= i < self.nodes@.len() ==> (#[trigger] self.nodes@[i].elem is Some
            <==> self.head < i)
    }

    /// Creates an empty queue: one sentinel node that both `head` and `tail`
    /// point at.
    pub fn new() -> (r: Self)
        ensures
            r.wf(),
            r@ == Seq::<T>::empty(),
            r.node_count() == 1,
            r.head_pos() == 0,
            r.tail_pos() == 0,
            r.node_elem(0) is None,
            r.node_next(0) is None,
    {
        let mut nodes = Vec::new();
        nodes.push(Node::sentinel());
        let r = Queue { nodes, head: 0, tail: 0 };
        assert(r@ =~= Seq::<T>::empty());
        r
    }

    /// Reads the successor of the node at position `n`.
    fn load_next(&self, n: usize) -> (r: Option<usize>)
        requires
            self.wf(),
            n < self.nodes@.len(),
        ensures
            r == self.nodes@[n as int].next,
            r is Some <==> n + 1 < self.nodes@.len(),
            r is Some ==> r->Some_0 == n + 1,
    {
        proof {
            self.lemma_next(n as int);
        }
        self.nodes[n].next
    }

    /// Only the last node lacks a successor, and the successor of any other
    /// node is the node after it.
    proof fn lemma_next(&self, i: int)
        requires
            self.wf(),
            0 <= i < self.nodes@.len(),
        ensures
            self.nodes@[i].next is Some <==> i + 1 < self.nodes@.len(),
            i + 1 < self.nodes@.len() ==> self.nodes@[i].next == Some((i + 1) as usize),
            self.nodes@.len() <= usize::MAX,
    {
        assert(self.nodes@.len() == self.nodes.len());
        if i + 1 < self.nodes@.len() {
            assert(self.nodes@[i].next == Some((i + 1) as usize));
        } else {
            assert(self.nodes@[i] == self.nodes@.last());
        }
    }

    /// Compare-and-swap of `tail` from `current` to its successor `new`.
    fn cas_tail(&mut self, current: usize, new: usize) -> (r: bool)
        requires
            old(self).wf(),
            current < old(self).nodes@.len(),
            old(self).nodes@[current as int].next == Some(new),
        ensures
            final(self).wf(),
            final(self)@ == old(self)@,
            r == (old(self).tail == current),
            final(self).nodes == old(self).nodes,
            final(self).head == old(self).head,
            final(self).tail == (if r { new } else { old(self).tail }),
    {
        proof {
            self.lemma_next(current as int);
        }
        if self.tail == current {
            self.tail = new;
            true
        } else {
            false
        }
    }

    /// Compare-and-swap of the successor of `t` from null to a new node holding
    /// `node`'s element. On failure the node is handed back.
    fn link_after(&mut self, t: usize, node: Node<T>) -> (r: Result<usize, Node<T>>)
        requires
            old(self).wf(),
            t == old(self).tail,
            node.elem is Some,
            node.next is None,
        ensures
            final(self).wf(),
            final(self).head == old(self).head,
            final(self).tail == old(self).tail,
            old(self).nodes@[t as int].next is None ==> r == Ok::<usize, Node<T>>(
                old(self).nodes@.len() as usize,
            ) && final(self)@ == old(self)@.push(node.elem->Some_0) && final(self).nodes@
                == old(self).nodes@.update(
                t as int,
                (Node { elem: old(self).nodes@[t as int].elem, next: Some(r->Ok_0) }),
            ).push(node),
            old(self).nodes@[t as int].next is Some ==> r == Err::<usize, Node<T>>(node)
                && *final(self) == *old(self),
    {
        proof {
            self.lemma_next(t as int);
        }
        if self.nodes[t].next.is_none() {
            let n = self.nodes.len();
            self.nodes.push(node);
            set_next(&mut self.nodes, t, n);
            assert(self@ =~= old(self)@.push(node.elem->Some_0));
            assert(self.nodes@ =~= old(self).nodes@.update(
                t as int,
                (Node { elem: old(self).nodes@[t as int].elem, next: Some(n) }),
            ).push(node));
            Ok(n)
        } else {
            Err(node)
        }
    }

    /// Compare-and-swap of `head` from `current` to its successor `new`; the
    /// winner moves the element out of `new`, which becomes the sentinel.
    fn advance_head(&mut self, current: usize, new: usize) -> (r: Option<T>)
        requires
            old(self).wf(),
            current < old(self).nodes@.len(),
            old(self).nodes@[current as int].next == Some(new),
            old(self).tail != current,
        ensures
            final(self).wf(),
            old(self).head == current ==> r == Some(old(self)@[0]) && final(self)@
                == old(self)@.drop_first(),
            old(self).head != current ==> r is None && *final(self) == *old(self),
    {
        proof {
            self.lemma_next(current as int);
        }
        if self.head == current {
            assert(old(self)@.len() > 0);
            self.head = new;
            let r = take_elem(&mut self.nodes, new);
            assert(self@ =~= old(self)@.drop_first());
            r
        } else {
            None
        }
    }

    /// Frees the retired nodes once they are at least as many as the live
    /// ones: the live nodes move to the front of a fresh arena and every
    /// position is renumbered. Runs between operations, when no position read
    /// by an operation is still in use.
    fn reclaim_retired(&mut self)
        requires
            old(self).wf(),
        ensures
            final(self).wf(),
            final(self)@ == old(self)@,
    {
        let head = self.head;
        if head < self.nodes.len() - head {
            return;
        }
        proof {
            self.lemma_next(head as int);
        }
        let mut live = self.nodes.split_off(head);
        let ghost moved = live@;
        let last = live.len() - 1;
        let mut i: usize = 0;
        while i < last
            invariant
                last == moved.len() - 1,
                live@.len() == moved.len(),
                moved.len() >= 1,
                i < moved.len(),
                forall|j: int| 0 <= j < i ==> #[trigger] live@[j].next == Some((j + 1) as usize),
                forall|j: int| 0 <= j < moved.len() ==> (#[trigger] live@[j]).elem == moved[j].elem,
                forall|j: int| i <= j < moved.len() ==> #[trigger] live@[j] == moved[j],
            decreases moved.len() - i,
        {
            set_next(&mut live, i, i + 1);
            i += 1;
        }
        self.tail = self.tail - head;
        self.head = 0;
        self.nodes = live;
        proof {
            assert(self.nodes@.last() == moved.last());
            assert(moved.last() == old(self).nodes@.last());
            assert(forall|j: int|
                0 <= j < moved.len() ==> #[trigger] moved[j] == old(self).nodes@[head + j]);
            assert(self@ =~= old(self)@);
        }
    }

    /// Returns `true` if the queue holds no element.
    pub fn is_empty(&self) -> (r: bool)
        requires
            self.wf(),
        ensures
            r == (self@.len() == 0),
    {
        let head = self.head;
        let tail = self.tail;
        head == tail && self.load_next(head).is_none()
    }

    /// Pushes `elem` to the tail of the queue.
    pub fn push(&mut self, elem: T)
        requires
            old(self).wf(),
        ensures
            final(self).wf(),
            final(self)@ == old(self)@.push(elem),
            final(self).node_count() == old(self).node_count() + 1,
            final(self).head_pos() == old(self).head_pos(),
            old(self).tail_pos() <= final(self).tail_pos(),
            final(self).tail_pos() == old(self).node_count(),
            forall|i: int|
                0 <= i < old(self).node_count() ==> #[trigger] final(self).node_elem(i)
                    == old(self).node_elem(i),
            forall|i: int|
                0 <= i < old(self).node_count() - 1 ==> #[trigger] final(self).node_next(i)
                    == old(self).node_next(i),
            final(self).node_next(old(self).node_count() - 1) == Some(
                old(self).node_count() as usize,
            ),
            final(self).node_elem(old(self).node_count() as int) == Some(elem),
            final(self).node_next(old(self).node_count() as int) is None,
    {
        let ghost v = elem;
        let mut node = Node::new(elem);
        let mut linked: (usize, usize) = (0, 0);
        loop
            invariant_except_break
                self.nodes@ == old(self).nodes@,
                node.elem == Some(v),
                node.next is None,
            invariant
                self.wf(),
                self.head == old(self).head,
                old(self).tail <= self.tail,
            ensures
                self@ == old(self)@.push(v),
                self.tail == linked.0,
                linked.0 == old(self).nodes@.len() - 1,
                linked.1 == old(self).nodes@.len(),
                self.nodes@ == old(self).nodes@.update(
                    linked.0 as int,
                    (Node { elem: old(self).nodes@[linked.0 as int].elem, next: Some(linked.1) }),
                ).push(Node { elem: Some(v), next: None }),
            decreases self.nodes@.len() - self.tail,
        {
            let tail = self.tail;
            let next = self.load_next(tail);
            if self.tail != tail {
                // tail moved since it was read: retry
                continue;
            }
            match next {
                None => {
                    proof {
                        self.lemma_next(tail as int);
                    }
                    match self.link_after(tail, node) {
                        Ok(n) => {
                            linked = (tail, n);
                            break;
                        },
                        Err(back) => {
                            node = back;
                        },
                    }
                },
                Some(next) => {
                    // another push linked a node without swinging tail: help it
                    let _ = self.cas_tail(tail, next);
                },
            }
        }
        // swing tail to the new node; a failure means someone already did
        let _ = self.cas_tail(linked.0, linked.1);
    }

    /// Pops the element at the front of the queue, or returns `None` if the
    /// queue is empty.
    pub fn pop(&mut self) -> (r: Option<T>)
        requires
            old(self).wf(),
        ensures
            final(self).wf(),
            r == popped(old(self)@),
            final(self)@ == after_pop(old(self)@),
    {
        loop
            invariant
                self.wf(),
                self@ == old(self)@,
            decreases self.nodes@.len() - self.tail,
        {
            let head = self.head;
            let tail = self.tail;
            let next = self.load_next(head);
            if self.head != head {
                // head moved since it was read: retry
                continue;
            }
            if head == tail {
                match next {
                    None => {
                        assert(self@.len() == 0);
                        return None;
                    },
                    Some(next) => {
                        // a push linked a node without swinging tail: help it
                        let _ = self.cas_tail(tail, next);
                    },
                }
            } else {
                // head lies before tail, so it has a successor
                if let Some(next) = next {
                    if let Some(elem) = self.advance_head(head, next) {
                        self.reclaim_retired();
                        return Some(elem);
                    }
                }
            }
        }
    }

    /// Applies `ops` to the queue in order and returns, in order, the values
    /// that its pops returned.
    pub fn apply(&mut self, ops: Vec<Op<T>>) -> (out: Vec<T>)
        requires
            old(self).wf(),
        ensures
            final(self).wf(),
            (final(self)@, out@) == run(old(self)@, ops@),
    {
        let mut ops = ops;
        let ghost all = ops@;
        let mut out: Vec<T> = Vec::new();
        let n = ops.len();
        let mut i: usize = 0;
        while i < n
            invariant
                self.wf(),
                n == all.len(),
                i <= n,
                ops@.len() == n,
                forall|j: int| i <= j < n ==> #[trigger] ops@[j] == all[j],
                (self@, out@) == run(old(self)@, all.take(i as int)),
            decreases n - i,
        {
            let mut op = Op::Pop;
            ops.set_and_swap(i, &mut op);
            match op {
                Op::Push(v) => {
                    self.push(v);
                },
                Op::Pop => {
                    if let Some(v) = self.pop() {
                        out.push(v);
                    }
                },
            }
            proof {
                assert(all.take(i + 1).drop_last() =~= all.take(i as int));
            }
            i += 1;
        }
        proof {
            assert(all.take(n as int) =~= all);
        }
        out
    }
}

impl<T> Default for Queue<T> {
    fn default() -> (r: Self)
        ensures
            r.wf(),
            r@ == Seq::<T>::empty(),
    {
        Self::new()
    }
}

} // verus!
