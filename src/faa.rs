//! The segmented fetch-and-add queue.
//!
//! Segments of `NODE_SIZE` slots live in an arena and are chained by position.
//! Producers reserve a slot with a fetch-and-add on the tail segment's push
//! cursor, consumers with a fetch-and-add on the head segment's pop cursor, and
//! each slot settles who got there first through its claim state. A drained
//! segment is retired: it keeps its place in the arena but releases its slots,
//! and retired segments are freed between operations, when the live segments
//! are renumbered.
use vstd::prelude::*;
use crate::model::{after_pop, popped, run, Op};

verus! {

/// Number of slots in one segment.
pub const NODE_SIZE: usize = 1024;

/// How many times a consumer looks at a reserved slot before it gives up on it.
const READ_RETRIES: usize = 128;

/// The claim state of a slot. It only moves forward: `Empty` to `Filled` to
/// `Taken`, or `Empty` straight to `Taken` when a consumer abandons the slot.
#[derive(PartialEq, Eq, Structural, Clone, Copy)]
pub enum SlotState {
    Empty,
    Filled,
    Taken,
}

/// One cell of a segment. It holds an element exactly while it is `Filled`.
struct Slot<T> {
    elem: Option<T>,
    state: SlotState,
}

impl<T> Slot<T> {
    fn new() -> (r: Self)
        ensures
            r.elem is None,
            r.state == SlotState::Empty,
    {
        Slot { elem: None, state: SlotState::Empty }
    }
}

/// A fixed-size array of slots with its two cursors and the position of the
/// next segment.
struct Segment<T> {
    push_idx: usize,
    pop_idx: usize,
    next: Option<usize>,
    slots: Vec<Slot<T>>,
}

impl<T> Segment<T> {
    /// The end of the written range: the push cursor, capped at the capacity.
    spec fn hi(&self) -> int {
        if self.push_idx < NODE_SIZE {
            self.push_idx as int
        } else {
            NODE_SIZE as int
        }
    }

    /// The state that slot `j` is in: taken below the pop cursor, filled up to
    /// the push cursor, empty beyond it.
    spec fn state_at(&self, j: int) -> SlotState {
        if j < self.pop_idx {
            SlotState::Taken
        } else if j < self.hi() {
            SlotState::Filled
        } else {
            SlotState::Empty
        }
    }

    spec fn wf(&self) -> bool {
        &&& self.slots@.len() == NODE_SIZE
        &&& self.pop_idx <= self.hi()
        &&& forall|j: int|
            0 <= j < NODE_SIZE ==> (#[trigger] self.slots@[j]).state == self.state_at(j) && (
            self.slots@[j].elem is Some <==> self.slots@[j].state == SlotState::Filled)
    }

    /// The elements that the segment still holds, in slot order.
    spec fn elems(&self) -> Seq<T> {
        Seq::new(
            (self.hi() - self.pop_idx) as nat,
            |j: int| self.slots@[self.pop_idx + j].elem->Some_0,
        )
    }

    /// `NODE_SIZE` empty slots.
    fn init_elements() -> (r: Vec<Slot<T>>)
        ensures
            r@.len() == NODE_SIZE,
            forall|j: int|
                0 <= j < NODE_SIZE ==> (#[trigger] r@[j]).state == SlotState::Empty
                    && r@[j].elem is None,
    {
        let mut slots: Vec<Slot<T>> = Vec::new();
        let mut i: usize = 0;
        while i < NODE_SIZE
            invariant
                i <= NODE_SIZE,
                slots@.len() == i,
                forall|j: int|
                    0 <= j < i ==> (#[trigger] slots@[j]).state == SlotState::Empty
                        && slots@[j].elem is None,
            decreases NODE_SIZE - i,
        {
            slots.push(Slot::new());
            i += 1;
        }
        slots
    }

    /// A segment with every slot empty.
    fn new() -> (r: Self)
        ensures
            r.wf(),
            r.push_idx == 0,
            r.pop_idx == 0,
            r.next is None,
            r.elems() == Seq::<T>::empty(),
    {
        let r = Segment { push_idx: 0, pop_idx: 0, next: None, slots: Self::init_elements() };
        assert(r.elems() =~= Seq::<T>::empty());
        r
    }

    /// A segment whose first slot already holds `elem`.
    fn with_first(elem: T) -> (r: Self)
        ensures
            r.wf(),
            r.push_idx == 1,
            r.pop_idx == 0,
            r.next is None,
            r.elems() == seq![elem],
            fresh_with(r, elem),
    {
        let mut slots = Self::init_elements();
        slots.set(0, Slot { elem: Some(elem), state: SlotState::Filled });
        let r = Segment { push_idx: 1, pop_idx: 0, next: None, slots };
        assert(r.elems() =~= seq![elem]);
        assert(forall|j: int| 1 <= j < NODE_SIZE ==> r.slots@[j].state == r.state_at(j));
        r
    }

    /// A segment without slot storage: what a retired segment keeps, and a
    /// stand-in while a segment is taken out of the arena.
    fn shell() -> (r: Self)
        ensures
            r.slots@.len() == 0,
    {
        Segment { push_idx: 0, pop_idx: 0, next: None, slots: Vec::new() }
    }
}

/// `seg` is a segment just made for `elem`: its first slot holds `elem`, every
/// other slot is empty, one slot is reserved, none consumed, and nothing
/// follows it.
spec fn fresh_with<T>(seg: Segment<T>, elem: T) -> bool {
    &&& seg.push_idx == 1
    &&& seg.pop_idx == 0
    &&& seg.next is None
    &&& seg.slots@.len() == NODE_SIZE
    &&& seg.slots@[0] == (Slot { elem: Some(elem), state: SlotState::Filled })
    &&& forall|j: int|
        1 <= j < NODE_SIZE ==> (#[trigger] seg.slots@[j]).state == SlotState::Empty
            && seg.slots@[j].elem is None
}

/// `after` is `before` with `elem` written into the slot at the push cursor of
/// segment `t`, and that cursor advanced by one.
spec fn placed_at_cursor<T>(before: Seq<Segment<T>>, after: Seq<Segment<T>>, t: int, elem: T) -> bool {
    &&& after.len() == before.len()
    &&& forall|k: int| 0 <= k < before.len() && k != t ==> after[k] == before[k]
    &&& after[t].push_idx == before[t].push_idx + 1
    &&& after[t].pop_idx == before[t].pop_idx
    &&& after[t].next == before[t].next
    &&& after[t].slots@ == before[t].slots@.update(
        before[t].push_idx as int,
        (Slot { elem: Some(elem), state: SlotState::Filled }),
    )
}

/// `after` is `before` with segment `t`'s push cursor advanced by one and a
/// new segment holding `elem` linked after it, at the end of the arena.
spec fn linked_new_segment<T>(before: Seq<Segment<T>>, after: Seq<Segment<T>>, t: int, elem: T) -> bool {
    &&& after.len() == before.len() + 1
    &&& after.drop_last() == before.update(
        t,
        (Segment {
            push_idx: (before[t].push_idx + 1) as usize,
            next: Some(before.len() as usize),
            ..before[t]
        }),
    )
    &&& fresh_with(after.last(), elem)
}

/// Everything held by the segments from position `i` on, in order.
spec fn elems_from<T>(segs: Seq<Segment<T>>, i: int) -> Seq<T>
    decreases segs.len() - i,
{
    if 0 <= i < segs.len() {
        segs[i].elems() + elems_from(segs, i + 1)
    } else {
        Seq::empty()
    }
}

proof fn lemma_elems_from_ext<T>(a: Seq<Segment<T>>, b: Seq<Segment<T>>, i: int)
    requires
        0 <= i,
        a.len() == b.len(),
        forall|k: int| i <= k < a.len() ==> (#[trigger] a[k]).elems() == b[k].elems(),
    ensures
        elems_from(a, i) == elems_from(b, i),
    decreases a.len() - i,
{
    if i < a.len() {
        lemma_elems_from_ext(a, b, i + 1);
    }
}

proof fn lemma_elems_from_push<T>(s: Seq<Segment<T>>, x: Segment<T>, i: int)
    requires
        0 <= i <= s.len(),
    ensures
        elems_from(s.push(x), i) == elems_from(s, i) + x.elems(),
    decreases s.len() - i,
{
    if i < s.len() {
        lemma_elems_from_push(s, x, i + 1);
        assert(s.push(x)[i] == s[i]);
        assert(s[i].elems() + (elems_from(s, i + 1) + x.elems()) =~= (s[i].elems()
            + elems_from(s, i + 1)) + x.elems());
    } else {
        assert(elems_from(s.push(x), i + 1) == Seq::<T>::empty());
        assert(x.elems() + Seq::<T>::empty() =~= x.elems());
        assert(Seq::<T>::empty() + x.elems() =~= x.elems());
    }
}

/// `after` is `before` with slot `idx` of segment `s` replaced by `slot`.
spec fn slot_replaced<T>(
    before: Seq<Segment<T>>,
    after: Seq<Segment<T>>,
    s: int,
    idx: int,
    slot: Slot<T>,
) -> bool {
    &&& after.len() == before.len()
    &&& forall|k: int| 0 <= k < before.len() && k != s ==> after[k] == before[k]
    &&& after[s].push_idx == before[s].push_idx
    &&& after[s].pop_idx == before[s].pop_idx
    &&& after[s].next == before[s].next
    &&& after[s].slots@ == before[s].slots@.update(idx, slot)
}

/// Stores `next` as the successor of segment `s`.
fn set_next<T>(segs: &mut Vec<Segment<T>>, s: usize, next: usize)
    requires
        s < old(segs)@.len(),
    ensures
        final(segs)@ == old(segs)@.update(
            s as int,
            (Segment { next: Some(next), ..old(segs)@[s as int] }),
        ),
{
    let mut seg = Segment::shell();
    segs.set_and_swap(s, &mut seg);
    seg.next = Some(next);
    segs.set_and_swap(s, &mut seg);
}

proof fn lemma_elems_from_skip<T>(s: Seq<Segment<T>>, h: int, i: int)
    requires
        0 <= h <= i <= s.len(),
    ensures
        elems_from(s.subrange(h, s.len() as int), i - h) == elems_from(s, i),
    decreases s.len() - i,
{
    if i < s.len() {
        lemma_elems_from_skip(s, h, i + 1);
        assert(s.subrange(h, s.len() as int)[i - h] == s[i]);
    }
}

/// Segments are chained in arena order and the chain ends in the last one;
/// each segment from `head` on is well formed, and all but the last are full;
/// the segments before `head` are retired and hold no slots.
spec fn shape<T>(segs: Seq<Segment<T>>, head: int, bound: int) -> bool {
    &&& segs.len() > 0
    &&& 0 <= head < segs.len()
    &&& forall|i: int| 0 <= i < segs.len() - 1 ==> #[trigger] segs[i].next == Some((i + 1) as usize)
    &&& segs.last().next is None
    &&& forall|i: int| head <= i < segs.len() ==> (#[trigger] segs[i]).wf()
    &&& forall|i: int|
        head <= i < segs.len() - 1 ==> NODE_SIZE <= (#[trigger] segs[i]).push_idx <= NODE_SIZE + 1
    &&& segs.last().push_idx <= bound
    &&& forall|i: int| 0 <= i < head ==> (#[trigger] segs[i]).slots@.len() == 0
}

/// Writing `v` into the first free slot of the last segment appends `v` to
/// what the segments hold.
proof fn lemma_write_last<T>(
    before: Seq<Segment<T>>,
    reserved: Seq<Segment<T>>,
    after: Seq<Segment<T>>,
    head: int,
    v: T,
)
    requires
        shape(before, head, NODE_SIZE as int),
        before.last().push_idx < NODE_SIZE,
        reserved == before.update(
            before.len() - 1,
            (Segment { push_idx: (before.last().push_idx + 1) as usize, ..before.last() }),
        ),
        slot_replaced(
            reserved,
            after,
            before.len() - 1,
            before.last().push_idx as int,
            (Slot { elem: Some(v), state: SlotState::Filled }),
        ),
    ensures
        shape(after, head, NODE_SIZE as int),
        elems_from(after, head) == elems_from(before, head).push(v),
{
    let last = before.len() - 1;
    let b = before.last();
    let a = after.last();
    assert(a.hi() == b.hi() + 1);
    assert forall|j: int| 0 <= j < NODE_SIZE implies (#[trigger] a.slots@[j]).state == a.state_at(
        j,
    ) && (a.slots@[j].elem is Some <==> a.slots@[j].state == SlotState::Filled) by {
        if j != b.push_idx {
            assert(a.slots@[j] == b.slots@[j]);
        }
    }
    assert(a.wf());
    assert(a.elems() =~= b.elems().push(v));
    assert(before =~= before.drop_last().push(b));
    assert(after =~= before.drop_last().push(a));
    lemma_elems_from_push(before.drop_last(), b, head);
    lemma_elems_from_push(before.drop_last(), a, head);
    assert(forall|i: int| 0 <= i < last ==> after[i] == #[trigger] before[i]);
}

/// Taking the element out of the first filled slot of the head segment
/// removes the front of what the segments hold.
proof fn lemma_take_first<T>(
    before: Seq<Segment<T>>,
    reserved: Seq<Segment<T>>,
    after: Seq<Segment<T>>,
    head: int,
)
    requires
        shape(before, head, NODE_SIZE as int),
        before[head].pop_idx < NODE_SIZE,
        before[head].slots@[before[head].pop_idx as int].state == SlotState::Filled,
        reserved == before.update(
            head,
            (Segment { pop_idx: (before[head].pop_idx + 1) as usize, ..before[head] }),
        ),
        slot_replaced(
            reserved,
            after,
            head,
            before[head].pop_idx as int,
            (Slot { elem: None, state: SlotState::Taken }),
        ),
    ensures
        shape(after, head, NODE_SIZE as int),
        elems_from(before, head).len() > 0,
        before[head].slots@[before[head].pop_idx as int].elem == Some(
            elems_from(before, head)[0],
        ),
        elems_from(after, head) == elems_from(before, head).drop_first(),
{
    let b = before[head];
    let a = after[head];
    let p = b.pop_idx as int;
    assert(b.slots@[p].state == b.state_at(p));
    assert(p < b.hi());
    assert(a.hi() == b.hi());
    assert forall|j: int| 0 <= j < NODE_SIZE implies (#[trigger] a.slots@[j]).state == a.state_at(
        j,
    ) && (a.slots@[j].elem is Some <==> a.slots@[j].state == SlotState::Filled) by {
        if j != p {
            assert(a.slots@[j] == b.slots@[j]);
        }
    }
    assert(a.wf());
    assert(a.elems() =~= b.elems().drop_first());
    lemma_elems_from_ext(after, before, head + 1);
    assert(elems_from(after, head) =~= elems_from(before, head).drop_first());
    assert(forall|i: int| 0 <= i < before.len() && i != head ==> after[i] == #[trigger] before[i]);
}

/// Retiring a drained head segment and moving `head` past it leaves what the
/// segments hold unchanged.
proof fn lemma_retire_head<T>(before: Seq<Segment<T>>, after: Seq<Segment<T>>, head: int)
    requires
        shape(before, head, NODE_SIZE as int),
        head < before.len() - 1,
        before[head].elems().len() == 0,
        after.len() == before.len(),
        forall|k: int| 0 <= k < before.len() && k != head ==> after[k] == before[k],
        after[head].slots@.len() == 0,
        after[head].next == before[head].next,
    ensures
        shape(after, head + 1, NODE_SIZE as int),
        elems_from(after, head + 1) == elems_from(before, head),
{
    lemma_elems_from_ext(after, before, head + 1);
    assert(before[head].elems() + elems_from(before, head + 1) =~= elems_from(before, head + 1));
    assert(after.last() == before.last());
    assert(forall|i: int| 0 <= i < before.len() - 1 ==> #[trigger] after[i].next == before[i].next);
}

/// A lock-free queue of array segments; slots are reserved by fetch-and-add.
pub struct Queue<T> {
    segments: Vec<Segment<T>>,
    head: usize,
    tail: usize,
}

impl<T> View for Queue<T> {
    type V = Seq<T>;

    closed spec fn view(&self) -> Seq<T> {
        elems_from(self.segments@, self.head as int)
    }
}

impl<T> Queue<T> {
    /// The queue's shape, with `bound` as the largest push cursor that the last
    /// segment may have: `tail` is the last segment.
    spec fn inv(&self, bound: int) -> bool {
        &&& self.tail == self.segments@.len() - 1
        &&& shape(self.segments@, self.head as int, bound)
    }

    /// The number of live segments, from `head` to the last one.
    pub closed spec fn segment_count(&self) -> nat {
        (self.segments@.len() - self.head) as nat
    }

    /// The `k`-th live segment, counting from `head`.
    spec fn segment(&self, k: int) -> Segment<T> {
        self.segments@[self.head + k]
    }

    /// The push cursor of the `k`-th live segment.
    pub closed spec fn push_cursor(&self, k: int) -> int {
        self.segment(k).push_idx as int
    }

    /// The pop cursor of the `k`-th live segment.
    pub closed spec fn pop_cursor(&self, k: int) -> int {
        self.segment(k).pop_idx as int
    }

    /// Whether another segment is linked after the `k`-th live segment.
    pub closed spec fn has_next(&self, k: int) -> bool {
        self.segment(k).next is Some
    }

    /// The claim state of slot `j` of the `k`-th live segment.
    pub closed spec fn slot_state(&self, k: int, j: int) -> SlotState {
        self.segment(k).slots@[j].state
    }

    /// The element in slot `j` of the `k`-th live segment.
    pub closed spec fn slot_elem(&self, k: int, j: int) -> Option<T> {
        self.segment(k).slots@[j].elem
    }

    /// Well-formedness between operations: no reservation is in flight.
    pub closed spec fn wf(&self) -> bool {
        self.inv(NODE_SIZE as int)
    }

    /// Creates an empty queue of one empty segment.
    pub fn new() -> (r: Self)
        ensures
            r.wf(),
            r@ == Seq::<T>::empty(),
            r.segment_count() == 1,
            r.push_cursor(0) == 0,
            r.pop_cursor(0) == 0,
            !r.has_next(0),
            forall|j: int|
                0 <= j < NODE_SIZE ==> #[trigger] r.slot_state(0, j) == SlotState::Empty
                    && r.slot_elem(0, j) is None,
    {
        let mut segments = Vec::new();
        segments.push(Segment::new());
        let r = Queue { segments, head: 0, tail: 0 };
        assert(elems_from(r.segments@, 1) == Seq::<T>::empty());
        assert(r@ =~= Seq::<T>::empty());
        r
    }

    /// Fetch-and-add on the push cursor of segment `s`.
    fn reserve_push(&mut self, s: usize) -> (idx: usize)
        requires
            s < old(self).segments@.len(),
            old(self).segments@[s as int].push_idx < usize::MAX,
        ensures
            idx == old(self).segments@[s as int].push_idx,
            final(self).head == old(self).head,
            final(self).tail == old(self).tail,
            final(self).segments@ == old(self).segments@.update(
                s as int,
                (Segment { push_idx: (idx + 1) as usize, ..old(self).segments@[s as int] }),
            ),
    {
        let mut seg = Segment::shell();
        self.segments.set_and_swap(s, &mut seg);
        let idx = seg.push_idx;
        seg.push_idx = idx + 1;
        self.segments.set_and_swap(s, &mut seg);
        idx
    }

    /// Fetch-and-add on the pop cursor of segment `s`.
    fn reserve_pop(&mut self, s: usize) -> (idx: usize)
        requires
            s < old(self).segments@.len(),
            old(self).segments@[s as int].pop_idx < usize::MAX,
        ensures
            idx == old(self).segments@[s as int].pop_idx,
            final(self).head == old(self).head,
            final(self).tail == old(self).tail,
            final(self).segments@ == old(self).segments@.update(
                s as int,
                (Segment { pop_idx: (idx + 1) as usize, ..old(self).segments@[s as int] }),
            ),
    {
        let mut seg = Segment::shell();
        self.segments.set_and_swap(s, &mut seg);
        let idx = seg.pop_idx;
        seg.pop_idx = idx + 1;
        self.segments.set_and_swap(s, &mut seg);
        idx
    }

    /// The producer's side of the slot handshake: an empty slot takes `elem`
    /// and becomes filled; a slot that a consumer has already abandoned hands
    /// `elem` back.
    fn write_slot(&mut self, s: usize, idx: usize, elem: T) -> (r: Result<(), T>)
        requires
            s < old(self).segments@.len(),
            idx < old(self).segments@[s as int].slots@.len(),
        ensures
            final(self).head == old(self).head,
            final(self).tail == old(self).tail,
            old(self).segments@[s as int].slots@[idx as int].state == SlotState::Empty ==> r
                is Ok && slot_replaced(
                old(self).segments@,
                final(self).segments@,
                s as int,
                idx as int,
                (Slot { elem: Some(elem), state: SlotState::Filled }),
            ),
            old(self).segments@[s as int].slots@[idx as int].state != SlotState::Empty ==> r
                == Err::<(), T>(elem) && final(self).segments@ == old(self).segments@,
    {
        if self.segments[s].slots[idx].state != SlotState::Empty {
            return Err(elem);
        }
        let mut seg = Segment::shell();
        self.segments.set_and_swap(s, &mut seg);
        seg.slots.set(idx, Slot { elem: Some(elem), state: SlotState::Filled });
        self.segments.set_and_swap(s, &mut seg);
        Ok(())
    }

    /// Returns `true` if slot `idx` of segment `s` is filled.
    fn slot_filled(&self, s: usize, idx: usize) -> (r: bool)
        requires
            s < self.segments@.len(),
            idx < self.segments@[s as int].slots@.len(),
        ensures
            r == (self.segments@[s as int].slots@[idx as int].state == SlotState::Filled),
    {
        self.segments[s].slots[idx].state == SlotState::Filled
    }

    /// Looks at slot `idx` of segment `s` a bounded number of times, waiting for
    /// its producer to fill it; returns whether it was seen filled.
    fn wait_filled(&self, s: usize, idx: usize) -> (r: bool)
        requires
            s < self.segments@.len(),
            idx < self.segments@[s as int].slots@.len(),
        ensures
            r == (self.segments@[s as int].slots@[idx as int].state == SlotState::Filled),
    {
        let mut spins: usize = 0;
        while spins < READ_RETRIES
            invariant
                s < self.segments@.len(),
                idx < self.segments@[s as int].slots@.len(),
            decreases READ_RETRIES - spins,
        {
            if self.slot_filled(s, idx) {
                return true;
            }
            spins += 1;
        }
        self.slot_filled(s, idx)
    }

    /// The consumer's side of the slot handshake: the slot becomes taken; if it
    /// was filled its element is moved out and returned, otherwise the slot is
    /// abandoned and nothing is returned.
    fn claim_slot(&mut self, s: usize, idx: usize) -> (r: Option<T>)
        requires
            s < old(self).segments@.len(),
            idx < old(self).segments@[s as int].slots@.len(),
        ensures
            final(self).head == old(self).head,
            final(self).tail == old(self).tail,
            r == (if old(self).segments@[s as int].slots@[idx as int].state
                == SlotState::Filled {
                old(self).segments@[s as int].slots@[idx as int].elem
            } else {
                None
            }),
            slot_replaced(
                old(self).segments@,
                final(self).segments@,
                s as int,
                idx as int,
                (Slot {
                    elem: (if old(self).segments@[s as int].slots@[idx as int].state
                        == SlotState::Filled {
                        None
                    } else {
                        old(self).segments@[s as int].slots@[idx as int].elem
                    }),
                    state: SlotState::Taken,
                }),
            ),
    {
        let mut seg = Segment::shell();
        self.segments.set_and_swap(s, &mut seg);
        let mut slot = Slot::new();
        seg.slots.set_and_swap(idx, &mut slot);
        let Slot { elem, state } = slot;
        let r;
        let mut claimed;
        if state == SlotState::Filled {
            r = elem;
            claimed = Slot { elem: None, state: SlotState::Taken };
        } else {
            r = None;
            claimed = Slot { elem, state: SlotState::Taken };
        }
        let ghost original = old(self).segments@[s as int].slots@;
        let ghost placed = claimed;
        seg.slots.set_and_swap(idx, &mut claimed);
        assert(seg.slots@ =~= original.update(idx as int, placed));
        self.segments.set_and_swap(s, &mut seg);
        r
    }

    /// Compare-and-swap of `tail` from `current` to `new`.
    fn cas_tail(&mut self, current: usize, new: usize) -> (r: bool)
        ensures
            r == (old(self).tail == current),
            final(self).tail == (if r { new } else { old(self).tail }),
            final(self).head == old(self).head,
            final(self).segments == old(self).segments,
    {
        if self.tail == current {
            self.tail = new;
            true
        } else {
            false
        }
    }

    /// Compare-and-swap of `head` from `current` to `new`. The winner retires
    /// the segment it unlinked: the segment keeps its place in the arena and
    /// releases its slots.
    fn advance_head(&mut self, current: usize, new: usize) -> (r: bool)
        requires
            current < old(self).segments@.len(),
        ensures
            r == (old(self).head == current),
            final(self).head == (if r { new } else { old(self).head }),
            final(self).tail == old(self).tail,
            final(self).segments@.len() == old(self).segments@.len(),
            forall|k: int|
                0 <= k < old(self).segments@.len() && (!r || k != current)
                    ==> final(self).segments@[k] == old(self).segments@[k],
            r ==> final(self).segments@[current as int].slots@.len() == 0,
            r ==> final(self).segments@[current as int].next
                == old(self).segments@[current as int].next,
    {
        if self.head != current {
            return false;
        }
        self.head = new;
        let mut seg = Segment::shell();
        self.segments.set_and_swap(current, &mut seg);
        seg.slots = Vec::new();
        self.segments.set_and_swap(current, &mut seg);
        true
    }

    /// Frees the retired segments once they are at least as many as the live
    /// ones: the live segments move to the front of a fresh arena and every
    /// position is renumbered. Runs between operations, when no position read
    /// by an operation is still in use.
    fn reclaim_retired(&mut self)
        requires
            old(self).wf(),
        ensures
            final(self).wf(),
            final(self)@ == old(self)@,
            final(self).segments@.len() - final(self).head
                == old(self).segments@.len() - old(self).head,
    {
        let head = self.head;
        if head < self.segments.len() - head {
            return;
        }
        let mut live = self.segments.split_off(head);
        let ghost moved = live@;
        let last = live.len() - 1;
        let mut i: usize = 0;
        while i < last
            invariant
                live@.len() == moved.len(),
                last == moved.len() - 1,
                i <= last,
                forall|j: int| 0 <= j < i ==> #[trigger] live@[j].next == Some((j + 1) as usize),
                forall|j: int|
                    0 <= j < moved.len() ==> (#[trigger] live@[j]) == (Segment {
                        next: live@[j].next,
                        ..moved[j]
                    }),
                forall|j: int| i <= j < moved.len() ==> #[trigger] live@[j] == moved[j],
            decreases last - i,
        {
            set_next(&mut live, i, i + 1);
            i += 1;
        }
        self.tail = self.tail - head;
        self.head = 0;
        self.segments = live;
        proof {
            let before = old(self).segments@;
            assert(forall|j: int|
                0 <= j < moved.len() ==> #[trigger] moved[j] == before[head + j]);
            assert(self.segments@.last() == before.last());
            assert(forall|j: int|
                0 <= j < moved.len() ==> (#[trigger] self.segments@[j]).elems() == moved[j].elems());
            lemma_elems_from_ext(self.segments@, moved, 0);
            lemma_elems_from_skip(before, head as int, head as int);
            assert(forall|j: int|
                0 <= j < moved.len() ==> (#[trigger] self.segments@[j]).wf() == before[head + j].wf());
        }
    }

    /// Called when the tail segment is full: links a new segment whose first
    /// slot holds `elem` after it and swings `tail` to it; if another segment
    /// was linked already, helps swing `tail` and hands `elem` back.
    fn push_new_node(&mut self, tail: usize, elem: T) -> (r: Result<(), T>)
        requires
            old(self).inv(NODE_SIZE + 1),
            tail == old(self).tail,
            old(self).segments@[tail as int].push_idx >= NODE_SIZE,
        ensures
            r is Ok,
            final(self).wf(),
            final(self)@ == old(self)@.push(elem),
            final(self).head == old(self).head,
            final(self).tail == old(self).segments@.len(),
            final(self).segments@.len() == old(self).segments@.len() + 1,
            final(self).segments@.drop_last() == old(self).segments@.update(
                tail as int,
                (Segment {
                    next: Some(old(self).segments@.len() as usize),
                    ..old(self).segments@[tail as int]
                }),
            ),
            fresh_with(final(self).segments@.last(), elem),
    {
        match self.segments[tail].next {
            None => {
                let n = self.segments.len();
                let ghost before = self.segments@;
                self.segments.push(Segment::with_first(elem));
                let ghost grown = self.segments@;
                set_next(&mut self.segments, tail, n);
                let _ = self.cas_tail(tail, n);
                proof {
                    let linked = before.update(
                        tail as int,
                        (Segment { next: Some(n), ..before[tail as int] }),
                    );
                    assert(self.segments@ =~= linked.push(grown[n as int]));
                    assert(self.segments@.drop_last() =~= linked);
                    lemma_elems_from_ext(linked, before, self.head as int);
                    lemma_elems_from_push(linked, grown[n as int], self.head as int);
                    assert(forall|i: int|
                        self.head <= i < self.segments@.len() ==> (#[trigger] self.segments@[i]).wf());
                }
                Ok(())
            },
            Some(next) => {
                let _ = self.cas_tail(tail, next);
                Err(elem)
            },
        }
    }

    /// Pushes `elem` to the tail of the queue.
    pub fn push(&mut self, elem: T)
        requires
            old(self).wf(),
        ensures
            final(self).wf(),
            final(self)@ == old(self)@.push(elem),
            ({
                let c = old(self).segment_count() as int;
                let t = c - 1;
                let p = old(self).push_cursor(t);
                &&& p < NODE_SIZE ==> {
                    &&& final(self).segment_count() == c
                    &&& final(self).slot_state(t, p) == SlotState::Filled
                    &&& final(self).slot_elem(t, p) == Some(elem)
                }
                &&& p >= NODE_SIZE ==> {
                    &&& final(self).segment_count() == c + 1
                    &&& final(self).has_next(t)
                    &&& final(self).push_cursor(c) == 1
                    &&& final(self).pop_cursor(c) == 0
                    &&& !final(self).has_next(c)
                    &&& final(self).slot_state(c, 0) == SlotState::Filled
                    &&& final(self).slot_elem(c, 0) == Some(elem)
                    &&& forall|j: int|
                        1 <= j < NODE_SIZE ==> #[trigger] final(self).slot_state(c, j)
                            == SlotState::Empty && final(self).slot_elem(c, j) is None
                }
                &&& final(self).push_cursor(t) == p + 1
                &&& forall|k: int, j: int|
                    0 <= k < c && 0 <= j < NODE_SIZE && !(k == t && j == p)
                        ==> #[trigger] final(self).slot_state(k, j) == old(self).slot_state(k, j)
                        && final(self).slot_elem(k, j) == old(self).slot_elem(k, j)
                &&& forall|k: int|
                    0 <= k < c ==> #[trigger] final(self).pop_cursor(k) == old(self).pop_cursor(k)
                &&& forall|k: int|
                    0 <= k < t ==> #[trigger] final(self).push_cursor(k) == old(self).push_cursor(k)
                        && final(self).has_next(k) == old(self).has_next(k)
            }),
    {
        let ghost v = elem;
        let mut elem = elem;
        loop
            invariant_except_break
                self.segments@ == old(self).segments@,
                self.tail == old(self).tail,
                elem == v,
            invariant
                self.wf(),
                self.head == old(self).head,
            ensures
                self@ == old(self)@.push(v),
                old(self).segments@[old(self).tail as int].push_idx < NODE_SIZE ==> placed_at_cursor(
                    old(self).segments@,
                    self.segments@,
                    old(self).tail as int,
                    v,
                ),
                old(self).segments@[old(self).tail as int].push_idx >= NODE_SIZE
                    ==> linked_new_segment(
                    old(self).segments@,
                    self.segments@,
                    old(self).tail as int,
                    v,
                ),
            decreases self.segments@.len() - self.tail,
        {
            let tail = self.tail;
            let ghost before = self.segments@;
            let idx = self.reserve_push(tail);
            if idx < NODE_SIZE {
                let ghost reserved = self.segments@;
                match self.write_slot(tail, idx, elem) {
                    Ok(()) => {
                        proof {
                            lemma_write_last(
                                before,
                                reserved,
                                self.segments@,
                                self.head as int,
                                v,
                            );
                        }
                        break;
                    },
                    Err(e) => {
                        // a consumer abandoned the slot: reserve another one
                        elem = e;
                    },
                }
            } else {
                if self.tail != tail {
                    // another push moved tail on: retry
                    continue;
                }
                proof {
                    let b = before[tail as int];
                    let a = self.segments@[tail as int];
                    assert(a.elems() =~= b.elems());
                    lemma_elems_from_ext(self.segments@, before, self.head as int);
                }
                let ghost reserved = self.segments@;
                match self.push_new_node(tail, elem) {
                    Ok(()) => {
                        proof {
                            assert(self.segments@.drop_last() =~= before.update(
                                tail as int,
                                (Segment {
                                    push_idx: (before[tail as int].push_idx + 1) as usize,
                                    next: Some(before.len() as usize),
                                    ..before[tail as int]
                                }),
                            ));
                        }
                        break;
                    },
                    Err(e) => {
                        elem = e;
                    },
                }
            }
        }
        proof {
            let h = self.head as int;
            let t = old(self).tail as int;
            let before = old(self).segments@;
            let after = self.segments@;
            let p = before[t].push_idx as int;
            assert forall|k: int| 0 <= k < before.len() && k != t implies after[k] == before[k] by {
                if p >= NODE_SIZE {
                    assert(after[k] == after.drop_last()[k]);
                }
            }
            if p >= NODE_SIZE {
                assert(after[t] == after.drop_last()[t]);
            }
            assert forall|k: int, j: int|
                0 <= k < before.len() - h && 0 <= j < NODE_SIZE && !(k == t - h && j == p)
                    implies #[trigger] after[h + k].slots@[j] == before[h + k].slots@[j] by {
                if h + k != t {
                    assert(after[h + k] == before[h + k]);
                }
            }
        }
    }

    /// Pops the element at the front of the queue, or returns `None` if the
    /// queue is empty.
    pub fn pop(&mut self) -> (r: Option<T>)
        requires
            old(self).wf(),
        ensures
            final(self).wf(),
            r == popped(old(self)@),
            final(self)@ == after_pop(old(self)@),
            ({
                let c = old(self).segment_count() as int;
                let p = old(self).pop_cursor(0);
                p < old(self).push_cursor(0) && p < NODE_SIZE ==> {
                    &&& final(self).segment_count() == c
                    &&& r == old(self).slot_elem(0, p)
                    &&& final(self).pop_cursor(0) == p + 1
                    &&& final(self).slot_state(0, p) == SlotState::Taken
                    &&& final(self).slot_elem(0, p) is None
                    &&& forall|k: int, j: int|
                        0 <= k < c && 0 <= j < NODE_SIZE && !(k == 0 && j == p)
                            ==> #[trigger] final(self).slot_state(k, j)
                            == old(self).slot_state(k, j)
                            && final(self).slot_elem(k, j) == old(self).slot_elem(k, j)
                    &&& forall|k: int|
                        0 <= k < c ==> #[trigger] final(self).push_cursor(k)
                            == old(self).push_cursor(k)
                            && final(self).has_next(k) == old(self).has_next(k)
                    &&& forall|k: int|
                        0 < k < c ==> #[trigger] final(self).pop_cursor(k)
                            == old(self).pop_cursor(k)
                }
            }),
    {
        loop
            invariant
                self.wf(),
                self@ == old(self)@,
                ({
                    let p = old(self).pop_cursor(0);
                    p < old(self).push_cursor(0) && p < NODE_SIZE
                        ==> self.segments@ == old(self).segments@ && self.head == old(self).head
                }),
            decreases self.segments@.len() - self.head,
        {
            let head = self.head;
            let pop_idx = self.segments[head].pop_idx;
            let push_idx = self.segments[head].push_idx;
            if push_idx <= pop_idx && self.segments[head].next.is_none() {
                proof {
                    assert(self.segments@[head as int].elems() =~= Seq::<T>::empty());
                    assert(elems_from(self.segments@, head + 1) == Seq::<T>::empty());
                    assert(self@ =~= Seq::<T>::empty());
                }
                return None;
            }
            let ghost before = self.segments@;
            proof {
                let seg = before[head as int];
                if head < before.len() - 1 {
                    assert(seg.push_idx >= NODE_SIZE);
                }
                assert(seg.pop_idx <= seg.hi());
            }
            let idx = self.reserve_pop(head);
            if idx < NODE_SIZE {
                proof {
                    let seg = before[head as int];
                    assert(seg.slots@[idx as int].state == seg.state_at(idx as int));
                }
                let _ = self.wait_filled(head, idx);
                let ghost reserved = self.segments@;
                match self.claim_slot(head, idx) {
                    Some(elem) => {
                        proof {
                            lemma_take_first(before, reserved, self.segments@, head as int);
                            let after = self.segments@;
                            let h = head as int;
                            assert forall|k: int|
                                0 <= k < before.len() && k != h implies after[k] == before[k] by {
                                assert(after[k] == reserved[k]);
                            }
                            assert forall|k: int, j: int|
                                0 <= k < before.len() - h && 0 <= j < NODE_SIZE && !(k == 0
                                    && j == idx) implies #[trigger] after[h + k].slots@[j]
                                == before[h + k].slots@[j] by {
                                if k != 0 {
                                    assert(after[h + k] == before[h + k]);
                                }
                            }
                        }
                        return Some(elem);
                    },
                    None => {
                        // the producer of this slot never arrived: it stays
                        // abandoned, reserve another one
                        continue;
                    },
                }
            } else {
                match self.segments[head].next {
                    None => {
                        return None;
                    },
                    Some(next) => {
                        let ghost reserved = self.segments@;
                        proof {
                            assert(before[head as int].elems() =~= Seq::<T>::empty());
                        }
                        if self.advance_head(head, next) {
                            proof {
                                lemma_retire_head(before, self.segments@, head as int);
                            }
                            self.reclaim_retired();
                        }
                    },
                }
            }
        }
    }

    /// Applies `ops` to the queue in order and returns, in order, the values
    /// that its pops returned.
    pub fn apply(&mut self, ops: Vec<Op<T>>) -> (out: Vec<T>)
        requires
            old(self).wf(),
        ensures
            final(self).wf(),
            (final(self)@, out@) == run(old(self)@, ops@),
    {
        let mut ops = ops;
        let ghost all = ops@;
        let mut out: Vec<T> = Vec::new();
        let n = ops.len();
        let mut i: usize = 0;
        while i < n
            invariant
                self.wf(),
                n == all.len(),
                i <= n,
                ops@.len() == n,
                forall|j: int| i <= j < n ==> #[trigger] ops@[j] == all[j],
                (self@, out@) == run(old(self)@, all.take(i as int)),
            decreases n - i,
        {
            let mut op = Op::Pop;
            ops.set_and_swap(i, &mut op);
            match op {
                Op::Push(v) => {
                    self.push(v);
                },
                Op::Pop => {
                    if let Some(v) = self.pop() {
                        out.push(v);
                    }
                },
            }
            proof {
                assert(all.take(i + 1).drop_last() =~= all.take(i as int));
            }
            i += 1;
        }
        proof {
            assert(all.take(n as int) =~= all);
        }
        out
    }
}

impl<T> Default for Queue<T> {
    fn default() -> (r: Self)
        ensures
            r.wf(),
            r@ == Seq::<T>::empty(),
    {
        Self::new()
    }
}

} // verus!
