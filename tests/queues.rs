use std::cell::Cell;
use std::rc::Rc;

use lockfree_queue::model::Op;
use lockfree_queue::{FAAQueue, Queue, NODE_SIZE};

/// Counts how many times values of this type are dropped.
struct DropCounted {
    id: u64,
    drops: Rc<Cell<usize>>,
}

impl Drop for DropCounted {
    fn drop(&mut self) {
        self.drops.set(self.drops.get() + 1);
    }
}

fn linked_round_trip(n: u64) {
    let mut q = Queue::new();
    for i in 0..n {
        q.push(i);
    }
    for i in 0..n {
        assert_eq!(q.pop(), Some(i));
    }
    assert_eq!(q.pop(), None);
    assert!(q.is_empty());
}

fn faa_round_trip(n: u64) {
    let mut q = FAAQueue::new();
    for i in 0..n {
        q.push(i);
    }
    for i in 0..n {
        assert_eq!(q.pop(), Some(i));
    }
    assert_eq!(q.pop(), None);
}

#[test]
fn linked_new_queue_is_empty() {
    let mut q: Queue<u64> = Queue::new();
    assert!(q.is_empty());
    assert_eq!(q.pop(), None);
    assert!(q.is_empty());
}

#[test]
fn linked_default_queue_is_empty() {
    let mut q: Queue<String> = Queue::default();
    assert!(q.is_empty());
    assert_eq!(q.pop(), None);
}

#[test]
fn faa_new_queue_pops_nothing() {
    let mut q: FAAQueue<u64> = FAAQueue::new();
    assert_eq!(q.pop(), None);
    assert_eq!(q.pop(), None);
}

#[test]
fn faa_default_queue_pops_nothing() {
    let mut q: FAAQueue<String> = FAAQueue::default();
    assert_eq!(q.pop(), None);
}

#[test]
fn linked_is_empty_follows_contents() {
    let mut q = Queue::new();
    q.push(5u8);
    assert!(!q.is_empty());
    q.push(6u8);
    assert_eq!(q.pop(), Some(5));
    assert!(!q.is_empty());
    assert_eq!(q.pop(), Some(6));
    assert!(q.is_empty());
    assert_eq!(q.pop(), None);
}

#[test]
fn linked_round_trip_sizes() {
    for n in [0u64, 1, 1025, 4096] {
        linked_round_trip(n);
    }
}

#[test]
fn faa_round_trip_sizes() {
    for n in [0u64, 1, 1025, 4096] {
        faa_round_trip(n);
    }
}

#[test]
fn faa_segment_boundary() {
    let mut q = FAAQueue::new();
    let n = NODE_SIZE as u64 + 1;
    for i in 0..n {
        q.push(i * 3);
    }
    let mut seen = vec![false; n as usize];
    for i in 0..n {
        let v = q.pop().unwrap();
        assert_eq!(v, i * 3);
        let k = (v / 3) as usize;
        assert!(!seen[k]);
        seen[k] = true;
    }
    assert!(seen.iter().all(|s| *s));
    assert_eq!(q.pop(), None);
}

#[test]
fn faa_refills_after_draining_segments() {
    let mut q = FAAQueue::new();
    for round in 0..3u64 {
        for i in 0..(2 * NODE_SIZE as u64 + 7) {
            q.push(round * 10_000 + i);
        }
        for i in 0..(2 * NODE_SIZE as u64 + 7) {
            assert_eq!(q.pop(), Some(round * 10_000 + i));
        }
        assert_eq!(q.pop(), None);
    }
}

#[test]
fn linked_mixed_push_pop_keeps_order() {
    let mut q = Queue::new();
    q.push(1);
    q.push(2);
    assert_eq!(q.pop(), Some(1));
    q.push(3);
    assert_eq!(q.pop(), Some(2));
    assert_eq!(q.pop(), Some(3));
    assert_eq!(q.pop(), None);
    q.push(4);
    assert_eq!(q.pop(), Some(4));
}

/// Producers push `(producer, sequence number)`; the operations of all
/// producers and consumers are interleaved round robin. Every label comes out
/// exactly once, and each producer's labels come out in its push order.
fn interleaved(producers: u64, consumers: u64, per_producer: u64, faa: bool) {
    let mut linked = Queue::new();
    let mut segmented = FAAQueue::new();
    let mut next_seq = vec![0u64; producers as usize];
    let mut last_seen: Vec<Option<u64>> = vec![None; producers as usize];
    let mut popped: Vec<(u64, u64)> = Vec::new();
    let mut step = 0u64;
    loop {
        let all_pushed = next_seq.iter().all(|s| *s == per_producer);
        let p = step % producers;
        if next_seq[p as usize] < per_producer {
            let label = (p, next_seq[p as usize]);
            next_seq[p as usize] += 1;
            if faa {
                segmented.push(label);
            } else {
                linked.push(label);
            }
        }
        for _c in 0..consumers {
            let got = if faa { segmented.pop() } else { linked.pop() };
            if let Some((pid, seq)) = got {
                if let Some(prev) = last_seen[pid as usize] {
                    assert!(prev < seq);
                }
                last_seen[pid as usize] = Some(seq);
                popped.push((pid, seq));
            }
        }
        if all_pushed {
            let got = if faa { segmented.pop() } else { linked.pop() };
            match got {
                Some(label) => popped.push(label),
                None => break,
            }
        }
        step += 1;
    }
    popped.sort();
    let mut expected = Vec::new();
    for p in 0..producers {
        for s in 0..per_producer {
            expected.push((p, s));
        }
    }
    assert_eq!(popped, expected);
}

#[test]
fn linked_interleaved_producers_and_consumers() {
    for p in [1u64, 2, 8] {
        for c in [1u64, 2, 8] {
            interleaved(p, c, 300, false);
        }
    }
}

#[test]
fn faa_interleaved_producers_and_consumers() {
    for p in [1u64, 2, 8] {
        for c in [1u64, 2, 8] {
            interleaved(p, c, 300, true);
        }
    }
}

#[test]
fn faa_interleaving_across_segments_keeps_fifo() {
    let mut q = FAAQueue::new();
    let mut next_in = 0u64;
    let mut next_out = 0u64;
    while next_in < 5000 {
        q.push(next_in);
        q.push(next_in + 1);
        q.push(next_in + 2);
        next_in += 3;
        assert_eq!(q.pop(), Some(next_out));
        next_out += 1;
    }
    while let Some(v) = q.pop() {
        assert_eq!(v, next_out);
        next_out += 1;
    }
    assert_eq!(next_out, next_in);
}

#[test]
fn linked_drop_destructs_queued_elements_once() {
    let drops = Rc::new(Cell::new(0));
    let mut q = Queue::new();
    for id in 0..10u64 {
        q.push(DropCounted { id, drops: drops.clone() });
    }
    for id in 0..4u64 {
        let t = q.pop().unwrap();
        assert_eq!(t.id, id);
        drop(t);
    }
    assert_eq!(drops.get(), 4);
    drop(q);
    assert_eq!(drops.get(), 10);
}

#[test]
fn faa_drop_destructs_queued_elements_once() {
    let drops = Rc::new(Cell::new(0));
    let total = NODE_SIZE as u64 * 2 + 5;
    let mut q = FAAQueue::new();
    for id in 0..total {
        q.push(DropCounted { id, drops: drops.clone() });
    }
    let popped = NODE_SIZE as u64 + 3;
    for id in 0..popped {
        let t = q.pop().unwrap();
        assert_eq!(t.id, id);
    }
    assert_eq!(drops.get(), popped as usize);
    drop(q);
    assert_eq!(drops.get(), total as usize);
}

#[test]
fn drop_of_empty_queues_destructs_nothing() {
    let drops = Rc::new(Cell::new(0));
    let mut a = Queue::new();
    let mut b = FAAQueue::new();
    a.push(DropCounted { id: 1, drops: drops.clone() });
    b.push(DropCounted { id: 2, drops: drops.clone() });
    assert_eq!(a.pop().map(|t| t.id), Some(1));
    assert_eq!(b.pop().map(|t| t.id), Some(2));
    assert_eq!(drops.get(), 2);
    drop(a);
    drop(b);
    assert_eq!(drops.get(), 2);
}

#[test]
fn linked_apply_runs_operations_in_order() {
    let mut q = Queue::new();
    let ops = vec![Op::Push(1u32), Op::Push(2), Op::Pop, Op::Push(3), Op::Pop, Op::Pop, Op::Pop];
    assert_eq!(q.apply(ops), vec![1, 2, 3]);
    assert!(q.is_empty());
    let out = q.apply(vec![Op::Push(9), Op::Push(8)]);
    assert!(out.is_empty());
    assert_eq!(q.pop(), Some(9));
}

#[test]
fn faa_apply_runs_operations_across_segments() {
    let mut q = FAAQueue::new();
    let mut ops = Vec::new();
    for i in 0..(NODE_SIZE as u64 + 1) {
        ops.push(Op::Push(i));
    }
    for _ in 0..(NODE_SIZE + 2) {
        ops.push(Op::Pop);
    }
    let out = q.apply(ops);
    let expected: Vec<u64> = (0..(NODE_SIZE as u64 + 1)).collect();
    assert_eq!(out, expected);
    assert_eq!(q.pop(), None);
}
