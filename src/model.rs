//! The abstract FIFO queue that both queue implementations refine.
use vstd::prelude::*;

verus! {

/// One operation on a FIFO queue, as seen by its callers.
pub enum Op<T> {
    Push(T),
    Pop,
}

/// The queue contents after `pop` on a queue whose contents are `q`.
pub open spec fn after_pop<T>(q: Seq<T>) -> Seq<T> {
    if q.len() == 0 {
        q
    } else {
        q.drop_first()
    }
}

/// What `pop` returns on a queue whose contents are `q`.
pub open spec fn popped<T>(q: Seq<T>) -> Option<T> {
    if q.len() == 0 {
        None
    } else {
        Some(q[0])
    }
}

/// Runs `ops` in order on a queue holding `q`; the result is the final contents
/// and the sequence of values that the pops returned (empty pops return nothing).
pub open spec fn run<T>(q: Seq<T>, ops: Seq<Op<T>>) -> (Seq<T>, Seq<T>)
    decreases ops.len(),
{
    if ops.len() == 0 {
        (q, Seq::empty())
    } else {
        let (q1, out1) = run(q, ops.drop_last());
        match ops.last() {
            Op::Push(v) => (q1.push(v), out1),
            Op::Pop => match popped(q1) {
                Some(v) => (after_pop(q1), out1.push(v)),
                None => (q1, out1),
            },
        }
    }
}

/// The values that the pushes of `ops` insert, in order.
pub open spec fn pushed<T>(ops: Seq<Op<T>>) -> Seq<T>
    decreases ops.len(),
{
    if ops.len() == 0 {
        Seq::empty()
    } else {
        match ops.last() {
            Op::Push(v) => pushed(ops.drop_last()).push(v),
            Op::Pop => pushed(ops.drop_last()),
        }
    }
}

/// `n` pushes of the values of `s`, in order.
pub open spec fn push_all<T>(s: Seq<T>) -> Seq<Op<T>> {
    Seq::new(s.len(), |i: int| Op::Push(s[i]))
}

/// `n` pops.
pub open spec fn pop_n<T>(n: nat) -> Seq<Op<T>> {
    Seq::new(n, |i: int| Op::Pop)
}

/// Everything that came out of a queue, followed by what is still in it, is
/// exactly what went in, in the same order: nothing is lost, duplicated or
/// reordered.
pub proof fn lemma_fifo<T>(ops: Seq<Op<T>>)
    ensures
        run(Seq::empty(), ops).1 + run(Seq::empty(), ops).0 == pushed(ops),
    decreases ops.len(),
{
    if ops.len() > 0 {
        lemma_fifo(ops.drop_last());
        let (q1, out1) = run(Seq::<T>::empty(), ops.drop_last());
        match ops.last() {
            Op::Push(v) => {
                assert(out1 + q1.push(v) =~= (out1 + q1).push(v));
            },
            Op::Pop => {
                if q1.len() > 0 {
                    assert(out1.push(q1[0]) + q1.drop_first() =~= out1 + q1);
                }
            },
        }
    }
}

/// For the values of any one producer (those that satisfy `from`), the values
/// popped so far are a prefix of that producer's pushes, in push order.
pub proof fn lemma_fifo_per_producer<T>(ops: Seq<Op<T>>, from: spec_fn(T) -> bool)
    ensures
        run(Seq::empty(), ops).1.filter(from) + run(Seq::empty(), ops).0.filter(from)
            == pushed(ops).filter(from),
        run(Seq::empty(), ops).1.filter(from).is_prefix_of(pushed(ops).filter(from)),
{
    let (q, out) = run(Seq::<T>::empty(), ops);
    lemma_fifo(ops);
    Seq::filter_distributes_over_add(out, q, from);
    let a = out.filter(from);
    let b = q.filter(from);
    assert((a + b).subrange(0, a.len() as int) =~= a);
}

/// The values popped plus the values still queued form the same multiset as
/// the values pushed.
pub proof fn lemma_no_loss_no_duplication<T>(ops: Seq<Op<T>>)
    ensures
        run(Seq::empty(), ops).1.to_multiset().add(run(Seq::empty(), ops).0.to_multiset())
            == pushed(ops).to_multiset(),
{
    let (q, out) = run(Seq::<T>::empty(), ops);
    lemma_fifo(ops);
    vstd::seq_lib::lemma_multiset_commutative(out, q);
}

proof fn lemma_run_pushes<T>(s: Seq<T>)
    ensures
        run(Seq::empty(), push_all(s)) == (s, Seq::<T>::empty()),
    decreases s.len(),
{
    if s.len() > 0 {
        lemma_run_pushes(s.drop_last());
        assert(push_all(s).drop_last() =~= push_all(s.drop_last()));
        assert(s.drop_last().push(s.last()) =~= s);
    } else {
        assert(push_all(s) =~= Seq::empty());
        assert(s =~= Seq::empty());
    }
}

proof fn lemma_run_pops<T>(s: Seq<T>, j: nat)
    requires
        j <= s.len(),
    ensures
        run(Seq::empty(), push_all(s) + pop_n(j)) == (s.skip(j as int), s.take(j as int)),
    decreases j,
{
    let ops = push_all(s) + pop_n::<T>(j);
    if j == 0 {
        lemma_run_pushes(s);
        assert(ops =~= push_all(s));
        assert(s.skip(0) =~= s);
        assert(s.take(0) =~= Seq::<T>::empty());
    } else {
        lemma_run_pops(s, (j - 1) as nat);
        assert(ops.drop_last() =~= push_all(s) + pop_n::<T>((j - 1) as nat));
        let q1 = s.skip(j - 1);
        assert(q1[0] == s[j - 1]);
        assert(q1.drop_first() =~= s.skip(j as int));
        assert(s.take(j - 1).push(s[j - 1]) =~= s.take(j as int));
    }
}

/// Pushing the values of `s` onto an empty queue and then popping as many times
/// returns them in push order and leaves the queue empty.
pub proof fn lemma_round_trip<T>(s: Seq<T>)
    ensures
        run(Seq::empty(), push_all(s) + pop_n(s.len())) == (Seq::<T>::empty(), s),
{
    lemma_run_pops(s, s.len());
    assert(s.skip(s.len() as int) =~= Seq::<T>::empty());
    assert(s.take(s.len() as int) =~= s);
}

} // verus!
