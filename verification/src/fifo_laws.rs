//! The FIFO discipline, stated once over the model that every queue's
//! contracts share.
//!
//! Each queue variant's view is the sequence of values it holds, oldest
//! first; `enqueue` ensures the view grows by `push` at the back, and `deque`
//! ensures it shrinks by `drop_first` at the front, handing out the front
//! value, or hands out `None` and leaves the view unchanged when it is empty.
//! The laws here say what iterating those two contracts yields: enqueuing a
//! sequence of values onto an empty queue makes the view that sequence, and
//! dequeuing over and over returns exactly the enqueued values in their
//! order, followed by the empty marker forever after.

use vstd::prelude::*;

verus! {

/// The view after enqueuing the values of `vs`, one at a time and in order,
/// onto a queue whose view is `q`: each enqueue pushes at the back, as every
/// variant's `enqueue` ensures.
pub open spec fn enqueued_all(q: Seq<i32>, vs: Seq<i32>) -> Seq<i32>
    decreases vs.len(),
{
    if vs.len() == 0 {
        q
    } else {
        enqueued_all(q.push(vs[0]), vs.drop_first())
    }
}

/// What `n` successive dequeues hand out, starting from a queue whose view
/// is `q`: each dequeue returns the front value and drops it from the view,
/// or returns the empty marker and changes nothing, as every variant's
/// `deque` ensures.
pub open spec fn drained_outputs(q: Seq<i32>, n: nat) -> Seq<Option<i32>>
    decreases n,
{
    if n == 0 {
        Seq::<Option<i32>>::empty()
    } else if q.len() == 0 {
        seq![Option::<i32>::None] + drained_outputs(q, (n - 1) as nat)
    } else {
        seq![Option::Some(q[0])] + drained_outputs(q.drop_first(), (n - 1) as nat)
    }
}

/// Enqueuing a sequence of values appends them behind whatever the queue
/// already holds; onto an empty queue, the view becomes exactly that
/// sequence.
pub proof fn lemma_enqueued_all_appends(q: Seq<i32>, vs: Seq<i32>)
    ensures
        enqueued_all(q, vs) == q + vs,
    decreases vs.len(),
{
    if vs.len() == 0 {
        assert(enqueued_all(q, vs) =~= q + vs);
    } else {
        lemma_enqueued_all_appends(q.push(vs[0]), vs.drop_first());
        assert(q.push(vs[0]) + vs.drop_first() =~= q + vs);
    }
}

/// First-in, first-out: dequeuing `n` times from a queue holding `vs` hands
/// out the values of `vs` in their exact order, and then the empty marker
/// for every dequeue past the end — so a drained queue reports empty
/// repeatably, and never invents a value.
pub proof fn lemma_fifo_ordering(vs: Seq<i32>, n: nat)
    ensures
        n <= vs.len() ==> drained_outputs(vs, n) == Seq::new(n, |i: int| Some(vs[i])),
        n > vs.len() ==> drained_outputs(vs, n) == Seq::new(vs.len(), |i: int| Some(vs[i]))
            + Seq::new((n - vs.len()) as nat, |i: int| Option::<i32>::None),
    decreases n,
{
    if n == 0 {
        assert(drained_outputs(vs, n) =~= Seq::new(n, |i: int| Some(vs[i])));
    } else if vs.len() == 0 {
        lemma_fifo_ordering(vs, (n - 1) as nat);
        assert(drained_outputs(vs, n) =~= Seq::new(vs.len(), |i: int| Some(vs[i])) + Seq::new(
            (n - vs.len()) as nat,
            |i: int| Option::<i32>::None,
        ));
    } else {
        lemma_fifo_ordering(vs.drop_first(), (n - 1) as nat);
        if n <= vs.len() {
            assert(drained_outputs(vs, n) =~= Seq::new(n, |i: int| Some(vs[i])));
        } else {
            assert(drained_outputs(vs, n) =~= Seq::new(vs.len(), |i: int| Some(vs[i])) + Seq::new(
                (n - vs.len()) as nat,
                |i: int| Option::<i32>::None,
            ));
        }
    }
}

/// The empty-queue contract, iterated: a queue holding nothing hands out the
/// empty marker on every one of `n` dequeues, leaving the queue empty each
/// time.
pub proof fn lemma_empty_queue_dequeue(n: nat)
    ensures
        drained_outputs(Seq::<i32>::empty(), n) == Seq::new(n, |i: int| Option::<i32>::None),
{
    lemma_fifo_ordering(Seq::<i32>::empty(), n);
    assert(drained_outputs(Seq::<i32>::empty(), n) =~= Seq::new(n, |i: int| Option::<i32>::None));
}

/// One step of the capability contract, for stating what an arbitrary
/// interleaving of operations does.
pub enum QueueOp {
    Enqueue(i32),
    Dequeue,
}

/// The view after running `ops`, in order, from a queue whose view is `q`.
pub open spec fn run_view(q: Seq<i32>, ops: Seq<QueueOp>) -> Seq<i32>
    decreases ops.len(),
{
    if ops.len() == 0 {
        q
    } else {
        match ops[0] {
            QueueOp::Enqueue(v) => run_view(q.push(v), ops.drop_first()),
            QueueOp::Dequeue => if q.len() == 0 {
                run_view(q, ops.drop_first())
            } else {
                run_view(q.drop_first(), ops.drop_first())
            },
        }
    }
}

/// The values that the dequeues among `ops` hand out, in order, when `ops`
/// runs from a queue whose view is `q`. A dequeue of an empty queue hands
/// out the empty marker, which contributes no value here.
pub open spec fn run_outputs(q: Seq<i32>, ops: Seq<QueueOp>) -> Seq<i32>
    decreases ops.len(),
{
    if ops.len() == 0 {
        Seq::<i32>::empty()
    } else {
        match ops[0] {
            QueueOp::Enqueue(v) => run_outputs(q.push(v), ops.drop_first()),
            QueueOp::Dequeue => if q.len() == 0 {
                run_outputs(q, ops.drop_first())
            } else {
                seq![q[0]] + run_outputs(q.drop_first(), ops.drop_first())
            },
        }
    }
}

/// The values that the enqueues among `ops` feed in, in order.
pub open spec fn enqueued_of(ops: Seq<QueueOp>) -> Seq<i32>
    decreases ops.len(),
{
    if ops.len() == 0 {
        Seq::<i32>::empty()
    } else {
        match ops[0] {
            QueueOp::Enqueue(v) => seq![v] + enqueued_of(ops.drop_first()),
            QueueOp::Dequeue => enqueued_of(ops.drop_first()),
        }
    }
}

/// Interleaving stability: however enqueues and dequeues are interleaved,
/// the values handed out, followed by the values still held, are exactly the
/// values initially held followed by the values fed in — in their order. So
/// no interleaving of batches can reorder, lose or invent a value.
pub proof fn lemma_interleaving_stability(q: Seq<i32>, ops: Seq<QueueOp>)
    ensures
        run_outputs(q, ops) + run_view(q, ops) == q + enqueued_of(ops),
    decreases ops.len(),
{
    if ops.len() == 0 {
        assert(run_outputs(q, ops) + run_view(q, ops) =~= q + enqueued_of(ops));
    } else {
        match ops[0] {
            QueueOp::Enqueue(v) => {
                lemma_interleaving_stability(q.push(v), ops.drop_first());
                assert(q.push(v) + enqueued_of(ops.drop_first()) =~= q + enqueued_of(ops));
            },
            QueueOp::Dequeue => {
                if q.len() == 0 {
                    lemma_interleaving_stability(q, ops.drop_first());
                } else {
                    lemma_interleaving_stability(q.drop_first(), ops.drop_first());
                    let rest_out = run_outputs(q.drop_first(), ops.drop_first());
                    let rest_view = run_view(q.drop_first(), ops.drop_first());
                    assert(run_outputs(q, ops) == seq![q[0]] + rest_out);
                    assert(run_view(q, ops) == rest_view);
                    assert((seq![q[0]] + rest_out) + rest_view =~= seq![q[0]] + (rest_out
                        + rest_view));
                    assert(seq![q[0]] + (q.drop_first() + enqueued_of(ops.drop_first())) =~= q
                        + enqueued_of(ops));
                }
            },
        }
    }
}

} // verus!
