//! Abstract model of the queue: a sequence of elements plus a spare-slot
//! count, with one step function per operation. The executable operations
//! promise in their contracts that they follow these steps; the laws at the
//! bottom are proved once over the model and therefore hold of any run of
//! the executable queue.

use vstd::prelude::*;
use vstd::multiset::Multiset;
use vstd::seq_lib::*;
use crate::pow2::{lemma_pow2_ceil_bounds, pow2_ceil};

verus! {

/// One bounded enqueue: succeeds exactly when a spare slot is left, appending
/// the element at the back and consuming one spare slot.
pub open spec fn step_try_enqueue<T>(elems: Seq<T>, spare: nat, e: T) -> (Seq<T>, nat, bool) {
    if spare > 0 {
        (elems.push(e), (spare - 1) as nat, true)
    } else {
        (elems, spare, false)
    }
}

/// One dequeue: removes and returns the oldest element, or reports empty.
pub open spec fn step_try_dequeue<T>(elems: Seq<T>) -> (Seq<T>, Option<T>) {
    if elems.len() > 0 {
        (elems.drop_first(), Some(elems[0]))
    } else {
        (elems, None)
    }
}

/// A run of bounded enqueues, one per element of `es`, in order. Returns the
/// final contents, the spare slots left, and whether every enqueue succeeded.
pub open spec fn run_try_enqueues<T>(elems: Seq<T>, spare: nat, es: Seq<T>) -> (Seq<T>, nat, bool)
    decreases es.len(),
{
    if es.len() == 0 {
        (elems, spare, true)
    } else {
        let first = step_try_enqueue(elems, spare, es[0]);
        let rest = run_try_enqueues(first.0, first.1, es.drop_first());
        (rest.0, rest.1, first.2 && rest.2)
    }
}

/// Dequeues until the queue is empty, collecting the elements in the order
/// they came out.
pub open spec fn drain_all<T>(elems: Seq<T>) -> Seq<T>
    decreases elems.len(),
{
    if elems.len() == 0 {
        Seq::empty()
    } else {
        seq![step_try_dequeue(elems).1->0] + drain_all(step_try_dequeue(elems).0)
    }
}

/// One producer-side or consumer-side call, for interleaved runs.
pub enum QueueOp<T> {
    Enqueue(T),
    Dequeue,
}

/// The elements that a run of operations offers for enqueueing, in order.
pub open spec fn offered<T>(ops: Seq<QueueOp<T>>) -> Seq<T>
    decreases ops.len(),
{
    if ops.len() == 0 {
        Seq::empty()
    } else {
        match ops[0] {
            QueueOp::Enqueue(e) => seq![e] + offered(ops.drop_first()),
            QueueOp::Dequeue => offered(ops.drop_first()),
        }
    }
}

/// Runs an interleaved sequence of successful enqueues and dequeues.
/// Returns the final contents and the dequeued outputs, in order.
pub open spec fn run_ops<T>(elems: Seq<T>, ops: Seq<QueueOp<T>>) -> (Seq<T>, Seq<T>)
    decreases ops.len(),
{
    if ops.len() == 0 {
        (elems, Seq::empty())
    } else {
        match ops[0] {
            QueueOp::Enqueue(e) => run_ops(elems.push(e), ops.drop_first()),
            QueueOp::Dequeue => {
                let step = step_try_dequeue(elems);
                let rest = run_ops(step.0, ops.drop_first());
                match step.1 {
                    Some(out) => (rest.0, seq![out] + rest.1),
                    None => rest,
                }
            },
        }
    }
}

/// The spare slots a freshly constructed queue has, for a capacity hint
/// `size` under a maximum block size `max`: a single block rounded up to a
/// power of two when that stays small enough, else a ring of maximum-size
/// blocks, each with one slot reserved to tell empty from full.
pub open spec fn initial_spare(size: int, max: int) -> int {
    if pow2_ceil(size + 1) <= 2 * max {
        pow2_ceil(size + 1) - 1
    } else {
        ((size + 2 * max - 3) / (max - 1)) * (max - 1)
    }
}

/// A fresh queue always covers its capacity hint: at least `size` spare slots.
pub proof fn lemma_initial_spare_covers_hint(size: int, max: int)
    requires
        size >= 1,
        max >= 2,
    ensures
        initial_spare(size, max) >= size,
{
    lemma_pow2_ceil_bounds(size + 1);
    if pow2_ceil(size + 1) > 2 * max {
        let d = max - 1;
        let a = size + 2 * max - 3;
        let n = a / d;
        assert(a == d * n + a % d) by {
            vstd::arithmetic::div_mod::lemma_fundamental_div_mod(a, d);
        };
        assert(0 <= a % d < d) by {
            vstd::arithmetic::div_mod::lemma_mod_bound(a, d);
        };
        assert(n * d >= a - (d - 1));
    }
}

/// Bounded enqueues never fail while spare slots remain: a run of `es.len()`
/// enqueues starting with at least that many spare slots succeeds throughout,
/// appends exactly `es`, and uses exactly one spare slot per element.
pub proof fn lemma_enqueue_run_succeeds<T>(elems: Seq<T>, spare: nat, es: Seq<T>)
    requires
        es.len() <= spare,
    ensures
        run_try_enqueues(elems, spare, es) == (elems + es, (spare - es.len()) as nat, true),
    decreases es.len(),
{
    if es.len() == 0 {
        assert(elems + es =~= elems);
    } else {
        let first = step_try_enqueue(elems, spare, es[0]);
        lemma_enqueue_run_succeeds(first.0, first.1, es.drop_first());
        assert(elems.push(es[0]) + es.drop_first() =~= elems + es);
    }
}

/// FIFO order: enqueueing `es` into an empty queue and then dequeuing until
/// empty yields exactly `es`, element for element, in order.
pub proof fn lemma_fifo_order<T>(es: Seq<T>, spare: nat)
    requires
        es.len() <= spare,
    ensures
        run_try_enqueues(Seq::empty(), spare, es) == (es, (spare - es.len()) as nat, true),
        drain_all(es) == es,
{
    lemma_enqueue_run_succeeds(Seq::empty(), spare, es);
    assert(Seq::empty() + es =~= es);
    lemma_drain_all_yields_all(es);
}

pub proof fn lemma_drain_all_yields_all<T>(elems: Seq<T>)
    ensures
        drain_all(elems) == elems,
    decreases elems.len(),
{
    if elems.len() > 0 {
        lemma_drain_all_yields_all(elems.drop_first());
        assert(seq![elems[0]] + elems.drop_first() =~= elems);
    }
}

/// No loss and no duplication: over any interleaved run of successful
/// enqueues and dequeues starting from empty, the multiset of elements
/// enqueued equals the multiset dequeued plus the multiset still held.
pub proof fn lemma_no_loss_no_duplication<T>(ops: Seq<QueueOp<T>>)
    ensures
        offered(ops).to_multiset() == run_ops(Seq::<T>::empty(), ops).1.to_multiset().add(
            run_ops(Seq::<T>::empty(), ops).0.to_multiset(),
        ),
{
    lemma_conservation(Seq::empty(), ops);
    Seq::<T>::empty().to_multiset_ensures();
    assert(Seq::<T>::empty().to_multiset().add(offered(ops).to_multiset()) =~= offered(
        ops,
    ).to_multiset());
}

/// Conservation through any interleaved run: starting contents plus elements
/// enqueued equal outputs plus final contents, as multisets.
pub proof fn lemma_conservation<T>(elems: Seq<T>, ops: Seq<QueueOp<T>>)
    ensures
        elems.to_multiset().add(offered(ops).to_multiset()) == run_ops(
            elems,
            ops,
        ).1.to_multiset().add(run_ops(elems, ops).0.to_multiset()),
    decreases ops.len(),
{
    elems.to_multiset_ensures();
    if ops.len() == 0 {
        run_ops(elems, ops).1.to_multiset_ensures();
        assert(run_ops(elems, ops).1.to_multiset() =~= Multiset::empty());
        assert(offered(ops).to_multiset() =~= Multiset::empty()) by {
            offered(ops).to_multiset_ensures();
        };
        assert(elems.to_multiset().add(Multiset::empty()) =~= elems.to_multiset());
        assert(Multiset::<T>::empty().add(elems.to_multiset()) =~= elems.to_multiset());
    } else {
        let rest_ops = ops.drop_first();
        match ops[0] {
            QueueOp::Enqueue(e) => {
                lemma_conservation(elems.push(e), rest_ops);
                assert(elems.push(e).to_multiset() =~= elems.to_multiset().insert(e));
                assert(seq![e] + offered(rest_ops) =~= offered(rest_ops).insert(0, e));
                lemma_multiset_insert_any(offered(rest_ops), 0, e);
                assert(elems.to_multiset().add(offered(ops).to_multiset()) =~= elems.push(
                    e,
                ).to_multiset().add(offered(rest_ops).to_multiset()));
            },
            QueueOp::Dequeue => {
                let step = step_try_dequeue(elems);
                lemma_conservation(step.0, rest_ops);
                let rest = run_ops(step.0, rest_ops);
                if elems.len() > 0 {
                    let out = elems[0];
                    assert(elems.drop_first() =~= elems.remove(0));
                    assert(elems.remove(0).to_multiset() =~= elems.to_multiset().remove(out));
                    assert(seq![out] + rest.1 =~= rest.1.insert(0, out));
                    lemma_multiset_insert_any(rest.1, 0, out);
                    assert(elems.to_multiset().count(out) > 0);
                    assert(run_ops(elems, ops).1.to_multiset().add(run_ops(elems, ops).0.to_multiset())
                        =~= rest.1.to_multiset().add(rest.0.to_multiset()).insert(out));
                    assert(elems.to_multiset().remove(out).insert(out) =~= elems.to_multiset());
                    assert(elems.to_multiset().remove(out).add(offered(rest_ops).to_multiset()).insert(out)
                        =~= elems.to_multiset().add(offered(ops).to_multiset()));
                }
            },
        }
    }
}

/// Inserting an element anywhere in a sequence inserts it into the multiset.
pub proof fn lemma_multiset_insert_any<T>(s: Seq<T>, i: int, e: T)
    requires
        0 <= i <= s.len(),
    ensures
        s.insert(i, e).to_multiset() == s.to_multiset().insert(e),
{
    s.insert(i, e).to_multiset_ensures();
    assert(s.insert(i, e).remove(i) =~= s);
    assert(s.insert(i, e).remove(i).to_multiset() =~= s.insert(i, e).to_multiset().remove(e));
    s.to_multiset_ensures();
    assert(s.insert(i, e).to_multiset().contains(e)) by {
        assert(s.insert(i, e)[i] == e);
    };
    assert(s.to_multiset().insert(e) =~= s.insert(i, e).to_multiset().remove(e).insert(e));
    assert(s.insert(i, e).to_multiset().remove(e).insert(e) =~= s.insert(i, e).to_multiset());
}

/// Capacity respects the hint exactly when the hint is tight: with
/// `initial_spare` equal to the hint, that many bounded enqueues all succeed
/// and the next one fails.
pub proof fn lemma_capacity_hint_exact<T>(size: int, max: int, es: Seq<T>, extra: T)
    requires
        size >= 1,
        max >= 2,
        es.len() == size,
        initial_spare(size, max) == size,
    ensures
        run_try_enqueues(Seq::empty(), initial_spare(size, max) as nat, es) == (
            es,
            0nat,
            true,
        ),
        !step_try_enqueue(es, 0nat, extra).2,
{
    lemma_fifo_order(es, initial_spare(size, max) as nat);
}

} // verus!
