//! The replay of the reversals of a reverting call, and its laws.

use crate::call::Reversal;
use crate::operation::{lemma_inverse, Key, Op, Operation, RW};
use crate::trace::{current, lemma_current_push};
use crate::word::Word;
use vstd::prelude::*;

verus! {

/// The write that replays the reversal `r` as the next operation of `log`.
pub open spec fn reversal_record(log: Seq<Operation<Op>>, r: Reversal) -> Operation<Op> {
    Operation { rwc: (log.len() + 1) as usize, rw: RW::Write, reversible: false, op: r.op }
}

/// The log after the reversals of `pending` are replayed, last first.
pub open spec fn replayed(log: Seq<Operation<Op>>, pending: Seq<Reversal>) -> Seq<Operation<Op>>
    decreases pending.len(),
{
    if pending.len() == 0 {
        log
    } else {
        replayed(log.push(reversal_record(log, pending.last())), pending.drop_last())
    }
}

/// The place in the replayed log of the reversal at place `i` of `pending`.
pub open spec fn replay_place(log: Seq<Operation<Op>>, pending: Seq<Reversal>, i: int) -> int {
    log.len() + pending.len() - 1 - i
}

/// Replaying keeps the log as it was and appends one write for each
/// reversal, the last reversal first.
pub proof fn lemma_replayed_shape(log: Seq<Operation<Op>>, pending: Seq<Reversal>)
    ensures
        replayed(log, pending).len() == log.len() + pending.len(),
        forall|i: int| 0 <= i < log.len() ==> #[trigger] replayed(log, pending)[i] == log[i],
        forall|i: int|
            0 <= i < pending.len() ==> #[trigger] replayed(log, pending)[replay_place(
                log,
                pending,
                i,
            )] == (Operation {
                rwc: (replay_place(log, pending, i) + 1) as usize,
                rw: RW::Write,
                reversible: false,
                op: pending[i].op,
            }),
    decreases pending.len(),
{
    if pending.len() > 0 {
        let log2 = log.push(reversal_record(log, pending.last()));
        let rest = pending.drop_last();
        lemma_replayed_shape(log2, rest);
        assert forall|i: int| 0 <= i < log.len() implies #[trigger] replayed(log, pending)[i]
            == log[i] by {
            assert(replayed(log2, rest)[i] == log2[i]);
        }
        assert forall|i: int| 0 <= i < pending.len() implies #[trigger] replayed(
            log,
            pending,
        )[replay_place(log, pending, i)] == (Operation {
            rwc: (replay_place(log, pending, i) + 1) as usize,
            rw: RW::Write,
            reversible: false,
            op: pending[i].op,
        }) by {
            if i < rest.len() {
                assert(replay_place(log2, rest, i) == replay_place(log, pending, i));
                assert(rest[i] == pending[i]);
            } else {
                assert(replayed(log2, rest)[log.len() as int] == log2[log.len() as int]);
            }
        }
    }
}

/// Reversal completeness: when the reversals of the writes `writes` of a
/// reverting call are replayed, every one of those writes has its inverse
/// in the log after all that was recorded before: a write to the same key
/// that puts back the value the write found and records the value the write
/// left. The inverses stand in the opposite order of the writes, the one of
/// the last write first.
pub proof fn lemma_reversal_complete(
    log: Seq<Operation<Op>>,
    writes: Seq<Op>,
    pending: Seq<Reversal>,
    i: int,
    j: int,
)
    requires
        pending.len() == writes.len(),
        forall|m: int| 0 <= m < writes.len() ==> (#[trigger] pending[m]).op == writes[m].spec_inverse(),
        0 <= i <= j < writes.len(),
        writes[i].value_prev() is Some,
    ensures
        ({
            let after = replayed(log, pending);
            let at = replay_place(log, pending, i);
            &&& after.len() == log.len() + writes.len()
            &&& after.subrange(0, log.len() as int) == log
            &&& log.len() <= at < after.len()
            &&& after[at].rw == RW::Write
            &&& !after[at].reversible
            &&& after[at].op.key() == writes[i].key()
            &&& after[at].op.value() == writes[i].value_prev()->0
            &&& after[at].op.value_prev() == Some(writes[i].value())
            &&& i < j ==> replay_place(log, pending, j) < at
        }),
{
    lemma_replayed_shape(log, pending);
    lemma_inverse(writes[i]);
    let after = replayed(log, pending);
    assert(after[replay_place(log, pending, i)].op == pending[i].op);
    assert(after.subrange(0, log.len() as int) =~= log);
}


/// Whether the reversals of `pending`, replayed last first, each find at
/// their key the value they take for the previous one.
pub open spec fn undoable(
    log: Seq<Operation<Op>>,
    init: Map<Key, Word>,
    pending: Seq<Reversal>,
) -> bool
    decreases pending.len(),
{
    if pending.len() == 0 {
        true
    } else {
        let r = pending.last();
        &&& r.op.value_prev() is Some
        &&& r.op.value_prev()->0 == current(log, init, r.op.key())
        &&& undoable(log.push(reversal_record(log, r)), init, pending.drop_last())
    }
}

/// Whether the reversals of `pending`, replayed last first after `count`
/// operations, each land on their target.
pub open spec fn on_target(count: int, pending: Seq<Reversal>) -> bool {
    forall|i: int|
        0 <= i < pending.len() ==> (#[trigger] pending[i]).target == count + pending.len() - i
}

/// Reversals that are on target land on it: the write that replays a
/// reversal gets the reversal's target for its sequence number.
pub proof fn lemma_reversal_lands(log: Seq<Operation<Op>>, pending: Seq<Reversal>, i: int)
    requires
        on_target(log.len() as int, pending),
        0 <= i < pending.len(),
    ensures
        replayed(log, pending)[replay_place(log, pending, i)].rwc == pending[i].target,
{
    lemma_replayed_shape(log, pending);
}

/// Whether two logs hold the same value at the key of every reversal of
/// `pending`.
pub open spec fn agree_on(
    log_a: Seq<Operation<Op>>,
    init_a: Map<Key, Word>,
    log_b: Seq<Operation<Op>>,
    init_b: Map<Key, Word>,
    pending: Seq<Reversal>,
) -> bool {
    forall|i: int|
        0 <= i < pending.len() ==> current(log_a, init_a, (#[trigger] pending[i]).op.key())
            == current(log_b, init_b, pending[i].op.key())
}

/// Whether reversals find their values depends on the values at their keys
/// only.
pub proof fn lemma_undoable_agree(
    log_a: Seq<Operation<Op>>,
    init_a: Map<Key, Word>,
    log_b: Seq<Operation<Op>>,
    init_b: Map<Key, Word>,
    pending: Seq<Reversal>,
)
    requires
        agree_on(log_a, init_a, log_b, init_b, pending),
    ensures
        undoable(log_a, init_a, pending) == undoable(log_b, init_b, pending),
    decreases pending.len(),
{
    if pending.len() > 0 {
        let r = pending.last();
        let rest = pending.drop_last();
        let a2 = log_a.push(reversal_record(log_a, r));
        let b2 = log_b.push(reversal_record(log_b, r));
        assert(pending[pending.len() - 1] == r);
        assert forall|i: int| 0 <= i < rest.len() implies current(
            a2,
            init_a,
            (#[trigger] rest[i]).op.key(),
        ) == current(b2, init_b, rest[i].op.key()) by {
            assert(rest[i] == pending[i]);
            lemma_current_push(log_a, init_a, reversal_record(log_a, r), rest[i].op.key());
            lemma_current_push(log_b, init_b, reversal_record(log_b, r), rest[i].op.key());
        }
        lemma_undoable_agree(a2, init_a, b2, init_b, rest);
    }
}

/// Reversals of two lists find their values exactly when those of the
/// second list do and, after their replay, those of the first.
pub proof fn lemma_undoable_concat(
    log: Seq<Operation<Op>>,
    init: Map<Key, Word>,
    first: Seq<Reversal>,
    second: Seq<Reversal>,
)
    ensures
        undoable(log, init, first + second) == (undoable(log, init, second) && undoable(
            replayed(log, second),
            init,
            first,
        )),
    decreases second.len(),
{
    if second.len() == 0 {
        assert(first + second =~= first);
    } else {
        let r = second.last();
        let log2 = log.push(reversal_record(log, r));
        let all = first + second;
        assert(all.last() == r);
        assert(all.drop_last() =~= first + second.drop_last());
        lemma_undoable_concat(log2, init, first, second.drop_last());
    }
}

/// A write that finds its value, followed by its own reversal, leaves the
/// reversals before it as they were: they find their values after the write
/// and the replay of its reversal exactly when they did before.
pub proof fn lemma_undoable_push(
    log: Seq<Operation<Op>>,
    init: Map<Key, Word>,
    init2: Map<Key, Word>,
    pending: Seq<Reversal>,
    w: Operation<Op>,
    target: usize,
)
    requires
        w.rw == RW::Write,
        w.op.value_prev() is Some,
        w.op.value_prev()->0 == current(log, init2, w.op.key()),
        forall|i: int|
            0 <= i < pending.len() ==> current(log, init, (#[trigger] pending[i]).op.key())
                == current(log, init2, pending[i].op.key()),
    ensures
        undoable(log.push(w), init2, pending.push(Reversal { op: w.op.spec_inverse(), target }))
            == undoable(log, init, pending),
{
    let r = Reversal { op: w.op.spec_inverse(), target };
    let log2 = log.push(w);
    let log3 = log2.push(reversal_record(log2, r));
    let all = pending.push(r);
    lemma_inverse(w.op);
    assert(all.last() == r);
    assert(all.drop_last() =~= pending);
    lemma_current_push(log, init2, w, w.op.key());
    assert forall|i: int| 0 <= i < pending.len() implies current(
        log3,
        init2,
        (#[trigger] pending[i]).op.key(),
    ) == current(log, init, pending[i].op.key()) by {
        let k = pending[i].op.key();
        lemma_current_push(log2, init2, reversal_record(log2, r), k);
        lemma_current_push(log, init2, w, k);
    }
    lemma_undoable_agree(log3, init2, log, init, pending);
}

/// The reversals of the frames `frames[0..n]`, outermost frame first.
pub open spec fn pending_upto(frames: Seq<Seq<Reversal>>, n: int) -> Seq<Reversal>
    decreases n,
{
    if n <= 0 {
        Seq::empty()
    } else {
        pending_upto(frames, n - 1) + frames[n - 1]
    }
}

/// The reversals of the first frames depend on those frames only.
pub proof fn lemma_pending_upto_same(a: Seq<Seq<Reversal>>, b: Seq<Seq<Reversal>>, n: int)
    requires
        n <= a.len(),
        n <= b.len(),
        forall|i: int| 0 <= i < n ==> #[trigger] a[i] == b[i],
    ensures
        pending_upto(a, n) == pending_upto(b, n),
    decreases n,
{
    if n > 0 {
        lemma_pending_upto_same(a, b, n - 1);
        assert(a[n - 1] == b[n - 1]);
    }
}

/// Every reversal of the first frames is a reversal of one of them.
pub proof fn lemma_pending_upto_member(frames: Seq<Seq<Reversal>>, n: int, i: int)
    requires
        0 <= n <= frames.len(),
        0 <= i < pending_upto(frames, n).len(),
    ensures
        exists|fi: int, pi: int|
            0 <= fi < n && 0 <= pi < frames[fi].len() && #[trigger] frames[fi][pi] == pending_upto(
                frames,
                n,
            )[i],
    decreases n,
{
    if n > 0 {
        let before = pending_upto(frames, n - 1);
        if i < before.len() {
            lemma_pending_upto_member(frames, n - 1, i);
        } else {
            assert(frames[n - 1][i - before.len()] == pending_upto(frames, n)[i]);
        }
    }
}

/// Frames without reversals have none together.
pub proof fn lemma_pending_upto_empty(frames: Seq<Seq<Reversal>>, n: int)
    requires
        n <= frames.len(),
        forall|i: int| 0 <= i < n ==> (#[trigger] frames[i]).len() == 0,
    ensures
        pending_upto(frames, n) =~= Seq::<Reversal>::empty(),
    decreases n,
{
    if n > 0 {
        lemma_pending_upto_empty(frames, n - 1);
        assert(frames[n - 1].len() == 0);
    }
}

} // verus!
