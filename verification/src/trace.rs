//! What it means for a log of operations to be consistent, and the laws of
//! consistent logs.

use crate::operation::{Key, Op, Operation, RW};
use crate::word::Word;
use vstd::prelude::*;

verus! {

/// Whether `e` is a write to the key `k`.
pub open spec fn writes_to(e: Operation<Op>, k: Key) -> bool {
    e.rw == RW::Write && e.op.key() == k
}

/// The value that the key `k` holds after the operations of `log`: the value
/// of the last write to `k`, or the initial value where nothing wrote to it.
pub open spec fn current(log: Seq<Operation<Op>>, init: Map<Key, Word>, k: Key) -> Word
    decreases log.len(),
{
    if log.len() == 0 {
        init[k]
    } else if writes_to(log.last(), k) {
        log.last().op.value()
    } else {
        current(log.drop_last(), init, k)
    }
}

/// Whether `e` may follow `prefix`: a read gives the value its key holds, and
/// an operation that records a previous value records that same value.
pub open spec fn follows(prefix: Seq<Operation<Op>>, init: Map<Key, Word>, e: Operation<Op>) -> bool {
    let held = current(prefix, init, e.op.key());
    &&& e.rw == RW::Read ==> e.op.value() == held
    &&& e.op.value_prev() is Some ==> e.op.value_prev()->0 == held
}

/// Whether the operation at place `i` of `log` may follow those before it.
pub open spec fn follows_at(log: Seq<Operation<Op>>, init: Map<Key, Word>, i: int) -> bool {
    follows(log.take(i), init, log[i])
}

/// Whether every operation of `log` may follow those before it, starting from
/// the initial values `init`.
pub open spec fn consistent(log: Seq<Operation<Op>>, init: Map<Key, Word>) -> bool {
    forall|i: int| 0 <= i < log.len() ==> #[trigger] follows_at(log, init, i)
}

/// Whether no operation of `log` touches the key `k`.
pub open spec fn untouched(log: Seq<Operation<Op>>, k: Key) -> bool {
    forall|i: int| 0 <= i < log.len() ==> (#[trigger] log[i]).op.key() != k
}

/// One more operation changes what its own key holds, if it is a write, and
/// nothing else.
pub proof fn lemma_current_push(
    log: Seq<Operation<Op>>,
    init: Map<Key, Word>,
    e: Operation<Op>,
    k: Key,
)
    ensures
        current(log.push(e), init, k) == if writes_to(e, k) {
            e.op.value()
        } else {
            current(log, init, k)
        },
{
    assert(log.push(e).drop_last() =~= log);
}

/// What a key holds depends on the initial values at that key only.
pub proof fn lemma_current_same_init(
    log: Seq<Operation<Op>>,
    init: Map<Key, Word>,
    other: Map<Key, Word>,
    k: Key,
)
    requires
        init[k] == other[k],
    ensures
        current(log, init, k) == current(log, other, k),
    decreases log.len(),
{
    if log.len() > 0 && !writes_to(log.last(), k) {
        lemma_current_same_init(log.drop_last(), init, other, k);
    }
}

/// A key that no operation touches holds its initial value.
pub proof fn lemma_current_untouched(log: Seq<Operation<Op>>, init: Map<Key, Word>, k: Key)
    requires
        untouched(log, k),
    ensures
        current(log, init, k) == init[k],
    decreases log.len(),
{
    if log.len() > 0 {
        assert(log.last() == log[log.len() - 1]);
        assert forall|i: int| 0 <= i < log.drop_last().len() implies (#[trigger] log.drop_last()[i]).op.key()
            != k by {
            assert(log.drop_last()[i] == log[i]);
        }
        lemma_current_untouched(log.drop_last(), init, k);
    }
}

/// A consistent log stays consistent when an operation that may follow it is
/// appended.
pub proof fn lemma_consistent_push(
    log: Seq<Operation<Op>>,
    init: Map<Key, Word>,
    e: Operation<Op>,
)
    requires
        consistent(log, init),
        follows(log, init, e),
    ensures
        consistent(log.push(e), init),
{
    let log2 = log.push(e);
    assert forall|i: int| 0 <= i < log2.len() implies #[trigger] follows_at(log2, init, i) by {
        if i < log.len() {
            assert(follows_at(log, init, i));
            assert(log2.take(i) =~= log.take(i));
        } else {
            assert(log2.take(i) =~= log);
        }
    }
}

/// A consistent log stays consistent when the initial value of a key that no
/// operation touches is set.
pub proof fn lemma_consistent_set_init(
    log: Seq<Operation<Op>>,
    init: Map<Key, Word>,
    k: Key,
    v: Word,
)
    requires
        consistent(log, init),
        untouched(log, k),
    ensures
        consistent(log, init.insert(k, v)),
{
    let init2 = init.insert(k, v);
    assert forall|i: int| 0 <= i < log.len() implies #[trigger] follows_at(log, init2, i) by {
        assert(follows_at(log, init, i));
        assert(log[i].op.key() != k);
        lemma_current_same_init(log.take(i), init, init2, log[i].op.key());
    }
}

/// What a key holds is the value of the most recent write to it, or its
/// initial value where there is no write.
pub proof fn lemma_current_is_last_write(log: Seq<Operation<Op>>, init: Map<Key, Word>, k: Key)
    ensures
        ({
            ||| exists|j: int|
                {
                    &&& 0 <= j < log.len()
                    &&& #[trigger] writes_to(log[j], k)
                    &&& current(log, init, k) == log[j].op.value()
                    &&& forall|m: int| j < m < log.len() ==> !#[trigger] writes_to(log[m], k)
                }
            ||| {
                &&& forall|m: int| 0 <= m < log.len() ==> !#[trigger] writes_to(log[m], k)
                &&& current(log, init, k) == init[k]
            }
        }),
    decreases log.len(),
{
    if log.len() == 0 {
    } else if writes_to(log.last(), k) {
        let j = log.len() - 1;
        assert(writes_to(log[j], k));
    } else {
        let rest = log.drop_last();
        lemma_current_is_last_write(rest, init, k);
        assert forall|m: int| 0 <= m < rest.len() implies rest[m] == log[m] by {}
        if exists|j: int|
            {
                &&& 0 <= j < rest.len()
                &&& #[trigger] writes_to(rest[j], k)
                &&& current(rest, init, k) == rest[j].op.value()
                &&& forall|m: int| j < m < rest.len() ==> !#[trigger] writes_to(rest[m], k)
            } {
            let j = choose|j: int|
                {
                    &&& 0 <= j < rest.len()
                    &&& #[trigger] writes_to(rest[j], k)
                    &&& current(rest, init, k) == rest[j].op.value()
                    &&& forall|m: int| j < m < rest.len() ==> !#[trigger] writes_to(rest[m], k)
                };
            assert(writes_to(log[j], k));
            assert forall|m: int| j < m < log.len() implies !#[trigger] writes_to(log[m], k) by {
                if m < rest.len() {
                    assert(!writes_to(rest[m], k));
                }
            }
        } else {
            assert forall|m: int| 0 <= m < log.len() implies !#[trigger] writes_to(log[m], k) by {
                if m < rest.len() {
                    assert(!writes_to(rest[m], k));
                }
            }
        }
    }
}

/// Read after write: in a consistent log, a read gives the value of the most
/// recent write to its key before it, or the key's initial value where no
/// write to the key comes before it.
pub proof fn lemma_read_after_write(log: Seq<Operation<Op>>, init: Map<Key, Word>, i: int)
    requires
        consistent(log, init),
        0 <= i < log.len(),
        log[i].rw == RW::Read,
    ensures
        ({
            let k = log[i].op.key();
            ||| exists|j: int|
                {
                    &&& 0 <= j < i
                    &&& #[trigger] writes_to(log[j], k)
                    &&& log[i].op.value() == log[j].op.value()
                    &&& forall|m: int| j < m < i ==> !#[trigger] writes_to(log[m], k)
                }
            ||| {
                &&& forall|m: int| 0 <= m < i ==> !#[trigger] writes_to(log[m], k)
                &&& log[i].op.value() == init[k]
            }
        }),
{
    let k = log[i].op.key();
    let prefix = log.take(i);
    assert(follows_at(log, init, i));
    lemma_current_is_last_write(prefix, init, k);
    assert forall|m: int| 0 <= m < i implies prefix[m] == log[m] by {}
    if exists|j: int|
        {
            &&& 0 <= j < prefix.len()
            &&& #[trigger] writes_to(prefix[j], k)
            &&& current(prefix, init, k) == prefix[j].op.value()
            &&& forall|m: int| j < m < prefix.len() ==> !#[trigger] writes_to(prefix[m], k)
        } {
        let j = choose|j: int|
            {
                &&& 0 <= j < prefix.len()
                &&& #[trigger] writes_to(prefix[j], k)
                &&& current(prefix, init, k) == prefix[j].op.value()
                &&& forall|m: int| j < m < prefix.len() ==> !#[trigger] writes_to(prefix[m], k)
            };
        assert(writes_to(log[j], k));
        assert forall|m: int| j < m < i implies !#[trigger] writes_to(log[m], k) by {
            assert(!writes_to(prefix[m], k));
        }
    } else {
        assert forall|m: int| 0 <= m < i implies !#[trigger] writes_to(log[m], k) by {
            assert(!writes_to(prefix[m], k));
        }
    }
}

/// Previous values are exact: in a consistent log, the previous value that
/// an operation records is the value of the most recent write to its key
/// before it, or the key's initial value where there is none.
pub proof fn lemma_value_prev_is_last_write(log: Seq<Operation<Op>>, init: Map<Key, Word>, i: int)
    requires
        consistent(log, init),
        0 <= i < log.len(),
        log[i].op.value_prev() is Some,
    ensures
        ({
            let k = log[i].op.key();
            let prev = log[i].op.value_prev()->0;
            ||| exists|j: int|
                {
                    &&& 0 <= j < i
                    &&& #[trigger] writes_to(log[j], k)
                    &&& prev == log[j].op.value()
                    &&& forall|m: int| j < m < i ==> !#[trigger] writes_to(log[m], k)
                }
            ||| {
                &&& forall|m: int| 0 <= m < i ==> !#[trigger] writes_to(log[m], k)
                &&& prev == init[k]
            }
        }),
{
    let k = log[i].op.key();
    let prefix = log.take(i);
    assert(follows_at(log, init, i));
    lemma_current_is_last_write(prefix, init, k);
    assert forall|m: int| 0 <= m < i implies prefix[m] == log[m] by {}
    if exists|j: int|
        {
            &&& 0 <= j < prefix.len()
            &&& #[trigger] writes_to(prefix[j], k)
            &&& current(prefix, init, k) == prefix[j].op.value()
            &&& forall|m: int| j < m < prefix.len() ==> !#[trigger] writes_to(prefix[m], k)
        } {
        let j = choose|j: int|
            {
                &&& 0 <= j < prefix.len()
                &&& #[trigger] writes_to(prefix[j], k)
                &&& current(prefix, init, k) == prefix[j].op.value()
                &&& forall|m: int| j < m < prefix.len() ==> !#[trigger] writes_to(prefix[m], k)
            };
        assert(writes_to(log[j], k));
        assert forall|m: int| j < m < i implies !#[trigger] writes_to(log[m], k) by {
            assert(!writes_to(prefix[m], k));
        }
    } else {
        assert forall|m: int| 0 <= m < i implies !#[trigger] writes_to(log[m], k) by {
            assert(!writes_to(prefix[m], k));
        }
    }
}

/// Whether `e` is a write to the access list that leaves its address cold:
/// the undoing of an earlier warming.
pub open spec fn cools(e: Operation<Op>, k: Key) -> bool {
    writes_to(e, k) && e.op.value() == Word::spec_from_bool(false)
}

/// Warm stays warm: in a consistent log, once a write to the access list has
/// made an address warm, every later access-list operation on that address in
/// the same transaction records it as warm before, unless a write in between
/// made it cold again, which only the undoing of a reverted call does.
pub proof fn lemma_warm_stays_warm(log: Seq<Operation<Op>>, init: Map<Key, Word>, i: int, j: int)
    requires
        consistent(log, init),
        0 <= i < j < log.len(),
        log[i].op is TxAccessListAccount,
        log[j].op is TxAccessListAccount,
        log[i].op.key() == log[j].op.key(),
        log[i].rw == RW::Write,
        log[i].op->TxAccessListAccount_0.is_warm,
        forall|m: int| i < m < j ==> !#[trigger] cools(log[m], log[i].op.key()),
    ensures
        log[j].op->TxAccessListAccount_0.is_warm_prev,
{
    let k = log[i].op.key();
    lemma_value_prev_is_last_write(log, init, j);
    let prev = log[j].op.value_prev()->0;
    assert(writes_to(log[i], k));
    let w = choose|w: int|
        {
            &&& 0 <= w < j
            &&& #[trigger] writes_to(log[w], k)
            &&& prev == log[w].op.value()
            &&& forall|m: int| w < m < j ==> !#[trigger] writes_to(log[m], k)
        };
    assert(w >= i);
    if w > i {
        assert(!cools(log[w], k));
    }
    assert(log[w].op.value() != Word::spec_from_bool(false));
    assert(log[w].op is TxAccessListAccount);
}

} // verus!
