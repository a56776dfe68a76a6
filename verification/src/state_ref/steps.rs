//! How one recorded operation carries the invariant of the state forward.

use crate::call::{CallContext, Reversal, STACK_LIMIT};
use crate::operation::{AccountField, CallContextField, Key, Op, Operation, RW};
use crate::reversion::{
    lemma_pending_upto_empty, lemma_pending_upto_member, lemma_pending_upto_same,
    lemma_undoable_agree, pending_upto, undoable,
};
use crate::state_ref::{
    CircuitInputStateRef, db_value, is_db_key, same_below_top, same_frame, touch,
};
use crate::trace::{
    consistent, current, follows, lemma_consistent_push, lemma_consistent_set_init,
    lemma_current_push, lemma_current_same_init, lemma_current_untouched, untouched,
};
use crate::word::{Address, Word};
use vstd::prelude::*;

verus! {

/// What a key holds once it has an initial value: what it held before, or
/// the value given to it where the log did not touch it.
pub(super) proof fn lemma_touch_current(s: CircuitInputStateRef, k: Key, v: Word)
    requires
        s.coherent(),
    ensures
        current(s.log(), touch(s.init@, k, v), k) == if s.init@.dom().contains(k) {
            current(s.log(), s.init@, k)
        } else {
            v
        },
        !s.init@.dom().contains(k) ==> untouched(s.log(), k),
        consistent(s.log(), touch(s.init@, k, v)),
{
    if !s.init@.dom().contains(k) {
        assert forall|i: int| 0 <= i < s.log().len() implies (#[trigger] s.log()[i]).op.key()
            != k by {
            assert(s.touched_at(i));
        }
        lemma_current_untouched(s.log(), touch(s.init@, k, v), k);
        lemma_consistent_set_init(s.log(), s.init@, k, v);
    }
}

/// One step of the log: `e` is appended after its key got an initial value.
/// The log stays consistent, and every other touched key holds what it held.
pub(super) proof fn lemma_step(s0: CircuitInputStateRef, s1: CircuitInputStateRef, e: Operation<Op>, v: Word)
    requires
        s0.coherent(),
        s1.container.wf(),
        s1.log() == s0.log().push(e),
        s1.init@ == touch(s0.init@, e.op.key(), v),
        s1.tx_id == s0.tx_id,
        s1.in_tx == s0.in_tx,
        s1.next_call_id == s0.next_call_id,
        s0.in_reach(e.op.key()),
        follows(s0.log(), s1.init@, e),
    ensures
        consistent(s1.log(), s1.init@),
        forall|i: int| 0 <= i < s1.log().len() ==> #[trigger] s1.touched_at(i),
        forall|k: Key| #[trigger] s1.fresh(k),
        forall|k: Key|
            s0.init@.dom().contains(k) && (k != e.op.key() || e.rw == RW::Read) ==> #[trigger] current(
                s1.log(),
                s1.init@,
                k,
            ) == current(s0.log(), s0.init@, k),
        forall|k: Key| #[trigger]
            s1.init@.dom().contains(k) ==> s0.init@.dom().contains(k) || k == e.op.key(),
        forall|k: Key| s0.init@.dom().contains(k) ==> #[trigger] s1.init@.dom().contains(k),
        s1.init@.dom().contains(e.op.key()),
        e.rw == RW::Write ==> current(s1.log(), s1.init@, e.op.key()) == e.op.value(),
        e.rw == RW::Read ==> current(s1.log(), s1.init@, e.op.key()) == current(
            s0.log(),
            s1.init@,
            e.op.key(),
        ),
{
    let k0 = e.op.key();
    lemma_touch_current(s0, k0, v);
    lemma_consistent_push(s0.log(), s1.init@, e);
    assert forall|i: int| 0 <= i < s1.log().len() implies #[trigger] s1.touched_at(i) by {
        if i < s0.log().len() {
            assert(s0.touched_at(i));
            assert(s1.log()[i] == s0.log()[i]);
        }
    }
    assert forall|k: Key| #[trigger] s1.fresh(k) by {
        assert(s0.fresh(k));
    }
    assert forall|k: Key|
        s0.init@.dom().contains(k) && (k != e.op.key() || e.rw == RW::Read) implies #[trigger] current(
        s1.log(),
        s1.init@,
        k,
    ) == current(s0.log(), s0.init@, k) by {
        lemma_current_push(s0.log(), s1.init@, e, k);
        lemma_current_same_init(s0.log(), s0.init@, s1.init@, k);
    }
    lemma_current_push(s0.log(), s1.init@, e, k0);
}

/// The conditions of one step of the log.
pub(super) open spec fn stepped(
    s0: CircuitInputStateRef,
    s1: CircuitInputStateRef,
    e: Operation<Op>,
    v: Word,
) -> bool {
    &&& s0.coherent()
    &&& s1.container.wf()
    &&& s1.log() == s0.log().push(e)
    &&& s1.init@ == touch(s0.init@, e.op.key(), v)
    &&& s1.tx_id == s0.tx_id
    &&& s1.in_tx == s0.in_tx
    &&& s1.next_call_id == s0.next_call_id
    &&& s0.in_reach(e.op.key())
    &&& follows(s0.log(), s1.init@, e)
}

/// Whether the frames of `s1` hold the calls, counts and reversals of those
/// of `s0`, with stacks within the limit.
pub(super) open spec fn same_calls(s0: CircuitInputStateRef, s1: CircuitInputStateRef) -> bool {
    &&& s1.frames@.len() == s0.frames@.len()
    &&& forall|fi: int|
        0 <= fi < s0.frames@.len() ==> {
            &&& (#[trigger] s1.frames@[fi]).call == s0.frames@[fi].call
            &&& s1.frames@[fi].pending@ == s0.frames@[fi].pending@
            &&& s1.frames@[fi].reversible_write_counter == s0.frames@[fi].reversible_write_counter
            &&& s1.frames@[fi].stack@.len() <= STACK_LIMIT
        }
}

/// A step keeps the initial values the database's own, where the database
/// changes, among the keys it holds, at the key of the step only, and the
/// step gives its key the value that the database holds.
pub(super) proof fn lemma_keep_grounded(
    s0: CircuitInputStateRef,
    s1: CircuitInputStateRef,
    e: Operation<Op>,
    v: Word,
)
    requires
        stepped(s0, s1, e, v),
        s1.genesis@ == s0.genesis@,
        forall|k: Key|
            k != e.op.key() && s0.db_live(k) ==> #[trigger] db_value(s1.sdb, k) == db_value(
                s0.sdb,
                k,
            ),
        is_db_key(e.op.key()) ==> v == db_value(s0.sdb, e.op.key()) && s0.db_live(e.op.key()),
    ensures
        forall|k: Key| #[trigger] s1.grounded_at(k),
{
    assert forall|k: Key| #[trigger] s1.grounded_at(k) by {
        assert(s0.grounded_at(k));
        assert(s0.grounded_at(e.op.key()));
    }
}

/// Frames that keep their calls and reversals, with stacks no longer than
/// the limit, meet the conditions on calls.
pub(super) proof fn lemma_same_calls(s0: CircuitInputStateRef, s1: CircuitInputStateRef)
    requires
        s0.coherent(),
        s1.frames@.len() == s0.frames@.len(),
        s0.frames@.len() > 0 ==> same_below_top(s0, s1) && s1.top().call == s0.top().call
            && s1.top().pending@ == s0.top().pending@ && s1.top().reversible_write_counter
            == s0.top().reversible_write_counter && s1.top().stack@.len() <= STACK_LIMIT,
    ensures
        same_calls(s0, s1),
        forall|fi: int|
            0 <= fi < s0.frames@.len() - 1 ==> (#[trigger] s1.frames@[fi]).stack@
                == s0.frames@[fi].stack@,
{
    assert forall|fi: int| 0 <= fi < s0.frames@.len() implies {
        &&& (#[trigger] s1.frames@[fi]).call == s0.frames@[fi].call
        &&& s1.frames@[fi].pending@ == s0.frames@[fi].pending@
        &&& s1.frames@[fi].reversible_write_counter == s0.frames@[fi].reversible_write_counter
        &&& s1.frames@[fi].stack@.len() <= STACK_LIMIT
    } by {
        assert(s0.frame_ok(fi));
        if fi < s0.frames@.len() - 1 {
            assert(same_frame(s1.frames@[fi], s0.frames@[fi]));
        }
    }
    assert forall|fi: int| 0 <= fi < s0.frames@.len() - 1 implies (#[trigger] s1.frames@[fi]).stack@
        == s0.frames@[fi].stack@ by {
        assert(same_frame(s1.frames@[fi], s0.frames@[fi]));
    }
}

/// The same frames meet the conditions on calls.
pub(super) proof fn lemma_same_frames(s0: CircuitInputStateRef, s1: CircuitInputStateRef)
    requires
        s0.coherent(),
        s1.frames@ == s0.frames@,
    ensures
        same_calls(s0, s1),
        forall|fi: int|
            0 <= fi < s0.frames@.len() ==> (#[trigger] s1.frames@[fi]).stack@
                == s0.frames@[fi].stack@,
{
    assert forall|fi: int| 0 <= fi < s0.frames@.len() implies {
        &&& (#[trigger] s1.frames@[fi]).call == s0.frames@[fi].call
        &&& s1.frames@[fi].pending@ == s0.frames@[fi].pending@
        &&& s1.frames@[fi].reversible_write_counter == s0.frames@[fi].reversible_write_counter
        &&& s1.frames@[fi].stack@.len() <= STACK_LIMIT
    } by {
        assert(s0.frame_ok(fi));
    }
}

pub(super) proof fn lemma_keep_storage(
    s0: CircuitInputStateRef,
    s1: CircuitInputStateRef,
    e: Operation<Op>,
    v: Word,
)
    requires
        stepped(s0, s1, e, v),
        e.op is Storage ==> e.rw == RW::Read && e.op.value() == s0.sdb.storage_at(
            e.op->Storage_0.address,
            e.op->Storage_0.key,
        ),
        forall|a: Address, s: Word| #[trigger] s1.sdb.storage_at(a, s) == s0.sdb.storage_at(a, s),
    ensures
        forall|a: Address, s: Word| #[trigger] s1.storage_mirrored(a, s),
{
    lemma_step(s0, s1, e, v);
    assert forall|a: Address, s: Word| #[trigger] s1.storage_mirrored(a, s) by {
        assert(s0.storage_mirrored(a, s));
        let k = Key::Storage { address: a, key: s };
        if s1.init@.dom().contains(k) {
            if k == e.op.key() {
                assert(e.op is Storage);
            } else {
                assert(s0.init@.dom().contains(k));
            }
        }
    }
}

pub(super) proof fn lemma_keep_warm(
    s0: CircuitInputStateRef,
    s1: CircuitInputStateRef,
    e: Operation<Op>,
    v: Word,
)
    requires
        stepped(s0, s1, e, v),
        !(e.op is TxAccessListAccount),
        forall|a: Address| #[trigger] s1.sdb.is_warm(a) == s0.sdb.is_warm(a),
    ensures
        forall|a: Address| #[trigger] s1.warm_mirrored(a),
{
    lemma_step(s0, s1, e, v);
    assert forall|a: Address| #[trigger] s1.warm_mirrored(a) by {
        assert(s0.warm_mirrored(a));
        let k = Key::TxAccessListAccount { tx_id: s1.tx_id, address: a };
        if s1.init@.dom().contains(k) {
            assert(s0.init@.dom().contains(k));
        }
    }
}

pub(super) proof fn lemma_keep_account(
    s0: CircuitInputStateRef,
    s1: CircuitInputStateRef,
    e: Operation<Op>,
    v: Word,
)
    requires
        stepped(s0, s1, e, v),
        forall|a: Address| #[trigger] s1.sdb.account(a) == s0.sdb.account(a),
        e.op is Account ==> e.rw == RW::Read && e.op.value() == s0.sdb.account(
            e.op->Account_0.address,
        ).spec_field_value(e.op->Account_0.field),
    ensures
        forall|a: Address, f: AccountField| #[trigger] s1.account_mirrored(a, f),
{
    lemma_step(s0, s1, e, v);
    assert forall|a: Address, f: AccountField| #[trigger] s1.account_mirrored(a, f) by {
        assert(s0.account_mirrored(a, f));
        let k = Key::Account { address: a, field: f };
        if s1.init@.dom().contains(k) {
            if k == e.op.key() {
                assert(e.op is Account);
            } else {
                assert(s0.init@.dom().contains(k));
            }
        }
    }
}

pub(super) proof fn lemma_keep_cc(
    s0: CircuitInputStateRef,
    s1: CircuitInputStateRef,
    e: Operation<Op>,
    v: Word,
)
    requires
        stepped(s0, s1, e, v),
        same_calls(s0, s1),
        e.op is CallContext ==> e.rw == RW::Read && forall|fi: int|
            0 <= fi < s0.frames@.len() && #[trigger] s0.id_at(fi) == e.op->CallContext_0.call_id
                ==> e.op.value() == s0.frames@[fi].call.spec_field_value(
                e.op->CallContext_0.field,
                s0.tx_id,
            ),
    ensures
        forall|fi: int, field: CallContextField|
            0 <= fi < s1.frames@.len() ==> #[trigger] s1.cc_mirrored(fi, field),
{
    lemma_step(s0, s1, e, v);
    assert forall|fi: int, field: CallContextField| 0 <= fi < s1.frames@.len() implies #[trigger] s1.cc_mirrored(
        fi,
        field,
    ) by {
        assert(s0.cc_mirrored(fi, field));
        assert(s1.frames@[fi].call == s0.frames@[fi].call);
        let k = s1.cc_key(fi, field);
        assert(k == s0.cc_key(fi, field));
        if s1.init@.dom().contains(k) {
            if k == e.op.key() {
                assert(e.op is CallContext);
                assert(s0.id_at(fi) == e.op->CallContext_0.call_id);
            } else {
                assert(s0.init@.dom().contains(k));
            }
        }
    }
}

pub(super) proof fn lemma_keep_frames(
    s0: CircuitInputStateRef,
    s1: CircuitInputStateRef,
    e: Operation<Op>,
    v: Word,
)
    requires
        stepped(s0, s1, e, v),
        same_calls(s0, s1),
    ensures
        forall|fi: int| 0 <= fi < s1.frames@.len() ==> #[trigger] s1.frame_ok(fi),
        forall|fi: int, fj: int|
            0 <= fi < fj < s1.frames@.len() ==> #[trigger] s1.id_at(fi) < #[trigger] s1.id_at(fj),
        forall|fi: int, pi: int|
            0 <= fi < s1.frames@.len() && 0 <= pi < s1.frames@[fi].pending@.len()
                ==> #[trigger] s1.pending_ok(fi, pi),
{
    lemma_step(s0, s1, e, v);
    assert forall|fi: int| 0 <= fi < s1.frames@.len() implies #[trigger] s1.frame_ok(fi) by {
        assert(s0.frame_ok(fi));
        assert(s1.frames@[fi].call == s0.frames@[fi].call);
        if fi > 0 {
            assert(s1.frames@[fi - 1].call == s0.frames@[fi - 1].call);
            assert(s1.frames@[fi - 1].reversible_write_counter == s0.frames@[fi
                - 1].reversible_write_counter);
        }
    }
    assert forall|fi: int, fj: int| 0 <= fi < fj < s1.frames@.len() implies #[trigger] s1.id_at(
        fi,
    ) < #[trigger] s1.id_at(fj) by {
        assert(s0.id_at(fi) < s0.id_at(fj));
        assert(s1.frames@[fi].call == s0.frames@[fi].call);
        assert(s1.frames@[fj].call == s0.frames@[fj].call);
    }
    assert forall|fi: int, pi: int|
        0 <= fi < s1.frames@.len() && 0 <= pi < s1.frames@[fi].pending@.len() implies #[trigger] s1.pending_ok(
        fi,
        pi,
    ) by {
        assert(s1.frames@[fi].call == s0.frames@[fi].call);
        assert(s0.pending_ok(fi, pi));
    }
}

pub(super) proof fn lemma_keep_memory(
    s0: CircuitInputStateRef,
    s1: CircuitInputStateRef,
    e: Operation<Op>,
    v: Word,
)
    requires
        stepped(s0, s1, e, v),
        same_calls(s0, s1),
        !(e.op is Memory),
        forall|fi: int|
            0 <= fi < s0.frames@.len() - 1 ==> same_frame(#[trigger] s1.frames@[fi], s0.frames@[fi]),
        s0.frames@.len() > 0 ==> s1.top().memory@ == s0.top().memory@,
    ensures
        forall|fi: int, address: usize|
            0 <= fi < s1.frames@.len() ==> #[trigger] s1.memory_mirrored(fi, address),
{
    lemma_step(s0, s1, e, v);
    assert forall|fi: int, address: usize| 0 <= fi < s1.frames@.len() implies #[trigger] s1.memory_mirrored(
        fi,
        address,
    ) by {
        if fi < s0.frames@.len() - 1 {
            assert(same_frame(s1.frames@[fi], s0.frames@[fi]));
        }
        assert(s1.frames@[fi].call == s0.frames@[fi].call);
        assert(s0.memory_mirrored(fi, address));
        let k = s1.memory_key(fi, address);
        assert(k == s0.memory_key(fi, address));
        if s1.init@.dom().contains(k) {
            assert(s0.init@.dom().contains(k));
        }
    }
}

pub(super) proof fn lemma_keep_stack(
    s0: CircuitInputStateRef,
    s1: CircuitInputStateRef,
    e: Operation<Op>,
    v: Word,
)
    requires
        stepped(s0, s1, e, v),
        same_calls(s0, s1),
        !(e.op is Stack),
        forall|fi: int|
            0 <= fi < s0.frames@.len() ==> (#[trigger] s1.frames@[fi]).stack@
                == s0.frames@[fi].stack@,
    ensures
        forall|fi: int, si: int|
            0 <= fi < s1.frames@.len() && 0 <= si < s1.frames@[fi].stack@.len()
                ==> #[trigger] s1.stack_mirrored(fi, si),
{
    lemma_step(s0, s1, e, v);
    assert forall|fi: int, si: int|
        0 <= fi < s1.frames@.len() && 0 <= si < s1.frames@[fi].stack@.len() implies #[trigger] s1.stack_mirrored(
        fi,
        si,
    ) by {
        assert(s1.frames@[fi].stack@ == s0.frames@[fi].stack@);
        assert(s1.frames@[fi].call == s0.frames@[fi].call);
        assert(s0.stack_mirrored(fi, si));
        assert(s1.stack_key(fi, si) == s0.stack_key(fi, si));
    }
}

/// Every reversal that waits is a write to a key of the database that the
/// log touches.
pub(super) proof fn lemma_all_pending_ok(s: CircuitInputStateRef)
    requires
        s.coherent(),
    ensures
        forall|i: int|
            0 <= i < s.all_pending().len() ==> s.reversal_ok((#[trigger] s.all_pending()[i]).op),
{
    let n = s.frames@.len() as int;
    let all = s.all_pending();
    assert forall|i: int| 0 <= i < all.len() implies s.reversal_ok((#[trigger] all[i]).op) by {
        lemma_pending_upto_member(s.pendings(), n, i);
        let (fi, pi) = choose|fi: int, pi: int|
            0 <= fi < n && 0 <= pi < s.pendings()[fi].len() && #[trigger] s.pendings()[fi][pi]
                == all[i];
        assert(s.pending_ok(fi, pi));
    }
}

/// A step that writes to no key of the database leaves the reversals that
/// wait as they can be undone.
pub(super) proof fn lemma_keep_undoable(
    s0: CircuitInputStateRef,
    s1: CircuitInputStateRef,
    e: Operation<Op>,
    v: Word,
)
    requires
        stepped(s0, s1, e, v),
        same_calls(s0, s1),
        undoable(s0.log(), s0.init@, s0.all_pending()),
        e.rw == RW::Read || !(e.op is Storage || e.op is TxAccessListAccount),
    ensures
        undoable(s1.log(), s1.init@, s1.all_pending()),
{
    lemma_step(s0, s1, e, v);
    lemma_all_pending_ok(s0);
    assert(s1.pendings() =~= s0.pendings());
    let p = s0.all_pending();
    assert forall|i: int| 0 <= i < p.len() implies current(
        s1.log(),
        s1.init@,
        (#[trigger] p[i]).op.key(),
    ) == current(s0.log(), s0.init@, p[i].op.key()) by {
        assert(s0.reversal_ok(p[i].op));
    }
    lemma_undoable_agree(s1.log(), s1.init@, s0.log(), s0.init@, p);
}

/// Below a persistent frame every frame is persistent and holds no reversal.
pub(super) proof fn lemma_persistent_below(s: CircuitInputStateRef, fi: int)
    requires
        s.coherent(),
        0 <= fi < s.frames@.len(),
        s.frames@[fi].call.is_persistent,
    ensures
        forall|fj: int| 0 <= fj <= fi ==> (#[trigger] s.pendings()[fj]).len() == 0,
    decreases fi,
{
    assert(s.frame_ok(fi));
    if fi > 0 {
        lemma_persistent_below(s, fi - 1);
    }
}

/// While a persistent call runs, no reversal waits.
pub(super) proof fn lemma_persistent_top(s: CircuitInputStateRef)
    requires
        s.coherent(),
        s.frames@.len() > 0,
        s.top().call.is_persistent,
    ensures
        s.all_pending() =~= Seq::<Reversal>::empty(),
{
    let n = s.frames@.len() as int;
    lemma_persistent_below(s, n - 1);
    lemma_pending_upto_empty(s.pendings(), n);
}

/// The reversals that wait are those of the frames below the top one, then
/// those of the top one.
pub(super) proof fn lemma_all_pending_split(s: CircuitInputStateRef)
    requires
        s.frames@.len() > 0,
    ensures
        s.all_pending() == pending_upto(s.pendings(), s.frames@.len() - 1) + s.top().pending@,
{
}

/// The reversals of the frames below place `n` are the same in two states
/// that hold the same reversals in those frames.
pub(super) proof fn lemma_pending_below_same(s0: CircuitInputStateRef, s1: CircuitInputStateRef, n: int)
    requires
        0 <= n <= s0.frames@.len(),
        n <= s1.frames@.len(),
        forall|fi: int|
            0 <= fi < n ==> (#[trigger] s1.frames@[fi]).pending@ == s0.frames@[fi].pending@,
    ensures
        pending_upto(s1.pendings(), n) == pending_upto(s0.pendings(), n),
{
    assert forall|fi: int| 0 <= fi < n implies #[trigger] s1.pendings()[fi]
        == s0.pendings()[fi] by {
        assert(s1.frames@[fi].pending@ == s0.frames@[fi].pending@);
    }
    lemma_pending_upto_same(s1.pendings(), s0.pendings(), n);
}

/// A frame that is the same in two states, over the same frame below it,
/// is in order in one as in the other, and so are its reversals.
pub(super) proof fn lemma_frame_kept(s0: CircuitInputStateRef, s1: CircuitInputStateRef, fi: int)
    requires
        s0.coherent(),
        s1.init@ == s0.init@,
        s1.tx_id == s0.tx_id,
        s1.next_call_id == s0.next_call_id,
        0 <= fi < s0.frames@.len(),
        fi < s1.frames@.len(),
        same_frame(s1.frames@[fi], s0.frames@[fi]),
        fi > 0 ==> s1.frames@[fi - 1].call == s0.frames@[fi - 1].call && s1.frames@[fi
            - 1].reversible_write_counter == s0.frames@[fi - 1].reversible_write_counter,
    ensures
        s1.frame_ok(fi),
        forall|pi: int| 0 <= pi < s1.frames@[fi].pending@.len() ==> #[trigger] s1.pending_ok(fi, pi),
{
    assert(s0.frame_ok(fi));
    assert forall|pi: int| 0 <= pi < s1.frames@[fi].pending@.len() implies #[trigger] s1.pending_ok(
        fi,
        pi,
    ) by {
        assert(s0.pending_ok(fi, pi));
    }
}

/// A state that keeps the lower frames of another with their calls and
/// stacks, and whose frames and reversals are in order, is as good as the
/// one it came from.
pub(super) proof fn lemma_reframe(s0: CircuitInputStateRef, s1: CircuitInputStateRef)
    requires
        s0.coherent(),
        s1.sdb == s0.sdb,
        s1.container == s0.container,
        s1.init@ == s0.init@,
        s1.genesis@ == s0.genesis@,
        s1.tx_id == s0.tx_id,
        s1.in_tx == s0.in_tx,
        s1.next_call_id == s0.next_call_id,
        s1.frames@.len() <= s0.frames@.len(),
        forall|fi: int|
            0 <= fi < s1.frames@.len() ==> (#[trigger] s1.frames@[fi]).call == s0.frames@[fi].call
                && s1.frames@[fi].stack@ == s0.frames@[fi].stack@ && s1.frames@[fi].memory@
                == s0.frames@[fi].memory@,
        forall|fi: int| 0 <= fi < s1.frames@.len() ==> #[trigger] s1.frame_ok(fi),
        forall|fi: int, pi: int|
            0 <= fi < s1.frames@.len() && 0 <= pi < s1.frames@[fi].pending@.len()
                ==> #[trigger] s1.pending_ok(fi, pi),
    ensures
        s1.coherent(),
{
    assert forall|i: int| 0 <= i < s1.log().len() implies #[trigger] s1.touched_at(i) by {
        assert(s0.touched_at(i));
    }
    assert forall|k: Key| #[trigger] s1.fresh(k) by {
        assert(s0.fresh(k));
    }
    assert forall|k: Key| #[trigger] s1.grounded_at(k) by {
        assert(s0.grounded_at(k));
    }
    assert forall|fi: int, fj: int| 0 <= fi < fj < s1.frames@.len() implies #[trigger] s1.id_at(
        fi,
    ) < #[trigger] s1.id_at(fj) by {
        assert(s0.id_at(fi) < s0.id_at(fj));
        assert(s1.frames@[fi].call == s0.frames@[fi].call);
        assert(s1.frames@[fj].call == s0.frames@[fj].call);
    }
    assert forall|fi: int, si: int|
        0 <= fi < s1.frames@.len() && 0 <= si < s1.frames@[fi].stack@.len() implies #[trigger] s1.stack_mirrored(
        fi,
        si,
    ) by {
        assert(s1.frames@[fi].call == s0.frames@[fi].call);
        assert(s0.stack_mirrored(fi, si));
        assert(s1.stack_key(fi, si) == s0.stack_key(fi, si));
    }
    assert forall|fi: int, address: usize| 0 <= fi < s1.frames@.len() implies #[trigger] s1.memory_mirrored(
        fi,
        address,
    ) by {
        assert(s1.frames@[fi].call == s0.frames@[fi].call);
        assert(s0.memory_mirrored(fi, address));
        assert(s1.memory_key(fi, address) == s0.memory_key(fi, address));
    }
    assert forall|fi: int, field: CallContextField|
        0 <= fi < s1.frames@.len() implies #[trigger] s1.cc_mirrored(fi, field) by {
        assert(s1.frames@[fi].call == s0.frames@[fi].call);
        assert(s0.cc_mirrored(fi, field));
        assert(s1.cc_key(fi, field) == s0.cc_key(fi, field));
    }
    assert forall|a: Address, s: Word| #[trigger] s1.storage_mirrored(a, s) by {
        assert(s0.storage_mirrored(a, s));
    }
    assert forall|a: Address, f: AccountField| #[trigger] s1.account_mirrored(a, f) by {
        assert(s0.account_mirrored(a, f));
    }
    assert forall|a: Address| #[trigger] s1.warm_mirrored(a) by {
        assert(s0.warm_mirrored(a));
    }
}

} // verus!
