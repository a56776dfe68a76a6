//! The state that handlers of instructions work on, with its invariant and
//! the laws that follow from it.

use crate::call::{memory_at, CallContext, Reversal, STACK_LIMIT};
use crate::container::{lemma_sequence_numbers, OperationContainer};
use crate::exec_step::ExecStep;
use crate::operation::{AccountField, CallContextField, Key, Op, Operation, RW};
use crate::reversion::{on_target, pending_upto, undoable};
use crate::state_db::StateDb;
use crate::trace::{
    consistent, cools, current, lemma_read_after_write, lemma_warm_stays_warm, writes_to,
};
use crate::word::{Address, Word};
use vstd::prelude::*;

mod access;
mod calls;
mod steps;
mod writes;

verus! {

/// The initial values with `k` added, unless `k` has one already.
pub open spec fn touch(init: Map<Key, Word>, k: Key, v: Word) -> Map<Key, Word> {
    if init.dom().contains(k) {
        init
    } else {
        init.insert(k, v)
    }
}

/// What the handlers of instructions work on: the state database, the log of
/// operations, the transaction under way and its live call frames.
pub struct CircuitInputStateRef {
    pub sdb: StateDb,
    pub container: OperationContainer,
    /// The id of the transaction under way, or of the last one; zero before
    /// the first.
    pub tx_id: usize,
    /// Whether a transaction is under way.
    pub in_tx: bool,
    /// The live call frames, outermost first.
    pub frames: Vec<CallContext>,
    /// The id that the next call frame gets.
    pub next_call_id: usize,
    /// Whether handlers compare what they record with what the trace shows.
    pub check_trace: bool,
    /// For every key that the log touches, the value it held before the
    /// first operation on it.
    pub init: Ghost<Map<Key, Word>>,
    /// The database as it was when the state was made over it.
    pub genesis: Ghost<StateDb>,
}

/// Whether `k` is a key of the database: an account field, a storage slot or
/// an entry of an access list.
pub open spec fn is_db_key(k: Key) -> bool {
    k is Account || k is Storage || k is TxAccessListAccount
}

/// What the database `db` holds at the key `k`, entries of access lists
/// taken for the list that `db` holds now.
pub open spec fn db_value(db: StateDb, k: Key) -> Word {
    match k {
        Key::Account { address, field } => db.account(address).spec_field_value(field),
        Key::Storage { address, key } => db.storage_at(address, key),
        Key::TxAccessListAccount { address, .. } => Word::spec_from_bool(db.is_warm(address)),
        _ => Word { hi: 0, lo: 0 },
    }
}

impl CircuitInputStateRef {
    /// The log of operations recorded so far.
    pub open spec fn log(&self) -> Seq<Operation<Op>> {
        self.container@
    }

    /// The key of the stack slot at place `si` of the frame at place `fi`.
    pub open spec fn stack_key(&self, fi: int, si: int) -> Key {
        Key::Stack {
            call_id: self.frames@[fi].call.call_id,
            address: (STACK_LIMIT - 1 - si) as usize,
        }
    }

    /// The key of a field of the context of the frame at place `fi`.
    pub open spec fn cc_key(&self, fi: int, field: CallContextField) -> Key {
        Key::CallContext { call_id: self.frames@[fi].call.call_id, field }
    }

    /// The log holds, for a filled stack slot, the value that the slot holds.
    pub open spec fn stack_mirrored(&self, fi: int, si: int) -> bool {
        let k = self.stack_key(fi, si);
        &&& self.init@.dom().contains(k)
        &&& current(self.log(), self.init@, k) == self.frames@[fi].stack@[si]
    }

    /// The key of the byte at `address` of the memory of the frame at place
    /// `fi`.
    pub open spec fn memory_key(&self, fi: int, address: usize) -> Key {
        Key::Memory { call_id: self.frames@[fi].call.call_id, address }
    }

    /// The log holds, for a byte of a live call's memory that it touches, the
    /// byte that the memory holds.
    pub open spec fn memory_mirrored(&self, fi: int, address: usize) -> bool {
        let k = self.memory_key(fi, address);
        self.init@.dom().contains(k) ==> current(self.log(), self.init@, k) == (Word {
            hi: 0,
            lo: memory_at(self.frames@[fi].memory@, address) as u128,
        })
    }

    /// The log holds, for a field of a live call's context that it touches,
    /// the value that the call gives the field.
    pub open spec fn cc_mirrored(&self, fi: int, field: CallContextField) -> bool {
        let k = self.cc_key(fi, field);
        self.init@.dom().contains(k) ==> current(self.log(), self.init@, k)
            == self.frames@[fi].call.spec_field_value(field, self.tx_id)
    }

    /// The log holds, for a storage slot that it touches, the value that the
    /// database holds.
    pub open spec fn storage_mirrored(&self, address: Address, key: Word) -> bool {
        let k = Key::Storage { address, key };
        self.init@.dom().contains(k) ==> current(self.log(), self.init@, k)
            == self.sdb.storage_at(address, key)
    }

    /// The log holds, for an account field that it touches, the value that a
    /// read of the database observes.
    pub open spec fn account_mirrored(&self, address: Address, field: AccountField) -> bool {
        let k = Key::Account { address, field };
        self.init@.dom().contains(k) ==> current(self.log(), self.init@, k) == self.sdb.account(
            address,
        ).spec_field_value(field)
    }

    /// The log holds, for an address whose entry in the access list of the
    /// transaction under way it touches, whether the address is warm.
    pub open spec fn warm_mirrored(&self, address: Address) -> bool {
        let k = Key::TxAccessListAccount { tx_id: self.tx_id, address };
        self.in_tx && self.init@.dom().contains(k) ==> current(self.log(), self.init@, k)
            == Word::spec_from_bool(self.sdb.is_warm(address))
    }

    /// A key can be touched now: it names a call frame that was entered, or
    /// a transaction that has begun.
    pub open spec fn in_reach(&self, k: Key) -> bool {
        match k {
            Key::Stack { call_id, .. } => call_id < self.next_call_id,
            Key::Memory { call_id, .. } => call_id < self.next_call_id,
            Key::CallContext { call_id, .. } => call_id < self.next_call_id,
            Key::TxAccessListAccount { tx_id, .. } => tx_id <= self.tx_id,
            _ => true,
        }
    }

    /// What the database held at the key `k` before anything was recorded:
    /// what the database that the state was made over holds, and cold for
    /// every entry of an access list.
    pub open spec fn origin(&self, k: Key) -> Word {
        match k {
            Key::TxAccessListAccount { .. } => Word::spec_from_bool(false),
            _ => db_value(self.genesis@, k),
        }
    }

    /// Whether the database holds the key `k` now: an entry of an access list
    /// only while its transaction is under way.
    pub open spec fn db_live(&self, k: Key) -> bool {
        match k {
            Key::TxAccessListAccount { tx_id, .. } => self.in_tx && tx_id == self.tx_id,
            _ => is_db_key(k),
        }
    }

    /// The initial value of a key of the database is what the database held
    /// before anything was recorded, and a key that the log does not touch
    /// still holds that.
    pub open spec fn grounded_at(&self, k: Key) -> bool {
        &&& self.db_live(k) && !self.init@.dom().contains(k) ==> db_value(self.sdb, k)
            == self.origin(k)
        &&& is_db_key(k) && self.init@.dom().contains(k) ==> self.init@[k] == self.origin(k)
    }

    /// A touched key is in reach.
    pub open spec fn fresh(&self, k: Key) -> bool {
        self.init@.dom().contains(k) ==> self.in_reach(k)
    }

    /// The key of the operation at place `i` of the log has an initial value.
    pub open spec fn touched_at(&self, i: int) -> bool {
        self.init@.dom().contains(self.log()[i].op.key())
    }

    /// The id of the frame at place `fi`.
    pub open spec fn id_at(&self, fi: int) -> usize {
        self.frames@[fi].call.call_id
    }

    /// The frame at place `fi` has an id that was given out and a stack within
    /// its limit. It is persistent exactly when it succeeds and the frame
    /// below it is persistent. If it is persistent, it holds no reversal; if
    /// it is not, it holds one reversal for each reversible write it counts,
    /// and, where it succeeds, its end of reversion is its caller's less the
    /// reversible writes that the caller counts.
    pub open spec fn frame_ok(&self, fi: int) -> bool {
        let f = self.frames@[fi];
        &&& fi < f.call.call_id < self.next_call_id
        &&& f.stack@.len() <= STACK_LIMIT
        &&& f.call.is_persistent == (f.call.is_success && (fi == 0 || self.frames@[fi
            - 1].call.is_persistent))
        &&& f.call.is_persistent ==> f.pending@.len() == 0
        &&& !f.call.is_persistent ==> f.pending@.len() == f.reversible_write_counter
        &&& !f.call.is_persistent && f.call.is_success ==> f.call.rw_counter_end_of_reversion
            + self.frames@[fi - 1].reversible_write_counter == self.frames@[fi
            - 1].call.rw_counter_end_of_reversion
    }

    /// A reversal of `op` can wait: `op` is a write to storage or to the
    /// access list of the transaction under way, on a key that the log
    /// touches.
    pub open spec fn reversal_ok(&self, op: Op) -> bool {
        &&& self.init@.dom().contains(op.key())
        &&& match op {
            Op::Storage(_) => true,
            Op::TxAccessListAccount(o) => o.tx_id == self.tx_id,
            _ => false,
        }
    }

    /// The reversal at place `pi` of the frame at place `fi` can wait, and
    /// its target is the frame's end of reversion less its place.
    pub open spec fn pending_ok(&self, fi: int, pi: int) -> bool {
        &&& self.reversal_ok(self.frames@[fi].pending@[pi].op)
        &&& self.frames@[fi].pending@[pi].target + pi
            == self.frames@[fi].call.rw_counter_end_of_reversion
    }

    /// The reversals that wait in each live frame, outermost frame first.
    pub open spec fn pendings(&self) -> Seq<Seq<Reversal>> {
        Seq::new(self.frames@.len(), |fi: int| self.frames@[fi].pending@)
    }

    /// All the reversals that wait, those of the outermost frame first.
    pub open spec fn all_pending(&self) -> Seq<Reversal> {
        pending_upto(self.pendings(), self.frames@.len() as int)
    }

    /// The invariant of the state: the log is consistent with the initial
    /// values; the database, the call contexts, the stacks and the memories
    /// hold what the log says they hold; and the reversals that wait can be
    /// undone: were
    /// they replayed now, last first, each would find the value it takes for
    /// the previous one.
    pub closed spec fn wf(&self) -> bool {
        &&& self.coherent()
        &&& undoable(self.log(), self.init@, self.all_pending())
    }

    /// The part of the invariant that holds also while reversals are
    /// replayed: the log is consistent with the initial values, and the
    /// database, the call contexts, the stacks and the memories hold what
    /// the log says they hold.
    pub closed spec fn coherent(&self) -> bool {
        &&& self.container.wf()
        &&& self.next_call_id >= 1
        &&& self.frames@.len() > 0 ==> self.in_tx
        &&& consistent(self.log(), self.init@)
        &&& forall|i: int| 0 <= i < self.log().len() ==> #[trigger] self.touched_at(i)
        &&& forall|k: Key| #[trigger] self.fresh(k)
        &&& forall|k: Key| #[trigger] self.grounded_at(k)
        &&& forall|fi: int| 0 <= fi < self.frames@.len() ==> #[trigger] self.frame_ok(fi)
        &&& forall|fi: int, fj: int|
            0 <= fi < fj < self.frames@.len() ==> #[trigger] self.id_at(fi) < #[trigger] self.id_at(
                fj,
            )
        &&& forall|fi: int, si: int|
            0 <= fi < self.frames@.len() && 0 <= si < self.frames@[fi].stack@.len()
                ==> #[trigger] self.stack_mirrored(fi, si)
        &&& forall|fi: int, address: usize|
            0 <= fi < self.frames@.len() ==> #[trigger] self.memory_mirrored(fi, address)
        &&& forall|fi: int, field: CallContextField|
            0 <= fi < self.frames@.len() ==> #[trigger] self.cc_mirrored(fi, field)
        &&& forall|a: Address, s: Word| #[trigger] self.storage_mirrored(a, s)
        &&& forall|a: Address, f: AccountField| #[trigger] self.account_mirrored(a, f)
        &&& forall|a: Address| #[trigger] self.warm_mirrored(a)
        &&& forall|fi: int, pi: int|
            0 <= fi < self.frames@.len() && 0 <= pi < self.frames@[fi].pending@.len()
                ==> #[trigger] self.pending_ok(fi, pi)
    }

    /// The log of a state is numbered and consistent: its container is in
    /// order, every operation may follow those before it, and every key that
    /// an operation touches has an initial value.
    pub proof fn lemma_wf_log(&self)
        requires
            self.wf(),
        ensures
            self.container.wf(),
            consistent(self.log(), self.init@),
            forall|i: int|
                0 <= i < self.log().len() ==> self.init@.dom().contains(
                    (#[trigger] self.log()[i]).op.key(),
                ),
    {
        assert forall|i: int| 0 <= i < self.log().len() implies self.init@.dom().contains(
            (#[trigger] self.log()[i]).op.key(),
        ) by {
            assert(self.touched_at(i));
        }
    }

    /// The live frames of a state are in order, and their stacks, memories
    /// and contexts hold what the log says they hold.
    pub proof fn lemma_wf_frames(&self)
        requires
            self.wf(),
        ensures
            self.frames@.len() > 0 ==> self.in_tx,
            forall|fi: int| 0 <= fi < self.frames@.len() ==> #[trigger] self.frame_ok(fi),
            forall|fi: int, fj: int|
                0 <= fi < fj < self.frames@.len() ==> #[trigger] self.id_at(fi)
                    < #[trigger] self.id_at(fj),
            forall|fi: int, si: int|
                0 <= fi < self.frames@.len() && 0 <= si < self.frames@[fi].stack@.len()
                    ==> #[trigger] self.stack_mirrored(fi, si),
            forall|fi: int, address: usize|
                0 <= fi < self.frames@.len() ==> #[trigger] self.memory_mirrored(fi, address),
            forall|fi: int, field: CallContextField|
                0 <= fi < self.frames@.len() ==> #[trigger] self.cc_mirrored(fi, field),
            forall|fi: int, pi: int|
                0 <= fi < self.frames@.len() && 0 <= pi < self.frames@[fi].pending@.len()
                    ==> #[trigger] self.pending_ok(fi, pi),
    {
    }

    /// The database of a state holds what the log says it holds, and the
    /// initial values of its keys are its own.
    pub proof fn lemma_wf_db(&self)
        requires
            self.wf(),
        ensures
            forall|a: Address, s: Word| #[trigger] self.storage_mirrored(a, s),
            forall|a: Address, f: AccountField| #[trigger] self.account_mirrored(a, f),
            forall|a: Address| #[trigger] self.warm_mirrored(a),
            forall|k: Key| #[trigger] self.fresh(k),
            forall|k: Key| #[trigger] self.grounded_at(k),
    {
    }

    /// Initial values are the database's: the initial value of an account
    /// field or a storage slot that the log touches is what the database
    /// held when the state was made over it, and every address starts each
    /// transaction cold.
    pub proof fn lemma_initial_values(&self, k: Key)
        requires
            self.wf(),
            self.init@.dom().contains(k),
        ensures
            k matches Key::Account { address, field } ==> self.init@[k] == self.genesis@.account(
                address,
            ).spec_field_value(field),
            k matches Key::Storage { address, key } ==> self.init@[k] == self.genesis@.storage_at(
                address,
                key,
            ),
            k is TxAccessListAccount ==> self.init@[k] == Word::spec_from_bool(false),
    {
        assert(self.grounded_at(k));
    }

    /// Sequence numbers, of every state: the operation at place `i` of the log
    /// has number `i + 1`, so the numbers rise by one along the log and none
    /// is used twice.
    pub proof fn lemma_log_numbered(&self, i: int, j: int)
        requires
            self.wf(),
            0 <= i <= j < self.log().len(),
        ensures
            self.log()[i].rwc == i + 1,
            self.log()[j].rwc == j + 1,
            i < j ==> self.log()[i].rwc < self.log()[j].rwc,
    {
        lemma_sequence_numbers(self.container, i);
        lemma_sequence_numbers(self.container, j);
    }

    /// Read after write, of every state: a read in the log gives the value of
    /// the most recent write to its key before it, or the key's initial value
    /// where no write to the key comes before it.
    pub proof fn lemma_reads_see_last_write(&self, i: int)
        requires
            self.wf(),
            0 <= i < self.log().len(),
            self.log()[i].rw == RW::Read,
        ensures
            ({
                let log = self.log();
                let k = log[i].op.key();
                ||| exists|j: int|
                    {
                        &&& 0 <= j < i
                        &&& #[trigger] writes_to(log[j], k)
                        &&& log[i].op.value() == log[j].op.value()
                        &&& forall|m: int| j < m < i ==> !#[trigger] writes_to(log[m], k)
                    }
                ||| {
                    &&& forall|m: int| 0 <= m < i ==> !#[trigger] writes_to(log[m], k)
                    &&& self.init@.dom().contains(k)
                    &&& log[i].op.value() == self.init@[k]
                }
            }),
    {
        assert(self.touched_at(i));
        lemma_read_after_write(self.log(), self.init@, i);
    }

    /// Warm stays warm, of every state: once a write to the access list has
    /// made an address warm, every later operation on that entry records it
    /// as warm before, unless a write in between made it cold again, which
    /// only the replay of a reverting call's reversals does.
    pub proof fn lemma_warm_until_reverted(&self, i: int, j: int)
        requires
            self.wf(),
            0 <= i < j < self.log().len(),
            self.log()[i].op is TxAccessListAccount,
            self.log()[j].op is TxAccessListAccount,
            self.log()[i].op.key() == self.log()[j].op.key(),
            self.log()[i].rw == RW::Write,
            self.log()[i].op->TxAccessListAccount_0.is_warm,
            forall|m: int| i < m < j ==> !#[trigger] cools(self.log()[m], self.log()[i].op.key()),
        ensures
            self.log()[j].op->TxAccessListAccount_0.is_warm_prev,
    {
        lemma_warm_stays_warm(self.log(), self.init@, i, j);
    }

    /// No reversible write is forgotten: a call that is not persistent
    /// holds one reversal for each reversible write it counts, and the
    /// target of each is the call's end of reversion less its place. So the
    /// reversals land on their targets exactly when none waits or the end of
    /// reversion is the number that the last operation of the replay gets.
    pub proof fn lemma_reversals_counted(&self)
        requires
            self.wf(),
            self.frames@.len() > 0,
            !self.top().call.is_persistent,
        ensures
            self.top().pending@.len() == self.top().reversible_write_counter,
            forall|pi: int|
                0 <= pi < self.top().pending@.len() ==> (#[trigger] self.top().pending@[pi]).target
                    + pi == self.top().call.rw_counter_end_of_reversion,
            on_target(self.log().len() as int, self.top().pending@) <==> self.top().pending@.len()
                == 0 || self.top().call.rw_counter_end_of_reversion == self.log().len()
                + self.top().reversible_write_counter,
    {
        let n = self.frames@.len() as int;
        let p = self.top().pending@;
        assert(self.frame_ok(n - 1));
        assert forall|pi: int| 0 <= pi < p.len() implies (#[trigger] p[pi]).target + pi
            == self.top().call.rw_counter_end_of_reversion by {
            assert(self.pending_ok(n - 1, pi));
        }
        if p.len() > 0 && on_target(self.log().len() as int, p) {
            assert(p[0].target == self.log().len() + p.len() - 0);
        }
    }
}

/// Whether two frames hold the same call, stack, memory, counter and
/// reversals.
pub open spec fn same_frame(a: CallContext, b: CallContext) -> bool {
    &&& a.call == b.call
    &&& a.stack@ == b.stack@
    &&& a.memory@ == b.memory@
    &&& a.reversible_write_counter == b.reversible_write_counter
    &&& a.pending@ == b.pending@
}

/// Whether two states hold the same frames below the top one, and as many.
pub open spec fn same_below_top(s0: CircuitInputStateRef, s1: CircuitInputStateRef) -> bool {
    &&& s1.frames@.len() == s0.frames@.len()
    &&& forall|fi: int|
        0 <= fi < s0.frames@.len() - 1 ==> same_frame(#[trigger] s1.frames@[fi], s0.frames@[fi])
}

/// Whether two states belong to the same transaction, have given out the
/// same call ids, check the trace alike and were made over the same
/// database.
pub open spec fn same_config(s0: CircuitInputStateRef, s1: CircuitInputStateRef) -> bool {
    &&& s1.tx_id == s0.tx_id
    &&& s1.in_tx == s0.in_tx
    &&& s1.next_call_id == s0.next_call_id
    &&& s1.check_trace == s0.check_trace
    &&& s1.genesis@ == s0.genesis@
}

/// Whether `after` is the step `before` with the sequence numbers `seqs`
/// added to the operations it made.
pub open spec fn step_extended(before: ExecStep, after: ExecStep, seqs: Seq<usize>) -> bool {
    &&& after.pc == before.pc
    &&& after.op == before.op
    &&& after.gas_left == before.gas_left
    &&& after.call_id == before.call_id
    &&& after.rwc == before.rwc
    &&& after.reversible_write_counter == before.reversible_write_counter
    &&& after.bus_mapping_instance@ == before.bus_mapping_instance@ + seqs
}

/// Whether `s1` has the frames of `s0` with, in the top one, the stack `stack`.
pub open spec fn top_with_stack(
    s0: CircuitInputStateRef,
    s1: CircuitInputStateRef,
    stack: Seq<Word>,
) -> bool {
    &&& same_below_top(s0, s1)
    &&& s1.top().call == s0.top().call
    &&& s1.top().stack@ == stack
    &&& s1.top().memory@ == s0.top().memory@
    &&& s1.top().reversible_write_counter == s0.top().reversible_write_counter
    &&& s1.top().pending@ == s0.top().pending@
}

/// Whether `after` is the database `before` with the write `op` applied: a
/// write to storage changes its slot, a write to the access list its
/// address, and nothing else changes.
pub open spec fn db_written(before: StateDb, after: StateDb, op: Op) -> bool {
    &&& forall|a: Address| #[trigger] after.account(a) == before.account(a)
    &&& forall|a: Address| #[trigger] after.has_account(a) == before.has_account(a)
    &&& forall|a: Address, s: Word| #[trigger]
        after.storage_at(a, s) == if op is Storage && op->Storage_0.address == a
            && op->Storage_0.key == s {
            op->Storage_0.value
        } else {
            before.storage_at(a, s)
        }
    &&& forall|a: Address| #[trigger]
        after.is_warm(a) == if op is TxAccessListAccount && op->TxAccessListAccount_0.address
            == a {
            op->TxAccessListAccount_0.is_warm
        } else {
            before.is_warm(a)
        }
}

} // verus!
