//! Transactions and call frames: how they begin and how they end.

use crate::call::{Call, CallContext, Reversal};
use crate::container::OperationContainer;
use crate::exec_step::{Error, ExecStep, GethExecStep};
use crate::operation::{AccountField, CallContextField, Key, Op, Operation};
use crate::reversion::{
    lemma_undoable_concat, on_target, pending_upto, replayed, reversal_record, undoable,
};
use crate::state_db::StateDb;
use crate::state_ref::{CircuitInputStateRef, same_config, step_extended};
use crate::state_ref::steps::{
    lemma_all_pending_split, lemma_frame_kept, lemma_pending_below_same, lemma_reframe,
};
use crate::word::{Address, Word};
use vstd::prelude::*;

verus! {

impl CircuitInputStateRef {
    /// The top frame: the call that runs now.
    pub open spec fn top(&self) -> CallContext {
        self.frames@.last()
    }

    /// The call that `call` becomes when it is entered now: it gets the next
    /// id, its caller, root flag and depth from the frames below it; it is
    /// persistent if it succeeds below persistent frames only; and its end
    /// of reversion is zero if it is persistent, its caller's less the
    /// caller's reversible writes if it succeeds inside a reverting call,
    /// and the one given if it reverts itself.
    pub open spec fn entered(&self, call: Call) -> Call {
        let root = self.frames@.len() == 0;
        let parent = self.top();
        let persistent = call.is_success && (root || parent.call.is_persistent);
        Call {
            call_id: self.next_call_id,
            caller_id: if root {
                0
            } else {
                parent.call.call_id
            },
            is_root: root,
            is_success: call.is_success,
            is_persistent: persistent,
            rw_counter_end_of_reversion: if persistent {
                0
            } else if call.is_success {
                (parent.call.rw_counter_end_of_reversion
                    - parent.reversible_write_counter) as usize
            } else {
                call.rw_counter_end_of_reversion
            },
            address: call.address,
            depth: (self.frames@.len() + 1) as usize,
            call_data_offset: call.call_data_offset,
            call_data_length: call.call_data_length,
            return_data_offset: call.return_data_offset,
            return_data_length: call.return_data_length,
        }
    }

    /// Why `call` cannot be entered now, if it cannot: no transaction is
    /// under way; the call ids are used up; or the call succeeds inside a
    /// reverting caller that has made more reversible writes than its end of
    /// reversion leaves room for.
    pub open spec fn enter_error(&self, call: Call) -> Option<Error> {
        if !self.in_tx {
            Some(Error::MissingContext)
        } else if self.next_call_id == usize::MAX {
            Some(Error::InvariantViolation)
        } else if call.is_success && self.frames@.len() > 0 && !self.top().call.is_persistent
            && self.top().call.rw_counter_end_of_reversion < self.top().reversible_write_counter {
            Some(Error::InvariantViolation)
        } else {
            None
        }
    }

    /// A state over `sdb` with an empty log, no transaction and no frame.
    pub fn new(sdb: StateDb, check_trace: bool) -> (s: CircuitInputStateRef)
        ensures
            s.wf(),
            s.log() == Seq::<Operation<Op>>::empty(),
            s.init@ == Map::<Key, Word>::empty(),
            s.frames@.len() == 0,
            s.tx_id == 0,
            !s.in_tx,
            s.next_call_id == 1,
            s.check_trace == check_trace,
            s.sdb == sdb,
            s.genesis@ == sdb,
    {
        let ghost genesis = sdb;
        CircuitInputStateRef {
            sdb,
            container: OperationContainer::new(),
            tx_id: 0,
            in_tx: false,
            frames: Vec::new(),
            next_call_id: 1,
            check_trace,
            init: Ghost(Map::empty()),
            genesis: Ghost(genesis),
        }
    }

    /// Begins the transaction `tx_id` with an empty access list. Fails, and
    /// changes nothing, while a call frame is live or if `tx_id` is not above
    /// the id of the transaction before.
    pub fn begin_tx(&mut self, tx_id: usize) -> (r: Result<(), Error>)
        requires
            old(self).wf(),
        ensures
            final(self).wf(),
            r is Ok <==> old(self).frames@.len() == 0 && tx_id > old(self).tx_id,
            r is Err ==> r == Err::<(), Error>(Error::InvariantViolation) && *final(self) == *old(
                self,
            ),
            r is Ok ==> {
                &&& final(self).tx_id == tx_id
                &&& final(self).in_tx
                &&& final(self).log() == old(self).log()
                &&& final(self).init@ == old(self).init@
                &&& final(self).frames@.len() == 0
                &&& final(self).next_call_id == old(self).next_call_id
                &&& final(self).check_trace == old(self).check_trace
                &&& final(self).genesis@ == old(self).genesis@
                &&& forall|a: Address| !#[trigger] final(self).sdb.is_warm(a)
                &&& forall|a: Address| #[trigger]
                    final(self).sdb.account(a) == old(self).sdb.account(a)
                &&& forall|a: Address| #[trigger]
                    final(self).sdb.has_account(a) == old(self).sdb.has_account(a)
                &&& forall|a: Address, k: Word| #[trigger]
                    final(self).sdb.storage_at(a, k) == old(self).sdb.storage_at(a, k)
            },
    {
        if self.frames.len() != 0 || tx_id <= self.tx_id {
            return Err(Error::InvariantViolation);
        }
        let ghost s0 = *self;
        self.tx_id = tx_id;
        self.in_tx = true;
        self.sdb.clear_access_list();
        proof {
            assert forall|i: int| 0 <= i < self.log().len() implies #[trigger] self.touched_at(
                i,
            ) by {
                assert(s0.touched_at(i));
            }
            assert forall|k: Key| #[trigger] self.fresh(k) by {
                assert(s0.fresh(k));
            }
            assert forall|k: Key| #[trigger] self.grounded_at(k) by {
                assert(s0.grounded_at(k));
                assert(s0.fresh(k));
            }
            assert forall|a: Address, s: Word| #[trigger] self.storage_mirrored(a, s) by {
                assert(s0.storage_mirrored(a, s));
            }
            assert forall|a: Address, f: AccountField| #[trigger] self.account_mirrored(a, f) by {
                assert(s0.account_mirrored(a, f));
            }
            assert forall|a: Address| #[trigger] self.warm_mirrored(a) by {
                assert(s0.fresh(Key::TxAccessListAccount { tx_id: self.tx_id, address: a }));
            }
        }
        Ok(())
    }

    /// Ends the transaction under way and destroys its access list. Fails,
    /// and changes nothing, while a call frame is live or if no transaction
    /// is under way.
    pub fn end_tx(&mut self) -> (r: Result<(), Error>)
        requires
            old(self).wf(),
        ensures
            final(self).wf(),
            r is Ok <==> old(self).frames@.len() == 0 && old(self).in_tx,
            r is Err ==> r == Err::<(), Error>(Error::InvariantViolation) && *final(self) == *old(
                self,
            ),
            r is Ok ==> {
                &&& final(self).tx_id == old(self).tx_id
                &&& !final(self).in_tx
                &&& final(self).log() == old(self).log()
                &&& final(self).init@ == old(self).init@
                &&& final(self).frames@.len() == 0
                &&& final(self).next_call_id == old(self).next_call_id
                &&& final(self).check_trace == old(self).check_trace
                &&& final(self).genesis@ == old(self).genesis@
                &&& forall|a: Address| !#[trigger] final(self).sdb.is_warm(a)
                &&& forall|a: Address| #[trigger]
                    final(self).sdb.account(a) == old(self).sdb.account(a)
                &&& forall|a: Address| #[trigger]
                    final(self).sdb.has_account(a) == old(self).sdb.has_account(a)
                &&& forall|a: Address, k: Word| #[trigger]
                    final(self).sdb.storage_at(a, k) == old(self).sdb.storage_at(a, k)
            },
    {
        if self.frames.len() != 0 || !self.in_tx {
            return Err(Error::InvariantViolation);
        }
        let ghost s0 = *self;
        self.in_tx = false;
        self.sdb.clear_access_list();
        proof {
            assert forall|i: int| 0 <= i < self.log().len() implies #[trigger] self.touched_at(
                i,
            ) by {
                assert(s0.touched_at(i));
            }
            assert forall|k: Key| #[trigger] self.fresh(k) by {
                assert(s0.fresh(k));
            }
            assert forall|k: Key| #[trigger] self.grounded_at(k) by {
                assert(s0.grounded_at(k));
                assert(s0.fresh(k));
            }
            assert forall|a: Address, s: Word| #[trigger] self.storage_mirrored(a, s) by {
                assert(s0.storage_mirrored(a, s));
            }
            assert forall|a: Address, f: AccountField| #[trigger] self.account_mirrored(a, f) by {
                assert(s0.account_mirrored(a, f));
            }
        }
        Ok(())
    }

    /// Enters a call frame for `call`, with an empty stack and no reversible
    /// write, and returns its id. Of `call` it keeps whether the call
    /// succeeds, the callee's address, the bounds of call data and return
    /// data and, for a call that reverts, the end of reversion; the rest
    /// comes from the frames below it.
    pub fn push_call(&mut self, call: Call) -> (r: Result<usize, Error>)
        requires
            old(self).wf(),
        ensures
            final(self).wf(),
            r == match old(self).enter_error(call) {
                Some(e) => Err::<usize, Error>(e),
                None => Ok(old(self).next_call_id),
            },
            r is Err ==> *final(self) == *old(self),
            r is Ok ==> {
                &&& final(self).frames@.len() == old(self).frames@.len() + 1
                &&& forall|fi: int|
                    0 <= fi < old(self).frames@.len() ==> #[trigger] final(self).frames@[fi] == old(
                        self,
                    ).frames@[fi]
                &&& final(self).top().call == old(self).entered(call)
                &&& final(self).top().stack@ == Seq::<Word>::empty()
                &&& final(self).top().memory@ == Seq::<u8>::empty()
                &&& final(self).top().reversible_write_counter == 0
                &&& final(self).top().pending@ == Seq::<Reversal>::empty()
                &&& final(self).next_call_id == old(self).next_call_id + 1
                &&& final(self).tx_id == old(self).tx_id
                &&& final(self).in_tx
                &&& final(self).check_trace == old(self).check_trace
                &&& final(self).genesis@ == old(self).genesis@
                &&& final(self).sdb == old(self).sdb
                &&& final(self).log() == old(self).log()
                &&& final(self).init@ == old(self).init@
            },
    {
        if !self.in_tx {
            return Err(Error::MissingContext);
        }
        if self.next_call_id == usize::MAX {
            return Err(Error::InvariantViolation);
        }
        let ghost s0 = *self;
        let n = self.frames.len();
        let root = n == 0;
        proof {
            if n > 0 {
                assert(s0.frame_ok(n - 1));
            }
        }
        let mut caller_id: usize = 0;
        let mut persistent = call.is_success;
        let mut end: usize = 0;
        if !root {
            let parent = &self.frames[n - 1];
            caller_id = parent.call.call_id;
            persistent = call.is_success && parent.call.is_persistent;
            if !persistent && call.is_success {
                if parent.call.rw_counter_end_of_reversion < parent.reversible_write_counter {
                    return Err(Error::InvariantViolation);
                }
                end = parent.call.rw_counter_end_of_reversion - parent.reversible_write_counter;
            }
        }
        if !call.is_success {
            end = call.rw_counter_end_of_reversion;
        }
        let id = self.next_call_id;
        let entered = Call {
            call_id: id,
            caller_id,
            is_root: root,
            is_success: call.is_success,
            is_persistent: persistent,
            rw_counter_end_of_reversion: end,
            address: call.address,
            depth: n + 1,
            call_data_offset: call.call_data_offset,
            call_data_length: call.call_data_length,
            return_data_offset: call.return_data_offset,
            return_data_length: call.return_data_length,
        };
        assert(entered == s0.entered(call));
        self.frames.push(
            CallContext {
                call: entered,
                stack: Vec::new(),
                memory: Vec::new(),
                reversible_write_counter: 0,
                pending: Vec::new(),
            },
        );
        self.next_call_id = id + 1;
        proof {
            assert forall|i: int| 0 <= i < self.log().len() implies #[trigger] self.touched_at(
                i,
            ) by {
                assert(s0.touched_at(i));
            }
            assert forall|k: Key| #[trigger] self.fresh(k) by {
                assert(s0.fresh(k));
            }
            assert forall|k: Key| #[trigger] self.grounded_at(k) by {
                assert(s0.grounded_at(k));
                assert(s0.fresh(k));
            }
            assert forall|fi: int| 0 <= fi < self.frames@.len() implies #[trigger] self.frame_ok(
                fi,
            ) by {
                if fi < n {
                    assert(s0.frame_ok(fi));
                    assert(self.frames@[fi] == s0.frames@[fi]);
                    if fi > 0 {
                        assert(self.frames@[fi - 1] == s0.frames@[fi - 1]);
                    }
                } else if n > 0 {
                    assert(self.frames@[n - 1] == s0.frames@[n - 1]);
                }
            }
            assert forall|fi: int, fj: int| 0 <= fi < fj < self.frames@.len() implies #[trigger] self.id_at(
                fi,
            ) < #[trigger] self.id_at(fj) by {
                assert(self.frames@[fi] == s0.frames@[fi]);
                assert(s0.frame_ok(fi));
                if fj < n {
                    assert(self.frames@[fj] == s0.frames@[fj]);
                    assert(s0.id_at(fi) < s0.id_at(fj));
                }
            }
            assert forall|fi: int, si: int|
                0 <= fi < self.frames@.len() && 0 <= si < self.frames@[fi].stack@.len() implies #[trigger] self.stack_mirrored(
                fi,
                si,
            ) by {
                assert(self.frames@[fi] == s0.frames@[fi]);
                assert(s0.stack_mirrored(fi, si));
                assert(self.stack_key(fi, si) == s0.stack_key(fi, si));
            }
            assert forall|fi: int, field: CallContextField|
                0 <= fi < self.frames@.len() implies #[trigger] self.cc_mirrored(fi, field) by {
                if fi < n {
                    assert(self.frames@[fi] == s0.frames@[fi]);
                    assert(s0.cc_mirrored(fi, field));
                    assert(self.cc_key(fi, field) == s0.cc_key(fi, field));
                } else {
                    assert(s0.fresh(self.cc_key(fi, field)));
                }
            }
            assert forall|fi: int, address: usize|
                0 <= fi < self.frames@.len() implies #[trigger] self.memory_mirrored(
                fi,
                address,
            ) by {
                if fi < n {
                    assert(self.frames@[fi] == s0.frames@[fi]);
                    assert(s0.memory_mirrored(fi, address));
                    assert(self.memory_key(fi, address) == s0.memory_key(fi, address));
                } else {
                    assert(s0.fresh(self.memory_key(fi, address)));
                }
            }
            assert forall|a: Address, s: Word| #[trigger] self.storage_mirrored(a, s) by {
                assert(s0.storage_mirrored(a, s));
            }
            assert forall|a: Address, f: AccountField| #[trigger] self.account_mirrored(a, f) by {
                assert(s0.account_mirrored(a, f));
            }
            assert forall|a: Address| #[trigger] self.warm_mirrored(a) by {
                assert(s0.warm_mirrored(a));
            }
            assert forall|fi: int, pi: int|
                0 <= fi < self.frames@.len() && 0 <= pi < self.frames@[fi].pending@.len() implies #[trigger] self.pending_ok(
                fi,
                pi,
            ) by {
                assert(self.frames@[fi] == s0.frames@[fi]);
                assert(s0.pending_ok(fi, pi));
            }
        }
        proof {
            lemma_pending_below_same(s0, *self, n as int);
            lemma_all_pending_split(*self);
            assert(self.all_pending() =~= s0.all_pending());
        }
        Ok(id)
    }

    /// The call that runs now; there is none before a call is entered.
    pub fn call(&self) -> (r: Result<Call, Error>)
        ensures
            self.frames@.len() == 0 ==> r == Err::<Call, Error>(Error::MissingContext),
            self.frames@.len() > 0 ==> r == Ok::<Call, Error>(self.top().call),
    {
        let n = self.frames.len();
        if n == 0 {
            Err(Error::MissingContext)
        } else {
            Ok(self.frames[n - 1].call)
        }
    }

    /// A step record for the instruction `geth_step` in the call that runs
    /// now, with no operation yet.
    pub fn new_step(&self, geth_step: &GethExecStep) -> (r: Result<ExecStep, Error>)
        ensures
            self.frames@.len() == 0 ==> r is Err && r->Err_0 == Error::MissingContext,
            self.frames@.len() > 0 ==> r is Ok && {
                let step = r->Ok_0;
                &&& step.pc == geth_step.pc
                &&& step.op == geth_step.op
                &&& step.gas_left == geth_step.gas
                &&& step.call_id == self.top().call.call_id
                &&& step.rwc == self.log().len()
                &&& step.reversible_write_counter == self.top().reversible_write_counter
                &&& step.bus_mapping_instance@ == Seq::<usize>::empty()
            },
    {
        let n = self.frames.len();
        if n == 0 {
            return Err(Error::MissingContext);
        }
        let top = &self.frames[n - 1];
        Ok(
            ExecStep {
                pc: geth_step.pc,
                op: geth_step.op,
                gas_left: geth_step.gas,
                call_id: top.call.call_id,
                rwc: self.container.len(),
                reversible_write_counter: top.reversible_write_counter,
                bus_mapping_instance: Vec::new(),
            },
        )
    }
}

impl CircuitInputStateRef {
    /// The frame below the top one: the caller of the call that runs now.
    pub open spec fn parent(&self) -> CallContext {
        self.frames@[self.frames@.len() - 2]
    }

    /// Why the call that runs now cannot end, if it cannot: no call runs; a
    /// call that succeeds inside a reverting one would take its caller's
    /// count of reversible writes over the limit; or a call that reverts
    /// after reversible writes has an end of reversion that is not the
    /// number that the last operation of the replay gets, which is the
    /// number of operations recorded so far and of the writes to undo.
    pub open spec fn return_error(&self) -> Option<Error> {
        if self.frames@.len() == 0 {
            Some(Error::MissingContext)
        } else if self.top().call.is_success {
            if !self.top().call.is_persistent && self.parent().reversible_write_counter
                + self.top().reversible_write_counter > usize::MAX {
                Some(Error::InvariantViolation)
            } else {
                None
            }
        } else if self.top().reversible_write_counter > 0
            && self.top().call.rw_counter_end_of_reversion != self.log().len()
            + self.top().reversible_write_counter {
            Some(Error::InvariantViolation)
        } else {
            None
        }
    }

    /// The sequence numbers that `count` operations get when they are
    /// appended to the log.
    pub open spec fn next_numbers(&self, count: int) -> Seq<usize> {
        Seq::new(count as nat, |j: int| (self.log().len() + 1 + j) as usize)
    }

    /// Ends the call that runs now and leaves its frame.
    ///
    /// A persistent call drops its reversals. A call that succeeds inside a
    /// reverting one hands its reversals, and its count of reversible writes,
    /// to its caller. A call that reverts has its reversals replayed, last
    /// first: each is appended as a write that is not reversible, applied to
    /// the database, and noted in `step`.
    ///
    /// Fails, and changes nothing, as [`Self::return_error`] says. The replay
    /// itself cannot fail: every reversal finds the value that its write
    /// left.
    pub fn handle_return(&mut self, step: &mut ExecStep) -> (r: Result<(), Error>)
        requires
            old(self).wf(),
        ensures
            final(self).wf(),
            r == match old(self).return_error() {
                Some(e) => Err::<(), Error>(e),
                None => Ok::<(), Error>(()),
            },
            r is Err ==> *final(self) == *old(self) && *final(step) == *old(step),
            r is Ok ==> {
                let top = old(self).top();
                &&& same_config(*old(self), *final(self))
                &&& final(self).init@ == old(self).init@
                &&& final(self).frames@.len() == old(self).frames@.len() - 1
                &&& forall|a: Address| #[trigger]
                    final(self).sdb.account(a) == old(self).sdb.account(a)
                &&& forall|a: Address| #[trigger]
                    final(self).sdb.has_account(a) == old(self).sdb.has_account(a)
                &&& top.call.is_success ==> final(self).log() == old(self).log() && final(self).sdb
                    == old(self).sdb && *final(step) == *old(step)
                &&& top.call.is_persistent || !top.call.is_success ==> forall|fi: int|
                    0 <= fi < final(self).frames@.len() ==> #[trigger] final(self).frames@[fi]
                        == old(self).frames@[fi]
                &&& top.call.is_success && !top.call.is_persistent ==> {
                    &&& old(self).frames@.len() >= 2
                    &&& forall|fi: int|
                        0 <= fi < final(self).frames@.len() - 1 ==> #[trigger] final(self).frames@[fi] == old(self).frames@[fi]
                    &&& final(self).top().call == old(self).parent().call
                    &&& final(self).top().stack@ == old(self).parent().stack@
                    &&& final(self).top().memory@ == old(self).parent().memory@
                    &&& final(self).top().reversible_write_counter == old(
                        self,
                    ).parent().reversible_write_counter + top.reversible_write_counter
                    &&& final(self).top().pending@ == old(self).parent().pending@ + top.pending@
                }
                &&& !top.call.is_success ==> {
                    &&& final(self).log() == replayed(old(self).log(), top.pending@)
                    &&& step_extended(
                        *old(step),
                        *final(step),
                        old(self).next_numbers(top.pending@.len() as int),
                    )
                    &&& forall|a: Address, s: Word|
                        !old(self).init@.dom().contains(Key::Storage { address: a, key: s })
                            ==> #[trigger] final(self).sdb.storage_at(a, s) == old(
                            self,
                        ).sdb.storage_at(a, s)
                    &&& forall|a: Address|
                        !old(self).init@.dom().contains(
                            Key::TxAccessListAccount { tx_id: old(self).tx_id, address: a },
                        ) ==> #[trigger] final(self).sdb.is_warm(a) == old(self).sdb.is_warm(a)
                }
            },
    {
        let n = self.frames.len();
        if n == 0 {
            return Err(Error::MissingContext);
        }
        let ghost s0 = *self;
        let ghost step0 = *step;
        proof {
            assert(s0.frame_ok(n - 1));
            s0.lemma_wf_frames();
        }
        let success = self.frames[n - 1].call.is_success;
        let persistent = self.frames[n - 1].call.is_persistent;
        if success && persistent {
            let _ = self.frames.pop();
            proof {
                let s1 = *self;
                assert forall|fi: int| 0 <= fi < s1.frames@.len() implies #[trigger] s1.frames@[fi]
                    == s0.frames@[fi] by {}
                assert forall|fi: int| 0 <= fi < s1.frames@.len() implies #[trigger] s1.frame_ok(
                    fi,
                ) by {
                    lemma_frame_kept(s0, s1, fi);
                }
                assert forall|fi: int, pi: int|
                    0 <= fi < s1.frames@.len() && 0 <= pi < s1.frames@[fi].pending@.len() implies #[trigger] s1.pending_ok(
                    fi,
                    pi,
                ) by {
                    lemma_frame_kept(s0, s1, fi);
                }
                lemma_reframe(s0, s1);
                lemma_all_pending_split(s0);
                lemma_pending_below_same(s0, s1, n - 1);
                assert(s1.all_pending() =~= s0.all_pending());
            }
            return Ok(());
        }
        if success {
            let pc = self.frames[n - 2].reversible_write_counter;
            let tc = self.frames[n - 1].reversible_write_counter;
            if pc > usize::MAX - tc {
                return Err(Error::InvariantViolation);
            }
            let mut top = self.frames.pop().unwrap();
            let mut parent = self.frames.pop().unwrap();
            parent.reversible_write_counter = pc + tc;
            parent.pending.append(&mut top.pending);
            self.frames.push(parent);
            proof {
                let s1 = *self;
                assert forall|fi: int| 0 <= fi < n - 2 implies #[trigger] s1.frames@[fi]
                    == s0.frames@[fi] by {}
                assert(s0.frame_ok(n - 2));
                assert(s0.frame_ok(n - 1));
                assert forall|fi: int| 0 <= fi < s1.frames@.len() implies #[trigger] s1.frame_ok(
                    fi,
                ) by {
                    if fi < n - 2 {
                        lemma_frame_kept(s0, s1, fi);
                    } else if fi > 0 {
                        assert(s1.frames@[fi - 1] == s0.frames@[fi - 1]);
                    }
                }
                assert forall|fi: int, pi: int|
                    0 <= fi < s1.frames@.len() && 0 <= pi < s1.frames@[fi].pending@.len() implies #[trigger] s1.pending_ok(
                    fi,
                    pi,
                ) by {
                    if fi < n - 2 {
                        lemma_frame_kept(s0, s1, fi);
                    } else if pi < s0.frames@[n - 2].pending@.len() {
                        assert(s0.pending_ok(n - 2, pi));
                    } else {
                        assert(s0.pending_ok(n - 1, pi - s0.frames@[n - 2].pending@.len()));
                    }
                }
                lemma_reframe(s0, s1);
                lemma_all_pending_split(s0);
                lemma_all_pending_split(s1);
                lemma_pending_below_same(s0, s1, n - 2);
                assert(pending_upto(s0.pendings(), n - 1) == pending_upto(s0.pendings(), n - 2)
                    + s0.frames@[n - 2].pending@);
                assert(s1.all_pending() =~= s0.all_pending());
            }
            return Ok(());
        }
        // A call whose reversals would miss their targets ends before anything
        // is replayed.
        let count = self.container.len();
        let counter = self.frames[n - 1].reversible_write_counter;
        let end = self.frames[n - 1].call.rw_counter_end_of_reversion;
        if counter > 0 && (counter > usize::MAX - count || end != count + counter) {
            return Err(Error::InvariantViolation);
        }
        let len = self.frames[n - 1].pending.len();
        proof {
            s0.lemma_reversals_counted();
        }
        let top = self.frames.pop().unwrap();
        let ghost popped = *self;
        proof {
            let s1 = *self;
            assert forall|fi: int| 0 <= fi < s1.frames@.len() implies #[trigger] s1.frames@[fi]
                == s0.frames@[fi] by {}
            assert forall|fi: int| 0 <= fi < s1.frames@.len() implies #[trigger] s1.frame_ok(
                fi,
            ) by {
                lemma_frame_kept(s0, s1, fi);
            }
            assert forall|fi: int, pi: int|
                0 <= fi < s1.frames@.len() && 0 <= pi < s1.frames@[fi].pending@.len() implies #[trigger] s1.pending_ok(
                fi,
                pi,
            ) by {
                lemma_frame_kept(s0, s1, fi);
            }
            lemma_reframe(s0, s1);
            lemma_all_pending_split(s0);
            lemma_pending_below_same(s0, s1, n - 1);
            lemma_undoable_concat(
                s0.log(),
                s0.init@,
                pending_upto(s0.pendings(), n - 1),
                s0.top().pending@,
            );
        }
        let pending = top.pending;
        proof {
            assert(pending@.take(len as int) =~= pending@);
            assert forall|pi: int| 0 <= pi < pending@.len() implies self.reversal_ok(
                (#[trigger] pending@[pi]).op,
            ) by {
                assert(s0.pending_ok(n - 1, pi));
            }
            assert(step.bus_mapping_instance@ =~= step0.bus_mapping_instance@ + s0.next_numbers(0));
        }
        let mut i = len;
        while i > 0
            invariant
                self.coherent(),
                s0 == *old(self),
                s0.frames@.len() > 0,
                !s0.top().call.is_success,
                self.in_tx,
                i <= len,
                len == pending@.len(),
                pending@ == s0.top().pending@,
                self.init@ == s0.init@,
                self.frames@ == popped.frames@,
                same_config(s0, *self),
                self.log().len() == s0.log().len() + (len - i),
                on_target(s0.log().len() as int, pending@),
                undoable(self.log(), self.init@, pending@.take(i as int)),
                replayed(s0.log(), pending@) == replayed(self.log(), pending@.take(i as int)),
                forall|pi: int|
                    0 <= pi < pending@.len() ==> self.reversal_ok((#[trigger] pending@[pi]).op),
                step_extended(step0, *step, s0.next_numbers(len - i)),
                forall|a: Address| #[trigger] self.sdb.account(a) == s0.sdb.account(a),
                forall|a: Address| #[trigger] self.sdb.has_account(a) == s0.sdb.has_account(a),
                forall|a: Address, s: Word|
                    !s0.init@.dom().contains(Key::Storage { address: a, key: s })
                        ==> #[trigger] self.sdb.storage_at(a, s) == s0.sdb.storage_at(a, s),
                forall|a: Address|
                    !s0.init@.dom().contains(
                        Key::TxAccessListAccount { tx_id: s0.tx_id, address: a },
                    ) ==> #[trigger] self.sdb.is_warm(a) == s0.sdb.is_warm(a),
            decreases i,
        {
            let ghost before = *self;
            let ghost prefix = pending@.take(i as int);
            i = i - 1;
            let r = pending[i];
            proof {
                assert(prefix.last() == r);
                assert(prefix.drop_last() =~= pending@.take(i as int));
                assert(before.reversal_ok(r.op));
                match r.op {
                    Op::Storage(o) => {
                        assert(before.storage_mirrored(o.address, o.key));
                    },
                    Op::TxAccessListAccount(o) => {
                        assert(before.warm_mirrored(o.address));
                    },
                    _ => {},
                }
                assert(before.writable(r.op));
            }
            match self.apply_write(r.op, false) {
                // Not reached: the reversal finds the value that its write left.
                Err(e) => {
                    return Err(e);
                },
                Ok(seq) => {
                    step.bus_mapping_instance.push(seq);
                },
            }
            proof {
                assert(before.write_record(r.op, false) == reversal_record(before.log(), r));
                assert(step.bus_mapping_instance@ =~= step0.bus_mapping_instance@
                    + s0.next_numbers(len - i));
            }
        }
        proof {
            assert(pending@.take(0) =~= Seq::<Reversal>::empty());
            lemma_pending_below_same(popped, *self, n - 1);
            assert(self.all_pending() == pending_upto(s0.pendings(), n - 1));
        }
        Ok(())
    }
}

} // verus!
