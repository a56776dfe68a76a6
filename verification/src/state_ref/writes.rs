//! Writes to the database that are undone if their call reverts.

use crate::call::Reversal;
use crate::exec_step::{Error, ExecStep};
use crate::operation::{Key, Op, Operation, RW};
use crate::reversion::lemma_undoable_push;
use crate::state_ref::{
    CircuitInputStateRef, db_written, same_below_top, same_config, same_frame, step_extended,
    touch,
};
use crate::state_ref::steps::{
    lemma_all_pending_ok, lemma_all_pending_split, lemma_frame_kept, lemma_keep_account,
    lemma_keep_cc, lemma_keep_frames, lemma_keep_grounded, lemma_keep_memory, lemma_keep_stack,
    lemma_keep_storage, lemma_keep_warm, lemma_pending_below_same, lemma_persistent_top,
    lemma_reframe, lemma_same_frames, lemma_step, lemma_touch_current, stepped,
};
use crate::trace::{current, lemma_current_same_init};
use crate::word::{Address, Word};
use vstd::prelude::*;

verus! {

impl CircuitInputStateRef {
    /// Whether `op` can be written now: it is a write to storage or to the
    /// access list of the transaction under way, and its previous value is
    /// the one that the database holds.
    pub open spec fn writable(&self, op: Op) -> bool {
        match op {
            Op::Storage(o) => o.value_prev == self.sdb.storage_at(o.address, o.key),
            Op::TxAccessListAccount(o) => self.in_tx && o.tx_id == self.tx_id && o.is_warm_prev
                == self.sdb.is_warm(o.address),
            _ => false,
        }
    }

    /// The write `op`, as the next operation of the log.
    pub open spec fn write_record(&self, op: Op, reversible: bool) -> Operation<Op> {
        Operation { rwc: (self.log().len() + 1) as usize, rw: RW::Write, reversible, op }
    }

    /// Records the write `op` and applies it to the database. Fails, and
    /// changes nothing, where `op` cannot be written. The caller sees to the
    /// reversals that wait.
    pub(super) fn apply_write(&mut self, op: Op, reversible: bool) -> (r: Result<usize, Error>)
        requires
            old(self).coherent(),
        ensures
            final(self).coherent(),
            r is Ok <==> old(self).writable(op),
            r is Err ==> r == Err::<usize, Error>(Error::InvariantViolation) && *final(self)
                == *old(self),
            r is Ok ==> {
                let rec = old(self).write_record(op, reversible);
                &&& r->Ok_0 == rec.rwc
                &&& final(self).log() == old(self).log().push(rec)
                &&& final(self).init@ == touch(old(self).init@, op.key(), op.value_prev()->0)
                &&& same_config(*old(self), *final(self))
                &&& final(self).frames == old(self).frames
                &&& db_written(old(self).sdb, final(self).sdb, op)
            },
    {
        let ghost s0 = *self;
        match op {
            Op::Storage(o) => {
                if !(self.sdb.get_storage(&o.address, &o.key) == o.value_prev) {
                    return Err(Error::InvariantViolation);
                }
                let seq = self.container.append(RW::Write, reversible, op);
                self.sdb.set_storage(&o.address, &o.key, o.value);
                self.init = Ghost(touch(self.init@, op.key(), o.value_prev));
                proof {
                    let e = s0.write_record(op, reversible);
                    let s1 = *self;
                    let v = o.value_prev;
                    assert(s0.storage_mirrored(o.address, o.key));
                    lemma_touch_current(s0, e.op.key(), v);
                    lemma_same_frames(s0, s1);
                    assert(stepped(s0, s1, e, v));
                    lemma_step(s0, s1, e, v);
                    lemma_keep_grounded(s0, s1, e, v);
                    lemma_keep_warm(s0, s1, e, v);
                    lemma_keep_account(s0, s1, e, v);
                    lemma_keep_cc(s0, s1, e, v);
                    lemma_keep_frames(s0, s1, e, v);
                    lemma_keep_stack(s0, s1, e, v);
                    lemma_keep_memory(s0, s1, e, v);
                    assert forall|a: Address, s: Word| #[trigger] s1.storage_mirrored(a, s) by {
                        assert(s0.storage_mirrored(a, s));
                        let k = Key::Storage { address: a, key: s };
                        if s1.init@.dom().contains(k) && k != e.op.key() {
                            assert(s0.init@.dom().contains(k));
                        }
                    }
                }
                Ok(seq)
            },
            Op::TxAccessListAccount(o) => {
                if !self.in_tx || o.tx_id != self.tx_id {
                    return Err(Error::InvariantViolation);
                }
                if self.sdb.check_account_in_access_list(&o.address) != o.is_warm_prev {
                    return Err(Error::InvariantViolation);
                }
                let seq = self.container.append(RW::Write, reversible, op);
                self.sdb.set_account_warm(&o.address, o.is_warm);
                self.init = Ghost(touch(self.init@, op.key(), Word::spec_from_bool(o.is_warm_prev)));
                proof {
                    let e = s0.write_record(op, reversible);
                    let s1 = *self;
                    let v = Word::spec_from_bool(o.is_warm_prev);
                    assert(s0.warm_mirrored(o.address));
                    lemma_touch_current(s0, e.op.key(), v);
                    lemma_same_frames(s0, s1);
                    assert(stepped(s0, s1, e, v));
                    lemma_step(s0, s1, e, v);
                    lemma_keep_grounded(s0, s1, e, v);
                    lemma_keep_storage(s0, s1, e, v);
                    lemma_keep_account(s0, s1, e, v);
                    lemma_keep_cc(s0, s1, e, v);
                    lemma_keep_frames(s0, s1, e, v);
                    lemma_keep_stack(s0, s1, e, v);
                    lemma_keep_memory(s0, s1, e, v);
                    assert forall|a: Address| #[trigger] s1.warm_mirrored(a) by {
                        assert(s0.warm_mirrored(a));
                        let k = Key::TxAccessListAccount { tx_id: s1.tx_id, address: a };
                        if s1.init@.dom().contains(k) && k != e.op.key() {
                            assert(s0.init@.dom().contains(k));
                        }
                    }
                }
                Ok(seq)
            },
            _ => Err(Error::InvariantViolation),
        }
    }

    /// Why `op` cannot be written reversibly now, if it cannot: no call
    /// runs; `op` cannot be written; or the call's count of reversible
    /// writes is at its limit, or, in a call that is not persistent, above
    /// the call's end of reversion.
    pub open spec fn reversible_error(&self, op: Op) -> Option<Error> {
        if self.frames@.len() == 0 {
            Some(Error::MissingContext)
        } else if !self.writable(op) {
            Some(Error::InvariantViolation)
        } else if self.top().reversible_write_counter == usize::MAX {
            Some(Error::InvariantViolation)
        } else if !self.top().call.is_persistent && self.top().call.rw_counter_end_of_reversion
            < self.top().reversible_write_counter {
            Some(Error::InvariantViolation)
        } else {
            None
        }
    }

    /// The reversal that waits for the end of the call that runs now once
    /// `op` is written: the inverse of `op`, to land on the call's end of
    /// reversion less the reversible writes made before.
    pub open spec fn reversal_of(&self, op: Op) -> Reversal {
        Reversal {
            op: op.spec_inverse(),
            target: (self.top().call.rw_counter_end_of_reversion
                - self.top().reversible_write_counter) as usize,
        }
    }

    /// Records `op` as a write that is undone if the call that runs now, or
    /// one of its ancestors, reverts: the write is appended and applied to
    /// the database now, and, unless the call is persistent, its inverse
    /// waits for the end of the call. Fails, and changes nothing, as
    /// [`Self::reversible_error`] says.
    pub fn push_op_reversible(&mut self, step: &mut ExecStep, op: Op) -> (r: Result<(), Error>)
        requires
            old(self).wf(),
        ensures
            final(self).wf(),
            r == match old(self).reversible_error(op) {
                Some(e) => Err::<(), Error>(e),
                None => Ok::<(), Error>(()),
            },
            r is Err ==> *final(self) == *old(self) && *final(step) == *old(step),
            r is Ok ==> {
                let rec = old(self).write_record(op, true);
                &&& final(self).log() == old(self).log().push(rec)
                &&& final(self).init@ == touch(old(self).init@, op.key(), op.value_prev()->0)
                &&& step_extended(*old(step), *final(step), seq![rec.rwc])
                &&& same_config(*old(self), *final(self))
                &&& db_written(old(self).sdb, final(self).sdb, op)
                &&& same_below_top(*old(self), *final(self))
                &&& final(self).top().call == old(self).top().call
                &&& final(self).top().stack@ == old(self).top().stack@
                &&& final(self).top().memory@ == old(self).top().memory@
                &&& final(self).top().reversible_write_counter == old(
                    self,
                ).top().reversible_write_counter + 1
                &&& final(self).top().pending@ == if old(self).top().call.is_persistent {
                    old(self).top().pending@
                } else {
                    old(self).top().pending@.push(old(self).reversal_of(op))
                }
            },
    {
        let n = self.frames.len();
        if n == 0 {
            return Err(Error::MissingContext);
        }
        let counter = self.frames[n - 1].reversible_write_counter;
        let persistent = self.frames[n - 1].call.is_persistent;
        let end = self.frames[n - 1].call.rw_counter_end_of_reversion;
        if counter == usize::MAX || (!persistent && end < counter) {
            return Err(Error::InvariantViolation);
        }
        let ghost s0 = *self;
        let seq = match self.apply_write(op, true) {
            Err(e) => {
                return Err(e);
            },
            Ok(seq) => seq,
        };
        let ghost mid = *self;
        let mut top = self.frames.pop().unwrap();
        top.reversible_write_counter = counter + 1;
        if !persistent {
            top.pending.push(Reversal { op: op.inverse(), target: end - counter });
        }
        self.frames.push(top);
        step.bus_mapping_instance.push(seq);
        proof {
            assert(step.bus_mapping_instance@ =~= old(step).bus_mapping_instance@ + seq![seq]);
            let s1 = *self;
            assert(mid.frames@ == s0.frames@);
            assert forall|fi: int| 0 <= fi < n - 1 implies same_frame(
                #[trigger] s1.frames@[fi],
                s0.frames@[fi],
            ) by {}
            assert forall|fi: int| 0 <= fi < mid.frames@.len() implies (#[trigger] s1.frames@[fi]).call
                == mid.frames@[fi].call && s1.frames@[fi].stack@ == mid.frames@[fi].stack@
                && s1.frames@[fi].memory@ == mid.frames@[fi].memory@ by {}
            crate::operation::lemma_inverse(op);
            assert(mid.frame_ok(n - 1));
            assert forall|fi: int| 0 <= fi < s1.frames@.len() implies #[trigger] s1.frame_ok(
                fi,
            ) by {
                if fi < n - 1 {
                    lemma_frame_kept(mid, s1, fi);
                }
            }
            assert forall|fi: int, pi: int|
                0 <= fi < s1.frames@.len() && 0 <= pi < s1.frames@[fi].pending@.len() implies #[trigger] s1.pending_ok(
                fi,
                pi,
            ) by {
                if fi < n - 1 {
                    lemma_frame_kept(mid, s1, fi);
                } else if pi < mid.frames@[fi].pending@.len() {
                    assert(mid.pending_ok(fi, pi));
                    assert(s1.frames@[fi].pending@[pi] == mid.frames@[fi].pending@[pi]);
                }
            }
            lemma_reframe(mid, s1);
            if persistent {
                lemma_persistent_top(s1);
            } else {
                let w = s0.write_record(op, true);
                let prev = op.value_prev()->0;
                let r = s0.reversal_of(op);
                match op {
                    Op::Storage(o) => {
                        assert(s0.storage_mirrored(o.address, o.key));
                    },
                    Op::TxAccessListAccount(o) => {
                        assert(s0.warm_mirrored(o.address));
                    },
                    _ => {},
                }
                lemma_touch_current(s0, op.key(), prev);
                lemma_all_pending_ok(s0);
                let p = s0.all_pending();
                assert forall|i: int| 0 <= i < p.len() implies current(
                    s0.log(),
                    s0.init@,
                    (#[trigger] p[i]).op.key(),
                ) == current(s0.log(), s1.init@, p[i].op.key()) by {
                    assert(s0.reversal_ok(p[i].op));
                    lemma_current_same_init(s0.log(), s0.init@, s1.init@, p[i].op.key());
                }
                lemma_undoable_push(s0.log(), s0.init@, s1.init@, p, w, r.target);
                lemma_pending_below_same(s0, s1, n - 1);
                lemma_all_pending_split(s0);
                lemma_all_pending_split(s1);
                assert(s1.all_pending() =~= p.push(r));
            }
        }
        Ok(())
    }
}

} // verus!
