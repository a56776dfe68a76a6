//! Stack, memory, call context, account and storage: the accesses that are
//! recorded as they are made.

use crate::call::{memory_at, memory_written, Call, STACK_LIMIT};
use crate::exec_step::{Error, ExecStep};
use crate::operation::{
    AccountField, AccountOp, CallContextField, CallContextOp, MemoryOp, Op, Operation, StackOp,
    StorageOp, RW,
};
use crate::state_ref::{
    CircuitInputStateRef, same_below_top, same_config, same_frame, step_extended, top_with_stack,
    touch,
};
use crate::state_ref::steps::{
    lemma_keep_account, lemma_keep_cc, lemma_keep_frames, lemma_keep_grounded, lemma_keep_memory,
    lemma_keep_stack, lemma_keep_storage, lemma_keep_undoable, lemma_keep_warm, lemma_same_calls,
    lemma_same_frames, lemma_step, lemma_touch_current, stepped,
};
use crate::word::{Address, Word};
use vstd::prelude::*;

verus! {

impl CircuitInputStateRef {
    /// The write of `value` to the slot above the top of the stack of the
    /// call that runs now, as the next operation of the log.
    pub open spec fn push_record(&self, value: Word) -> Operation<Op> {
        Operation {
            rwc: (self.log().len() + 1) as usize,
            rw: RW::Write,
            reversible: false,
            op: Op::Stack(
                StackOp {
                    call_id: self.top().call.call_id,
                    address: (STACK_LIMIT - 1 - self.top().stack@.len()) as usize,
                    value,
                },
            ),
        }
    }

    /// The read of the top of the stack of the call that runs now, as the
    /// next operation of the log.
    pub open spec fn pop_record(&self) -> Operation<Op> {
        Operation {
            rwc: (self.log().len() + 1) as usize,
            rw: RW::Read,
            reversible: false,
            op: Op::Stack(
                StackOp {
                    call_id: self.top().call.call_id,
                    address: (STACK_LIMIT - self.top().stack@.len()) as usize,
                    value: self.top().stack@.last(),
                },
            ),
        }
    }

    /// Pushes `value` on the stack of the call that runs now and records the
    /// write. Fails, and changes nothing, where no call runs or the stack is
    /// full.
    pub fn stack_push(&mut self, step: &mut ExecStep, value: Word) -> (r: Result<(), Error>)
        requires
            old(self).wf(),
        ensures
            final(self).wf(),
            old(self).frames@.len() == 0 ==> r == Err::<(), Error>(Error::MissingContext),
            old(self).frames@.len() > 0 && old(self).top().stack@.len() >= STACK_LIMIT ==> r
                == Err::<(), Error>(Error::InvariantViolation),
            old(self).frames@.len() > 0 && old(self).top().stack@.len() < STACK_LIMIT ==> r is Ok,
            r is Err ==> *final(self) == *old(self) && *final(step) == *old(step),
            r is Ok ==> {
                let rec = old(self).push_record(value);
                &&& final(self).log() == old(self).log().push(rec)
                &&& final(self).init@ == touch(old(self).init@, rec.op.key(), value)
                &&& step_extended(*old(step), *final(step), seq![rec.rwc])
                &&& same_config(*old(self), *final(self))
                &&& final(self).sdb == old(self).sdb
                &&& top_with_stack(*old(self), *final(self), old(self).top().stack@.push(value))
            },
    {
        let n = self.frames.len();
        if n == 0 {
            return Err(Error::MissingContext);
        }
        if self.frames[n - 1].stack.len() >= STACK_LIMIT {
            return Err(Error::InvariantViolation);
        }
        let ghost s0 = *self;
        let mut top = self.frames.pop().unwrap();
        let address = STACK_LIMIT - 1 - top.stack.len();
        let op = Op::Stack(StackOp { call_id: top.call.call_id, address, value });
        let seq = self.container.append(RW::Write, false, op);
        top.stack.push(value);
        self.frames.push(top);
        self.init = Ghost(touch(self.init@, op.key(), value));
        step.bus_mapping_instance.push(seq);
        proof {
            assert(step.bus_mapping_instance@ =~= old(step).bus_mapping_instance@ + seq![seq]);
            let e = s0.push_record(value);
            let s1 = *self;
            assert(s0.frame_ok(n - 1));
            assert forall|fi: int| 0 <= fi < n - 1 implies same_frame(
                #[trigger] s1.frames@[fi],
                s0.frames@[fi],
            ) by {}
            lemma_same_calls(s0, s1);
            assert(stepped(s0, s1, e, value));
            lemma_step(s0, s1, e, value);
            lemma_keep_grounded(s0, s1, e, value);
            lemma_keep_storage(s0, s1, e, value);
            lemma_keep_warm(s0, s1, e, value);
            lemma_keep_account(s0, s1, e, value);
            lemma_keep_cc(s0, s1, e, value);
            lemma_keep_frames(s0, s1, e, value);
            lemma_keep_undoable(s0, s1, e, value);
            lemma_keep_memory(s0, s1, e, value);
            let len = s0.frames@[n - 1].stack@.len() as int;
            assert forall|fi: int, si: int|
                0 <= fi < s1.frames@.len() && 0 <= si < s1.frames@[fi].stack@.len() implies #[trigger] s1.stack_mirrored(
                fi,
                si,
            ) by {
                if fi == n - 1 && si == len {
                    assert(s1.stack_key(fi, si) == e.op.key());
                } else {
                    assert(s0.stack_mirrored(fi, si));
                    assert(s0.frame_ok(fi));
                    assert(s1.stack_key(fi, si) == s0.stack_key(fi, si));
                    if fi != n - 1 {
                        assert(s0.id_at(fi) < s0.id_at(n - 1));
                    }
                    assert(s0.stack_key(fi, si) != e.op.key());
                }
            }
        }
        Ok(())
    }

    /// Pops the top of the stack of the call that runs now and records the
    /// read. Fails, and changes nothing, where no call runs or the stack is
    /// empty.
    pub fn stack_pop(&mut self, step: &mut ExecStep) -> (r: Result<Word, Error>)
        requires
            old(self).wf(),
        ensures
            final(self).wf(),
            old(self).frames@.len() == 0 ==> r == Err::<Word, Error>(Error::MissingContext),
            old(self).frames@.len() > 0 && old(self).top().stack@.len() == 0 ==> r
                == Err::<Word, Error>(Error::InvariantViolation),
            old(self).frames@.len() > 0 && old(self).top().stack@.len() > 0 ==> r
                == Ok::<Word, Error>(old(self).top().stack@.last()),
            r is Err ==> *final(self) == *old(self) && *final(step) == *old(step),
            r is Ok ==> {
                let rec = old(self).pop_record();
                &&& final(self).log() == old(self).log().push(rec)
                &&& final(self).init@ == old(self).init@
                &&& step_extended(*old(step), *final(step), seq![rec.rwc])
                &&& same_config(*old(self), *final(self))
                &&& final(self).sdb == old(self).sdb
                &&& top_with_stack(*old(self), *final(self), old(self).top().stack@.drop_last())
            },
    {
        let n = self.frames.len();
        if n == 0 {
            return Err(Error::MissingContext);
        }
        if self.frames[n - 1].stack.len() == 0 {
            return Err(Error::InvariantViolation);
        }
        let ghost s0 = *self;
        proof {
            assert(s0.frame_ok(n - 1));
            assert(s0.stack_mirrored(n - 1, s0.frames@[n - 1].stack@.len() - 1));
        }
        let mut top = self.frames.pop().unwrap();
        let address = STACK_LIMIT - top.stack.len();
        let value = top.stack.pop().unwrap();
        let op = Op::Stack(StackOp { call_id: top.call.call_id, address, value });
        let seq = self.container.append(RW::Read, false, op);
        self.frames.push(top);
        step.bus_mapping_instance.push(seq);
        proof {
            assert(step.bus_mapping_instance@ =~= old(step).bus_mapping_instance@ + seq![seq]);
            let e = s0.pop_record();
            let s1 = *self;
            let len = s0.frames@[n - 1].stack@.len() as int;
            assert(e.op.key() == s0.stack_key(n - 1, len - 1));
            assert(s1.init@ == touch(s0.init@, e.op.key(), value));
            assert forall|fi: int| 0 <= fi < n - 1 implies same_frame(
                #[trigger] s1.frames@[fi],
                s0.frames@[fi],
            ) by {}
            lemma_same_calls(s0, s1);
            assert(stepped(s0, s1, e, value));
            lemma_step(s0, s1, e, value);
            lemma_keep_grounded(s0, s1, e, value);
            lemma_keep_storage(s0, s1, e, value);
            lemma_keep_warm(s0, s1, e, value);
            lemma_keep_account(s0, s1, e, value);
            lemma_keep_cc(s0, s1, e, value);
            lemma_keep_frames(s0, s1, e, value);
            lemma_keep_undoable(s0, s1, e, value);
            lemma_keep_memory(s0, s1, e, value);
            assert forall|fi: int, si: int|
                0 <= fi < s1.frames@.len() && 0 <= si < s1.frames@[fi].stack@.len() implies #[trigger] s1.stack_mirrored(
                fi,
                si,
            ) by {
                assert(s0.stack_mirrored(fi, si));
                assert(s1.stack_key(fi, si) == s0.stack_key(fi, si));
            }
        }
        Ok(value)
    }

    /// The access to the byte at `address` of the memory of the call that
    /// runs now, as the next operation of the log.
    pub open spec fn memory_record(&self, rw: RW, address: usize, value: u8) -> Operation<Op> {
        Operation {
            rwc: (self.log().len() + 1) as usize,
            rw,
            reversible: false,
            op: Op::Memory(MemoryOp { call_id: self.top().call.call_id, address, value }),
        }
    }

    /// Writes `value` at `address` of the memory of the call that runs now,
    /// which grows by zeros as far as needed, and records the write. Fails,
    /// and changes nothing, where no call runs or `address` is the last one
    /// there is, which no memory reaches.
    pub fn memory_write(&mut self, step: &mut ExecStep, address: usize, value: u8) -> (r: Result<
        (),
        Error,
    >)
        requires
            old(self).wf(),
        ensures
            final(self).wf(),
            old(self).frames@.len() == 0 ==> r == Err::<(), Error>(Error::MissingContext),
            old(self).frames@.len() > 0 && address == usize::MAX ==> r == Err::<(), Error>(
                Error::InvariantViolation,
            ),
            old(self).frames@.len() > 0 && address < usize::MAX ==> r is Ok,
            r is Err ==> *final(self) == *old(self) && *final(step) == *old(step),
            r is Ok ==> {
                let rec = old(self).memory_record(RW::Write, address, value);
                &&& final(self).log() == old(self).log().push(rec)
                &&& final(self).init@ == touch(
                    old(self).init@,
                    rec.op.key(),
                    Word { hi: 0, lo: memory_at(old(self).top().memory@, address) as u128 },
                )
                &&& step_extended(*old(step), *final(step), seq![rec.rwc])
                &&& same_config(*old(self), *final(self))
                &&& final(self).sdb == old(self).sdb
                &&& same_below_top(*old(self), *final(self))
                &&& final(self).top().call == old(self).top().call
                &&& final(self).top().stack@ == old(self).top().stack@
                &&& final(self).top().memory@ == memory_written(
                    old(self).top().memory@,
                    address,
                    value,
                )
                &&& final(self).top().reversible_write_counter == old(
                    self,
                ).top().reversible_write_counter
                &&& final(self).top().pending@ == old(self).top().pending@
            },
    {
        let n = self.frames.len();
        if n == 0 {
            return Err(Error::MissingContext);
        }
        if address == usize::MAX {
            return Err(Error::InvariantViolation);
        }
        let ghost s0 = *self;
        let ghost before = s0.top().memory@;
        let mut top = self.frames.pop().unwrap();
        if top.memory.len() <= address {
            proof {
                assert(top.memory@ =~= before + Seq::new(0nat, |i: int| 0u8));
            }
            while top.memory.len() <= address
                invariant
                    before.len() <= top.memory@.len() <= address + 1,
                    before.len() <= address < usize::MAX,
                    top.memory@ == before + Seq::new(
                        (top.memory@.len() - before.len()) as nat,
                        |i: int| 0u8,
                    ),
                    top.call == s0.top().call,
                    top.stack@ == s0.top().stack@,
                    top.reversible_write_counter == s0.top().reversible_write_counter,
                    top.pending@ == s0.top().pending@,
                decreases address + 1 - top.memory@.len(),
            {
                top.memory.push(0);
                proof {
                    assert(top.memory@ =~= before + Seq::new(
                        (top.memory@.len() - before.len()) as nat,
                        |i: int| 0u8,
                    ));
                }
            }
        }
        top.memory.set(address, value);
        let op = Op::Memory(MemoryOp { call_id: top.call.call_id, address, value });
        let seq = self.container.append(RW::Write, false, op);
        self.frames.push(top);
        let ghost v = Word { hi: 0, lo: memory_at(before, address) as u128 };
        self.init = Ghost(touch(self.init@, op.key(), v));
        step.bus_mapping_instance.push(seq);
        proof {
            assert(step.bus_mapping_instance@ =~= old(step).bus_mapping_instance@ + seq![seq]);
            let e = s0.memory_record(RW::Write, address, value);
            let s1 = *self;
            assert(s1.top().memory@ =~= memory_written(before, address, value));
            assert(s0.frame_ok(n - 1));
            assert forall|fi: int| 0 <= fi < n - 1 implies same_frame(
                #[trigger] s1.frames@[fi],
                s0.frames@[fi],
            ) by {}
            lemma_same_calls(s0, s1);
            assert(stepped(s0, s1, e, v));
            lemma_step(s0, s1, e, v);
            lemma_keep_grounded(s0, s1, e, v);
            lemma_keep_storage(s0, s1, e, v);
            lemma_keep_warm(s0, s1, e, v);
            lemma_keep_account(s0, s1, e, v);
            lemma_keep_cc(s0, s1, e, v);
            lemma_keep_frames(s0, s1, e, v);
            lemma_keep_undoable(s0, s1, e, v);
            assert forall|fi: int| 0 <= fi < s0.frames@.len() implies (#[trigger] s1.frames@[fi]).stack@
                == s0.frames@[fi].stack@ by {
                if fi < n - 1 {
                    assert(same_frame(s1.frames@[fi], s0.frames@[fi]));
                }
            }
            lemma_keep_stack(s0, s1, e, v);
            assert forall|fi: int, a: usize| 0 <= fi < s1.frames@.len() implies #[trigger] s1.memory_mirrored(
                fi,
                a,
            ) by {
                if fi == n - 1 && a == address {
                    assert(s1.memory_key(fi, a) == e.op.key());
                } else {
                    assert(s0.memory_mirrored(fi, a));
                    if fi != n - 1 {
                        assert(same_frame(s1.frames@[fi], s0.frames@[fi]));
                        assert(s0.id_at(fi) < s0.id_at(n - 1));
                    }
                    assert(s1.memory_key(fi, a) == s0.memory_key(fi, a));
                    assert(s0.memory_key(fi, a) != e.op.key());
                    assert(memory_at(s1.frames@[fi].memory@, a) == memory_at(
                        s0.frames@[fi].memory@,
                        a,
                    ));
                }
            }
        }
        Ok(())
    }

    /// Records a read of the byte at `address` of the memory of the call that
    /// runs now. Fails, and changes nothing, where no call runs or `value`
    /// is not the byte that the memory holds there, which is zero beyond its
    /// end.
    pub fn memory_read(&mut self, step: &mut ExecStep, address: usize, value: u8) -> (r: Result<
        (),
        Error,
    >)
        requires
            old(self).wf(),
        ensures
            final(self).wf(),
            old(self).frames@.len() == 0 ==> r == Err::<(), Error>(Error::MissingContext),
            old(self).frames@.len() > 0 ==> r == if memory_at(old(self).top().memory@, address)
                == value {
                Ok::<(), Error>(())
            } else {
                Err::<(), Error>(Error::InvariantViolation)
            },
            r is Err ==> *final(self) == *old(self) && *final(step) == *old(step),
            r is Ok ==> {
                let rec = old(self).memory_record(RW::Read, address, value);
                &&& final(self).log() == old(self).log().push(rec)
                &&& final(self).init@ == touch(
                    old(self).init@,
                    rec.op.key(),
                    Word { hi: 0, lo: value as u128 },
                )
                &&& step_extended(*old(step), *final(step), seq![rec.rwc])
                &&& same_config(*old(self), *final(self))
                &&& final(self).sdb == old(self).sdb
                &&& final(self).frames == old(self).frames
            },
    {
        let n = self.frames.len();
        if n == 0 {
            return Err(Error::MissingContext);
        }
        let memory = &self.frames[n - 1].memory;
        let held: u8 = if address < memory.len() {
            memory[address]
        } else {
            0
        };
        if held != value {
            return Err(Error::InvariantViolation);
        }
        let ghost s0 = *self;
        let op = Op::Memory(
            MemoryOp { call_id: self.frames[n - 1].call.call_id, address, value },
        );
        let seq = self.container.append(RW::Read, false, op);
        let ghost v = Word { hi: 0, lo: value as u128 };
        self.init = Ghost(touch(self.init@, op.key(), v));
        step.bus_mapping_instance.push(seq);
        proof {
            assert(step.bus_mapping_instance@ =~= old(step).bus_mapping_instance@ + seq![seq]);
            let e = s0.memory_record(RW::Read, address, value);
            let s1 = *self;
            assert(s0.frame_ok(n - 1));
            assert(s0.memory_mirrored(n - 1, address));
            assert(e.op.key() == s0.memory_key(n - 1, address));
            lemma_touch_current(s0, e.op.key(), v);
            lemma_same_frames(s0, s1);
            assert(stepped(s0, s1, e, v));
            lemma_step(s0, s1, e, v);
            lemma_keep_grounded(s0, s1, e, v);
            lemma_keep_storage(s0, s1, e, v);
            lemma_keep_warm(s0, s1, e, v);
            lemma_keep_account(s0, s1, e, v);
            lemma_keep_cc(s0, s1, e, v);
            lemma_keep_frames(s0, s1, e, v);
            lemma_keep_undoable(s0, s1, e, v);
            lemma_keep_stack(s0, s1, e, v);
            assert forall|fi: int, a: usize| 0 <= fi < s1.frames@.len() implies #[trigger] s1.memory_mirrored(
                fi,
                a,
            ) by {
                assert(s0.memory_mirrored(fi, a));
                assert(s1.memory_key(fi, a) == s0.memory_key(fi, a));
                if s1.memory_key(fi, a) == e.op.key() {
                    if fi < n - 1 {
                        assert(s0.id_at(fi) < s0.id_at(n - 1));
                    }
                } else if s1.init@.dom().contains(s1.memory_key(fi, a)) {
                    assert(s0.init@.dom().contains(s0.memory_key(fi, a)));
                }
            }
        }
        Ok(())
    }

    /// The call of the live frame with id `call_id`, if there is one.
    pub open spec fn live_call(&self, call_id: usize) -> Option<Call> {
        if exists|fi: int| 0 <= fi < self.frames@.len() && #[trigger] self.id_at(fi) == call_id {
            Some(
                self.frames@[choose|fi: int|
                    0 <= fi < self.frames@.len() && #[trigger] self.id_at(fi) == call_id].call,
            )
        } else {
            None
        }
    }

    /// The call that runs now is the live call with its id.
    pub proof fn lemma_live_call_top(&self)
        requires
            self.wf(),
            self.frames@.len() > 0,
        ensures
            self.live_call(self.top().call.call_id) == Some(self.top().call),
    {
        let n = self.frames@.len() as int;
        let id = self.top().call.call_id;
        assert(self.id_at(n - 1) == id);
        let j = choose|fi: int| 0 <= fi < self.frames@.len() && #[trigger] self.id_at(fi) == id;
        if j < n - 1 {
            assert(self.id_at(j) < self.id_at(n - 1));
        }
    }

    fn find_frame(&self, call_id: usize) -> (r: Option<usize>)
        requires
            self.coherent(),
        ensures
            r is Some ==> r->0 < self.frames@.len() && self.live_call(call_id) == Some(
                self.frames@[r->0 as int].call,
            ) && self.id_at(r->0 as int) == call_id,
            r is None ==> self.live_call(call_id) is None,
    {
        let mut i: usize = self.frames.len();
        while i > 0
            invariant
                self.coherent(),
                i <= self.frames@.len(),
                forall|fi: int| i <= fi < self.frames@.len() ==> #[trigger] self.id_at(fi) != call_id,
            decreases i,
        {
            i = i - 1;
            if self.frames[i].call.call_id == call_id {
                proof {
                    assert(self.id_at(i as int) == call_id);
                    let j = choose|fi: int|
                        0 <= fi < self.frames@.len() && #[trigger] self.id_at(fi) == call_id;
                    if j < i {
                        assert(self.id_at(j) < self.id_at(i as int));
                    }
                }
                return Some(i);
            }
        }
        None
    }

    /// The read of a field of a call's context, as the next operation of the
    /// log.
    pub open spec fn cc_record(
        &self,
        call_id: usize,
        field: CallContextField,
        value: Word,
    ) -> Operation<Op> {
        Operation {
            rwc: (self.log().len() + 1) as usize,
            rw: RW::Read,
            reversible: false,
            op: Op::CallContext(CallContextOp { call_id, field, value }),
        }
    }

    /// Records a read of `field` of the context of the live call `call_id`.
    /// Fails, and changes nothing, where no live call has that id, or where
    /// `value` is not the value that the call gives the field.
    pub fn call_context_read(
        &mut self,
        step: &mut ExecStep,
        call_id: usize,
        field: CallContextField,
        value: Word,
    ) -> (r: Result<(), Error>)
        requires
            old(self).wf(),
        ensures
            final(self).wf(),
            r == match old(self).live_call(call_id) {
                None => Err::<(), Error>(Error::MissingContext),
                Some(call) => if call.spec_field_value(field, old(self).tx_id) == value {
                    Ok::<(), Error>(())
                } else {
                    Err::<(), Error>(Error::InvariantViolation)
                },
            },
            r is Err ==> *final(self) == *old(self) && *final(step) == *old(step),
            r is Ok ==> {
                let rec = old(self).cc_record(call_id, field, value);
                &&& final(self).log() == old(self).log().push(rec)
                &&& final(self).init@ == touch(old(self).init@, rec.op.key(), value)
                &&& step_extended(*old(step), *final(step), seq![rec.rwc])
                &&& same_config(*old(self), *final(self))
                &&& final(self).sdb == old(self).sdb
                &&& final(self).frames == old(self).frames
            },
    {
        let fi = match self.find_frame(call_id) {
            None => {
                return Err(Error::MissingContext);
            },
            Some(fi) => fi,
        };
        if !(self.frames[fi].call.field_value(field, self.tx_id) == value) {
            return Err(Error::InvariantViolation);
        }
        let ghost s0 = *self;
        let op = Op::CallContext(CallContextOp { call_id, field, value });
        let seq = self.container.append(RW::Read, false, op);
        self.init = Ghost(touch(self.init@, op.key(), value));
        step.bus_mapping_instance.push(seq);
        proof {
            assert(step.bus_mapping_instance@ =~= old(step).bus_mapping_instance@ + seq![seq]);
            let e = s0.cc_record(call_id, field, value);
            let s1 = *self;
            assert(s0.frame_ok(fi as int));
            assert(s0.cc_mirrored(fi as int, field));
            assert(e.op.key() == s0.cc_key(fi as int, field));
            lemma_touch_current(s0, e.op.key(), value);
            lemma_same_frames(s0, s1);
            assert(stepped(s0, s1, e, value));
            assert forall|fj: int|
                0 <= fj < s0.frames@.len() && #[trigger] s0.id_at(fj) == call_id implies value
                == s0.frames@[fj].call.spec_field_value(field, s0.tx_id) by {
                if fj < fi {
                    assert(s0.id_at(fj) < s0.id_at(fi as int));
                }
                if fi < fj {
                    assert(s0.id_at(fi as int) < s0.id_at(fj));
                }
            }
            lemma_step(s0, s1, e, value);
            lemma_keep_grounded(s0, s1, e, value);
            lemma_keep_storage(s0, s1, e, value);
            lemma_keep_warm(s0, s1, e, value);
            lemma_keep_account(s0, s1, e, value);
            lemma_keep_cc(s0, s1, e, value);
            lemma_keep_frames(s0, s1, e, value);
            lemma_keep_undoable(s0, s1, e, value);
            lemma_keep_stack(s0, s1, e, value);
            lemma_keep_memory(s0, s1, e, value);
        }
        Ok(())
    }

    /// The read of a field of an account, as the next operation of the log.
    pub open spec fn account_record(
        &self,
        address: Address,
        field: AccountField,
        value: Word,
    ) -> Operation<Op> {
        Operation {
            rwc: (self.log().len() + 1) as usize,
            rw: RW::Read,
            reversible: false,
            op: Op::Account(AccountOp { address, field, value, value_prev: value }),
        }
    }

    /// Records a read of `field` of the account at `address`. Fails, and
    /// changes nothing, where `value` is not what a read of the database
    /// observes: the stored nonce or balance, the stored code hash of an
    /// account that exists, zero for the code hash of one that does not.
    pub fn account_read(
        &mut self,
        step: &mut ExecStep,
        address: Address,
        field: AccountField,
        value: Word,
    ) -> (r: Result<(), Error>)
        requires
            old(self).wf(),
        ensures
            final(self).wf(),
            r == if old(self).sdb.account(address).spec_field_value(field) == value {
                Ok::<(), Error>(())
            } else {
                Err::<(), Error>(Error::InvariantViolation)
            },
            r is Err ==> *final(self) == *old(self) && *final(step) == *old(step),
            r is Ok ==> {
                let rec = old(self).account_record(address, field, value);
                &&& final(self).log() == old(self).log().push(rec)
                &&& final(self).init@ == touch(old(self).init@, rec.op.key(), value)
                &&& step_extended(*old(step), *final(step), seq![rec.rwc])
                &&& same_config(*old(self), *final(self))
                &&& final(self).sdb == old(self).sdb
                &&& final(self).frames == old(self).frames
            },
    {
        let account = self.sdb.get_account(&address).1;
        if !(account.field_value(field) == value) {
            return Err(Error::InvariantViolation);
        }
        let ghost s0 = *self;
        let op = Op::Account(AccountOp { address, field, value, value_prev: value });
        let seq = self.container.append(RW::Read, false, op);
        self.init = Ghost(touch(self.init@, op.key(), value));
        step.bus_mapping_instance.push(seq);
        proof {
            assert(step.bus_mapping_instance@ =~= old(step).bus_mapping_instance@ + seq![seq]);
            let e = s0.account_record(address, field, value);
            let s1 = *self;
            assert(s0.account_mirrored(address, field));
            lemma_touch_current(s0, e.op.key(), value);
            lemma_same_frames(s0, s1);
            assert(stepped(s0, s1, e, value));
            lemma_step(s0, s1, e, value);
            lemma_keep_grounded(s0, s1, e, value);
            lemma_keep_storage(s0, s1, e, value);
            lemma_keep_warm(s0, s1, e, value);
            lemma_keep_account(s0, s1, e, value);
            lemma_keep_cc(s0, s1, e, value);
            lemma_keep_frames(s0, s1, e, value);
            lemma_keep_undoable(s0, s1, e, value);
            lemma_keep_stack(s0, s1, e, value);
            lemma_keep_memory(s0, s1, e, value);
        }
        Ok(())
    }

    /// The read of a storage slot, as the next operation of the log.
    pub open spec fn storage_record(&self, address: Address, key: Word, value: Word) -> Operation<
        Op,
    > {
        Operation {
            rwc: (self.log().len() + 1) as usize,
            rw: RW::Read,
            reversible: false,
            op: Op::Storage(
                StorageOp { address, key, value, value_prev: value, tx_id: self.tx_id },
            ),
        }
    }

    /// Records a read of the storage slot `key` of the account at `address`.
    /// Fails, and changes nothing, where `value` is not what the database
    /// holds there.
    pub fn storage_read(
        &mut self,
        step: &mut ExecStep,
        address: Address,
        key: Word,
        value: Word,
    ) -> (r: Result<(), Error>)
        requires
            old(self).wf(),
        ensures
            final(self).wf(),
            r == if old(self).sdb.storage_at(address, key) == value {
                Ok::<(), Error>(())
            } else {
                Err::<(), Error>(Error::InvariantViolation)
            },
            r is Err ==> *final(self) == *old(self) && *final(step) == *old(step),
            r is Ok ==> {
                let rec = old(self).storage_record(address, key, value);
                &&& final(self).log() == old(self).log().push(rec)
                &&& final(self).init@ == touch(old(self).init@, rec.op.key(), value)
                &&& step_extended(*old(step), *final(step), seq![rec.rwc])
                &&& same_config(*old(self), *final(self))
                &&& final(self).sdb == old(self).sdb
                &&& final(self).frames == old(self).frames
            },
    {
        if !(self.sdb.get_storage(&address, &key) == value) {
            return Err(Error::InvariantViolation);
        }
        let ghost s0 = *self;
        let op = Op::Storage(
            StorageOp { address, key, value, value_prev: value, tx_id: self.tx_id },
        );
        let seq = self.container.append(RW::Read, false, op);
        self.init = Ghost(touch(self.init@, op.key(), value));
        step.bus_mapping_instance.push(seq);
        proof {
            assert(step.bus_mapping_instance@ =~= old(step).bus_mapping_instance@ + seq![seq]);
            let e = s0.storage_record(address, key, value);
            let s1 = *self;
            assert(s0.storage_mirrored(address, key));
            lemma_touch_current(s0, e.op.key(), value);
            lemma_same_frames(s0, s1);
            assert(stepped(s0, s1, e, value));
            lemma_step(s0, s1, e, value);
            lemma_keep_grounded(s0, s1, e, value);
            lemma_keep_storage(s0, s1, e, value);
            lemma_keep_warm(s0, s1, e, value);
            lemma_keep_account(s0, s1, e, value);
            lemma_keep_cc(s0, s1, e, value);
            lemma_keep_frames(s0, s1, e, value);
            lemma_keep_undoable(s0, s1, e, value);
            lemma_keep_stack(s0, s1, e, value);
            lemma_keep_memory(s0, s1, e, value);
        }
        Ok(())
    }

    /// Whether the address is warm in the transaction under way.
    pub fn check_account_in_access_list(&self, address: &Address) -> (b: bool)
        ensures
            b == self.sdb.is_warm(*address),
    {
        self.sdb.check_account_in_access_list(address)
    }
}

} // verus!
