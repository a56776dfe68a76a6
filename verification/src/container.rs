//! The append-only container of operations.

use crate::operation::{
    AccountOp, CallContextOp, MemoryOp, Op, Operation, StackOp, StorageOp, Target,
    TxAccessListAccountOp, RW,
};
use vstd::prelude::*;

verus! {

/// Where a recorded operation lives: its kind, and its position in the
/// sub-collection of that kind.
#[derive(Clone, Copy, Debug, PartialEq, Eq, Structural)]
pub struct OperationRef {
    pub target: Target,
    pub index: usize,
}

/// The append-only log of operations: one typed sub-collection per kind, and
/// the order in which the operations were appended. The operation appended
/// n-th has sequence number n, counting from one.
pub struct OperationContainer {
    pub stack: Vec<Operation<StackOp>>,
    pub memory: Vec<Operation<MemoryOp>>,
    pub storage: Vec<Operation<StorageOp>>,
    pub account: Vec<Operation<AccountOp>>,
    pub call_context: Vec<Operation<CallContextOp>>,
    pub tx_access_list_account: Vec<Operation<TxAccessListAccountOp>>,
    pub order: Vec<OperationRef>,
}

/// The operation at place `j` of a sub-collection carries a sequence number in
/// range, and the order sends that number back to place `j`.
pub open spec fn back_ref_at<T>(
    sub: Seq<Operation<T>>,
    target: Target,
    order: Seq<OperationRef>,
    j: int,
) -> bool {
    &&& 1 <= sub[j].rwc <= order.len()
    &&& order[sub[j].rwc - 1] == (OperationRef { target, index: j as usize })
}

/// Every operation of a sub-collection is named by the order, at the place
/// its sequence number gives.
pub open spec fn back_refs_ok<T>(
    sub: Seq<Operation<T>>,
    target: Target,
    order: Seq<OperationRef>,
) -> bool {
    forall|j: int| 0 <= j < sub.len() ==> #[trigger] back_ref_at(sub, target, order, j)
}

proof fn lemma_back_refs_other<T>(
    sub: Seq<Operation<T>>,
    target: Target,
    order: Seq<OperationRef>,
    r: OperationRef,
)
    requires
        back_refs_ok(sub, target, order),
    ensures
        back_refs_ok(sub, target, order.push(r)),
{
    assert forall|j: int| 0 <= j < sub.len() implies #[trigger] back_ref_at(
        sub,
        target,
        order.push(r),
        j,
    ) by {
        assert(back_ref_at(sub, target, order, j));
    }
}

proof fn lemma_back_refs_same<T>(
    sub: Seq<Operation<T>>,
    target: Target,
    order: Seq<OperationRef>,
    o: Operation<T>,
)
    requires
        back_refs_ok(sub, target, order),
        o.rwc == order.len() + 1,
        sub.len() <= usize::MAX,
    ensures
        back_refs_ok(
            sub.push(o),
            target,
            order.push(OperationRef { target, index: sub.len() as usize }),
        ),
{
    let r = OperationRef { target, index: sub.len() as usize };
    let sub2 = sub.push(o);
    let order2 = order.push(r);
    assert forall|j: int| 0 <= j < sub2.len() implies #[trigger] back_ref_at(
        sub2,
        target,
        order2,
        j,
    ) by {
        if j < sub.len() {
            assert(back_ref_at(sub, target, order, j));
        }
    }
}

impl OperationContainer {
    /// Whether `r` names an operation that the container holds.
    pub open spec fn holds(&self, r: OperationRef) -> bool {
        match r.target {
            Target::Stack => r.index < self.stack@.len(),
            Target::Memory => r.index < self.memory@.len(),
            Target::Storage => r.index < self.storage@.len(),
            Target::Account => r.index < self.account@.len(),
            Target::CallContext => r.index < self.call_context@.len(),
            Target::TxAccessListAccount => r.index < self.tx_access_list_account@.len(),
        }
    }

    /// The operation that `r` names, with its access lifted to [`Op`].
    pub open spec fn entry(&self, r: OperationRef) -> Operation<Op> {
        let i = r.index as int;
        match r.target {
            Target::Stack => {
                let o = self.stack@[i];
                Operation { rwc: o.rwc, rw: o.rw, reversible: o.reversible, op: Op::Stack(o.op) }
            },
            Target::Memory => {
                let o = self.memory@[i];
                Operation { rwc: o.rwc, rw: o.rw, reversible: o.reversible, op: Op::Memory(o.op) }
            },
            Target::Storage => {
                let o = self.storage@[i];
                Operation {
                    rwc: o.rwc,
                    rw: o.rw,
                    reversible: o.reversible,
                    op: Op::Storage(o.op),
                }
            },
            Target::Account => {
                let o = self.account@[i];
                Operation {
                    rwc: o.rwc,
                    rw: o.rw,
                    reversible: o.reversible,
                    op: Op::Account(o.op),
                }
            },
            Target::CallContext => {
                let o = self.call_context@[i];
                Operation {
                    rwc: o.rwc,
                    rw: o.rw,
                    reversible: o.reversible,
                    op: Op::CallContext(o.op),
                }
            },
            Target::TxAccessListAccount => {
                let o = self.tx_access_list_account@[i];
                Operation {
                    rwc: o.rwc,
                    rw: o.rw,
                    reversible: o.reversible,
                    op: Op::TxAccessListAccount(o.op),
                }
            },
        }
    }

    /// The order's place `i` names an operation that the container holds, and
    /// that operation carries sequence number `i + 1`.
    pub open spec fn numbered(&self, i: int) -> bool {
        &&& self.holds(self.order@[i])
        &&& self.entry(self.order@[i]).rwc == i + 1
    }

    /// The log: every operation of the container, in the order of appending.
    pub open spec fn view(&self) -> Seq<Operation<Op>> {
        Seq::new(self.order@.len(), |i: int| self.entry(self.order@[i]))
    }

    /// The order names only operations that the container holds, the n-th of
    /// them carries sequence number n, and every held operation is named.
    pub open spec fn wf(&self) -> bool {
        &&& forall|i: int| 0 <= i < self.order@.len() ==> #[trigger] self.numbered(i)
        &&& back_refs_ok(self.stack@, Target::Stack, self.order@)
        &&& back_refs_ok(self.memory@, Target::Memory, self.order@)
        &&& back_refs_ok(self.storage@, Target::Storage, self.order@)
        &&& back_refs_ok(self.account@, Target::Account, self.order@)
        &&& back_refs_ok(self.call_context@, Target::CallContext, self.order@)
        &&& back_refs_ok(
            self.tx_access_list_account@,
            Target::TxAccessListAccount,
            self.order@,
        )
    }

    /// A container that holds nothing: the log is empty, and so is the
    /// sub-collection of every kind.
    pub fn new() -> (c: OperationContainer)
        ensures
            c.wf(),
            c@ == Seq::<Operation<Op>>::empty(),
            c.order@ == Seq::<OperationRef>::empty(),
            c.stack@ == Seq::<Operation<StackOp>>::empty(),
            c.memory@ == Seq::<Operation<MemoryOp>>::empty(),
            c.storage@ == Seq::<Operation<StorageOp>>::empty(),
            c.account@ == Seq::<Operation<AccountOp>>::empty(),
            c.call_context@ == Seq::<Operation<CallContextOp>>::empty(),
            c.tx_access_list_account@ == Seq::<Operation<TxAccessListAccountOp>>::empty(),
    {
        let c = OperationContainer {
            stack: Vec::new(),
            memory: Vec::new(),
            storage: Vec::new(),
            account: Vec::new(),
            call_context: Vec::new(),
            tx_access_list_account: Vec::new(),
            order: Vec::new(),
        };
        assert(c@ =~= Seq::<Operation<Op>>::empty());
        c
    }

    /// The number of operations recorded so far.
    pub fn len(&self) -> (n: usize)
        ensures
            n == self@.len(),
    {
        self.order.len()
    }

    /// Records `op` at the end of the log and returns the sequence number it
    /// was given: one more than the number of operations recorded before.
    pub fn append(&mut self, rw: RW, reversible: bool, op: Op) -> (seq: usize)
        requires
            old(self).wf(),
        ensures
            final(self).wf(),
            seq == old(self)@.len() + 1,
            final(self)@ == old(self)@.push(Operation { rwc: seq, rw, reversible, op }),
    {
        let ghost before = *self;
        let index: usize = match op {
            Op::Stack(_) => self.stack.len(),
            Op::Memory(_) => self.memory.len(),
            Op::Storage(_) => self.storage.len(),
            Op::Account(_) => self.account.len(),
            Op::CallContext(_) => self.call_context.len(),
            Op::TxAccessListAccount(_) => self.tx_access_list_account.len(),
        };
        let r = OperationRef { target: op.target(), index };
        self.order.push(r);
        let seq: usize = self.order.len();
        proof {
            lemma_back_refs_other(before.stack@, Target::Stack, before.order@, r);
            lemma_back_refs_other(before.memory@, Target::Memory, before.order@, r);
            lemma_back_refs_other(before.storage@, Target::Storage, before.order@, r);
            lemma_back_refs_other(before.account@, Target::Account, before.order@, r);
            lemma_back_refs_other(before.call_context@, Target::CallContext, before.order@, r);
            lemma_back_refs_other(
                before.tx_access_list_account@,
                Target::TxAccessListAccount,
                before.order@,
                r,
            );
        }
        match op {
            Op::Stack(o) => {
                let rec = Operation { rwc: seq, rw, reversible, op: o };
                proof {
                    lemma_back_refs_same(before.stack@, Target::Stack, before.order@, rec);
                }
                self.stack.push(rec);
            },
            Op::Memory(o) => {
                let rec = Operation { rwc: seq, rw, reversible, op: o };
                proof {
                    lemma_back_refs_same(before.memory@, Target::Memory, before.order@, rec);
                }
                self.memory.push(rec);
            },
            Op::Storage(o) => {
                let rec = Operation { rwc: seq, rw, reversible, op: o };
                proof {
                    lemma_back_refs_same(before.storage@, Target::Storage, before.order@, rec);
                }
                self.storage.push(rec);
            },
            Op::Account(o) => {
                let rec = Operation { rwc: seq, rw, reversible, op: o };
                proof {
                    lemma_back_refs_same(before.account@, Target::Account, before.order@, rec);
                }
                self.account.push(rec);
            },
            Op::CallContext(o) => {
                let rec = Operation { rwc: seq, rw, reversible, op: o };
                proof {
                    lemma_back_refs_same(
                        before.call_context@,
                        Target::CallContext,
                        before.order@,
                        rec,
                    );
                }
                self.call_context.push(rec);
            },
            Op::TxAccessListAccount(o) => {
                let rec = Operation { rwc: seq, rw, reversible, op: o };
                proof {
                    lemma_back_refs_same(
                        before.tx_access_list_account@,
                        Target::TxAccessListAccount,
                        before.order@,
                        rec,
                    );
                }
                self.tx_access_list_account.push(rec);
            },
        }
        proof {
            let rec = Operation { rwc: seq, rw, reversible, op };
            assert forall|i: int| 0 <= i < self.order@.len() implies #[trigger] self.numbered(
                i,
            ) by {
                if i < before.order@.len() {
                    assert(before.numbered(i));
                    assert(self.order@[i] == before.order@[i]);
                } else {
                    assert(self.order@[i] == r);
                }
            }
            assert forall|i: int| 0 <= i < self@.len() implies self@[i] == before@.push(rec)[i] by {
                if i < before.order@.len() {
                    assert(before.numbered(i));
                    assert(self.order@[i] == before.order@[i]);
                    assert(self.entry(self.order@[i]) == before.entry(before.order@[i]));
                } else {
                    assert(self.order@[i] == r);
                    assert(self.entry(r) == rec);
                }
            }
            assert(self@ =~= before@.push(rec));
        }
        seq
    }

    /// The place of the operation with sequence number `seq`, if there is one.
    pub fn locate(&self, seq: usize) -> (r: Option<OperationRef>)
        requires
            self.wf(),
        ensures
            1 <= seq <= self@.len() ==> r == Some(self.order@[seq - 1]) && self.holds(r->0)
                && self.entry(r->0) == self@[seq - 1],
            !(1 <= seq <= self@.len()) ==> r is None,
    {
        if 1 <= seq && seq <= self.order.len() {
            assert(self.numbered(seq - 1));
            Some(self.order[seq - 1])
        } else {
            None
        }
    }

    /// The operation that `r` names, if the container holds it.
    pub fn at(&self, r: OperationRef) -> (o: Option<Operation<Op>>)
        ensures
            self.holds(r) ==> o == Some(self.entry(r)),
            !self.holds(r) ==> o is None,
    {
        let i = r.index;
        match r.target {
            Target::Stack => {
                if i < self.stack.len() {
                    let o = &self.stack[i];
                    Some(
                        Operation {
                            rwc: o.rwc,
                            rw: o.rw,
                            reversible: o.reversible,
                            op: Op::Stack(o.op),
                        },
                    )
                } else {
                    None
                }
            },
            Target::Memory => {
                if i < self.memory.len() {
                    let o = &self.memory[i];
                    Some(
                        Operation {
                            rwc: o.rwc,
                            rw: o.rw,
                            reversible: o.reversible,
                            op: Op::Memory(o.op),
                        },
                    )
                } else {
                    None
                }
            },
            Target::Storage => {
                if i < self.storage.len() {
                    let o = &self.storage[i];
                    Some(
                        Operation {
                            rwc: o.rwc,
                            rw: o.rw,
                            reversible: o.reversible,
                            op: Op::Storage(o.op),
                        },
                    )
                } else {
                    None
                }
            },
            Target::Account => {
                if i < self.account.len() {
                    let o = &self.account[i];
                    Some(
                        Operation {
                            rwc: o.rwc,
                            rw: o.rw,
                            reversible: o.reversible,
                            op: Op::Account(o.op),
                        },
                    )
                } else {
                    None
                }
            },
            Target::CallContext => {
                if i < self.call_context.len() {
                    let o = &self.call_context[i];
                    Some(
                        Operation {
                            rwc: o.rwc,
                            rw: o.rw,
                            reversible: o.reversible,
                            op: Op::CallContext(o.op),
                        },
                    )
                } else {
                    None
                }
            },
            Target::TxAccessListAccount => {
                if i < self.tx_access_list_account.len() {
                    let o = &self.tx_access_list_account[i];
                    Some(
                        Operation {
                            rwc: o.rwc,
                            rw: o.rw,
                            reversible: o.reversible,
                            op: Op::TxAccessListAccount(o.op),
                        },
                    )
                } else {
                    None
                }
            },
        }
    }

    /// The operation with sequence number `seq`, if there is one.
    pub fn get(&self, seq: usize) -> (o: Option<Operation<Op>>)
        requires
            self.wf(),
        ensures
            1 <= seq <= self@.len() ==> o == Some(self@[seq - 1]),
            !(1 <= seq <= self@.len()) ==> o is None,
    {
        match self.locate(seq) {
            Some(r) => self.at(r),
            None => None,
        }
    }
}

/// Sequence numbers count the log from one: the operation at position `i`
/// has number `i + 1`.
pub proof fn lemma_sequence_numbers(c: OperationContainer, i: int)
    requires
        c.wf(),
        0 <= i < c@.len(),
    ensures
        c@[i].rwc == i + 1,
{
    assert(c.numbered(i));
}

/// Sequence numbers strictly increase along the log, so none is used twice.
pub proof fn lemma_sequence_strictly_increasing(c: OperationContainer, i: int, j: int)
    requires
        c.wf(),
        0 <= i < j < c@.len(),
    ensures
        c@[i].rwc < c@[j].rwc,
{
    lemma_sequence_numbers(c, i);
    lemma_sequence_numbers(c, j);
}

/// Appending changes no operation recorded before, and gives the new one a
/// sequence number above all of theirs.
pub proof fn lemma_append_only(
    before: OperationContainer,
    after: OperationContainer,
    rec: Operation<Op>,
    i: int,
)
    requires
        before.wf(),
        after.wf(),
        after@ == before@.push(rec),
        0 <= i < before@.len(),
    ensures
        after@[i] == before@[i],
        before@[i].rwc < rec.rwc,
{
    lemma_sequence_numbers(before, i);
    lemma_sequence_numbers(after, before@.len() as int);
}

/// A stack operation of the container stands in the log at the place its
/// sequence number gives, and so do the operations of the other kinds.
pub proof fn lemma_sub_collection_in_log(c: OperationContainer, r: OperationRef)
    requires
        c.wf(),
        c.holds(r),
    ensures
        1 <= c.entry(r).rwc <= c@.len(),
        c@[c.entry(r).rwc - 1] == c.entry(r),
        c.order@[c.entry(r).rwc - 1] == r,
{
    let j = r.index as int;
    match r.target {
        Target::Stack => {
            assert(back_ref_at(c.stack@, Target::Stack, c.order@, j));
        },
        Target::Memory => {
            assert(back_ref_at(c.memory@, Target::Memory, c.order@, j));
        },
        Target::Storage => {
            assert(back_ref_at(c.storage@, Target::Storage, c.order@, j));
        },
        Target::Account => {
            assert(back_ref_at(c.account@, Target::Account, c.order@, j));
        },
        Target::CallContext => {
            assert(back_ref_at(c.call_context@, Target::CallContext, c.order@, j));
        },
        Target::TxAccessListAccount => {
            assert(back_ref_at(c.tx_access_list_account@, Target::TxAccessListAccount, c.order@, j));
        },
    }
}

} // verus!
