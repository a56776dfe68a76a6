//! `BALANCE`.

use crate::call::STACK_LIMIT;
use crate::evm::opcodes::Opcode;
use crate::exec_step::{Error, ExecStep, GethExecStep};
use crate::operation::{
    AccountField, AccountOp, CallContextField, CallContextOp, Op, Operation, StackOp,
    TxAccessListAccountOp, RW,
};
use crate::state_db::Account;
use crate::state_ref::{db_written, same_below_top, same_config, CircuitInputStateRef};
use crate::word::{Address, Word};
use vstd::prelude::*;

verus! {

/// The handler of `BALANCE`: the balance of the account whose address is on
/// top of the stack replaces that address.
#[derive(Debug, Copy, Clone)]
pub struct Balance;

/// The word on top of the stack of the call that runs now.
pub open spec fn queried_word(s: CircuitInputStateRef) -> Word {
    s.top().stack@.last()
}

/// The address that the instruction asks about: the low 160 bits of the top
/// of the stack.
pub open spec fn queried_address(s: CircuitInputStateRef) -> Address {
    queried_word(s).spec_to_address()
}

/// The account at the address that the instruction asks about.
pub open spec fn queried_account(s: CircuitInputStateRef) -> Account {
    s.sdb.account(queried_address(s))
}

/// The write that makes the queried address warm, with the state it was in
/// before.
pub open spec fn warming(s: CircuitInputStateRef) -> Op {
    Op::TxAccessListAccount(
        TxAccessListAccountOp {
            tx_id: s.tx_id,
            address: queried_address(s),
            is_warm: true,
            is_warm_prev: s.sdb.is_warm(queried_address(s)),
        },
    )
}

/// The operation `op` in direction `rw`, as the operation that follows `k`
/// others after the log of `s`.
pub open spec fn nth(s: CircuitInputStateRef, k: int, rw: RW, reversible: bool, op: Op) -> Operation<
    Op,
> {
    Operation { rwc: (s.log().len() + 1 + k) as usize, rw, reversible, op }
}

/// The operations that come before the reads of the account: the read of
/// the address from the stack, the reads of the transaction id, the end of
/// reversion and the persistence of the call, and the write that makes the
/// address warm.
pub open spec fn balance_ops_head(s: CircuitInputStateRef) -> Seq<Operation<Op>> {
    let call = s.top().call;
    let slot = (STACK_LIMIT - s.top().stack@.len()) as usize;
    seq![
        nth(
            s,
            0,
            RW::Read,
            false,
            Op::Stack(StackOp { call_id: call.call_id, address: slot, value: queried_word(s) }),
        ),
        nth(
            s,
            1,
            RW::Read,
            false,
            Op::CallContext(
                CallContextOp {
                    call_id: call.call_id,
                    field: CallContextField::TxId,
                    value: call.spec_field_value(CallContextField::TxId, s.tx_id),
                },
            ),
        ),
        nth(
            s,
            2,
            RW::Read,
            false,
            Op::CallContext(
                CallContextOp {
                    call_id: call.call_id,
                    field: CallContextField::RwCounterEndOfReversion,
                    value: call.spec_field_value(
                        CallContextField::RwCounterEndOfReversion,
                        s.tx_id,
                    ),
                },
            ),
        ),
        nth(
            s,
            3,
            RW::Read,
            false,
            Op::CallContext(
                CallContextOp {
                    call_id: call.call_id,
                    field: CallContextField::IsPersistent,
                    value: call.spec_field_value(CallContextField::IsPersistent, s.tx_id),
                },
            ),
        ),
        nth(s, 4, RW::Write, true, warming(s)),
    ]
}

/// The read of a field of the queried account, as the operation that follows
/// `k` others after the log of `s`.
pub open spec fn account_read_nth(s: CircuitInputStateRef, k: int, field: AccountField) -> Operation<
    Op,
> {
    let value = queried_account(s).spec_field_value(field);
    nth(
        s,
        k,
        RW::Read,
        false,
        Op::Account(AccountOp { address: queried_address(s), field, value, value_prev: value }),
    )
}

/// The write of the balance to the stack slot that held the address, as the
/// operation that follows `k` others after the log of `s`.
pub open spec fn balance_push_nth(s: CircuitInputStateRef, k: int) -> Operation<Op> {
    nth(
        s,
        k,
        RW::Write,
        false,
        Op::Stack(
            StackOp {
                call_id: s.top().call.call_id,
                address: (STACK_LIMIT - s.top().stack@.len()) as usize,
                value: queried_account(s).balance,
            },
        ),
    )
}

/// The operations of the instruction, in the order it makes them. The code
/// hash of the account is always read, and reads as zero for an account that
/// does not exist; the balance is read only of an account that exists. The
/// last operation pushes the balance, which is zero for an account that does
/// not exist.
pub open spec fn balance_ops(s: CircuitInputStateRef) -> Seq<Operation<Op>> {
    if queried_account(s).spec_is_empty() {
        balance_ops_head(s).push(account_read_nth(s, 5, AccountField::CodeHash)).push(
            balance_push_nth(s, 6),
        )
    } else {
        balance_ops_head(s).push(account_read_nth(s, 5, AccountField::CodeHash)).push(
            account_read_nth(s, 6, AccountField::Balance),
        ).push(balance_push_nth(s, 7))
    }
}

/// Whether the top of the stack that the trace shows at `step` is `value`.
pub open spec fn trace_shows(step: GethExecStep, value: Word) -> bool {
    step.stack@.len() > 0 && step.stack@.last() == value
}

/// Why the instruction cannot be handled, if it cannot, in the order in
/// which the causes are met: no call runs; the stack is empty; the trace
/// shows another address, where the trace is checked; the call's count of
/// reversible writes is at its limit, or above the end of reversion of a call
/// that is not persistent; the trace has no next step or shows another
/// balance there, where the trace is checked.
pub open spec fn balance_error(s: CircuitInputStateRef, geth_steps: Seq<GethExecStep>) -> Option<
    Error,
> {
    if s.frames@.len() == 0 {
        Some(Error::MissingContext)
    } else if s.top().stack@.len() == 0 {
        Some(Error::InvariantViolation)
    } else if s.check_trace && !trace_shows(geth_steps[0], queried_word(s)) {
        Some(Error::TraceInconsistency)
    } else if s.top().reversible_write_counter == usize::MAX || (!s.top().call.is_persistent
        && s.top().call.rw_counter_end_of_reversion < s.top().reversible_write_counter) {
        Some(Error::InvariantViolation)
    } else if s.check_trace && !(geth_steps.len() >= 2 && trace_shows(
        geth_steps[1],
        queried_account(s).balance,
    )) {
        Some(Error::TraceInconsistency)
    } else {
        None
    }
}

/// How many operations of the instruction are recorded when it stops for
/// `error`: none where no call runs or the stack is empty; the read of the
/// address where the trace shows another address; that and the three reads
/// of the call's context where the reversible write is refused; all but the
/// push where the trace shows another balance.
pub open spec fn recorded_before(s: CircuitInputStateRef, geth_steps: Seq<GethExecStep>) -> int {
    if s.frames@.len() == 0 || s.top().stack@.len() == 0 {
        0
    } else if s.check_trace && !trace_shows(geth_steps[0], queried_word(s)) {
        1
    } else if s.top().reversible_write_counter == usize::MAX || (!s.top().call.is_persistent
        && s.top().call.rw_counter_end_of_reversion < s.top().reversible_write_counter) {
        4
    } else {
        balance_ops(s).len() - 1
    }
}

/// Whether `after` has all of `before` at its start.
pub open spec fn extends(before: Seq<Operation<Op>>, after: Seq<Operation<Op>>) -> bool {
    before.len() <= after.len() && after.subrange(0, before.len() as int) =~= before
}

proof fn lemma_extends_push(
    before: Seq<Operation<Op>>,
    after: Seq<Operation<Op>>,
    e: Operation<Op>,
)
    requires
        extends(before, after),
    ensures
        extends(before, after.push(e)),
{
    assert(after.push(e).subrange(0, before.len() as int) =~= after.subrange(
        0,
        before.len() as int,
    ));
}

/// Existence asymmetry: of an account that does not exist the instruction
/// records one read, of the code hash, with value zero, and pushes zero; of
/// an account that exists it records a read of the code hash and then a read
/// of the balance, and pushes the balance. Five operations come before these
/// either way, and the push comes last.
pub proof fn lemma_existence_asymmetry(s: CircuitInputStateRef)
    ensures
        ({
            let ops = balance_ops(s);
            let account = queried_account(s);
            let zero = Word { hi: 0, lo: 0 };
            &&& forall|i: int| 0 <= i < 5 ==> !((#[trigger] ops[i]).op is Account)
            &&& ops[5] == account_read_nth(s, 5, AccountField::CodeHash)
            &&& account.spec_is_empty() ==> {
                &&& ops.len() == 7
                &&& ops[5].op.value() == zero
                &&& ops[6] == balance_push_nth(s, 6)
                &&& ops[6].op.value() == zero
            }
            &&& !account.spec_is_empty() ==> {
                &&& ops.len() == 8
                &&& ops[5].op.value() == account.code_hash
                &&& ops[6] == account_read_nth(s, 6, AccountField::Balance)
                &&& ops[6].op.value() == account.balance
                &&& ops[7] == balance_push_nth(s, 7)
                &&& ops[7].op.value() == account.balance
            }
        }),
{
}

impl Opcode for Balance {
    /// Handles one `BALANCE`: pops the address, reads the transaction id,
    /// the end of reversion and the persistence of the call, makes the
    /// address warm by a reversible write, reads the code hash of the account
    /// and, if the account exists, its balance, and pushes the balance.
    #[verifier::rlimit(60)]
    fn gen_associated_ops(state: &mut CircuitInputStateRef, geth_steps: &[GethExecStep]) -> (r:
        Result<Vec<ExecStep>, Error>)
        ensures
            r is Ok <==> balance_error(*old(state), geth_steps@) is None,
            r is Err ==> Some(r->Err_0) == balance_error(*old(state), geth_steps@),
            r is Err && (old(state).frames@.len() == 0 || old(state).top().stack@.len() == 0)
                ==> *final(state) == *old(state),
            r is Err ==> final(state).log() == old(state).log() + balance_ops(*old(state)).take(
                recorded_before(*old(state), geth_steps@),
            ),
            r is Ok ==> {
                let s = *old(state);
                let step = r->Ok_0@[0];
                let balance = queried_account(s).balance;
                &&& r->Ok_0@.len() == 1
                &&& final(state).log() == s.log() + balance_ops(s)
                &&& step.pc == geth_steps@[0].pc
                &&& step.op == geth_steps@[0].op
                &&& step.gas_left == geth_steps@[0].gas
                &&& step.call_id == s.top().call.call_id
                &&& step.rwc == s.log().len()
                &&& step.reversible_write_counter == s.top().reversible_write_counter
                &&& step.bus_mapping_instance@ == s.next_numbers(balance_ops(s).len() as int)
                &&& same_config(s, *final(state))
                &&& db_written(s.sdb, final(state).sdb, warming(s))
                &&& same_below_top(s, *final(state))
                &&& final(state).top().call == s.top().call
                &&& final(state).top().stack@ == s.top().stack@.drop_last().push(balance)
                &&& final(state).top().memory@ == s.top().memory@
                &&& final(state).top().reversible_write_counter == s.top().reversible_write_counter
                    + 1
                &&& final(state).top().pending@ == if s.top().call.is_persistent {
                    s.top().pending@
                } else {
                    s.top().pending@.push(s.reversal_of(warming(s)))
                }
            },
    {
        let ghost s0 = *state;
        proof {
            s0.lemma_wf_frames();
            if s0.frames@.len() > 0 {
                assert(s0.frame_ok(s0.frames@.len() - 1));
            }
        }
        let geth_step = &geth_steps[0];
        let mut exec_step = match state.new_step(geth_step) {
            Err(e) => {
                assert(state.log() =~= s0.log() + balance_ops(s0).take(0));
                return Err(e);
            },
            Ok(step) => step,
        };
        let ghost step0 = exec_step;
        assert(extends(s0.log(), state.log()));

        // Read account address from stack.
        let address_word = match state.stack_pop(&mut exec_step) {
            Err(e) => {
                assert(state.log() =~= s0.log() + balance_ops(s0).take(0));
                return Err(e);
            },
            Ok(word) => word,
        };
        let address = address_word.to_address();
        let ghost s1 = *state;
        proof {
            lemma_extends_push(s0.log(), s0.log(), s0.pop_record());
            s1.lemma_live_call_top();
        }
        if state.check_trace {
            let shown = &geth_step.stack;
            if shown.len() == 0 || !(shown[shown.len() - 1] == address_word) {
                assert(state.log() =~= s0.log() + balance_ops(s0).take(1));
                return Err(Error::TraceInconsistency);
            }
        }
        let call = match state.call() {
            Err(e) => {
                return Err(e);
            },
            Ok(call) => call,
        };
        let tx_id = state.tx_id;

        // Read transaction ID, rw_counter_end_of_reversion, and is_persistent
        // from call context.
        let r1 = state.call_context_read(
            &mut exec_step,
            call.call_id,
            CallContextField::TxId,
            call.field_value(CallContextField::TxId, tx_id),
        );
        let ghost s2 = *state;
        proof {
            lemma_extends_push(
                s0.log(),
                s1.log(),
                s1.cc_record(
                    call.call_id,
                    CallContextField::TxId,
                    call.spec_field_value(CallContextField::TxId, tx_id),
                ),
            );
            s2.lemma_live_call_top();
        }
        let r2 = state.call_context_read(
            &mut exec_step,
            call.call_id,
            CallContextField::RwCounterEndOfReversion,
            call.field_value(CallContextField::RwCounterEndOfReversion, tx_id),
        );
        let ghost s3 = *state;
        proof {
            lemma_extends_push(
                s0.log(),
                s2.log(),
                s2.cc_record(
                    call.call_id,
                    CallContextField::RwCounterEndOfReversion,
                    call.spec_field_value(CallContextField::RwCounterEndOfReversion, tx_id),
                ),
            );
            s3.lemma_live_call_top();
        }
        let r3 = state.call_context_read(
            &mut exec_step,
            call.call_id,
            CallContextField::IsPersistent,
            call.field_value(CallContextField::IsPersistent, tx_id),
        );
        let ghost s4 = *state;
        proof {
            lemma_extends_push(
                s0.log(),
                s3.log(),
                s3.cc_record(
                    call.call_id,
                    CallContextField::IsPersistent,
                    call.spec_field_value(CallContextField::IsPersistent, tx_id),
                ),
            );
            assert(r1 is Ok && r2 is Ok && r3 is Ok);
        }

        // Update transaction access list for account address.
        let is_warm = state.check_account_in_access_list(&address);
        let warm = Op::TxAccessListAccount(
            TxAccessListAccountOp { tx_id, address, is_warm: true, is_warm_prev: is_warm },
        );
        assert(warm == warming(s0));
        match state.push_op_reversible(&mut exec_step, warm) {
            Err(e) => {
                assert(state.log() =~= s0.log() + balance_ops(s0).take(4));
                return Err(e);
            },
            Ok(()) => {},
        }
        let ghost s5 = *state;
        proof {
            lemma_extends_push(s0.log(), s4.log(), s4.write_record(warm, true));
        }

        // Read account balance.
        let account = state.sdb.get_account(&address).1;
        let exists = !account.is_empty();
        let balance = account.balance;
        let code_hash = if exists {
            account.code_hash
        } else {
            Word::zero()
        };
        let r6 = state.account_read(&mut exec_step, address, AccountField::CodeHash, code_hash);
        let ghost s6 = *state;
        proof {
            assert(account == queried_account(s0));
            assert(r6 is Ok);
            lemma_extends_push(
                s0.log(),
                s5.log(),
                s5.account_record(address, AccountField::CodeHash, code_hash),
            );
        }
        if exists {
            let r7 = state.account_read(&mut exec_step, address, AccountField::Balance, balance);
            proof {
                assert(r7 is Ok);
                lemma_extends_push(
                    s0.log(),
                    s6.log(),
                    s6.account_record(address, AccountField::Balance, balance),
                );
            }
        }
        let ghost s7 = *state;

        // Write the BALANCE result to stack.
        proof {
            assert(state.log() =~= s0.log() + balance_ops(s0).take(balance_ops(s0).len() - 1));
        }
        if state.check_trace {
            if geth_steps.len() < 2 {
                return Err(Error::TraceInconsistency);
            }
            let shown = &geth_steps[1].stack;
            if shown.len() == 0 || !(shown[shown.len() - 1] == balance) {
                return Err(Error::TraceInconsistency);
            }
        }
        let r8 = state.stack_push(&mut exec_step, balance);
        proof {
            assert(r8 is Ok);
            lemma_extends_push(s0.log(), s7.log(), s7.push_record(balance));
            assert(state.log() =~= s0.log() + balance_ops(s0));
            assert(exec_step.bus_mapping_instance@ =~= s0.next_numbers(
                balance_ops(s0).len() as int,
            ));
            assert(state.top().stack@ =~= s0.top().stack@.drop_last().push(balance));
        }
        let mut steps = Vec::new();
        steps.push(exec_step);
        Ok(steps)
    }
}

} // verus!
