use bus_mapping::call::{Call, STACK_LIMIT};
use bus_mapping::exec_step::{Error, ExecStep, GethExecStep};
use bus_mapping::operation::{
    AccountField, AccountOp, CallContextField, CallContextOp, Op, Operation, StackOp, StorageOp,
    TxAccessListAccountOp, RW,
};
use bus_mapping::state_db::{empty_code_hash, Account, StateDb};
use bus_mapping::state_ref::CircuitInputStateRef;
use bus_mapping::word::{Address, Word};

fn call(is_success: bool, end: usize) -> Call {
    Call {
        call_id: 0,
        caller_id: 0,
        is_root: false,
        is_success,
        is_persistent: false,
        rw_counter_end_of_reversion: end,
        address: Address::new(0, 0x10),
        depth: 0,
        call_data_offset: 1,
        call_data_length: 2,
        return_data_offset: 3,
        return_data_length: 4,
    }
}

fn geth_step(pc: u64) -> GethExecStep {
    GethExecStep { pc, op: 0x60, gas: 500, depth: 1, stack: vec![] }
}

fn fresh() -> CircuitInputStateRef {
    let mut sdb = StateDb::new();
    sdb.set_account(
        &Address::new(0, 0xaa),
        Account { nonce: Word::from_u64(3), balance: Word::from_u64(800), code_hash: empty_code_hash() },
    );
    let mut state = CircuitInputStateRef::new(sdb, false);
    state.begin_tx(1).unwrap();
    state
}

fn step_of(state: &CircuitInputStateRef) -> ExecStep {
    state.new_step(&geth_step(0)).unwrap()
}

#[test]
fn new_state_has_nothing() {
    let state = CircuitInputStateRef::new(StateDb::new(), true);
    assert_eq!(state.container.len(), 0);
    assert_eq!(state.frames.len(), 0);
    assert_eq!(state.tx_id, 0);
    assert!(!state.in_tx);
    assert!(state.check_trace);
    assert_eq!(state.call().err(), Some(Error::MissingContext));
    assert_eq!(state.new_step(&geth_step(0)).err(), Some(Error::MissingContext));
}

#[test]
fn transactions_must_advance_and_not_cut_calls() {
    let mut state = CircuitInputStateRef::new(StateDb::new(), false);
    assert_eq!(state.begin_tx(0), Err(Error::InvariantViolation));
    assert_eq!(state.end_tx(), Err(Error::InvariantViolation));
    assert_eq!(state.begin_tx(3), Ok(()));
    assert!(state.in_tx);
    assert_eq!(state.begin_tx(3), Err(Error::InvariantViolation));
    assert_eq!(state.begin_tx(2), Err(Error::InvariantViolation));
    state.push_call(call(true, 0)).unwrap();
    assert_eq!(state.begin_tx(4), Err(Error::InvariantViolation));
    assert_eq!(state.end_tx(), Err(Error::InvariantViolation));
    let mut step = step_of(&state);
    state.handle_return(&mut step).unwrap();
    assert_eq!(state.end_tx(), Ok(()));
    assert!(!state.in_tx);
    assert_eq!(state.tx_id, 3);
    assert_eq!(state.begin_tx(4), Ok(()));
    assert_eq!(state.tx_id, 4);
}

#[test]
fn call_outside_transaction_is_missing_context() {
    let mut state = CircuitInputStateRef::new(StateDb::new(), false);
    assert_eq!(state.push_call(call(true, 0)), Err(Error::MissingContext));
    state.begin_tx(1).unwrap();
    state.end_tx().unwrap();
    assert_eq!(state.push_call(call(true, 0)), Err(Error::MissingContext));
}

#[test]
fn push_call_fills_in_the_frame() {
    let mut state = fresh();
    let root = state.push_call(call(true, 77)).unwrap();
    assert_eq!(root, 1);
    let c = state.call().unwrap();
    assert_eq!(c.call_id, 1);
    assert_eq!(c.caller_id, 0);
    assert!(c.is_root);
    assert!(c.is_success);
    assert!(c.is_persistent);
    assert_eq!(c.rw_counter_end_of_reversion, 0);
    assert_eq!(c.depth, 1);
    assert_eq!(c.address, Address::new(0, 0x10));
    assert_eq!((c.call_data_offset, c.call_data_length), (1, 2));
    assert_eq!((c.return_data_offset, c.return_data_length), (3, 4));

    let failing = state.push_call(call(false, 40)).unwrap();
    assert_eq!(failing, 2);
    let c = state.call().unwrap();
    assert_eq!(c.caller_id, 1);
    assert!(!c.is_root);
    assert!(!c.is_persistent);
    assert_eq!(c.rw_counter_end_of_reversion, 40);
    assert_eq!(c.depth, 2);

    // Two reversible writes in the failing call, then a call inside it that
    // succeeds: its end of reversion is the caller's less two.
    let mut step = step_of(&state);
    for slot in 0..2 {
        state
            .push_op_reversible(
                &mut step,
                Op::Storage(StorageOp {
                    address: Address::new(0, 1),
                    key: Word::from_u64(slot),
                    value: Word::one(),
                    value_prev: Word::zero(),
                    tx_id: 1,
                }),
            )
            .unwrap();
    }
    let inner = state.push_call(call(true, 999)).unwrap();
    assert_eq!(inner, 3);
    let c = state.call().unwrap();
    assert!(c.is_success);
    assert!(!c.is_persistent);
    assert_eq!(c.rw_counter_end_of_reversion, 38);
    assert_eq!(c.depth, 3);
    assert_eq!(state.frames[2].reversible_write_counter, 0);
}

#[test]
fn new_step_takes_place_and_counters() {
    let mut state = fresh();
    let id = state.push_call(call(true, 0)).unwrap();
    let mut step = step_of(&state);
    state.stack_push(&mut step, Word::one()).unwrap();
    let next = state.new_step(&GethExecStep { pc: 9, op: 0x31, gas: 77, depth: 1, stack: vec![] }).unwrap();
    assert_eq!(next.pc, 9);
    assert_eq!(next.op, 0x31);
    assert_eq!(next.gas_left, 77);
    assert_eq!(next.call_id, id);
    assert_eq!(next.rwc, 1);
    assert_eq!(next.reversible_write_counter, 0);
    assert!(next.bus_mapping_instance.is_empty());
}

#[test]
fn stack_push_and_pop_record_slots_from_the_top_down() {
    let mut state = fresh();
    let id = state.push_call(call(true, 0)).unwrap();
    let mut step = step_of(&state);
    state.stack_push(&mut step, Word::from_u64(10)).unwrap();
    state.stack_push(&mut step, Word::from_u64(20)).unwrap();
    assert_eq!(state.stack_pop(&mut step), Ok(Word::from_u64(20)));
    state.stack_push(&mut step, Word::from_u64(30)).unwrap();
    assert_eq!(state.stack_pop(&mut step), Ok(Word::from_u64(30)));
    assert_eq!(state.stack_pop(&mut step), Ok(Word::from_u64(10)));
    assert_eq!(step.bus_mapping_instance, vec![1, 2, 3, 4, 5, 6]);
    let expect = [
        (RW::Write, 1023, 10),
        (RW::Write, 1022, 20),
        (RW::Read, 1022, 20),
        (RW::Write, 1022, 30),
        (RW::Read, 1022, 30),
        (RW::Read, 1023, 10),
    ];
    for (i, (rw, address, value)) in expect.iter().enumerate() {
        assert_eq!(
            state.container.stack[i],
            Operation {
                rwc: i + 1,
                rw: *rw,
                reversible: false,
                op: StackOp { call_id: id, address: *address, value: Word::from_u64(*value) }
            }
        );
    }
}

#[test]
fn stack_pop_of_empty_stack_changes_nothing() {
    let mut state = fresh();
    state.push_call(call(true, 0)).unwrap();
    let mut step = step_of(&state);
    assert_eq!(state.stack_pop(&mut step), Err(Error::InvariantViolation));
    assert_eq!(state.container.len(), 0);
    assert!(step.bus_mapping_instance.is_empty());
    let mut none = CircuitInputStateRef::new(StateDb::new(), false);
    assert_eq!(none.stack_pop(&mut step), Err(Error::MissingContext));
    assert_eq!(none.stack_push(&mut step, Word::one()), Err(Error::MissingContext));
}

#[test]
fn stack_push_stops_at_the_limit() {
    let mut state = fresh();
    state.push_call(call(true, 0)).unwrap();
    let mut step = step_of(&state);
    for i in 0..STACK_LIMIT {
        assert_eq!(state.stack_push(&mut step, Word::from_usize(i)), Ok(()));
    }
    assert_eq!(state.container.stack[STACK_LIMIT - 1].op().address, 0);
    assert_eq!(state.stack_push(&mut step, Word::one()), Err(Error::InvariantViolation));
    assert_eq!(state.container.len(), STACK_LIMIT);
    assert_eq!(state.frames[0].stack.len(), STACK_LIMIT);
}

#[test]
fn stacks_of_nested_calls_are_apart() {
    let mut state = fresh();
    let outer = state.push_call(call(true, 0)).unwrap();
    let mut step = step_of(&state);
    state.stack_push(&mut step, Word::from_u64(1)).unwrap();
    let inner = state.push_call(call(true, 0)).unwrap();
    assert_ne!(outer, inner);
    assert_eq!(state.stack_pop(&mut step), Err(Error::InvariantViolation));
    state.stack_push(&mut step, Word::from_u64(2)).unwrap();
    assert_eq!(state.container.stack[1].op().call_id, inner);
    assert_eq!(state.container.stack[1].op().address, 1023);
    state.handle_return(&mut step).unwrap();
    assert_eq!(state.stack_pop(&mut step), Ok(Word::from_u64(1)));
    assert_eq!(state.container.stack[2].op().call_id, outer);
}

#[test]
fn call_context_read_checks_call_and_value() {
    let mut state = fresh();
    let outer = state.push_call(call(true, 0)).unwrap();
    let inner = state.push_call(call(false, 12)).unwrap();
    let mut step = step_of(&state);
    let fields = [
        (inner, CallContextField::TxId, Word::from_u64(1)),
        (inner, CallContextField::RwCounterEndOfReversion, Word::from_u64(12)),
        (inner, CallContextField::IsPersistent, Word::zero()),
        (inner, CallContextField::IsSuccess, Word::zero()),
        (inner, CallContextField::CallerId, Word::from_usize(outer)),
        (inner, CallContextField::CalleeAddress, Word::from_u64(0x10)),
        (inner, CallContextField::IsRoot, Word::zero()),
        (inner, CallContextField::Depth, Word::from_u64(2)),
        (inner, CallContextField::CallDataOffset, Word::from_u64(1)),
        (inner, CallContextField::CallDataLength, Word::from_u64(2)),
        (inner, CallContextField::ReturnDataOffset, Word::from_u64(3)),
        (inner, CallContextField::ReturnDataLength, Word::from_u64(4)),
        (outer, CallContextField::IsPersistent, Word::one()),
        (outer, CallContextField::IsRoot, Word::one()),
        (outer, CallContextField::CallerId, Word::zero()),
    ];
    for (i, (id, field, value)) in fields.iter().enumerate() {
        assert_eq!(state.call_context_read(&mut step, *id, *field, *value), Ok(()));
        assert_eq!(
            state.container.call_context[i],
            Operation {
                rwc: i + 1,
                rw: RW::Read,
                reversible: false,
                op: CallContextOp { call_id: *id, field: *field, value: *value }
            }
        );
    }
    let len = state.container.len();
    assert_eq!(
        state.call_context_read(&mut step, inner, CallContextField::Depth, Word::from_u64(3)),
        Err(Error::InvariantViolation)
    );
    assert_eq!(
        state.call_context_read(&mut step, 99, CallContextField::Depth, Word::from_u64(1)),
        Err(Error::MissingContext)
    );
    state.handle_return(&mut step).unwrap();
    assert_eq!(
        state.call_context_read(&mut step, inner, CallContextField::Depth, Word::from_u64(2)),
        Err(Error::MissingContext)
    );
    assert_eq!(state.container.len(), len);
}

#[test]
fn account_read_checks_value_against_database() {
    let mut state = fresh();
    state.push_call(call(true, 0)).unwrap();
    let mut step = step_of(&state);
    let a = Address::new(0, 0xaa);
    assert_eq!(state.account_read(&mut step, a, AccountField::Balance, Word::from_u64(800)), Ok(()));
    assert_eq!(state.account_read(&mut step, a, AccountField::Nonce, Word::from_u64(3)), Ok(()));
    assert_eq!(state.account_read(&mut step, a, AccountField::CodeHash, empty_code_hash()), Ok(()));
    assert_eq!(
        state.account_read(&mut step, a, AccountField::Balance, Word::from_u64(801)),
        Err(Error::InvariantViolation)
    );
    let missing = Address::new(0, 0xbb);
    assert_eq!(state.account_read(&mut step, missing, AccountField::CodeHash, Word::zero()), Ok(()));
    assert_eq!(
        state.account_read(&mut step, missing, AccountField::CodeHash, empty_code_hash()),
        Err(Error::InvariantViolation)
    );
    assert_eq!(state.container.account.len(), 4);
    assert_eq!(
        state.container.account[0],
        Operation {
            rwc: 1,
            rw: RW::Read,
            reversible: false,
            op: AccountOp {
                address: a,
                field: AccountField::Balance,
                value: Word::from_u64(800),
                value_prev: Word::from_u64(800)
            }
        }
    );
    assert_eq!(step.bus_mapping_instance, vec![1, 2, 3, 4]);
}

fn warm(address: Address, tx_id: usize, prev: bool) -> Op {
    Op::TxAccessListAccount(TxAccessListAccountOp { tx_id, address, is_warm: true, is_warm_prev: prev })
}

fn store(slot: u64, value: u64, prev: u64) -> Op {
    Op::Storage(StorageOp {
        address: Address::new(0, 1),
        key: Word::from_u64(slot),
        value: Word::from_u64(value),
        value_prev: Word::from_u64(prev),
        tx_id: 1,
    })
}

#[test]
fn reversible_write_needs_call_kind_and_previous_value() {
    let mut state = fresh();
    let mut step = ExecStep {
        pc: 0,
        op: 0,
        gas_left: 0,
        call_id: 0,
        rwc: 0,
        reversible_write_counter: 0,
        bus_mapping_instance: vec![],
    };
    let a = Address::new(0, 0xaa);
    assert_eq!(state.push_op_reversible(&mut step, warm(a, 1, false)), Err(Error::MissingContext));
    state.push_call(call(true, 0)).unwrap();
    // Wrong previous value, wrong transaction, and kinds that cannot be undone.
    for op in [
        warm(a, 1, true),
        warm(a, 2, false),
        store(1, 5, 4),
        Op::Stack(StackOp { call_id: 1, address: 1023, value: Word::one() }),
        Op::Account(AccountOp {
            address: a,
            field: AccountField::Balance,
            value: Word::from_u64(1),
            value_prev: Word::from_u64(800),
        }),
        Op::CallContext(CallContextOp { call_id: 1, field: CallContextField::Depth, value: Word::one() }),
    ] {
        assert_eq!(state.push_op_reversible(&mut step, op), Err(Error::InvariantViolation));
    }
    assert_eq!(state.container.len(), 0);
    assert!(!state.check_account_in_access_list(&a));

    assert_eq!(state.push_op_reversible(&mut step, warm(a, 1, false)), Ok(()));
    assert!(state.check_account_in_access_list(&a));
    assert_eq!(state.push_op_reversible(&mut step, warm(a, 1, true)), Ok(()));
    assert_eq!(state.push_op_reversible(&mut step, store(1, 5, 0)), Ok(()));
    assert_eq!(state.push_op_reversible(&mut step, store(1, 6, 5)), Ok(()));
    assert_eq!(state.sdb.get_storage(&Address::new(0, 1), &Word::from_u64(1)), Word::from_u64(6));
    assert_eq!(step.bus_mapping_instance, vec![1, 2, 3, 4]);
    assert_eq!(state.frames[0].reversible_write_counter, 4);
    // A persistent call keeps no reversal.
    assert!(state.frames[0].pending.is_empty());
    assert!(state.container.storage[1].reversible());
    assert_eq!(state.container.storage[1].rw(), RW::Write);
}

#[test]
fn reversible_write_above_end_of_reversion_is_refused() {
    let mut state = fresh();
    state.push_call(call(false, 1)).unwrap();
    let mut step = step_of(&state);
    assert_eq!(state.push_op_reversible(&mut step, store(1, 5, 0)), Ok(()));
    assert_eq!(state.push_op_reversible(&mut step, store(1, 6, 5)), Ok(()));
    assert_eq!(state.frames[0].pending[0].target, 1);
    assert_eq!(state.frames[0].pending[1].target, 0);
    assert_eq!(state.push_op_reversible(&mut step, store(1, 7, 6)), Err(Error::InvariantViolation));
    assert_eq!(state.container.len(), 2);
    // A call that succeeds inside cannot be numbered either.
    assert_eq!(state.push_call(call(true, 0)), Err(Error::InvariantViolation));
    assert_eq!(state.frames.len(), 1);
}

#[test]
fn access_list_is_per_transaction() {
    let mut state = fresh();
    let a = Address::new(0, 0xaa);
    state.push_call(call(true, 0)).unwrap();
    let mut step = step_of(&state);
    state.push_op_reversible(&mut step, warm(a, 1, false)).unwrap();
    state.handle_return(&mut step).unwrap();
    state.end_tx().unwrap();
    assert!(!state.check_account_in_access_list(&a));
    state.begin_tx(2).unwrap();
    state.push_call(call(true, 0)).unwrap();
    let mut step = step_of(&state);
    // The write of the first transaction cannot be repeated in the second.
    assert_eq!(state.push_op_reversible(&mut step, warm(a, 1, false)), Err(Error::InvariantViolation));
    assert_eq!(state.push_op_reversible(&mut step, warm(a, 2, false)), Ok(()));
    assert_eq!(state.push_op_reversible(&mut step, warm(a, 2, true)), Ok(()));
    let recorded: Vec<(usize, bool)> = state
        .container
        .tx_access_list_account
        .iter()
        .map(|o| (o.op().tx_id, o.op().is_warm_prev))
        .collect();
    assert_eq!(recorded, vec![(1, false), (2, false), (2, true)]);
}

#[test]
fn return_without_call_is_missing_context() {
    let mut state = fresh();
    let mut step = ExecStep {
        pc: 0,
        op: 0,
        gas_left: 0,
        call_id: 0,
        rwc: 0,
        reversible_write_counter: 0,
        bus_mapping_instance: vec![],
    };
    assert_eq!(state.handle_return(&mut step), Err(Error::MissingContext));
}

#[test]
fn storage_read_checks_value_against_database() {
    let mut state = fresh();
    state.push_call(call(true, 0)).unwrap();
    let mut step = step_of(&state);
    let a = Address::new(0, 1);
    let k = Word::from_u64(1);
    assert_eq!(state.storage_read(&mut step, a, k, Word::zero()), Ok(()));
    assert_eq!(state.storage_read(&mut step, a, k, Word::one()), Err(Error::InvariantViolation));
    state.push_op_reversible(&mut step, store(1, 5, 0)).unwrap();
    assert_eq!(state.storage_read(&mut step, a, k, Word::zero()), Err(Error::InvariantViolation));
    assert_eq!(state.storage_read(&mut step, a, k, Word::from_u64(5)), Ok(()));
    assert_eq!(state.container.storage.len(), 3);
    assert_eq!(
        state.container.storage[2],
        Operation {
            rwc: 3,
            rw: RW::Read,
            reversible: false,
            op: StorageOp {
                address: a,
                key: k,
                value: Word::from_u64(5),
                value_prev: Word::from_u64(5),
                tx_id: 1
            }
        }
    );
    assert_eq!(step.bus_mapping_instance, vec![1, 2, 3]);
}

#[test]
fn memory_is_zero_until_written_and_grows_by_zeros() {
    let mut state = fresh();
    let id = state.push_call(call(true, 0)).unwrap();
    let mut step = step_of(&state);
    assert_eq!(state.memory_read(&mut step, 40, 0), Ok(()));
    assert_eq!(state.memory_read(&mut step, 40, 1), Err(Error::InvariantViolation));
    assert!(state.frames[0].memory.is_empty());
    assert_eq!(state.memory_write(&mut step, 3, 0xab), Ok(()));
    assert_eq!(state.frames[0].memory, vec![0, 0, 0, 0xab]);
    assert_eq!(state.memory_write(&mut step, 1, 0xcd), Ok(()));
    assert_eq!(state.frames[0].memory, vec![0, 0xcd, 0, 0xab]);
    assert_eq!(state.memory_write(&mut step, 4, 0xef), Ok(()));
    assert_eq!(state.frames[0].memory, vec![0, 0xcd, 0, 0xab, 0xef]);
    assert_eq!(state.memory_read(&mut step, 3, 0xab), Ok(()));
    assert_eq!(state.memory_read(&mut step, 3, 0), Err(Error::InvariantViolation));
    assert_eq!(state.memory_read(&mut step, 0, 0), Ok(()));
    assert_eq!(state.memory_read(&mut step, 5, 0), Ok(()));
    assert_eq!(state.memory_write(&mut step, usize::MAX, 1), Err(Error::InvariantViolation));
    let recorded: Vec<(usize, RW, usize, u8)> = state
        .container
        .memory
        .iter()
        .map(|o| (o.rwc(), o.rw(), o.op().address, o.op().value))
        .collect();
    assert_eq!(
        recorded,
        vec![
            (1, RW::Read, 40, 0),
            (2, RW::Write, 3, 0xab),
            (3, RW::Write, 1, 0xcd),
            (4, RW::Write, 4, 0xef),
            (5, RW::Read, 3, 0xab),
            (6, RW::Read, 0, 0),
            (7, RW::Read, 5, 0),
        ]
    );
    assert_eq!(state.container.memory[0].op().call_id, id);
}

#[test]
fn memory_belongs_to_its_call() {
    let mut state = fresh();
    state.push_call(call(true, 0)).unwrap();
    let mut step = step_of(&state);
    state.memory_write(&mut step, 0, 7).unwrap();
    state.push_call(call(true, 0)).unwrap();
    assert_eq!(state.memory_read(&mut step, 0, 0), Ok(()));
    assert_eq!(state.memory_read(&mut step, 0, 7), Err(Error::InvariantViolation));
    state.handle_return(&mut step).unwrap();
    assert_eq!(state.memory_read(&mut step, 0, 7), Ok(()));
    let mut none = CircuitInputStateRef::new(StateDb::new(), false);
    assert_eq!(none.memory_read(&mut step, 0, 0), Err(Error::MissingContext));
    assert_eq!(none.memory_write(&mut step, 0, 0), Err(Error::MissingContext));
}
