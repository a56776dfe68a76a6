use bus_mapping::call::Call;
use bus_mapping::evm::opcodes::balance::Balance;
use bus_mapping::evm::opcodes::Opcode;
use bus_mapping::exec_step::{Error, ExecStep, GethExecStep, BALANCE};
use bus_mapping::operation::{
    AccountField, AccountOp, CallContextField, CallContextOp, StackOp, Target,
    TxAccessListAccountOp, RW,
};
use bus_mapping::state_db::{empty_code_hash, Account, StateDb};
use bus_mapping::state_ref::CircuitInputStateRef;
use bus_mapping::word::{Address, Word};

const PUSH20: u8 = 0x73;
const POP: u8 = 0x50;

fn queried() -> Address {
    Address::new(0xaabbccdd, 0xee000000_00000000_00000000_00000000)
}

fn plain_address(low: u128) -> Address {
    Address::new(0, low)
}

fn root_call(code_address: Address) -> Call {
    Call {
        call_id: 0,
        caller_id: 0,
        is_root: true,
        is_success: true,
        is_persistent: true,
        rw_counter_end_of_reversion: 0,
        address: code_address,
        depth: 1,
        call_data_offset: 0,
        call_data_length: 0,
        return_data_offset: 0,
        return_data_length: 0,
    }
}

fn trace_step(op: u8, pc: u64, stack: Vec<Word>) -> GethExecStep {
    GethExecStep { pc, op, gas: 1_000_000 - pc, depth: 1, stack }
}

/// The hash of the code `[1, 2, 3]` or `[2, 3, 4]`, the two codes that the
/// queried account is given.
fn code_hash_of(code: &[u8]) -> Word {
    if code == [1, 2, 3] {
        Word {
            hi: 0xf1885eda54b7a053318cd41e2093220d,
            lo: 0xab15d65381b1157a3633a83bfd5c9239,
        }
    } else {
        assert_eq!(code, [2, 3, 4]);
        Word {
            hi: 0xf04887863766f8a30fa96d305a3989a8,
            lo: 0xf84e3f2e501233edb995323e58419885,
        }
    }
}

/// Runs `PUSH20 address; BALANCE` in the root call, and hands back the step
/// of the `BALANCE`.
fn query(state: &mut CircuitInputStateRef, address: Address, balance: Word, pc: u64) -> ExecStep {
    let push = trace_step(PUSH20, pc, vec![]);
    let mut push_step = state.new_step(&push).unwrap();
    state.stack_push(&mut push_step, address.to_word()).unwrap();
    let window = vec![
        trace_step(BALANCE, pc + 21, vec![address.to_word()]),
        trace_step(POP, pc + 22, vec![balance]),
    ];
    let mut steps = Balance::gen_associated_ops(state, &window).unwrap();
    assert_eq!(steps.len(), 1);
    steps.pop().unwrap()
}

// account_code = None should be the same as exists = false, so we can remove
// it.
fn test_ok(exists: bool, is_warm: bool, account_code: Option<Vec<u8>>) {
    let address = queried();

    let balance = if exists { Word::from_u64(800) } else { Word::zero() };

    let program = plain_address(0x10);
    let mut sdb = StateDb::new();
    sdb.set_account(
        &program,
        Account {
            nonce: Word::zero(),
            balance: Word::from_u64(1u64 << 20),
            code_hash: Word::from_u64(0xc0de),
        },
    );
    if exists {
        let code_hash = match &account_code {
            Some(code) => code_hash_of(code),
            None => empty_code_hash(),
        };
        sdb.set_account(&address, Account { nonce: Word::zero(), balance, code_hash });
    } else {
        sdb.set_account(
            &plain_address(0x20),
            Account {
                nonce: Word::zero(),
                balance: Word::from_u64(1u64 << 20),
                code_hash: empty_code_hash(),
            },
        );
    }
    sdb.set_account(
        &plain_address(0xcafe01),
        Account {
            nonce: Word::zero(),
            balance: Word::from_u64(1u64 << 20),
            code_hash: empty_code_hash(),
        },
    );

    let mut builder = CircuitInputStateRef::new(sdb, true);
    let tx_id = 1;
    builder.begin_tx(tx_id).unwrap();
    let call_id = builder.push_call(root_call(program)).unwrap();

    // Pop balance first for warm account.
    let mut pc = 0;
    if is_warm {
        query(&mut builder, address, balance, pc);
        let pop = trace_step(POP, pc + 22, vec![balance]);
        let mut pop_step = builder.new_step(&pop).unwrap();
        assert_eq!(builder.stack_pop(&mut pop_step), Ok(balance));
        pc += 23;
    }
    let step = query(&mut builder, address, balance, pc);
    assert_eq!(step.op, BALANCE);
    assert_eq!(step.call_id, call_id);
    let mut stop = trace_step(0x00, pc + 22, vec![balance]);
    stop.depth = 1;
    let mut stop_step = builder.new_step(&stop).unwrap();
    builder.handle_return(&mut stop_step).unwrap();
    builder.end_tx().unwrap();

    // Check if account address is in access list as a result of bus mapping.
    assert!(builder.sdb.add_account_to_access_list(&address));

    let indices = step.bus_mapping_instance.clone();
    assert_eq!(indices.len(), if exists { 8 } else { 7 });

    let container = &builder.container;
    let place = |seq: usize| container.locate(seq).unwrap().index;

    let operation = &container.stack[place(indices[0])];
    assert_eq!(operation.rw(), RW::Read);
    assert_eq!(
        operation.op(),
        &StackOp { call_id, address: 1023, value: address.to_word() }
    );

    let operation = &container.call_context[place(indices[1])];
    assert_eq!(operation.rw(), RW::Read);
    assert_eq!(
        operation.op(),
        &CallContextOp { call_id, field: CallContextField::TxId, value: Word::from_usize(tx_id) }
    );

    let operation = &container.call_context[place(indices[2])];
    assert_eq!(operation.rw(), RW::Read);
    assert_eq!(
        operation.op(),
        &CallContextOp {
            call_id,
            field: CallContextField::RwCounterEndOfReversion,
            value: Word::zero()
        }
    );

    let operation = &container.call_context[place(indices[3])];
    assert_eq!(operation.rw(), RW::Read);
    assert_eq!(
        operation.op(),
        &CallContextOp { call_id, field: CallContextField::IsPersistent, value: Word::one() }
    );

    let operation = &container.tx_access_list_account[place(indices[4])];
    assert_eq!(operation.rw(), RW::Write);
    assert_eq!(
        operation.op(),
        &TxAccessListAccountOp { tx_id, address, is_warm: true, is_warm_prev: is_warm }
    );

    let code_hash = if let Some(code) = account_code {
        code_hash_of(&code)
    } else if exists {
        empty_code_hash()
    } else {
        Word::zero()
    };
    let operation = &container.account[place(indices[5])];
    assert_eq!(operation.rw(), RW::Read);
    assert_eq!(
        operation.op(),
        &AccountOp {
            address,
            field: AccountField::CodeHash,
            value: if exists { code_hash } else { Word::zero() },
            value_prev: if exists { code_hash } else { Word::zero() },
        }
    );
    if exists {
        let operation = &container.account[place(indices[6])];
        assert_eq!(operation.rw(), RW::Read);
        assert_eq!(
            operation.op(),
            &AccountOp {
                address,
                field: AccountField::Balance,
                value: balance,
                value_prev: balance,
            }
        );
    }

    let operation = &container.stack[place(indices[6 + if exists { 1 } else { 0 }])];
    assert_eq!(operation.rw(), RW::Write);
    assert_eq!(operation.op(), &StackOp { call_id, address: 1023, value: balance });
}

#[test]
fn test_balance_of_non_existing_address() {
    test_ok(false, false, None);
}

#[test]
fn test_balance_of_cold_address() {
    test_ok(true, false, None);
    test_ok(true, false, Some(vec![1, 2, 3]))
}

#[test]
fn test_balance_of_warm_address() {
    test_ok(true, true, None);
    test_ok(true, true, Some(vec![2, 3, 4]))
}

fn started(sdb: StateDb, check_trace: bool) -> (CircuitInputStateRef, usize) {
    let mut state = CircuitInputStateRef::new(sdb, check_trace);
    state.begin_tx(1).unwrap();
    let call_id = state.push_call(root_call(plain_address(0x10))).unwrap();
    (state, call_id)
}

#[test]
fn balance_of_missing_account_records_six_operations_then_pushes_zero() {
    let (mut state, _) = started(StateDb::new(), false);
    let before = state.container.len();
    let step = query(&mut state, queried(), Word::zero(), 0);
    // The push of the address comes first; then six operations and the push
    // of the balance.
    assert_eq!(state.container.len(), before + 1 + 7);
    let seqs = &step.bus_mapping_instance;
    assert_eq!(seqs.len(), 7);
    let kinds: Vec<_> = seqs.iter().map(|s| state.container.locate(*s).unwrap().target).collect();
    assert_eq!(
        kinds,
        vec![
            Target::Stack,
            Target::CallContext,
            Target::CallContext,
            Target::CallContext,
            Target::TxAccessListAccount,
            Target::Account,
            Target::Stack
        ]
    );
    assert_eq!(state.container.account.len(), 1);
    assert_eq!(state.container.account[0].op().field, AccountField::CodeHash);
    assert_eq!(state.container.account[0].op().value, Word::zero());
    let last = state.container.get(seqs[6]).unwrap();
    assert_eq!(last.rw, RW::Write);
    assert_eq!(state.frames[0].stack, vec![Word::zero()]);
}

#[test]
fn balance_of_existing_account_reads_code_hash_then_balance() {
    let mut sdb = StateDb::new();
    sdb.set_account(
        &queried(),
        Account { nonce: Word::zero(), balance: Word::from_u64(800), code_hash: empty_code_hash() },
    );
    let (mut state, _) = started(sdb, false);
    let step = query(&mut state, queried(), Word::from_u64(800), 0);
    assert_eq!(step.bus_mapping_instance.len(), 8);
    assert_eq!(state.container.account.len(), 2);
    assert_eq!(state.container.account[0].op().field, AccountField::CodeHash);
    assert_eq!(state.container.account[0].op().value, empty_code_hash());
    assert_eq!(state.container.account[1].op().field, AccountField::Balance);
    assert_eq!(state.container.account[1].op().value, Word::from_u64(800));
    assert!(state.container.account[0].rwc() < state.container.account[1].rwc());
    assert!(!state.container.tx_access_list_account[0].op().is_warm_prev);
    assert_eq!(state.frames[0].stack, vec![Word::from_u64(800)]);
}

#[test]
fn balance_step_numbers_follow_the_log() {
    let (mut state, _) = started(StateDb::new(), false);
    let step = query(&mut state, queried(), Word::zero(), 0);
    // One push came before the step.
    assert_eq!(step.rwc, 1);
    assert_eq!(step.bus_mapping_instance, vec![2, 3, 4, 5, 6, 7, 8]);
    assert_eq!(step.pc, 21);
    assert_eq!(step.gas_left, 1_000_000 - 21);
}

#[test]
fn balance_uses_low_160_bits_of_the_word() {
    let mut sdb = StateDb::new();
    sdb.set_account(
        &queried(),
        Account { nonce: Word::one(), balance: Word::from_u64(5), code_hash: empty_code_hash() },
    );
    let (mut state, _) = started(sdb, false);
    let mut word = queried().to_word();
    word.hi |= 0xffff_ffff_0000_0000_0000_0000_0000_0000;
    let mut push_step = state.new_step(&trace_step(PUSH20, 0, vec![])).unwrap();
    state.stack_push(&mut push_step, word).unwrap();
    let window = vec![trace_step(BALANCE, 1, vec![word])];
    Balance::gen_associated_ops(&mut state, &window).unwrap();
    assert_eq!(state.container.tx_access_list_account[0].op().address, queried());
    assert_eq!(state.frames[0].stack, vec![Word::from_u64(5)]);
}

#[test]
fn balance_without_call_is_missing_context() {
    let mut state = CircuitInputStateRef::new(StateDb::new(), false);
    let window = vec![trace_step(BALANCE, 0, vec![])];
    assert_eq!(
        Balance::gen_associated_ops(&mut state, &window).err(),
        Some(Error::MissingContext)
    );
    assert_eq!(state.container.len(), 0);
}

#[test]
fn balance_on_empty_stack_is_invariant_violation() {
    let (mut state, _) = started(StateDb::new(), false);
    let window = vec![trace_step(BALANCE, 0, vec![])];
    assert_eq!(
        Balance::gen_associated_ops(&mut state, &window).err(),
        Some(Error::InvariantViolation)
    );
    assert_eq!(state.container.len(), 0);
}

#[test]
fn balance_checks_address_against_trace() {
    let (mut state, _) = started(StateDb::new(), true);
    let mut push_step = state.new_step(&trace_step(PUSH20, 0, vec![])).unwrap();
    state.stack_push(&mut push_step, queried().to_word()).unwrap();
    let window = vec![
        trace_step(BALANCE, 1, vec![Word::from_u64(7)]),
        trace_step(POP, 2, vec![Word::zero()]),
    ];
    assert_eq!(
        Balance::gen_associated_ops(&mut state, &window).err(),
        Some(Error::TraceInconsistency)
    );
    // The push before the instruction, and the read of the address.
    assert_eq!(state.container.len(), 2);
    assert_eq!(state.container.stack[1].rw(), RW::Read);
}

#[test]
fn balance_checks_result_against_trace() {
    let (mut state, _) = started(StateDb::new(), true);
    let mut push_step = state.new_step(&trace_step(PUSH20, 0, vec![])).unwrap();
    state.stack_push(&mut push_step, queried().to_word()).unwrap();
    let window = vec![
        trace_step(BALANCE, 1, vec![queried().to_word()]),
        trace_step(POP, 2, vec![Word::from_u64(1)]),
    ];
    assert_eq!(
        Balance::gen_associated_ops(&mut state, &window).err(),
        Some(Error::TraceInconsistency)
    );
    // The push before the instruction, and all of its operations but the
    // last.
    assert_eq!(state.container.len(), 1 + 6);
    assert_eq!(state.container.account.len(), 1);
    assert!(state.frames[0].stack.is_empty());
    // Without the next step of the trace there is nothing to compare with.
    let (mut state, _) = started(StateDb::new(), true);
    let mut push_step = state.new_step(&trace_step(PUSH20, 0, vec![])).unwrap();
    state.stack_push(&mut push_step, queried().to_word()).unwrap();
    let window = vec![trace_step(BALANCE, 1, vec![queried().to_word()])];
    assert_eq!(
        Balance::gen_associated_ops(&mut state, &window).err(),
        Some(Error::TraceInconsistency)
    );
}

#[test]
fn balance_ignores_trace_when_not_checked() {
    let (mut state, _) = started(StateDb::new(), false);
    let mut push_step = state.new_step(&trace_step(PUSH20, 0, vec![])).unwrap();
    state.stack_push(&mut push_step, queried().to_word()).unwrap();
    let window = vec![trace_step(BALANCE, 1, vec![Word::from_u64(7)])];
    assert!(Balance::gen_associated_ops(&mut state, &window).is_ok());
}
