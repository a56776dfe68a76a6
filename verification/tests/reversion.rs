use bus_mapping::call::Call;
use bus_mapping::exec_step::{Error, ExecStep, GethExecStep};
use bus_mapping::operation::{Op, Operation, StorageOp, TxAccessListAccountOp, RW};
use bus_mapping::state_db::StateDb;
use bus_mapping::state_ref::CircuitInputStateRef;
use bus_mapping::word::{Address, Word};

fn call(is_success: bool, end: usize) -> Call {
    Call {
        call_id: 0,
        caller_id: 0,
        is_root: false,
        is_success,
        is_persistent: false,
        rw_counter_end_of_reversion: end,
        address: Address::new(0, 0x10),
        depth: 0,
        call_data_offset: 0,
        call_data_length: 0,
        return_data_offset: 0,
        return_data_length: 0,
    }
}

fn contract() -> Address {
    Address::new(0, 1)
}

fn store(slot: u64, value: u64, prev: u64) -> StorageOp {
    StorageOp {
        address: contract(),
        key: Word::from_u64(slot),
        value: Word::from_u64(value),
        value_prev: Word::from_u64(prev),
        tx_id: 1,
    }
}

fn warm(address: Address, is_warm: bool, prev: bool) -> TxAccessListAccountOp {
    TxAccessListAccountOp { tx_id: 1, address, is_warm, is_warm_prev: prev }
}

fn begun() -> CircuitInputStateRef {
    let mut state = CircuitInputStateRef::new(StateDb::new(), false);
    state.begin_tx(1).unwrap();
    state
}

fn step_of(state: &CircuitInputStateRef) -> ExecStep {
    state.new_step(&GethExecStep { pc: 0, op: 0xfd, gas: 0, depth: 1, stack: vec![] }).unwrap()
}

fn slot(state: &CircuitInputStateRef, key: u64) -> u64 {
    state.sdb.get_storage(&contract(), &Word::from_u64(key)).lo as u64
}

#[test]
fn revert_replays_inverses_last_first() {
    let mut state = begun();
    state.push_call(call(true, 0)).unwrap();
    // Three writes at 1, 2, 3; the replay takes 4, 5, 6.
    state.push_call(call(false, 6)).unwrap();
    let mut step = step_of(&state);
    state.push_op_reversible(&mut step, Op::Storage(store(1, 10, 0))).unwrap();
    state
        .push_op_reversible(&mut step, Op::TxAccessListAccount(warm(contract(), true, false)))
        .unwrap();
    state.push_op_reversible(&mut step, Op::Storage(store(1, 20, 10))).unwrap();
    let targets: Vec<usize> = state.frames[1].pending.iter().map(|r| r.target).collect();
    assert_eq!(targets, vec![6, 5, 4]);
    assert_eq!(slot(&state, 1), 20);

    let mut end = step_of(&state);
    assert_eq!(state.handle_return(&mut end), Ok(()));
    assert_eq!(end.bus_mapping_instance, vec![4, 5, 6]);
    assert_eq!(state.frames.len(), 1);
    assert_eq!(state.container.len(), 6);
    assert_eq!(slot(&state, 1), 0);
    assert!(!state.check_account_in_access_list(&contract()));

    let storage = &state.container.storage;
    assert_eq!(storage.len(), 4);
    assert_eq!(
        storage[2],
        Operation { rwc: 4, rw: RW::Write, reversible: false, op: store(1, 10, 20) }
    );
    assert_eq!(
        storage[3],
        Operation { rwc: 6, rw: RW::Write, reversible: false, op: store(1, 0, 10) }
    );
    assert_eq!(
        state.container.tx_access_list_account[1],
        Operation { rwc: 5, rw: RW::Write, reversible: false, op: warm(contract(), false, true) }
    );
    // The writes themselves stay as they were recorded.
    assert_eq!(
        storage[0],
        Operation { rwc: 1, rw: RW::Write, reversible: true, op: store(1, 10, 0) }
    );
    assert_eq!(
        storage[1],
        Operation { rwc: 3, rw: RW::Write, reversible: true, op: store(1, 20, 10) }
    );
}

#[test]
fn persistent_return_replays_nothing() {
    let mut state = begun();
    state.push_call(call(true, 0)).unwrap();
    let mut step = step_of(&state);
    state.push_op_reversible(&mut step, Op::Storage(store(1, 10, 0))).unwrap();
    let mut end = step_of(&state);
    assert_eq!(state.handle_return(&mut end), Ok(()));
    assert!(end.bus_mapping_instance.is_empty());
    assert_eq!(state.container.len(), 1);
    assert_eq!(slot(&state, 1), 10);
    assert_eq!(state.frames.len(), 0);
}

#[test]
fn successful_call_hands_reversals_to_reverting_caller() {
    let mut state = begun();
    state.push_call(call(true, 0)).unwrap();
    // Writes at 1 (outer), 2 and 3 (inner), 4 (outer); replay at 5..8.
    state.push_call(call(false, 8)).unwrap();
    let mut step = step_of(&state);
    state.push_op_reversible(&mut step, Op::Storage(store(1, 1, 0))).unwrap();
    state.push_call(call(true, 0)).unwrap();
    assert_eq!(state.call().unwrap().rw_counter_end_of_reversion, 7);
    let mut inner = step_of(&state);
    state.push_op_reversible(&mut inner, Op::Storage(store(2, 2, 0))).unwrap();
    state.push_op_reversible(&mut inner, Op::Storage(store(1, 3, 1))).unwrap();
    let mut inner_end = step_of(&state);
    assert_eq!(state.handle_return(&mut inner_end), Ok(()));
    assert!(inner_end.bus_mapping_instance.is_empty());
    assert_eq!(state.container.len(), 3);
    assert_eq!(state.frames.len(), 2);
    assert_eq!(state.frames[1].reversible_write_counter, 3);
    let targets: Vec<usize> = state.frames[1].pending.iter().map(|r| r.target).collect();
    assert_eq!(targets, vec![8, 7, 6]);
    state.push_op_reversible(&mut step, Op::Storage(store(2, 4, 2))).unwrap();
    assert_eq!((slot(&state, 1), slot(&state, 2)), (3, 4));

    let mut end = step_of(&state);
    assert_eq!(state.handle_return(&mut end), Ok(()));
    assert_eq!(end.bus_mapping_instance, vec![5, 6, 7, 8]);
    assert_eq!((slot(&state, 1), slot(&state, 2)), (0, 0));
    let replayed: Vec<StorageOp> = state.container.storage[4..].iter().map(|o| *o.op()).collect();
    assert_eq!(replayed, vec![store(2, 2, 4), store(1, 1, 3), store(2, 0, 2), store(1, 0, 1)]);
    for o in &state.container.storage[4..] {
        assert_eq!(o.rw(), RW::Write);
        assert!(!o.reversible());
    }
}

#[test]
fn inner_revert_comes_before_outer_revert() {
    let mut state = begun();
    state.push_call(call(true, 0)).unwrap();
    // Outer write at 1, inner write at 2, inner replay at 3, outer write at
    // 4, outer replay at 5 and 6.
    state.push_call(call(false, 6)).unwrap();
    let mut step = step_of(&state);
    state.push_op_reversible(&mut step, Op::Storage(store(1, 1, 0))).unwrap();
    state.push_call(call(false, 3)).unwrap();
    let mut inner = step_of(&state);
    state.push_op_reversible(&mut inner, Op::Storage(store(1, 2, 1))).unwrap();
    let mut inner_end = step_of(&state);
    assert_eq!(state.handle_return(&mut inner_end), Ok(()));
    assert_eq!(inner_end.bus_mapping_instance, vec![3]);
    assert_eq!(slot(&state, 1), 1);
    state.push_op_reversible(&mut step, Op::Storage(store(1, 5, 1))).unwrap();
    let mut end = step_of(&state);
    assert_eq!(state.handle_return(&mut end), Ok(()));
    assert_eq!(end.bus_mapping_instance, vec![5, 6]);
    assert_eq!(slot(&state, 1), 0);
    let all: Vec<(usize, StorageOp)> =
        state.container.storage.iter().map(|o| (o.rwc(), *o.op())).collect();
    assert_eq!(
        all,
        vec![
            (1, store(1, 1, 0)),
            (2, store(1, 2, 1)),
            (3, store(1, 1, 2)),
            (4, store(1, 5, 1)),
            (5, store(1, 1, 5)),
            (6, store(1, 0, 1)),
        ]
    );
}

#[test]
fn revert_with_wrong_end_of_reversion_fails() {
    let mut state = begun();
    state.push_call(call(true, 0)).unwrap();
    state.push_call(call(false, 9)).unwrap();
    let mut step = step_of(&state);
    state.push_op_reversible(&mut step, Op::Storage(store(1, 10, 0))).unwrap();
    let mut end = step_of(&state);
    assert_eq!(state.handle_return(&mut end), Err(Error::InvariantViolation));
    // Nothing was replayed and the call still runs.
    assert_eq!(state.container.len(), 1);
    assert_eq!(state.frames.len(), 2);
    assert_eq!(state.frames[1].pending.len(), 1);
    assert!(end.bus_mapping_instance.is_empty());
    assert_eq!(slot(&state, 1), 10);
}

#[test]
fn revert_after_more_operations_needs_a_later_end() {
    let mut state = begun();
    state.push_call(call(true, 0)).unwrap();
    // An end of reversion that would fit right after the two writes.
    state.push_call(call(false, 4)).unwrap();
    let mut step = step_of(&state);
    state.push_op_reversible(&mut step, Op::Storage(store(1, 10, 0))).unwrap();
    state.push_op_reversible(&mut step, Op::Storage(store(2, 20, 0))).unwrap();
    // Two more operations before the call ends move the replay to 5 and 6.
    state.stack_push(&mut step, Word::one()).unwrap();
    state.stack_pop(&mut step).unwrap();
    let mut end = step_of(&state);
    assert_eq!(state.handle_return(&mut end), Err(Error::InvariantViolation));
    assert_eq!(state.container.len(), 4);
    assert_eq!((slot(&state, 1), slot(&state, 2)), (10, 20));
}

#[test]
fn address_is_cold_again_after_its_warming_is_reverted() {
    let mut state = begun();
    let a = Address::new(7, 7);
    state.push_call(call(true, 0)).unwrap();
    state.push_call(call(false, 2)).unwrap();
    let mut step = step_of(&state);
    state.push_op_reversible(&mut step, Op::TxAccessListAccount(warm(a, true, false))).unwrap();
    let mut end = step_of(&state);
    state.handle_return(&mut end).unwrap();
    assert!(!state.check_account_in_access_list(&a));
    // Warm stays warm only while nothing undoes it.
    state.push_op_reversible(&mut end, Op::TxAccessListAccount(warm(a, true, false))).unwrap();
    state.push_op_reversible(&mut end, Op::TxAccessListAccount(warm(a, true, true))).unwrap();
    let prevs: Vec<(bool, bool)> = state
        .container
        .tx_access_list_account
        .iter()
        .map(|o| (o.op().is_warm, o.op().is_warm_prev))
        .collect();
    assert_eq!(prevs, vec![(true, false), (false, true), (true, false), (true, true)]);
}
