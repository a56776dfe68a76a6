use bus_mapping::container::{OperationContainer, OperationRef};
use bus_mapping::operation::{
    AccountField, AccountOp, CallContextField, CallContextOp, MemoryOp, Op, Operation, StackOp,
    StorageOp, Target, TxAccessListAccountOp, RW,
};
use bus_mapping::word::{Address, Word};

fn stack_op(value: u64) -> Op {
    Op::Stack(StackOp { call_id: 1, address: 1023, value: Word::from_u64(value) })
}

fn storage_op(value: u64, value_prev: u64) -> Op {
    Op::Storage(StorageOp {
        address: Address::new(0, 1),
        key: Word::from_u64(2),
        value: Word::from_u64(value),
        value_prev: Word::from_u64(value_prev),
        tx_id: 1,
    })
}

fn one_of_each() -> Vec<Op> {
    vec![
        stack_op(1),
        Op::Memory(MemoryOp { call_id: 1, address: 0, value: 9 }),
        storage_op(5, 0),
        Op::Account(AccountOp {
            address: Address::new(0, 1),
            field: AccountField::Nonce,
            value: Word::one(),
            value_prev: Word::one(),
        }),
        Op::CallContext(CallContextOp {
            call_id: 1,
            field: CallContextField::Depth,
            value: Word::one(),
        }),
        Op::TxAccessListAccount(TxAccessListAccountOp {
            tx_id: 1,
            address: Address::new(0, 1),
            is_warm: true,
            is_warm_prev: false,
        }),
    ]
}

#[test]
fn container_starts_empty() {
    let c = OperationContainer::new();
    assert_eq!(c.len(), 0);
    assert!(c.order.is_empty());
    assert!(c.stack.is_empty());
    assert!(c.memory.is_empty());
    assert!(c.storage.is_empty());
    assert!(c.account.is_empty());
    assert!(c.call_context.is_empty());
    assert!(c.tx_access_list_account.is_empty());
    assert_eq!(c.get(0), None);
    assert_eq!(c.get(1), None);
    assert_eq!(c.locate(1), None);
}

#[test]
fn container_numbers_from_one_without_gaps() {
    let mut c = OperationContainer::new();
    let mut last = 0;
    for round in 0..3 {
        for op in one_of_each() {
            let seq = c.append(RW::Write, round == 1, op);
            assert_eq!(seq, last + 1);
            assert!(seq > last);
            last = seq;
        }
    }
    assert_eq!(c.len(), 18);
    for seq in 1..=18 {
        assert_eq!(c.get(seq).unwrap().rwc, seq);
    }
    assert_eq!(c.get(19), None);
    assert_eq!(c.get(0), None);
}

#[test]
fn container_keeps_one_collection_per_kind() {
    let mut c = OperationContainer::new();
    for op in one_of_each() {
        c.append(RW::Read, false, op);
    }
    c.append(RW::Write, false, stack_op(2));
    assert_eq!(c.stack.len(), 2);
    assert_eq!(c.memory.len(), 1);
    assert_eq!(c.storage.len(), 1);
    assert_eq!(c.account.len(), 1);
    assert_eq!(c.call_context.len(), 1);
    assert_eq!(c.tx_access_list_account.len(), 1);
    assert_eq!(c.stack[0].rwc(), 1);
    assert_eq!(c.stack[1].rwc(), 7);
    assert_eq!(c.memory[0].rwc(), 2);
    assert_eq!(c.storage[0].rwc(), 3);
    assert_eq!(c.account[0].rwc(), 4);
    assert_eq!(c.call_context[0].rwc(), 5);
    assert_eq!(c.tx_access_list_account[0].rwc(), 6);
    assert_eq!(c.locate(7), Some(OperationRef { target: Target::Stack, index: 1 }));
    assert_eq!(c.locate(3), Some(OperationRef { target: Target::Storage, index: 0 }));
    assert_eq!(c.at(OperationRef { target: Target::Stack, index: 2 }), None);
    assert_eq!(c.at(OperationRef { target: Target::Memory, index: 1 }), None);
}

#[test]
fn container_never_changes_what_it_holds() {
    let mut c = OperationContainer::new();
    let first = c.append(RW::Write, true, storage_op(5, 0));
    let recorded = c.get(first).unwrap();
    assert_eq!(
        recorded,
        Operation { rwc: 1, rw: RW::Write, reversible: true, op: storage_op(5, 0) }
    );
    for op in one_of_each() {
        c.append(RW::Read, false, op);
    }
    c.append(RW::Write, false, storage_op(0, 5));
    assert_eq!(c.get(first), Some(recorded));
    assert_eq!(c.storage[0].op().value, Word::from_u64(5));
    assert!(c.storage[0].reversible());
}

#[test]
fn operation_target_and_inverse() {
    let kinds: Vec<Target> = one_of_each().iter().map(|op| op.target()).collect();
    assert_eq!(
        kinds,
        vec![
            Target::Stack,
            Target::Memory,
            Target::Storage,
            Target::Account,
            Target::CallContext,
            Target::TxAccessListAccount
        ]
    );
    assert_eq!(storage_op(5, 3).inverse(), storage_op(3, 5));
    assert_eq!(storage_op(5, 3).inverse().inverse(), storage_op(5, 3));
    let warm = Op::TxAccessListAccount(TxAccessListAccountOp {
        tx_id: 1,
        address: Address::new(0, 1),
        is_warm: true,
        is_warm_prev: false,
    });
    assert_eq!(
        warm.inverse(),
        Op::TxAccessListAccount(TxAccessListAccountOp {
            tx_id: 1,
            address: Address::new(0, 1),
            is_warm: false,
            is_warm_prev: true,
        })
    );
    assert_eq!(stack_op(1).inverse(), stack_op(1));
}
