use bus_mapping::state_db::{empty_code_hash, Account, StateDb};
use bus_mapping::word::{Address, Word};

fn account(balance: u64) -> Account {
    Account { nonce: Word::one(), balance: Word::from_u64(balance), code_hash: empty_code_hash() }
}

#[test]
fn unknown_address_is_the_zero_account() {
    let db = StateDb::new();
    let (found, acc) = db.get_account(&Address::new(1, 2));
    assert!(!found);
    assert_eq!(acc, Account::zero());
    assert!(acc.is_empty());
}

#[test]
fn set_account_replaces_only_its_address() {
    let mut db = StateDb::new();
    let a = Address::new(0, 1);
    let b = Address::new(0, 2);
    let c = Address::new(1, 1);
    db.set_account(&a, account(10));
    db.set_account(&b, account(20));
    db.set_account(&a, account(30));
    assert_eq!(db.get_account(&a), (true, account(30)));
    assert_eq!(db.get_account(&b), (true, account(20)));
    assert_eq!(db.get_account(&c), (false, Account::zero()));
    db.set_account(&b, account(40));
    assert_eq!(db.get_account(&a), (true, account(30)));
    assert_eq!(db.get_account(&b), (true, account(40)));
}

#[test]
fn storage_defaults_to_zero_and_is_keyed_by_address_and_slot() {
    let mut db = StateDb::new();
    let a = Address::new(0, 1);
    let b = Address::new(0, 2);
    let k1 = Word::from_u64(1);
    let k2 = Word { hi: 1, lo: 1 };
    assert_eq!(db.get_storage(&a, &k1), Word::zero());
    db.set_storage(&a, &k1, Word::from_u64(11));
    db.set_storage(&a, &k2, Word::from_u64(12));
    db.set_storage(&b, &k1, Word::from_u64(21));
    db.set_storage(&a, &k1, Word::from_u64(13));
    assert_eq!(db.get_storage(&a, &k1), Word::from_u64(13));
    assert_eq!(db.get_storage(&a, &k2), Word::from_u64(12));
    assert_eq!(db.get_storage(&b, &k1), Word::from_u64(21));
    assert_eq!(db.get_storage(&b, &k2), Word::zero());
    assert_eq!(db.get_account(&a), (false, Account::zero()));
}

#[test]
fn access_list_warms_cools_and_clears() {
    let mut db = StateDb::new();
    let a = Address::new(0, 1);
    let b = Address::new(0, 2);
    assert!(!db.check_account_in_access_list(&a));
    assert!(db.add_account_to_access_list(&a));
    assert!(!db.add_account_to_access_list(&a));
    assert!(db.check_account_in_access_list(&a));
    assert!(!db.check_account_in_access_list(&b));
    db.remove_account_from_access_list(&a);
    assert!(!db.check_account_in_access_list(&a));
    assert!(db.add_account_to_access_list(&a));
    assert!(db.add_account_to_access_list(&b));
    db.set_account_warm(&b, false);
    assert!(!db.check_account_in_access_list(&b));
    db.set_account(&a, account(1));
    db.clear_access_list();
    assert!(!db.check_account_in_access_list(&a));
    assert_eq!(db.get_account(&a), (true, account(1)));
}
