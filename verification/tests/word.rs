use bus_mapping::state_db::{empty_code_hash, Account};
use bus_mapping::word::{Address, Word};
use bus_mapping::operation::AccountField;

#[test]
fn word_constructors() {
    assert_eq!(Word::zero(), Word { hi: 0, lo: 0 });
    assert_eq!(Word::one(), Word { hi: 0, lo: 1 });
    assert_eq!(Word::from_u64(800), Word { hi: 0, lo: 800 });
    assert_eq!(Word::from_u128(u128::MAX), Word { hi: 0, lo: u128::MAX });
    assert_eq!(Word::from_usize(7), Word { hi: 0, lo: 7 });
    assert_eq!(Word::from_bool(true), Word::one());
    assert_eq!(Word::from_bool(false), Word::zero());
    assert!(Word::zero().is_zero());
    assert!(!Word::one().is_zero());
    assert!(!Word { hi: 1, lo: 0 }.is_zero());
}

#[test]
fn word_to_address_keeps_low_160_bits() {
    let w = Word { hi: 0x11223344_55667788_99aabbcc_ddeeff00, lo: 0x0123 };
    assert_eq!(w.to_address(), Address::new(0xddeeff00, 0x0123));
    assert_eq!(Word { hi: u128::MAX, lo: u128::MAX }.to_address(), Address::new(u32::MAX, u128::MAX));
    assert_eq!(Word::zero().to_address(), Address::new(0, 0));
}

#[test]
fn address_round_trips_through_word() {
    let a = Address::new(0xaabbccdd, 0xee000000_00000000_00000000_00000000);
    assert_eq!(a.to_word(), Word { hi: 0xaabbccdd, lo: 0xee000000_00000000_00000000_00000000 });
    assert_eq!(a.to_word().to_address(), a);
}

#[test]
fn empty_account_reads_zero_code_hash() {
    let zero = Account::zero();
    assert!(zero.is_empty());
    assert_eq!(zero.code_hash, empty_code_hash());
    assert_eq!(zero.field_value(AccountField::CodeHash), Word::zero());
    assert_eq!(zero.field_value(AccountField::Balance), Word::zero());
    assert_eq!(zero.field_value(AccountField::Nonce), Word::zero());
    let funded = Account { balance: Word::from_u64(1), ..zero };
    assert!(!funded.is_empty());
    assert_eq!(funded.field_value(AccountField::CodeHash), empty_code_hash());
    assert_eq!(funded.field_value(AccountField::Balance), Word::from_u64(1));
    let used = Account { nonce: Word::one(), ..zero };
    assert!(!used.is_empty());
    let coded = Account { code_hash: Word::from_u64(9), ..zero };
    assert!(!coded.is_empty());
    assert_eq!(coded.field_value(AccountField::CodeHash), Word::from_u64(9));
    assert_eq!(
        empty_code_hash(),
        Word { hi: 0xc5d2460186f7233c927e7db2dcc703c0, lo: 0xe500b653ca82273b7bfad8045d85a470 }
    );
}
