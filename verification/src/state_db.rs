//! The database of accounts and storage, with the access list of the
//! transaction under way.

use crate::operation::AccountField;
use crate::word::{Address, Word};
use vstd::prelude::*;

verus! {

/// High half of the hash of the empty byte string.
pub const EMPTY_CODE_HASH_HI: u128 = 0xc5d2460186f7233c927e7db2dcc703c0;

/// Low half of the hash of the empty byte string.
pub const EMPTY_CODE_HASH_LO: u128 = 0xe500b653ca82273b7bfad8045d85a470;

/// The code hash of an account without code.
pub open spec fn spec_empty_code_hash() -> Word {
    Word { hi: EMPTY_CODE_HASH_HI, lo: EMPTY_CODE_HASH_LO }
}

#[verifier::when_used_as_spec(spec_empty_code_hash)]
pub fn empty_code_hash() -> (w: Word)
    ensures
        w == spec_empty_code_hash(),
{
    Word { hi: EMPTY_CODE_HASH_HI, lo: EMPTY_CODE_HASH_LO }
}

/// The fields of an account that the database keeps.
#[derive(Clone, Copy, Debug, PartialEq, Eq, Structural)]
pub struct Account {
    pub nonce: Word,
    pub balance: Word,
    pub code_hash: Word,
}

impl Account {
    /// The account that the database gives for an address it does not know:
    /// no nonce, no balance, no code.
    pub open spec fn spec_zero() -> Account {
        Account {
            nonce: Word { hi: 0, lo: 0 },
            balance: Word { hi: 0, lo: 0 },
            code_hash: spec_empty_code_hash(),
        }
    }

    /// An account is empty, and so does not exist, when it has no nonce, no
    /// balance and no code.
    pub open spec fn spec_is_empty(&self) -> bool {
        &&& self.nonce == (Word { hi: 0, lo: 0 })
        &&& self.balance == (Word { hi: 0, lo: 0 })
        &&& self.code_hash == spec_empty_code_hash()
    }

    /// What a read of `field` observes: the stored nonce and balance, and the
    /// stored code hash for an account that exists, zero for one that does
    /// not.
    pub open spec fn spec_field_value(&self, field: AccountField) -> Word {
        match field {
            AccountField::Nonce => self.nonce,
            AccountField::Balance => self.balance,
            AccountField::CodeHash => if self.spec_is_empty() {
                Word { hi: 0, lo: 0 }
            } else {
                self.code_hash
            },
        }
    }

    #[verifier::when_used_as_spec(spec_zero)]
    pub fn zero() -> (a: Account)
        ensures
            a == Account::spec_zero(),
            a.spec_is_empty(),
    {
        Account { nonce: Word::zero(), balance: Word::zero(), code_hash: empty_code_hash() }
    }

    #[verifier::when_used_as_spec(spec_is_empty)]
    pub fn is_empty(&self) -> (b: bool)
        ensures
            b == self.spec_is_empty(),
    {
        self.nonce.is_zero() && self.balance.is_zero() && self.code_hash == empty_code_hash()
    }

    #[verifier::when_used_as_spec(spec_field_value)]
    pub fn field_value(&self, field: AccountField) -> (w: Word)
        ensures
            w == self.spec_field_value(field),
    {
        match field {
            AccountField::Nonce => self.nonce,
            AccountField::Balance => self.balance,
            AccountField::CodeHash => if self.is_empty() {
                Word::zero()
            } else {
                self.code_hash
            },
        }
    }
}

/// The value that an association list gives for `k`: that of the last pair
/// with this key.
pub open spec fn assoc_get<K, V>(s: Seq<(K, V)>, k: K) -> Option<V>
    decreases s.len(),
{
    if s.len() == 0 {
        None
    } else if s.last().0 == k {
        Some(s.last().1)
    } else {
        assoc_get(s.drop_last(), k)
    }
}

/// Whether `i` is the place of the last pair of `s` with key `k`.
pub open spec fn last_match<K, V>(s: Seq<(K, V)>, k: K, i: int) -> bool {
    &&& 0 <= i < s.len()
    &&& s[i].0 == k
    &&& forall|j: int| i < j < s.len() ==> (#[trigger] s[j]).0 != k
}

/// Whether no pair of `s` has key `k`.
pub open spec fn no_match<K, V>(s: Seq<(K, V)>, k: K) -> bool {
    forall|j: int| 0 <= j < s.len() ==> (#[trigger] s[j]).0 != k
}

proof fn lemma_assoc_push<K, V>(s: Seq<(K, V)>, k: K, v: V, other: K)
    ensures
        assoc_get(s.push((k, v)), other) == if other == k {
            Some(v)
        } else {
            assoc_get(s, other)
        },
{
    assert(s.push((k, v)).drop_last() =~= s);
}

proof fn lemma_assoc_found<K, V>(s: Seq<(K, V)>, k: K, i: int)
    requires
        last_match(s, k, i),
    ensures
        assoc_get(s, k) == Some(s[i].1),
    decreases s.len(),
{
    if i < s.len() - 1 {
        assert(s[s.len() - 1].0 != k);
        let rest = s.drop_last();
        assert forall|j: int| i < j < rest.len() implies (#[trigger] rest[j]).0 != k by {
            assert(rest[j] == s[j]);
        }
        lemma_assoc_found(rest, k, i);
    }
}

proof fn lemma_assoc_absent<K, V>(s: Seq<(K, V)>, k: K)
    requires
        no_match(s, k),
    ensures
        assoc_get(s, k) is None,
    decreases s.len(),
{
    if s.len() > 0 {
        assert(s[s.len() - 1].0 != k);
        let rest = s.drop_last();
        assert forall|j: int| 0 <= j < rest.len() implies (#[trigger] rest[j]).0 != k by {
            assert(rest[j] == s[j]);
        }
        lemma_assoc_absent(rest, k);
    }
}

proof fn lemma_assoc_update<K, V>(s: Seq<(K, V)>, k: K, i: int, v: V, other: K)
    requires
        last_match(s, k, i),
    ensures
        assoc_get(s.update(i, (k, v)), other) == if other == k {
            Some(v)
        } else {
            assoc_get(s, other)
        },
    decreases s.len(),
{
    let s2 = s.update(i, (k, v));
    if i == s.len() - 1 {
        assert(s2.drop_last() =~= s.drop_last());
    } else {
        assert(s[s.len() - 1].0 != k);
        let rest = s.drop_last();
        assert forall|j: int| i < j < rest.len() implies (#[trigger] rest[j]).0 != k by {
            assert(rest[j] == s[j]);
        }
        lemma_assoc_update(rest, k, i, v, other);
        assert(s2.drop_last() =~= rest.update(i, (k, v)));
        assert(s2.last() == s.last());
    }
}

/// The account and storage state at the current point of execution, with the
/// access list of the transaction under way.
pub struct StateDb {
    accounts: Vec<(Address, Account)>,
    storage: Vec<((Address, Word), Word)>,
    access_list_account: Vec<(Address, bool)>,
}

impl StateDb {
    /// Whether the database knows the address.
    pub closed spec fn has_account(&self, addr: Address) -> bool {
        assoc_get(self.accounts@, addr) is Some
    }

    /// The account at the address: the zero account where the database knows
    /// none.
    pub closed spec fn account(&self, addr: Address) -> Account {
        match assoc_get(self.accounts@, addr) {
            Some(a) => a,
            None => Account::spec_zero(),
        }
    }

    /// The value of a storage slot: zero where nothing was stored.
    pub closed spec fn storage_at(&self, addr: Address, key: Word) -> Word {
        match assoc_get(self.storage@, (addr, key)) {
            Some(v) => v,
            None => Word { hi: 0, lo: 0 },
        }
    }

    /// Whether the address is in the access list, that is, warm.
    pub closed spec fn is_warm(&self, addr: Address) -> bool {
        assoc_get(self.access_list_account@, addr) == Some(true)
    }

    /// A database without accounts, storage or warm addresses.
    pub fn new() -> (db: StateDb)
        ensures
            forall|a: Address| !#[trigger] db.has_account(a),
            forall|a: Address| #[trigger] db.account(a) == Account::spec_zero(),
            forall|a: Address, k: Word| #[trigger] db.storage_at(a, k) == (Word { hi: 0, lo: 0 }),
            forall|a: Address| !#[trigger] db.is_warm(a),
    {
        StateDb { accounts: Vec::new(), storage: Vec::new(), access_list_account: Vec::new() }
    }

    fn find_account(&self, addr: &Address) -> (r: Option<usize>)
        ensures
            r is Some ==> last_match(self.accounts@, *addr, r->0 as int),
            r is None ==> no_match(self.accounts@, *addr),
    {
        let mut i: usize = self.accounts.len();
        while i > 0
            invariant
                i <= self.accounts@.len(),
                forall|j: int| i <= j < self.accounts@.len() ==> (#[trigger] self.accounts@[j]).0 != *addr,
            decreases i,
        {
            i = i - 1;
            if self.accounts[i].0 == *addr {
                return Some(i);
            }
        }
        None
    }

    fn find_storage(&self, addr: &Address, key: &Word) -> (r: Option<usize>)
        ensures
            r is Some ==> last_match(self.storage@, (*addr, *key), r->0 as int),
            r is None ==> no_match(self.storage@, (*addr, *key)),
    {
        let mut i: usize = self.storage.len();
        while i > 0
            invariant
                i <= self.storage@.len(),
                forall|j: int| i <= j < self.storage@.len() ==> (#[trigger] self.storage@[j]).0 != (*addr, *key),
            decreases i,
        {
            i = i - 1;
            if (self.storage[i].0).0 == *addr && (self.storage[i].0).1 == *key {
                return Some(i);
            }
        }
        None
    }

    fn find_access(&self, addr: &Address) -> (r: Option<usize>)
        ensures
            r is Some ==> last_match(self.access_list_account@, *addr, r->0 as int),
            r is None ==> no_match(self.access_list_account@, *addr),
    {
        let mut i: usize = self.access_list_account.len();
        while i > 0
            invariant
                i <= self.access_list_account@.len(),
                forall|j: int| i <= j < self.access_list_account@.len() ==> (#[trigger] self.access_list_account@[j]).0 != *addr,
            decreases i,
        {
            i = i - 1;
            if self.access_list_account[i].0 == *addr {
                return Some(i);
            }
        }
        None
    }

    /// Whether the database knows the address, and the account there: the
    /// zero account where it knows none. An unknown address is no error.
    pub fn get_account(&self, addr: &Address) -> (r: (bool, Account))
        ensures
            r.0 == self.has_account(*addr),
            r.1 == self.account(*addr),
    {
        match self.find_account(addr) {
            Some(i) => {
                proof {
                    lemma_assoc_found(self.accounts@, *addr, i as int);
                }
                (true, self.accounts[i].1)
            },
            None => {
                proof {
                    lemma_assoc_absent(self.accounts@, *addr);
                }
                (false, Account::zero())
            },
        }
    }

    /// Puts `account` at the address; every other account, the storage and
    /// the access list stay as they are.
    pub fn set_account(&mut self, addr: &Address, account: Account)
        ensures
            final(self).has_account(*addr),
            final(self).account(*addr) == account,
            forall|a: Address| a != *addr ==> #[trigger] final(self).account(a) == old(self).account(a),
            forall|a: Address|
                a != *addr ==> #[trigger] final(self).has_account(a) == old(self).has_account(a),
            forall|a: Address, k: Word| #[trigger]
                final(self).storage_at(a, k) == old(self).storage_at(a, k),
            forall|a: Address| #[trigger] final(self).is_warm(a) == old(self).is_warm(a),
    {
        let ghost before = self.accounts@;
        match self.find_account(addr) {
            Some(i) => {
                self.accounts.set(i, (*addr, account));
                assert forall|a: Address| true implies assoc_get(self.accounts@, a) == if a == *addr {
                    Some(account)
                } else {
                    assoc_get(before, a)
                } by {
                    lemma_assoc_update(before, *addr, i as int, account, a);
                }
            },
            None => {
                self.accounts.push((*addr, account));
                assert forall|a: Address| true implies assoc_get(self.accounts@, a) == if a == *addr {
                    Some(account)
                } else {
                    assoc_get(before, a)
                } by {
                    lemma_assoc_push(before, *addr, account, a);
                }
            },
        }
    }

    /// The value of a storage slot: zero where nothing was stored.
    pub fn get_storage(&self, addr: &Address, key: &Word) -> (v: Word)
        ensures
            v == self.storage_at(*addr, *key),
    {
        match self.find_storage(addr, key) {
            Some(i) => {
                proof {
                    lemma_assoc_found(self.storage@, (*addr, *key), i as int);
                }
                self.storage[i].1
            },
            None => {
                proof {
                    lemma_assoc_absent(self.storage@, (*addr, *key));
                }
                Word::zero()
            },
        }
    }

    /// Stores `value` in a storage slot; every other slot, the accounts and
    /// the access list stay as they are.
    pub fn set_storage(&mut self, addr: &Address, key: &Word, value: Word)
        ensures
            final(self).storage_at(*addr, *key) == value,
            forall|a: Address, k: Word|
                (a != *addr || k != *key) ==> #[trigger] final(self).storage_at(a, k) == old(
                    self,
                ).storage_at(a, k),
            forall|a: Address| #[trigger] final(self).account(a) == old(self).account(a),
            forall|a: Address| #[trigger] final(self).has_account(a) == old(self).has_account(a),
            forall|a: Address| #[trigger] final(self).is_warm(a) == old(self).is_warm(a),
    {
        let ghost before = self.storage@;
        match self.find_storage(addr, key) {
            Some(i) => {
                self.storage.set(i, ((*addr, *key), value));
                assert forall|a: Address, k: Word| true implies assoc_get(self.storage@, (a, k))
                    == if (a, k) == (*addr, *key) {
                    Some(value)
                } else {
                    assoc_get(before, (a, k))
                } by {
                    lemma_assoc_update(before, (*addr, *key), i as int, value, (a, k));
                }
            },
            None => {
                self.storage.push(((*addr, *key), value));
                assert forall|a: Address, k: Word| true implies assoc_get(self.storage@, (a, k))
                    == if (a, k) == (*addr, *key) {
                    Some(value)
                } else {
                    assoc_get(before, (a, k))
                } by {
                    lemma_assoc_push(before, (*addr, *key), value, (a, k));
                }
            },
        }
    }

    /// Whether the address is warm in the transaction under way.
    pub fn check_account_in_access_list(&self, addr: &Address) -> (b: bool)
        ensures
            b == self.is_warm(*addr),
    {
        match self.find_access(addr) {
            Some(i) => {
                proof {
                    lemma_assoc_found(self.access_list_account@, *addr, i as int);
                }
                self.access_list_account[i].1
            },
            None => {
                proof {
                    lemma_assoc_absent(self.access_list_account@, *addr);
                }
                false
            },
        }
    }

    /// Makes the address warm or cold; every other address, the accounts and
    /// the storage stay as they are.
    pub fn set_account_warm(&mut self, addr: &Address, warm: bool)
        ensures
            final(self).is_warm(*addr) == warm,
            forall|a: Address| a != *addr ==> #[trigger] final(self).is_warm(a) == old(self).is_warm(a),
            forall|a: Address| #[trigger] final(self).account(a) == old(self).account(a),
            forall|a: Address| #[trigger] final(self).has_account(a) == old(self).has_account(a),
            forall|a: Address, k: Word| #[trigger]
                final(self).storage_at(a, k) == old(self).storage_at(a, k),
    {
        let ghost before = self.access_list_account@;
        match self.find_access(addr) {
            Some(i) => {
                self.access_list_account.set(i, (*addr, warm));
                assert forall|a: Address| true implies assoc_get(self.access_list_account@, a)
                    == if a == *addr {
                    Some(warm)
                } else {
                    assoc_get(before, a)
                } by {
                    lemma_assoc_update(before, *addr, i as int, warm, a);
                }
            },
            None => {
                self.access_list_account.push((*addr, warm));
                assert forall|a: Address| true implies assoc_get(self.access_list_account@, a)
                    == if a == *addr {
                    Some(warm)
                } else {
                    assoc_get(before, a)
                } by {
                    lemma_assoc_push(before, *addr, warm, a);
                }
            },
        }
    }

    /// Makes the address warm, and says whether it was cold before.
    pub fn add_account_to_access_list(&mut self, addr: &Address) -> (was_cold: bool)
        ensures
            was_cold == !old(self).is_warm(*addr),
            final(self).is_warm(*addr),
            forall|a: Address| a != *addr ==> #[trigger] final(self).is_warm(a) == old(self).is_warm(a),
            forall|a: Address| #[trigger] final(self).account(a) == old(self).account(a),
            forall|a: Address| #[trigger] final(self).has_account(a) == old(self).has_account(a),
            forall|a: Address, k: Word| #[trigger]
                final(self).storage_at(a, k) == old(self).storage_at(a, k),
    {
        let warm = self.check_account_in_access_list(addr);
        self.set_account_warm(addr, true);
        !warm
    }

    /// Makes the address cold again.
    pub fn remove_account_from_access_list(&mut self, addr: &Address)
        ensures
            !final(self).is_warm(*addr),
            forall|a: Address| a != *addr ==> #[trigger] final(self).is_warm(a) == old(self).is_warm(a),
            forall|a: Address| #[trigger] final(self).account(a) == old(self).account(a),
            forall|a: Address| #[trigger] final(self).has_account(a) == old(self).has_account(a),
            forall|a: Address, k: Word| #[trigger]
                final(self).storage_at(a, k) == old(self).storage_at(a, k),
    {
        self.set_account_warm(addr, false);
    }

    /// Empties the access list, as the end of a transaction does; accounts
    /// and storage stay as they are.
    pub fn clear_access_list(&mut self)
        ensures
            forall|a: Address| !#[trigger] final(self).is_warm(a),
            forall|a: Address| #[trigger] final(self).account(a) == old(self).account(a),
            forall|a: Address| #[trigger] final(self).has_account(a) == old(self).has_account(a),
            forall|a: Address, k: Word| #[trigger]
                final(self).storage_at(a, k) == old(self).storage_at(a, k),
    {
        self.access_list_account = Vec::new();
    }
}

} // verus!
