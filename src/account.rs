use vstd::prelude::*;
use vstd::utf8::encode_utf8;
use crate::contract::{lemma_wf_ledger_frame, AccountRecord, Contract};
use crate::room::RoomError;
use crate::storage_tracker::StorageTracker;

verus! {

/// The price of one byte of storage.
pub const STORAGE_PRICE_PER_BYTE: u128 = 10_000_000_000_000_000_000;

/// The bytes that the smallest balance of a new account covers.
pub const MIN_STORAGE_BYTES: u64 = 2000;

/// The smallest deposit that opens an account.
pub const MIN_STORAGE_BALANCE: u128 = 20_000_000_000_000_000_000_000;

/// Bounds on an account's storage balance.
#[derive(Debug, Clone, Copy, PartialEq, Eq, Structural)]
pub struct StorageBalanceBounds {
    pub min: u128,
    pub max: Option<u128>,
}

/// A storage account: the balance paid in and the bytes charged to it.
#[derive(Debug, Clone, Copy, PartialEq, Eq, Structural)]
pub struct Account {
    pub storage_balance: u128,
    pub used_bytes: u64,
    pub storage_tracker: StorageTracker,
}

pub open spec fn is_separator(c: u8) -> bool {
    c == 45u8 || c == 95u8 || c == 46u8
}

pub open spec fn is_id_char(c: u8) -> bool {
    (97u8 <= c <= 122u8) || (48u8 <= c <= 57u8)
}

/// A NEAR account id: 2 to 64 bytes of lower-case letters and digits,
/// separated by single `-`, `_` or `.`, neither first nor last.
pub open spec fn valid_account_id(b: Seq<u8>) -> bool {
    &&& 2 <= b.len() <= 64
    &&& forall|i: int| 0 <= i < b.len() ==> is_id_char(#[trigger] b[i]) || is_separator(b[i])
    &&& !is_separator(b[0])
    &&& !is_separator(b[b.len() - 1])
    &&& forall|i: int| 0 <= i < b.len() - 1 ==> !(is_separator(#[trigger] b[i]) && is_separator(b[i + 1]))
}

/// Relies on near_sdk::env::is_valid_account_id: checks the id's UTF-8
/// bytes against the account-id rule.
#[verifier::external_body]
fn is_valid_account_id(account_id: &String) -> (r: bool)
    ensures
        r == valid_account_id(encode_utf8(account_id@)),
{
    near_sdk::env::is_valid_account_id(account_id.as_bytes())
}

impl Account {
    /// The balance pays for every byte charged.
    pub open spec fn is_covered(&self) -> bool {
        self.used_bytes * STORAGE_PRICE_PER_BYTE <= self.storage_balance
    }

    pub fn new() -> (r: Account)
        ensures
            r.storage_balance == 0,
            r.used_bytes == 0,
            r.storage_tracker.bytes_added == 0,
            r.storage_tracker.bytes_released == 0,
            !r.storage_tracker.is_active,
    {
        Account { storage_balance: 0, used_bytes: 0, storage_tracker: StorageTracker::new() }
    }

    pub fn start_storage_tracker(&mut self)
        requires
            !old(self).storage_tracker.is_active,
        ensures
            final(self).storage_tracker.is_active,
            final(self).storage_tracker.bytes_added == 0,
            final(self).storage_tracker.bytes_released == 0,
            final(self).storage_balance == old(self).storage_balance,
            final(self).used_bytes == old(self).used_bytes,
    {
        self.storage_tracker.start();
    }

    pub fn stop_storage_tracker(&mut self)
        requires
            old(self).storage_tracker.is_active,
        ensures
            *final(self) == (Account {
                storage_tracker: StorageTracker { is_active: false, ..old(self).storage_tracker },
                ..*old(self)
            }),
    {
        self.storage_tracker.stop();
    }

    pub fn is_storage_covered(&self) -> (r: bool)
        ensures
            r == self.is_covered(),
    {
        let needed: u128 = self.used_bytes as u128 * STORAGE_PRICE_PER_BYTE;
        needed <= self.storage_balance
    }

    /// What `reconcile` gives on this account.
    pub open spec fn reconcile_outcome(&self) -> Result<Account, RoomError> {
        let t = self.storage_tracker;
        let used = self.used_bytes + t.bytes_added - t.bytes_released;
        let done = Account {
            used_bytes: used as u64,
            storage_tracker: StorageTracker { bytes_added: 0, bytes_released: 0, ..t },
            ..*self
        };
        if t.bytes_added > t.bytes_released {
            if used <= u64::MAX && used * STORAGE_PRICE_PER_BYTE <= self.storage_balance {
                Ok(done)
            } else {
                Err(RoomError::StorageLimitExceeded)
            }
        } else if used < 0 {
            Err(RoomError::AccountingBug)
        } else {
            Ok(done)
        }
    }

    /// Moves the tracker's net count into `used_bytes` and zeroes the tracker.
    /// On an error the account is left as it was.
    pub fn reconcile(&mut self) -> (r: Result<(), RoomError>)
        requires
            !old(self).storage_tracker.is_active,
        ensures
            match old(self).reconcile_outcome() {
                Ok(a) => r is Ok && *final(self) == a,
                Err(e) => r == Err::<(), RoomError>(e) && *final(self) == *old(self),
            },
    {
        let added = self.storage_tracker.bytes_added;
        let released = self.storage_tracker.bytes_released;
        if added > released {
            let extra: u64 = added - released;
            if extra > u64::MAX - self.used_bytes {
                return Err(RoomError::StorageLimitExceeded);
            }
            let used: u64 = self.used_bytes + extra;
            let needed: u128 = used as u128 * STORAGE_PRICE_PER_BYTE;
            if needed > self.storage_balance {
                return Err(RoomError::StorageLimitExceeded);
            }
            self.used_bytes = used;
        } else if added < released {
            let freed: u64 = released - added;
            if self.used_bytes < freed {
                return Err(RoomError::AccountingBug);
            }
            self.used_bytes = self.used_bytes - freed;
        }
        self.storage_tracker.reset();
        Ok(())
    }
}

impl Contract {
    /// Where the account of `id` stands in the ledger.
    fn find_account(&self, id: &String) -> (r: Option<usize>)
        requires
            self.accounts_wf(),
        ensures
            match r {
                Some(i) => i < self.accounts@.len() && self.accounts@[i as int].account_id@ == id@
                    && self.account_of(id@) == Some(self.accounts@[i as int].account),
                None => self.account_of(id@) is None,
            },
    {
        let mut i: usize = 0;
        while i < self.accounts.len()
            invariant
                self.accounts_wf(),
                i <= self.accounts@.len(),
                forall|j: int| 0 <= j < i ==> #[trigger] self.accounts@[j].account_id@ != id@,
            decreases self.accounts@.len() - i,
        {
            if self.accounts[i].account_id == *id {
                proof {
                    let p = choose|p: int| 0 <= p < self.accounts@.len() && #[trigger] self.accounts@[p].account_id@ == id@;
                    if p != i as int {
                        assert(self.accounts@[p].account_id@ != self.accounts@[i as int].account_id@);
                    }
                }
                return Some(i);
            }
            i = i + 1;
        }
        None
    }

    /// Writes `account` under `id`; says whether one was there before.
    fn store_account(&mut self, id: &String, account: Account) -> (existed: bool)
        requires
            old(self).accounts_wf(),
            account.is_covered(),
            !account.storage_tracker.is_active,
        ensures
            final(self).accounts_wf(),
            existed == old(self).account_of(id@) is Some,
            final(self).account_of(id@) == Some(account),
            forall|x: Seq<char>| x != id@ ==> final(self).account_of(x) == old(self).account_of(x),
            final(self).rooms == old(self).rooms,
            final(self).apps == old(self).apps,
            final(self).next_room_id == old(self).next_room_id,
    {
        let found = self.find_account(id);
        match found {
            Some(i) => {
                self.accounts[i].account = account;
                assert(self.accounts@[i as int].account_id@ == id@);
                assert forall|x: Seq<char>| x != id@ implies self.account_of(x) == old(self).account_of(x) by {
                    if exists|j: int| 0 <= j < self.accounts@.len() && #[trigger] self.accounts@[j].account_id@ == x {
                        let j = choose|j: int| 0 <= j < self.accounts@.len() && #[trigger] self.accounts@[j].account_id@ == x;
                        assert(old(self).accounts@[j].account_id@ == x);
                    }
                    if exists|j: int| 0 <= j < old(self).accounts@.len() && #[trigger] old(self).accounts@[j].account_id@ == x {
                        let j = choose|j: int| 0 <= j < old(self).accounts@.len() && #[trigger] old(self).accounts@[j].account_id@ == x;
                        assert(self.accounts@[j].account_id@ == x);
                    }
                }
                true
            },
            None => {
                self.accounts.push(AccountRecord { account_id: id.clone(), account });
                let ghost n = old(self).accounts@.len() as int;
                assert(self.accounts@[n].account_id@ == id@);
                assert forall|x: Seq<char>| x != id@ implies self.account_of(x) == old(self).account_of(x) by {
                    if exists|j: int| 0 <= j < self.accounts@.len() && #[trigger] self.accounts@[j].account_id@ == x {
                        let j = choose|j: int| 0 <= j < self.accounts@.len() && #[trigger] self.accounts@[j].account_id@ == x;
                        assert(old(self).accounts@[j].account_id@ == x);
                    }
                    if exists|j: int| 0 <= j < old(self).accounts@.len() && #[trigger] old(self).accounts@[j].account_id@ == x {
                        let j = choose|j: int| 0 <= j < old(self).accounts@.len() && #[trigger] old(self).accounts@[j].account_id@ == x;
                        assert(self.accounts@[j].account_id@ == x);
                    }
                }
                proof {
                    let p = choose|p: int| 0 <= p < self.accounts@.len() && #[trigger] self.accounts@[p].account_id@ == id@;
                    if p != n {
                        assert(old(self).accounts@[p].account_id@ == id@);
                    }
                }
                false
            },
        }
    }

    /// The account of `account_id`.
    pub fn internal_get_account(&self, account_id: &String) -> (r: Result<Account, RoomError>)
        requires
            self.wf(),
        ensures
            match self.account_of(account_id@) {
                Some(a) => r == Ok::<Account, RoomError>(a),
                None => r == Err::<Account, RoomError>(RoomError::NotFound),
            },
    {
        match self.find_account(account_id) {
            Some(i) => Ok(self.accounts[i].account),
            None => Err(RoomError::NotFound),
        }
    }

    pub fn storage_balance_bounds(&self) -> (r: StorageBalanceBounds)
        ensures
            r.min == MIN_STORAGE_BALANCE,
            r.max is None,
    {
        StorageBalanceBounds { min: MIN_STORAGE_BALANCE, max: None }
    }

    /// What `internal_unwrap_account_or_create` gives.
    pub open spec fn account_or_create_outcome(&self, id: Seq<char>, deposit: u128) -> Result<Account, RoomError> {
        if !valid_account_id(encode_utf8(id)) {
            Err(RoomError::InvalidAccountId)
        } else {
            match self.account_of(id) {
                Some(a) => if a.storage_balance + deposit > u128::MAX {
                    Err(RoomError::BalanceOverflow)
                } else {
                    Ok(Account { storage_balance: (a.storage_balance + deposit) as u128, ..a })
                },
                None => if deposit < MIN_STORAGE_BALANCE {
                    Err(RoomError::InsufficientDeposit)
                } else {
                    Ok(Account {
                        storage_balance: deposit,
                        used_bytes: 0,
                        storage_tracker: StorageTracker { bytes_added: 0, bytes_released: 0, is_active: false },
                    })
                },
            }
        }
    }

    /// The account of `account_id` with `storage_deposit` paid in, or a new
    /// one funded by it; stores nothing.
    pub(crate) fn account_or_create(&self, account_id: &String, storage_deposit: u128) -> (r: Result<Account, RoomError>)
        requires
            self.wf(),
        ensures
            r == self.account_or_create_outcome(account_id@, storage_deposit),
            r is Ok ==> r->Ok_0.is_covered() && !r->Ok_0.storage_tracker.is_active,
    {
        if !is_valid_account_id(account_id) {
            return Err(RoomError::InvalidAccountId);
        }
        match self.find_account(account_id) {
            Some(i) => {
                let mut account = self.accounts[i].account;
                assert(account.is_covered());
                if storage_deposit > u128::MAX - account.storage_balance {
                    return Err(RoomError::BalanceOverflow);
                }
                account.storage_balance = account.storage_balance + storage_deposit;
                Ok(account)
            },
            None => {
                if storage_deposit < MIN_STORAGE_BALANCE {
                    return Err(RoomError::InsufficientDeposit);
                }
                let mut account = Account::new();
                account.storage_balance = storage_deposit;
                Ok(account)
            },
        }
    }

    /// The account of `account_id` with `storage_deposit` paid in (the
    /// ledger keeps the stored one until `internal_set_account`), or a new
    /// account funded by the deposit, which is stored at once.
    pub fn internal_unwrap_account_or_create(&mut self, account_id: &String, storage_deposit: u128) -> (r: Result<Account, RoomError>)
        requires
            old(self).wf(),
        ensures
            final(self).wf(),
            r == old(self).account_or_create_outcome(account_id@, storage_deposit),
            r is Err || old(self).account_of(account_id@) is Some ==> *final(self) == *old(self),
            r is Ok && old(self).account_of(account_id@) is None ==> {
                &&& final(self).account_of(account_id@) == Some(r->Ok_0)
                &&& forall|x: Seq<char>| x != account_id@ ==> #[trigger] final(self).account_of(x) == old(self).account_of(x)
                &&& final(self).rooms == old(self).rooms
                &&& final(self).apps == old(self).apps
                &&& final(self).next_room_id == old(self).next_room_id
            },
    {
        let existed = self.find_account(account_id).is_some();
        let account = match self.account_or_create(account_id, storage_deposit) {
            Ok(a) => a,
            Err(e) => return Err(e),
        };
        if !existed {
            self.store_account(account_id, account);
            proof {
                lemma_wf_ledger_frame(old(self), self);
            }
        }
        Ok(account)
    }

    /// Opens the account of `account_id` with `storage_deposit`. With
    /// `registration_only` it keeps the minimum and returns the rest as the
    /// refund; otherwise it keeps all and the refund is zero. An account
    /// that exists already is left as it is, and the whole deposit is the
    /// refund.
    pub fn internal_create_account(&mut self, account_id: &String, storage_deposit: u128, registration_only: bool) -> (r: Result<u128, RoomError>)
        requires
            old(self).wf(),
        ensures
            final(self).wf(),
            storage_deposit < MIN_STORAGE_BALANCE ==> r == Err::<u128, RoomError>(RoomError::InsufficientDeposit) && *final(self) == *old(self),
            storage_deposit >= MIN_STORAGE_BALANCE && old(self).account_of(account_id@) is Some
                ==> r == Ok::<u128, RoomError>(storage_deposit) && *final(self) == *old(self),
            storage_deposit >= MIN_STORAGE_BALANCE && old(self).account_of(account_id@) is None ==> {
                let kept = if registration_only { MIN_STORAGE_BALANCE } else { storage_deposit };
                &&& r == Ok::<u128, RoomError>((storage_deposit - kept) as u128)
                &&& final(self).account_of(account_id@) == Some(Account {
                        storage_balance: kept,
                        used_bytes: 0,
                        storage_tracker: StorageTracker { bytes_added: 0, bytes_released: 0, is_active: false },
                    })
                &&& forall|x: Seq<char>| x != account_id@ ==> final(self).account_of(x) == old(self).account_of(x)
                &&& final(self).rooms == old(self).rooms
                &&& final(self).apps == old(self).apps
                &&& final(self).next_room_id == old(self).next_room_id
            },
    {
        let min_balance = self.storage_balance_bounds().min;
        if storage_deposit < min_balance {
            return Err(RoomError::InsufficientDeposit);
        }
        if self.find_account(account_id).is_some() {
            return Ok(storage_deposit);
        }
        let mut account = Account::new();
        let refund: u128;
        if registration_only {
            refund = storage_deposit - min_balance;
            account.storage_balance = min_balance;
        } else {
            refund = 0;
            account.storage_balance = storage_deposit;
        }
        self.store_account(account_id, account);
        proof {
            lemma_wf_ledger_frame(old(self), self);
        }
        Ok(refund)
    }

    /// Reconciles `account`'s tracker and, if that succeeds, stores it under
    /// `account_id`; returns whether an account was there before. On an
    /// error nothing changes.
    pub fn internal_set_account(&mut self, account_id: &String, account: Account) -> (r: Result<bool, RoomError>)
        requires
            old(self).wf(),
            account.is_covered(),
            !account.storage_tracker.is_active,
        ensures
            final(self).wf(),
            match account.reconcile_outcome() {
                Ok(a) => {
                    &&& r == Ok::<bool, RoomError>(old(self).account_of(account_id@) is Some)
                    &&& final(self).account_of(account_id@) == Some(a)
                    &&& forall|x: Seq<char>| x != account_id@ ==> final(self).account_of(x) == old(self).account_of(x)
                    &&& final(self).rooms == old(self).rooms
                    &&& final(self).apps == old(self).apps
                    &&& final(self).next_room_id == old(self).next_room_id
                },
                Err(e) => r == Err::<bool, RoomError>(e) && *final(self) == *old(self),
            },
    {
        let ghost given = account;
        let mut account = account;
        match account.reconcile() {
            Ok(()) => {},
            Err(e) => return Err(e),
        }
        proof {
            lemma_reconcile_keeps_cover(given);
        }
        let existed = self.store_account(account_id, account);
        proof {
            lemma_wf_ledger_frame(old(self), self);
        }
        Ok(existed)
    }
}

/// A covered account stays covered through a successful reconciliation
/// that releases bytes.
pub proof fn lemma_reconcile_keeps_cover(a: Account)
    requires
        a.is_covered(),
        a.reconcile_outcome() is Ok,
    ensures
        a.reconcile_outcome()->Ok_0.is_covered(),
{
    let b = a.reconcile_outcome()->Ok_0;
    if a.storage_tracker.bytes_added <= a.storage_tracker.bytes_released {
        assert(b.used_bytes <= a.used_bytes);
        assert(b.used_bytes * STORAGE_PRICE_PER_BYTE <= a.used_bytes * STORAGE_PRICE_PER_BYTE) by (nonlinear_arith)
            requires b.used_bytes <= a.used_bytes;
    }
}

} // verus!
