//! The ownership index: for every principal, its keys by bucket and whether
//! its account is frozen.

use vstd::prelude::*;
use crate::access_key::Bucket;
use crate::balance::{UserBalance, UserBalanceView};
use crate::principal::Principal;

verus! {

/// What the index knows of one principal.
struct Account {
    balance: UserBalance,
    frozen: bool,
}

/// What the index knows of one principal, as a mathematical value.
pub ghost struct AccountView {
    pub balance: UserBalanceView,
    pub frozen: bool,
}

impl AccountView {
    /// The account of a principal that the index has never heard of.
    pub open spec fn blank(address: Seq<char>) -> AccountView {
        AccountView { balance: UserBalanceView::empty(address), frozen: false }
    }

    /// The account with its keys arranged as `balance` says.
    pub open spec fn with_balance(self, balance: UserBalanceView) -> AccountView {
        AccountView { balance, ..self }
    }

    /// The account with its freeze flag set to `frozen`.
    pub open spec fn with_frozen(self, frozen: bool) -> AccountView {
        AccountView { frozen, ..self }
    }
}

impl View for Account {
    type V = AccountView;

    closed spec fn view(&self) -> AccountView {
        AccountView { balance: self.balance@, frozen: self.frozen }
    }
}

/// The accounts of all principals. A principal without an entry has the blank
/// account, so the view is defined for every principal.
pub struct OwnershipIndex {
    accounts: Vec<Account>,
}

/// The place of `address` among `accounts`, looking from the last entry back.
spec fn position(accounts: Seq<Account>, address: Seq<char>) -> Option<int>
    decreases accounts.len(),
{
    if accounts.len() == 0 {
        None
    } else if accounts.last().balance.address@ == address {
        Some(accounts.len() - 1)
    } else {
        position(accounts.drop_last(), address)
    }
}

/// No two entries are for the same principal.
spec fn distinct(accounts: Seq<Account>) -> bool {
    forall|i: int, j: int|
        0 <= i < accounts.len() && 0 <= j < accounts.len() && i != j
            ==> accounts[i].balance.address@ != accounts[j].balance.address@
}

/// The buckets of every entry hold ids only.
spec fn typed(accounts: Seq<Account>) -> bool {
    forall|i: int| 0 <= i < accounts.len() ==> (#[trigger] accounts[i]).balance.typed()
}

/// The account that `accounts` gives `address`.
spec fn account_of(accounts: Seq<Account>, address: Seq<char>) -> AccountView {
    match position(accounts, address) {
        Some(i) => accounts[i]@,
        None => AccountView::blank(address),
    }
}

proof fn lemma_position(accounts: Seq<Account>, address: Seq<char>)
    ensures
        match position(accounts, address) {
            Some(i) => 0 <= i < accounts.len() && accounts[i].balance.address@ == address,
            None => forall|i: int|
                0 <= i < accounts.len() ==> accounts[i].balance.address@ != address,
        },
        distinct(accounts) ==> forall|i: int|
            0 <= i < accounts.len() && accounts[i].balance.address@ == address ==> position(
                accounts,
                address,
            ) == Some(i),
    decreases accounts.len(),
{
    if accounts.len() > 0 {
        let front = accounts.drop_last();
        lemma_position(front, address);
        assert(forall|i: int| 0 <= i < front.len() ==> front[i] == accounts[i]);
        if distinct(accounts) {
            assert(distinct(front));
        }
    }
}

/// Replacing the entry of a principal changes that principal's account only.
proof fn lemma_update(accounts: Seq<Account>, i: int, account: Account, other: Seq<char>)
    requires
        distinct(accounts),
        0 <= i < accounts.len(),
        account.balance.address@ == accounts[i].balance.address@,
    ensures
        distinct(accounts.update(i, account)),
        account_of(accounts.update(i, account), other) == (if other
            == account.balance.address@ {
            account@
        } else {
            account_of(accounts, other)
        }),
{
    let after = accounts.update(i, account);
    assert(forall|j: int|
        0 <= j < after.len() ==> after[j].balance.address@ == accounts[j].balance.address@);
    lemma_position(accounts, other);
    lemma_position(after, other);
}

/// Adding an entry for a principal that has none changes that principal's
/// account only.
proof fn lemma_push(accounts: Seq<Account>, account: Account, other: Seq<char>)
    requires
        distinct(accounts),
        position(accounts, account.balance.address@) is None,
    ensures
        distinct(accounts.push(account)),
        account_of(accounts.push(account), other) == (if other == account.balance.address@ {
            account@
        } else {
            account_of(accounts, other)
        }),
{
    let after = accounts.push(account);
    lemma_position(accounts, account.balance.address@);
    lemma_position(accounts, other);
    assert(after.drop_last() == accounts);
    assert(after.last() == account);
    assert(forall|j: int| 0 <= j < accounts.len() ==> after[j] == accounts[j]);
}

impl View for OwnershipIndex {
    type V = Map<Seq<char>, AccountView>;

    closed spec fn view(&self) -> Map<Seq<char>, AccountView> {
        Map::total(|address: Seq<char>| account_of(self.accounts@, address))
    }
}

impl OwnershipIndex {
    /// The index is laid out soundly: no principal has two entries, and the
    /// buckets hold ids only.
    pub closed spec fn wf(&self) -> bool {
        distinct(self.accounts@) && typed(self.accounts@)
    }

    /// The index gives every principal an account, filed under its own address.
    pub proof fn lemma_total(&self)
        requires
            self.wf(),
        ensures
            forall|address: Seq<char>| #[trigger] self@.contains_key(address),
            forall|address: Seq<char>| (#[trigger] self@[address]).balance.address == address,
    {
        assert forall|address: Seq<char>| (#[trigger] self@[address]).balance.address
            == address by {
            lemma_position(self.accounts@, address);
        }
    }

    /// An index in which every principal has the blank account.
    pub fn new() -> (index: OwnershipIndex)
        ensures
            index.wf(),
            forall|address: Seq<char>| #[trigger] index@[address] == AccountView::blank(address),
    {
        OwnershipIndex { accounts: Vec::new() }
    }

    /// Where the entry of `address` stands, if it has one.
    fn find(&self, address: &Principal) -> (at: Option<usize>)
        requires
            self.wf(),
        ensures
            match at {
                Some(i) => {
                    &&& i < self.accounts@.len()
                    &&& position(self.accounts@, address@) == Some(i as int)
                },
                None => position(self.accounts@, address@) is None,
            },
    {
        let mut i: usize = 0;
        while i < self.accounts.len()
            invariant
                i <= self.accounts.len(),
                self.wf(),
                forall|j: int| 0 <= j < i ==> self.accounts@[j].balance.address@ != address@,
            decreases self.accounts.len() - i,
        {
            if self.accounts[i].balance.address.same_as(address) {
                proof {
                    lemma_position(self.accounts@, address@);
                }
                return Some(i);
            }
            i = i + 1;
        }
        proof {
            lemma_position(self.accounts@, address@);
        }
        None
    }

    /// The place of the entry of `address`, which is made if there is none.
    fn entry(&mut self, env: &soroban_sdk::Env, address: &Principal) -> (at: usize)
        requires
            old(self).wf(),
        ensures
            final(self).wf(),
            final(self)@ == old(self)@,
            at < final(self).accounts@.len(),
            position(final(self).accounts@, address@) == Some(at as int),
            final(self).accounts@[at as int].balance.address@ == address@,
    {
        match self.find(address) {
            Some(i) => {
                proof {
                    lemma_position(self.accounts@, address@);
                }
                i
            },
            None => {
                let account = Account {
                    balance: UserBalance::new(env, address.clone()),
                    frozen: false,
                };
                proof {
                    assert forall|other: Seq<char>|
                        account_of(self.accounts@.push(account), other) == account_of(
                            self.accounts@,
                            other,
                        ) by {
                        lemma_push(self.accounts@, account, other);
                    }
                    lemma_push(self.accounts@, account, address@);
                    lemma_position(self.accounts@.push(account), address@);
                }
                self.accounts.push(account);
                assert(self@ =~= old(self)@);
                self.accounts.len() - 1
            },
        }
    }

    /// Files `account` in place of the entry at `at`, which is for the same
    /// principal.
    fn replace(&mut self, at: usize, account: Account)
        requires
            old(self).wf(),
            at < old(self).accounts@.len(),
            account.balance.address@ == old(self).accounts@[at as int].balance.address@,
            account.balance.typed(),
        ensures
            final(self).wf(),
            final(self)@ == old(self)@.insert(account.balance.address@, account@),
    {
        proof {
            assert forall|other: Seq<char>|
                account_of(self.accounts@.update(at as int, account), other) == (if other
                    == account.balance.address@ {
                    account@
                } else {
                    account_of(self.accounts@, other)
                }) by {
                lemma_update(self.accounts@, at as int, account, other);
            }
            lemma_update(self.accounts@, at as int, account, account.balance.address@);
        }
        let ghost address = account.balance.address@;
        let ghost view = account@;
        self.accounts.set(at, account);
        assert(self@ =~= old(self)@.insert(address, view));
    }

    /// A copy of the index of `user`: empty if `user` holds nothing.
    pub fn get_balance(&self, env: &soroban_sdk::Env, user: &Principal) -> (balance: UserBalance)
        requires
            self.wf(),
        ensures
            balance@ == self@[user@].balance,
            balance.typed(),
    {
        match self.find(user) {
            Some(i) => self.accounts[i].balance.clone(),
            None => UserBalance::new(env, user.clone()),
        }
    }

    /// The number of active, of expired and of frozen keys of `owner`.
    pub fn balances(&self, owner: &Principal) -> (n: (u32, u32, u32))
        requires
            self.wf(),
        ensures
            n.0 == self@[owner@].balance.active_keys.len(),
            n.1 == self@[owner@].balance.expired_keys.len(),
            n.2 == self@[owner@].balance.frozen_keys.len(),
    {
        match self.find(owner) {
            Some(i) => self.accounts[i].balance.counts(),
            None => (0, 0, 0),
        }
    }

    /// The principals that have an entry: every other principal has the blank
    /// account.
    pub fn holders(&self) -> (holders: Vec<Principal>)
        requires
            self.wf(),
        ensures
            forall|i: int, j: int|
                0 <= i < holders.len() && 0 <= j < holders.len() && i != j ==> holders[i]@
                    != holders[j]@,
            forall|address: Seq<char>|
                (forall|i: int| 0 <= i < holders.len() ==> holders[i]@ != address)
                    ==> #[trigger] self@[address] == AccountView::blank(address),
    {
        let mut holders: Vec<Principal> = Vec::new();
        let mut i: usize = 0;
        while i < self.accounts.len()
            invariant
                i <= self.accounts.len(),
                holders.len() == i,
                forall|j: int| 0 <= j < i ==> holders[j]@ == self.accounts@[j].balance.address@,
            decreases self.accounts.len() - i,
        {
            holders.push(self.accounts[i].balance.address.clone());
            i = i + 1;
        }
        proof {
            assert forall|address: Seq<char>|
                (forall|i: int| 0 <= i < holders.len() ==> holders[i]@ != address)
                    implies #[trigger] self@[address] == AccountView::blank(address) by {
                lemma_position(self.accounts@, address);
                if position(self.accounts@, address) is Some {
                    let at = position(self.accounts@, address).unwrap();
                    assert(holders[at]@ == address);
                }
            }
        }
        holders
    }

    /// Whether the account of `address` is frozen.
    pub fn is_account_frozen(&self, address: &Principal) -> (frozen: bool)
        requires
            self.wf(),
        ensures
            frozen == self@[address@].frozen,
    {
        match self.find(address) {
            Some(i) => self.accounts[i].frozen,
            None => false,
        }
    }

    /// Sets the freeze flag of the account of `address`.
    pub fn set_account_frozen(&mut self, env: &soroban_sdk::Env, address: &Principal, frozen: bool)
        requires
            old(self).wf(),
        ensures
            final(self).wf(),
            final(self)@ == old(self)@.insert(address@, old(self)@[address@].with_frozen(frozen)),
    {
        let at = self.entry(env, address);
        let account = Account { balance: self.accounts[at].balance.clone(), frozen };
        self.replace(at, account);
    }

    /// Files `balance` as the index of its principal, in place of what was
    /// there.
    pub fn put(&mut self, env: &soroban_sdk::Env, balance: UserBalance)
        requires
            old(self).wf(),
            balance.typed(),
        ensures
            final(self).wf(),
            final(self)@ == old(self)@.insert(
                balance.address@,
                old(self)@[balance.address@].with_balance(balance@),
            ),
    {
        let at = self.entry(env, &balance.address);
        let account = Account { balance, frozen: self.accounts[at].frozen };
        self.replace(at, account);
    }

    /// Files `balance` as the index of its principal if every item of its
    /// buckets is an id, and says whether it did: otherwise nothing changes.
    pub fn checked_put(&mut self, env: &soroban_sdk::Env, balance: UserBalance) -> (done: bool)
        requires
            old(self).wf(),
        ensures
            final(self).wf(),
            done == balance.typed(),
            final(self)@ == (if done {
                old(self)@.insert(
                    balance.address@,
                    old(self)@[balance.address@].with_balance(balance@),
                )
            } else {
                old(self)@
            }),
    {
        if balance.is_typed() {
            self.put(env, balance);
            true
        } else {
            false
        }
    }

    /// Appends `id` to bucket `to` of `owner`.
    pub fn insert(&mut self, env: &soroban_sdk::Env, owner: &Principal, id: u64, to: Bucket)
        requires
            old(self).wf(),
            old(self)@[owner@].balance.bucket(to).len() < u32::MAX,
        ensures
            final(self).wf(),
            final(self)@ == old(self)@.insert(
                owner@,
                old(self)@[owner@].with_balance(old(self)@[owner@].balance.inserted(id, to)),
            ),
    {
        let mut balance = self.get_balance(env, owner);
        balance.insert(id, to);
        proof {
            self.lemma_total();
        }
        self.put(env, balance);
    }

    /// Takes `id` out of bucket `from` of `owner`, where nothing changes if it
    /// is not there, and appends it to bucket `to`.
    pub fn move_key(
        &mut self,
        env: &soroban_sdk::Env,
        owner: &Principal,
        id: u64,
        from: Bucket,
        to: Bucket,
    )
        requires
            old(self).wf(),
            old(self)@[owner@].balance.dropped(id, from).bucket(to).len() < u32::MAX,
        ensures
            final(self).wf(),
            final(self)@ == old(self)@.insert(
                owner@,
                old(self)@[owner@].with_balance(old(self)@[owner@].balance.moved(id, from, to)),
            ),
    {
        let mut balance = self.get_balance(env, owner);
        balance.move_key(env, id, from, to);
        proof {
            self.lemma_total();
        }
        self.put(env, balance);
    }

    /// Takes `id` out of whichever bucket of `owner` lists it.
    pub fn remove(&mut self, env: &soroban_sdk::Env, owner: &Principal, id: u64)
        requires
            old(self).wf(),
        ensures
            final(self).wf(),
            final(self)@ == old(self)@.insert(
                owner@,
                old(self)@[owner@].with_balance(old(self)@[owner@].balance.removed(id)),
            ),
    {
        let mut balance = self.get_balance(env, owner);
        balance.remove(env, id);
        proof {
            self.lemma_total();
        }
        self.put(env, balance);
    }
}

} // verus!
