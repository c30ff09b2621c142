//! The registry as a mathematical value, and what each operation makes of it.
//!
//! Every executable operation of the registry is specified here as a pair of
//! functions: which error, if any, refuses it, and the registry that results
//! when none does.

use vstd::prelude::*;
use crate::access_key::{AccessKeyView, Bucket, SECONDS_PER_DAY};
use crate::balance::UserBalanceView;
use crate::error::ContractError;
use crate::index::AccountView;

verus! {

/// The whole state of the registry.
pub ghost struct RegistryView {
    /// The administrator, once set.
    pub admin: Option<Seq<char>>,
    /// The id that the next key will get; every smaller id has been issued.
    pub key_counter: u64,
    /// The record of every key, by id.
    pub keys: Map<u64, AccessKeyView>,
    /// The account of every principal.
    pub accounts: Map<Seq<char>, AccountView>,
}

impl RegistryView {
    /// The registry before anything has happened.
    pub open spec fn initial() -> RegistryView {
        RegistryView {
            admin: None,
            key_counter: 0,
            keys: Map::empty(),
            accounts: Map::total(|address: Seq<char>| AccountView::blank(address)),
        }
    }

    /// The index of `principal`.
    pub open spec fn balance(self, principal: Seq<char>) -> UserBalanceView {
        self.accounts[principal].balance
    }

    /// Whether the account of `principal` is frozen.
    pub open spec fn account_frozen(self, principal: Seq<char>) -> bool {
        self.accounts[principal].frozen
    }

    /// Whether key `id` has been issued.
    pub open spec fn issued(self, id: u64) -> bool {
        id < self.key_counter
    }

    /// The registry with the index of `principal` replaced by `balance`.
    pub open spec fn with_balance(self, principal: Seq<char>, balance: UserBalanceView) -> RegistryView {
        RegistryView {
            accounts: self.accounts.insert(principal, self.accounts[principal].with_balance(balance)),
            ..self
        }
    }

    /// The registry with `key` filed under its id.
    pub open spec fn with_key(self, key: AccessKeyView) -> RegistryView {
        RegistryView { keys: self.keys.insert(key.id, key), ..self }
    }

    /// The registry is consistent: what it holds fits together, though
    /// records of issued keys may be missing.
    ///
    /// Every principal has an account under its own address, whose index lists
    /// no id twice. Every record is filed under its id, which has been issued,
    /// and is listed in the index of its owner, in the bucket that its flags
    /// name; and an index lists only keys of its principal.
    pub open spec fn consistent(self) -> bool {
        &&& forall|p: Seq<char>| #[trigger] self.accounts.contains_key(p)
        &&& forall|p: Seq<char>| (#[trigger] self.accounts[p]).balance.address == p
        &&& forall|p: Seq<char>| (#[trigger] self.accounts[p]).balance.wf()
        &&& forall|id: u64| #[trigger] self.keys.contains_key(id) ==> self.issued(id)
        &&& forall|id: u64| #[trigger]
            self.keys.contains_key(id) ==> self.keys[id].id == id && self.keys[id].wf()
        &&& forall|id: u64| #[trigger]
            self.keys.contains_key(id) ==> self.balance(self.keys[id].owner).bucket(
                self.keys[id].bucket(),
            ).contains(id)
        &&& forall|p: Seq<char>, id: u64| #[trigger]
            self.accounts[p].balance.holds(id) ==> self.keys.contains_key(id) && self.keys[id].owner
                == p
    }

    /// The invariant of the registry: it is consistent, and holds the record
    /// of every key that was issued.
    pub open spec fn wf(self) -> bool {
        &&& self.consistent()
        &&& forall|id: u64| self.issued(id) ==> #[trigger] self.keys.contains_key(id)
    }

    // ----- initialize -----

    /// Why `initialize` is refused, if it is.
    pub open spec fn initialize_refusal(self) -> Option<ContractError> {
        if self.admin is Some {
            Some(ContractError::AlreadyInitialized)
        } else {
            None
        }
    }

    /// The registry with `admin` as its administrator.
    pub open spec fn initialized(self, admin: Seq<char>) -> RegistryView {
        RegistryView { admin: Some(admin), ..self }
    }

    // ----- mint -----

    /// Why a mint is refused, if it is.
    pub open spec fn mint_refusal(
        self,
        owner: Seq<char>,
        price: i128,
        duration_days: u64,
        now: u64,
    ) -> Option<ContractError> {
        if price < 0 || duration_days == 0 || now + duration_days * SECONDS_PER_DAY > u64::MAX {
            Some(ContractError::ValidationError)
        } else if self.account_frozen(owner) {
            Some(ContractError::AccountFrozen)
        } else if self.key_counter == u64::MAX || self.balance(owner).count() >= u32::MAX {
            Some(ContractError::CapacityExceeded)
        } else {
            None
        }
    }

    /// The record of the key that a mint issues.
    pub open spec fn minted_key(
        self,
        owner: Seq<char>,
        content_name: Seq<u8>,
        price: i128,
        duration_days: u64,
        transferable: bool,
        now: u64,
    ) -> AccessKeyView {
        AccessKeyView {
            id: self.key_counter,
            owner,
            content_name,
            price,
            duration_days,
            created_at: now,
            expires_at: (now + duration_days * SECONDS_PER_DAY) as u64,
            is_active: true,
            is_frozen: false,
            transferable,
        }
    }

    /// The registry with the record `key` filed, and listed last in the bucket
    /// of its owner that its flags name.
    pub open spec fn adopted(self, key: AccessKeyView) -> RegistryView {
        self.with_key(key).with_balance(
            key.owner,
            self.balance(key.owner).inserted(key.id, key.bucket()),
        )
    }

    /// The registry after `key` was issued to its owner.
    pub open spec fn minted(self, key: AccessKeyView) -> RegistryView {
        RegistryView { key_counter: (self.key_counter + 1) as u64, ..self }.adopted(key)
    }

    // ----- transfer -----

    /// Why a transfer of key `id` from `from` to `to` at time `now` is
    /// refused, if it is.
    pub open spec fn transfer_refusal(
        self,
        id: u64,
        from: Seq<char>,
        to: Seq<char>,
        now: u64,
    ) -> Option<ContractError> {
        if !self.keys.contains_key(id) {
            Some(ContractError::NotFound)
        } else if self.keys[id].owner != from {
            Some(ContractError::Unauthorized)
        } else if !self.keys[id].transferable {
            Some(ContractError::NotTransferable)
        } else if !self.keys[id].is_active || self.keys[id].is_frozen {
            Some(ContractError::InactiveOrFrozen)
        } else if now >= self.keys[id].expires_at {
            Some(ContractError::Expired)
        } else if self.account_frozen(from) || self.account_frozen(to) {
            Some(ContractError::AccountFrozen)
        } else if from != to && self.balance(to).count() >= u32::MAX {
            Some(ContractError::CapacityExceeded)
        } else {
            None
        }
    }

    /// The registry after key `id` went from its owner to `to`.
    pub open spec fn transferred(self, id: u64, to: Seq<char>) -> RegistryView {
        let from = self.keys[id].owner;
        let left = self.with_balance(from, self.balance(from).removed(id));
        left.with_balance(to, left.balance(to).inserted(id, Bucket::Active)).with_key(
            self.keys[id].owned_by(to),
        )
    }

    // ----- freeze and release of one key -----

    /// Why `caller` may not freeze or release key `id`, if it may not.
    pub open spec fn freeze_refusal(self, caller: Seq<char>, id: u64) -> Option<ContractError> {
        if !self.keys.contains_key(id) {
            Some(ContractError::NotFound)
        } else if self.admin is None {
            Some(ContractError::NotFound)
        } else if self.admin != Some(caller) && self.keys[id].owner != caller {
            Some(ContractError::Unauthorized)
        } else {
            None
        }
    }

    /// The registry after key `id` was frozen: the key is in the frozen bucket
    /// of its owner, wherever it was before.
    pub open spec fn frozen(self, id: u64) -> RegistryView {
        let owner = self.keys[id].owner;
        self.with_balance(owner, self.balance(owner).placed(id, Bucket::Frozen)).with_key(
            self.keys[id].frozen(),
        )
    }

    /// The registry after key `id` was released at time `now`. A key that is
    /// not frozen stays as it is. A frozen key becomes active again if it has
    /// not expired, and expired if it has.
    pub open spec fn released(self, id: u64, now: u64) -> RegistryView {
        if !self.keys[id].is_frozen {
            self
        } else {
            let owner = self.keys[id].owner;
            let key = self.keys[id].released(now);
            self.with_balance(owner, self.balance(owner).placed(id, key.bucket())).with_key(key)
        }
    }

    // ----- freeze of an account -----

    /// Why `caller` may not freeze or release an account, if it may not.
    pub open spec fn account_freeze_refusal(self, caller: Seq<char>) -> Option<ContractError> {
        if self.admin is None {
            Some(ContractError::NotFound)
        } else if self.admin != Some(caller) {
            Some(ContractError::Unauthorized)
        } else {
            None
        }
    }

    /// The registry with the freeze flag of `account` set to `frozen`.
    pub open spec fn with_account_frozen(self, account: Seq<char>, frozen: bool) -> RegistryView {
        RegistryView {
            accounts: self.accounts.insert(account, self.accounts[account].with_frozen(frozen)),
            ..self
        }
    }

    // ----- access -----

    /// Whether key `id` grants `user` access at time `now`.
    pub open spec fn grants_access(self, user: Seq<char>, id: u64, now: u64) -> bool {
        self.keys.contains_key(id) && self.keys[id].grants(user, now)
    }

    // ----- sweep -----

    /// The test for a key that a sweep at time `now` moves to the expired
    /// bucket: its record says that it has expired.
    pub open spec fn due(self, now: u64) -> spec_fn(u64) -> bool {
        |id: u64| self.keys.contains_key(id) && self.keys[id].expires_at <= now
    }

    /// The opposite test: a key that a sweep at time `now` leaves in the
    /// active bucket.
    pub open spec fn not_due(self, now: u64) -> spec_fn(u64) -> bool {
        |id: u64| !(self.keys.contains_key(id) && self.keys[id].expires_at <= now)
    }

    /// The active keys of `principal` that a sweep at time `now` moves, in the
    /// order of the active bucket.
    pub open spec fn expiring(self, principal: Seq<char>, now: u64) -> Seq<u64> {
        self.balance(principal).active_keys.filter(self.due(now))
    }

    /// The records once the keys listed in `gone` are marked inactive.
    pub open spec fn lapsed_keys(self, gone: Seq<u64>) -> Map<u64, AccessKeyView> {
        Map::new(
            |id: u64| self.keys.contains_key(id),
            |id: u64|
                if gone.contains(id) {
                    self.keys[id].lapsed()
                } else {
                    self.keys[id]
                },
        )
    }

    /// The registry after a sweep of `principal` at time `now`: the expiring
    /// keys are marked inactive and stand, in their order, at the end of the
    /// expired bucket.
    pub open spec fn swept(self, principal: Seq<char>, now: u64) -> RegistryView {
        let gone = self.expiring(principal, now);
        let balance = self.balance(principal);
        RegistryView {
            keys: self.lapsed_keys(gone),
            ..self.with_balance(
                principal,
                UserBalanceView {
                    active_keys: balance.active_keys.filter(self.not_due(now)),
                    expired_keys: balance.expired_keys + gone,
                    ..balance
                },
            )
        }
    }

    // ----- listing -----

    /// The records of `ids`, in the order of `ids`; an id without a record is
    /// passed over.
    pub open spec fn resolve(self, ids: Seq<u64>) -> Seq<AccessKeyView>
        decreases ids.len(),
    {
        if ids.len() == 0 {
            Seq::empty()
        } else if self.keys.contains_key(ids.last()) {
            self.resolve(ids.drop_last()).push(self.keys[ids.last()])
        } else {
            self.resolve(ids.drop_last())
        }
    }

    /// The records of the keys of `user`: the active ones, then the expired,
    /// then the frozen.
    pub open spec fn keys_of(self, user: Seq<char>) -> Seq<AccessKeyView> {
        self.resolve(self.balance(user).active_keys) + self.resolve(
            self.balance(user).expired_keys,
        ) + self.resolve(self.balance(user).frozen_keys)
    }
}

/// A call that changes the registry, with its arguments but for the time.
pub ghost enum Operation {
    Initialize { admin: Seq<char> },
    Mint {
        owner: Seq<char>,
        content_name: Seq<u8>,
        price: i128,
        duration_days: u64,
        transferable: bool,
    },
    Transfer { id: u64, from: Seq<char>, to: Seq<char> },
    Freeze { caller: Seq<char>, id: u64 },
    Release { caller: Seq<char>, id: u64 },
    SetAccountFrozen { caller: Seq<char>, account: Seq<char>, frozen: bool },
    Sweep { principal: Seq<char> },
}

/// A call and the time at which it is made.
pub ghost struct Call {
    pub operation: Operation,
    pub now: u64,
}

impl RegistryView {
    /// Why `operation` is refused at time `now`, if it is.
    pub open spec fn refusal(self, operation: Operation, now: u64) -> Option<ContractError> {
        match operation {
            Operation::Initialize { admin } => self.initialize_refusal(),
            Operation::Mint { owner, content_name, price, duration_days, transferable } => {
                self.mint_refusal(owner, price, duration_days, now)
            },
            Operation::Transfer { id, from, to } => self.transfer_refusal(id, from, to, now),
            Operation::Freeze { caller, id } => self.freeze_refusal(caller, id),
            Operation::Release { caller, id } => self.freeze_refusal(caller, id),
            Operation::SetAccountFrozen { caller, account, frozen } => {
                self.account_freeze_refusal(caller)
            },
            Operation::Sweep { principal } => None,
        }
    }

    /// The registry after `operation` was called at time `now`: as before if
    /// the call is refused.
    pub open spec fn apply(self, operation: Operation, now: u64) -> RegistryView {
        if self.refusal(operation, now) is Some {
            self
        } else {
            match operation {
                Operation::Initialize { admin } => self.initialized(admin),
                Operation::Mint { owner, content_name, price, duration_days, transferable } => {
                    self.minted(
                        self.minted_key(owner, content_name, price, duration_days, transferable, now),
                    )
                },
                Operation::Transfer { id, from, to } => self.transferred(id, to),
                Operation::Freeze { caller, id } => self.frozen(id),
                Operation::Release { caller, id } => self.released(id, now),
                Operation::SetAccountFrozen { caller, account, frozen } => {
                    self.with_account_frozen(account, frozen)
                },
                Operation::Sweep { principal } => self.swept(principal, now),
            }
        }
    }

    /// The registry after the calls of `calls`, first to last.
    pub open spec fn run(self, calls: Seq<Call>) -> RegistryView
        decreases calls.len(),
    {
        if calls.len() == 0 {
            self
        } else {
            self.run(calls.drop_last()).apply(calls.last().operation, calls.last().now)
        }
    }
}

} // verus!
