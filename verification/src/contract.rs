//! The registry itself: minting, transfer, freezing, verification and the
//! sweep of expired keys.

use vstd::prelude::*;
use crate::access_key::{key_views, AccessKey, AccessKeyView, Bucket, SECONDS_PER_DAY};
use crate::bucket::{
    bucket_get, bucket_ids, bucket_len, bucket_new, bucket_push, bucket_typed, lemma_filter,
    lemma_filter_split, lemma_push_contains,
};
use crate::balance::{lemma_count_removed, lemma_removed, UserBalance};
use crate::error::ContractError;
use crate::events::{AccountFrozenEvent, KeyMintedEvent, KeyTransferredEvent};
use crate::index::{AccountView, OwnershipIndex};
use crate::model::RegistryView;
use crate::principal::Principal;
use crate::soundness::{
    lemma_adopted_consistent, lemma_counted_consistent, lemma_initial_wf, lemma_initialized_wf,
    lemma_listed_once, lemma_minted_wf, lemma_rebucketed_wf, lemma_swept_wf,
    lemma_transferred_wf, lemma_with_account_frozen_wf,
};
use crate::store::CredentialStore;

verus! {

/// The registry of access keys.
///
/// The caller names the principal that has authorized a call and gives the
/// current time; the registry decides and records. An operation that is
/// refused leaves the registry as it was.
pub struct DigitalContentAccessKeysContract {
    admin: Option<Principal>,
    key_counter: u64,
    store: CredentialStore,
    index: OwnershipIndex,
}

impl View for DigitalContentAccessKeysContract {
    type V = RegistryView;

    closed spec fn view(&self) -> RegistryView {
        RegistryView {
            admin: match self.admin {
                Some(admin) => Some(admin@),
                None => None,
            },
            key_counter: self.key_counter,
            keys: self.store@,
            accounts: self.index@,
        }
    }
}

/// The time at which a key issued at `now` for `duration_days` days expires,
/// if that time can be represented.
pub fn expiry_time(now: u64, duration_days: u64) -> (expires_at: Option<u64>)
    ensures
        expires_at == (if now + duration_days * SECONDS_PER_DAY > u64::MAX {
            None
        } else {
            Some((now + duration_days * SECONDS_PER_DAY) as u64)
        }),
{
    match duration_days.checked_mul(SECONDS_PER_DAY) {
        Some(seconds) => now.checked_add(seconds),
        None => None,
    }
}

impl DigitalContentAccessKeysContract {
    /// The parts of the registry are laid out soundly.
    pub closed spec fn parts_wf(&self) -> bool {
        self.store.wf() && self.index.wf()
    }

    /// The registry is sound: its parts are, and its state meets the
    /// invariant of the model.
    pub open spec fn wf(&self) -> bool {
        self.parts_wf() && self@.wf()
    }

    /// The registry is consistent: its parts are laid out soundly, and its
    /// state fits together, though records of issued keys may be missing.
    pub open spec fn consistent(&self) -> bool {
        self.parts_wf() && self@.consistent()
    }

    /// A registry without administrator, keys or holders.
    pub fn new() -> (contract: DigitalContentAccessKeysContract)
        ensures
            contract.wf(),
            contract@ == RegistryView::initial(),
    {
        let contract = DigitalContentAccessKeysContract {
            admin: None,
            key_counter: 0,
            store: CredentialStore::new(),
            index: OwnershipIndex::new(),
        };
        proof {
            lemma_initial_wf();
            contract.index.lemma_total();
            assert(contract@.accounts =~= RegistryView::initial().accounts);
        }
        contract
    }

    /// The administrator, once set.
    pub fn admin(&self) -> (admin: Option<Principal>)
        ensures
            match admin {
                Some(a) => self@.admin == Some(a@),
                None => self@.admin is None,
            },
    {
        match &self.admin {
            Some(a) => Some(a.clone()),
            None => None,
        }
    }

    /// The id that the next key will get.
    pub fn key_counter(&self) -> (next: u64)
        ensures
            next == self@.key_counter,
    {
        self.key_counter
    }

    /// The principals that the index has an entry for: every other principal
    /// holds nothing and has an account that is not frozen.
    pub fn holders(&self) -> (holders: Vec<Principal>)
        requires
            self.wf(),
        ensures
            forall|i: int, j: int|
                0 <= i < holders.len() && 0 <= j < holders.len() && i != j ==> holders[i]@
                    != holders[j]@,
            forall|address: Seq<char>|
                (forall|i: int| 0 <= i < holders.len() ==> holders[i]@ != address)
                    ==> #[trigger] self@.accounts[address] == AccountView::blank(address),
    {
        self.index.holders()
    }

    /// Sets the administrator. This can be done once: a second call fails with
    /// `AlreadyInitialized`.
    pub fn initialize(&mut self, admin: Principal) -> (done: Result<(), ContractError>)
        requires
            old(self).wf(),
        ensures
            final(self).wf(),
            match done {
                Ok(()) => {
                    &&& old(self)@.initialize_refusal() is None
                    &&& final(self)@ == old(self)@.initialized(admin@)
                },
                Err(e) => old(self)@.initialize_refusal() == Some(e) && final(self)@ == old(self)@,
            },
    {
        if self.admin.is_some() {
            return Err(ContractError::AlreadyInitialized);
        }
        proof {
            lemma_initialized_wf(self@, admin@);
        }
        self.admin = Some(admin);
        Ok(())
    }

    /// Issues a key to `owner`, who has authorized the call, at time `now`.
    ///
    /// The key gets the next id, is active, and expires `duration_days` days
    /// after `now`. Fails with `ValidationError` if `price` is negative,
    /// `duration_days` is zero or the time of expiry cannot be represented;
    /// else with `AccountFrozen` if the account of `owner` is frozen; else with
    /// `CapacityExceeded` if no id is left or the index of `owner` is full.
    pub fn mint_key(
        &mut self,
        env: &soroban_sdk::Env,
        owner: &Principal,
        content_name: Vec<u8>,
        price: i128,
        duration_days: u64,
        transferable: bool,
        now: u64,
    ) -> (minted: Result<KeyMintedEvent, ContractError>)
        requires
            old(self).wf(),
        ensures
            final(self).wf(),
            match minted {
                Ok(event) => {
                    &&& old(self)@.mint_refusal(owner@, price, duration_days, now) is None
                    &&& final(self)@ == old(self)@.minted(
                        old(self)@.minted_key(
                            owner@,
                            content_name@,
                            price,
                            duration_days,
                            transferable,
                            now,
                        ),
                    )
                    &&& event.key_id == old(self)@.key_counter
                    &&& event.owner@ == owner@
                    &&& event.content_name@ == content_name@
                    &&& event.price == price
                    &&& event.duration_days == duration_days
                },
                Err(e) => old(self)@.mint_refusal(owner@, price, duration_days, now) == Some(e)
                    && final(self)@ == old(self)@,
            },
    {
        if price < 0 || duration_days == 0 {
            return Err(ContractError::ValidationError);
        }
        let expires_at = match expiry_time(now, duration_days) {
            Some(t) => t,
            None => {
                return Err(ContractError::ValidationError);
            },
        };
        if self.index.is_account_frozen(owner) {
            return Err(ContractError::AccountFrozen);
        }
        if self.key_counter == u64::MAX || self.holding(owner) >= u32::MAX as u64 {
            return Err(ContractError::CapacityExceeded);
        }
        let id = self.key_counter;
        let name = content_name.clone();
        assert(name@ =~= content_name@);
        let key = AccessKey {
            id,
            owner: owner.clone(),
            content_name: name,
            price,
            duration_days,
            created_at: now,
            expires_at,
            is_active: true,
            is_frozen: false,
            transferable,
        };
        proof {
            lemma_counted_consistent(self@);
            lemma_minted_wf(
                self@,
                owner@,
                content_name@,
                price,
                duration_days,
                transferable,
                now,
            );
        }
        self.key_counter = id + 1;
        self.adopt(env, key);
        Ok(KeyMintedEvent { key_id: id, owner: owner.clone(), content_name, price, duration_days })
    }

    /// Hands key `key_id` from `from`, who has authorized the call, to `to`
    /// at time `now`. `price` is reported in the event and not otherwise used.
    ///
    /// Fails with `NotFound` if the key does not exist; else with
    /// `Unauthorized` if `from` does not own it; else with `NotTransferable`
    /// if it was issued so; else with `InactiveOrFrozen` if it is frozen or
    /// marked inactive; else with `Expired` if `now` is not before its time of
    /// expiry; else with `AccountFrozen` if the account of `from` or of `to` is
    /// frozen; else with `CapacityExceeded` if the index of `to` is full.
    pub fn transfer_key(
        &mut self,
        env: &soroban_sdk::Env,
        key_id: u64,
        from: &Principal,
        to: &Principal,
        price: i128,
        now: u64,
    ) -> (transferred: Result<KeyTransferredEvent, ContractError>)
        requires
            old(self).wf(),
        ensures
            final(self).wf(),
            match transferred {
                Ok(event) => {
                    &&& old(self)@.transfer_refusal(key_id, from@, to@, now) is None
                    &&& final(self)@ == old(self)@.transferred(key_id, to@)
                    &&& event.key_id == key_id
                    &&& event.from@ == from@
                    &&& event.to@ == to@
                    &&& event.price == price
                },
                Err(e) => old(self)@.transfer_refusal(key_id, from@, to@, now) == Some(e)
                    && final(self)@ == old(self)@,
            },
    {
        let mut key = match self.store.get(key_id) {
            Some(key) => key,
            None => {
                return Err(ContractError::NotFound);
            },
        };
        if !key.owner.same_as(from) {
            return Err(ContractError::Unauthorized);
        }
        if !key.transferable {
            return Err(ContractError::NotTransferable);
        }
        if !key.is_active || key.is_frozen {
            return Err(ContractError::InactiveOrFrozen);
        }
        if now >= key.expires_at {
            return Err(ContractError::Expired);
        }
        if self.index.is_account_frozen(from) || self.index.is_account_frozen(to) {
            return Err(ContractError::AccountFrozen);
        }
        if !from.same_as(to) && self.holding(to) >= u32::MAX as u64 {
            return Err(ContractError::CapacityExceeded);
        }
        proof {
            lemma_transferred_wf(self@, key_id, from@, to@, now);
            lemma_listed_once(self@, key_id);
            self.index.lemma_total();
            lemma_removed(self@.balance(from@), key_id);
            lemma_count_removed(self@.balance(from@), key_id);
        }
        key.owner = to.clone();
        match self.store.update(key_id, key) {
            Ok(()) => {},
            Err(_) => {
                assert(false);
            },
        }
        self.index.remove(env, from, key_id);
        self.index.insert(env, to, key_id, Bucket::Active);
        proof {
            let target = old(self)@.transferred(key_id, to@);
            assert(self@.keys =~= target.keys);
            assert(self@.accounts =~= target.accounts);
        }
        Ok(KeyTransferredEvent { key_id, from: from.clone(), to: to.clone(), price })
    }

    /// The record of key `key_id`, if `caller` may freeze or release the key:
    /// the key exists, an administrator is set, and `caller` is the
    /// administrator or the owner.
    fn key_to_freeze(&self, caller: &Principal, key_id: u64) -> (found: Result<
        AccessKey,
        ContractError,
    >)
        requires
            self.wf(),
        ensures
            match found {
                Ok(key) => self@.freeze_refusal(caller@, key_id) is None && key@
                    == self@.keys[key_id],
                Err(e) => self@.freeze_refusal(caller@, key_id) == Some(e),
            },
    {
        let key = match self.store.get(key_id) {
            Some(key) => key,
            None => {
                return Err(ContractError::NotFound);
            },
        };
        match &self.admin {
            None => Err(ContractError::NotFound),
            Some(admin) => if !caller.same_as(admin) && !caller.same_as(&key.owner) {
                Err(ContractError::Unauthorized)
            } else {
                Ok(key)
            },
        }
    }

    /// Files `key`, whose flags have changed, and moves its id to the bucket
    /// that the flags name.
    fn rebucket(&mut self, env: &soroban_sdk::Env, key: AccessKey)
        requires
            old(self).wf(),
            old(self)@.keys.contains_key(key.id),
            key@.wf(),
            key@.owner == old(self)@.keys[key.id].owner,
        ensures
            final(self).wf(),
            final(self)@ == old(self)@.with_balance(
                key@.owner,
                old(self)@.balance(key@.owner).placed(key.id, key@.bucket()),
            ).with_key(key@),
    {
        let id = key.id;
        let to = key.bucket();
        let owner = key.owner.clone();
        proof {
            lemma_rebucketed_wf(self@, key@);
            lemma_listed_once(self@, id);
            self.index.lemma_total();
            lemma_removed(self@.balance(owner@), id);
            lemma_count_removed(self@.balance(owner@), id);
        }
        let ghost view = key@;
        match self.store.update(id, key) {
            Ok(()) => {},
            Err(_) => {
                assert(false);
            },
        }
        self.index.remove(env, &owner, id);
        self.index.insert(env, &owner, id, to);
        proof {
            let target = old(self)@.with_balance(
                view.owner,
                old(self)@.balance(view.owner).placed(id, view.bucket()),
            ).with_key(view);
            assert(self@.keys =~= target.keys);
            assert(self@.accounts =~= target.accounts);
        }
    }

    /// Freezes key `key_id` on behalf of `caller`, who has authorized the call.
    ///
    /// The key is marked frozen and inactive and moves to the frozen bucket of
    /// its owner, wherever it was. Fails with `NotFound` if the key does not
    /// exist or no administrator is set; else with `Unauthorized` if `caller`
    /// is neither the administrator nor the owner.
    pub fn freeze_account(
        &mut self,
        env: &soroban_sdk::Env,
        caller: &Principal,
        key_id: u64,
    ) -> (frozen: Result<AccountFrozenEvent, ContractError>)
        requires
            old(self).wf(),
        ensures
            final(self).wf(),
            match frozen {
                Ok(event) => {
                    &&& old(self)@.freeze_refusal(caller@, key_id) is None
                    &&& final(self)@ == old(self)@.frozen(key_id)
                    &&& event.key_id == key_id
                    &&& event.owner@ == old(self)@.keys[key_id].owner
                },
                Err(e) => old(self)@.freeze_refusal(caller@, key_id) == Some(e) && final(self)@
                    == old(self)@,
            },
    {
        let mut key = match self.key_to_freeze(caller, key_id) {
            Ok(key) => key,
            Err(e) => {
                return Err(e);
            },
        };
        key.is_frozen = true;
        key.is_active = false;
        let owner = key.owner.clone();
        self.rebucket(env, key);
        Ok(AccountFrozenEvent { key_id, owner })
    }

    /// Releases key `key_id` from its freeze on behalf of `caller`, who has
    /// authorized the call, at time `now`.
    ///
    /// A key that is not frozen stays as it is. A frozen key is active again
    /// if `now` is before its time of expiry, and expired otherwise; it moves
    /// to the end of the bucket that this names. Fails as `freeze_account`
    /// does.
    pub fn release_key(
        &mut self,
        env: &soroban_sdk::Env,
        caller: &Principal,
        key_id: u64,
        now: u64,
    ) -> (released: Result<(), ContractError>)
        requires
            old(self).wf(),
        ensures
            final(self).wf(),
            match released {
                Ok(()) => old(self)@.freeze_refusal(caller@, key_id) is None && final(self)@
                    == old(self)@.released(key_id, now),
                Err(e) => old(self)@.freeze_refusal(caller@, key_id) == Some(e) && final(self)@
                    == old(self)@,
            },
    {
        let mut key = match self.key_to_freeze(caller, key_id) {
            Ok(key) => key,
            Err(e) => {
                return Err(e);
            },
        };
        if key.is_frozen {
            key.is_frozen = false;
            key.is_active = now < key.expires_at;
            self.rebucket(env, key);
        }
        Ok(())
    }

    /// Freezes key `key_id` if `freeze` is set, and releases it at time `now`
    /// if not: see `freeze_account` and `release_key`. A freeze makes no use
    /// of `now`. The result says that it was done.
    pub fn freeze_key(
        &mut self,
        env: &soroban_sdk::Env,
        caller: &Principal,
        key_id: u64,
        freeze: bool,
        now: u64,
    ) -> (done: Result<bool, ContractError>)
        requires
            old(self).wf(),
        ensures
            final(self).wf(),
            match done {
                Ok(flag) => {
                    &&& flag
                    &&& old(self)@.freeze_refusal(caller@, key_id) is None
                    &&& final(self)@ == (if freeze {
                        old(self)@.frozen(key_id)
                    } else {
                        old(self)@.released(key_id, now)
                    })
                },
                Err(e) => old(self)@.freeze_refusal(caller@, key_id) == Some(e) && final(self)@
                    == old(self)@,
            },
    {
        if freeze {
            match self.freeze_account(env, caller, key_id) {
                Ok(_) => Ok(true),
                Err(e) => Err(e),
            }
        } else {
            match self.release_key(env, caller, key_id, now) {
                Ok(()) => Ok(true),
                Err(e) => Err(e),
            }
        }
    }

    /// Freezes the account of `account` if `frozen` is set, and releases it if
    /// not, on behalf of `caller`, who has authorized the call. While an
    /// account is frozen its principal can neither mint nor take part in a
    /// transfer; its keys are not touched.
    ///
    /// Fails with `NotFound` if no administrator is set; else with
    /// `Unauthorized` if `caller` is not the administrator.
    pub fn set_account_frozen(
        &mut self,
        env: &soroban_sdk::Env,
        caller: &Principal,
        account: &Principal,
        frozen: bool,
    ) -> (done: Result<(), ContractError>)
        requires
            old(self).wf(),
        ensures
            final(self).wf(),
            match done {
                Ok(()) => old(self)@.account_freeze_refusal(caller@) is None && final(self)@
                    == old(self)@.with_account_frozen(account@, frozen),
                Err(e) => old(self)@.account_freeze_refusal(caller@) == Some(e) && final(self)@
                    == old(self)@,
            },
    {
        match &self.admin {
            None => {
                return Err(ContractError::NotFound);
            },
            Some(admin) => {
                if !caller.same_as(admin) {
                    return Err(ContractError::Unauthorized);
                }
            },
        }
        self.mark_account(env, account, frozen);
        Ok(())
    }

    /// Whether the account of `account` is frozen.
    pub fn is_account_frozen(&self, account: &Principal) -> (frozen: bool)
        requires
            self.wf(),
        ensures
            frozen == self@.account_frozen(account@),
    {
        self.index.is_account_frozen(account)
    }

    /// Appends to `keys` the records of the ids in `bucket`, in their order;
    /// an id without a record is passed over.
    fn collect(&self, bucket: &soroban_sdk::Vec<u64>, keys: &mut Vec<AccessKey>)
        requires
            bucket_typed(*bucket),
        ensures
            key_views(final(keys)@) == key_views(old(keys)@) + self@.resolve(bucket_ids(*bucket)),
    {
        let n: u32 = bucket_len(bucket);
        let ghost ids = bucket_ids(*bucket);
        let ghost before = key_views(keys@);
        let mut i: u32 = 0;
        assert(self@.resolve(ids.take(0)) == Seq::<AccessKeyView>::empty());
        assert(key_views(keys@) == before + self@.resolve(ids.take(0)));
        while i < n
            invariant
                i <= n,
                n == ids.len(),
                ids == bucket_ids(*bucket),
                bucket_typed(*bucket),
                key_views(keys@) == before + self@.resolve(ids.take(i as int)),
            decreases n - i,
        {
            let ghost listed = keys@;
            proof {
                assert(ids.take(i as int + 1).drop_last() == ids.take(i as int));
                assert(ids.take(i as int + 1).last() == ids[i as int]);
            }
            if let Some(id) = bucket_get(bucket, i) {
                if let Some(key) = self.store.get(id) {
                    keys.push(key);
                    assert(key_views(keys@) == key_views(listed).push(key@));
                    assert(key_views(keys@) == before + self@.resolve(ids.take(i as int + 1)));
                }
            }
            i = i + 1;
        }
        assert(ids.take(n as int) == ids);
    }

    /// Copies of the records of the keys of `user`: the active ones, then the
    /// expired, then the frozen, each bucket in its order.
    pub fn get_user_keys(&self, env: &soroban_sdk::Env, user: &Principal) -> (keys: Vec<AccessKey>)
        requires
            self.wf(),
        ensures
            key_views(keys@) == self@.keys_of(user@),
    {
        let balance = self.index.get_balance(env, user);
        let mut keys: Vec<AccessKey> = Vec::new();
        assert(key_views(keys@) == Seq::<AccessKeyView>::empty());
        self.collect(&balance.active_keys, &mut keys);
        self.collect(&balance.expired_keys, &mut keys);
        self.collect(&balance.frozen_keys, &mut keys);
        keys
    }

    /// Sweeps the index of `user` at time `now`: every active key whose time
    /// of expiry is not after `now` is marked inactive and moves, in the order
    /// of the active bucket, to the end of the expired bucket. The result says
    /// whether any key was moved. Anyone may call this.
    pub fn update_expired_keys(
        &mut self,
        env: &soroban_sdk::Env,
        user: &Principal,
        now: u64,
    ) -> (changed: bool)
        requires
            old(self).wf(),
        ensures
            final(self).wf(),
            final(self)@ == old(self)@.swept(user@, now),
            changed == (old(self)@.expiring(user@, now).len() > 0),
    {
        let ghost s = self@;
        let mut balance = self.index.get_balance(env, user);
        let ghost active = s.balance(user@).active_keys;
        let ghost expired = s.balance(user@).expired_keys;
        let n: u32 = bucket_len(&balance.active_keys);
        let mut staying = bucket_new(env);
        let mut updated = false;
        let mut i: u32 = 0;
        proof {
            reveal(Seq::filter);
            self.index.lemma_total();
            assert(s.accounts[user@].balance.wf());
            assert(active.take(0).filter(s.due(now)) == Seq::<u64>::empty());
            assert(active.take(0).filter(s.not_due(now)) == Seq::<u64>::empty());
            assert(expired + Seq::<u64>::empty() == expired);
            assert(self@.keys =~= s.lapsed_keys(Seq::<u64>::empty()));
        }
        while i < n
            invariant
                i <= n,
                n == active.len(),
                s.wf(),
                s == old(self)@,
                active == s.balance(user@).active_keys,
                expired == s.balance(user@).expired_keys,
                self.parts_wf(),
                self@.admin == s.admin,
                self@.key_counter == s.key_counter,
                self@.accounts == s.accounts,
                self@.keys == s.lapsed_keys(active.take(i as int).filter(s.due(now))),
                balance@.address == user@,
                balance@.frozen_keys == s.balance(user@).frozen_keys,
                balance.typed(),
                bucket_typed(staying),
                bucket_ids(balance.active_keys) == active,
                bucket_ids(balance.expired_keys) == expired + active.take(i as int).filter(
                    s.due(now),
                ),
                bucket_ids(staying) == active.take(i as int).filter(s.not_due(now)),
                updated == (active.take(i as int).filter(s.due(now)).len() > 0),
            decreases n - i,
        {
            let ghost gone = active.take(i as int).filter(s.due(now));
            let ghost kept = active.take(i as int).filter(s.not_due(now));
            let id = bucket_get(&balance.active_keys, i).unwrap();
            proof {
                reveal(Seq::filter);
                assert(active.take(i as int + 1).drop_last() == active.take(i as int));
                assert(active.take(i as int + 1).last() == id);
                assert(s.accounts[user@].balance.wf());
                lemma_filter(active.take(i as int), s.due(now));
                lemma_filter(active.take(i as int), s.not_due(now));
                lemma_filter_split(active.take(i as int), s.not_due(now), s.due(now));
                assert(!active.take(i as int).contains(id)) by {
                    if active.take(i as int).contains(id) {
                        let j = choose|j: int|
                            0 <= j < active.take(i as int).len() && active.take(i as int)[j] == id;
                        assert(active[j] == active[i as int]);
                    }
                }
                assert(!gone.contains(id));
                assert(self@.keys.contains_key(id) == s.keys.contains_key(id));
                assert(s.keys.contains_key(id) ==> self@.keys[id] == s.keys[id]);
            }
            let mut due = false;
            if let Some(mut key) = self.store.get(id) {
                if now >= key.expires_at {
                    due = true;
                    key.is_active = false;
                    match self.store.update(id, key) {
                        Ok(()) => {},
                        Err(_) => {
                            assert(s.keys[id].id == id);
                            assert(false);
                        },
                    }
                }
            }
            if due {
                bucket_push(&mut balance.expired_keys, id);
                updated = true;
                proof {
                    assert(active.take(i as int + 1).filter(s.due(now)) == gone.push(id));
                    assert(active.take(i as int + 1).filter(s.not_due(now)) == kept);
                    assert(expired + gone.push(id) == (expired + gone).push(id));
                    assert forall|x: u64| gone.push(id).contains(x) <==> gone.contains(x) || x
                        == id by {
                        lemma_push_contains(gone, id, x);
                    }
                    assert(self@.keys =~= s.lapsed_keys(gone.push(id)));
                }
            } else {
                bucket_push(&mut staying, id);
                proof {
                    assert(active.take(i as int + 1).filter(s.due(now)) == gone);
                    assert(active.take(i as int + 1).filter(s.not_due(now)) == kept.push(id));
                }
            }
            i = i + 1;
        }
        proof {
            assert(active.take(n as int) == active);
            lemma_swept_wf(s, user@, now);
            lemma_filter(active, s.due(now));
            lemma_filter(active, s.not_due(now));
        }
        if updated {
            balance.active_keys = staying;
            self.index.put(env, balance);
            proof {
                assert(self@.accounts =~= s.swept(user@, now).accounts);
            }
        } else {
            proof {
                let gone = s.expiring(user@, now);
                assert(gone.len() == 0);
                assert(gone =~= Seq::<u64>::empty());
                assert(expired + gone == expired);
                assert forall|x: u64| active.contains(x) implies (s.not_due(now))(x) by {
                    if (s.due(now))(x) {
                        assert(gone.contains(x));
                    }
                }
                assert(active.filter(s.not_due(now)) == active);
                assert(s.swept(user@, now).accounts =~= s.accounts);
                assert(s.swept(user@, now).keys =~= s.keys);
            }
        }
        updated
    }

    /// The number of keys that the index of `principal` lists.
    pub(crate) fn holding(&self, principal: &Principal) -> (n: u64)
        requires
            self.parts_wf(),
        ensures
            n == self@.balance(principal@).count(),
    {
        let (active, expired, frozen) = self.index.balances(principal);
        active as u64 + expired as u64 + frozen as u64
    }

    /// A copy of the index of `user`: empty if `user` holds nothing.
    pub fn get_balance(&self, env: &soroban_sdk::Env, user: &Principal) -> (balance: UserBalance)
        requires
            self.wf(),
        ensures
            balance@ == self@.balance(user@),
            balance.typed(),
    {
        self.index.get_balance(env, user)
    }

    /// Whether key `key_id` grants `user` access at time `now`: it exists,
    /// `user` owns it, it is active and not frozen, and it has not expired.
    pub fn verify_access(&self, user: &Principal, key_id: u64, now: u64) -> (granted: bool)
        requires
            self.wf(),
        ensures
            granted == self@.grants_access(user@, key_id, now),
    {
        match self.store.get(key_id) {
            Some(key) => key.grants(user, now),
            None => false,
        }
    }

    /// A copy of the record of key `key_id`, if it has been issued.
    pub fn get_key_details(&self, key_id: u64) -> (found: Option<AccessKey>)
        requires
            self.wf(),
        ensures
            match found {
                Some(key) => self@.keys.contains_key(key_id) && key@ == self@.keys[key_id],
                None => !self@.keys.contains_key(key_id),
            },
    {
        self.store.get(key_id)
    }

    /// A registry without administrator, records or holders, in which the ids
    /// below `key_counter` count as issued.
    pub(crate) fn with_counter(key_counter: u64) -> (contract: DigitalContentAccessKeysContract)
        ensures
            contract.consistent(),
            contract@ == (RegistryView { key_counter, ..RegistryView::initial() }),
    {
        let contract = DigitalContentAccessKeysContract {
            admin: None,
            key_counter,
            store: CredentialStore::new(),
            index: OwnershipIndex::new(),
        };
        proof {
            lemma_initial_wf();
            contract.index.lemma_total();
            assert(contract@.accounts =~= RegistryView::initial().accounts);
        }
        contract
    }

    /// Files the record `key` and lists it last in the bucket of its owner
    /// that its flags name.
    pub(crate) fn adopt(&mut self, env: &soroban_sdk::Env, key: AccessKey)
        requires
            old(self).consistent(),
            key@.wf(),
            old(self)@.issued(key.id),
            !old(self)@.keys.contains_key(key.id),
            old(self)@.balance(key@.owner).count() < u32::MAX,
        ensures
            final(self).consistent(),
            final(self)@ == old(self)@.adopted(key@),
    {
        let id = key.id;
        let to = key.bucket();
        let owner = key.owner.clone();
        let ghost view = key@;
        proof {
            lemma_adopted_consistent(self@, view);
            self.index.lemma_total();
        }
        match self.store.create(key) {
            Ok(()) => {},
            Err(_) => {
                assert(false);
            },
        }
        self.index.insert(env, &owner, id, to);
        proof {
            let target = old(self)@.adopted(view);
            assert(self@.keys =~= target.keys);
            assert(self@.accounts =~= target.accounts);
        }
    }

    /// Sets the administrator, or leaves the registry without one.
    pub(crate) fn install_admin(&mut self, admin: Option<Principal>)
        requires
            old(self).consistent(),
        ensures
            final(self).consistent(),
            old(self).wf() ==> final(self).wf(),
            final(self)@ == (RegistryView {
                admin: match admin {
                    Some(a) => Some(a@),
                    None => None,
                },
                ..old(self)@
            }),
    {
        self.admin = admin;
    }

    /// Sets the freeze flag of the account of `account`.
    pub(crate) fn mark_account(&mut self, env: &soroban_sdk::Env, account: &Principal, frozen: bool)
        requires
            old(self).consistent(),
        ensures
            final(self).consistent(),
            old(self).wf() ==> final(self).wf(),
            final(self)@ == old(self)@.with_account_frozen(account@, frozen),
    {
        proof {
            lemma_with_account_frozen_wf(self@, account@, frozen);
        }
        self.index.set_account_frozen(env, account, frozen);
    }

    /// Whether a record is filed under `id`.
    pub(crate) fn has_record(&self, id: u64) -> (found: bool)
        requires
            self.consistent(),
        ensures
            found == self@.keys.contains_key(id),
    {
        self.store.contains(id)
    }
}

} // verus!
