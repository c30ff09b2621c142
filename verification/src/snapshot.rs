//! Taking the registry apart into plain records, and putting it together
//! again from records that are checked on the way.

use vstd::prelude::*;
use crate::access_key::{key_views, AccessKey, AccessKeyView, Bucket};
use crate::balance::{lemma_holds, UserBalance, UserBalanceView};
use crate::bucket::{bucket_get, bucket_ids, bucket_len, bucket_typed};
use crate::contract::{expiry_time, DigitalContentAccessKeysContract};
use crate::error::ContractError;
use crate::index::AccountView;
use crate::model::RegistryView;
use crate::principal::Principal;
use crate::soundness::lemma_listed_once;

verus! {

/// The indices of `balances` as mathematical values, in the same order.
pub open spec fn balance_views(balances: Seq<UserBalance>) -> Seq<UserBalanceView> {
    balances.map_values(|balance: UserBalance| balance@)
}

/// The principals of `principals` as mathematical values, in the same order.
pub open spec fn principal_views(principals: Seq<Principal>) -> Seq<Seq<char>> {
    principals.map_values(|principal: Principal| principal@)
}

/// The index that `balances` lists for `address`: empty if it lists none.
pub open spec fn listed_balance(balances: Seq<UserBalanceView>, address: Seq<char>) -> UserBalanceView
    decreases balances.len(),
{
    if balances.len() == 0 {
        UserBalanceView::empty(address)
    } else if balances.last().address == address {
        balances.last()
    } else {
        listed_balance(balances.drop_last(), address)
    }
}

/// No two indices of `balances` are for the same principal.
pub open spec fn distinct_addresses(balances: Seq<UserBalanceView>) -> bool {
    forall|i: int, j: int|
        0 <= i < balances.len() && 0 <= j < balances.len() && i != j ==> balances[i].address
            != balances[j].address
}

/// The registry that the records describe: `keys` are the records of the
/// keys issued, in the order of their ids; `balances` the indices of the
/// principals that hold keys; `frozen` the principals whose account is frozen.
pub open spec fn snapshot(
    admin: Option<Seq<char>>,
    keys: Seq<AccessKeyView>,
    balances: Seq<UserBalanceView>,
    frozen: Seq<Seq<char>>,
) -> RegistryView {
    RegistryView {
        admin,
        key_counter: keys.len() as u64,
        keys: Map::new(|id: u64| id < keys.len(), |id: u64| keys[id as int]),
        accounts: Map::total(
            |address: Seq<char>|
                AccountView {
                    balance: listed_balance(balances, address),
                    frozen: frozen.contains(address),
                },
        ),
    }
}

/// The administrator as a mathematical value.
pub open spec fn admin_view(admin: Option<Principal>) -> Option<Seq<char>> {
    match admin {
        Some(a) => Some(a@),
        None => None,
    }
}

/// The records describe a sound registry, and list no principal twice.
pub open spec fn restorable(
    admin: Option<Seq<char>>,
    keys: Seq<AccessKeyView>,
    balances: Seq<UserBalanceView>,
    frozen: Seq<Seq<char>>,
) -> bool {
    &&& keys.len() <= u64::MAX
    &&& distinct_addresses(balances)
    &&& snapshot(admin, keys, balances, frozen).wf()
}

/// The registry taken apart into plain records, as it is kept between calls.
pub struct Snapshot {
    /// The administrator, once set.
    pub admin: Option<Principal>,
    /// The records of the keys issued, in the order of their ids.
    pub keys: Vec<AccessKey>,
    /// The indices of the principals that hold keys.
    pub balances: Vec<UserBalance>,
    /// The principals whose account is frozen.
    pub frozen_accounts: Vec<Principal>,
}

impl View for Snapshot {
    type V = RegistryView;

    open spec fn view(&self) -> RegistryView {
        snapshot(
            admin_view(self.admin),
            key_views(self.keys@),
            balance_views(self.balances@),
            principal_views(self.frozen_accounts@),
        )
    }
}

impl Snapshot {
    /// The buckets of every index hold ids only.
    pub open spec fn typed(&self) -> bool {
        forall|j: int| 0 <= j < self.balances.len() ==> (#[trigger] self.balances[j]).typed()
    }

    /// The buckets hold ids only, and the records describe a sound registry
    /// and list no principal twice.
    pub open spec fn restorable(&self) -> bool {
        &&& self.typed()
        &&& restorable(
            admin_view(self.admin),
            key_views(self.keys@),
            balance_views(self.balances@),
            principal_views(self.frozen_accounts@),
        )
    }
}

/// What `listed_balance` finds: the one index listed for the address, or the
/// empty index.
pub proof fn lemma_listed_balance(balances: Seq<UserBalanceView>, address: Seq<char>)
    ensures
        listed_balance(balances, address).address == address,
        (forall|j: int| 0 <= j < balances.len() ==> balances[j].address != address)
            ==> listed_balance(balances, address) == UserBalanceView::empty(address),
        distinct_addresses(balances) ==> forall|j: int|
            0 <= j < balances.len() && balances[j].address == address ==> listed_balance(
                balances,
                address,
            ) == balances[j],
    decreases balances.len(),
{
    if balances.len() > 0 {
        let front = balances.drop_last();
        lemma_listed_balance(front, address);
        assert(forall|j: int| 0 <= j < front.len() ==> front[j] == balances[j]);
        if distinct_addresses(balances) {
            assert(distinct_addresses(front));
        }
    }
}

/// Whether the terms of `key` are sound.
pub fn key_is_sound(key: &AccessKey) -> (sound: bool)
    ensures
        sound == key@.wf(),
{
    if key.is_frozen && key.is_active {
        return false;
    }
    if key.price < 0 || key.duration_days == 0 {
        return false;
    }
    match expiry_time(key.created_at, key.duration_days) {
        Some(expires_at) => expires_at == key.expires_at,
        None => false,
    }
}

/// Whether every record of `keys` stands at the place of its id and has sound
/// terms.
fn records_are_sound(keys: &Vec<AccessKey>) -> (sound: bool)
    ensures
        sound == (forall|i: int| 0 <= i < keys.len() ==> keys[i].id == i && keys[i]@.wf()),
{
    let mut i: usize = 0;
    while i < keys.len()
        invariant
            i <= keys.len(),
            forall|j: int| 0 <= j < i ==> keys[j].id == j && keys[j]@.wf(),
        decreases keys.len() - i,
    {
        if keys[i].id != i as u64 || !key_is_sound(&keys[i]) {
            return false;
        }
        i = i + 1;
    }
    true
}

/// Whether no two indices of `balances` are for the same principal.
fn addresses_are_distinct(balances: &Vec<UserBalance>) -> (distinct: bool)
    ensures
        distinct == distinct_addresses(balance_views(balances@)),
{
    let ghost views = balance_views(balances@);
    let mut i: usize = 0;
    while i < balances.len()
        invariant
            i <= balances.len(),
            views == balance_views(balances@),
            forall|a: int, b: int| 0 <= a < b < i ==> views[a].address != views[b].address,
        decreases balances.len() - i,
    {
        let mut j: usize = 0;
        while j < i
            invariant
                j <= i,
                i < balances.len(),
                views == balance_views(balances@),
                forall|a: int| 0 <= a < j ==> views[a].address != views[i as int].address,
            decreases i - j,
        {
            if balances[j].address.same_as(&balances[i].address) {
                assert(views[j as int].address == views[i as int].address);
                return false;
            }
            j = j + 1;
        }
        i = i + 1;
    }
    true
}

/// The part of the index `full` that is built once the buckets before `b` and
/// the first `n` ids of bucket `b` are listed.
spec fn built(full: UserBalanceView, b: Bucket, n: int) -> UserBalanceView {
    match b {
        Bucket::Active => UserBalanceView {
            address: full.address,
            active_keys: full.active_keys.take(n),
            expired_keys: Seq::empty(),
            frozen_keys: Seq::empty(),
        },
        Bucket::Expired => UserBalanceView {
            address: full.address,
            active_keys: full.active_keys,
            expired_keys: full.expired_keys.take(n),
            frozen_keys: Seq::empty(),
        },
        Bucket::Frozen => UserBalanceView {
            address: full.address,
            active_keys: full.active_keys,
            expired_keys: full.expired_keys,
            frozen_keys: full.frozen_keys.take(n),
        },
    }
}

/// Whether `address` is that of one of the first `done` indices of `balances`.
spec fn listed_before(balances: Seq<UserBalanceView>, done: int, address: Seq<char>) -> bool {
    exists|j: int| 0 <= j < done && j < balances.len() && #[trigger] balances[j].address == address
}

/// The registry `c` is on its way to the registry `t`: it has the records of
/// `t` that are filed so far, the index of `current.address` is built as far as
/// `current`, and of the other indices those of the first `done` of `balances`.
spec fn on_the_way(
    c: RegistryView,
    t: RegistryView,
    balances: Seq<UserBalanceView>,
    done: int,
    current: UserBalanceView,
) -> bool {
    &&& c.consistent()
    &&& c.admin is None
    &&& c.key_counter == t.key_counter
    &&& forall|id: u64| #[trigger]
        c.keys.contains_key(id) ==> t.keys.contains_key(id) && c.keys[id] == t.keys[id]
    &&& forall|p: Seq<char>| !(#[trigger] c.accounts[p]).frozen
    &&& c.balance(current.address) == current
    &&& forall|p: Seq<char>|
        p != current.address ==> (#[trigger] c.accounts[p]).balance == (if listed_before(
            balances,
            done,
            p,
        ) {
            t.balance(p)
        } else {
            UserBalanceView::empty(p)
        })
}

impl DigitalContentAccessKeysContract {
    /// Files the records of the ids in bucket `b` of `balance`, and lists them
    /// in that bucket. Says whether all could be filed; if not, the registry
    /// `t` that is being put together is not sound.
    fn adopt_bucket(
        &mut self,
        env: &soroban_sdk::Env,
        keys: &Vec<AccessKey>,
        balance: &UserBalance,
        b: Bucket,
        Ghost(t): Ghost<RegistryView>,
        Ghost(balances): Ghost<Seq<UserBalanceView>>,
        Ghost(done): Ghost<int>,
    ) -> (filed: bool)
        requires
            old(self).parts_wf(),
            balance.typed(),
            on_the_way(old(self)@, t, balances, done, built(balance@, b, 0)),
            t.balance(balance@.address) == balance@,
            forall|p: Seq<char>| (#[trigger] t.accounts[p]).balance.address == p,
            balance@.count() <= u32::MAX,
            t.key_counter == keys.len(),
            forall|id: u64| #[trigger] t.keys.contains_key(id) <==> id < keys.len(),
            forall|i: int| 0 <= i < keys.len() ==> t.keys[i as u64] == (#[trigger] keys[i])@,
            forall|i: int| 0 <= i < keys.len() ==> (#[trigger] keys[i]).id == i && keys[i]@.wf(),
        ensures
            final(self).parts_wf(),
            filed ==> on_the_way(
                final(self)@,
                t,
                balances,
                done,
                built(balance@, b, balance@.bucket(b).len() as int),
            ),
            !filed ==> !t.wf(),
    {
        let ids = balance.bucket(b);
        let n: u32 = bucket_len(ids);
        let ghost full = balance@;
        let ghost listed = full.bucket(b);
        let mut i: u32 = 0;
        while i < n
            invariant
                i <= n,
                n == listed.len(),
                listed == full.bucket(b),
                listed == bucket_ids(*ids),
                bucket_typed(*ids),
                full == balance@,
                self.parts_wf(),
                on_the_way(self@, t, balances, done, built(full, b, i as int)),
                t.balance(full.address) == full,
                forall|p: Seq<char>| (#[trigger] t.accounts[p]).balance.address == p,
                full.count() <= u32::MAX,
                t.key_counter == keys.len(),
                forall|id: u64| #[trigger] t.keys.contains_key(id) <==> id < keys.len(),
                forall|i: int| 0 <= i < keys.len() ==> t.keys[i as u64] == (#[trigger] keys[i])@,
                forall|i: int|
                    0 <= i < keys.len() ==> (#[trigger] keys[i]).id == i && keys[i]@.wf(),
            decreases n - i,
        {
            let id = bucket_get(ids, i).unwrap();
            let ghost current = built(full, b, i as int);
            proof {
                assert(listed.contains(id));
                lemma_holds(full, id);
                assert(t.accounts[full.address].balance.holds(id));
                if t.wf() {
                    lemma_listed_once(t, id);
                }
            }
            if id >= keys.len() as u64 {
                return false;
            }
            let key = &keys[id as usize];
            if !key.owner.same_as(&balance.address) {
                return false;
            }
            if key.bucket() != b {
                proof {
                    if t.wf() {
                        assert(t.balance(t.keys[id].owner).bucket(b).contains(id));
                    }
                }
                return false;
            }
            if self.has_record(id) {
                proof {
                    assert(self@.keys[id] == t.keys[id]);
                    assert(self@.balance(full.address).bucket(b).contains(id));
                    assert(current.bucket(b) == listed.take(i as int));
                    let j = choose|j: int|
                        0 <= j < listed.take(i as int).len() && listed.take(i as int)[j] == id;
                    assert(listed[j] == listed[i as int]);
                    assert(!listed.no_duplicates());
                    assert(!t.accounts[full.address].balance.wf());
                }
                return false;
            }
            proof {
                assert(current.count() < full.count());
                assert(current.inserted(id, b) == built(full, b, i as int + 1)) by {
                    assert(listed.take(i as int).push(id) == listed.take(i as int + 1));
                }
            }
            self.adopt(env, key.clone());
            proof {
                let after = self@;
                let next = built(full, b, i as int + 1);
                assert(after.balance(full.address) == next);
                assert forall|p: Seq<char>| p != next.address implies (#[trigger] after.accounts[p]).balance
                    == (if listed_before(balances, done, p) {
                    t.balance(p)
                } else {
                    UserBalanceView::empty(p)
                }) by {}
            }
            i = i + 1;
        }
        true
    }
}

/// The registry `c` has the indices of the first `done` of `balances`, as the
/// registry `t` has them, and no other.
spec fn settled(c: RegistryView, t: RegistryView, balances: Seq<UserBalanceView>, done: int) -> bool {
    &&& c.consistent()
    &&& c.admin is None
    &&& c.key_counter == t.key_counter
    &&& forall|id: u64| #[trigger]
        c.keys.contains_key(id) ==> t.keys.contains_key(id) && c.keys[id] == t.keys[id]
    &&& forall|p: Seq<char>| !(#[trigger] c.accounts[p]).frozen
    &&& forall|p: Seq<char>| (#[trigger] c.accounts[p]).balance == (if listed_before(balances, done, p) {
        t.balance(p)
    } else {
        UserBalanceView::empty(p)
    })
}

impl DigitalContentAccessKeysContract {
    /// Puts a registry together from the records of `snapshot`, checking on
    /// the way that they fit together.
    ///
    /// Succeeds exactly when the buckets hold ids only and the records
    /// describe a sound registry and list no principal twice, and then gives
    /// that registry; fails with `ValidationError` otherwise.
    pub fn restore(
        env: &soroban_sdk::Env,
        snapshot: Snapshot,
    ) -> (restored: Result<DigitalContentAccessKeysContract, ContractError>)
        ensures
            match restored {
                Ok(contract) => snapshot.restorable() && contract.wf() && contract@ == snapshot@,
                Err(e) => e == ContractError::ValidationError && !snapshot.restorable(),
            },
    {
        let keys = &snapshot.keys;
        let balances = &snapshot.balances;
        let frozen_accounts = &snapshot.frozen_accounts;
        let ghost listed = balance_views(balances@);
        let ghost frozen = principal_views(frozen_accounts@);
        let ghost t = snapshot@;
        proof {
            assert forall|p: Seq<char>| (#[trigger] t.accounts[p]).balance.address == p by {
                lemma_listed_balance(listed, p);
            }
        }
        if !records_are_sound(keys) {
            proof {
                let i = choose|i: int| 0 <= i < keys.len() && !(keys[i].id == i && keys[i]@.wf());
                assert(t.keys.contains_key(i as u64));
                assert(t.keys[i as u64] == keys[i]@);
            }
            return Err(ContractError::ValidationError);
        }
        if !addresses_are_distinct(balances) {
            return Err(ContractError::ValidationError);
        }
        let mut contract = DigitalContentAccessKeysContract::with_counter(keys.len() as u64);
        let mut j: usize = 0;
        while j < balances.len()
            invariant
                j <= balances.len(),
                *keys == snapshot.keys,
                *balances == snapshot.balances,
                *frozen_accounts == snapshot.frozen_accounts,
                listed == balance_views(balances@),
                frozen == principal_views(frozen_accounts@),
                distinct_addresses(listed),
                t == snapshot@,
                forall|k: int| 0 <= k < j ==> (#[trigger] balances[k]).typed(),
                contract.parts_wf(),
                settled(contract@, t, listed, j as int),
                forall|p: Seq<char>| (#[trigger] t.accounts[p]).balance.address == p,
                forall|i: int|
                    0 <= i < keys.len() ==> (#[trigger] keys[i]).id == i && keys[i]@.wf(),
            decreases balances.len() - j,
        {
            let balance = &balances[j];
            let ghost full = balance@;
            if !balance.is_typed() {
                return Err(ContractError::ValidationError);
            }
            proof {
                assert(full == listed[j as int]);
                lemma_listed_balance(listed, full.address);
                assert(t.balance(full.address) == full);
                assert(!listed_before(listed, j as int, full.address));
                assert(full.active_keys.take(0) =~= Seq::<u64>::empty());
                assert(built(full, Bucket::Active, 0) == UserBalanceView::empty(full.address));
            }
            let (active, expired, held) = balance.counts();
            if active as u64 + expired as u64 + held as u64 > u32::MAX as u64 {
                proof {
                    assert(!t.accounts[full.address].balance.wf());
                }
                return Err(ContractError::ValidationError);
            }
            let filed = contract.adopt_bucket(
                env,
                keys,
                balance,
                Bucket::Active,
                Ghost(t),
                Ghost(listed),
                Ghost(j as int),
            );
            if !filed {
                return Err(ContractError::ValidationError);
            }
            proof {
                assert(full.active_keys.take(full.active_keys.len() as int) == full.active_keys);
                assert(full.expired_keys.take(0) =~= Seq::<u64>::empty());
                assert(built(full, Bucket::Active, full.active_keys.len() as int) == built(
                    full,
                    Bucket::Expired,
                    0,
                ));
            }
            let filed = contract.adopt_bucket(
                env,
                keys,
                balance,
                Bucket::Expired,
                Ghost(t),
                Ghost(listed),
                Ghost(j as int),
            );
            if !filed {
                return Err(ContractError::ValidationError);
            }
            proof {
                assert(full.expired_keys.take(full.expired_keys.len() as int) == full.expired_keys);
                assert(full.frozen_keys.take(0) =~= Seq::<u64>::empty());
                assert(built(full, Bucket::Expired, full.expired_keys.len() as int) == built(
                    full,
                    Bucket::Frozen,
                    0,
                ));
            }
            let filed = contract.adopt_bucket(
                env,
                keys,
                balance,
                Bucket::Frozen,
                Ghost(t),
                Ghost(listed),
                Ghost(j as int),
            );
            if !filed {
                return Err(ContractError::ValidationError);
            }
            proof {
                assert(full.frozen_keys.take(full.frozen_keys.len() as int) == full.frozen_keys);
                assert(built(full, Bucket::Frozen, full.frozen_keys.len() as int) == full);
                let c = contract@;
                assert forall|p: Seq<char>| (#[trigger] c.accounts[p]).balance == (if listed_before(
                    listed,
                    j as int + 1,
                    p,
                ) {
                    t.balance(p)
                } else {
                    UserBalanceView::empty(p)
                }) by {
                    if p == full.address {
                        assert(listed[j as int].address == p);
                    } else {
                        if listed_before(listed, j as int + 1, p) {
                            let w = choose|w: int|
                                0 <= w < j as int + 1 && w < listed.len() && #[trigger] listed[w].address
                                    == p;
                            assert(w < j as int);
                            assert(listed_before(listed, j as int, p));
                        }
                        if listed_before(listed, j as int, p) {
                            let w = choose|w: int|
                                0 <= w < j as int && w < listed.len() && #[trigger] listed[w].address
                                    == p;
                            assert(listed_before(listed, j as int + 1, p));
                        }
                    }
                }
            }
            j = j + 1;
        }
        proof {
            let c = contract@;
            assert forall|p: Seq<char>| (#[trigger] c.accounts[p]).balance == t.balance(p) by {
                lemma_listed_balance(listed, p);
                if !listed_before(listed, j as int, p) {
                    assert forall|w: int| 0 <= w < listed.len() implies listed[w].address != p by {
                        if listed[w].address == p {
                            assert(listed_before(listed, j as int, p));
                        }
                    }
                }
            }
        }
        assert(snapshot.typed());
        let mut id: usize = 0;
        while id < keys.len()
            invariant
                id <= keys.len(),
                snapshot.typed(),
                contract.consistent(),
                *keys == snapshot.keys,
                *balances == snapshot.balances,
                *frozen_accounts == snapshot.frozen_accounts,
                listed == balance_views(balances@),
                frozen == principal_views(frozen_accounts@),
                distinct_addresses(listed),
                t == snapshot@,
                contract@.admin is None,
                contract@.key_counter == keys.len(),
                forall|x: u64| #[trigger]
                    contract@.keys.contains_key(x) ==> t.keys.contains_key(x) && contract@.keys[x]
                        == t.keys[x],
                forall|p: Seq<char>| !(#[trigger] contract@.accounts[p]).frozen,
                forall|p: Seq<char>| (#[trigger] contract@.accounts[p]).balance == t.balance(p),
                forall|x: u64| x < id ==> #[trigger] contract@.keys.contains_key(x),
            decreases keys.len() - id,
        {
            if !contract.has_record(id as u64) {
                proof {
                    if t.wf() {
                        let x = id as u64;
                        let owner = t.keys[x].owner;
                        assert(t.keys.contains_key(x));
                        lemma_listed_once(t, x);
                        assert(t.balance(owner).holds(x));
                        assert(contract@.accounts[owner].balance.holds(x));
                    }
                }
                return Err(ContractError::ValidationError);
            }
            id = id + 1;
        }
        let mut f: usize = 0;
        while f < frozen_accounts.len()
            invariant
                f <= frozen_accounts.len(),
                snapshot.typed(),
                *keys == snapshot.keys,
                *balances == snapshot.balances,
                *frozen_accounts == snapshot.frozen_accounts,
                listed == balance_views(balances@),
                frozen == principal_views(frozen_accounts@),
                distinct_addresses(listed),
                t == snapshot@,
                contract.wf(),
                contract@.admin is None,
                contract@.key_counter == keys.len(),
                forall|x: u64| #[trigger]
                    contract@.keys.contains_key(x) ==> t.keys.contains_key(x) && contract@.keys[x]
                        == t.keys[x],
                forall|p: Seq<char>| (#[trigger] contract@.accounts[p]).balance == t.balance(p),
                forall|p: Seq<char>| (#[trigger] contract@.accounts[p]).frozen == frozen.take(
                    f as int,
                ).contains(p),
            decreases frozen_accounts.len() - f,
        {
            let ghost before = contract@;
            contract.mark_account(env, &frozen_accounts[f], true);
            proof {
                let who = frozen[f as int];
                assert(who == frozen_accounts@[f as int]@);
                assert(frozen.take(f as int + 1) == frozen.take(f as int).push(who));
                assert forall|p: Seq<char>| (#[trigger] contract@.accounts[p]).frozen == frozen.take(
                    f as int + 1,
                ).contains(p) by {
                    lemma_pushed_contains(frozen.take(f as int), who, p);
                }
            }
            f = f + 1;
        }
        contract.install_admin(snapshot.admin);
        proof {
            assert(frozen.take(f as int) == frozen);
            assert(contract@.keys =~= t.keys);
            assert(contract@.accounts =~= t.accounts);
            assert(contract@ == t);
        }
        Ok(contract)
    }
}

impl DigitalContentAccessKeysContract {
    /// Takes the registry apart into its records. The records describe the
    /// registry exactly, so that `restore` gives it back.
    pub fn export(&self, env: &soroban_sdk::Env) -> (snapshot: Snapshot)
        requires
            self.wf(),
        ensures
            snapshot@ == self@,
            snapshot.restorable(),
    {
        let admin = self.admin();
        let counter = self.key_counter();
        let mut keys: Vec<AccessKey> = Vec::new();
        let mut id: u64 = 0;
        while id < counter
            invariant
                id <= counter,
                counter == self@.key_counter,
                self.wf(),
                keys.len() == id,
                forall|i: int| 0 <= i < id ==> (#[trigger] keys[i])@ == self@.keys[i as u64],
            decreases counter - id,
        {
            assert(self@.keys.contains_key(id));
            let key = self.get_key_details(id).unwrap();
            keys.push(key);
            id = id + 1;
        }
        let holders = self.holders();
        let mut balances: Vec<UserBalance> = Vec::new();
        let mut frozen_accounts: Vec<Principal> = Vec::new();
        let mut h: usize = 0;
        while h < holders.len()
            invariant
                h <= holders.len(),
                self.wf(),
                balances.len() == h,
                forall|i: int| 0 <= i < h ==> (#[trigger] balances[i])@ == self@.balance(holders[i]@),
                forall|i: int| 0 <= i < h ==> (#[trigger] balances[i]).typed(),
                forall|p: Seq<char>| #[trigger]
                    principal_views(frozen_accounts@).contains(p) <==> frozen_among(
                        self@,
                        holders@,
                        h as int,
                        p,
                    ),
            decreases holders.len() - h,
        {
            balances.push(self.get_balance(env, &holders[h]));
            let ghost listed = principal_views(frozen_accounts@);
            let ghost who = holders[h as int]@;
            if self.is_account_frozen(&holders[h]) {
                frozen_accounts.push(holders[h].clone());
                proof {
                    assert(principal_views(frozen_accounts@) == listed.push(who));
                }
            }
            proof {
                assert forall|p: Seq<char>| #[trigger]
                    principal_views(frozen_accounts@).contains(p) <==> frozen_among(
                        self@,
                        holders@,
                        h as int + 1,
                        p,
                    ) by {
                    lemma_pushed_contains(listed, who, p);
                    lemma_frozen_among(self@, holders@, h as int, p);
                    assert(listed.contains(p) <==> frozen_among(self@, holders@, h as int, p));
                }
            }
            h = h + 1;
        }
        let snapshot = Snapshot { admin, keys, balances, frozen_accounts };
        proof {
            let listed = balance_views(snapshot.balances@);
            let s = self@;
            assert forall|i: int| 0 <= i < listed.len() implies (#[trigger] listed[i]).address
                == holders[i]@ by {
                assert(s.accounts[holders[i]@].balance.address == holders[i]@);
            }
            assert(distinct_addresses(listed));
            let marked = principal_views(snapshot.frozen_accounts@);
            assert forall|p: Seq<char>| #[trigger] snapshot@.accounts[p] == s.accounts[p] by {
                lemma_listed_balance(listed, p);
                assert(marked.contains(p) <==> frozen_among(s, holders@, holders.len() as int, p));
                if exists|i: int| 0 <= i < holders.len() && #[trigger] holders[i]@ == p {
                    let i = choose|i: int| 0 <= i < holders.len() && #[trigger] holders[i]@ == p;
                    assert(listed[i].address == p);
                    assert(listed_balance(listed, p) == listed[i]);
                    assert(holders@[i]@ == p);
                } else {
                    assert(forall|i: int| 0 <= i < holders.len() ==> holders[i]@ != p);
                    assert(s.accounts[p] == AccountView::blank(p));
                    assert forall|j: int| 0 <= j < listed.len() implies listed[j].address != p by {
                        assert(listed[j].address == holders[j]@);
                    }
                }
            }
            assert(snapshot@.accounts =~= s.accounts);
            assert(snapshot@.keys =~= s.keys);
            assert(admin_view(snapshot.admin) == s.admin);
        }
        snapshot
    }
}

/// Whether `p` is one of the first `n` of `holders` and has a frozen account.
spec fn frozen_among(s: RegistryView, holders: Seq<Principal>, n: int, p: Seq<char>) -> bool {
    s.account_frozen(p) && exists|i: int| 0 <= i < n && i < holders.len() && #[trigger] holders[i]@ == p
}

/// One holder more: it is among the frozen ones if its own account is frozen.
proof fn lemma_frozen_among(s: RegistryView, holders: Seq<Principal>, n: int, p: Seq<char>)
    requires
        0 <= n < holders.len(),
    ensures
        frozen_among(s, holders, n + 1, p) <==> frozen_among(s, holders, n, p) || (p == holders[n]@
            && s.account_frozen(p)),
{
    if frozen_among(s, holders, n, p) {
        let i = choose|i: int| 0 <= i < n && i < holders.len() && #[trigger] holders[i]@ == p;
        assert(0 <= i < n + 1 && holders[i]@ == p);
    }
    if p == holders[n]@ && s.account_frozen(p) {
        assert(0 <= n < n + 1 && holders[n]@ == p);
    }
    if frozen_among(s, holders, n + 1, p) {
        let i = choose|i: int| 0 <= i < n + 1 && i < holders.len() && #[trigger] holders[i]@ == p;
        if i < n {
            assert(frozen_among(s, holders, n, p));
        }
    }
}

/// A principal is in `list.push(who)` if it is in `list` or is `who` itself.
proof fn lemma_pushed_contains(list: Seq<Seq<char>>, who: Seq<char>, p: Seq<char>)
    ensures
        list.push(who).contains(p) <==> list.contains(p) || p == who,
{
    let pushed = list.push(who);
    if list.contains(p) {
        let i = choose|i: int| 0 <= i < list.len() && list[i] == p;
        assert(pushed[i] == p);
    }
    if p == who {
        assert(pushed[list.len() as int] == p);
    }
    if pushed.contains(p) {
        let i = choose|i: int| 0 <= i < pushed.len() && pushed[i] == p;
        if i < list.len() {
            assert(list[i] == p);
        }
    }
}

} // verus!
