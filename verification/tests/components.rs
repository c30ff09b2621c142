use digital_content_access_keys::bucket::{bucket_is_typed, checked_remove_id, remove_id};
use digital_content_access_keys::{
    AccessKey, Bucket, ContractError, CredentialStore, OwnershipIndex, Principal, UserBalance,
};
use soroban_sdk::{Env, IntoVal, TryFromVal, Val};

fn principal(name: &str) -> Principal {
    Principal::new(name.to_string())
}

fn record(id: u64, owner: &str) -> AccessKey {
    AccessKey {
        id,
        owner: principal(owner),
        content_name: b"content".to_vec(),
        price: 3,
        duration_days: 1,
        created_at: 10,
        expires_at: 86_410,
        is_active: true,
        is_frozen: false,
        transferable: true,
    }
}

fn ids(bucket: &soroban_sdk::Vec<u64>) -> Vec<u64> {
    bucket.iter().collect()
}

#[test]
fn principals_compare_by_address() {
    let a = principal("GABC");
    assert!(a.same_as(&principal("GABC")));
    assert!(!a.same_as(&principal("GABD")));
    assert!(a == a.clone());
    assert!(a != principal(""));
    assert_eq!(a.as_str(), "GABC");
}

#[test]
fn key_bucket_follows_flags() {
    let mut key = record(0, "a");
    assert_eq!(key.bucket(), Bucket::Active);
    key.is_active = false;
    assert_eq!(key.bucket(), Bucket::Expired);
    key.is_frozen = true;
    assert_eq!(key.bucket(), Bucket::Frozen);
    key.is_active = true;
    assert_eq!(key.bucket(), Bucket::Frozen);
}

#[test]
fn key_grants_owner_until_expiry() {
    let key = record(0, "a");
    assert!(key.grants(&principal("a"), 86_409));
    assert!(!key.grants(&principal("a"), 86_410));
    assert!(!key.grants(&principal("b"), 0));
    let copy = key.clone();
    assert_eq!(copy.id, 0);
    assert_eq!(copy.owner, principal("a"));
    assert_eq!(copy.content_name, b"content".to_vec());
    assert_eq!(copy.expires_at, 86_410);
}

#[test]
fn remove_id_keeps_the_order_of_the_rest() {
    let env = Env::default();
    let mut bucket: soroban_sdk::Vec<u64> = soroban_sdk::Vec::new(&env);
    for id in [5u64, 7, 5, 9, 1, 5] {
        bucket.push_back(id);
    }
    remove_id(&env, &mut bucket, 5);
    assert_eq!(ids(&bucket), vec![7, 9, 1]);
    remove_id(&env, &mut bucket, 4);
    assert_eq!(ids(&bucket), vec![7, 9, 1]);
    remove_id(&env, &mut bucket, 1);
    assert_eq!(ids(&bucket), vec![7, 9]);
}

#[test]
fn balance_insert_move_remove() {
    let env = Env::default();
    let mut balance = UserBalance::new(&env, principal("a"));
    assert_eq!(balance.counts(), (0, 0, 0));
    balance.insert(1, Bucket::Active);
    balance.insert(2, Bucket::Active);
    balance.insert(3, Bucket::Expired);
    balance.insert(4, Bucket::Frozen);
    assert_eq!(balance.counts(), (2, 1, 1));
    assert_eq!(ids(balance.bucket(Bucket::Active)), vec![1, 2]);

    balance.move_key(&env, 1, Bucket::Active, Bucket::Expired);
    assert_eq!(ids(&balance.active_keys), vec![2]);
    assert_eq!(ids(&balance.expired_keys), vec![3, 1]);

    // Moving from a bucket that does not list the id still appends it.
    balance.move_key(&env, 9, Bucket::Active, Bucket::Frozen);
    assert_eq!(ids(&balance.active_keys), vec![2]);
    assert_eq!(ids(&balance.frozen_keys), vec![4, 9]);

    balance.drop_from(&env, 3, Bucket::Active);
    assert_eq!(ids(&balance.expired_keys), vec![3, 1]);
    balance.remove(&env, 3);
    balance.remove(&env, 9);
    assert_eq!(balance.counts(), (1, 1, 1));

    let copy = balance.clone();
    balance.insert(8, Bucket::Active);
    assert_eq!(ids(&copy.active_keys), vec![2]);
    assert_eq!(ids(&balance.active_keys), vec![2, 8]);
    assert_eq!(copy.address, principal("a"));
}

#[test]
fn index_keeps_principals_apart() {
    let env = Env::default();
    let a = principal("a");
    let b = principal("b");
    let mut index = OwnershipIndex::new();
    assert_eq!(index.balances(&a), (0, 0, 0));
    assert_eq!(index.holders().len(), 0);

    index.insert(&env, &a, 1, Bucket::Active);
    index.insert(&env, &b, 2, Bucket::Active);
    index.insert(&env, &a, 3, Bucket::Expired);
    assert_eq!(index.balances(&a), (1, 1, 0));
    assert_eq!(index.balances(&b), (1, 0, 0));
    assert_eq!(index.holders(), vec![a.clone(), b.clone()]);

    index.move_key(&env, &a, 1, Bucket::Active, Bucket::Frozen);
    assert_eq!(index.balances(&a), (0, 1, 1));
    index.remove(&env, &b, 2);
    index.remove(&env, &b, 1);
    assert_eq!(index.balances(&b), (0, 0, 0));
    assert_eq!(ids(&index.get_balance(&env, &a).frozen_keys), vec![1]);

    let mut copy = index.get_balance(&env, &a);
    copy.insert(7, Bucket::Active);
    assert_eq!(index.balances(&a), (0, 1, 1));
    index.put(&env, copy);
    assert_eq!(index.balances(&a), (1, 1, 1));
    assert_eq!(index.get_balance(&env, &principal("c")).address, principal("c"));
}

#[test]
fn index_account_flags() {
    let env = Env::default();
    let a = principal("a");
    let mut index = OwnershipIndex::new();
    assert!(!index.is_account_frozen(&a));
    index.insert(&env, &a, 1, Bucket::Active);
    index.set_account_frozen(&env, &a, true);
    index.set_account_frozen(&env, &principal("b"), true);
    assert!(index.is_account_frozen(&a));
    assert!(index.is_account_frozen(&principal("b")));
    assert_eq!(index.balances(&a), (1, 0, 0));
    index.insert(&env, &a, 2, Bucket::Active);
    assert!(index.is_account_frozen(&a));
    index.set_account_frozen(&env, &a, false);
    assert!(!index.is_account_frozen(&a));
    assert_eq!(index.balances(&a), (2, 0, 0));
}

#[test]
fn store_create_get_update() {
    let mut store = CredentialStore::new();
    assert!(store.get(0).is_none());
    assert!(!store.contains(0));
    assert_eq!(store.create(record(0, "a")), Ok(()));
    assert_eq!(store.create(record(5, "b")), Ok(()));
    assert_eq!(store.create(record(0, "c")), Err(ContractError::AlreadyExists));
    assert_eq!(store.get(0).unwrap().owner, principal("a"));
    assert!(store.contains(5));

    assert_eq!(store.update(1, record(1, "a")), Err(ContractError::NotFound));
    assert_eq!(store.update(0, record(5, "a")), Err(ContractError::ValidationError));
    assert_eq!(store.get(0).unwrap().owner, principal("a"));
    assert_eq!(store.update(0, record(0, "z")), Ok(()));
    assert_eq!(store.get(0).unwrap().owner, principal("z"));
    assert_eq!(store.get(5).unwrap().owner, principal("b"));
}

/// A handle typed `Vec<u64>` to a host vector whose middle item is no `u64`.
fn mistyped_bucket(env: &Env) -> soroban_sdk::Vec<u64> {
    let mut raw: soroban_sdk::Vec<Val> = soroban_sdk::Vec::new(env);
    raw.push_back(4u64.into_val(env));
    raw.push_back(true.into_val(env));
    raw.push_back(6u64.into_val(env));
    soroban_sdk::Vec::<u64>::try_from_val(env, &raw.to_val()).unwrap()
}

#[test]
fn buckets_are_tested_for_their_items() {
    let env = Env::default();
    let mut good: soroban_sdk::Vec<u64> = soroban_sdk::Vec::new(&env);
    assert!(bucket_is_typed(&good));
    good.push_back(u64::MAX);
    good.push_back(0);
    assert!(bucket_is_typed(&good));

    let bad = mistyped_bucket(&env);
    assert_eq!(bad.len(), 3);
    assert!(!bucket_is_typed(&bad));

    let mut balance = UserBalance::new(&env, principal("a"));
    balance.insert(1, Bucket::Active);
    assert!(balance.is_typed());
    assert!(balance.clone().is_typed());
    balance.expired_keys = bad;
    assert!(!balance.is_typed());
    balance.insert(2, Bucket::Expired);
    assert!(!balance.is_typed());
    assert_eq!(balance.counts(), (1, 4, 0));
}

#[test]
fn checked_operations_leave_a_mistyped_bucket_alone() {
    let env = Env::default();
    let mut bad = mistyped_bucket(&env);
    assert_eq!(checked_remove_id(&env, &mut bad, 4), false);
    assert_eq!(bad.len(), 3);

    let mut good: soroban_sdk::Vec<u64> = soroban_sdk::Vec::new(&env);
    for id in [4u64, 5, 4] {
        good.push_back(id);
    }
    assert_eq!(checked_remove_id(&env, &mut good, 4), true);
    assert_eq!(ids(&good), vec![5]);

    let mut balance = UserBalance::new(&env, principal("a"));
    balance.insert(1, Bucket::Active);
    balance.insert(2, Bucket::Active);
    assert_eq!(balance.checked_move_key(&env, 1, Bucket::Active, Bucket::Frozen), true);
    assert_eq!(balance.checked_remove(&env, 2), true);
    assert_eq!(balance.counts(), (0, 0, 1));

    balance.active_keys = mistyped_bucket(&env);
    assert_eq!(balance.checked_remove(&env, 1), false);
    assert_eq!(balance.checked_move_key(&env, 1, Bucket::Frozen, Bucket::Expired), false);
    assert_eq!(balance.counts(), (3, 0, 1));
    assert_eq!(ids(&balance.frozen_keys), vec![1]);

    let mut index = OwnershipIndex::new();
    assert_eq!(index.checked_put(&env, balance), false);
    assert_eq!(index.balances(&principal("a")), (0, 0, 0));
    let mut sound = UserBalance::new(&env, principal("a"));
    sound.insert(9, Bucket::Expired);
    assert_eq!(index.checked_put(&env, sound), true);
    assert_eq!(index.balances(&principal("a")), (0, 1, 0));
}
