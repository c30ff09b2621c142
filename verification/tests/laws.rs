use digital_content_access_keys::{
    ContractError, DigitalContentAccessKeysContract, Principal, SECONDS_PER_DAY,
};
use soroban_sdk::Env;

fn principal(name: &str) -> Principal {
    Principal::new(name.to_string())
}

fn ids(bucket: &soroban_sdk::Vec<u64>) -> Vec<u64> {
    bucket.iter().collect()
}

/// Every id that the buckets of `users` list, with the place where it stands.
fn listings(
    registry: &DigitalContentAccessKeysContract,
    env: &Env,
    users: &[&Principal],
) -> Vec<u64> {
    let mut all = Vec::new();
    for user in users {
        let balance = registry.get_balance(env, user);
        all.extend(ids(&balance.active_keys));
        all.extend(ids(&balance.expired_keys));
        all.extend(ids(&balance.frozen_keys));
    }
    all
}

#[test]
fn minted_ids_are_all_different() {
    let env = Env::default();
    let a = principal("a");
    let b = principal("b");
    let mut registry = DigitalContentAccessKeysContract::new();
    let mut seen = Vec::new();
    for round in 0..6u64 {
        let owner = if round % 2 == 0 { &a } else { &b };
        let id = registry.mint_key(&env, owner, b"c".to_vec(), 0, 1, true, round).unwrap().key_id;
        assert!(!seen.contains(&id));
        seen.push(id);
        // Refused calls and other operations between two mints take no id.
        assert!(registry.mint_key(&env, owner, b"c".to_vec(), -1, 1, true, round).is_err());
        registry.update_expired_keys(&env, &a, round);
        if round == 2 {
            registry.initialize(principal("admin")).unwrap();
        }
    }
    assert_eq!(seen, vec![0, 1, 2, 3, 4, 5]);
    assert_eq!(registry.key_counter(), 6);
}

#[test]
fn every_key_stands_in_one_bucket_of_one_principal() {
    let env = Env::default();
    let admin = principal("admin");
    let a = principal("a");
    let b = principal("b");
    let users = [&admin, &a, &b];
    let mut registry = DigitalContentAccessKeysContract::new();
    registry.initialize(admin.clone()).unwrap();

    let check = |registry: &DigitalContentAccessKeysContract| {
        let mut all = listings(registry, &env, &users);
        all.sort();
        let issued: Vec<u64> = (0..registry.key_counter()).collect();
        assert_eq!(all, issued);
    };
    for days in [1u64, 2, 1, 2] {
        registry.mint_key(&env, &a, b"c".to_vec(), 0, days, true, 0).unwrap();
        check(&registry);
    }
    registry.transfer_key(&env, 0, &a, &b, 0, 0).unwrap();
    check(&registry);
    registry.transfer_key(&env, 1, &a, &a, 0, 0).unwrap();
    check(&registry);
    registry.freeze_account(&env, &admin, 1).unwrap();
    check(&registry);
    registry.freeze_account(&env, &a, 1).unwrap();
    check(&registry);
    registry.update_expired_keys(&env, &a, SECONDS_PER_DAY);
    registry.update_expired_keys(&env, &b, SECONDS_PER_DAY);
    check(&registry);
    registry.freeze_account(&env, &admin, 0).unwrap();
    check(&registry);
    registry.release_key(&env, &admin, 1, SECONDS_PER_DAY).unwrap();
    registry.release_key(&env, &admin, 0, SECONDS_PER_DAY).unwrap();
    check(&registry);
    assert!(registry.transfer_key(&env, 3, &a, &b, 0, SECONDS_PER_DAY).is_ok());
    check(&registry);
}

#[test]
fn refused_transfer_changes_nothing() {
    let env = Env::default();
    let a = principal("a");
    let b = principal("b");
    let mut registry = DigitalContentAccessKeysContract::new();
    let key = registry.mint_key(&env, &a, b"c".to_vec(), 0, 1, false, 0).unwrap().key_id;
    let other = registry.mint_key(&env, &a, b"c".to_vec(), 0, 1, true, 0).unwrap().key_id;

    let refused = registry.transfer_key(&env, key, &a, &b, 0, 0);
    assert_eq!(refused.unwrap_err(), ContractError::NotTransferable);
    assert_eq!(ids(&registry.get_balance(&env, &a).active_keys), vec![key, other]);
    assert_eq!(registry.get_balance(&env, &b).active_keys.len(), 0);
    assert_eq!(registry.get_key_details(key).unwrap().owner, a);

    // A transfer that succeeds does all three things, and nothing to the other key.
    registry.transfer_key(&env, other, &a, &b, 0, 0).unwrap();
    assert_eq!(ids(&registry.get_balance(&env, &a).active_keys), vec![key]);
    assert_eq!(ids(&registry.get_balance(&env, &b).active_keys), vec![other]);
    assert_eq!(registry.get_key_details(other).unwrap().owner, b);
    assert_eq!(registry.get_key_details(key).unwrap().owner, a);
}

#[test]
fn transfer_to_oneself_moves_the_key_last() {
    let env = Env::default();
    let a = principal("a");
    let mut registry = DigitalContentAccessKeysContract::new();
    for _ in 0..3 {
        registry.mint_key(&env, &a, b"c".to_vec(), 0, 1, true, 0).unwrap();
    }
    registry.transfer_key(&env, 0, &a, &a, 0, 0).unwrap();
    assert_eq!(ids(&registry.get_balance(&env, &a).active_keys), vec![1, 2, 0]);
    assert_eq!(registry.get_key_details(0).unwrap().owner, a);
}

#[test]
fn second_sweep_reports_no_change() {
    let env = Env::default();
    let a = principal("a");
    let mut registry = DigitalContentAccessKeysContract::new();
    for days in [1u64, 5, 2, 5, 1] {
        registry.mint_key(&env, &a, b"c".to_vec(), 0, days, true, 0).unwrap();
    }
    let now = 2 * SECONDS_PER_DAY;
    assert_eq!(registry.update_expired_keys(&env, &a, now), true);
    let balance = registry.get_balance(&env, &a);
    assert_eq!(ids(&balance.active_keys), vec![1, 3]);
    assert_eq!(ids(&balance.expired_keys), vec![0, 2, 4]);

    assert_eq!(registry.update_expired_keys(&env, &a, now), false);
    let balance = registry.get_balance(&env, &a);
    assert_eq!(ids(&balance.active_keys), vec![1, 3]);
    assert_eq!(ids(&balance.expired_keys), vec![0, 2, 4]);
    assert_eq!(registry.update_expired_keys(&env, &principal("b"), now), false);
}

#[test]
fn frozen_key_grants_no_one_until_released() {
    let env = Env::default();
    let admin = principal("admin");
    let a = principal("a");
    let b = principal("b");
    let mut registry = DigitalContentAccessKeysContract::new();
    registry.initialize(admin.clone()).unwrap();
    let key = registry.mint_key(&env, &a, b"c".to_vec(), 0, 9, true, 0).unwrap().key_id;
    let other = registry.mint_key(&env, &a, b"c".to_vec(), 0, 9, true, 0).unwrap().key_id;
    registry.freeze_account(&env, &admin, key).unwrap();

    let no_access = |registry: &DigitalContentAccessKeysContract| {
        for user in [&admin, &a, &b] {
            for now in [0, 1, 8 * SECONDS_PER_DAY] {
                assert_eq!(registry.verify_access(user, key, now), false);
            }
        }
    };
    no_access(&registry);
    registry.update_expired_keys(&env, &a, 1);
    registry.mint_key(&env, &b, b"c".to_vec(), 0, 1, true, 1).unwrap();
    registry.transfer_key(&env, other, &a, &b, 0, 1).unwrap();
    registry.set_account_frozen(&env, &admin, &a, true).unwrap();
    registry.release_key(&env, &admin, other, 1).unwrap();
    assert!(registry.release_key(&env, &b, key, 1).is_err());
    no_access(&registry);

    registry.release_key(&env, &a, key, 1).unwrap();
    assert_eq!(registry.verify_access(&a, key, 1), true);
}

#[test]
fn sweep_changes_no_access_from_then_on() {
    let env = Env::default();
    let a = principal("a");
    let mut swept = DigitalContentAccessKeysContract::new();
    let mut unswept = DigitalContentAccessKeysContract::new();
    for registry in [&mut swept, &mut unswept] {
        for days in [1u64, 2, 3] {
            registry.mint_key(&env, &a, b"c".to_vec(), 0, days, true, 0).unwrap();
        }
    }
    let now = 2 * SECONDS_PER_DAY;
    assert!(swept.update_expired_keys(&env, &a, now));
    for id in 0..3u64 {
        for at in [now, now + 1, 3 * SECONDS_PER_DAY - 1, 3 * SECONDS_PER_DAY] {
            assert_eq!(swept.verify_access(&a, id, at), unswept.verify_access(&a, id, at));
        }
    }
    assert_eq!(swept.verify_access(&a, 2, now), true);
    assert_eq!(swept.get_user_keys(&env, &a).len(), 3);
}
