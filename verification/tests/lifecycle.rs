use digital_content_access_keys::{
    ContractError, DigitalContentAccessKeysContract, Principal, SECONDS_PER_DAY,
};
use soroban_sdk::Env;

fn principal(name: &str) -> Principal {
    Principal::new(name.to_string())
}

fn registry_with_admin(admin: &Principal) -> DigitalContentAccessKeysContract {
    let mut registry = DigitalContentAccessKeysContract::new();
    registry.initialize(admin.clone()).unwrap();
    registry
}

#[test]
fn test_mint_key() {
    let env = Env::default();
    let admin = principal("admin");
    let user = principal("user");
    let mut registry = registry_with_admin(&admin);

    let minted = registry
        .mint_key(&env, &user, b"Premium Course".to_vec(), 100i128, 30u64, true, 0)
        .unwrap();
    let key_id = minted.key_id;

    let key_details = registry.get_key_details(key_id).unwrap();
    assert_eq!(key_details.owner, user);
    assert_eq!(key_details.content_name, b"Premium Course".to_vec());
    assert_eq!(key_details.price, 100i128);
    assert_eq!(key_details.duration_days, 30u64);
    assert_eq!(key_details.is_active, true);
    assert_eq!(key_details.is_frozen, false);

    let balance = registry.get_balance(&env, &user);
    assert_eq!(balance.active_keys.len(), 1);
    assert_eq!(balance.active_keys.get(0).unwrap(), key_id);
}

#[test]
fn test_transfer_key() {
    let env = Env::default();
    let admin = principal("admin");
    let user1 = principal("user1");
    let user2 = principal("user2");
    let mut registry = registry_with_admin(&admin);

    let key_id = registry
        .mint_key(&env, &user1, b"Premium Course".to_vec(), 100i128, 30u64, true, 0)
        .unwrap()
        .key_id;

    let result = registry.transfer_key(&env, key_id, &user1, &user2, 50i128, 0);
    assert_eq!(result.is_ok(), true);

    let key_details = registry.get_key_details(key_id).unwrap();
    assert_eq!(key_details.owner, user2);

    let balance1 = registry.get_balance(&env, &user1);
    let balance2 = registry.get_balance(&env, &user2);
    assert_eq!(balance1.active_keys.len(), 0);
    assert_eq!(balance2.active_keys.len(), 1);
}

#[test]
fn test_verify_access() {
    let env = Env::default();
    let admin = principal("admin");
    let user = principal("user");
    let other_user = principal("other");
    let mut registry = registry_with_admin(&admin);

    let key_id = registry
        .mint_key(&env, &user, b"Premium Course".to_vec(), 100i128, 30u64, true, 0)
        .unwrap()
        .key_id;

    assert_eq!(registry.verify_access(&user, key_id, 0), true);
    assert_eq!(registry.verify_access(&other_user, key_id, 0), false);
}

#[test]
fn test_freeze_account() {
    let env = Env::default();
    let admin = principal("admin");
    let user = principal("user");
    let mut registry = registry_with_admin(&admin);

    let key_id = registry
        .mint_key(&env, &user, b"Premium Course".to_vec(), 100i128, 30u64, true, 0)
        .unwrap()
        .key_id;

    let event = registry.freeze_account(&env, &admin, key_id).unwrap();
    assert_eq!(event.key_id, key_id);
    assert_eq!(event.owner, user);

    let key_details = registry.get_key_details(key_id).unwrap();
    assert_eq!(key_details.is_frozen, true);
    assert_eq!(key_details.is_active, false);

    let balance = registry.get_balance(&env, &user);
    assert_eq!(balance.active_keys.len(), 0);
    assert_eq!(balance.frozen_keys.len(), 1);
    assert_eq!(registry.verify_access(&user, key_id, 0), false);
}

#[test]
fn mint_records_owner_terms_and_expiry() {
    let env = Env::default();
    let u1 = principal("U1");
    let mut registry = DigitalContentAccessKeysContract::new();
    let now = 1_700_000_000u64;

    let event = registry
        .mint_key(&env, &u1, b"course".to_vec(), 5, 30, true, now)
        .unwrap();
    assert_eq!(event.key_id, 0);
    assert_eq!(event.owner, u1);
    assert_eq!(event.content_name, b"course".to_vec());
    assert_eq!(event.price, 5);
    assert_eq!(event.duration_days, 30);

    let key = registry.get_key_details(0).unwrap();
    assert_eq!(key.id, 0);
    assert_eq!(key.owner, u1);
    assert_eq!(key.created_at, now);
    assert_eq!(key.expires_at, now + 2_592_000);
    assert_eq!(key.expires_at, now + 30 * SECONDS_PER_DAY);
    assert!(key.transferable);
    assert_eq!(registry.key_counter(), 1);

    let balance = registry.get_balance(&env, &u1);
    assert_eq!(balance.address, u1);
    assert_eq!(balance.active_keys.len(), 1);
    assert_eq!(balance.expired_keys.len(), 0);
    assert_eq!(balance.frozen_keys.len(), 0);
}

#[test]
fn transfer_moves_key_and_access() {
    let env = Env::default();
    let u1 = principal("U1");
    let u2 = principal("U2");
    let mut registry = DigitalContentAccessKeysContract::new();
    let k = registry.mint_key(&env, &u1, b"course".to_vec(), 0, 30, true, 100).unwrap().key_id;

    let event = registry.transfer_key(&env, k, &u1, &u2, 7, 200).unwrap();
    assert_eq!(event.key_id, k);
    assert_eq!(event.from, u1);
    assert_eq!(event.to, u2);
    assert_eq!(event.price, 7);

    assert_eq!(registry.get_balance(&env, &u1).active_keys.len(), 0);
    let b2 = registry.get_balance(&env, &u2);
    assert_eq!(b2.active_keys.len(), 1);
    assert_eq!(b2.active_keys.get(0), Some(k));
    assert_eq!(registry.verify_access(&u1, k, 200), false);
    assert_eq!(registry.verify_access(&u2, k, 200), true);
    assert_eq!(registry.get_key_details(k).unwrap().owner, u2);
}

#[test]
fn sweep_moves_expired_key() {
    let env = Env::default();
    let u1 = principal("U1");
    let u2 = principal("U2");
    let mut registry = DigitalContentAccessKeysContract::new();
    let k = registry.mint_key(&env, &u1, b"course".to_vec(), 0, 30, true, 100).unwrap().key_id;
    registry.transfer_key(&env, k, &u1, &u2, 0, 200).unwrap();
    let expires_at = 100 + 30 * SECONDS_PER_DAY;

    assert_eq!(registry.update_expired_keys(&env, &u2, expires_at - 1), false);
    assert_eq!(registry.verify_access(&u2, k, expires_at - 1), true);
    assert_eq!(registry.verify_access(&u2, k, expires_at), false);

    assert_eq!(registry.update_expired_keys(&env, &u2, expires_at), true);
    assert_eq!(registry.verify_access(&u2, k, expires_at), false);
    let balance = registry.get_balance(&env, &u2);
    assert_eq!(balance.active_keys.len(), 0);
    assert_eq!(balance.expired_keys.len(), 1);
    assert_eq!(balance.expired_keys.get(0), Some(k));
    assert_eq!(balance.frozen_keys.len(), 0);
    assert_eq!(registry.get_key_details(k).unwrap().is_active, false);
}

#[test]
fn freeze_by_admin_moves_key_from_any_bucket() {
    let env = Env::default();
    let admin = principal("admin");
    let u1 = principal("U1");
    let u2 = principal("U2");
    let mut registry = registry_with_admin(&admin);
    let active = registry.mint_key(&env, &u1, b"a".to_vec(), 0, 1, true, 0).unwrap().key_id;
    let expired = registry.mint_key(&env, &u1, b"b".to_vec(), 0, 1, true, 0).unwrap().key_id;
    let later = registry.mint_key(&env, &u1, b"c".to_vec(), 0, 2, true, 0).unwrap().key_id;
    assert_eq!((active, expired, later), (0, 1, 2));

    // Key 0 is frozen while active; then keys 0 and 1 run out, and 1 is swept.
    registry.freeze_account(&env, &admin, active).unwrap();
    assert_eq!(registry.update_expired_keys(&env, &u1, SECONDS_PER_DAY), true);
    let balance = registry.get_balance(&env, &u1);
    assert_eq!(balance.active_keys.len(), 1);
    assert_eq!(balance.active_keys.get(0), Some(later));
    assert_eq!(balance.expired_keys.get(0), Some(expired));
    assert_eq!(balance.frozen_keys.get(0), Some(active));

    registry.freeze_account(&env, &admin, expired).unwrap();
    let balance = registry.get_balance(&env, &u1);
    assert_eq!(balance.expired_keys.len(), 0);
    assert_eq!(balance.frozen_keys.len(), 2);
    assert_eq!(balance.frozen_keys.get(0), Some(active));
    assert_eq!(balance.frozen_keys.get(1), Some(expired));

    for user in [&admin, &u1, &u2] {
        assert_eq!(registry.verify_access(user, active, 0), false);
        assert_eq!(registry.verify_access(user, expired, 0), false);
    }
    assert_eq!(
        registry.transfer_key(&env, active, &u1, &u2, 0, 0).unwrap_err(),
        ContractError::InactiveOrFrozen
    );
}

#[test]
fn mint_with_zero_duration_changes_nothing() {
    let env = Env::default();
    let u1 = principal("U1");
    let mut registry = DigitalContentAccessKeysContract::new();
    let refused = registry.mint_key(&env, &u1, b"course".to_vec(), 0, 0, true, 0);
    assert_eq!(refused.unwrap_err(), ContractError::ValidationError);
    assert_eq!(registry.key_counter(), 0);
    assert!(registry.get_key_details(0).is_none());
    assert_eq!(registry.get_balance(&env, &u1).active_keys.len(), 0);
}

#[test]
fn user_keys_come_active_then_expired_then_frozen() {
    let env = Env::default();
    let admin = principal("admin");
    let u1 = principal("U1");
    let mut registry = registry_with_admin(&admin);
    for days in [5u64, 1, 5, 1, 5] {
        registry.mint_key(&env, &u1, b"c".to_vec(), 0, days, true, 0).unwrap();
    }
    registry.freeze_account(&env, &u1, 2).unwrap();
    registry.freeze_account(&env, &admin, 0).unwrap();
    assert_eq!(registry.update_expired_keys(&env, &u1, SECONDS_PER_DAY), true);

    let ids: Vec<u64> = registry.get_user_keys(&env, &u1).iter().map(|key| key.id).collect();
    assert_eq!(ids, vec![4, 1, 3, 2, 0]);
    assert_eq!(registry.get_user_keys(&env, &admin).len(), 0);
}

#[test]
fn release_restores_or_expires() {
    let env = Env::default();
    let admin = principal("admin");
    let u1 = principal("U1");
    let mut registry = registry_with_admin(&admin);
    let short = registry.mint_key(&env, &u1, b"a".to_vec(), 0, 1, true, 0).unwrap().key_id;
    let long = registry.mint_key(&env, &u1, b"b".to_vec(), 0, 9, true, 0).unwrap().key_id;
    registry.freeze_account(&env, &admin, short).unwrap();
    registry.freeze_account(&env, &admin, long).unwrap();

    let now = 2 * SECONDS_PER_DAY;
    assert_eq!(registry.freeze_key(&env, &u1, long, false, now), Ok(true));
    assert_eq!(registry.release_key(&env, &admin, short, now), Ok(()));
    let balance = registry.get_balance(&env, &u1);
    assert_eq!(balance.active_keys.get(0), Some(long));
    assert_eq!(balance.expired_keys.get(0), Some(short));
    assert_eq!(balance.frozen_keys.len(), 0);
    assert_eq!(registry.verify_access(&u1, long, now), true);
    assert_eq!(registry.verify_access(&u1, short, now), false);
    let key = registry.get_key_details(short).unwrap();
    assert_eq!((key.is_active, key.is_frozen), (false, false));

    // Releasing a key that is not frozen changes nothing.
    assert_eq!(registry.release_key(&env, &admin, long, now), Ok(()));
    assert_eq!(registry.get_balance(&env, &u1).active_keys.len(), 1);
    assert_eq!(registry.freeze_key(&env, &admin, long, true, now), Ok(true));
    assert_eq!(registry.get_balance(&env, &u1).frozen_keys.get(0), Some(long));
}

#[test]
fn content_name_is_kept_byte_for_byte() {
    let env = Env::default();
    let u1 = principal("U1");
    let mut registry = DigitalContentAccessKeysContract::new();
    let name = vec![0xffu8, 0x00, 0xc3, 0x28];
    let event = registry.mint_key(&env, &u1, name.clone(), 0, 1, true, 0).unwrap();
    assert_eq!(event.content_name, name);
    assert_eq!(registry.get_key_details(0).unwrap().content_name, name);
    let restored =
        DigitalContentAccessKeysContract::restore(&env, registry.export(&env)).unwrap();
    assert_eq!(restored.get_user_keys(&env, &u1)[0].content_name, name);
}
