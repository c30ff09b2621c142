use digital_content_access_keys::{
    ContractError, DigitalContentAccessKeysContract, Principal, SECONDS_PER_DAY,
};
use soroban_sdk::Env;

fn principal(name: &str) -> Principal {
    Principal::new(name.to_string())
}

#[test]
fn mint_stamps_the_key_with_the_time_given() {
    let env = Env::default();
    let u1 = principal("U1");
    let mut registry = DigitalContentAccessKeysContract::new();
    let event = registry.mint_key(&env, &u1, b"course".to_vec(), 0, 30, true, 1_700_000_000).unwrap();
    assert_eq!(event.key_id, 0);
    let key = registry.get_key_details(0).unwrap();
    assert_eq!(key.owner, u1);
    assert_eq!(key.created_at, 1_700_000_000);
    assert_eq!(key.expires_at, 1_702_592_000);
    assert_eq!(registry.get_balance(&env, &u1).active_keys.len(), 1);
}

#[test]
fn access_ends_when_the_time_reaches_expiry() {
    let env = Env::default();
    let u1 = principal("U1");
    let u2 = principal("U2");
    let mut registry = DigitalContentAccessKeysContract::new();
    let k = registry.mint_key(&env, &u1, b"course".to_vec(), 0, 30, true, 50).unwrap().key_id;
    let expires_at = 50 + 30 * SECONDS_PER_DAY;

    let before = expires_at - 1;
    assert_eq!(registry.verify_access(&u1, k, before), true);
    assert!(registry.transfer_key(&env, k, &u1, &u2, 0, before).is_ok());
    assert_eq!(registry.verify_access(&u1, k, before), false);
    assert_eq!(registry.verify_access(&u2, k, before), true);
    assert_eq!(registry.update_expired_keys(&env, &u2, before), false);

    assert_eq!(registry.verify_access(&u2, k, expires_at), false);
    let late = registry.transfer_key(&env, k, &u2, &u1, 0, expires_at);
    assert_eq!(late.unwrap_err(), ContractError::Expired);
    assert_eq!(registry.update_expired_keys(&env, &u2, expires_at), true);
    assert_eq!(registry.update_expired_keys(&env, &u2, expires_at), false);
    let balance = registry.get_balance(&env, &u2);
    assert_eq!(balance.active_keys.len(), 0);
    assert_eq!(balance.expired_keys.len(), 1);
    assert_eq!(balance.frozen_keys.len(), 0);
}

#[test]
fn release_checks_expiry_against_the_time_given() {
    let env = Env::default();
    let admin = principal("admin");
    let u1 = principal("U1");
    let mut registry = DigitalContentAccessKeysContract::new();
    registry.initialize(admin.clone()).unwrap();
    let short = registry.mint_key(&env, &u1, b"a".to_vec(), 0, 1, true, 0).unwrap().key_id;
    let long = registry.mint_key(&env, &u1, b"b".to_vec(), 0, 3, true, 0).unwrap().key_id;
    // A freeze does not look at the time.
    assert_eq!(registry.freeze_key(&env, &admin, short, true, 0), Ok(true));
    assert_eq!(registry.freeze_key(&env, &u1, long, true, u64::MAX), Ok(true));
    assert_eq!(registry.get_balance(&env, &u1).frozen_keys.len(), 2);
    assert_eq!(registry.verify_access(&u1, long, 0), false);

    let now = 2 * SECONDS_PER_DAY;
    assert_eq!(registry.freeze_key(&env, &admin, short, false, now), Ok(true));
    assert_eq!(registry.freeze_key(&env, &admin, long, false, now), Ok(true));
    assert_eq!(
        registry.freeze_key(&env, &principal("x"), long, false, now),
        Err(ContractError::Unauthorized)
    );
    let balance = registry.get_balance(&env, &u1);
    assert_eq!(balance.active_keys.get(0), Some(long));
    assert_eq!(balance.expired_keys.get(0), Some(short));
    assert_eq!(registry.verify_access(&u1, long, now), true);
    assert_eq!(registry.verify_access(&u1, short, now), false);
}
