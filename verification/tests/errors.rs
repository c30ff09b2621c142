use digital_content_access_keys::{ContractError, DigitalContentAccessKeysContract, Principal};
use soroban_sdk::Env;

fn principal(name: &str) -> Principal {
    Principal::new(name.to_string())
}

fn mint(
    registry: &mut DigitalContentAccessKeysContract,
    env: &Env,
    owner: &Principal,
    days: u64,
    transferable: bool,
) -> u64 {
    registry.mint_key(env, owner, b"content".to_vec(), 1, days, transferable, 0).unwrap().key_id
}

#[test]
fn initialize_only_once() {
    let mut registry = DigitalContentAccessKeysContract::new();
    assert!(registry.admin().is_none());
    assert_eq!(registry.initialize(principal("admin")), Ok(()));
    assert_eq!(registry.admin(), Some(principal("admin")));
    assert_eq!(registry.initialize(principal("other")), Err(ContractError::AlreadyInitialized));
    assert_eq!(registry.admin(), Some(principal("admin")));
}

#[test]
fn initialize_keeps_the_counter() {
    let env = Env::default();
    let mut registry = DigitalContentAccessKeysContract::new();
    assert_eq!(mint(&mut registry, &env, &principal("u"), 1, true), 0);
    registry.initialize(principal("admin")).unwrap();
    assert_eq!(registry.key_counter(), 1);
    assert_eq!(mint(&mut registry, &env, &principal("u"), 1, true), 1);
}

#[test]
fn mint_validation_errors() {
    let env = Env::default();
    let u = principal("u");
    let mut registry = DigitalContentAccessKeysContract::new();
    let negative = registry.mint_key(&env, &u, b"c".to_vec(), -1, 1, true, 0);
    assert_eq!(negative.unwrap_err(), ContractError::ValidationError);
    let zero = registry.mint_key(&env, &u, b"c".to_vec(), 1, 0, true, 0);
    assert_eq!(zero.unwrap_err(), ContractError::ValidationError);
    let too_long = registry.mint_key(&env, &u, b"c".to_vec(), 1, u64::MAX / 86_400 + 1, true, 0);
    assert_eq!(too_long.unwrap_err(), ContractError::ValidationError);
    let past_the_end = registry.mint_key(&env, &u, b"c".to_vec(), 1, 1, true, u64::MAX - 86_399);
    assert_eq!(past_the_end.unwrap_err(), ContractError::ValidationError);
    assert_eq!(registry.key_counter(), 0);

    let at_the_end = registry.mint_key(&env, &u, b"c".to_vec(), 0, 1, true, u64::MAX - 86_400);
    assert_eq!(at_the_end.unwrap().key_id, 0);
    assert_eq!(registry.get_key_details(0).unwrap().expires_at, u64::MAX);
}

#[test]
fn transfer_errors_in_order() {
    let env = Env::default();
    let admin = principal("admin");
    let a = principal("a");
    let b = principal("b");
    let mut registry = DigitalContentAccessKeysContract::new();
    registry.initialize(admin.clone()).unwrap();
    let fixed = mint(&mut registry, &env, &a, 1, false);
    let free = mint(&mut registry, &env, &a, 1, true);
    let held = mint(&mut registry, &env, &a, 1, true);
    registry.freeze_account(&env, &admin, held).unwrap();

    let unknown = registry.transfer_key(&env, 99, &a, &b, 0, 0);
    assert_eq!(unknown.unwrap_err(), ContractError::NotFound);
    let not_owner = registry.transfer_key(&env, fixed, &b, &a, 0, 0);
    assert_eq!(not_owner.unwrap_err(), ContractError::Unauthorized);
    let not_transferable = registry.transfer_key(&env, fixed, &a, &b, 0, 0);
    assert_eq!(not_transferable.unwrap_err(), ContractError::NotTransferable);
    let frozen = registry.transfer_key(&env, held, &a, &b, 0, 0);
    assert_eq!(frozen.unwrap_err(), ContractError::InactiveOrFrozen);
    let expired = registry.transfer_key(&env, free, &a, &b, 0, 86_400);
    assert_eq!(expired.unwrap_err(), ContractError::Expired);
    let just_in_time = registry.transfer_key(&env, free, &a, &b, 0, 86_399);
    assert!(just_in_time.is_ok());

    // Nothing but the one transfer happened.
    assert_eq!(registry.get_key_details(fixed).unwrap().owner, a);
    assert_eq!(registry.get_key_details(held).unwrap().owner, a);
    assert_eq!(registry.get_key_details(free).unwrap().owner, b);
    assert_eq!(registry.get_balance(&env, &a).active_keys.len(), 1);
    assert_eq!(registry.get_balance(&env, &b).active_keys.len(), 1);
}

#[test]
fn swept_key_is_inactive_for_transfer() {
    let env = Env::default();
    let a = principal("a");
    let b = principal("b");
    let mut registry = DigitalContentAccessKeysContract::new();
    let key = mint(&mut registry, &env, &a, 1, true);
    assert!(registry.update_expired_keys(&env, &a, 86_400));
    let swept = registry.transfer_key(&env, key, &a, &b, 0, 0);
    assert_eq!(swept.unwrap_err(), ContractError::InactiveOrFrozen);
}

#[test]
fn freeze_errors() {
    let env = Env::default();
    let admin = principal("admin");
    let owner = principal("owner");
    let other = principal("other");
    let mut registry = DigitalContentAccessKeysContract::new();
    let key = mint(&mut registry, &env, &owner, 1, true);

    // No administrator yet: even the owner is refused.
    let no_admin = registry.freeze_account(&env, &owner, key);
    assert_eq!(no_admin.unwrap_err(), ContractError::NotFound);
    registry.initialize(admin.clone()).unwrap();

    let unknown = registry.freeze_account(&env, &admin, 7);
    assert_eq!(unknown.unwrap_err(), ContractError::NotFound);
    let stranger = registry.freeze_account(&env, &other, key);
    assert_eq!(stranger.unwrap_err(), ContractError::Unauthorized);
    assert_eq!(registry.release_key(&env, &other, key, 0), Err(ContractError::Unauthorized));
    assert_eq!(registry.freeze_key(&env, &other, key, true, 0), Err(ContractError::Unauthorized));
    assert_eq!(registry.freeze_key(&env, &admin, 7, false, 0), Err(ContractError::NotFound));
    assert_eq!(registry.get_key_details(key).unwrap().is_frozen, false);

    assert!(registry.freeze_account(&env, &owner, key).is_ok());
    assert_eq!(registry.get_key_details(key).unwrap().is_frozen, true);
}

#[test]
fn freezing_twice_lists_the_key_once() {
    let env = Env::default();
    let admin = principal("admin");
    let owner = principal("owner");
    let mut registry = DigitalContentAccessKeysContract::new();
    registry.initialize(admin.clone()).unwrap();
    let first = mint(&mut registry, &env, &owner, 1, true);
    let second = mint(&mut registry, &env, &owner, 1, true);
    registry.freeze_account(&env, &admin, first).unwrap();
    registry.freeze_account(&env, &admin, second).unwrap();
    registry.freeze_account(&env, &admin, first).unwrap();
    let balance = registry.get_balance(&env, &owner);
    assert_eq!(balance.frozen_keys.len(), 2);
    assert_eq!(balance.frozen_keys.get(0), Some(second));
    assert_eq!(balance.frozen_keys.get(1), Some(first));
}

#[test]
fn account_freeze_blocks_mint_and_transfer() {
    let env = Env::default();
    let admin = principal("admin");
    let a = principal("a");
    let b = principal("b");
    let mut registry = DigitalContentAccessKeysContract::new();
    let key = mint(&mut registry, &env, &a, 1, true);

    let no_admin = registry.set_account_frozen(&env, &a, &a, true);
    assert_eq!(no_admin, Err(ContractError::NotFound));
    registry.initialize(admin.clone()).unwrap();
    let not_admin = registry.set_account_frozen(&env, &a, &b, true);
    assert_eq!(not_admin, Err(ContractError::Unauthorized));
    assert_eq!(registry.is_account_frozen(&b), false);

    assert_eq!(registry.set_account_frozen(&env, &admin, &b, true), Ok(()));
    assert_eq!(registry.is_account_frozen(&b), true);
    assert_eq!(registry.is_account_frozen(&a), false);
    let to_frozen = registry.transfer_key(&env, key, &a, &b, 0, 0);
    assert_eq!(to_frozen.unwrap_err(), ContractError::AccountFrozen);
    let by_frozen = registry.mint_key(&env, &b, b"c".to_vec(), 0, 1, true, 0);
    assert_eq!(by_frozen.unwrap_err(), ContractError::AccountFrozen);
    assert_eq!(registry.key_counter(), 1);

    // The keys of a frozen account are not touched, and access is as before.
    assert_eq!(registry.set_account_frozen(&env, &admin, &a, true), Ok(()));
    assert_eq!(registry.verify_access(&a, key, 0), true);
    let from_frozen = registry.transfer_key(&env, key, &a, &admin, 0, 0);
    assert_eq!(from_frozen.unwrap_err(), ContractError::AccountFrozen);

    assert_eq!(registry.set_account_frozen(&env, &admin, &a, false), Ok(()));
    assert_eq!(registry.set_account_frozen(&env, &admin, &b, false), Ok(()));
    assert!(registry.transfer_key(&env, key, &a, &b, 0, 0).is_ok());
}

#[test]
fn verify_access_needs_every_condition() {
    let env = Env::default();
    let a = principal("a");
    let mut registry = DigitalContentAccessKeysContract::new();
    let key = mint(&mut registry, &env, &a, 2, true);
    assert_eq!(registry.verify_access(&a, key, 2 * 86_400 - 1), true);
    assert_eq!(registry.verify_access(&a, key, 2 * 86_400), false);
    assert_eq!(registry.verify_access(&a, key + 1, 0), false);
    assert_eq!(registry.verify_access(&principal("b"), key, 0), false);
    assert!(registry.get_key_details(key + 1).is_none());
}
