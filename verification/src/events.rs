//! What the registry reports of an operation that succeeded, for whoever
//! publishes it.

use vstd::prelude::*;
use crate::principal::Principal;

verus! {

/// A key was issued.
#[derive(Debug)]
pub struct KeyMintedEvent {
    pub key_id: u64,
    pub owner: Principal,
    pub content_name: Vec<u8>,
    pub price: i128,
    pub duration_days: u64,
}

/// A key went from one holder to another.
#[derive(Debug)]
pub struct KeyTransferredEvent {
    pub key_id: u64,
    pub from: Principal,
    pub to: Principal,
    pub price: i128,
}

/// A key was frozen.
#[derive(Debug)]
pub struct AccountFrozenEvent {
    pub key_id: u64,
    pub owner: Principal,
}

} // verus!
