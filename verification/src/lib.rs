//! A registry of time-bounded access keys to digital content.
//!
//! The registry issues keys, moves them between holders, freezes them and
//! sweeps the expired ones, and keeps for every holder an index of key ids in
//! three buckets: active, expired and frozen. Every operation is verified
//! against a mathematical model of the registry ([`model::RegistryView`]), and
//! [`laws`] states what holds of that model whatever is called.
//!
//! The registry lives on a Soroban ledger: the index buckets are host vectors.
//! Whoever calls the registry names the principal that has authorized the
//! call, gives the ledger's time where an operation needs it, keeps the state
//! between calls ([`snapshot`]) and publishes the events.

pub mod access_key;
pub mod balance;
pub mod bucket;
pub mod contract;
pub mod error;
pub mod events;
pub mod index;
pub mod laws;
pub mod model;
pub mod principal;
pub mod snapshot;
pub mod soundness;
pub mod store;

pub use access_key::{AccessKey, Bucket, SECONDS_PER_DAY};
pub use balance::UserBalance;
pub use contract::DigitalContentAccessKeysContract;
pub use error::ContractError;
pub use events::{AccountFrozenEvent, KeyMintedEvent, KeyTransferredEvent};
pub use index::OwnershipIndex;
pub use principal::Principal;
pub use snapshot::Snapshot;
pub use store::CredentialStore;
