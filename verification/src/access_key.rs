//! The access key record and its status.

use vstd::prelude::*;
use crate::principal::Principal;

verus! {

/// Seconds in one day: durations are given in days, times in seconds.
pub const SECONDS_PER_DAY: u64 = 86_400;

/// The three classes that a holder's index sorts its keys into.
#[derive(Clone, Copy, Debug, PartialEq, Eq, Structural)]
pub enum Bucket {
    Active,
    Expired,
    Frozen,
}

/// A time-bounded right of `owner` to the content named `content_name`. The
/// name is kept byte for byte as it was given.
#[derive(Debug)]
pub struct AccessKey {
    pub id: u64,
    pub owner: Principal,
    pub content_name: Vec<u8>,
    pub price: i128,
    pub duration_days: u64,
    pub created_at: u64,
    pub expires_at: u64,
    pub is_active: bool,
    pub is_frozen: bool,
    pub transferable: bool,
}

/// An access key as a mathematical value.
pub ghost struct AccessKeyView {
    pub id: u64,
    pub owner: Seq<char>,
    pub content_name: Seq<u8>,
    pub price: i128,
    pub duration_days: u64,
    pub created_at: u64,
    pub expires_at: u64,
    pub is_active: bool,
    pub is_frozen: bool,
    pub transferable: bool,
}

impl AccessKeyView {
    /// The terms of a key are sound: a frozen key is not active, the price is
    /// not negative, and the key expires `duration_days` after its creation.
    pub open spec fn wf(self) -> bool {
        &&& self.is_frozen ==> !self.is_active
        &&& self.price >= 0
        &&& self.duration_days > 0
        &&& self.expires_at == self.created_at + self.duration_days * SECONDS_PER_DAY
    }

    /// The bucket that the stored flags assign the key to.
    pub open spec fn bucket(self) -> Bucket {
        if self.is_frozen {
            Bucket::Frozen
        } else if self.is_active {
            Bucket::Active
        } else {
            Bucket::Expired
        }
    }

    /// Whether the key grants `user` access at time `now`.
    pub open spec fn grants(self, user: Seq<char>, now: u64) -> bool {
        &&& self.owner == user
        &&& self.is_active
        &&& !self.is_frozen
        &&& now < self.expires_at
    }

    /// The key in the hands of `to`.
    pub open spec fn owned_by(self, to: Seq<char>) -> AccessKeyView {
        AccessKeyView { owner: to, ..self }
    }

    /// The key once frozen.
    pub open spec fn frozen(self) -> AccessKeyView {
        AccessKeyView { is_frozen: true, is_active: false, ..self }
    }

    /// The key once released from a freeze at time `now`: active again if it
    /// has not expired meanwhile.
    pub open spec fn released(self, now: u64) -> AccessKeyView {
        AccessKeyView { is_frozen: false, is_active: now < self.expires_at, ..self }
    }

    /// The key once marked expired.
    pub open spec fn lapsed(self) -> AccessKeyView {
        AccessKeyView { is_active: false, ..self }
    }
}

impl View for AccessKey {
    type V = AccessKeyView;

    open spec fn view(&self) -> AccessKeyView {
        AccessKeyView {
            id: self.id,
            owner: self.owner@,
            content_name: self.content_name@,
            price: self.price,
            duration_days: self.duration_days,
            created_at: self.created_at,
            expires_at: self.expires_at,
            is_active: self.is_active,
            is_frozen: self.is_frozen,
            transferable: self.transferable,
        }
    }
}

/// The records of `keys` as mathematical values, in the same order.
pub open spec fn key_views(keys: Seq<AccessKey>) -> Seq<AccessKeyView> {
    keys.map_values(|key: AccessKey| key@)
}

impl Clone for AccessKey {
    fn clone(&self) -> (key: AccessKey)
        ensures
            key@ == self@,
    {
        let content_name = self.content_name.clone();
        assert(content_name@ =~= self.content_name@);
        AccessKey {
            id: self.id,
            owner: self.owner.clone(),
            content_name,
            price: self.price,
            duration_days: self.duration_days,
            created_at: self.created_at,
            expires_at: self.expires_at,
            is_active: self.is_active,
            is_frozen: self.is_frozen,
            transferable: self.transferable,
        }
    }
}

impl AccessKey {
    /// The bucket that the stored flags assign the key to.
    pub fn bucket(&self) -> (b: Bucket)
        ensures
            b == self@.bucket(),
    {
        if self.is_frozen {
            Bucket::Frozen
        } else if self.is_active {
            Bucket::Active
        } else {
            Bucket::Expired
        }
    }

    /// Whether the key grants `user` access at time `now`.
    pub fn grants(&self, user: &Principal, now: u64) -> (granted: bool)
        ensures
            granted == self@.grants(user@, now),
    {
        self.owner.same_as(user) && self.is_active && !self.is_frozen && now < self.expires_at
    }
}

} // verus!
