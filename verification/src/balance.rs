//! A holder's index: the ids of the keys it holds, in three buckets.

use vstd::prelude::*;
use crate::access_key::Bucket;
use crate::bucket::{
    bucket_clone, bucket_ids, bucket_is_typed, bucket_len, bucket_new, bucket_push, bucket_typed,
    lemma_push_contains, lemma_push_no_duplicates, lemma_without, remove_id, without,
};
use crate::principal::Principal;

verus! {

/// The keys of one principal, sorted by status. Each bucket lists ids in the
/// order in which they came into it.
#[derive(Debug)]
pub struct UserBalance {
    pub address: Principal,
    pub active_keys: soroban_sdk::Vec<u64>,
    pub expired_keys: soroban_sdk::Vec<u64>,
    pub frozen_keys: soroban_sdk::Vec<u64>,
}

/// A holder's index as a mathematical value.
pub ghost struct UserBalanceView {
    pub address: Seq<char>,
    pub active_keys: Seq<u64>,
    pub expired_keys: Seq<u64>,
    pub frozen_keys: Seq<u64>,
}

impl UserBalanceView {
    /// The index of a principal that holds nothing.
    pub open spec fn empty(address: Seq<char>) -> UserBalanceView {
        UserBalanceView {
            address,
            active_keys: Seq::empty(),
            expired_keys: Seq::empty(),
            frozen_keys: Seq::empty(),
        }
    }

    /// The ids in bucket `b`.
    pub open spec fn bucket(self, b: Bucket) -> Seq<u64> {
        match b {
            Bucket::Active => self.active_keys,
            Bucket::Expired => self.expired_keys,
            Bucket::Frozen => self.frozen_keys,
        }
    }

    /// Whether `id` is in some bucket.
    pub open spec fn holds(self, id: u64) -> bool {
        ||| self.active_keys.contains(id)
        ||| self.expired_keys.contains(id)
        ||| self.frozen_keys.contains(id)
    }

    /// The number of entries over the three buckets.
    pub open spec fn count(self) -> nat {
        self.active_keys.len() + self.expired_keys.len() + self.frozen_keys.len()
    }

    /// No id is listed twice, in one bucket or in two, and the entries can be
    /// counted in a `u32`.
    pub open spec fn wf(self) -> bool {
        &&& self.active_keys.no_duplicates()
        &&& self.expired_keys.no_duplicates()
        &&& self.frozen_keys.no_duplicates()
        &&& forall|id: u64| !(self.active_keys.contains(id) && self.expired_keys.contains(id))
        &&& forall|id: u64| !(self.active_keys.contains(id) && self.frozen_keys.contains(id))
        &&& forall|id: u64| !(self.expired_keys.contains(id) && self.frozen_keys.contains(id))
        &&& self.count() <= u32::MAX
    }

    /// The index with `id` appended to bucket `b`.
    pub open spec fn inserted(self, id: u64, b: Bucket) -> UserBalanceView {
        match b {
            Bucket::Active => UserBalanceView { active_keys: self.active_keys.push(id), ..self },
            Bucket::Expired => UserBalanceView { expired_keys: self.expired_keys.push(id), ..self },
            Bucket::Frozen => UserBalanceView { frozen_keys: self.frozen_keys.push(id), ..self },
        }
    }

    /// The index with `id` taken out of bucket `b`.
    pub open spec fn dropped(self, id: u64, b: Bucket) -> UserBalanceView {
        match b {
            Bucket::Active => UserBalanceView {
                active_keys: without(self.active_keys, id),
                ..self
            },
            Bucket::Expired => UserBalanceView {
                expired_keys: without(self.expired_keys, id),
                ..self
            },
            Bucket::Frozen => UserBalanceView {
                frozen_keys: without(self.frozen_keys, id),
                ..self
            },
        }
    }

    /// The index with `id` taken out of whichever bucket lists it.
    pub open spec fn removed(self, id: u64) -> UserBalanceView {
        UserBalanceView {
            address: self.address,
            active_keys: without(self.active_keys, id),
            expired_keys: without(self.expired_keys, id),
            frozen_keys: without(self.frozen_keys, id),
        }
    }

    /// The index with `id` taken out of bucket `from` and appended to bucket `to`.
    pub open spec fn moved(self, id: u64, from: Bucket, to: Bucket) -> UserBalanceView {
        self.dropped(id, from).inserted(id, to)
    }

    /// The index with `id` in bucket `to` and in no other.
    pub open spec fn placed(self, id: u64, to: Bucket) -> UserBalanceView {
        self.removed(id).inserted(id, to)
    }
}

impl View for UserBalance {
    type V = UserBalanceView;

    open spec fn view(&self) -> UserBalanceView {
        UserBalanceView {
            address: self.address@,
            active_keys: bucket_ids(self.active_keys),
            expired_keys: bucket_ids(self.expired_keys),
            frozen_keys: bucket_ids(self.frozen_keys),
        }
    }
}

impl Clone for UserBalance {
    fn clone(&self) -> (copy: UserBalance)
        ensures
            copy@ == self@,
            copy.typed() == self.typed(),
    {
        UserBalance {
            address: self.address.clone(),
            active_keys: bucket_clone(&self.active_keys),
            expired_keys: bucket_clone(&self.expired_keys),
            frozen_keys: bucket_clone(&self.frozen_keys),
        }
    }
}

impl UserBalance {
    /// Every item of the three buckets is an id: see
    /// [`bucket_typed`](crate::bucket::bucket_typed). An index made by `new`
    /// and changed by the functions below is typed; one put together from
    /// buckets of elsewhere is tested with `is_typed`.
    pub open spec fn typed(&self) -> bool {
        &&& bucket_typed(self.active_keys)
        &&& bucket_typed(self.expired_keys)
        &&& bucket_typed(self.frozen_keys)
    }

    /// Whether every item of the three buckets is an id.
    pub fn is_typed(&self) -> (typed: bool)
        ensures
            typed == self.typed(),
    {
        bucket_is_typed(&self.active_keys) && bucket_is_typed(&self.expired_keys)
            && bucket_is_typed(&self.frozen_keys)
    }

    /// The index of `address`, which holds nothing yet.
    pub fn new(env: &soroban_sdk::Env, address: Principal) -> (balance: UserBalance)
        ensures
            balance@ == UserBalanceView::empty(address@),
            balance.typed(),
    {
        UserBalance {
            address,
            active_keys: bucket_new(env),
            expired_keys: bucket_new(env),
            frozen_keys: bucket_new(env),
        }
    }

    /// The bucket `b` of this index.
    pub fn bucket(&self, b: Bucket) -> (ids: &soroban_sdk::Vec<u64>)
        ensures
            bucket_ids(*ids) == self@.bucket(b),
            self.typed() ==> bucket_typed(*ids),
    {
        match b {
            Bucket::Active => &self.active_keys,
            Bucket::Expired => &self.expired_keys,
            Bucket::Frozen => &self.frozen_keys,
        }
    }

    /// The number of active, of expired and of frozen keys.
    pub fn counts(&self) -> (n: (u32, u32, u32))
        ensures
            n.0 == self@.active_keys.len(),
            n.1 == self@.expired_keys.len(),
            n.2 == self@.frozen_keys.len(),
    {
        (bucket_len(&self.active_keys), bucket_len(&self.expired_keys), bucket_len(&self.frozen_keys))
    }

    /// Appends `id` to bucket `to`.
    pub fn insert(&mut self, id: u64, to: Bucket)
        requires
            old(self)@.bucket(to).len() < u32::MAX,
        ensures
            final(self)@ == old(self)@.inserted(id, to),
            final(self).typed() == old(self).typed(),
    {
        match to {
            Bucket::Active => bucket_push(&mut self.active_keys, id),
            Bucket::Expired => bucket_push(&mut self.expired_keys, id),
            Bucket::Frozen => bucket_push(&mut self.frozen_keys, id),
        }
    }

    /// Takes `id` out of bucket `from`; nothing changes if it is not there.
    pub fn drop_from(&mut self, env: &soroban_sdk::Env, id: u64, from: Bucket)
        requires
            old(self).typed(),
        ensures
            final(self)@ == old(self)@.dropped(id, from),
            final(self).typed(),
    {
        match from {
            Bucket::Active => remove_id(env, &mut self.active_keys, id),
            Bucket::Expired => remove_id(env, &mut self.expired_keys, id),
            Bucket::Frozen => remove_id(env, &mut self.frozen_keys, id),
        }
    }

    /// Takes `id` out of whichever bucket lists it.
    pub fn remove(&mut self, env: &soroban_sdk::Env, id: u64)
        requires
            old(self).typed(),
        ensures
            final(self)@ == old(self)@.removed(id),
            final(self).typed(),
    {
        remove_id(env, &mut self.active_keys, id);
        remove_id(env, &mut self.expired_keys, id);
        remove_id(env, &mut self.frozen_keys, id);
    }

    /// Takes `id` out of whichever bucket lists it, if every item of the
    /// buckets is an id, and says whether it did: an index with another item
    /// stays as it is.
    pub fn checked_remove(&mut self, env: &soroban_sdk::Env, id: u64) -> (done: bool)
        ensures
            done == old(self).typed(),
            done ==> final(self)@ == old(self)@.removed(id) && final(self).typed(),
            !done ==> *final(self) == *old(self),
    {
        if self.is_typed() {
            self.remove(env, id);
            true
        } else {
            false
        }
    }

    /// Takes `id` out of bucket `from` and appends it to bucket `to`, if every
    /// item of the buckets is an id, and says whether it did: an index with
    /// another item stays as it is.
    pub fn checked_move_key(
        &mut self,
        env: &soroban_sdk::Env,
        id: u64,
        from: Bucket,
        to: Bucket,
    ) -> (done: bool)
        requires
            old(self)@.dropped(id, from).bucket(to).len() < u32::MAX,
        ensures
            done == old(self).typed(),
            done ==> final(self)@ == old(self)@.moved(id, from, to) && final(self).typed(),
            !done ==> *final(self) == *old(self),
    {
        if self.is_typed() {
            self.move_key(env, id, from, to);
            true
        } else {
            false
        }
    }

    /// Takes `id` out of bucket `from` and appends it to bucket `to`.
    pub fn move_key(&mut self, env: &soroban_sdk::Env, id: u64, from: Bucket, to: Bucket)
        requires
            old(self).typed(),
            old(self)@.dropped(id, from).bucket(to).len() < u32::MAX,
        ensures
            final(self)@ == old(self)@.moved(id, from, to),
            final(self).typed(),
    {
        self.drop_from(env, id, from);
        self.insert(id, to);
    }
}

/// Taking an id out leaves a sound index that no longer holds it and holds
/// every other id where it was.
pub proof fn lemma_removed(b: UserBalanceView, id: u64)
    requires
        b.wf(),
    ensures
        b.removed(id).wf(),
        !b.removed(id).holds(id),
        b.removed(id).count() <= b.count(),
        !b.holds(id) ==> b.removed(id) == b,
        forall|x: u64, k: Bucket|
            x != id ==> (#[trigger] b.removed(id).bucket(k).contains(x) <==> b.bucket(k).contains(x)),
        forall|x: u64| #[trigger] b.removed(id).holds(x) <==> b.holds(x) && x != id,
{
    lemma_without(b.active_keys, id);
    lemma_without(b.expired_keys, id);
    lemma_without(b.frozen_keys, id);
}

/// Appending an id that the index lacks leaves a sound index that holds it in
/// bucket `to` and every other id where it was.
pub proof fn lemma_inserted(b: UserBalanceView, id: u64, to: Bucket)
    requires
        b.wf(),
        !b.holds(id),
        b.count() < u32::MAX,
    ensures
        b.inserted(id, to).wf(),
        b.inserted(id, to).count() == b.count() + 1,
        forall|x: u64, k: Bucket| #[trigger]
            b.inserted(id, to).bucket(k).contains(x) <==> b.bucket(k).contains(x) || (x == id && k
                == to),
        forall|x: u64| #[trigger] b.inserted(id, to).holds(x) <==> b.holds(x) || x == id,
{
    let after = b.inserted(id, to);
    assert forall|x: u64, k: Bucket| #[trigger]
        after.bucket(k).contains(x) <==> b.bucket(k).contains(x) || (x == id && k == to) by {
        lemma_push_contains(b.bucket(to), id, x);
    }
    lemma_push_no_duplicates(b.bucket(to), id);
    assert forall|x: u64| !(after.active_keys.contains(x) && after.expired_keys.contains(x)) by {
        assert(after.bucket(Bucket::Active).contains(x) == after.active_keys.contains(x));
        assert(after.bucket(Bucket::Expired).contains(x) == after.expired_keys.contains(x));
    }
    assert forall|x: u64| !(after.active_keys.contains(x) && after.frozen_keys.contains(x)) by {
        assert(after.bucket(Bucket::Active).contains(x) == after.active_keys.contains(x));
        assert(after.bucket(Bucket::Frozen).contains(x) == after.frozen_keys.contains(x));
    }
    assert forall|x: u64| !(after.expired_keys.contains(x) && after.frozen_keys.contains(x)) by {
        assert(after.bucket(Bucket::Expired).contains(x) == after.expired_keys.contains(x));
        assert(after.bucket(Bucket::Frozen).contains(x) == after.frozen_keys.contains(x));
    }
    assert forall|x: u64| #[trigger] after.holds(x) <==> b.holds(x) || x == id by {
        lemma_holds(after, x);
        lemma_holds(b, x);
    }
}

/// An index holds an id when one of its buckets lists it.
pub proof fn lemma_holds(b: UserBalanceView, id: u64)
    ensures
        b.holds(id) <==> exists|k: Bucket| #[trigger] b.bucket(k).contains(id),
        b.holds(id) <==> b.bucket(Bucket::Active).contains(id) || b.bucket(
            Bucket::Expired,
        ).contains(id) || b.bucket(Bucket::Frozen).contains(id),
{
    if b.active_keys.contains(id) {
        assert(b.bucket(Bucket::Active).contains(id));
    }
    if b.expired_keys.contains(id) {
        assert(b.bucket(Bucket::Expired).contains(id));
    }
    if b.frozen_keys.contains(id) {
        assert(b.bucket(Bucket::Frozen).contains(id));
    }
}

/// Putting an id that the index holds into bucket `to` leaves a sound index
/// that holds it there and every other id where it was.
pub proof fn lemma_placed(b: UserBalanceView, id: u64, to: Bucket)
    requires
        b.wf(),
        b.holds(id),
    ensures
        b.placed(id, to).wf(),
        b.placed(id, to).count() == b.count(),
        forall|x: u64, k: Bucket| #[trigger]
            b.placed(id, to).bucket(k).contains(x) <==> (if x == id {
                k == to
            } else {
                b.bucket(k).contains(x)
            }),
        forall|x: u64| #[trigger] b.placed(id, to).holds(x) <==> b.holds(x),
{
    lemma_removed(b, id);
    lemma_count_removed(b, id);
    lemma_inserted(b.removed(id), id, to);
    let mid = b.removed(id);
    assert forall|x: u64, k: Bucket| #[trigger]
        b.placed(id, to).bucket(k).contains(x) <==> (if x == id {
            k == to
        } else {
            b.bucket(k).contains(x)
        }) by {
        assert(mid.inserted(id, to).bucket(k).contains(x) <==> mid.bucket(k).contains(x) || (x
            == id && k == to));
        if x == id {
            assert(!mid.holds(id));
            assert(mid.bucket(k).contains(id) ==> mid.holds(id));
        } else {
            assert(mid.bucket(k).contains(x) <==> b.bucket(k).contains(x));
        }
    }
}

/// Taking out an id that a sound index holds lowers the count by one.
pub proof fn lemma_count_removed(b: UserBalanceView, id: u64)
    requires
        b.wf(),
        b.holds(id),
    ensures
        b.removed(id).count() == b.count() - 1,
{
    if b.active_keys.contains(id) {
        lemma_without_one(b.active_keys, id);
    }
    if b.expired_keys.contains(id) {
        lemma_without_one(b.expired_keys, id);
    }
    if b.frozen_keys.contains(id) {
        lemma_without_one(b.frozen_keys, id);
    }
    lemma_without(b.active_keys, id);
    lemma_without(b.expired_keys, id);
    lemma_without(b.frozen_keys, id);
}

/// Taking an id out of a duplicate-free sequence that has it shortens the
/// sequence by one.
pub proof fn lemma_without_one(ids: Seq<u64>, id: u64)
    requires
        ids.no_duplicates(),
        ids.contains(id),
    ensures
        without(ids, id).len() == ids.len() - 1,
    decreases ids.len(),
{
    reveal(Seq::filter);
    let front = ids.drop_last();
    let last = ids.last();
    assert(ids == front.push(last));
    assert(front.no_duplicates());
    lemma_push_contains(front, last, id);
    if last == id {
        assert(!front.contains(id)) by {
            if front.contains(id) {
                let i = choose|i: int| 0 <= i < front.len() && front[i] == id;
                assert(ids[i] == ids[ids.len() - 1]);
            }
        }
        lemma_without(front, id);
    } else {
        lemma_without_one(front, id);
    }
}

} // verus!
