//! Index buckets: ordered lists of key ids, held in Soroban host vectors.
//!
//! The host vector is opaque to the verifier. Its contents are named by
//! [`bucket_items`], and the few host calls the registry needs are wrapped
//! below, each with the contract that the host's source shows. Host resource
//! limits (the budget of an invocation) are outside these contracts, as memory
//! exhaustion is for `std` collections.
//!
//! The host does not hold the items of a `Vec<u64>` to their type. A bucket
//! whose items are all ids is [`bucket_typed`]; the registry makes only such
//! buckets, and tests those that are handed to it ([`bucket_is_typed`]).

use vstd::prelude::*;

verus! {

/// `soroban_sdk::Env`, the handle to the host: carried through, never looked
/// into.
#[verifier::external_type_specification]
#[verifier::external_body]
pub struct ExEnv(soroban_sdk::Env);

/// `soroban_sdk::Vec`, a handle to a vector that the host holds: known only
/// through the wrappers below.
#[verifier::external_type_specification]
#[verifier::external_body]
#[verifier::reject_recursive_types(T)]
pub struct ExHostVec<T>(soroban_sdk::Vec<T>);

/// What a bucket holds, first to last: for every item of the host vector the
/// id that it is, or `None` where the item is no `u64`. A host vector is
/// never changed, only replaced, so this is a matter of the handle alone.
pub uninterp spec fn bucket_items(bucket: soroban_sdk::Vec<u64>) -> Seq<Option<u64>>;

/// `soroban_sdk::Vec::new`: a fresh host vector, which holds nothing.
#[verifier::external_body]
fn host_new(env: &soroban_sdk::Env) -> (bucket: soroban_sdk::Vec<u64>)
    ensures
        bucket_items(bucket) == Seq::<Option<u64>>::empty(),
{
    soroban_sdk::Vec::new(env)
}

/// `soroban_sdk::Vec::len`: the number of items held. The host reports it as
/// a `u32`, so a bucket never holds more than `u32::MAX` items.
#[verifier::external_body]
fn host_len(bucket: &soroban_sdk::Vec<u64>) -> (n: u32)
    ensures
        n == bucket_items(*bucket).len(),
{
    bucket.len()
}

/// `soroban_sdk::Vec::try_get`: nothing past the end; else the item at
/// position `i` if the SDK can read it as a `u64`, and an error if not.
#[verifier::external_body]
fn host_try_get(bucket: &soroban_sdk::Vec<u64>, i: u32) -> (item: Result<Option<u64>, ()>)
    ensures
        item == (if i < bucket_items(*bucket).len() {
            match bucket_items(*bucket)[i as int] {
                Some(id) => Ok::<Option<u64>, ()>(Some(id)),
                None => Err::<Option<u64>, ()>(()),
            }
        } else {
            Ok::<Option<u64>, ()>(None)
        }),
{
    bucket.try_get(i).map_err(|_| ())
}

/// `soroban_sdk::Vec::push_back`: appends `id` as the last item. The host
/// refuses to grow a vector of `u32::MAX` items, which `requires` leaves out.
#[verifier::external_body]
fn host_push(bucket: &mut soroban_sdk::Vec<u64>, id: u64)
    requires
        bucket_items(*old(bucket)).len() < u32::MAX,
    ensures
        bucket_items(*final(bucket)) == bucket_items(*old(bucket)).push(Some(id)),
{
    bucket.push_back(id)
}

/// `Clone` of `soroban_sdk::Vec`: a second handle to the same host vector,
/// which therefore holds the same items.
#[verifier::external_body]
fn host_clone(bucket: &soroban_sdk::Vec<u64>) -> (copy: soroban_sdk::Vec<u64>)
    ensures
        bucket_items(copy) == bucket_items(*bucket),
{
    bucket.clone()
}

/// Every item of the bucket is an id. The type does not promise it: a handle
/// to any host vector can be had as a `Vec<u64>`.
pub open spec fn bucket_typed(bucket: soroban_sdk::Vec<u64>) -> bool {
    forall|i: int|
        0 <= i < bucket_items(bucket).len() ==> (#[trigger] bucket_items(bucket)[i]) is Some
}

/// The id that an item is; 0 stands for an item that is none.
pub open spec fn item_id(item: Option<u64>) -> u64 {
    match item {
        Some(id) => id,
        None => 0,
    }
}

/// The ids that a bucket holds, first to last.
pub open spec fn bucket_ids(bucket: soroban_sdk::Vec<u64>) -> Seq<u64> {
    bucket_items(bucket).map_values(|item: Option<u64>| item_id(item))
}

/// A fresh bucket, which holds nothing.
pub(crate) fn bucket_new(env: &soroban_sdk::Env) -> (bucket: soroban_sdk::Vec<u64>)
    ensures
        bucket_ids(bucket) == Seq::<u64>::empty(),
        bucket_typed(bucket),
{
    let bucket = host_new(env);
    assert(bucket_ids(bucket) =~= Seq::<u64>::empty());
    bucket
}

/// The number of items held.
pub(crate) fn bucket_len(bucket: &soroban_sdk::Vec<u64>) -> (n: u32)
    ensures
        n == bucket_ids(*bucket).len(),
{
    host_len(bucket)
}

/// The id at position `i`, or `None` past the end.
pub(crate) fn bucket_get(bucket: &soroban_sdk::Vec<u64>, i: u32) -> (id: Option<u64>)
    requires
        bucket_typed(*bucket),
    ensures
        id == (if i < bucket_ids(*bucket).len() {
            Some(bucket_ids(*bucket)[i as int])
        } else {
            None
        }),
{
    match host_try_get(bucket, i) {
        Ok(id) => id,
        Err(_) => {
            assert(false);
            None
        },
    }
}

/// Appends `id` as the last item.
pub(crate) fn bucket_push(bucket: &mut soroban_sdk::Vec<u64>, id: u64)
    requires
        bucket_ids(*old(bucket)).len() < u32::MAX,
    ensures
        bucket_ids(*final(bucket)) == bucket_ids(*old(bucket)).push(id),
        bucket_typed(*final(bucket)) == bucket_typed(*old(bucket)),
{
    host_push(bucket, id);
    proof {
        let before = bucket_items(*old(bucket));
        let after = bucket_items(*bucket);
        assert(bucket_ids(*bucket) =~= bucket_ids(*old(bucket)).push(id));
        if bucket_typed(*old(bucket)) {
            assert forall|i: int| 0 <= i < after.len() implies (#[trigger] after[i]) is Some by {
                if i < before.len() {
                    assert(before[i] is Some);
                }
            }
        }
        if bucket_typed(*bucket) {
            assert forall|i: int| 0 <= i < before.len() implies (#[trigger] before[i]) is Some by {
                assert(after[i] is Some);
            }
        }
    }
}

/// A second handle to the same bucket.
pub(crate) fn bucket_clone(bucket: &soroban_sdk::Vec<u64>) -> (copy: soroban_sdk::Vec<u64>)
    ensures
        bucket_ids(copy) == bucket_ids(*bucket),
        bucket_typed(copy) == bucket_typed(*bucket),
{
    host_clone(bucket)
}

/// Whether every item of `bucket` is an id.
pub fn bucket_is_typed(bucket: &soroban_sdk::Vec<u64>) -> (typed: bool)
    ensures
        typed == bucket_typed(*bucket),
{
    let n: u32 = host_len(bucket);
    let mut i: u32 = 0;
    while i < n
        invariant
            i <= n,
            n == bucket_items(*bucket).len(),
            forall|j: int| 0 <= j < i ==> (#[trigger] bucket_items(*bucket)[j]) is Some,
        decreases n - i,
    {
        match host_try_get(bucket, i) {
            Ok(_) => {},
            Err(_) => {
                assert(bucket_items(*bucket)[i as int] is None);
                return false;
            },
        }
        i = i + 1;
    }
    true
}

/// What is left of `ids` once every occurrence of `id` is taken out, the
/// others keeping their order.
pub open spec fn without(ids: Seq<u64>, id: u64) -> Seq<u64> {
    ids.filter(other_than(id))
}

/// The test that [`without`] keeps an id by.
pub open spec fn other_than(id: u64) -> spec_fn(u64) -> bool {
    |k: u64| k != id
}

/// What a filter keeps: the ids that pass the test, each as often as before.
pub proof fn lemma_filter(ids: Seq<u64>, keep: spec_fn(u64) -> bool)
    ensures
        forall|x: u64| #[trigger] ids.filter(keep).contains(x) <==> ids.contains(x) && keep(x),
        ids.filter(keep).len() <= ids.len(),
        ids.no_duplicates() ==> ids.filter(keep).no_duplicates(),
        (forall|x: u64| ids.contains(x) ==> keep(x)) ==> ids.filter(keep) == ids,
        (forall|x: u64| ids.contains(x) ==> !keep(x)) ==> ids.filter(keep).len() == 0,
    decreases ids.len(),
{
    reveal(Seq::filter);
    if ids.len() > 0 {
        let front = ids.drop_last();
        let last = ids.last();
        lemma_filter(front, keep);
        let kept = front.filter(keep);
        assert(ids == front.push(last));
        assert forall|x: u64| ids.contains(x) <==> front.contains(x) || x == last by {
            lemma_push_contains(front, last, x);
        }
        assert(ids.contains(last));
        if forall|x: u64| ids.contains(x) ==> keep(x) {
            assert forall|x: u64| front.contains(x) implies keep(x) by {
                assert(ids.contains(x));
            }
            assert(keep(last));
        }
        if forall|x: u64| ids.contains(x) ==> !keep(x) {
            assert forall|x: u64| front.contains(x) implies !keep(x) by {
                assert(ids.contains(x));
            }
            assert(!keep(last));
        }
        if keep(last) {
            assert(ids.filter(keep) == kept.push(last));
            assert forall|x: u64| #[trigger]
                ids.filter(keep).contains(x) <==> ids.contains(x) && keep(x) by {
                lemma_push_contains(kept, last, x);
            }
            if ids.no_duplicates() {
                assert(front.no_duplicates());
                assert(!front.contains(last)) by {
                    if front.contains(last) {
                        let i = choose|i: int| 0 <= i < front.len() && front[i] == last;
                        assert(ids[i] == ids[ids.len() - 1]);
                    }
                }
                lemma_push_no_duplicates(kept, last);
            }
        } else {
            assert(ids.filter(keep) == kept);
            if ids.no_duplicates() {
                assert(front.no_duplicates());
            }
        }
    }
}

/// A test and its opposite split a sequence: what the one keeps, the other
/// drops.
pub proof fn lemma_filter_split(ids: Seq<u64>, keep: spec_fn(u64) -> bool, drop: spec_fn(u64) -> bool)
    requires
        forall|x: u64| #[trigger] drop(x) == !keep(x),
    ensures
        ids.filter(keep).len() + ids.filter(drop).len() == ids.len(),
    decreases ids.len(),
{
    reveal(Seq::filter);
    if ids.len() > 0 {
        lemma_filter_split(ids.drop_last(), keep, drop);
        assert(drop(ids.last()) == !keep(ids.last()));
    }
}

/// What [`without`] keeps and what it drops.
pub proof fn lemma_without(ids: Seq<u64>, id: u64)
    ensures
        forall|x: u64| #[trigger] without(ids, id).contains(x) <==> ids.contains(x) && x != id,
        without(ids, id).len() <= ids.len(),
        !ids.contains(id) ==> without(ids, id) == ids,
        ids.no_duplicates() ==> without(ids, id).no_duplicates(),
{
    lemma_filter(ids, other_than(id));
}

/// What two sequences hold once joined, and when the whole lists no id twice.
pub proof fn lemma_joined(front: Seq<u64>, back: Seq<u64>)
    ensures
        forall|x: u64| #[trigger] (front + back).contains(x) <==> front.contains(x) || back.contains(x),
        front.no_duplicates() && back.no_duplicates() && (forall|x: u64|
            !(front.contains(x) && back.contains(x))) ==> (front + back).no_duplicates(),
{
    let all = front + back;
    assert forall|x: u64| #[trigger] all.contains(x) <==> front.contains(x) || back.contains(x) by {
        if front.contains(x) {
            let i = choose|i: int| 0 <= i < front.len() && front[i] == x;
            assert(all[i] == x);
        }
        if back.contains(x) {
            let i = choose|i: int| 0 <= i < back.len() && back[i] == x;
            assert(all[front.len() + i] == x);
        }
        if all.contains(x) {
            let i = choose|i: int| 0 <= i < all.len() && all[i] == x;
            if i < front.len() {
                assert(front[i] == x);
            } else {
                assert(back[i - front.len()] == x);
            }
        }
    }
    if front.no_duplicates() && back.no_duplicates() && (forall|x: u64|
        !(front.contains(x) && back.contains(x))) {
        assert forall|i: int, j: int| 0 <= i < all.len() && 0 <= j < all.len() && i != j implies all[i]
            != all[j] by {
            if i < front.len() && j >= front.len() {
                assert(front.contains(front[i]));
                assert(back.contains(back[j - front.len()]));
            } else if j < front.len() && i >= front.len() {
                assert(front.contains(front[j]));
                assert(back.contains(back[i - front.len()]));
            }
        }
    }
}

/// An id is in `ids.push(id)` if it is in `ids` or is `id` itself.
pub proof fn lemma_push_contains(ids: Seq<u64>, id: u64, x: u64)
    ensures
        ids.push(id).contains(x) <==> ids.contains(x) || x == id,
{
    let pushed = ids.push(id);
    if ids.contains(x) {
        let i = choose|i: int| 0 <= i < ids.len() && ids[i] == x;
        assert(pushed[i] == x);
    }
    if x == id {
        assert(pushed[ids.len() as int] == x);
    }
    if pushed.contains(x) {
        let i = choose|i: int| 0 <= i < pushed.len() && pushed[i] == x;
        if i < ids.len() {
            assert(ids[i] == x);
        }
    }
}

/// Appending an id that a duplicate-free sequence lacks keeps it duplicate-free.
pub proof fn lemma_push_no_duplicates(ids: Seq<u64>, id: u64)
    requires
        ids.no_duplicates(),
        !ids.contains(id),
    ensures
        ids.push(id).no_duplicates(),
{
    let pushed = ids.push(id);
    assert forall|i: int, j: int|
        0 <= i < pushed.len() && 0 <= j < pushed.len() && i != j implies pushed[i] != pushed[j] by {
        if i < ids.len() && j < ids.len() {
        } else if i < ids.len() {
            assert(ids[i] == pushed[i]);
        } else {
            assert(ids[j] == pushed[j]);
        }
    }
}

/// Rebuilds `bucket` without `id`: the ids that stay keep their order.
pub fn remove_id(env: &soroban_sdk::Env, bucket: &mut soroban_sdk::Vec<u64>, id: u64)
    requires
        bucket_typed(*old(bucket)),
    ensures
        bucket_ids(*final(bucket)) == without(bucket_ids(*old(bucket)), id),
        bucket_typed(*final(bucket)),
{
    let mut kept = bucket_new(env);
    let n: u32 = bucket_len(bucket);
    let ghost ids = bucket_ids(*bucket);
    let ghost keep = other_than(id);
    let mut i: u32 = 0;
    while i < n
        invariant
            i <= n,
            n == ids.len(),
            ids == bucket_ids(*bucket),
            bucket_typed(*bucket),
            bucket_typed(kept),
            keep == other_than(id),
            bucket_ids(kept) == ids.take(i as int).filter(keep),
        decreases n - i,
    {
        let item = bucket_get(bucket, i);
        proof {
            assert(ids.take(i as int + 1).drop_last() == ids.take(i as int));
            assert(ids.take(i as int + 1).last() == ids[i as int]);
            reveal(Seq::filter);
        }
        match item {
            Some(k) => {
                if k != id {
                    bucket_push(&mut kept, k);
                }
            },
            None => {},
        }
        i = i + 1;
    }
    proof {
        assert(ids.take(n as int) == ids);
    }
    *bucket = kept;
}

/// Rebuilds `bucket` without `id` if every item of it is an id, and says
/// whether it did: a bucket with another item stays as it is.
pub fn checked_remove_id(
    env: &soroban_sdk::Env,
    bucket: &mut soroban_sdk::Vec<u64>,
    id: u64,
) -> (done: bool)
    ensures
        done == bucket_typed(*old(bucket)),
        done ==> bucket_ids(*final(bucket)) == without(bucket_ids(*old(bucket)), id),
        done ==> bucket_typed(*final(bucket)),
        !done ==> *final(bucket) == *old(bucket),
{
    if bucket_is_typed(bucket) {
        remove_id(env, bucket, id);
        true
    } else {
        false
    }
}

} // verus!
