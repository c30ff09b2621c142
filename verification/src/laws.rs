//! What holds of the registry whatever is called, in whatever order.

use vstd::prelude::*;
use crate::access_key::Bucket;
use crate::balance::{lemma_holds, lemma_removed};
use crate::bucket::lemma_filter;
use crate::model::{Call, Operation, RegistryView};
use crate::soundness::{
    lemma_frozen_wf, lemma_initial_wf, lemma_initialized_wf, lemma_listed_once, lemma_minted_wf,
    lemma_released_wf, lemma_swept_balance, lemma_swept_wf, lemma_transferred_wf,
    lemma_with_account_frozen_wf,
};

verus! {

/// Every call, refused or not, leaves a sound registry sound.
pub proof fn law_call_keeps_registry_sound(s: RegistryView, operation: Operation, now: u64)
    requires
        s.wf(),
    ensures
        s.apply(operation, now).wf(),
{
    if s.refusal(operation, now) is None {
        match operation {
            Operation::Initialize { admin } => lemma_initialized_wf(s, admin),
            Operation::Mint { owner, content_name, price, duration_days, transferable } => {
                lemma_minted_wf(s, owner, content_name, price, duration_days, transferable, now)
            },
            Operation::Transfer { id, from, to } => lemma_transferred_wf(s, id, from, to, now),
            Operation::Freeze { caller, id } => lemma_frozen_wf(s, id),
            Operation::Release { caller, id } => lemma_released_wf(s, id, now),
            Operation::SetAccountFrozen { caller, account, frozen } => {
                lemma_with_account_frozen_wf(s, account, frozen)
            },
            Operation::Sweep { principal } => lemma_swept_wf(s, principal, now),
        }
    }
}

/// The registry is sound after any calls at any times.
pub proof fn law_registry_always_sound(calls: Seq<Call>)
    ensures
        RegistryView::initial().run(calls).wf(),
    decreases calls.len(),
{
    if calls.len() == 0 {
        lemma_initial_wf();
    } else {
        law_registry_always_sound(calls.drop_last());
        law_call_keeps_registry_sound(
            RegistryView::initial().run(calls.drop_last()),
            calls.last().operation,
            calls.last().now,
        );
    }
}

/// Bucket exclusivity: in a sound registry a key id stands in at most one
/// bucket of at most one principal, and there once.
pub proof fn law_bucket_exclusivity(
    s: RegistryView,
    id: u64,
    p: Seq<char>,
    a: Bucket,
    i: int,
    q: Seq<char>,
    b: Bucket,
    j: int,
)
    requires
        s.wf(),
        0 <= i < s.balance(p).bucket(a).len(),
        s.balance(p).bucket(a)[i] == id,
        0 <= j < s.balance(q).bucket(b).len(),
        s.balance(q).bucket(b)[j] == id,
    ensures
        p == q,
        a == b,
        i == j,
{
    assert(s.balance(p).bucket(a).contains(id));
    assert(s.balance(q).bucket(b).contains(id));
    lemma_holds(s.balance(p), id);
    lemma_holds(s.balance(q), id);
    assert(s.accounts[p].balance.holds(id));
    assert(s.accounts[q].balance.holds(id));
    lemma_listed_once(s, id);
    assert(s.accounts[p].balance.wf());
}

/// No call takes back an id: what was issued stays issued, and the counter
/// never goes down.
pub proof fn law_counter_never_decreases(s: RegistryView, operation: Operation, now: u64)
    ensures
        s.apply(operation, now).key_counter >= s.key_counter,
        forall|id: u64| s.issued(id) ==> s.apply(operation, now).issued(id),
{
}

/// The same over any number of calls.
pub proof fn law_counter_never_decreases_over(s: RegistryView, calls: Seq<Call>)
    ensures
        s.run(calls).key_counter >= s.key_counter,
    decreases calls.len(),
{
    if calls.len() > 0 {
        law_counter_never_decreases_over(s, calls.drop_last());
        law_counter_never_decreases(
            s.run(calls.drop_last()),
            calls.last().operation,
            calls.last().now,
        );
    }
}

/// Uniqueness, one mint: the id of a key that is minted was not issued
/// before, and is issued afterwards.
pub proof fn law_minted_id_is_new(
    s: RegistryView,
    owner: Seq<char>,
    content_name: Seq<u8>,
    price: i128,
    duration_days: u64,
    transferable: bool,
    now: u64,
)
    requires
        s.wf(),
        s.mint_refusal(owner, price, duration_days, now) is None,
    ensures
        ({
            let key = s.minted_key(owner, content_name, price, duration_days, transferable, now);
            &&& !s.issued(key.id)
            &&& !s.keys.contains_key(key.id)
            &&& forall|p: Seq<char>| !(#[trigger] s.balance(p)).holds(key.id)
            &&& s.minted(key).issued(key.id)
            &&& s.minted(key).keys[key.id] == key
        }),
{
    let key = s.minted_key(owner, content_name, price, duration_days, transferable, now);
    assert forall|p: Seq<char>| !(#[trigger] s.balance(p)).holds(key.id) by {
        if s.balance(p).holds(key.id) {
            assert(s.accounts[p].balance.holds(key.id));
        }
    }
}

/// Uniqueness, two mints: two mints that succeed, with any calls between
/// them, issue different ids, the later one the greater.
pub proof fn law_minted_ids_differ(
    s: RegistryView,
    first: Operation,
    first_now: u64,
    between: Seq<Call>,
    second: Operation,
    second_now: u64,
)
    requires
        first is Mint,
        second is Mint,
        s.refusal(first, first_now) is None,
        s.apply(first, first_now).run(between).refusal(second, second_now) is None,
    ensures
        s.key_counter < s.apply(first, first_now).run(between).key_counter,
{
    law_counter_never_decreases_over(s.apply(first, first_now), between);
}

/// Transfer atomicity: a transfer that is refused changes nothing; one that
/// is not takes the key out of the index of the old owner, puts it last into
/// the active bucket of the new owner and names the new owner in the record,
/// and touches no other key and no third principal.
pub proof fn law_transfer_all_or_nothing(
    s: RegistryView,
    id: u64,
    from: Seq<char>,
    to: Seq<char>,
    now: u64,
)
    requires
        s.wf(),
    ensures
        ({
            let t = s.apply(Operation::Transfer { id, from, to }, now);
            if s.transfer_refusal(id, from, to, now) is Some {
                t == s
            } else {
                &&& from != to ==> !t.balance(from).holds(id)
                &&& t.balance(to).active_keys.len() > 0
                &&& t.balance(to).active_keys.last() == id
                &&& t.keys[id] == s.keys[id].owned_by(to)
                &&& forall|x: u64| x != id ==> t.keys.contains_key(x) == s.keys.contains_key(x)
                    && t.keys[x] == s.keys[x]
                &&& forall|p: Seq<char>| p != from && p != to ==> t.accounts[p] == s.accounts[p]
            }
        }),
{
    if s.transfer_refusal(id, from, to, now) is None {
        lemma_listed_once(s, id);
        assert(s.accounts[from].balance.wf());
        lemma_removed(s.balance(from), id);
    }
}

/// Expiry monotonicity: right after a sweep of a principal, a second sweep of
/// the same principal at the same time finds nothing to move and changes
/// nothing.
pub proof fn law_second_sweep_changes_nothing(s: RegistryView, principal: Seq<char>, now: u64)
    requires
        s.wf(),
    ensures
        s.swept(principal, now).expiring(principal, now).len() == 0,
        s.swept(principal, now).swept(principal, now) == s.swept(principal, now),
{
    let t = s.swept(principal, now);
    let active = t.balance(principal).active_keys;
    lemma_swept_balance(s, principal, now);
    lemma_swept_wf(s, principal, now);
    assert forall|x: u64| active.contains(x) implies !(t.due(now))(x) by {
        assert(s.balance(principal).active_keys.contains(x));
    }
    lemma_filter(active, t.due(now));
    assert forall|x: u64| active.contains(x) implies (t.not_due(now))(x) by {
        assert(!(t.due(now))(x));
    }
    lemma_filter(active, t.not_due(now));
    let gone = t.expiring(principal, now);
    assert(gone =~= Seq::<u64>::empty());
    assert(t.balance(principal).expired_keys + gone == t.balance(principal).expired_keys);
    assert(t.swept(principal, now).keys =~= t.keys);
    assert(t.swept(principal, now).accounts =~= t.accounts);
}

/// Freeze dominance, the freeze: a frozen key grants no one access, at any
/// time; and a freeze that is not refused leaves the key frozen.
pub proof fn law_frozen_key_grants_nothing(s: RegistryView, id: u64, user: Seq<char>, now: u64)
    requires
        s.wf(),
        s.keys.contains_key(id),
    ensures
        s.keys[id].is_frozen ==> !s.grants_access(user, id, now),
        s.frozen(id).keys.contains_key(id),
        s.frozen(id).keys[id].is_frozen,
        !s.frozen(id).grants_access(user, id, now),
{
}

/// Freeze dominance, what follows: a frozen key stays frozen under every
/// call but a release of that key that is not refused.
pub proof fn law_frozen_until_released(s: RegistryView, id: u64, operation: Operation, now: u64)
    requires
        s.wf(),
        s.keys.contains_key(id),
        s.keys[id].is_frozen,
        !(operation matches Operation::Release { caller, id: released } && released == id
            && s.refusal(operation, now) is None),
    ensures
        s.apply(operation, now).keys.contains_key(id),
        s.apply(operation, now).keys[id].is_frozen,
        forall|user: Seq<char>, at: u64| !s.apply(operation, now).grants_access(user, id, at),
{
    if s.refusal(operation, now) is None {
        match operation {
            Operation::Sweep { principal } => {
                lemma_swept_balance(s, principal, now);
            },
            _ => {},
        }
    }
}

/// A sweep is no more than bookkeeping: from the time of the sweep on, every
/// key grants what it granted without the sweep.
pub proof fn law_sweep_keeps_access(
    s: RegistryView,
    principal: Seq<char>,
    now: u64,
    user: Seq<char>,
    id: u64,
    at: u64,
)
    requires
        s.wf(),
        now <= at,
    ensures
        s.swept(principal, now).grants_access(user, id, at) == s.grants_access(user, id, at),
{
    lemma_swept_balance(s, principal, now);
}

/// The freeze of an account touches no key: the records and the indices stay
/// as they are, and so does what every key grants.
pub proof fn law_account_freeze_touches_no_key(
    s: RegistryView,
    account: Seq<char>,
    frozen: bool,
    user: Seq<char>,
    id: u64,
    at: u64,
)
    ensures
        s.with_account_frozen(account, frozen).keys == s.keys,
        forall|p: Seq<char>| #[trigger]
            s.with_account_frozen(account, frozen).balance(p) == s.balance(p),
        s.with_account_frozen(account, frozen).grants_access(user, id, at) == s.grants_access(
            user,
            id,
            at,
        ),
{
}

/// In a sound registry the listing of a principal's keys has one record for
/// every id in its index.
pub proof fn law_listing_is_complete(s: RegistryView, user: Seq<char>)
    requires
        s.wf(),
    ensures
        s.keys_of(user).len() == s.balance(user).count(),
{
    let b = s.balance(user);
    assert forall|x: u64| b.active_keys.contains(x) implies s.keys.contains_key(x) by {
        assert(s.accounts[user].balance.holds(x));
    }
    assert forall|x: u64| b.expired_keys.contains(x) implies s.keys.contains_key(x) by {
        assert(s.accounts[user].balance.holds(x));
    }
    assert forall|x: u64| b.frozen_keys.contains(x) implies s.keys.contains_key(x) by {
        assert(s.accounts[user].balance.holds(x));
    }
    lemma_resolve_all(s, b.active_keys);
    lemma_resolve_all(s, b.expired_keys);
    lemma_resolve_all(s, b.frozen_keys);
}

/// Where every id has a record, resolving the ids gives the records one for
/// one.
pub proof fn lemma_resolve_all(s: RegistryView, ids: Seq<u64>)
    requires
        forall|x: u64| ids.contains(x) ==> s.keys.contains_key(x),
    ensures
        s.resolve(ids).len() == ids.len(),
        forall|i: int| 0 <= i < ids.len() ==> s.resolve(ids)[i] == s.keys[#[trigger] ids[i]],
    decreases ids.len(),
{
    if ids.len() > 0 {
        let front = ids.drop_last();
        assert forall|x: u64| front.contains(x) implies s.keys.contains_key(x) by {
            let i = choose|i: int| 0 <= i < front.len() && front[i] == x;
            assert(ids[i] == x);
            assert(ids.contains(x));
        }
        assert(ids[ids.len() - 1] == ids.last());
        assert(ids.contains(ids.last()));
        lemma_resolve_all(s, front);
        assert forall|i: int| 0 <= i < ids.len() implies s.resolve(ids)[i] == s.keys[#[trigger] ids[i]] by {
            if i < front.len() {
                assert(front[i] == ids[i]);
                assert(s.resolve(front)[i] == s.keys[front[i]]);
            }
        }
    }
}

} // verus!
