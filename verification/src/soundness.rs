//! Every operation keeps the invariant of the registry.

use vstd::prelude::*;
use crate::access_key::{AccessKeyView, Bucket};
use crate::balance::{
    lemma_count_removed, lemma_holds, lemma_inserted, lemma_placed, lemma_removed, UserBalanceView,
};
use crate::bucket::{lemma_filter, lemma_filter_split, lemma_joined};
use crate::model::RegistryView;

verus! {

/// In a sound registry a key is listed by its owner alone, in the bucket that
/// its flags name and in no other.
pub proof fn lemma_listed_once(s: RegistryView, id: u64)
    requires
        s.wf(),
        s.keys.contains_key(id),
    ensures
        s.balance(s.keys[id].owner).holds(id),
        forall|p: Seq<char>| #[trigger] s.balance(p).holds(id) ==> p == s.keys[id].owner,
        forall|k: Bucket| #[trigger]
            s.balance(s.keys[id].owner).bucket(k).contains(id) <==> k == s.keys[id].bucket(),
{
    let owner = s.keys[id].owner;
    let b = s.balance(owner);
    assert(s.accounts[owner].balance.wf());
    assert(b.bucket(s.keys[id].bucket()).contains(id));
    lemma_holds(b, id);
    assert forall|p: Seq<char>| #[trigger] s.balance(p).holds(id) implies p == owner by {
        assert(s.accounts[p].balance.holds(id));
    }
}

/// The registry is sound before anything has happened.
pub proof fn lemma_initial_wf()
    ensures
        RegistryView::initial().wf(),
{
    let s = RegistryView::initial();
    assert forall|p: Seq<char>| (#[trigger] s.accounts[p]).balance.wf() by {
        assert(s.accounts[p].balance == UserBalanceView::empty(p));
    }
}

/// Setting the administrator keeps the registry sound.
pub proof fn lemma_initialized_wf(s: RegistryView, admin: Seq<char>)
    requires
        s.wf(),
    ensures
        s.initialized(admin).wf(),
{
}

/// Freezing or releasing an account keeps the registry consistent, and
/// sound if it was.
pub proof fn lemma_with_account_frozen_wf(s: RegistryView, account: Seq<char>, frozen: bool)
    requires
        s.consistent(),
    ensures
        s.with_account_frozen(account, frozen).consistent(),
        s.wf() ==> s.with_account_frozen(account, frozen).wf(),
{
    let t = s.with_account_frozen(account, frozen);
    assert forall|p: Seq<char>| (#[trigger] t.accounts[p]).balance == s.accounts[p].balance by {}
    assert forall|p: Seq<char>, id: u64| #[trigger] t.accounts[p].balance.holds(id) implies
        t.keys.contains_key(id) && t.keys[id].owner == p by {
        assert(s.accounts[p].balance.holds(id));
    }
    assert forall|id: u64| #[trigger] t.keys.contains_key(id) implies t.balance(
        t.keys[id].owner,
    ).bucket(t.keys[id].bucket()).contains(id) by {
        assert(s.keys.contains_key(id));
    }
}

/// Filing the record of an issued key that has none, with an owner whose index
/// has room, keeps the registry consistent.
pub proof fn lemma_adopted_consistent(s: RegistryView, key: AccessKeyView)
    requires
        s.consistent(),
        key.wf(),
        s.issued(key.id),
        !s.keys.contains_key(key.id),
        s.balance(key.owner).count() < u32::MAX,
    ensures
        s.adopted(key).consistent(),
{
    let t = s.adopted(key);
    let id = key.id;
    let owner = key.owner;
    let b = s.balance(owner);
    assert(!b.holds(id)) by {
        if b.holds(id) {
            assert(s.accounts[owner].balance.holds(id));
        }
    }
    assert(s.accounts[owner].balance.wf());
    lemma_inserted(b, id, key.bucket());
    assert forall|p: Seq<char>| (#[trigger] t.accounts[p]).balance.wf() by {
        if p != owner {
            assert(t.accounts[p] == s.accounts[p]);
        }
    }
    assert forall|p: Seq<char>| (#[trigger] t.accounts[p]).balance.address == p by {
        assert(s.accounts[p].balance.address == p);
    }
    assert forall|x: u64| #[trigger] t.keys.contains_key(x) implies t.balance(
        t.keys[x].owner,
    ).bucket(t.keys[x].bucket()).contains(x) by {
        if x != id {
            assert(s.keys.contains_key(x));
            assert(s.balance(s.keys[x].owner).bucket(s.keys[x].bucket()).contains(x));
        }
    }
    assert forall|p: Seq<char>, x: u64| #[trigger] t.accounts[p].balance.holds(x) implies
        t.keys.contains_key(x) && t.keys[x].owner == p by {
        if p == owner {
            assert(t.accounts[p].balance == b.inserted(id, key.bucket()));
            if x != id {
                assert(b.holds(x));
                assert(s.accounts[p].balance.holds(x));
            }
        } else {
            assert(s.accounts[p].balance.holds(x));
        }
    }
}

/// Counting one id more as issued keeps the registry consistent.
pub proof fn lemma_counted_consistent(s: RegistryView)
    requires
        s.consistent(),
        s.key_counter < u64::MAX,
    ensures
        (RegistryView { key_counter: (s.key_counter + 1) as u64, ..s }).consistent(),
{
    let grown = RegistryView { key_counter: (s.key_counter + 1) as u64, ..s };
    assert forall|p: Seq<char>, x: u64| #[trigger] grown.accounts[p].balance.holds(x) implies
        grown.keys.contains_key(x) && grown.keys[x].owner == p by {
        assert(s.accounts[p].balance.holds(x));
    }
}

/// Issuing a key keeps the registry sound.
pub proof fn lemma_minted_wf(
    s: RegistryView,
    owner: Seq<char>,
    content_name: Seq<u8>,
    price: i128,
    duration_days: u64,
    transferable: bool,
    now: u64,
)
    requires
        s.wf(),
        s.mint_refusal(owner, price, duration_days, now) is None,
    ensures
        s.minted(s.minted_key(owner, content_name, price, duration_days, transferable, now)).wf(),
{
    let key = s.minted_key(owner, content_name, price, duration_days, transferable, now);
    let grown = RegistryView { key_counter: (s.key_counter + 1) as u64, ..s };
    lemma_counted_consistent(s);
    lemma_adopted_consistent(grown, key);
}

/// Handing a key over keeps the registry sound.
pub proof fn lemma_transferred_wf(s: RegistryView, id: u64, from: Seq<char>, to: Seq<char>, now: u64)
    requires
        s.wf(),
        s.transfer_refusal(id, from, to, now) is None,
    ensures
        s.transferred(id, to).wf(),
{
    let t = s.transferred(id, to);
    let key = s.keys[id];
    let bf = s.balance(from);
    lemma_listed_once(s, id);
    assert(s.accounts[from].balance.wf());
    lemma_removed(bf, id);
    lemma_count_removed(bf, id);
    let left = s.with_balance(from, bf.removed(id));
    let bt = left.balance(to);
    assert(bt.wf() && !bt.holds(id) && bt.count() < u32::MAX) by {
        if to != from {
            assert(bt == s.accounts[to].balance);
            assert(s.accounts[to].balance.wf());
            if bt.holds(id) {
                assert(s.balance(to).holds(id));
            }
        }
    }
    lemma_inserted(bt, id, Bucket::Active);
    assert forall|p: Seq<char>| (#[trigger] t.accounts[p]).balance.wf() by {
        if p != to && p != from {
            assert(t.accounts[p] == s.accounts[p]);
        }
    }
    assert forall|p: Seq<char>| (#[trigger] t.accounts[p]).balance.address == p by {
        assert(s.accounts[p].balance.address == p);
    }
    assert forall|x: u64| #[trigger] t.keys.contains_key(x) implies t.balance(
        t.keys[x].owner,
    ).bucket(t.keys[x].bucket()).contains(x) by {
        if x != id {
            assert(s.keys.contains_key(x));
            let o = s.keys[x].owner;
            let k = s.keys[x].bucket();
            assert(s.balance(o).bucket(k).contains(x));
            if o == to {
                if to == from {
                    assert(bf.removed(id).bucket(k).contains(x));
                }
                assert(bt.inserted(id, Bucket::Active).bucket(k).contains(x));
            } else if o == from {
                assert(bf.removed(id).bucket(k).contains(x));
            }
        } else {
            assert(bt.inserted(id, Bucket::Active).bucket(Bucket::Active).contains(id));
        }
    }
    assert forall|p: Seq<char>, x: u64| #[trigger] t.accounts[p].balance.holds(x) implies
        t.keys.contains_key(x) && t.keys[x].owner == p by {
        if p == to {
            if x != id {
                assert(bt.holds(x));
                if to == from {
                    assert(bf.holds(x));
                }
                assert(s.accounts[p].balance.holds(x));
            }
        } else if p == from {
            assert(bf.removed(id).holds(x));
            assert(s.accounts[p].balance.holds(x));
        } else {
            assert(s.accounts[p].balance.holds(x));
        }
    }
}

/// Putting a key into the bucket that its new flags name keeps the registry
/// sound.
pub proof fn lemma_rebucketed_wf(s: RegistryView, key: AccessKeyView)
    requires
        s.wf(),
        s.keys.contains_key(key.id),
        key.wf(),
        key.owner == s.keys[key.id].owner,
    ensures
        s.with_balance(key.owner, s.balance(key.owner).placed(key.id, key.bucket())).with_key(
            key,
        ).wf(),
{
    let id = key.id;
    let owner = key.owner;
    let b = s.balance(owner);
    let t = s.with_balance(owner, b.placed(id, key.bucket())).with_key(key);
    lemma_listed_once(s, id);
    assert(s.accounts[owner].balance.wf());
    lemma_placed(b, id, key.bucket());
    assert forall|p: Seq<char>| (#[trigger] t.accounts[p]).balance.wf() by {
        if p != owner {
            assert(t.accounts[p] == s.accounts[p]);
        }
    }
    assert forall|p: Seq<char>| (#[trigger] t.accounts[p]).balance.address == p by {
        assert(s.accounts[p].balance.address == p);
    }
    assert forall|x: u64| #[trigger] t.keys.contains_key(x) implies t.balance(
        t.keys[x].owner,
    ).bucket(t.keys[x].bucket()).contains(x) by {
        if x != id {
            assert(s.keys.contains_key(x));
            assert(s.balance(s.keys[x].owner).bucket(s.keys[x].bucket()).contains(x));
        }
    }
    assert forall|p: Seq<char>, x: u64| #[trigger] t.accounts[p].balance.holds(x) implies
        t.keys.contains_key(x) && t.keys[x].owner == p by {
        if p == owner {
            assert(t.accounts[p].balance == b.placed(id, key.bucket()));
            assert(b.placed(id, key.bucket()).holds(x));
            assert(b.holds(x));
        }
        assert(s.accounts[p].balance.holds(x));
    }
}

/// Freezing a key keeps the registry sound.
pub proof fn lemma_frozen_wf(s: RegistryView, id: u64)
    requires
        s.wf(),
        s.keys.contains_key(id),
    ensures
        s.frozen(id).wf(),
{
    lemma_rebucketed_wf(s, s.keys[id].frozen());
}

/// Releasing a key keeps the registry sound.
pub proof fn lemma_released_wf(s: RegistryView, id: u64, now: u64)
    requires
        s.wf(),
        s.keys.contains_key(id),
    ensures
        s.released(id, now).wf(),
{
    if s.keys[id].is_frozen {
        lemma_rebucketed_wf(s, s.keys[id].released(now));
    }
}

/// What a sweep does to the index of the principal swept: the keys that stay
/// active and those that expire are the active keys of before, each once.
pub proof fn lemma_swept_balance(s: RegistryView, principal: Seq<char>, now: u64)
    requires
        s.wf(),
    ensures
        s.swept(principal, now).balance(principal).wf(),
        s.swept(principal, now).balance(principal).count() == s.balance(principal).count(),
        forall|x: u64| #[trigger]
            s.expiring(principal, now).contains(x) <==> s.balance(principal).active_keys.contains(x)
                && s.keys[x].expires_at <= now,
        forall|x: u64| #[trigger]
            s.swept(principal, now).balance(principal).active_keys.contains(x) <==> s.balance(
                principal,
            ).active_keys.contains(x) && !(s.keys[x].expires_at <= now),
        forall|x: u64| #[trigger]
            s.swept(principal, now).balance(principal).expired_keys.contains(x) <==> s.balance(
                principal,
            ).expired_keys.contains(x) || s.expiring(principal, now).contains(x),
{
    let b = s.balance(principal);
    let gone = s.expiring(principal, now);
    let after = s.swept(principal, now).balance(principal);
    assert(s.accounts[principal].balance.wf());
    lemma_filter(b.active_keys, s.due(now));
    lemma_filter(b.active_keys, s.not_due(now));
    lemma_filter_split(b.active_keys, s.not_due(now), s.due(now));
    lemma_joined(b.expired_keys, gone);
    assert forall|x: u64| b.active_keys.contains(x) implies s.keys.contains_key(x) by {
        assert(s.accounts[principal].balance.holds(x));
    }
    assert(after.active_keys == b.active_keys.filter(s.not_due(now)));
    assert(after.expired_keys == b.expired_keys + gone);
    assert(after.frozen_keys == b.frozen_keys);
}

/// A sweep keeps the registry sound.
pub proof fn lemma_swept_wf(s: RegistryView, principal: Seq<char>, now: u64)
    requires
        s.wf(),
    ensures
        s.swept(principal, now).wf(),
{
    let t = s.swept(principal, now);
    let b = s.balance(principal);
    let gone = s.expiring(principal, now);
    lemma_swept_balance(s, principal, now);
    assert forall|p: Seq<char>| (#[trigger] t.accounts[p]).balance.wf() by {
        if p != principal {
            assert(t.accounts[p] == s.accounts[p]);
        }
    }
    assert forall|p: Seq<char>| (#[trigger] t.accounts[p]).balance.address == p by {
        assert(s.accounts[p].balance.address == p);
    }
    assert forall|x: u64| gone.contains(x) implies s.keys.contains_key(x) && s.keys[x].owner
        == principal && s.keys[x].bucket() == Bucket::Active by {
        assert(s.accounts[principal].balance.holds(x));
        lemma_listed_once(s, x);
        assert(b.bucket(Bucket::Active).contains(x));
    }
    assert forall|x: u64| #[trigger] t.keys.contains_key(x) implies t.keys[x].id == x
        && t.keys[x].wf() by {
        assert(s.keys.contains_key(x));
    }
    assert forall|x: u64| #[trigger] t.keys.contains_key(x) implies t.balance(
        t.keys[x].owner,
    ).bucket(t.keys[x].bucket()).contains(x) by {
        assert(s.keys.contains_key(x));
        let o = s.keys[x].owner;
        let k = s.keys[x].bucket();
        assert(s.balance(o).bucket(k).contains(x));
        if o != principal {
            assert(t.accounts[o] == s.accounts[o]);
        }
    }
    assert forall|p: Seq<char>, x: u64| #[trigger] t.accounts[p].balance.holds(x) implies
        t.keys.contains_key(x) && t.keys[x].owner == p by {
        if p == principal {
            assert(b.holds(x));
        }
        assert(s.accounts[p].balance.holds(x));
    }
}

} // verus!
