//! Instantiation keys in order: the keys of a map or a set as a list, and
//! what it means to have gone through the first few of them.

use crate::model::{key_lt, InstantiationKey};
use std::collections::BTreeMap;
use std::collections::BTreeSet;
use vstd::prelude::*;
use vstd::std_specs::btree::increasing_seq;
use vstd::std_specs::cmp::OrdSpec;
use vstd::std_specs::iter::IteratorSpec;

verus! {

/// Each key stands before every key that follows it.
pub open spec fn ascending(keys: Seq<InstantiationKey>) -> bool {
    forall|i: int, j: int|
        0 <= i < j < keys.len() ==> key_lt(#[trigger] keys[i], #[trigger] keys[j])
}

/// `keys` lists the members of `set`, each once, in rising order.
pub open spec fn lists(keys: Seq<InstantiationKey>, set: Set<InstantiationKey>) -> bool {
    &&& ascending(keys)
    &&& forall|k: InstantiationKey| set.contains(k) <==> keys.contains(k)
}

/// `k` is one of the first `n` of `keys`.
pub open spec fn among(keys: Seq<InstantiationKey>, n: int, k: InstantiationKey) -> bool {
    exists|p: int| 0 <= p < n && #[trigger] keys[p] == k
}

proof fn lemma_increasing_pair<K: Ord>(s: Seq<K>, i: int, j: int)
    requires
        vstd::laws_cmp::obeys_cmp::<K>(),
        increasing_seq(s),
        0 <= i < j < s.len(),
    ensures
        s[i].cmp_spec(&s[j]) is Less,
{
}

proof fn lemma_increasing_is_ascending(keys: Seq<InstantiationKey>)
    requires
        increasing_seq(keys),
    ensures
        ascending(keys),
{
    assert forall|i: int, j: int| 0 <= i < j < keys.len() implies key_lt(
        #[trigger] keys[i],
        #[trigger] keys[j],
    ) by {
        lemma_increasing_pair(keys, i, j);
    }
}

proof fn lemma_increasing_refs_ascend(refs: Seq<&InstantiationKey>)
    requires
        increasing_seq(refs),
    ensures
        ascending(refs.map_values(|k: &InstantiationKey| *k)),
{
    let keys = refs.map_values(|k: &InstantiationKey| *k);
    assert(vstd::laws_cmp::obeys_cmp::<InstantiationKey>());
    assert forall|i: int, j: int| 0 <= i < j < keys.len() implies key_lt(
        #[trigger] keys[i],
        #[trigger] keys[j],
    ) by {
        lemma_increasing_pair(refs, i, j);
    }
}

/// The keys of `map`, in rising order.
pub fn map_keys<V>(map: &BTreeMap<InstantiationKey, V>) -> (keys: Vec<InstantiationKey>)
    ensures
        lists(keys@, map@.dom()),
{
    let mut keys: Vec<InstantiationKey> = Vec::new();
    for entry in it: map.iter()
        invariant
            keys@.len() == it.index(),
            forall|i: int| 0 <= i < keys@.len() ==> keys@[i] == *(#[trigger] it.seq()[i]).0,
            increasing_seq(it.seq().map_values(|e: (&InstantiationKey, &V)| *e.0)),
            it.seq() == map.iter().remaining(),
    {
        keys.push(*entry.0);
    }
    proof {
        let entries = map.iter().remaining();
        let walked = entries.map_values(|e: (&InstantiationKey, &V)| *e.0);
        lemma_increasing_is_ascending(walked);
        assert(keys@ =~= walked);
        assert forall|k: InstantiationKey| map@.dom().contains(k) implies keys@.contains(k) by {
            assert(entries.contains((&k, &map@[k])));
            let i = choose|i: int| 0 <= i < entries.len() && entries[i] == (&k, &map@[k]);
            assert(keys@[i] == k);
        }
        assert forall|k: InstantiationKey| keys@.contains(k) implies map@.dom().contains(k) by {
            let i = choose|i: int| 0 <= i < keys@.len() && keys@[i] == k;
            assert(map@.contains_key(*entries[i].0));
        }
    }
    keys
}

/// The members of `set`, in rising order.
pub fn set_keys(set: &BTreeSet<InstantiationKey>) -> (keys: Vec<InstantiationKey>)
    ensures
        lists(keys@, set@),
{
    let mut keys: Vec<InstantiationKey> = Vec::new();
    for member in it: set.iter()
        invariant
            keys@.len() == it.index(),
            forall|i: int| 0 <= i < keys@.len() ==> keys@[i] == *(#[trigger] it.seq()[i]),
            it.seq() == set.iter().remaining(),
    {
        keys.push(*member);
    }
    proof {
        let members = set.iter().remaining();
        let walked = members.map_values(|k: &InstantiationKey| *k);
        lemma_increasing_refs_ascend(members);
        assert(keys@ =~= walked);
        assert(members.unref().to_set() == set@);
        assert forall|k: InstantiationKey| set@.contains(k) implies keys@.contains(k) by {
            assert(members.unref().contains(k));
            let i = choose|i: int| 0 <= i < members.unref().len() && members.unref()[i] == k;
            assert(keys@[i] == k);
        }
        assert forall|k: InstantiationKey| keys@.contains(k) implies set@.contains(k) by {
            let i = choose|i: int| 0 <= i < keys@.len() && keys@[i] == k;
            assert(members.unref()[i] == k);
            assert(members.unref().contains(k));
        }
    }
    keys
}

/// Going one key further takes in that key, and no other.
pub proof fn lemma_among_step(keys: Seq<InstantiationKey>, n: int, k: InstantiationKey)
    requires
        0 <= n < keys.len(),
    ensures
        among(keys, n + 1, k) <==> among(keys, n, k) || k == keys[n],
{
    if among(keys, n + 1, k) {
        let p = choose|p: int| 0 <= p < n + 1 && #[trigger] keys[p] == k;
        if p < n {
            assert(among(keys, n, k));
        }
    }
    if among(keys, n, k) {
        let p = choose|p: int| 0 <= p < n && #[trigger] keys[p] == k;
        assert(0 <= p < n + 1 && keys[p] == k);
    }
    if k == keys[n] {
        assert(0 <= n < n + 1 && keys[n] == k);
    }
}

/// Having gone through all of the keys of a set is having met its members.
pub proof fn lemma_among_all(
    keys: Seq<InstantiationKey>,
    set: Set<InstantiationKey>,
    k: InstantiationKey,
)
    requires
        lists(keys, set),
    ensures
        among(keys, keys.len() as int, k) <==> set.contains(k),
{
    if set.contains(k) {
        assert(keys.contains(k));
        let p = choose|p: int| 0 <= p < keys.len() && keys[p] == k;
        assert(0 <= p < keys.len() && keys[p] == k);
    }
    if among(keys, keys.len() as int, k) {
        let p = choose|p: int| 0 <= p < keys.len() && #[trigger] keys[p] == k;
        assert(keys.contains(k));
    }
}

/// A member that stands before the key at `n` is among the first `n` keys.
pub proof fn lemma_among_before(
    keys: Seq<InstantiationKey>,
    set: Set<InstantiationKey>,
    n: int,
    k: InstantiationKey,
)
    requires
        lists(keys, set),
        0 <= n < keys.len(),
        set.contains(k),
        key_lt(k, keys[n]),
    ensures
        among(keys, n, k),
{
    assert(keys.contains(k));
    let p = choose|p: int| 0 <= p < keys.len() && keys[p] == k;
    if p > n {
        assert(key_lt(keys[n], keys[p]));
    }
    assert(0 <= p < n && keys[p] == k);
}

/// The key at `n` is not among the keys before it.
pub proof fn lemma_among_excludes(keys: Seq<InstantiationKey>, n: int)
    requires
        ascending(keys),
        0 <= n < keys.len(),
    ensures
        !among(keys, n, keys[n]),
{
    if among(keys, n, keys[n]) {
        let p = choose|p: int| 0 <= p < n && #[trigger] keys[p] == keys[n];
        assert(key_lt(keys[p], keys[n]));
    }
}

} // verus!
