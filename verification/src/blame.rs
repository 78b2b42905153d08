//! Blame: for every term that a trigger match produced, the instantiation
//! that is held responsible for it.

use crate::model::{
    is_node, key_lt, trace_of, InstantiationKey, InstantiationRecord, Origin, TermId, Trace,
};
use crate::keys::{lists, map_keys};
use std::collections::BTreeMap;
use std::collections::HashMap;
use vstd::prelude::*;

verus! {

/// The instantiation `k` was fired by a trigger match and produced the term `t`.
pub open spec fn produces(trace: Trace, k: InstantiationKey, t: TermId) -> bool {
    is_node(trace, k) && trace[k].produced.contains(t)
}

/// `k` is to blame for `t`: of the instantiations that produced `t`, it is
/// the one that the trace is gone through last.
pub open spec fn is_blamed(trace: Trace, t: TermId, k: InstantiationKey) -> bool {
    &&& produces(trace, k, t)
    &&& forall|other: InstantiationKey| #[trigger] produces(trace, other, t) ==> !key_lt(k, other)
}

/// The blame that a trace gives rise to: every term that a trigger match
/// produced, with the instantiation that is to blame for it.
pub open spec fn blame_of(trace: Trace) -> Map<TermId, InstantiationKey> {
    Map::new(
        |t: TermId| exists|k: InstantiationKey| is_blamed(trace, t, k),
        |t: TermId| choose|k: InstantiationKey| is_blamed(trace, t, k),
    )
}

/// At most one instantiation is to blame for a term, and the blame of a trace
/// holds exactly the pairs of a term and the instantiation to blame for it.
pub proof fn lemma_blame_of(trace: Trace, t: TermId, k: InstantiationKey)
    ensures
        blame_of(trace).contains_pair(t, k) <==> is_blamed(trace, t, k),
        forall|other: InstantiationKey|
            is_blamed(trace, t, k) && is_blamed(trace, t, other) ==> other == k,
{
    assert forall|other: InstantiationKey|
        is_blamed(trace, t, k) && is_blamed(trace, t, other) implies other == k by {
        assert(!key_lt(k, other) && !key_lt(other, k));
    }
}

/// `keys` lists the keys of `trace`, each once, in the order in which the
/// trace is gone through.
pub open spec fn enumerates(keys: Seq<InstantiationKey>, trace: Trace) -> bool {
    lists(keys, trace.dom())
}

/// The place in `keys`, among the first `n`, of the last key that produced
/// `t`, if any of them did.
pub open spec fn last_producer(trace: Trace, keys: Seq<InstantiationKey>, n: int, t: TermId)
    -> Option<int>
    decreases n,
{
    if n <= 0 {
        None
    } else if produces(trace, keys[n - 1], t) {
        Some(n - 1)
    } else {
        last_producer(trace, keys, n - 1, t)
    }
}

/// The blame that the first `n` of `keys` give rise to.
pub open spec fn blame_upto(trace: Trace, keys: Seq<InstantiationKey>, n: int) -> Map<
    TermId,
    InstantiationKey,
> {
    Map::new(
        |t: TermId| last_producer(trace, keys, n, t) is Some,
        |t: TermId| keys[last_producer(trace, keys, n, t)->0],
    )
}

/// `blame`, with each of `terms` handed to `k`.
pub open spec fn reassigned(
    blame: Map<TermId, InstantiationKey>,
    terms: Seq<TermId>,
    k: InstantiationKey,
) -> Map<TermId, InstantiationKey> {
    Map::new(
        |t: TermId| blame.contains_key(t) || terms.contains(t),
        |t: TermId|
            if terms.contains(t) {
                k
            } else {
                blame[t]
            },
    )
}

proof fn lemma_last_producer(trace: Trace, keys: Seq<InstantiationKey>, n: int, t: TermId)
    requires
        0 <= n <= keys.len(),
    ensures
        match last_producer(trace, keys, n, t) {
            Some(p) => {
                &&& 0 <= p < n
                &&& produces(trace, keys[p], t)
                &&& forall|q: int| p < q < n ==> !produces(trace, #[trigger] keys[q], t)
            },
            None => forall|q: int| 0 <= q < n ==> !produces(trace, #[trigger] keys[q], t),
        },
    decreases n,
{
    if n > 0 && !produces(trace, keys[n - 1], t) {
        lemma_last_producer(trace, keys, n - 1, t);
    }
}

proof fn lemma_blame_upto_all(trace: Trace, keys: Seq<InstantiationKey>)
    requires
        enumerates(keys, trace),
    ensures
        forall|t: TermId, k: InstantiationKey|
            blame_upto(trace, keys, keys.len() as int).contains_pair(t, k) <==> is_blamed(
                trace,
                t,
                k,
            ),
{
    let n = keys.len() as int;
    let blame = blame_upto(trace, keys, n);
    assert forall|t: TermId, k: InstantiationKey| blame.contains_pair(t, k) implies is_blamed(
        trace,
        t,
        k,
    ) by {
        lemma_last_producer(trace, keys, n, t);
        let p = last_producer(trace, keys, n, t)->0;
        assert forall|other: InstantiationKey| #[trigger]
            produces(trace, other, t) implies !key_lt(k, other) by {
            assert(keys.contains(other));
            let q = choose|q: int| 0 <= q < keys.len() && keys[q] == other;
            if q < p {
                assert(key_lt(keys[q], keys[p]));
            }
        }
    }
    assert forall|t: TermId, k: InstantiationKey| is_blamed(trace, t, k) implies blame.contains_pair(
        t,
        k,
    ) by {
        lemma_last_producer(trace, keys, n, t);
        assert(keys.contains(k));
        let q = choose|q: int| 0 <= q < keys.len() && keys[q] == k;
        let p = last_producer(trace, keys, n, t)->0;
        assert(produces(trace, keys[p], t));
        if q < p {
            assert(key_lt(keys[q], keys[p]));
        }
    }
}

/// Attributes every term that a trigger match produced to the instantiation
/// that produced it. Where several did, the last one in the order of the
/// trace is to blame. A term that no trigger match produced has no entry.
pub fn attribute_blame(records: &BTreeMap<InstantiationKey, InstantiationRecord>) -> (blame:
    HashMap<TermId, InstantiationKey>)
    ensures
        blame@ == blame_of(trace_of(records@)),
        forall|t: TermId, k: InstantiationKey|
            blame@.contains_pair(t, k) <==> is_blamed(trace_of(records@), t, k),
{
    let keys = map_keys(records);
    let ghost trace = trace_of(records@);
    let mut blame: HashMap<TermId, InstantiationKey> = HashMap::new();
    let mut i: usize = 0;
    assert(blame@ =~= blame_upto(trace, keys@, 0));
    while i < keys.len()
        invariant
            i <= keys.len(),
            trace == trace_of(records@),
            enumerates(keys@, trace),
            blame@ == blame_upto(trace, keys@, i as int),
        decreases keys.len() - i,
    {
        let k = keys[i];
        assert(keys@.contains(k));
        let ghost before = blame@;
        if let Some(record) = records.get(&k) {
            if let Origin::NewMatch { .. } = &record.origin {
                let mut j: usize = 0;
                assert(blame@ =~= reassigned(before, record.produced@.take(0), k));
                while j < record.produced.len()
                    invariant
                        j <= record.produced.len(),
                        blame@ == reassigned(before, record.produced@.take(j as int), k),
                    decreases record.produced.len() - j,
                {
                    let t = record.produced[j];
                    blame.insert(t, k);
                    proof {
                        let done = record.produced@.take(j as int);
                        let next = record.produced@.take(j + 1);
                        assert(next =~= done.push(t));
                        assert forall|x: TermId| next.contains(x) <==> done.contains(x) || x
                            == t by {
                            if done.contains(x) {
                                let p = choose|p: int| 0 <= p < done.len() && done[p] == x;
                                assert(next[p] == x);
                            }
                            assert(next[j as int] == t);
                        }
                        assert(blame@ =~= reassigned(before, next, k));
                    }
                    j += 1;
                }
                assert(record.produced@.take(j as int) =~= record.produced@);
            }
        }
        proof {
            assert(blame@ =~= blame_upto(trace, keys@, i + 1));
        }
        i += 1;
    }
    proof {
        lemma_blame_upto_all(trace, keys@);
        assert forall|t: TermId| blame@.contains_key(t) implies blame_of(trace).contains_pair(
            t,
            blame@[t],
        ) by {
            assert(blame@.contains_pair(t, blame@[t]));
            lemma_blame_of(trace, t, blame@[t]);
        }
        assert forall|t: TermId| blame_of(trace).contains_key(t) implies blame@.contains_key(
            t,
        ) by {
            let k = choose|k: InstantiationKey| is_blamed(trace, t, k);
            assert(blame@.contains_pair(t, k));
        }
        assert(blame@ =~= blame_of(trace));
    }
    blame
}

} // verus!
