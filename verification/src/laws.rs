//! The laws of the ring, proved once and for all over the model: lookup is
//! deterministic and total, a lone node receives every key, and a removed
//! node is never returned again.

use crate::model::{
    is_replica_position, key_position, lemma_entries_map_characterization,
    lemma_ring_with_replicas, lemma_succ_index_bounds, lemma_succ_index_unique, owner_at,
    replica_position, ring_with_replicas,
};
use crate::ring::HashRing;
use vstd::prelude::*;

verus! {

/// Law: a lookup is a pure function of the key and the ring state. Any two
/// results that the ensures of `hostname_for_key` pins for the same key on
/// the same ring are the same hostname.
pub proof fn lemma_lookup_deterministic(
    r: HashRing,
    key: Seq<char>,
    first: Option<Seq<char>>,
    second: Option<Seq<char>>,
)
    requires
        first == owner_at(r.entries(), key_position(key, r.modulus())),
        second == owner_at(r.entries(), key_position(key, r.modulus())),
    ensures
        first == second,
{
}

/// Law: when every entry is owned by one node — the state after exactly one
/// node was inserted — a lookup at any position resolves to that node.
pub proof fn lemma_single_node_convergence(r: HashRing, host: Seq<char>, node: u64)
    requires
        r.entries().len() > 0,
        forall|i: int| 0 <= i < r.entries().len() ==> (#[trigger] r.entries()[i]).1 == host,
    ensures
        owner_at(r.entries(), node) == Some(host),
{
    lemma_succ_index_bounds(r.entries(), node);
}

/// Law: after one node is inserted into an empty ring — the ring map then
/// holds exactly its replica positions — every entry is owned by that node,
/// and with at least one replica the ring is not empty.
pub proof fn lemma_single_insert_owns_all(r: HashRing, host: Seq<char>)
    requires
        r.wf(),
        r.ring() == ring_with_replicas(
            Map::<u64, Seq<char>>::empty(),
            host,
            r.modulus(),
            r.replicas() as int,
        ),
    ensures
        forall|i: int| 0 <= i < r.entries().len() ==> (#[trigger] r.entries()[i]).1 == host,
        r.replicas() > 0 ==> r.entries().len() > 0,
{
    let es = r.entries();
    let n = r.replicas() as int;
    lemma_ring_with_replicas(Map::<u64, Seq<char>>::empty(), host, r.modulus(), n);
    lemma_entries_map_characterization(es);
    assert forall|i: int| 0 <= i < es.len() implies (#[trigger] es[i]).1 == host by {
        let p = es[i].0;
        assert(r.ring().contains_key(p) && r.ring()[p] == es[i].1);
        if !is_replica_position(host, r.modulus(), n, p) {
            assert(Map::<u64, Seq<char>>::empty().contains_key(p));
            assert(false);
        } else {
            let k = choose|k: int| 0 <= k < n && p == replica_position(host, r.modulus(), k);
            assert(r.ring()[replica_position(host, r.modulus(), k)] == host);
        }
    }
    if r.replicas() > 0 {
        assert(r.ring().contains_key(replica_position(host, r.modulus(), 0)));
    }
}

/// Law: total coverage. On a ring with at least one entry, a lookup at any
/// position resolves to some owner — never to nobody — and a position past
/// the last entry wraps around to the entry at the smallest position.
pub proof fn lemma_total_coverage(r: HashRing, node: u64)
    requires
        r.entries().len() > 0,
    ensures
        owner_at(r.entries(), node) is Some,
        (forall|i: int| 0 <= i < r.entries().len() ==> (#[trigger] r.entries()[i]).0 < node)
            ==> owner_at(r.entries(), node) == Some(r.entries()[0].1),
{
    lemma_succ_index_bounds(r.entries(), node);
    if forall|i: int| 0 <= i < r.entries().len() ==> (#[trigger] r.entries()[i]).0 < node {
        lemma_succ_index_unique(r.entries(), node, r.entries().len() as int);
    }
}

/// Law: clean removal. A lookup only ever resolves to a node that owns an
/// entry; on a ring where no entry is owned by `host` — the state that
/// `remove_hostname` ensures — no lookup returns `host`.
pub proof fn lemma_clean_removal(r: HashRing, host: Seq<char>, node: u64)
    requires
        forall|i: int| 0 <= i < r.entries().len() ==> (#[trigger] r.entries()[i]).1 != host,
    ensures
        owner_at(r.entries(), node) != Some(host),
{
    lemma_succ_index_bounds(r.entries(), node);
}

} // verus!
