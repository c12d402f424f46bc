//! The mathematical model of the ring: where a key and a node's replicas
//! land on the ring, and which entry a lookup at a given position resolves
//! to. The executable code in `ring` is specified against these functions.

use std::collections::hash_map::DefaultHasher;
use vstd::prelude::*;
use vstd::std_specs::hash::DefaultHasherAdditionalSpecFns;
use vstd::utf8::encode_utf8;

verus! {

/// Seed of the generator that yields the per-replica salts. It is fixed so
/// that replica placement is reproducible from the hostname alone.
pub const RNG_SEED: u64 = 23423;

/// The salt that the seeded generator yields at index `idx`. The stream is a
/// function of the seed alone; `salt_sequence` in `ring` produces it.
pub uninterp spec fn salt_of(seed: u64, idx: nat) -> u64;

/// The little-endian bytes of a 64-bit value.
pub open spec fn u64_le(x: u64) -> Seq<u8> {
    seq![
        (x & 0xff) as u8,
        ((x >> 8) & 0xff) as u8,
        ((x >> 16) & 0xff) as u8,
        ((x >> 24) & 0xff) as u8,
        ((x >> 32) & 0xff) as u8,
        ((x >> 40) & 0xff) as u8,
        ((x >> 48) & 0xff) as u8,
        ((x >> 56) & 0xff) as u8,
    ]
}

/// The write stream that hashing a string feeds to the hasher: the string's
/// UTF-8 bytes, then a terminator byte.
pub open spec fn str_writes(s: Seq<char>) -> Seq<Seq<u8>> {
    seq![encode_utf8(s), seq![0xffu8]]
}

/// The 64-bit digest of a key.
pub open spec fn key_digest(key: Seq<char>) -> u64 {
    DefaultHasher::spec_finish(str_writes(key))
}

/// The ring position a key falls on.
pub open spec fn key_position(key: Seq<char>, modulus: u64) -> u64
    recommends
        modulus > 0,
{
    key_digest(key) % modulus
}

/// The write stream after hashing `host` and the first `n` salts. Each
/// replica's digest is taken from the hasher state carried across replicas.
pub open spec fn replica_writes(host: Seq<char>, n: int) -> Seq<Seq<u8>>
    decreases n,
{
    if n <= 0 {
        str_writes(host)
    } else {
        replica_writes(host, n - 1).push(u64_le(salt_of(RNG_SEED, (n - 1) as nat)))
    }
}

/// The ring position of replica `i` of `host` on a ring with the given
/// modulus.
pub open spec fn replica_position(host: Seq<char>, modulus: u64, i: int) -> u64
    recommends
        modulus > 0,
{
    DefaultHasher::spec_finish(replica_writes(host, i + 1)) % modulus
}

/// Whether `p` is one of the first `n` replica positions of `host`.
pub open spec fn is_replica_position(host: Seq<char>, modulus: u64, n: int, p: u64) -> bool {
    exists|i: int| 0 <= i < n && p == replica_position(host, modulus, i)
}

/// The position-to-owner map after the first `n` replicas of `host` are
/// upserted into `m0`, a later replica overwriting an earlier occupant.
pub open spec fn ring_with_replicas(
    m0: Map<u64, Seq<char>>,
    host: Seq<char>,
    modulus: u64,
    n: int,
) -> Map<u64, Seq<char>>
    decreases n,
{
    if n <= 0 {
        m0
    } else {
        ring_with_replicas(m0, host, modulus, n - 1).insert(
            replica_position(host, modulus, n - 1),
            host,
        )
    }
}

/// The first index of `es` whose position is at or after `node`, or the
/// length of `es` when every position is below `node`.
pub open spec fn succ_index(es: Seq<(u64, Seq<char>)>, node: u64) -> int
    decreases es.len(),
{
    if es.len() == 0 {
        0
    } else if es[0].0 >= node {
        0
    } else {
        1 + succ_index(es.drop_first(), node)
    }
}

/// The owner a lookup at `node` resolves to: the owner of the first entry at
/// or after `node`, wrapping to the first entry when every position is below
/// `node`, and nobody when the ring is empty.
pub open spec fn owner_at(es: Seq<(u64, Seq<char>)>, node: u64) -> Option<Seq<char>> {
    if es.len() == 0 {
        None
    } else if succ_index(es, node) < es.len() {
        Some(es[succ_index(es, node)].1)
    } else {
        Some(es[0].1)
    }
}

/// Entry positions are strictly increasing.
pub open spec fn positions_sorted(es: Seq<(u64, Seq<char>)>) -> bool {
    forall|i: int, j: int| 0 <= i < j < es.len() ==> es[i].0 < es[j].0
}

/// Every entry position lies on the ring.
pub open spec fn positions_below(es: Seq<(u64, Seq<char>)>, modulus: u64) -> bool {
    forall|i: int| 0 <= i < es.len() ==> (#[trigger] es[i]).0 < modulus
}

/// Every entry sits at one of its owner's replica positions: positions are
/// hash-derived from the owner and a replica index, so a node owns at most
/// `replicas` entries.
pub open spec fn entries_hash_derived(
    es: Seq<(u64, Seq<char>)>,
    modulus: u64,
    replicas: u64,
) -> bool {
    forall|i: int|
        0 <= i < es.len() ==> is_replica_position(
            (#[trigger] es[i]).1,
            modulus,
            replicas as int,
            es[i].0,
        )
}

/// The entries that survive removing the node `host`.
pub open spec fn remove_owner(es: Seq<(u64, Seq<char>)>, host: Seq<char>) -> Seq<(u64, Seq<char>)> {
    es.filter(|e: (u64, Seq<char>)| e.1 != host)
}

/// The position-to-owner map that a sequence of entries with distinct
/// positions denotes.
pub open spec fn entries_map(es: Seq<(u64, Seq<char>)>) -> Map<u64, Seq<char>> {
    Map::new(
        |p: u64| exists|i: int| 0 <= i < es.len() && (#[trigger] es[i]).0 == p,
        |p: u64| es[choose|i: int| 0 <= i < es.len() && (#[trigger] es[i]).0 == p].1,
    )
}

/// `succ_index` is the unique index with nothing at or after `node` before
/// it, and an entry at or after `node` at it unless it is the length.
pub proof fn lemma_succ_index_bounds(es: Seq<(u64, Seq<char>)>, node: u64)
    ensures
        0 <= succ_index(es, node) <= es.len(),
        forall|j: int| 0 <= j < succ_index(es, node) ==> (#[trigger] es[j]).0 < node,
        succ_index(es, node) < es.len() ==> es[succ_index(es, node)].0 >= node,
    decreases es.len(),
{
    if es.len() == 0 {
    } else if es[0].0 >= node {
    } else {
        lemma_succ_index_bounds(es.drop_first(), node);
        assert forall|j: int| 0 <= j < succ_index(es, node) implies (#[trigger] es[j]).0
            < node by {
            if j > 0 {
                assert(es.drop_first()[j - 1] == es[j]);
            }
        }
        if succ_index(es, node) < es.len() {
            assert(es.drop_first()[succ_index(es, node) - 1] == es[succ_index(es, node)]);
        }
    }
}

/// In a sequence with strictly increasing positions, each entry's position
/// maps to its owner, and every mapped position comes from an entry.
pub proof fn lemma_entries_map_characterization(es: Seq<(u64, Seq<char>)>)
    requires
        positions_sorted(es),
    ensures
        forall|i: int|
            0 <= i < es.len() ==> entries_map(es).contains_key((#[trigger] es[i]).0)
                && entries_map(es)[es[i].0] == es[i].1,
        forall|p: u64|
            entries_map(es).contains_key(p) ==> exists|i: int|
                0 <= i < es.len() && (#[trigger] es[i]).0 == p,
{
    assert forall|i: int| 0 <= i < es.len() implies entries_map(es).contains_key(
        (#[trigger] es[i]).0,
    ) && entries_map(es)[es[i].0] == es[i].1 by {
        let p = es[i].0;
        assert(exists|k: int| 0 <= k < es.len() && (#[trigger] es[k]).0 == p);
        let j = choose|k: int| 0 <= k < es.len() && (#[trigger] es[k]).0 == p;
        if j < i {
            assert(es[j].0 < es[i].0);
        } else if i < j {
            assert(es[i].0 < es[j].0);
        }
    }
}

/// Overwriting the owner at an existing position updates the denoted map at
/// that position alone.
pub proof fn lemma_entries_map_update(es: Seq<(u64, Seq<char>)>, i: int, host: Seq<char>)
    requires
        positions_sorted(es),
        0 <= i < es.len(),
    ensures
        positions_sorted(es.update(i, (es[i].0, host))),
        entries_map(es.update(i, (es[i].0, host))) =~= entries_map(es).insert(es[i].0, host),
{
    let es2 = es.update(i, (es[i].0, host));
    assert(forall|k: int| 0 <= k < es.len() ==> (#[trigger] es2[k]).0 == es[k].0);
    lemma_entries_map_characterization(es);
    lemma_entries_map_characterization(es2);
    let m1 = entries_map(es2);
    let m2 = entries_map(es).insert(es[i].0, host);
    assert forall|q: u64| m1.contains_key(q) implies m2.contains_key(q) && m1[q] == m2[q] by {
        let k = choose|k: int| 0 <= k < es2.len() && (#[trigger] es2[k]).0 == q;
        assert(es[k].0 == q);
        if k == i {
            assert(m1[q] == es2[i].1);
        } else {
            assert(es2[k] == es[k]);
            assert(q != es[i].0);
            assert(m1[q] == es2[k].1);
            assert(m2[q] == es[k].1);
        }
    }
    assert forall|q: u64| m2.contains_key(q) implies m1.contains_key(q) by {
        if q == es[i].0 {
            assert(es2[i].0 == q);
        } else {
            let k = choose|k: int| 0 <= k < es.len() && (#[trigger] es[k]).0 == q;
            assert(es2[k].0 == q);
        }
    }
}

/// Inserting an entry at a fresh position, at its sorted place, keeps the
/// entries sorted, adds that position to the denoted map, and changes
/// nothing else.
pub proof fn lemma_entries_map_insert(es: Seq<(u64, Seq<char>)>, i: int, p: u64, host: Seq<char>)
    requires
        positions_sorted(es),
        0 <= i <= es.len(),
        forall|j: int| 0 <= j < i ==> (#[trigger] es[j]).0 < p,
        forall|j: int| i <= j < es.len() ==> (#[trigger] es[j]).0 > p,
    ensures
        positions_sorted(es.insert(i, (p, host))),
        entries_map(es.insert(i, (p, host))) =~= entries_map(es).insert(p, host),
{
    let es2 = es.insert(i, (p, host));
    es.insert_ensures(i, (p, host));
    assert forall|a: int, b: int| 0 <= a < b < es2.len() implies es2[a].0 < es2[b].0 by {
        assert(a < i ==> es2[a] == es[a]);
        assert(a > i ==> es2[a] == es[a - 1]);
        assert(b < i ==> es2[b] == es[b]);
        assert(b > i ==> es2[b] == es[b - 1]);
    }
    lemma_entries_map_characterization(es);
    lemma_entries_map_characterization(es2);
    let m1 = entries_map(es2);
    let m2 = entries_map(es).insert(p, host);
    assert forall|q: u64| m1.contains_key(q) implies m2.contains_key(q) && m1[q] == m2[q] by {
        let k = choose|k: int| 0 <= k < es2.len() && (#[trigger] es2[k]).0 == q;
        assert(m1[q] == es2[k].1);
        if k == i {
            assert(m1[q] == host);
        } else if k < i {
            assert(es2[k] == es[k]);
            assert(q != p);
            assert(m2[q] == es[k].1);
        } else {
            assert(es2[k] == es[k - 1]);
            assert(q != p);
            assert(m2[q] == es[k - 1].1);
        }
    }
    assert forall|q: u64| m2.contains_key(q) implies m1.contains_key(q) by {
        if q == p {
            assert(es2[i].0 == q);
        } else {
            let k = choose|k: int| 0 <= k < es.len() && (#[trigger] es[k]).0 == q;
            if k < i {
                assert(es2[k].0 == q);
            } else {
                assert(es2[k + 1].0 == q);
            }
        }
    }
}

/// Filtering a one-entry extension keeps the filtered prefix and appends the
/// entry exactly when it survives.
pub proof fn lemma_remove_owner_step(es: Seq<(u64, Seq<char>)>, host: Seq<char>, i: int)
    requires
        0 <= i < es.len(),
    ensures
        remove_owner(es.take(i + 1), host) == (if es[i].1 != host {
            remove_owner(es.take(i), host).push(es[i])
        } else {
            remove_owner(es.take(i), host)
        }),
{
    reveal(Seq::filter);
    let s1 = es.take(i + 1);
    assert(s1.drop_last() =~= es.take(i));
    assert(s1.last() == es[i]);
    if es[i].1 != host {
        assert(remove_owner(s1, host) =~= remove_owner(es.take(i), host).push(es[i]));
    } else {
        assert(remove_owner(s1, host) =~= remove_owner(es.take(i), host));
    }
}

/// Removing a node's entries keeps the survivors sorted, on the ring, drawn
/// from the original entries, and none of them owned by that node.
pub proof fn lemma_remove_owner_wf(es: Seq<(u64, Seq<char>)>, host: Seq<char>, modulus: u64)
    requires
        positions_sorted(es),
        positions_below(es, modulus),
    ensures
        positions_sorted(remove_owner(es, host)),
        positions_below(remove_owner(es, host), modulus),
        forall|k: int|
            0 <= k < remove_owner(es, host).len() ==> (#[trigger] remove_owner(es, host)[k]).1
                != host,
        forall|k: int|
            0 <= k < remove_owner(es, host).len() ==> exists|j: int|
                0 <= j < es.len() && (#[trigger] remove_owner(es, host)[k]) == es[j],
    decreases es.len(),
{
    reveal(Seq::filter);
    let out = remove_owner(es, host);
    if es.len() == 0 {
    } else {
        let prefix = es.drop_last();
        lemma_remove_owner_wf(prefix, host, modulus);
        let sub = remove_owner(prefix, host);
        assert forall|k: int| 0 <= k < out.len() implies exists|j: int|
            0 <= j < es.len() && (#[trigger] out[k]) == es[j] by {
            if k < sub.len() {
                assert(out[k] == sub[k]);
                let j = choose|j: int| 0 <= j < prefix.len() && (#[trigger] sub[k]) == prefix[j];
                assert(es[j] == prefix[j]);
            } else {
                assert(out[k] == es[es.len() - 1]);
            }
        }
        assert forall|a: int, b: int| 0 <= a < b < out.len() implies out[a].0 < out[b].0 by {
            if b < sub.len() {
                assert(out[a] == sub[a] && out[b] == sub[b]);
            } else {
                assert(out[a] == sub[a]);
                let j = choose|j: int| 0 <= j < prefix.len() && (#[trigger] sub[a]) == prefix[j];
                assert(es[j] == prefix[j]);
                assert(es[j].0 < es[es.len() - 1].0);
            }
        }
    }
}

/// After upserting the first `n` replicas of `host`, each replica position
/// is owned by `host`, and every other position is as in the base map.
pub proof fn lemma_ring_with_replicas(
    m0: Map<u64, Seq<char>>,
    host: Seq<char>,
    modulus: u64,
    n: int,
)
    requires
        n >= 0,
    ensures
        forall|i: int|
            0 <= i < n ==> ring_with_replicas(m0, host, modulus, n).contains_key(
                #[trigger] replica_position(host, modulus, i),
            ) && ring_with_replicas(m0, host, modulus, n)[replica_position(host, modulus, i)]
                == host,
        forall|p: u64|
            #![trigger is_replica_position(host, modulus, n, p)]
            !is_replica_position(host, modulus, n, p) ==> (ring_with_replicas(
                m0,
                host,
                modulus,
                n,
            ).contains_key(p) <==> m0.contains_key(p)) && (m0.contains_key(p)
                ==> ring_with_replicas(m0, host, modulus, n)[p] == m0[p]),
    decreases n,
{
    if n > 0 {
        lemma_ring_with_replicas(m0, host, modulus, n - 1);
        let prev = ring_with_replicas(m0, host, modulus, n - 1);
        let cur = ring_with_replicas(m0, host, modulus, n);
        assert(cur == prev.insert(replica_position(host, modulus, n - 1), host));
        assert forall|i: int| 0 <= i < n implies cur.contains_key(
            #[trigger] replica_position(host, modulus, i),
        ) && cur[replica_position(host, modulus, i)] == host by {
            if i < n - 1 && replica_position(host, modulus, i) != replica_position(
                host,
                modulus,
                n - 1,
            ) {
                assert(prev.contains_key(replica_position(host, modulus, i)));
            }
        }
        assert forall|p: u64|
            #![trigger is_replica_position(host, modulus, n, p)]
            !is_replica_position(host, modulus, n, p) implies (cur.contains_key(p)
            <==> m0.contains_key(p)) && (m0.contains_key(p) ==> cur[p] == m0[p]) by {
            assert(p != replica_position(host, modulus, n - 1));
            assert(!is_replica_position(host, modulus, n - 1, p)) by {
                if is_replica_position(host, modulus, n - 1, p) {
                    let i = choose|i: int|
                        0 <= i < n - 1 && p == replica_position(host, modulus, i);
                    assert(0 <= i < n && p == replica_position(host, modulus, i));
                }
            }
            assert((prev.contains_key(p) <==> m0.contains_key(p)) && (m0.contains_key(p)
                ==> prev[p] == m0[p]));
        }
    }
}

/// Any index below which every position is short of `node`, and which either
/// is the length or carries a position at or after `node`, is `succ_index`.
pub proof fn lemma_succ_index_unique(es: Seq<(u64, Seq<char>)>, node: u64, i: int)
    requires
        0 <= i <= es.len(),
        forall|j: int| 0 <= j < i ==> (#[trigger] es[j]).0 < node,
        i < es.len() ==> es[i].0 >= node,
    ensures
        i == succ_index(es, node),
{
    lemma_succ_index_bounds(es, node);
    let si = succ_index(es, node);
    if i < si {
        assert(es[i].0 < node);
    } else if si < i {
        assert(es[si].0 < node);
    }
}

} // verus!
