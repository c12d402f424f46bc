//! The ring itself: a modulus, a replica count, and the entries kept as a
//! vector sorted by position, so that the clockwise nearest successor of a
//! query position is found by binary search.

use crate::model::{
    entries_hash_derived, entries_map, is_replica_position, key_position, lemma_entries_map_insert,
    lemma_entries_map_update, lemma_remove_owner_step, lemma_remove_owner_wf,
    lemma_ring_with_replicas, lemma_succ_index_bounds, lemma_succ_index_unique, owner_at,
    positions_below, positions_sorted, remove_owner, replica_position, replica_writes,
    ring_with_replicas, salt_of, str_writes, succ_index, u64_le, RNG_SEED,
};
use rand::{Rng, SeedableRng};
use std::collections::hash_map::DefaultHasher;
use std::hash::Hasher;
use vstd::prelude::*;
use vstd::std_specs::hash::DefaultHasherAdditionalSpecFns;

verus! {

/// One ring entry: the node that owns it and the position it sits at.
pub struct ServerLocation {
    hostname: String,
    ring_location: u64,
}

impl View for ServerLocation {
    type V = (u64, Seq<char>);

    closed spec fn view(&self) -> (u64, Seq<char>) {
        (self.ring_location, self.hostname@)
    }
}

/// The entries, in order, that a vector of locations denotes.
pub open spec fn locations_view(locs: Seq<ServerLocation>) -> Seq<(u64, Seq<char>)> {
    locs.map(|i: int, loc: ServerLocation| loc@)
}

/// A consistent-hashing ring over the positions `[0, modulus)`. Inserting a
/// node places one entry per replica; a lookup resolves to the owner of the
/// nearest entry clockwise.
pub struct HashRing {
    max_value: u64,
    num_copies: u64,
    server_locations: Vec<ServerLocation>,
}

impl HashRing {
    /// The ring modulus: positions live in `[0, modulus)`.
    pub closed spec fn modulus(self) -> u64 {
        self.max_value
    }

    /// How many entries each inserted node contributes.
    pub closed spec fn replicas(self) -> u64 {
        self.num_copies
    }

    /// The ring entries in ascending position order.
    pub closed spec fn entries(self) -> Seq<(u64, Seq<char>)> {
        locations_view(self.server_locations@)
    }

    /// The position-to-owner map the ring denotes.
    pub open spec fn ring(self) -> Map<u64, Seq<char>> {
        entries_map(self.entries())
    }

    /// Entries are sorted by position, positions are distinct and on the
    /// ring, every entry sits at one of its owner's replica positions, and
    /// the modulus is positive.
    pub open spec fn wf(self) -> bool {
        &&& self.modulus() > 0
        &&& self.replicas() <= usize::MAX as u64 / 8
        &&& positions_sorted(self.entries())
        &&& positions_below(self.entries(), self.modulus())
        &&& entries_hash_derived(self.entries(), self.modulus(), self.replicas())
    }

    /// A ring with the given modulus and replica count and no entries.
    pub fn new(max_value: u64, num_copies: u64) -> (r: HashRing)
        requires
            max_value > 0,
            num_copies <= usize::MAX as u64 / 8,
        ensures
            r.wf(),
            r.modulus() == max_value,
            r.replicas() == num_copies,
            r.entries() =~= Seq::<(u64, Seq<char>)>::empty(),
    {
        HashRing { max_value, num_copies, server_locations: Vec::new() }
    }

    /// The ring modulus.
    pub fn max_value(&self) -> (r: u64)
        ensures
            r == self.modulus(),
    {
        self.max_value
    }

    /// The first index whose position is at or after `node`, found by binary
    /// search over the sorted entries.
    fn successor_index(&self, node: u64) -> (r: usize)
        requires
            self.wf(),
        ensures
            r as int == succ_index(self.entries(), node),
    {
        let ghost es = self.entries();
        let mut lo: usize = 0;
        let mut hi: usize = self.server_locations.len();
        while lo < hi
            invariant
                self.wf(),
                es == self.entries(),
                0 <= lo <= hi <= es.len(),
                forall|j: int| 0 <= j < lo ==> (#[trigger] es[j]).0 < node,
                forall|j: int| hi <= j < es.len() ==> (#[trigger] es[j]).0 >= node,
            decreases hi - lo,
        {
            let mid = lo + (hi - lo) / 2;
            assert(es[mid as int] == self.server_locations@[mid as int]@);
            if self.server_locations[mid].ring_location < node {
                lo = mid + 1;
            } else {
                hi = mid;
            }
        }
        proof {
            lemma_succ_index_unique(es, node, lo as int);
        }
        lo
    }

    /// The hostname owning the position `node`: the owner of the nearest
    /// entry clockwise, or nobody when the ring has no entries.
    pub fn hostname_for_node(&self, node: u64) -> (r: Option<String>)
        requires
            self.wf(),
            node < self.modulus(),
        ensures
            r.deep_view() == owner_at(self.entries(), node),
    {
        let i = self.successor_index(node);
        if i < self.server_locations.len() {
            assert(self.entries()[i as int] == self.server_locations@[i as int]@);
            Some(self.server_locations[i].hostname.clone())
        } else if self.server_locations.len() > 0 {
            assert(self.entries()[0] == self.server_locations@[0]@);
            Some(self.server_locations[0].hostname.clone())
        } else {
            None
        }
    }

    /// The hostname a key is assigned to: the key is hashed onto the ring
    /// and resolved to the nearest entry clockwise. The result is a pure
    /// function of the key and the current entries.
    pub fn hostname_for_key(&self, key: &str) -> (r: Option<String>)
        requires
            self.wf(),
        ensures
            r.deep_view() == owner_at(self.entries(), key_position(key@, self.modulus())),
    {
        let mut hasher = DefaultHasher::new();
        hasher.write(key.as_bytes());
        let mut terminator: Vec<u8> = Vec::new();
        terminator.push(0xff);
        hasher.write(terminator.as_slice());
        proof {
            assert(hasher@ =~= str_writes(key@));
        }
        let node = hasher.finish() % self.max_value;
        self.hostname_for_node(node)
    }
    /// Place or overwrite the single entry at `position`, owned by `hostname`.
    fn upsert(&mut self, position: u64, hostname: &str)
        requires
            old(self).wf(),
            position < old(self).modulus(),
            is_replica_position(
                hostname@,
                old(self).modulus(),
                old(self).replicas() as int,
                position,
            ),
        ensures
            final(self).wf(),
            final(self).modulus() == old(self).modulus(),
            final(self).replicas() == old(self).replicas(),
            final(self).ring() =~= old(self).ring().insert(position, hostname@),
    {
        let ghost es = old(self).entries();
        let i = self.successor_index(position);
        proof {
            lemma_succ_index_bounds(es, position);
        }
        let entry = ServerLocation { hostname: hostname.to_owned(), ring_location: position };
        if i < self.server_locations.len() && self.server_locations[i].ring_location == position {
            let _ = self.server_locations.remove(i);
            self.server_locations.insert(i, entry);
            proof {
                assert(es[i as int] == old(self).server_locations@[i as int]@);
                assert(self.entries() =~= es.update(i as int, (es[i as int].0, hostname@)));
                lemma_entries_map_update(es, i as int, hostname@);
                assert(self.entries() == es.update(i as int, (es[i as int].0, hostname@)));
                assert(forall|k: int|
                    0 <= k < es.len() ==> (#[trigger] es.update(
                        i as int,
                        (es[i as int].0, hostname@),
                    )[k]).0 == es[k].0);
                let es2 = self.entries();
                assert forall|k: int| 0 <= k < es2.len() implies is_replica_position(
                    (#[trigger] es2[k]).1,
                    old(self).modulus(),
                    old(self).replicas() as int,
                    es2[k].0,
                ) by {
                    if k != i as int {
                        assert(es2[k] == es[k]);
                    } else {
                        assert(es2[k] == (position, hostname@));
                    }
                }
            }
        } else {
            self.server_locations.insert(i, entry);
            proof {
                assert(self.entries() =~= es.insert(i as int, (position, hostname@)));
                assert(self.entries() == es.insert(i as int, (position, hostname@)));
                assert forall|j: int| i as int <= j < es.len() implies (#[trigger] es[j]).0
                    > position by {
                    if j > i as int {
                        assert(es[i as int].0 < es[j].0);
                    }
                }
                lemma_entries_map_insert(es, i as int, position, hostname@);
                es.insert_ensures(i as int, (position, hostname@));
                let es2 = self.entries();
                assert forall|k: int| 0 <= k < es2.len() implies is_replica_position(
                    (#[trigger] es2[k]).1,
                    old(self).modulus(),
                    old(self).replicas() as int,
                    es2[k].0,
                ) by {
                    if k < i as int {
                        assert(es2[k] == es[k]);
                    } else if k > i as int {
                        assert(es2[k] == es[k - 1]);
                    } else {
                        assert(es2[k] == (position, hostname@));
                    }
                }
            }
        }
    }

    /// Insert a node: one entry per replica is placed, each at a position
    /// derived from the hostname and that replica's salt, overwriting any
    /// prior occupant of the position.
    pub fn insert_server(&mut self, hostname: &str)
        requires
            old(self).wf(),
        ensures
            final(self).wf(),
            final(self).modulus() == old(self).modulus(),
            final(self).replicas() == old(self).replicas(),
            final(self).ring() =~= ring_with_replicas(
                old(self).ring(),
                hostname@,
                old(self).modulus(),
                old(self).replicas() as int,
            ),
            forall|i: int|
                0 <= i < old(self).replicas() ==> final(self).ring().contains_key(
                    #[trigger] replica_position(hostname@, old(self).modulus(), i),
                ) && final(self).ring()[replica_position(hostname@, old(self).modulus(), i)]
                    == hostname@,
            forall|p: u64|
                #![trigger is_replica_position(hostname@, old(self).modulus(), old(self).replicas() as int, p)]
                !is_replica_position(
                    hostname@,
                    old(self).modulus(),
                    old(self).replicas() as int,
                    p,
                ) ==> (final(self).ring().contains_key(p) <==> old(self).ring().contains_key(p))
                    && (old(self).ring().contains_key(p) ==> final(self).ring()[p] == old(
                    self,
                ).ring()[p]),
    {
        let salts = salt_sequence(RNG_SEED, self.num_copies);
        let mut hasher = DefaultHasher::new();
        hasher.write(hostname.as_bytes());
        let mut terminator: Vec<u8> = Vec::new();
        terminator.push(0xff);
        hasher.write(terminator.as_slice());
        proof {
            assert(hasher@ =~= replica_writes(hostname@, 0));
        }
        let mut i: usize = 0;
        while (i as u64) < self.num_copies
            invariant
                self.wf(),
                self.modulus() == old(self).modulus(),
                self.replicas() == old(self).replicas(),
                (i as u64) <= old(self).replicas(),
                salts@.len() == old(self).replicas() as nat,
                forall|k: int| 0 <= k < salts@.len() ==> salts@[k] == salt_of(RNG_SEED, k as nat),
                hasher@ == replica_writes(hostname@, i as int),
                self.ring() =~= ring_with_replicas(
                    old(self).ring(),
                    hostname@,
                    old(self).modulus(),
                    i as int,
                ),
            decreases old(self).replicas() - i,
        {
            let bytes = u64_le_bytes(salts[i]);
            hasher.write(bytes.as_slice());
            proof {
                assert(hasher@ =~= replica_writes(hostname@, i as int + 1));
            }
            let position = hasher.finish() % self.max_value;
            assert(position == replica_position(hostname@, old(self).modulus(), i as int));
            proof {
                assert((i as int) < old(self).replicas() as int && position
                    == replica_position(hostname@, old(self).modulus(), i as int));
                assert(is_replica_position(
                    hostname@,
                    old(self).modulus(),
                    old(self).replicas() as int,
                    position,
                ));
            }
            self.upsert(position, hostname);
            i = i + 1;
        }
        proof {
            lemma_ring_with_replicas(
                old(self).ring(),
                hostname@,
                old(self).modulus(),
                old(self).replicas() as int,
            );
            assert(self.ring() == ring_with_replicas(
                old(self).ring(),
                hostname@,
                old(self).modulus(),
                old(self).replicas() as int,
            ));
        }
    }

    /// Remove a node: every entry owned by `hostname` is deleted, whichever
    /// replica produced it; the other entries keep their order. Removing a
    /// hostname that owns nothing leaves the ring unchanged.
    pub fn remove_hostname(&mut self, hostname: &str)
        requires
            old(self).wf(),
        ensures
            final(self).wf(),
            final(self).modulus() == old(self).modulus(),
            final(self).replicas() == old(self).replicas(),
            final(self).entries() =~= remove_owner(old(self).entries(), hostname@),
            forall|k: int|
                0 <= k < final(self).entries().len() ==> (#[trigger] final(self).entries()[k]).1
                    != hostname@,
    {
        let ghost es = old(self).entries();
        let target: String = hostname.to_owned();
        let mut kept: Vec<ServerLocation> = Vec::new();
        let mut idx: usize = 0;
        while idx < self.server_locations.len()
            invariant
                self.max_value == old(self).max_value,
                self.num_copies == old(self).num_copies,
                self.server_locations == old(self).server_locations,
                old(self).wf(),
                es == old(self).entries(),
                target@ == hostname@,
                idx <= self.server_locations.len(),
                locations_view(kept@) == remove_owner(es.take(idx as int), hostname@),
            decreases self.server_locations.len() - idx,
        {
            proof {
                lemma_remove_owner_step(es, hostname@, idx as int);
                assert(es[idx as int] == self.server_locations@[idx as int]@);
            }
            let loc = &self.server_locations[idx];
            if !(loc.hostname == target) {
                kept.push(
                    ServerLocation {
                        hostname: loc.hostname.clone(),
                        ring_location: loc.ring_location,
                    },
                );
                proof {
                    assert(locations_view(kept@) =~= remove_owner(
                        es.take(idx as int + 1),
                        hostname@,
                    ));
                }
            } else {
                proof {
                    assert(locations_view(kept@) =~= remove_owner(
                        es.take(idx as int + 1),
                        hostname@,
                    ));
                }
            }
            idx = idx + 1;
        }
        proof {
            assert(es.take(es.len() as int) =~= es);
        }
        self.server_locations = kept;
        proof {
            lemma_remove_owner_wf(es, hostname@, old(self).modulus());
            assert(self.entries() == remove_owner(es, hostname@));
            let es2 = self.entries();
            assert forall|k: int| 0 <= k < es2.len() implies is_replica_position(
                (#[trigger] es2[k]).1,
                old(self).modulus(),
                old(self).replicas() as int,
                es2[k].0,
            ) by {
                let j = choose|j: int|
                    0 <= j < es.len() && remove_owner(es, hostname@)[k] == es[j];
                assert(es2[k] == es[j]);
            }
        }
    }

    /// Whether any ring entry is owned by `hostname`.
    pub fn has_hostname(&self, hostname: &str) -> (r: bool)
        ensures
            r == exists|i: int|
                0 <= i < self.entries().len() && (#[trigger] self.entries()[i]).1 == hostname@,
    {
        let target: String = hostname.to_owned();
        let mut idx: usize = 0;
        while idx < self.server_locations.len()
            invariant
                target@ == hostname@,
                idx <= self.server_locations.len(),
                forall|j: int|
                    0 <= j < idx ==> (#[trigger] self.entries()[j]).1 != hostname@,
            decreases self.server_locations.len() - idx,
        {
            proof {
                assert(self.entries()[idx as int] == self.server_locations@[idx as int]@);
            }
            if self.server_locations[idx].hostname == target {
                return true;
            }
            idx = idx + 1;
        }
        false
    }
}

/// The little-endian bytes of a 64-bit value.
fn u64_le_bytes(x: u64) -> (r: Vec<u8>)
    ensures
        r@ =~= u64_le(x),
{
    proof {
        assert((x & 0xff) < 256 && ((x >> 8) & 0xff) < 256 && ((x >> 16) & 0xff) < 256 && ((x
            >> 24) & 0xff) < 256 && ((x >> 32) & 0xff) < 256 && ((x >> 40) & 0xff) < 256 && ((x
            >> 48) & 0xff) < 256 && ((x >> 56) & 0xff) < 256) by (bit_vector);
    }
    let mut r: Vec<u8> = Vec::new();
    r.push((x & 0xff) as u8);
    r.push(((x >> 8) & 0xff) as u8);
    r.push(((x >> 16) & 0xff) as u8);
    r.push(((x >> 24) & 0xff) as u8);
    r.push(((x >> 32) & 0xff) as u8);
    r.push(((x >> 40) & 0xff) as u8);
    r.push(((x >> 48) & 0xff) as u8);
    r.push(((x >> 56) & 0xff) as u8);
    r
}

/// Relies on rand::rngs::StdRng: seeded through SeedableRng::seed_from_u64,
/// the stream of Rng::next_u64 values is a function of the seed alone, so the
/// first `count` values are `salt_of(seed, 0)` up to `salt_of(seed, count - 1)`.
#[verifier::external_body]
fn salt_sequence(seed: u64, count: u64) -> (r: Vec<u64>)
    requires
        count <= usize::MAX as u64 / 8,
    ensures
        r@.len() == count as nat,
        forall|i: int| 0 <= i < count ==> r@[i] == salt_of(seed, i as nat),
{
    let mut rng = rand::rngs::StdRng::seed_from_u64(seed);
    let mut salts: Vec<u64> = Vec::with_capacity(count as usize);
    while (salts.len() as u64) < count {
        salts.push(rng.next_u64());
    }
    salts
}

} // verus!
