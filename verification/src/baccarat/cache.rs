//! Weights of shoes that have been met before.
//!
//! A perfect pair tells suits apart, so two shoes share their weights only if they hold the same
//! number of each of the 52 cards.

use std::collections::HashMap;
use vstd::prelude::*;

use crate::baccarat::composition::CompositionTable;
use crate::baccarat::deals;
use crate::baccarat::probability::{OutcomeWeights, ProbabilityError};
use crate::baccarat::side_bet::SideBetWeights;
use crate::shoe::{Shoe, ShoeView};

verus! {

broadcast use vstd::std_specs::hash::group_hash_axioms;

const FINGERPRINT_FACTOR: u64 = 0x0000_0100_0000_01b3;

/// A number that equal counts share.
spec fn fingerprint_of(counts: Seq<u8>, n: int) -> u64
    decreases n,
{
    if n <= 0 {
        0
    } else {
        (fingerprint_of(counts, n - 1) ^ (counts[n - 1] as u64)).wrapping_mul(FINGERPRINT_FACTOR)
    }
}

fn fingerprint(counts: &[u8; 52]) -> (value: u64)
    ensures
        value == fingerprint_of(counts@, 52),
{
    let mut value: u64 = 0;
    let mut i: usize = 0;
    while i < 52
        invariant
            i <= 52,
            value == fingerprint_of(counts@, i as int),
        decreases 52 - i,
    {
        value = (value ^ (counts[i] as u64)).wrapping_mul(FINGERPRINT_FACTOR);
        i = i + 1;
    }
    value
}

fn same_counts(a: &[u8; 52], b: &[u8; 52]) -> (same: bool)
    ensures
        same == (a@ == b@),
{
    let mut i: usize = 0;
    while i < 52
        invariant
            i <= 52,
            forall|j: int| 0 <= j < i ==> #[trigger] a@[j] == b@[j],
        decreases 52 - i,
    {
        if a[i] != b[i] {
            assert(a@[i as int] != b@[i as int]);
            return false;
        }
        i = i + 1;
    }
    assert(a@ =~= b@);
    true
}

/// The weights of one shoe.
struct CacheEntry {
    counts: [u8; 52],
    weights: OutcomeWeights,
    side_weights: SideBetWeights,
}

/// Counts as numbers.
spec fn plain(counts: Seq<u8>) -> Seq<nat> {
    counts.map_values(|n: u8| n as nat)
}

impl CacheEntry {
    /// The weights are those of any shoe with these counts.
    spec fn right(self) -> bool {
        forall|shoe: ShoeView| shoe.counts == plain(self.counts@) ==> {
            &&& self.weights@ == #[trigger] deals::main_weights(shoe)
            &&& deals::are_side_weights(self.side_weights, shoe)
            &&& shoe.total() >= 6
        }
    }
}

/// Weights by the cards of the shoe, and how often they were found and computed.
pub struct ProbabilityCache {
    table: CompositionTable,
    buckets: HashMap<u64, Vec<usize>>,
    entries: Vec<CacheEntry>,
    hits: u64,
    misses: u64,
}

impl ProbabilityCache {
    /// Every entry holds the weights of its shoe and is found under its fingerprint.
    pub closed spec fn wf(self) -> bool {
        &&& forall|e: int| 0 <= e < self.entries.len() ==> (#[trigger] self.entries@[e]).right()
        &&& forall|e: int|
            0 <= e < self.entries.len() ==> {
                let key = fingerprint_of((#[trigger] self.entries@[e]).counts@, 52);
                &&& self.buckets@.contains_key(key)
                &&& self.buckets@[key]@.contains(e as usize)
            }
        &&& forall|key: u64, k: int|
            #![trigger self.buckets@[key]@[k]]
            self.buckets@.contains_key(key) && 0 <= k < self.buckets@[key].len()
                ==> self.buckets@[key]@[k] < self.entries.len()
        &&& self.entries.len() == self.misses
    }

    /// Whether the weights of a shoe have been computed.
    pub closed spec fn knows(self, counts: Seq<nat>) -> bool {
        exists|e: int| 0 <= e < self.entries.len() && plain((#[trigger] self.entries@[e]).counts@)
            == counts
    }

    /// How often weights were found.
    pub closed spec fn found(self) -> nat {
        self.hits as nat
    }

    /// How often weights were computed.
    pub closed spec fn computed(self) -> nat {
        self.misses as nat
    }

    /// An empty cache.
    pub fn new() -> (cache: ProbabilityCache)
        ensures
            cache.wf(),
            cache.found() == 0,
            cache.computed() == 0,
            forall|counts: Seq<nat>| !#[trigger] cache.knows(counts),
    {
        ProbabilityCache {
            table: CompositionTable::new(),
            buckets: HashMap::new(),
            entries: Vec::new(),
            hits: 0,
            misses: 0,
        }
    }

    /// How often weights were found.
    pub fn hits(&self) -> (hits: u64)
        ensures
            hits == self.found(),
    {
        self.hits
    }

    /// How often weights were computed.
    pub fn misses(&self) -> (misses: u64)
        ensures
            misses == self.computed(),
    {
        self.misses
    }

    fn find(&self, counts: &[u8; 52]) -> (entry: Option<usize>)
        requires
            self.wf(),
        ensures
            match entry {
                Some(e) => e < self.entries.len() && self.entries@[e as int].counts@ == counts@,
                None => forall|e: int|
                    0 <= e < self.entries.len() ==> (#[trigger] self.entries@[e]).counts@
                        != counts@,
            },
    {
        let key: u64 = fingerprint(counts);
        match self.buckets.get(&key) {
            Some(bucket) => {
                let mut k: usize = 0;
                while k < bucket.len()
                    invariant
                        k <= bucket.len(),
                        self.wf(),
                        self.buckets@.contains_key(key),
                        *bucket == self.buckets@[key],
                        key == fingerprint_of(counts@, 52),
                        forall|j: int|
                            0 <= j < k ==> self.entries@[(#[trigger] bucket@[j]) as int].counts@
                                != counts@,
                    decreases bucket.len() - k,
                {
                    let e: usize = bucket[k];
                    assert(self.buckets@[key]@[k as int] < self.entries.len());
                    if same_counts(&self.entries[e].counts, counts) {
                        return Some(e);
                    }
                    k = k + 1;
                }
                proof {
                    assert forall|e: int| 0 <= e < self.entries.len() implies (
                    #[trigger] self.entries@[e]).counts@ != counts@ by {
                        if self.entries@[e].counts@ == counts@ {
                            assert(bucket@.contains(e as usize));
                            let j = choose|j: int| 0 <= j < bucket.len() && bucket@[j] == e as usize;
                            assert(self.entries@[bucket@[j] as int].counts@ != counts@);
                        }
                    }
                }
                None
            },
            None => None,
        }
    }

    /// The weights of the next round of a shoe, computed only where they are not known.
    pub fn weights(&mut self, shoe: &Shoe) -> (result: Result<
        (OutcomeWeights, SideBetWeights),
        ProbabilityError,
    >)
        requires
            old(self).wf(),
            old(self).found() < u64::MAX,
            old(self).computed() < u64::MAX,
            old(self).computed() < usize::MAX,
        ensures
            final(self).wf(),
            shoe@.wf(),
            match result {
                Ok((main, side)) => {
                    &&& shoe@.total() >= 6
                    &&& main@ == deals::main_weights(shoe@)
                    &&& deals::are_side_weights(side, shoe@)
                    &&& final(self).found() == old(self).found() + if old(self).knows(
                        shoe@.counts,
                    ) {
                        1int
                    } else {
                        0int
                    }
                    &&& final(self).computed() == old(self).computed() + if old(self).knows(
                        shoe@.counts,
                    ) {
                        0int
                    } else {
                        1int
                    }
                    &&& forall|counts: Seq<nat>| #[trigger]
                        final(self).knows(counts) <==> old(self).knows(counts) || counts
                            == shoe@.counts
                },
                Err(error) => {
                    &&& shoe@.total() < 6
                    &&& error == (ProbabilityError::NotEnoughCards {
                        remaining: shoe@.total() as u16,
                    })
                    &&& *final(self) == *old(self)
                },
            },
    {
        let counts: [u8; 52] = shoe.card_counts();
        assert(plain(counts@) == shoe@.counts);
        match self.find(&counts) {
            Some(e) => {
                proof {
                    assert(self.entries@[e as int].right());
                    assert(self.entries@[e as int].counts@ == counts@);
                    let m = deals::main_weights(shoe@);
                    assert(old(self).knows(shoe@.counts));
                }
                self.hits = self.hits + 1;
                let weights: OutcomeWeights = self.entries[e].weights;
                let side_weights: SideBetWeights = self.entries[e].side_weights;
                proof {
                    assert forall|known: Seq<nat>| #[trigger]
                        self.knows(known) == old(self).knows(known) by {
                        assert(self.entries == old(self).entries);
                    }
                }
                Ok((weights, side_weights))
            },
            None => {
                proof {
                    assert(!old(self).knows(shoe@.counts)) by {
                        if old(self).knows(shoe@.counts) {
                            let e = choose|e: int|
                                0 <= e < self.entries.len() && plain(
                                    (#[trigger] self.entries@[e]).counts@,
                                ) == shoe@.counts;
                            assert(self.entries@[e].counts@ =~= counts@) by {
                                assert forall|i: int| 0 <= i < 52 implies #[trigger]
                                    self.entries@[e].counts@[i] == counts@[i] by {
                                    assert(plain(self.entries@[e].counts@)[i]
                                        == plain(counts@)[i]);
                                }
                            }
                        }
                    }
                }
                match self.table.main_and_side_outcomes(shoe) {
                    Ok((weights, side_weights)) => {
                        self.remember(CacheEntry { counts, weights, side_weights }, Ghost(shoe@));
                        Ok((weights, side_weights))
                    },
                    Err(error) => Err(error),
                }
            },
        }
    }

    fn remember(&mut self, entry: CacheEntry, Ghost(shoe): Ghost<ShoeView>)
        requires
            old(self).wf(),
            old(self).computed() < u64::MAX,
            old(self).computed() < usize::MAX,
            shoe.counts == plain(entry.counts@),
            shoe.total() >= 6,
            entry.weights@ == deals::main_weights(shoe),
            deals::are_side_weights(entry.side_weights, shoe),
        ensures
            final(self).wf(),
            final(self).found() == old(self).found(),
            final(self).computed() == old(self).computed() + 1,
            forall|counts: Seq<nat>| #[trigger]
                final(self).knows(counts) <==> old(self).knows(counts) || counts == shoe.counts,
    {
        proof {
            assert forall|other: ShoeView| other.counts == plain(entry.counts@) implies {
                &&& entry.weights@ == #[trigger] deals::main_weights(other)
                &&& deals::are_side_weights(entry.side_weights, other)
                &&& other.total() >= 6
            } by {
            }
            assert(entry.right());
        }
        let key: u64 = fingerprint(&entry.counts);
        let ghost counts = entry.counts@;
        let at: usize = self.entries.len();
        let mut bucket: Vec<usize> = match self.buckets.remove(&key) {
            Some(bucket) => bucket,
            None => Vec::new(),
        };
        let ghost before = bucket@;
        bucket.push(at);
        let ghost grown = bucket@;
        self.buckets.insert(key, bucket);
        self.entries.push(entry);
        self.misses = self.misses + 1;
        proof {
            let was = *old(self);
            assert(grown[before.len() as int] == at);
            assert forall|e: int| 0 <= e < self.entries.len() implies {
                let own = fingerprint_of((#[trigger] self.entries@[e]).counts@, 52);
                &&& self.buckets@.contains_key(own)
                &&& self.buckets@[own]@.contains(e as usize)
            } by {
                let own = fingerprint_of(self.entries@[e].counts@, 52);
                if e < at {
                    assert(self.entries@[e] == was.entries@[e]);
                    assert(was.buckets@[own]@.contains(e as usize));
                    if own == key {
                        let k = choose|k: int| 0 <= k < before.len() && before[k] == e as usize;
                        assert(grown[k] == e as usize);
                    }
                }
            }
            assert forall|other: u64, k: int|
                #![trigger self.buckets@[other]@[k]]
                self.buckets@.contains_key(other) && 0 <= k
                    < self.buckets@[other].len() implies self.buckets@[other]@[k]
                < self.entries.len() by {
                if other == key {
                    if k < before.len() {
                        assert(grown[k] == before[k]);
                        assert(was.buckets@[key]@[k] < was.entries.len());
                    }
                } else {
                    assert(was.buckets@[other]@[k] < was.entries.len());
                }
            }
            assert forall|e: int| 0 <= e < self.entries.len() implies (
            #[trigger] self.entries@[e]).right() by {
                if e < at {
                    assert(self.entries@[e] == was.entries@[e]);
                }
            }
            assert forall|known: Seq<nat>| #[trigger]
                self.knows(known) <==> was.knows(known) || known == shoe.counts by {
                if self.knows(known) {
                    let e = choose|e: int|
                        0 <= e < self.entries.len() && plain((#[trigger] self.entries@[e]).counts@)
                            == known;
                    if e < at {
                        assert(self.entries@[e] == was.entries@[e]);
                        assert(plain(was.entries@[e].counts@) == known);
                    }
                }
                if was.knows(known) {
                    let e = choose|e: int|
                        0 <= e < was.entries.len() && plain((#[trigger] was.entries@[e]).counts@)
                            == known;
                    assert(self.entries@[e] == was.entries@[e]);
                    assert(plain(self.entries@[e].counts@) == known);
                }
                if known == shoe.counts {
                    assert(plain(self.entries@[at as int].counts@) == known);
                }
            }
        }
    }
}

} // verus!
