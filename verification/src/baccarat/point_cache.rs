//! Weights of the main outcomes of shoes that have been met before.
//!
//! The main outcomes depend on points alone, so two shoes share their weights where they hold as
//! many cards of each point value.

use std::collections::HashMap;
use vstd::prelude::*;

use crate::baccarat::composition::CompositionTable;
use crate::baccarat::deals;
use crate::baccarat::point_enumerate;
use crate::baccarat::probability::{OutcomeWeights, ProbabilityError};
use crate::counting;
use crate::shoe;
use crate::shoe::{Shoe, ShoeView};

verus! {

broadcast use vstd::std_specs::hash::group_hash_axioms;

/// A number for the counts of the first point values: the counts as digits.
spec fn key_of(stock: Seq<nat>, n: int) -> nat
    decreases n,
{
    if n <= 0 {
        0
    } else {
        key_of(stock, n - 1) * 512 + stock[n - 1]
    }
}

/// Counts of the ten point values that are small enough to be digits.
pub open spec fn small_counts(stock: Seq<nat>) -> bool {
    stock.len() == 10 && forall|i: int| 0 <= i < 10 ==> #[trigger] stock[i] < 512
}

proof fn lemma_keys_tell_counts_apart(a: Seq<nat>, b: Seq<nat>, n: int)
    requires
        small_counts(a),
        small_counts(b),
        0 <= n <= 10,
        key_of(a, n) == key_of(b, n),
    ensures
        forall|i: int| 0 <= i < n ==> #[trigger] a[i] == b[i],
    decreases n,
{
    if n > 0 {
        assert(a[n - 1] < 512 && b[n - 1] < 512);
        lemma_keys_tell_counts_apart(a, b, n - 1);
    }
}

/// A shoe holds few cards of each point value.
pub proof fn lemma_shoes_have_small_counts(shoe: ShoeView)
    requires
        shoe.wf(),
    ensures
        small_counts(deals::point_stock(shoe)),
{
    let stock = deals::point_stock(shoe);
    counting::lemma_gathered_total(shoe.counts, shoe::point_class(), 10);
    shoe::lemma_total_within_decks(shoe);
    assert forall|i: int| 0 <= i < 10 implies #[trigger] stock[i] < 512 by {
        counting::lemma_count_at_most_total(stock, i);
    }
}

fn point_key(counts: &[u16; 10]) -> (key: u128)
    requires
        forall|i: int| 0 <= i < 10 ==> #[trigger] counts@[i] < 512,
    ensures
        key == key_of(counts@.map_values(|n: u16| n as nat), 10),
{
    let ghost stock = counts@.map_values(|n: u16| n as nat);
    let mut key: u128 = 0;
    let mut bound: u128 = 1;
    let mut i: usize = 0;
    while i < 10
        invariant
            i <= 10,
            stock == counts@.map_values(|n: u16| n as nat),
            forall|k: int| 0 <= k < 10 ==> #[trigger] counts@[k] < 512,
            key == key_of(stock, i as int),
            key < bound,
            i == 0 ==> bound == 1,
            i == 1 ==> bound == 0x200,
            i == 2 ==> bound == 0x4_0000,
            i == 3 ==> bound == 0x800_0000,
            i == 4 ==> bound == 0x10_0000_0000,
            i == 5 ==> bound == 0x2000_0000_0000,
            i == 6 ==> bound == 0x40_0000_0000_0000,
            i == 7 ==> bound == 0x8000_0000_0000_0000,
            i == 8 ==> bound == 0x100_0000_0000_0000_0000,
            i == 9 ==> bound == 0x2_0000_0000_0000_0000_0000,
            i == 10 ==> bound == 0x400_0000_0000_0000_0000_0000,
        decreases 10 - i,
    {
        assert(stock[i as int] == counts@[i as int]);
        key = key * 512 + counts[i] as u128;
        bound = bound * 512;
        i = i + 1;
    }
    key
}

/// Weights of the main outcomes by the point values of the shoe, and how often they were found
/// and computed.
pub struct PointCache {
    table: CompositionTable,
    entries: HashMap<u128, OutcomeWeights>,
    hits: u64,
    misses: u64,
}

impl PointCache {
    /// Every entry holds the weights of the shoes with its key.
    pub closed spec fn wf(self) -> bool {
        forall|shoe: ShoeView| #[trigger]
            self.knows(deals::point_stock(shoe)) && shoe.wf() ==> {
                &&& shoe.total() >= 6
                &&& self.entries@[key_of(deals::point_stock(shoe), 10) as u128]@
                    == deals::main_weights(shoe)
            }
    }

    /// Whether the weights of a shoe with these counts of point values have been computed.
    pub closed spec fn knows(self, stock: Seq<nat>) -> bool {
        self.entries@.contains_key(key_of(stock, 10) as u128)
    }

    /// How often weights were found.
    pub closed spec fn found(self) -> nat {
        self.hits as nat
    }

    /// How often weights were computed.
    pub closed spec fn computed(self) -> nat {
        self.misses as nat
    }

    /// An empty cache.
    pub fn new() -> (cache: PointCache)
        ensures
            cache.wf(),
            cache.found() == 0,
            cache.computed() == 0,
            forall|stock: Seq<nat>| !#[trigger] cache.knows(stock),
    {
        PointCache { table: CompositionTable::new(), entries: HashMap::new(), hits: 0, misses: 0 }
    }

    /// How often weights were found.
    pub fn hits(&self) -> (hits: u64)
        ensures
            hits == self.found(),
    {
        self.hits
    }

    /// How often weights were computed.
    pub fn misses(&self) -> (misses: u64)
        ensures
            misses == self.computed(),
    {
        self.misses
    }

    /// The weights of the next round of a shoe, computed only where they are not known.
    pub fn weights(&mut self, shoe: &Shoe) -> (result: Result<OutcomeWeights, ProbabilityError>)
        requires
            old(self).wf(),
            old(self).found() < u64::MAX,
            old(self).computed() < u64::MAX,
        ensures
            final(self).wf(),
            shoe@.wf(),
            match result {
                Ok(weights) => {
                    let known = old(self).knows(deals::point_stock(shoe@));
                    &&& shoe@.total() >= 6
                    &&& weights@ == deals::main_weights(shoe@)
                    &&& final(self).found() == old(self).found() + if known {
                        1int
                    } else {
                        0int
                    }
                    &&& final(self).computed() == old(self).computed() + if known {
                        0int
                    } else {
                        1int
                    }
                    &&& forall|stock: Seq<nat>|
                        small_counts(stock) ==> (#[trigger] final(self).knows(stock) <==> old(
                            self,
                        ).knows(stock) || stock == deals::point_stock(shoe@))
                },
                Err(error) => {
                    &&& shoe@.total() < 6
                    &&& error == (ProbabilityError::NotEnoughCards {
                        remaining: shoe@.total() as u16,
                    })
                    &&& *final(self) == *old(self)
                },
            },
    {
        let counts: [u16; 10] = shoe.baccarat_point_counts();
        let ghost stock = deals::point_stock(shoe@);
        proof {
            lemma_shoes_have_small_counts(shoe@);
            assert(counts@.map_values(|n: u16| n as nat) == stock);
            assert forall|i: int| 0 <= i < 10 implies #[trigger] counts@[i] < 512 by {
                assert(counts@.map_values(|n: u16| n as nat)[i] == stock[i]);
            }
        }
        let key: u128 = point_key(&counts);
        let known: Option<OutcomeWeights> = match self.entries.get(&key) {
            Some(weights) => Some(*weights),
            None => None,
        };
        match known {
            Some(weights) => {
                assert(self.knows(stock));
                self.hits = self.hits + 1;
                proof {
                    assert forall|other: ShoeView| #[trigger]
                        self.knows(deals::point_stock(other)) && other.wf() implies {
                        &&& other.total() >= 6
                        &&& self.entries@[key_of(deals::point_stock(other), 10) as u128]@
                            == deals::main_weights(other)
                    } by {
                        assert(old(self).knows(deals::point_stock(other)));
                    }
                    assert forall|one: Seq<nat>| small_counts(one) implies (
                    #[trigger] self.knows(one) <==> old(self).knows(one) || one == stock) by {
                    }
                }
                Ok(weights)
            },
            None => {
                assert(!self.knows(stock));
                match self.table.main_outcomes(shoe) {
                    Ok(weights) => {
                        self.entries.insert(key, weights);
                        self.misses = self.misses + 1;
                        proof {
                            assert forall|other: ShoeView| #[trigger]
                                self.knows(deals::point_stock(other)) && other.wf() implies {
                                &&& other.total() >= 6
                                &&& self.entries@[key_of(deals::point_stock(other), 10) as u128]@
                                    == deals::main_weights(other)
                            } by {
                                let one = deals::point_stock(other);
                                lemma_shoes_have_small_counts(other);
                                lemma_key_fits(one);
                                if key_of(one, 10) as u128 == key {
                                    lemma_keys_tell_counts_apart(one, stock, 10);
                                    assert(one =~= stock);
                                    point_enumerate::lemma_points_decide_the_main_outcomes(
                                        other,
                                        shoe@,
                                    );
                                } else {
                                    assert(old(self).knows(one));
                                }
                            }
                            assert forall|one: Seq<nat>| small_counts(one) implies (
                            #[trigger] self.knows(one) <==> old(self).knows(one) || one
                                == stock) by {
                                lemma_key_fits(one);
                                if key_of(one, 10) as u128 == key {
                                    lemma_keys_tell_counts_apart(one, stock, 10);
                                    assert(one =~= stock);
                                }
                            }
                        }
                        Ok(weights)
                    },
                    Err(error) => Err(error),
                }
            },
        }
    }
}

proof fn lemma_key_fits(stock: Seq<nat>)
    requires
        small_counts(stock),
    ensures
        key_of(stock, 10) <= u128::MAX,
{
    reveal_with_fuel(key_of, 11);
    assert(stock[0] < 512 && stock[1] < 512 && stock[2] < 512 && stock[3] < 512);
    assert(stock[4] < 512 && stock[5] < 512 && stock[6] < 512 && stock[7] < 512);
    assert(stock[8] < 512 && stock[9] < 512);
}

} // verus!
