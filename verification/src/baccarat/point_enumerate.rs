//! Exact outcome weights of the next round, counted by points.
//!
//! A composition table tells which orderings of six points end how. The shoe only enters
//! through the number of cards of each point value: a multiset of points has as many
//! physical deals for each of its orderings as the product of falling factorials of those
//! numbers.

use vstd::prelude::*;

use crate::baccarat::composition;
use crate::baccarat::composition::{CompositionCoefficient, CompositionTable};
use crate::baccarat::deals;
use crate::baccarat::pairs::{pair_weights, PairWeights};
use crate::baccarat::probability::{falling_factorial, OutcomeWeights, ProbabilityError};
use crate::baccarat::round;
use crate::baccarat::round::RoundOutcome;
use crate::baccarat::side_bet::{SideBet, SideBetWeights, SideVerdict};
use crate::card::Card;
use crate::counting;
use crate::shoe;
use crate::shoe::{Shoe, ShoeView};

verus! {

/// The number of ordered deals in each result bucket.
struct PointOutcomes {
    total_cards: u16,
    weights: [u64; 27],
}

/// The number of deals of a shoe that fall into a result bucket.
spec fn bucket_deals(shoe: ShoeView, b: int) -> nat {
    counting::ways(deals::point_stock(shoe), 6, Seq::empty(), composition::bucket_event(b))
}

/// The mass of a multiset of points in a stock.
spec fn mass_of(stock: Seq<nat>) -> spec_fn(Seq<nat>) -> nat {
    |uses: Seq<nat>| counting::mass(stock, uses, 10)
}

/// Weighting the multisets of a table with their mass counts the deals in a bucket.
proof fn lemma_weighted_is_ways(entries: Seq<CompositionCoefficient>, stock: Seq<nat>, b: int)
    requires
        composition::is_composition_table(entries),
        stock.len() == 10,
        0 <= b < 27,
    ensures
        composition::weighted(entries, b, mass_of(stock)) == counting::ways(
            stock,
            6,
            Seq::empty(),
            composition::bucket_event(b),
        ),
{
    let event = composition::bucket_event(b);
    counting::lemma_ways_is_tree(stock, 6, event);
    assert(counting::mass_in(stock, event) =~= composition::leaf_value(b, mass_of(stock)));
}

proof fn lemma_six_of_416()
    ensures
        counting::power(416, 6) <= 0x00ff_ffff_ffff_ffff,
{
    reveal_with_fuel(counting::power, 7);
}

/// The deals of six cards from at most 416 fit into 64 bits, with room to spare.
pub proof fn lemma_falling_six_fits(n: nat)
    requires
        n <= 416,
    ensures
        counting::falling(n, 6) <= 0x00ff_ffff_ffff_ffff,
{
    counting::lemma_falling_at_most_power(n, 416, 6);
    lemma_six_of_416();
}

/// `(n)_0` to `(n)_6` for each point value, seven numbers to a value.
fn falling_table(point_counts: &[u16; 10]) -> (table: [u64; 70])
    requires
        forall|p: int| 0 <= p < 10 ==> #[trigger] point_counts@[p] <= 416,
    ensures
        forall|p: int, k: int|
            0 <= p < 10 && 0 <= k <= 6 ==> #[trigger] table@[7 * p + k] == counting::falling(
                point_counts@[p] as nat,
                k as nat,
            ),
{
    let mut table: [u64; 70] = [0;70];
    let mut p: usize = 0;
    while p < 10
        invariant
            p <= 10,
            forall|q: int| 0 <= q < 10 ==> #[trigger] point_counts@[q] <= 416,
            forall|q: int, k: int|
                0 <= q < p && 0 <= k <= 6 ==> #[trigger] table@[7 * q + k] == counting::falling(
                    point_counts@[q] as nat,
                    k as nat,
                ),
        decreases 10 - p,
    {
        let available: u16 = point_counts[p];
        let mut k: usize = 0;
        while k < 7
            invariant
                k <= 7,
                p < 10,
                available == point_counts@[p as int],
                available <= 416,
                forall|q: int, j: int|
                    0 <= q < p && 0 <= j <= 6 ==> #[trigger] table@[7 * q + j]
                        == counting::falling(point_counts@[q] as nat, j as nat),
                forall|j: int|
                    0 <= j < k ==> #[trigger] table@[7 * p + j] == counting::falling(
                        available as nat,
                        j as nat,
                    ),
            decreases 7 - k,
        {
            let value: u64 = if k as u16 <= available {
                proof {
                    counting::lemma_falling_at_most_power(available as nat, 416, k as nat);
                    counting::lemma_power_grows(416, k as nat, 6);
                    lemma_six_of_416();
                }
                falling_factorial(available, k as u8)
            } else {
                proof {
                    lemma_falling_beyond(available as nat, k as nat);
                }
                0
            };
            table[7 * p + k] = value;
            k += 1;
        }
        p += 1;
    }
    table
}

proof fn lemma_falling_beyond(n: nat, k: nat)
    requires
        k > n,
    ensures
        counting::falling(n, k) == 0,
    decreases k,
{
    if n > 0 {
        lemma_falling_beyond((n - 1) as nat, (k - 1) as nat);
        assert(n * 0 == 0) by (nonlinear_arith);
    } else {
        assert(0 * counting::falling(0, (k - 1) as nat) == 0) by (nonlinear_arith);
    }
}

/// The physical deals for each ordering of a multiset.
fn physical_weight(entry: &CompositionCoefficient, table: &[u64; 70], Ghost(stock): Ghost<
    Seq<nat>,
>) -> (weight: u64)
    requires
        composition::entry_wf(*entry, 1_000_000),
        stock.len() == 10,
        forall|p: int| 0 <= p < 10 ==> #[trigger] stock[p] <= 416,
        forall|p: int, k: int|
            0 <= p < 10 && 0 <= k <= 6 ==> #[trigger] table@[7 * p + k] == counting::falling(
                stock[p],
                k as nat,
            ),
    ensures
        weight == mass_of(stock)(entry.uses()),
{
    let mut weight: u64 = 1;
    let mut p: usize = 0;
    let ghost uses = entry.uses();
    while p < 10
        invariant
            p <= 10,
            uses == entry.uses(),
            composition::entry_wf(*entry, 1_000_000),
            stock.len() == 10,
            forall|q: int| 0 <= q < 10 ==> #[trigger] stock[q] <= 416,
            forall|q: int, k: int|
                0 <= q < 10 && 0 <= k <= 6 ==> #[trigger] table@[7 * q + k] == counting::falling(
                    stock[q],
                    k as nat,
                ),
            weight == counting::mass(stock, uses, p as nat),
        decreases 10 - p,
    {
        let count: u8 = entry.multiplicities[p];
        proof {
            assert(table@[7 * p as int + count as int] == counting::falling(
                stock[p as int],
                count as nat,
            ));
            counting::lemma_mass_at_most(stock, uses, (p + 1) as nat, 416);
            counting::lemma_sum_prefix((p + 1) as nat, 10, |i: int| uses[i]);
            counting::lemma_power_grows(
                416,
                counting::sum_to((p + 1) as nat, |i: int| uses[i]),
                6,
            );
            lemma_six_of_416();
        }
        if count != 0 {
            weight = weight * table[7 * p + count as usize];
        } else {
            assert(counting::mass(stock, uses, (p + 1) as nat) == counting::mass(
                stock,
                uses,
                p as nat,
            ) * 1);
        }
        p += 1;
    }
    weight
}

/// Counts the deals of a shoe in every result bucket.
fn point_outcomes(table: &CompositionTable, shoe: &Shoe) -> (result: Result<
    PointOutcomes,
    ProbabilityError,
>)
    ensures
        shoe@.wf(),
        match result {
            Ok(outcomes) => {
                &&& shoe@.total() >= 6
                &&& outcomes.total_cards == shoe@.total()
                &&& forall|b: int|
                    0 <= b < 27 ==> #[trigger] outcomes.weights@[b] == bucket_deals(shoe@, b)
            },
            Err(error) => shoe@.total() < 6 && error == (ProbabilityError::NotEnoughCards {
                remaining: shoe@.total() as u16,
            }),
        },
{
    let total_cards: u16 = shoe.total_remaining();
    if total_cards < 6 {
        return Err(ProbabilityError::NotEnoughCards { remaining: total_cards });
    }
    let point_counts: [u16; 10] = shoe.baccarat_point_counts();
    let ghost stock = deals::point_stock(shoe@);
    proof {
        shoe::lemma_total_within_decks(shoe@);
        counting::lemma_gathered_total(shoe@.counts, shoe::point_class(), 10);
        assert forall|p: int| 0 <= p < 10 implies #[trigger] point_counts@[p] <= 416
            && point_counts@[p] == stock[p] by {
            assert(point_counts@.map_values(|n: u16| n as nat)[p] == stock[p]);
            counting::lemma_count_at_most_total(stock, p);
        }
    }
    let falling: [u64; 70] = falling_table(&point_counts);
    let entries: &Vec<CompositionCoefficient> = table.entries();
    let mut weights: [u64; 27] = [0;27];
    let ghost value = mass_of(stock);
    proof {
        lemma_falling_six_fits(shoe@.total());
        assert forall|b: int| 0 <= b < 27 implies #[trigger] composition::weighted(
            entries@,
            b,
            value,
        ) == bucket_deals(shoe@, b) && bucket_deals(shoe@, b) <= 0x00ff_ffff_ffff_ffff by {
            lemma_weighted_is_ways(entries@, stock, b);
            counting::lemma_ways_at_most(
                stock,
                6,
                Seq::empty(),
                composition::bucket_event(b),
            );
        }
    }
    let mut t: usize = 0;
    while t < entries.len()
        invariant
            t <= entries@.len(),
            composition::is_composition_table(entries@),
            stock.len() == 10,
            value == mass_of(stock),
            forall|p: int| 0 <= p < 10 ==> #[trigger] stock[p] <= 416,
            forall|p: int, k: int|
                0 <= p < 10 && 0 <= k <= 6 ==> #[trigger] falling@[7 * p + k] == counting::falling(
                    stock[p],
                    k as nat,
                ),
            forall|b: int|
                0 <= b < 27 ==> #[trigger] composition::weighted(entries@, b, value)
                    <= 0x00ff_ffff_ffff_ffff,
            forall|b: int|
                0 <= b < 27 ==> #[trigger] weights@[b] == counting::sum_to(
                    t as nat,
                    |i: int| composition::weighted_term(entries@[i], b, value),
                ),
        decreases entries@.len() - t,
    {
        let entry: CompositionCoefficient = entries[t];
        assert(composition::entry_wf(entries@[t as int], 1_000_000));
        let physical: u64 = physical_weight(&entry, &falling, Ghost(stock));
        let mut b: usize = 0;
        while b < 27
            invariant
                b <= 27,
                t < entries@.len(),
                entry == entries@[t as int],
                physical == value(entry.uses()),
                forall|k: int|
                    0 <= k < 27 ==> #[trigger] composition::weighted(entries@, k, value)
                        <= 0x00ff_ffff_ffff_ffff,
                forall|k: int|
                    0 <= k < b ==> #[trigger] weights@[k] == counting::sum_to(
                        (t + 1) as nat,
                        |i: int| composition::weighted_term(entries@[i], k, value),
                    ),
                forall|k: int|
                    b <= k < 27 ==> #[trigger] weights@[k] == counting::sum_to(
                        t as nat,
                        |i: int| composition::weighted_term(entries@[i], k, value),
                    ),
            decreases 27 - b,
        {
            proof {
                let terms = |i: int| composition::weighted_term(entries@[i], b as int, value);
                counting::lemma_sum_prefix((t + 1) as nat, entries@.len(), terms);
                assert(composition::weighted(entries@, b as int, value) <= 0x00ff_ffff_ffff_ffff);
                assert(weights@[b as int] == counting::sum_to(t as nat, terms));
                let n = entry.permutations@[b as int];
                assert(terms(t as int) == n as nat * value(entry.uses()));
                assert(physical * n == n * physical) by (nonlinear_arith);
            }
            weights[b] = weights[b] + physical * entry.permutations[b] as u64;
            b += 1;
        }
        t += 1;
    }
    proof {
        assert forall|b: int| 0 <= b < 27 implies #[trigger] weights@[b] == bucket_deals(
            shoe@,
            b,
        ) by {
            assert(composition::weighted(entries@, b, value) == bucket_deals(shoe@, b));
        }
    }
    Ok(PointOutcomes { total_cards, weights })
}

/// The events of the main outcomes, by points.
proof fn lemma_main_deals(shoe: ShoeView)
    requires
        shoe.wf(),
    ensures
        deals::main_weights(shoe).player == bucket_deals(shoe, 0),
        deals::main_weights(shoe).banker == bucket_deals(shoe, 1),
        deals::main_weights(shoe).tie == bucket_deals(shoe, 2),
        deals::main_weights(shoe).banker_win_on_six == bucket_deals(shoe, 3),
        deals::main_weights(shoe).player + deals::main_weights(shoe).banker
            + deals::main_weights(shoe).tie == counting::falling(shoe.total(), 6),
        deals::main_weights(shoe).banker_win_on_six <= deals::main_weights(shoe).banker,
{
    let player = deals::outcome_event(RoundOutcome::Player);
    let banker = deals::outcome_event(RoundOutcome::Banker);
    let tie = deals::outcome_event(RoundOutcome::Tie);
    let six = deals::banker_six_event();
    assert forall|cards: Seq<Card>| cards.len() == 6 implies #[trigger] player(cards)
        == composition::bucket_event(0)(round::card_points(cards)) by {
        round::lemma_card_round_is_point_round(cards);
    }
    assert forall|cards: Seq<Card>| cards.len() == 6 implies #[trigger] banker(cards)
        == composition::bucket_event(1)(round::card_points(cards)) by {
        round::lemma_card_round_is_point_round(cards);
    }
    assert forall|cards: Seq<Card>| cards.len() == 6 implies #[trigger] tie(cards)
        == composition::bucket_event(2)(round::card_points(cards)) by {
        round::lemma_card_round_is_point_round(cards);
    }
    assert forall|cards: Seq<Card>| cards.len() == 6 implies #[trigger] six(cards)
        == composition::bucket_event(3)(round::card_points(cards)) by {
        round::lemma_card_round_is_point_round(cards);
    }
    deals::lemma_deals_by_points(shoe, player, composition::bucket_event(0));
    deals::lemma_deals_by_points(shoe, banker, composition::bucket_event(1));
    deals::lemma_deals_by_points(shoe, tie, composition::bucket_event(2));
    deals::lemma_deals_by_points(shoe, six, composition::bucket_event(3));
    let stock = deals::point_stock(shoe);
    let start = Seq::<int>::empty();
    let decided = |s: Seq<int>|
        composition::bucket_event(0)(s) || composition::bucket_event(1)(s);
    let everything = |s: Seq<int>| true;
    counting::lemma_ways_split(
        stock,
        6,
        start,
        decided,
        composition::bucket_event(0),
        composition::bucket_event(1),
    );
    counting::lemma_ways_split(
        stock,
        6,
        start,
        everything,
        decided,
        composition::bucket_event(2),
    );
    counting::lemma_ways_of_everything(stock, 6, start);
    counting::lemma_ways_subset(
        stock,
        6,
        start,
        composition::bucket_event(3),
        composition::bucket_event(1),
    );
}

/// The three outcomes make up all deals, and the banker's six-point wins are banker wins.
pub proof fn lemma_outcomes_make_up_the_deals(shoe: ShoeView)
    requires
        shoe.wf(),
    ensures
        deals::main_weights(shoe).wf(),
{
    lemma_main_deals(shoe);
    shoe::lemma_total_within_decks(shoe);
    lemma_falling_six_fits(shoe.total());
}

/// The result bucket of a side bet's tier, for the bets that look at points.
spec fn tier_bucket(bet: SideBet, tier: int) -> int {
    match bet {
        SideBet::LuckySeven => 4 + tier,
        SideBet::SuperLuckySeven => 6 + tier,
        SideBet::LuckySix => 9 + tier,
        SideBet::BankerDragonBonus => 11 + tier,
        SideBet::PlayerDragonBonus => 18 + tier,
        SideBet::Small => 25,
        _ => 26,
    }
}

spec fn looks_at_points(bet: SideBet) -> bool {
    match bet {
        SideBet::AnyPair => false,
        SideBet::BankerPair => false,
        SideBet::PlayerPair => false,
        SideBet::PerfectPair => false,
        _ => true,
    }
}

/// The events of a side bet's tier, by points.
proof fn lemma_tier_deals(shoe: ShoeView, bet: SideBet, tier: int)
    requires
        shoe.wf(),
        looks_at_points(bet),
        0 <= tier < bet.tiers(),
    ensures
        deals::deals(shoe, deals::verdict_event(bet, SideVerdict::Tier(tier as u8)))
            == bucket_deals(shoe, tier_bucket(bet, tier)),
{
    let b = tier_bucket(bet, tier);
    let event = deals::verdict_event(bet, SideVerdict::Tier(tier as u8));
    assert forall|cards: Seq<Card>| cards.len() == 6 implies #[trigger] event(cards)
        == composition::bucket_event(b)(round::card_points(cards)) by {
        round::lemma_card_round_is_point_round(cards);
    }
    deals::lemma_deals_by_points(shoe, event, composition::bucket_event(b));
}

/// The push events of a side bet, by points; only the dragon bonuses have any.
proof fn lemma_push_deals(shoe: ShoeView, bet: SideBet)
    requires
        shoe.wf(),
    ensures
        deals::deals(shoe, deals::verdict_event(bet, SideVerdict::Push)) == match bet {
            SideBet::BankerDragonBonus => bucket_deals(shoe, 17),
            SideBet::PlayerDragonBonus => bucket_deals(shoe, 24),
            _ => 0,
        },
{
    let event = deals::verdict_event(bet, SideVerdict::Push);
    if bet == SideBet::BankerDragonBonus || bet == SideBet::PlayerDragonBonus {
        let b: int = if bet == SideBet::BankerDragonBonus {
            17
        } else {
            24
        };
        assert forall|cards: Seq<Card>| cards.len() == 6 implies #[trigger] event(
            cards,
        ) == composition::bucket_event(b)(round::card_points(cards)) by {
            round::lemma_card_round_is_point_round(cards);
        }
        deals::lemma_deals_by_points(shoe, event, composition::bucket_event(b));
    } else {
        let anything = |s: Seq<int>| true;
        counting::lemma_ways_of_none(
            shoe.counts,
            6,
            Seq::empty(),
            |s: Seq<int>| event(deals::cards_at(s)),
            anything,
        );
    }
}

/// Shoes with as many cards of each point value have the same weights of the main outcomes,
/// whatever their ranks and suits.
pub proof fn lemma_points_decide_the_main_outcomes(a: ShoeView, b: ShoeView)
    requires
        a.wf(),
        b.wf(),
        deals::point_stock(a) == deals::point_stock(b),
    ensures
        a.total() == b.total(),
        deals::main_weights(a) == deals::main_weights(b),
{
    lemma_main_deals(a);
    lemma_main_deals(b);
    let event = deals::banker_six_event();
    assert forall|cards: Seq<Card>| cards.len() == 6 implies #[trigger] event(cards)
        == composition::bucket_event(3)(round::card_points(cards)) by {
        round::lemma_card_round_is_point_round(cards);
    }
    deals::lemma_deals_by_points(a, event, composition::bucket_event(3));
    deals::lemma_deals_by_points(b, event, composition::bucket_event(3));
}

impl PointOutcomes {
    spec fn count(self, shoe: ShoeView) -> bool {
        &&& shoe.wf()
        &&& shoe.total() >= 6
        &&& self.total_cards == shoe.total()
        &&& forall|b: int| 0 <= b < 27 ==> #[trigger] self.weights@[b] == bucket_deals(shoe, b)
    }

    /// The weights of the main outcomes.
    fn main_weights(&self, Ghost(shoe): Ghost<ShoeView>) -> (result: Result<
        OutcomeWeights,
        ProbabilityError,
    >)
        requires
            self.count(shoe),
        ensures
            result matches Ok(weights) && weights@ == deals::main_weights(shoe),
    {
        proof {
            lemma_main_deals(shoe);
            shoe::lemma_total_within_decks(shoe);
            lemma_falling_six_fits(shoe.total());
            assert(self.weights@[0] == bucket_deals(shoe, 0));
            assert(self.weights@[1] == bucket_deals(shoe, 1));
            assert(self.weights@[2] == bucket_deals(shoe, 2));
            assert(self.weights@[3] == bucket_deals(shoe, 3));
        }
        OutcomeWeights::from_detailed_weights(
            self.total_cards,
            self.weights[composition::PLAYER_WINS],
            self.weights[composition::BANKER_WINS],
            self.weights[composition::TIES],
            self.weights[composition::BANKER_WINS_ON_SIX],
        )
    }

    /// Six neighbouring weights.
    fn six_from(&self, from: usize) -> (tiers: [u64; 6])
        requires
            from <= 21,
        ensures
            forall|i: int| 0 <= i < 6 ==> #[trigger] tiers@[i] == self.weights@[from + i],
    {
        [
            self.weights[from],
            self.weights[from + 1],
            self.weights[from + 2],
            self.weights[from + 3],
            self.weights[from + 4],
            self.weights[from + 5],
        ]
    }

    /// The weights of the side bets, with those of the pair bets given.
    fn side_bet_weights(&self, pairs: PairWeights, Ghost(shoe): Ghost<ShoeView>) -> (weights:
        SideBetWeights)
        requires
            self.count(shoe),
            pairs.count(shoe),
        ensures
            deals::are_side_weights(weights, shoe),
    {
        proof {
            shoe::lemma_total_within_decks(shoe);
            lemma_falling_six_fits(shoe.total());
            counting::lemma_gathered_total(shoe.counts, shoe::point_class(), 10);
            assert forall|b: int| 0 <= b < 27 implies #[trigger] self.weights@[b]
                <= counting::falling(shoe.total(), 6) by {
                assert(self.weights@[b] == bucket_deals(shoe, b));
                counting::lemma_ways_at_most(
                    deals::point_stock(shoe),
                    6,
                    Seq::empty(),
                    composition::bucket_event(b),
                );
            }
            lemma_deals_at_most(
                shoe,
                deals::verdict_event(SideBet::AnyPair, SideVerdict::Tier(0)),
            );
            lemma_deals_at_most(
                shoe,
                deals::verdict_event(SideBet::BankerPair, SideVerdict::Tier(0)),
            );
            lemma_deals_at_most(
                shoe,
                deals::verdict_event(SideBet::PlayerPair, SideVerdict::Tier(0)),
            );
            lemma_deals_at_most(
                shoe,
                deals::verdict_event(SideBet::PerfectPair, SideVerdict::Tier(0)),
            );
        }
        let total: u64 = falling_factorial(self.total_cards, 6);
        let weights: SideBetWeights = SideBetWeights::new(
            total,
            pairs.any,
            pairs.banker,
            pairs.player,
            pairs.perfect,
            self.weights[composition::BIG],
            self.weights[composition::SMALL],
            self.weights[composition::LUCKY_SEVEN],
            self.weights[composition::LUCKY_SEVEN + 1],
            self.weights[composition::SUPER_LUCKY_SEVEN],
            self.weights[composition::SUPER_LUCKY_SEVEN + 1],
            self.weights[composition::SUPER_LUCKY_SEVEN + 2],
            self.weights[composition::LUCKY_SIX],
            self.weights[composition::LUCKY_SIX + 1],
            self.six_from(composition::BANKER_DRAGON),
            self.weights[composition::BANKER_DRAGON_PUSH],
            self.six_from(composition::PLAYER_DRAGON),
            self.weights[composition::PLAYER_DRAGON_PUSH],
        );
        proof {
            assert forall|bet: SideBet, tier: int|
                0 <= tier < bet.tiers() implies #[trigger] weights.tier(bet, tier)
                == deals::deals(
                shoe,
                deals::verdict_event(bet, SideVerdict::Tier(tier as u8)),
            ) by {
                if looks_at_points(bet) {
                    lemma_tier_deals(shoe, bet, tier);
                    assert(self.weights@[tier_bucket(bet, tier)] == bucket_deals(
                        shoe,
                        tier_bucket(bet, tier),
                    ));
                }
            }
            assert forall|bet: SideBet| #[trigger] weights.push(bet) == deals::deals(
                shoe,
                deals::verdict_event(bet, SideVerdict::Push),
            ) by {
                lemma_push_deals(shoe, bet);
                assert(self.weights@[17] == bucket_deals(shoe, 17));
                assert(self.weights@[24] == bucket_deals(shoe, 24));
            }
        }
        weights
    }
}

/// No event has more deals than there are.
pub proof fn lemma_deals_at_most(shoe: ShoeView, event: spec_fn(Seq<Card>) -> bool)
    ensures
        deals::deals(shoe, event) <= counting::falling(shoe.total(), 6),
{
    counting::lemma_ways_at_most(
        shoe.counts,
        6,
        Seq::empty(),
        |s: Seq<int>| event(deals::cards_at(s)),
    );
}

impl CompositionTable {
    /// The weights of the main outcomes of the next round.
    pub fn main_outcomes(&self, shoe: &Shoe) -> (result: Result<OutcomeWeights, ProbabilityError>)
        ensures
            shoe@.wf(),
            match result {
                Ok(weights) => shoe@.total() >= 6 && weights@ == deals::main_weights(shoe@),
                Err(error) => shoe@.total() < 6 && error == (ProbabilityError::NotEnoughCards {
                    remaining: shoe@.total() as u16,
                }),
            },
    {
        match point_outcomes(self, shoe) {
            Ok(outcomes) => outcomes.main_weights(Ghost(shoe@)),
            Err(error) => Err(error),
        }
    }

    /// The weights of the side bets on the next round.
    pub fn side_bet_outcomes(&self, shoe: &Shoe) -> (result: Result<
        SideBetWeights,
        ProbabilityError,
    >)
        ensures
            shoe@.wf(),
            match result {
                Ok(weights) => shoe@.total() >= 6 && deals::are_side_weights(weights, shoe@),
                Err(error) => shoe@.total() < 6 && error == (ProbabilityError::NotEnoughCards {
                    remaining: shoe@.total() as u16,
                }),
            },
    {
        let outcomes: PointOutcomes = match point_outcomes(self, shoe) {
            Ok(outcomes) => outcomes,
            Err(error) => {
                return Err(error);
            },
        };
        match pair_weights(shoe) {
            Ok(pairs) => Ok(outcomes.side_bet_weights(pairs, Ghost(shoe@))),
            Err(error) => Err(error),
        }
    }

    /// The weights of the main outcomes and of the side bets, from one pass over the table.
    pub fn main_and_side_outcomes(&self, shoe: &Shoe) -> (result: Result<
        (OutcomeWeights, SideBetWeights),
        ProbabilityError,
    >)
        ensures
            shoe@.wf(),
            match result {
                Ok((main, side)) => {
                    &&& shoe@.total() >= 6
                    &&& main@ == deals::main_weights(shoe@)
                    &&& deals::are_side_weights(side, shoe@)
                },
                Err(error) => shoe@.total() < 6 && error == (ProbabilityError::NotEnoughCards {
                    remaining: shoe@.total() as u16,
                }),
            },
    {
        let outcomes: PointOutcomes = match point_outcomes(self, shoe) {
            Ok(outcomes) => outcomes,
            Err(error) => {
                return Err(error);
            },
        };
        let main: OutcomeWeights = match outcomes.main_weights(Ghost(shoe@)) {
            Ok(main) => main,
            Err(error) => {
                return Err(error);
            },
        };
        match pair_weights(shoe) {
            Ok(pairs) => Ok((main, outcomes.side_bet_weights(pairs, Ghost(shoe@)))),
            Err(error) => Err(error),
        }
    }
}

/// The weights of the main outcomes of the next round of a shoe.
pub fn calculate_main_outcomes(shoe: &Shoe) -> (result: Result<OutcomeWeights, ProbabilityError>)
    ensures
        shoe@.wf(),
        match result {
            Ok(weights) => shoe@.total() >= 6 && weights@ == deals::main_weights(shoe@),
            Err(error) => shoe@.total() < 6 && error == (ProbabilityError::NotEnoughCards {
                remaining: shoe@.total() as u16,
            }),
        },
{
    CompositionTable::new().main_outcomes(shoe)
}

/// The weights of the side bets on the next round of a shoe.
pub fn calculate_side_bet_outcomes(shoe: &Shoe) -> (result: Result<
    SideBetWeights,
    ProbabilityError,
>)
    ensures
        shoe@.wf(),
        match result {
            Ok(weights) => shoe@.total() >= 6 && deals::are_side_weights(weights, shoe@),
            Err(error) => shoe@.total() < 6 && error == (ProbabilityError::NotEnoughCards {
                remaining: shoe@.total() as u16,
            }),
        },
{
    CompositionTable::new().side_bet_outcomes(shoe)
}

/// The weights of the main outcomes and of the side bets of a shoe.
pub fn calculate_main_and_side_outcomes(shoe: &Shoe) -> (result: Result<
    (OutcomeWeights, SideBetWeights),
    ProbabilityError,
>)
    ensures
        shoe@.wf(),
        match result {
            Ok((main, side)) => {
                &&& shoe@.total() >= 6
                &&& main@ == deals::main_weights(shoe@)
                &&& deals::are_side_weights(side, shoe@)
            },
            Err(error) => shoe@.total() < 6 && error == (ProbabilityError::NotEnoughCards {
                remaining: shoe@.total() as u16,
            }),
        },
{
    CompositionTable::new().main_and_side_outcomes(shoe)
}

} // verus!
