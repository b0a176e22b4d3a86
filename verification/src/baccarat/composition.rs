//! The composition table: for every multiset of six point values, how many of its orderings
//! end in each result.
//!
//! The table does not depend on a shoe. A shoe enters only through its point counts, so one
//! table serves any number of shoes.

use std::collections::HashMap;

use vstd::prelude::*;

use crate::baccarat::round;
use crate::baccarat::round::{PointRoundResult, RoundOutcome};
use crate::baccarat::side_bet;
use crate::baccarat::side_bet::SideBet;
use crate::baccarat::side_bet::SideVerdict;
use crate::counting;

verus! {

broadcast use vstd::std_specs::hash::group_hash_axioms;

/// The number of multisets of six point values.
pub const COMPOSITION_COUNT: usize = 5005;

/// The number of results that are told apart.
pub const BUCKETS: usize = 27;

pub const PLAYER_WINS: usize = 0;

pub const BANKER_WINS: usize = 1;

pub const TIES: usize = 2;

pub const BANKER_WINS_ON_SIX: usize = 3;

pub const LUCKY_SEVEN: usize = 4;

pub const SUPER_LUCKY_SEVEN: usize = 6;

pub const LUCKY_SIX: usize = 9;

pub const BANKER_DRAGON: usize = 11;

pub const BANKER_DRAGON_PUSH: usize = 17;

pub const PLAYER_DRAGON: usize = 18;

pub const PLAYER_DRAGON_PUSH: usize = 24;

pub const SMALL: usize = 25;

pub const BIG: usize = 26;

/// Whether a result bucket holds a round with the given final points and card numbers.
pub open spec fn totals_in_bucket(
    b: int,
    player: int,
    banker: int,
    player_cards: int,
    banker_cards: int,
) -> bool {
    let ends = |bet: SideBet, verdict: SideVerdict|
        side_bet::points_verdict(bet, player, banker, player_cards, banker_cards) == verdict;
    if b == 0 {
        player > banker
    } else if b == 1 {
        banker > player
    } else if b == 2 {
        player == banker
    } else if b == 3 {
        banker == 6 && banker > player
    } else if b < 6 {
        ends(SideBet::LuckySeven, SideVerdict::Tier((b - 4) as u8))
    } else if b < 9 {
        ends(SideBet::SuperLuckySeven, SideVerdict::Tier((b - 6) as u8))
    } else if b < 11 {
        ends(SideBet::LuckySix, SideVerdict::Tier((b - 9) as u8))
    } else if b < 17 {
        ends(SideBet::BankerDragonBonus, SideVerdict::Tier((b - 11) as u8))
    } else if b == 17 {
        ends(SideBet::BankerDragonBonus, SideVerdict::Push)
    } else if b < 24 {
        ends(SideBet::PlayerDragonBonus, SideVerdict::Tier((b - 18) as u8))
    } else if b == 24 {
        ends(SideBet::PlayerDragonBonus, SideVerdict::Push)
    } else if b == 25 {
        ends(SideBet::Small, SideVerdict::Tier(0))
    } else {
        ends(SideBet::Big, SideVerdict::Tier(0))
    }
}

/// The number of cards of a side that took a third card or not.
pub open spec fn hand_size(takes: bool) -> int {
    if takes {
        3
    } else {
        2
    }
}

/// Whether a result bucket holds the round that a point sequence plays.
pub open spec fn in_bucket(b: int, points: Seq<int>) -> bool {
    totals_in_bucket(
        b,
        round::player_final(points),
        round::banker_final(points),
        hand_size(round::player_takes(points)),
        hand_size(round::banker_takes(points)),
    )
}

/// The event that a point sequence falls into a result bucket.
pub open spec fn bucket_event(b: int) -> spec_fn(Seq<int>) -> bool {
    |points: Seq<int>| in_bucket(b, points)
}

/// One multiset of six point values and its orderings by result.
#[derive(Debug, Clone, Copy, PartialEq, Eq)]
pub struct CompositionCoefficient {
    pub multiplicities: [u8; 10],
    pub permutations: [u32; 27],
}

impl CompositionCoefficient {
    /// How often each point value is used.
    pub open spec fn uses(self) -> Seq<nat> {
        self.multiplicities@.map_values(|n: u8| n as nat)
    }
}

/// The sum of `value` of each multiset, weighted with its orderings in bucket `b`.
pub open spec fn weighted(
    entries: Seq<CompositionCoefficient>,
    b: int,
    value: spec_fn(Seq<nat>) -> nat,
) -> nat {
    counting::sum_to(entries.len(), |t: int| weighted_term(entries[t], b, value))
}

/// The part of one multiset in `weighted`.
pub open spec fn weighted_term(
    entry: CompositionCoefficient,
    b: int,
    value: spec_fn(Seq<nat>) -> nat,
) -> nat {
    entry.permutations@[b] as nat * value(entry.uses())
}

/// The value of a point sequence: that of its multiset if it is in bucket `b`.
pub open spec fn leaf_value(b: int, value: spec_fn(Seq<nat>) -> nat) -> spec_fn(Seq<int>) -> nat {
    |points: Seq<int>|
        if in_bucket(b, points) {
            value(counting::composition(10, points))
        } else {
            0
        }
}

/// `10` to the power of `k`.
pub open spec fn tens(k: nat) -> nat
    decreases k,
{
    if k == 0 {
        1
    } else {
        10 * tens((k - 1) as nat)
    }
}

/// A number for a multiset: its multiplicities as digits.
spec fn code(uses: Seq<u8>, n: nat) -> nat
    decreases n,
{
    if n == 0 {
        0
    } else {
        code(uses, (n - 1) as nat) * 8 + uses[n - 1] as nat
    }
}

proof fn lemma_code_injective(a: Seq<u8>, b: Seq<u8>, n: nat)
    requires
        n <= a.len(),
        n <= b.len(),
        forall|i: int| 0 <= i < n ==> #[trigger] a[i] < 8,
        forall|i: int| 0 <= i < n ==> #[trigger] b[i] < 8,
        code(a, n) == code(b, n),
    ensures
        forall|i: int| 0 <= i < n ==> #[trigger] a[i] == b[i],
    decreases n,
{
    if n > 0 {
        assert(a[n - 1] < 8 && b[n - 1] < 8);
        lemma_code_injective(a, b, (n - 1) as nat);
    }
}

fn code_of(uses: &[u8; 10]) -> (result: u64)
    requires
        forall|i: int| 0 <= i < 10 ==> #[trigger] uses@[i] < 8,
    ensures
        result == code(uses@, 10),
{
    let mut result: u64 = 0;
    let mut i: usize = 0;
    let mut bound: u64 = 1;
    while i < 10
        invariant
            i <= 10,
            forall|k: int| 0 <= k < 10 ==> #[trigger] uses@[k] < 8,
            result == code(uses@, i as nat),
            result < bound,
            i == 0 ==> bound == 1,
            i == 1 ==> bound == 8,
            i == 2 ==> bound == 64,
            i == 3 ==> bound == 512,
            i == 4 ==> bound == 4096,
            i == 5 ==> bound == 32768,
            i == 6 ==> bound == 262144,
            i == 7 ==> bound == 2097152,
            i == 8 ==> bound == 16777216,
            i == 9 ==> bound == 134217728,
            i == 10 ==> bound == 1073741824,
        decreases 10 - i,
    {
        result = result * 8 + uses[i] as u64;
        bound = bound * 8;
        i += 1;
    }
    result
}

/// The buckets of a finished round.
fn buckets_of(result: PointRoundResult) -> (flags: [bool; 27])
    requires
        result.player_total < 10,
        result.banker_total < 10,
        2 <= result.player_card_count <= 3,
        2 <= result.banker_card_count <= 3,
    ensures
        forall|b: int|
            0 <= b < 27 ==> #[trigger] flags@[b] == totals_in_bucket(
                b,
                result.player_total as int,
                result.banker_total as int,
                result.player_card_count as int,
                result.banker_card_count as int,
            ),
{
    let mut flags: [bool; 27] = [false;27];
    let player: u8 = result.player_total();
    let banker: u8 = result.banker_total();
    let player_cards: u8 = result.player_card_count();
    let banker_cards: u8 = result.banker_card_count();
    let cards: u8 = result.card_count();
    let outcome: RoundOutcome = result.outcome();
    match outcome {
        RoundOutcome::Player => {
            flags[PLAYER_WINS] = true;
        },
        RoundOutcome::Banker => {
            flags[BANKER_WINS] = true;
        },
        RoundOutcome::Tie => {
            flags[TIES] = true;
        },
    }
    if outcome == RoundOutcome::Banker && banker == 6 {
        flags[BANKER_WINS_ON_SIX] = true;
        if banker_cards == 2 {
            flags[LUCKY_SIX] = true;
        } else {
            flags[LUCKY_SIX + 1] = true;
        }
    }
    if cards == 4 {
        flags[SMALL] = true;
    } else {
        flags[BIG] = true;
    }
    if outcome == RoundOutcome::Player && player == 7 {
        if player_cards == 2 {
            flags[LUCKY_SEVEN] = true;
        } else {
            flags[LUCKY_SEVEN + 1] = true;
        }
        if banker == 6 {
            flags[SUPER_LUCKY_SEVEN + (cards - 4) as usize] = true;
        }
    }
    let player_natural: bool = player_cards == 2 && player >= 8;
    let banker_natural: bool = banker_cards == 2 && banker >= 8;
    match outcome {
        RoundOutcome::Player => {
            if player_natural {
                flags[PLAYER_DRAGON_PUSH] = true;
            } else if player - banker >= 4 {
                flags[PLAYER_DRAGON + (player - banker - 4) as usize] = true;
            }
        },
        RoundOutcome::Banker => {
            if banker_natural {
                flags[BANKER_DRAGON_PUSH] = true;
            } else if banker - player >= 4 {
                flags[BANKER_DRAGON + (banker - player - 4) as usize] = true;
            }
        },
        RoundOutcome::Tie => {
            if player_natural && banker_natural {
                flags[PLAYER_DRAGON_PUSH] = true;
                flags[BANKER_DRAGON_PUSH] = true;
            }
        },
    }
    flags
}

/// Plays the round at the front of six point values; the points that it does not use change
/// nothing.
pub fn resolve_six_position_sequence(points: &[u8; 6]) -> (result: PointRoundResult)
    requires
        forall|i: int| 0 <= i < 6 ==> #[trigger] points@[i] < 10,
    ensures
        result.tells(round::as_points(points@)),
        result.player_total < 10,
        result.banker_total < 10,
        2 <= result.player_card_count <= 3,
        2 <= result.banker_card_count <= 3,
{
    let ghost all = round::as_points(points@);
    let mut used: usize = 4;
    while used < 6
        invariant
            4 <= used <= 6,
            all == round::as_points(points@),
            forall|i: int| 0 <= i < 6 ==> #[trigger] points@[i] < 10,
            used <= round::cards_used(all),
        decreases 6 - used,
    {
        let prefix: &[u8] = vstd::slice::slice_subrange(points.as_slice(), 0, used);
        proof {
            lemma_prefix_round(all, used as int);
            assert(round::as_points(prefix@) =~= all.take(used as int));
        }
        match round::resolve_point_round(prefix) {
            Ok(result) => {
                return result;
            },
            Err(_) => {},
        }
        used += 1;
    }
    proof {
        lemma_prefix_round(all, 6);
        assert(all.take(6) =~= all);
    }
    match round::resolve_point_round(points.as_slice()) {
        Ok(result) => result,
        Err(_) => {
            assert(false);
            PointRoundResult {
                player_total: 0,
                banker_total: 0,
                player_card_count: 2,
                banker_card_count: 2,
            }
        },
    }
}

/// A prefix of six points is a complete round exactly when it is as long as the round that
/// they play, and then it plays that round.
proof fn lemma_prefix_round(all: Seq<int>, used: int)
    requires
        all.len() == 6,
        4 <= used <= 6,
        used <= round::cards_used(all),
        forall|i: int| 0 <= i < 6 ==> 0 <= #[trigger] all[i] < 10,
    ensures
        round::dealing_error(all.take(used)) is None <==> used == round::cards_used(all),
        used == round::cards_used(all) ==> {
            &&& round::player_final(all.take(used)) == round::player_final(all)
            &&& round::banker_final(all.take(used)) == round::banker_final(all)
            &&& round::player_takes(all.take(used)) == round::player_takes(all)
            &&& round::banker_takes(all.take(used)) == round::banker_takes(all)
        },
        0 <= round::player_final(all) < 10,
        0 <= round::banker_final(all) < 10,
{
    let part = all.take(used);
    assert(part[0] == all[0] && part[1] == all[1] && part[2] == all[2] && part[3] == all[3]);
    if used >= 5 {
        assert(part[4] == all[4]);
    }
    if used == 6 {
        assert(part[5] == all[5]);
    }
}

/// Whether a table lists the multiset of a point sequence.
pub open spec fn covers(entries: Seq<CompositionCoefficient>, points: Seq<int>) -> bool {
    exists|t: int|
        0 <= t < entries.len() && (#[trigger] entries[t]).uses() == counting::composition(
            10,
            points,
        )
}

/// Whether `s` is a sequence of six points that starts with `prefix`.
pub open spec fn extends(s: Seq<int>, prefix: Seq<int>) -> bool {
    &&& s.len() == 6
    &&& prefix.len() <= 6
    &&& forall|i: int| 0 <= i < 6 ==> 0 <= #[trigger] s[i] < 10
    &&& forall|i: int| 0 <= i < prefix.len() ==> #[trigger] s[i] == prefix[i]
}

/// Whether `after` lists at least the multisets of `before`, each where it stood.
pub open spec fn grown(
    before: Seq<CompositionCoefficient>,
    after: Seq<CompositionCoefficient>,
) -> bool {
    &&& before.len() <= after.len()
    &&& forall|t: int|
        0 <= t < before.len() ==> (#[trigger] after[t]).multiplicities == before[t].multiplicities
}

/// A complete composition table: every multiset of six points once, with as many orderings
/// in each bucket as there are point sequences of that multiset in it. The last part is
/// stated through sums: weighting the multisets with their orderings is summing over all
/// point sequences in the bucket.
pub open spec fn is_composition_table(entries: Seq<CompositionCoefficient>) -> bool {
    &&& forall|t: int| 0 <= t < entries.len() ==> entry_wf(#[trigger] entries[t], 1_000_000)
    &&& forall|s: int, t: int|
        0 <= s < t < entries.len() ==> (#[trigger] entries[s]).multiplicities@ != (
        #[trigger] entries[t]).multiplicities@
    &&& forall|s: Seq<int>| extends(s, Seq::empty()) ==> #[trigger] covers(entries, s)
    &&& forall|b: int, value: spec_fn(Seq<nat>) -> nat|
        0 <= b < 27 ==> #[trigger] weighted(entries, b, value) == counting::tree(
            10,
            6,
            Seq::empty(),
            leaf_value(b, value),
        )
}

/// The table under construction: its multisets so far, and where each stands.
struct TableBuilder {
    entries: Vec<CompositionCoefficient>,
    index: HashMap<u64, usize>,
}

/// Whether an entry uses six points, and has at most `most` orderings in any bucket.
pub open spec fn entry_wf(entry: CompositionCoefficient, most: nat) -> bool {
    &&& forall|i: int| 0 <= i < 10 ==> #[trigger] entry.multiplicities@[i] <= 6
    &&& counting::total(entry.uses()) == 6
    &&& forall|b: int| 0 <= b < 27 ==> #[trigger] entry.permutations@[b] <= most
}

impl TableBuilder {
    spec fn wf(self, most: nat) -> bool {
        &&& forall|t: int| 0 <= t < self.entries@.len() ==> entry_wf(#[trigger] self.entries@[t], most)
        &&& forall|k: u64| #[trigger]
            self.index@.contains_key(k) ==> {
                &&& self.index@[k] < self.entries@.len()
                &&& code(self.entries@[self.index@[k] as int].multiplicities@, 10) == k
            }
        &&& forall|t: int|
            0 <= t < self.entries@.len() ==> {
                let key = code(#[trigger] self.entries@[t].multiplicities@, 10) as u64;
                self.index@.contains_key(key) && self.index@[key] == t
            }
    }

    /// Finds the entry of a multiset, making an empty one where there is none yet.
    fn slot(&mut self, multiplicities: &[u8; 10], Ghost(most): Ghost<nat>) -> (slot: usize)
        requires
            old(self).wf(most),
            forall|i: int| 0 <= i < 10 ==> #[trigger] multiplicities@[i] <= 6,
            counting::total(multiplicities@.map_values(|n: u8| n as nat)) == 6,
        ensures
            final(self).wf(most),
            slot < final(self).entries@.len(),
            final(self).entries@[slot as int].multiplicities@ == multiplicities@,
            grown(old(self).entries@, final(self).entries@),
            forall|b: int, value: spec_fn(Seq<nat>) -> nat|
                0 <= b < 27 ==> #[trigger] weighted(final(self).entries@, b, value) == weighted(
                    old(self).entries@,
                    b,
                    value,
                ),
    {
        let key: u64 = code_of(multiplicities);
        if let Some(found) = self.index.get(&key) {
            let slot: usize = *found;
            proof {
                let other = self.entries@[slot as int].multiplicities@;
                assert(entry_wf(self.entries@[slot as int], most));
                assert forall|i: int| 0 <= i < 10 implies #[trigger] other[i] < 8 by {
                    assert(self.entries@[slot as int].multiplicities@[i] <= 6);
                }
                lemma_code_injective(other, multiplicities@, 10);
                assert(other =~= multiplicities@);
            }
            return slot;
        }
        let slot: usize = self.entries.len();
        let entry: CompositionCoefficient = CompositionCoefficient {
            multiplicities: *multiplicities,
            permutations: [0;27],
        };
        let ghost before = self.entries@;
        self.entries.push(entry);
        self.index.insert(key, slot);
        proof {
            assert(entry_wf(entry, most));
            assert forall|b: int, value: spec_fn(Seq<nat>) -> nat| 0 <= b < 27 implies #[trigger] weighted(
                self.entries@,
                b,
                value,
            ) == weighted(before, b, value) by {
                let f = |t: int| weighted_term(before[t], b, value);
                let g = |t: int| weighted_term(self.entries@[t], b, value);
                counting::lemma_sum_equal(before.len(), f, g);
                assert(g(before.len() as int) == 0) by {
                    assert(0 * value(entry.uses()) == 0) by (nonlinear_arith);
                }
            }
        }
        slot
    }

    /// Counts one ordering of a multiset in the buckets of its result.
    fn count(
        &mut self,
        multiplicities: &[u8; 10],
        flags: &[bool; 27],
        Ghost(most): Ghost<nat>,
        Ghost(points): Ghost<Seq<int>>,
    )
        requires
            old(self).wf(most),
            most < 1_000_000,
            forall|i: int| 0 <= i < 10 ==> #[trigger] multiplicities@[i] <= 6,
            counting::total(multiplicities@.map_values(|n: u8| n as nat)) == 6,
            multiplicities@.map_values(|n: u8| n as nat) == counting::composition(10, points),
            forall|b: int| 0 <= b < 27 ==> #[trigger] flags@[b] == in_bucket(b, points),
        ensures
            final(self).wf(most + 1),
            grown(old(self).entries@, final(self).entries@),
            covers(final(self).entries@, points),
            forall|b: int, value: spec_fn(Seq<nat>) -> nat|
                0 <= b < 27 ==> #[trigger] weighted(final(self).entries@, b, value) == weighted(
                    old(self).entries@,
                    b,
                    value,
                ) + leaf_value(b, value)(points),
    {
        let slot: usize = self.slot(multiplicities, Ghost(most));
        let ghost before = self.entries@;
        let ghost old_entry = before[slot as int];
        assert(entry_wf(old_entry, most));
        let mut entry: CompositionCoefficient = self.entries[slot];
        let mut b: usize = 0;
        while b < 27
            invariant
                b <= 27,
                most < 1_000_000,
                entry_wf(old_entry, most),
                entry.multiplicities == old_entry.multiplicities,
                forall|k: int|
                    b <= k < 27 ==> #[trigger] entry.permutations@[k] == old_entry.permutations@[k],
                forall|k: int|
                    0 <= k < b ==> #[trigger] entry.permutations@[k] == old_entry.permutations@[k]
                        + if flags@[k] {
                        1int
                    } else {
                        0int
                    },
            decreases 27 - b,
        {
            if flags[b] {
                assert(old_entry.permutations@[b as int] <= most);
                entry.permutations[b] = entry.permutations[b] + 1;
            }
            b += 1;
        }
        self.entries[slot] = entry;
        proof {
            let after = self.entries@;
            assert(after =~= before.update(slot as int, entry));
            assert forall|t: int| 0 <= t < after.len() implies entry_wf(
                #[trigger] after[t],
                most + 1,
            ) by {
                if t == slot {
                    assert(entry.uses() =~= old_entry.uses());
                    assert forall|k: int| 0 <= k < 27 implies #[trigger] entry.permutations@[k]
                        <= most + 1 by {
                        assert(old_entry.permutations@[k] <= most);
                    }
                } else {
                    assert(entry_wf(before[t], most));
                    assert forall|k: int| 0 <= k < 27 implies #[trigger] after[t].permutations@[k]
                        <= most + 1 by {
                        assert(before[t].permutations@[k] <= most);
                    }
                }
            }
            assert forall|k: int, value: spec_fn(Seq<nat>) -> nat| 0 <= k < 27 implies #[trigger] weighted(
                after,
                k,
                value,
            ) == weighted(before, k, value) + leaf_value(k, value)(points) by {
                let f = |t: int| weighted_term(before[t], k, value);
                let g = |t: int| weighted_term(after[t], k, value);
                counting::lemma_sum_replaces(before.len(), slot as int, f, g);
                assert(entry.uses() =~= counting::composition(10, points));
                assert(old_entry.uses() =~= counting::composition(10, points));
                let v = value(counting::composition(10, points));
                let n = old_entry.permutations@[k] as nat;
                assert((n + 1) * v == n * v + v) by (nonlinear_arith);
                assert(flags@[k] == in_bucket(k, points));
            }
        }
    }
}

/// Plays every completion of the first `position` points and counts it under its multiset.
fn enumerate_abstract_sequences(
    position: usize,
    points: &mut [u8; 6],
    multiplicities: &mut [u8; 10],
    builder: &mut TableBuilder,
    Ghost(most): Ghost<nat>,
)
    requires
        position <= 6,
        forall|i: int| 0 <= i < 6 ==> #[trigger] old(points)@[i] < 10,
        old(multiplicities)@.map_values(|n: u8| n as nat) == counting::composition(
            10,
            round::as_points(old(points)@).take(position as int),
        ),
        old(builder).wf(most),
        most + tens((6 - position) as nat) <= 1_000_000,
    ensures
        forall|i: int| 0 <= i < position ==> #[trigger] final(points)@[i] == old(points)@[i],
        forall|i: int| 0 <= i < 6 ==> #[trigger] final(points)@[i] < 10,
        final(multiplicities)@ == old(multiplicities)@,
        final(builder).wf(most + tens((6 - position) as nat)),
        grown(old(builder).entries@, final(builder).entries@),
        forall|s: Seq<int>|
            extends(s, round::as_points(old(points)@).take(position as int)) ==> #[trigger] covers(
                final(builder).entries@,
                s,
            ),
        forall|b: int, value: spec_fn(Seq<nat>) -> nat|
            0 <= b < 27 ==> #[trigger] weighted(final(builder).entries@, b, value) == weighted(
                old(builder).entries@,
                b,
                value,
            ) + counting::tree(
                10,
                (6 - position) as nat,
                round::as_points(old(points)@).take(position as int),
                leaf_value(b, value),
            ),
    decreases 6 - position,
{
    let ghost prefix = round::as_points(points@).take(position as int);
    let ghost start = builder.entries@;
    if position == 6 {
        let result: PointRoundResult = resolve_six_position_sequence(points);
        let flags: [bool; 27] = buckets_of(result);
        proof {
            assert(prefix =~= round::as_points(points@));
            lemma_composition_of_six(prefix);
            assert forall|i: int| 0 <= i < 10 implies #[trigger] multiplicities@[i] <= 6 by {
                assert(multiplicities@.map_values(|n: u8| n as nat)[i] == counting::composition(
                    10,
                    prefix,
                )[i]);
            }
        }
        builder.count(multiplicities, &flags, Ghost(most), Ghost(prefix));
        proof {
            assert forall|s: Seq<int>| extends(s, prefix) implies #[trigger] covers(
                builder.entries@,
                s,
            ) by {
                assert(s =~= prefix);
            }
        }
        return;
    }
    let ghost rest = (5 - position) as nat;
    let ghost uses = multiplicities@;
    let mut point: u8 = 0;
    while point < 10
        invariant
            point <= 10,
            position < 6,
            rest == 5 - position,
            prefix == round::as_points(old(points)@).take(position as int),
            forall|i: int| 0 <= i < position ==> #[trigger] points@[i] == old(points)@[i],
            forall|i: int| 0 <= i < 6 ==> #[trigger] points@[i] < 10,
            multiplicities@ == uses,
            uses.map_values(|n: u8| n as nat) == counting::composition(10, prefix),
            most + tens((6 - position) as nat) <= 1_000_000,
            builder.wf(most + point as nat * tens(rest)),
            grown(start, builder.entries@),
            forall|s: Seq<int>|
                extends(s, prefix) && s[position as int] < point ==> #[trigger] covers(
                    builder.entries@,
                    s,
                ),
            forall|b: int, value: spec_fn(Seq<nat>) -> nat|
                0 <= b < 27 ==> #[trigger] weighted(builder.entries@, b, value) == weighted(
                    start,
                    b,
                    value,
                ) + counting::tree_below(10, point as nat, rest, prefix, leaf_value(b, value)),
        decreases 10 - point,
    {
        points[position] = point;
        let ghost longer = prefix.push(point as int);
        proof {
            assert(round::as_points(points@).take(position + 1) =~= longer);
            lemma_composition_push(prefix, point as int);
            lemma_occurrences_at_most(prefix, point as int);
            assert(multiplicities@.map_values(|n: u8| n as nat)[point as int]
                == counting::composition(10, prefix)[point as int]);
        }
        multiplicities[point as usize] = multiplicities[point as usize] + 1;
        proof {
            assert(multiplicities@.map_values(|n: u8| n as nat) =~= counting::composition(
                10,
                longer,
            ));
            assert(tens((6 - position) as nat) == 10 * tens(rest));
            assert(point * tens(rest) + tens(rest) == (point + 1) * tens(rest)) by (nonlinear_arith);
            assert((point + 1) * tens(rest) <= 10 * tens(rest)) by (nonlinear_arith)
                requires
                    point < 10,
            ;
        }
        let ghost before = builder.entries@;
        enumerate_abstract_sequences(
            position + 1,
            points,
            multiplicities,
            builder,
            Ghost(most + point as nat * tens(rest)),
        );
        multiplicities[point as usize] = multiplicities[point as usize] - 1;
        proof {
            assert(multiplicities@ =~= uses);
            assert forall|s: Seq<int>|
                extends(s, prefix) && s[position as int] < point + 1 implies #[trigger] covers(
                builder.entries@,
                s,
            ) by {
                if s[position as int] == point {
                    assert(extends(s, longer));
                } else {
                    assert(covers(before, s));
                    let t = choose|t: int|
                        0 <= t < before.len() && (#[trigger] before[t]).uses()
                            == counting::composition(10, s);
                    assert(builder.entries@[t].uses() =~= before[t].uses());
                }
            }
            assert forall|b: int, value: spec_fn(Seq<nat>) -> nat| 0 <= b < 27 implies #[trigger] weighted(
                builder.entries@,
                b,
                value,
            ) == weighted(start, b, value) + counting::tree_below(
                10,
                (point + 1) as nat,
                rest,
                prefix,
                leaf_value(b, value),
            ) by {
                assert(weighted(before, b, value) == weighted(start, b, value)
                    + counting::tree_below(10, point as nat, rest, prefix, leaf_value(b, value)));
            }
        }
        point += 1;
    }
    assert(tens((6 - position) as nat) == 10 * tens(rest));
}

proof fn lemma_composition_push(prefix: Seq<int>, point: int)
    requires
        0 <= point < 10,
    ensures
        counting::composition(10, prefix.push(point)) == counting::composition(10, prefix).update(
            point,
            counting::composition(10, prefix)[point] + 1,
        ),
{
    assert(prefix.push(point).drop_last() =~= prefix);
    assert(counting::composition(10, prefix.push(point)) =~= counting::composition(
        10,
        prefix,
    ).update(point, counting::composition(10, prefix)[point] + 1));
}

proof fn lemma_occurrences_at_most(s: Seq<int>, i: int)
    ensures
        counting::occurrences(s, i) <= s.len(),
    decreases s.len(),
{
    if s.len() > 0 {
        lemma_occurrences_at_most(s.drop_last(), i);
    }
}

/// The multiplicities of a sequence of points add up to its length.
proof fn lemma_composition_total(s: Seq<int>)
    requires
        forall|i: int| 0 <= i < s.len() ==> 0 <= #[trigger] s[i] < 10,
    ensures
        counting::total(counting::composition(10, s)) == s.len(),
    decreases s.len(),
{
    let uses = counting::composition(10, s);
    if s.len() == 0 {
        counting::lemma_sum_zero(10, |i: int| uses[i]);
    } else {
        let shorter = s.drop_last();
        lemma_composition_total(shorter);
        assert(s =~= shorter.push(s.last()));
        lemma_composition_push(shorter, s.last());
        let before = counting::composition(10, shorter);
        assert(counting::drawn(uses, s.last()) =~= before);
        counting::lemma_total_after_draw(uses, s.last());
    }
}

proof fn lemma_composition_of_six(s: Seq<int>)
    requires
        s.len() == 6,
        forall|i: int| 0 <= i < s.len() ==> 0 <= #[trigger] s[i] < 10,
    ensures
        counting::total(counting::composition(10, s)) == 6,
        forall|i: int| 0 <= i < 10 ==> #[trigger] counting::composition(10, s)[i] <= 6,
{
    lemma_composition_total(s);
    assert forall|i: int| 0 <= i < 10 implies #[trigger] counting::composition(10, s)[i] <= 6 by {
        lemma_occurrences_at_most(s, i);
    }
}

/// For every multiset of six point values, its orderings by result.
pub struct CompositionTable {
    entries: Vec<CompositionCoefficient>,
}

impl View for CompositionTable {
    type V = Seq<CompositionCoefficient>;

    closed spec fn view(&self) -> Seq<CompositionCoefficient> {
        self.entries@
    }
}

impl CompositionTable {
    #[verifier::type_invariant]
    spec fn inv(self) -> bool {
        is_composition_table(self.entries@)
    }

    /// Plays all million point sequences and gathers them by multiset.
    pub fn new() -> (table: CompositionTable)
        ensures
            is_composition_table(table@),
    {
        let mut builder: TableBuilder = TableBuilder {
            entries: Vec::with_capacity(COMPOSITION_COUNT),
            index: HashMap::new(),
        };
        let mut points: [u8; 6] = [0;6];
        let mut multiplicities: [u8; 10] = [0;10];
        proof {
            assert(round::as_points(points@).take(0) =~= Seq::<int>::empty());
            assert(multiplicities@.map_values(|n: u8| n as nat) =~= counting::composition(
                10,
                Seq::empty(),
            ));
            reveal_with_fuel(tens, 7);
            assert(tens(6) == 1_000_000);
            assert forall|b: int, value: spec_fn(Seq<nat>) -> nat| 0 <= b < 27 implies #[trigger] weighted(
                builder.entries@,
                b,
                value,
            ) == 0 by {}
        }
        enumerate_abstract_sequences(0, &mut points, &mut multiplicities, &mut builder, Ghost(0));
        CompositionTable { entries: builder.entries }
    }

    /// The multisets with their orderings.
    pub fn entries(&self) -> (entries: &Vec<CompositionCoefficient>)
        ensures
            entries@ == self@,
            is_composition_table(self@),
    {
        proof {
            use_type_invariant(self);
        }
        &self.entries
    }
}

} // verus!
