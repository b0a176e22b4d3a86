//! Replaying recorded rounds.
//!
//! A round is begun with the weights of its shoe, which still holds the cards of the round. The
//! bets are chosen by these weights alone. Then they are settled, and only then are the cards
//! taken out of the shoe.

use vstd::prelude::*;

use crate::baccarat::bet::MainBetRules;
use crate::baccarat::cache::ProbabilityCache;
use crate::baccarat::deals;
use crate::baccarat::load;
use crate::baccarat::load::LoadedRounds;
use crate::baccarat::probability::{OutcomeWeights, ProbabilityError};
use crate::baccarat::rebate::RebateRule;
use crate::baccarat::records;
use crate::baccarat::records::{CsvQualityReport, CsvReplayError, LoadedRound};
use crate::baccarat::round;
use crate::baccarat::round::RoundResult;
use crate::baccarat::schedule;
use crate::baccarat::schedule::Schedule;
use crate::baccarat::side_bet;
use crate::baccarat::side_bet::{Settlement, SideBetRules, SideBetWeights};
use crate::baccarat::strategy::BetTarget;
use crate::card::Card;
use crate::shoe;
use crate::shoe::{Shoe, ShoeError, ShoeView, MAX_DECKS, MIN_DECKS};

verus! {

/// The cards of a row.
pub open spec fn cards_of(round: LoadedRound) -> Seq<Card> {
    match round.cards {
        Some(cards) => cards@,
        None => Seq::empty(),
    }
}

/// The cards that the first `n` rounds of a replay take out of a shoe.
pub open spec fn consumed(
    rounds: Seq<LoadedRound>,
    order: Seq<usize>,
    slots: Seq<usize>,
    n: int,
    slot: int,
) -> Seq<Card>
    decreases n,
{
    if n <= 0 {
        Seq::empty()
    } else {
        let before = consumed(rounds, order, slots, n - 1, slot);
        if slots[n - 1] == slot {
            before + cards_of(rounds[order[n - 1] as int])
        } else {
            before
        }
    }
}

/// A shoe of a replay before its round number `n`: a full shoe without the cards of the
/// earlier rounds of this shoe.
pub open spec fn shoe_before(
    decks: nat,
    rounds: Seq<LoadedRound>,
    order: Seq<usize>,
    slots: Seq<usize>,
    n: int,
    slot: int,
) -> ShoeView {
    shoe::full_shoe(decks).without_all(consumed(rounds, order, slots, n, slot))
}

/// Whether round number `k` takes the same cards out of the same shoe in two replays.
pub open spec fn plays_alike(
    rounds: Seq<LoadedRound>,
    order: Seq<usize>,
    slots: Seq<usize>,
    other_rounds: Seq<LoadedRound>,
    other_order: Seq<usize>,
    other_slots: Seq<usize>,
    k: int,
) -> bool {
    slots[k] == other_slots[k] && cards_of(rounds[order[k] as int]) == cards_of(
        other_rounds[other_order[k] as int],
    )
}

/// A shoe before a round depends only on the rounds before it: two replays that agree on these
/// have the same shoe, whatever cards follow.
pub proof fn lemma_no_later_card_matters(
    decks: nat,
    rounds: Seq<LoadedRound>,
    order: Seq<usize>,
    slots: Seq<usize>,
    other_rounds: Seq<LoadedRound>,
    other_order: Seq<usize>,
    other_slots: Seq<usize>,
    n: int,
    slot: int,
)
    requires
        forall|k: int|
            0 <= k < n ==> #[trigger] plays_alike(
                rounds,
                order,
                slots,
                other_rounds,
                other_order,
                other_slots,
                k,
            ),
    ensures
        shoe_before(decks, rounds, order, slots, n, slot) == shoe_before(
            decks,
            other_rounds,
            other_order,
            other_slots,
            n,
            slot,
        ),
{
    lemma_consumed_agrees(rounds, order, slots, other_rounds, other_order, other_slots, n, slot);
}

proof fn lemma_consumed_agrees(
    rounds: Seq<LoadedRound>,
    order: Seq<usize>,
    slots: Seq<usize>,
    other_rounds: Seq<LoadedRound>,
    other_order: Seq<usize>,
    other_slots: Seq<usize>,
    n: int,
    slot: int,
)
    requires
        forall|k: int|
            0 <= k < n ==> #[trigger] plays_alike(
                rounds,
                order,
                slots,
                other_rounds,
                other_order,
                other_slots,
                k,
            ),
    ensures
        consumed(rounds, order, slots, n, slot) == consumed(
            other_rounds,
            other_order,
            other_slots,
            n,
            slot,
        ),
    decreases n,
{
    if n > 0 {
        lemma_consumed_agrees(
            rounds,
            order,
            slots,
            other_rounds,
            other_order,
            other_slots,
            n - 1,
            slot,
        );
        assert(plays_alike(
            rounds,
            order,
            slots,
            other_rounds,
            other_order,
            other_slots,
            n - 1,
        ));
    }
}

/// The weights of a round that is about to be played, and its row.
#[derive(Debug, Clone, Copy)]
pub struct PreparedRound {
    /// The position of the row.
    pub row: usize,
    pub weights: OutcomeWeights,
    pub side_weights: SideBetWeights,
}

/// A replay between two steps.
pub struct ReplayMachine {
    loaded: LoadedRounds,
    schedule: Schedule,
    decks: u8,
    shoes: Vec<Shoe>,
    cache: ProbabilityCache,
    next: usize,
    begun: bool,
}

impl ReplayMachine {
    /// The judged rows.
    pub closed spec fn rounds(self) -> Seq<LoadedRound> {
        self.loaded.list()
    }

    /// The rows that are replayed, in order.
    pub closed spec fn order(self) -> Seq<usize> {
        self.schedule.order@
    }

    /// The shoes of these rows.
    pub closed spec fn slots(self) -> Seq<usize> {
        self.schedule.slots@
    }

    /// How rows and shoes were judged.
    pub closed spec fn judgement(self) -> CsvQualityReport {
        self.schedule.quality
    }

    /// The number of shoes that are replayed.
    pub closed spec fn shoe_count(self) -> nat {
        self.schedule.session_count as nat
    }

    /// The number of decks of a shoe.
    pub closed spec fn deck_count(self) -> nat {
        self.decks as nat
    }

    /// The number of rounds that have been played.
    pub closed spec fn played(self) -> nat {
        self.next as nat
    }

    /// Whether a round has been begun and not finished.
    pub closed spec fn in_round(self) -> bool {
        self.begun
    }

    /// How often the weights of a round were found, and how often they were computed.
    pub closed spec fn lookups(self) -> (nat, nat) {
        (self.cache.found(), self.cache.computed())
    }

    /// Whether the weights of a shoe with these cards have been computed.
    pub closed spec fn knows(self, counts: Seq<nat>) -> bool {
        self.cache.knows(counts)
    }

    /// The shoe of the next round before it.
    pub open spec fn next_shoe(self) -> ShoeView {
        shoe_before(
            self.deck_count(),
            self.rounds(),
            self.order(),
            self.slots(),
            self.played() as int,
            self.slots()[self.played() as int] as int,
        )
    }

    /// The row of the next round.
    pub open spec fn next_row(self) -> LoadedRound {
        self.rounds()[self.order()[self.played() as int] as int]
    }

    /// What does not change during a replay.
    pub open spec fn same_replay(self, other: ReplayMachine) -> bool {
        &&& self.rounds() == other.rounds()
        &&& self.order() == other.order()
        &&& self.slots() == other.slots()
        &&& self.judgement() == other.judgement()
        &&& self.shoe_count() == other.shoe_count()
        &&& self.deck_count() == other.deck_count()
    }

    /// Every shoe is a full one without the cards of the rounds that have been played from it.
    pub closed spec fn wf(self) -> bool {
        &&& load::well_formed(self.loaded.list())
        &&& self.schedule.fits(self.loaded.list())
        &&& MIN_DECKS <= self.decks <= MAX_DECKS
        &&& self.cache.wf()
        &&& self.next <= self.schedule.order.len()
        &&& self.begun ==> self.next < self.schedule.order.len()
        &&& self.cache.found() + self.cache.computed() == self.next + if self.begun {
            1int
        } else {
            0int
        }
        &&& self.shoes.len() == self.schedule.session_count
        &&& forall|slot: int|
            0 <= slot < self.shoes.len() ==> (#[trigger] self.shoes@[slot])@ == shoe_before(
                self.decks as nat,
                self.loaded.list(),
                self.schedule.order@,
                self.schedule.slots@,
                self.next as int,
                slot,
            )
        &&& forall|slot: int|
            0 <= slot < self.shoes.len() ==> shoe::full_shoe(self.decks as nat).holds(
                #[trigger] consumed(
                    self.loaded.list(),
                    self.schedule.order@,
                    self.schedule.slots@,
                    self.next as int,
                    slot,
                ),
            )
    }

    /// Starts a replay of the rows whose shoes are known, with full shoes.
    pub fn new(loaded: LoadedRounds, decks: u8) -> (result: Result<ReplayMachine, ShoeError>)
        ensures
            match result {
                Ok(machine) => {
                    &&& MIN_DECKS <= decks <= MAX_DECKS
                    &&& machine.wf()
                    &&& machine.rounds() == loaded.list()
                    &&& machine.deck_count() == decks
                    &&& machine.played() == 0
                    &&& !machine.in_round()
                    &&& machine.lookups() == (0nat, 0nat)
                    &&& forall|counts: Seq<nat>| !#[trigger] machine.knows(counts)
                    &&& exists|plan: Schedule|
                        {
                            &&& #[trigger] plan.fits(loaded.list())
                            &&& machine.order() == plan.order@
                            &&& machine.slots() == plan.slots@
                            &&& machine.shoe_count() == plan.session_count
                        }
                    &&& machine.shoe_count() == schedule::sessions(loaded.list()).filter(
                        |s: (u64, u64)| schedule::observable(loaded.list(), s),
                    ).len()
                    &&& schedule::counts_sessions(machine.judgement(), loaded.list())
                    &&& machine.judgement().valid_card_rows == loaded.judgement().valid_card_rows
                    &&& machine.judgement().empty_card_rows == loaded.judgement().empty_card_rows
                    &&& machine.judgement().invalid_card_rows
                        == loaded.judgement().invalid_card_rows
                    &&& machine.judgement().outcome_mismatch_rows
                        == loaded.judgement().outcome_mismatch_rows
                },
                Err(error) => !(MIN_DECKS <= decks <= MAX_DECKS) && error
                    == ShoeError::InvalidDeckCount { decks },
            },
    {
        let plan: Schedule = schedule::schedule(loaded.rounds(), loaded.quality());
        let mut shoes: Vec<Shoe> = Vec::new();
        match Shoe::new(decks) {
            Ok(_) => {},
            Err(error) => {
                return Err(error);
            },
        }
        let mut slot: usize = 0;
        while slot < plan.session_count
            invariant
                slot <= plan.session_count,
                MIN_DECKS <= decks <= MAX_DECKS,
                shoes.len() == slot,
                forall|k: int| 0 <= k < slot ==> (#[trigger] shoes@[k])@ == shoe::full_shoe(
                    decks as nat,
                ),
            decreases plan.session_count - slot,
        {
            match Shoe::new(decks) {
                Ok(shoe) => {
                    shoes.push(shoe);
                },
                Err(error) => {
                    return Err(error);
                },
            }
            slot = slot + 1;
        }
        proof {
            let full = shoe::full_shoe(decks as nat);
            shoe::lemma_remove_many_is_repeated_remove(full, Seq::empty(), crate::card::card_at(0));
            assert(plan.fits(loaded.list()));
        }
        Ok(
            ReplayMachine {
                loaded,
                schedule: plan,
                decks,
                shoes,
                cache: ProbabilityCache::new(),
                next: 0,
                begun: false,
            },
        )
    }

    /// Begins the next round: the weights of its shoe before it. None where all rounds have been
    /// played.
    pub fn begin_round(&mut self) -> (result: Result<Option<PreparedRound>, CsvReplayError>)
        requires
            old(self).wf(),
            !old(self).in_round(),
        ensures
            final(self).wf(),
            final(self).same_replay(*old(self)),
            final(self).played() == old(self).played(),
            match result {
                Ok(None) => {
                    &&& old(self).played() == old(self).order().len()
                    &&& *final(self) == *old(self)
                },
                Ok(Some(prepared)) => {
                    &&& old(self).played() < old(self).order().len()
                    &&& prepared.row == old(self).order()[old(self).played() as int]
                    &&& old(self).next_shoe().wf()
                    &&& old(self).next_shoe().total() >= 6
                    &&& prepared.row < old(self).rounds().len()
                    &&& prepared.weights@ == deals::main_weights(old(self).next_shoe())
                    &&& deals::are_side_weights(prepared.side_weights, old(self).next_shoe())
                    &&& final(self).in_round()
                    &&& final(self).lookups() == if old(self).knows(
                        old(self).next_shoe().counts,
                    ) {
                        (old(self).lookups().0 + 1, old(self).lookups().1)
                    } else {
                        (old(self).lookups().0, old(self).lookups().1 + 1)
                    }
                    &&& forall|counts: Seq<nat>| #[trigger]
                        final(self).knows(counts) <==> old(self).knows(counts) || counts == old(
                            self,
                        ).next_shoe().counts
                },
                Err(CsvReplayError::Probability { table_id, session_id, round_no, message }) => {
                    &&& old(self).played() < old(self).order().len()
                    &&& old(self).next_shoe().total() < 6
                    &&& (table_id, session_id, round_no) == old(self).next_row().place()
                    &&& message@ == (ProbabilityError::NotEnoughCards {
                        remaining: old(self).next_shoe().total() as u16,
                    }).message()
                    &&& *final(self) == *old(self)
                },
                Err(_) => false,
            },
    {
        if self.next >= self.schedule.order.len() {
            return Ok(None);
        }
        let row: usize = self.schedule.order[self.next];
        let slot: usize = self.schedule.slots[self.next];
        match self.cache.weights(&self.shoes[slot]) {
            Ok((weights, side_weights)) => {
                self.begun = true;
                Ok(Some(PreparedRound { row, weights, side_weights }))
            },
            Err(error) => {
                let rounds: &Vec<LoadedRound> = self.loaded.rounds();
                let round: &LoadedRound = &rounds[row];
                Err(
                    CsvReplayError::Probability {
                        table_id: round.table_id,
                        session_id: round.session_id,
                        round_no: round.round_no,
                        message: error.to_string(),
                    },
                )
            },
        }
    }

    /// The finished round that has been begun.
    pub fn result(&self) -> (result: RoundResult)
        requires
            self.wf(),
            self.in_round(),
        ensures
            result.player() == round::player_hand_of(cards_of(self.next_row())),
            result.banker() == round::banker_hand_of(cards_of(self.next_row())),
    {
        let row: usize = self.schedule.order[self.next];
        let rounds: &Vec<LoadedRound> = self.loaded.rounds();
        proof {
            lemma_scheduled_rows_are_playable(rounds@, self.schedule, self.next as int);
        }
        let cards: &Vec<Card> = rounds[row].cards.as_ref().unwrap();
        round::resolve_round(cards.as_slice()).unwrap()
    }

    /// Settles a bet on the round that has been begun: its settlement and its rebate rate.
    pub fn settle<P: Copy>(
        &self,
        bet: BetTarget,
        rules: MainBetRules<P>,
        side_rules: SideBetRules<P>,
        rebate: RebateRule<P>,
    ) -> (result: (Settlement<P>, Option<P>))
        requires
            self.wf(),
            self.in_round(),
        ensures
            result == settled(bet, rules, side_rules, rebate, cards_of(self.next_row())),
    {
        let result: RoundResult = self.result();
        match bet {
            BetTarget::Main(main_bet) => (
                rules.settle_with_banker_total(
                    main_bet,
                    result.outcome(),
                    result.banker_hand().total(),
                ),
                rebate.rate_for(main_bet, result.outcome()),
            ),
            BetTarget::Side(side_bet) => (
                side_rules.settle(side_bet, result),
                rebate.rate_for_side_bet(),
            ),
        }
    }

    /// Finishes the round that has been begun: its cards leave the shoe.
    pub fn finish_round(&mut self) -> (result: Result<(), CsvReplayError>)
        requires
            old(self).wf(),
            old(self).in_round(),
        ensures
            final(self).wf(),
            final(self).same_replay(*old(self)),
            final(self).lookups() == old(self).lookups(),
            forall|counts: Seq<nat>| #[trigger]
                final(self).knows(counts) == old(self).knows(counts),
            match result {
                Ok(_) => {
                    &&& old(self).next_shoe().holds(cards_of(old(self).next_row()))
                    &&& final(self).played() == old(self).played() + 1
                    &&& !final(self).in_round()
                },
                Err(CsvReplayError::ShoeState { table_id, session_id, round_no, message }) => {
                    &&& !old(self).next_shoe().holds(cards_of(old(self).next_row()))
                    &&& (table_id, session_id, round_no) == old(self).next_row().place()
                    &&& exists|error: ShoeError| #[trigger]
                        old(self).next_shoe().refuses_removal(
                            cards_of(old(self).next_row()),
                            error,
                        ) && message@ == error.message()
                    &&& final(self).played() == old(self).played()
                    &&& final(self).in_round()
                },
                Err(_) => false,
            },
    {
        let row: usize = self.schedule.order[self.next];
        let slot: usize = self.schedule.slots[self.next];
        let ghost was = *self;
        let ghost list = self.loaded.list();
        let ghost n = self.next as int;
        proof {
            lemma_scheduled_rows_are_playable(list, self.schedule, n);
        }
        let rounds: &Vec<LoadedRound> = self.loaded.rounds();
        let cards: &Vec<Card> = rounds[row].cards.as_ref().unwrap();
        let mut shoe: Shoe = self.shoes[slot].clone();
        match shoe.remove_many(cards.as_slice()) {
            Ok(_) => {},
            Err(error) => {
                proof {
                    shoe::lemma_refusal_means_missing(was.next_shoe(), cards@, error);
                }
                return Err(
                    CsvReplayError::ShoeState {
                        table_id: rounds[row].table_id,
                        session_id: rounds[row].session_id,
                        round_no: rounds[row].round_no,
                        message: error.to_string(),
                    },
                );
            },
        }
        let ghost after = shoe@;
        self.shoes.set(slot, shoe);
        self.next = self.next + 1;
        self.begun = false;
        proof {
            let full = shoe::full_shoe(self.decks as nat);
            let order = self.schedule.order@;
            let slots = self.schedule.slots@;
            assert forall|k: int| 0 <= k < self.shoes.len() implies (#[trigger] self.shoes@[k])@
                == shoe_before(self.decks as nat, list, order, slots, n + 1, k) by {
                let before = consumed(list, order, slots, n, k);
                if k == slot {
                    shoe::lemma_remove_in_parts(full, before, cards@);
                } else {
                    assert(self.shoes@[k] == was.shoes@[k]);
                }
            }
            assert forall|k: int| 0 <= k < self.shoes.len() implies full.holds(
                #[trigger] consumed(list, order, slots, n + 1, k),
            ) by {
                let before = consumed(list, order, slots, n, k);
                assert(full.holds(before));
                if k == slot {
                    shoe::lemma_remove_in_parts(full, before, cards@);
                    assert(was.shoes@[k]@ == full.without_all(before));
                }
            }
        }
        Ok(())
    }

    /// A row by its position.
    pub fn round(&self, row: usize) -> (round: &LoadedRound)
        requires
            row < self.rounds().len(),
        ensures
            *round == self.rounds()[row as int],
    {
        let rounds: &Vec<LoadedRound> = self.loaded.rounds();
        &rounds[row]
    }

    /// The rows as they were loaded.
    pub fn loaded(&self) -> (loaded: &LoadedRounds)
        ensures
            loaded.list() == self.rounds(),
    {
        &self.loaded
    }

    /// How rows and shoes were judged.
    pub fn quality(&self) -> (quality: CsvQualityReport)
        ensures
            quality == self.judgement(),
    {
        self.schedule.quality
    }

    /// The number of shoes that are replayed.
    pub fn replayed_sessions(&self) -> (sessions: usize)
        ensures
            sessions == self.shoe_count(),
    {
        self.schedule.session_count
    }

    /// The number of rounds that have been played.
    pub fn replayed_rounds(&self) -> (rounds: usize)
        ensures
            rounds == self.played(),
    {
        self.next
    }

    /// How often the weights of a round were found.
    pub fn probability_cache_hits(&self) -> (hits: u64)
        ensures
            hits == self.lookups().0,
    {
        self.cache.hits()
    }

    /// How often the weights of a round were computed.
    pub fn probability_cache_misses(&self) -> (misses: u64)
        ensures
            misses == self.lookups().1,
    {
        self.cache.misses()
    }
}

/// The settlement of a bet on dealt cards, and its rebate rate.
pub open spec fn settled<P: Copy>(
    bet: BetTarget,
    rules: MainBetRules<P>,
    side_rules: SideBetRules<P>,
    rebate: RebateRule<P>,
    cards: Seq<Card>,
) -> (Settlement<P>, Option<P>) {
    let outcome = records::winner_of(cards);
    match bet {
        BetTarget::Main(main_bet) => (
            rules.settled(main_bet, outcome, round::banker_hand_of(cards).points()),
            rebate.rate_where(RebateRule::<P>::covers(main_bet, outcome)),
        ),
        BetTarget::Side(side_bet) => (
            side_rules.settled(
                side_bet,
                side_bet::side_verdict(
                    side_bet,
                    round::player_hand_of(cards),
                    round::banker_hand_of(cards),
                ),
            ),
            rebate.rate_where(true),
        ),
    }
}

proof fn lemma_scheduled_rows_are_playable(rounds: Seq<LoadedRound>, plan: Schedule, n: int)
    requires
        load::well_formed(rounds),
        plan.fits(rounds),
        0 <= n < plan.order.len(),
    ensures
        plan.order@[n] < rounds.len(),
        rounds[plan.order@[n] as int].playable(),
        records::is_round(cards_of(rounds[plan.order@[n] as int])),
{
    let row = plan.order@[n];
    assert(plan.order@.contains(row));
    let session = rounds[row as int].session();
    assert(schedule::member(rounds, session, row as int));
    assert(rounds[row as int].wf());
}

/// The weights of every round that has been begun were either found or computed.
pub proof fn lemma_every_round_is_looked_up_once(machine: ReplayMachine)
    requires
        machine.wf(),
    ensures
        machine.lookups().0 + machine.lookups().1 == machine.played() + if machine.in_round() {
            1nat
        } else {
            0nat
        },
{
}

/// At every moment of a replay the cards that are left in a shoe and the cards of the rounds
/// that have been played from it make up the full shoe.
pub proof fn lemma_shoes_lose_only_played_cards(machine: ReplayMachine, slot: int)
    requires
        machine.wf(),
        0 <= slot < machine.shoe_count(),
    ensures
        shoe_before(
            machine.deck_count(),
            machine.rounds(),
            machine.order(),
            machine.slots(),
            machine.played() as int,
            slot,
        ).total() + consumed(
            machine.rounds(),
            machine.order(),
            machine.slots(),
            machine.played() as int,
            slot,
        ).len() == 52 * machine.deck_count(),
{
    let full = shoe::full_shoe(machine.deck_count());
    let gone = consumed(
        machine.rounds(),
        machine.order(),
        machine.slots(),
        machine.played() as int,
        slot,
    );
    assert(full.holds(gone));
    shoe::lemma_remove_many_total(full, gone);
    shoe::lemma_full_shoe_total(machine.deck_count());
}

} // verus!
