//! The books of a replay: what its bets staked, earned and did to the bankroll.

use vstd::prelude::*;

use crate::baccarat::bet::MainBet;
use crate::baccarat::ev;
use crate::baccarat::ledger::{Bankroll, CsvBetBreakdown, CsvBetPerformance};
use crate::baccarat::replay::{BetResult, ReplayTally};
use crate::baccarat::risk::{CombinedBetPlan, CombinedBetPlanAction, KellyQuote};
use crate::baccarat::side_bet::{Settlement, SideBet};
use crate::baccarat::strategy::{BetTarget, CombinedBetDecision};
use crate::number;
use crate::number::Number;
use crate::order;

verus! {

/// What a replay has counted and summed up.
#[derive(Debug, Clone, Copy, PartialEq, Eq)]
pub struct ReplayAccount<E> {
    pub tally: ReplayTally,
    pub breakdown: CsvBetBreakdown<E>,
    pub bankroll: Bankroll<E>,
    /// The effective values of the best bets of the rounds, together.
    pub effective_ev_sum: E,
    pub minimum_candidate_effective_ev: Option<E>,
    pub maximum_candidate_effective_ev: Option<E>,
    pub total_stake: E,
    pub total_expected_profit: E,
    /// The profits without the rebates.
    pub base_game_profit: E,
    pub rebate_income: E,
}

/// A bet that was made and how it ended.
#[derive(Debug, Clone, Copy, PartialEq, Eq)]
pub struct PlacedBet<E> {
    pub bet: BetTarget,
    pub amount: E,
    pub quote: KellyQuote<E>,
    pub effective_ev: E,
    pub result: BetResult,
    pub base_game_profit: E,
    pub rebate_income: E,
    pub actual_profit: E,
}

/// The bet that a plan makes, with its settlement and its rebate rate; none where it makes none.
pub open spec fn placed_by<E: Number>(
    plan: CombinedBetPlan<E>,
    settlement: Settlement<E>,
    rate: Option<E>,
) -> Option<PlacedBet<E>> {
    match (plan.action, plan.quote) {
        (CombinedBetPlanAction::Place { bet, amount }, Some(quote)) => {
            let base = number::product(amount, ev::net_profit(settlement));
            let rebate = number::product(amount, ev::rebate_rate(rate));
            Some(
                PlacedBet {
                    bet,
                    amount,
                    quote,
                    effective_ev: plan.decision.effective_ev,
                    result: BetResult::of(settlement, number::small::<E>(0)),
                    base_game_profit: base,
                    rebate_income: rebate,
                    actual_profit: number::sum(base, rebate),
                },
            )
        },
        _ => None,
    }
}

/// Settles the bet that a plan makes.
pub fn settle_plan<E: Number>(
    plan: CombinedBetPlan<E>,
    settlement: Settlement<E>,
    rate: Option<E>,
) -> (placed: Option<PlacedBet<E>>)
    requires
        number::arithmetic::<E>(),
    ensures
        placed == placed_by(plan, settlement, rate),
{
    match (plan.action, plan.quote) {
        (CombinedBetPlanAction::Place { bet, amount }, Some(quote)) => {
            let base: E = amount * ev::profit_of(settlement);
            let rebate: E = amount * ev::rate_of(rate);
            Some(
                PlacedBet {
                    bet,
                    amount,
                    quote,
                    effective_ev: plan.decision.effective_ev,
                    result: BetResult::from_settlement(settlement, E::from(0u32)),
                    base_game_profit: base,
                    rebate_income: rebate,
                    actual_profit: base + rebate,
                },
            )
        },
        _ => None,
    }
}

impl<E: Number> ReplayAccount<E> {
    /// The books before the first round.
    pub open spec fn start(initial: E) -> ReplayAccount<E> {
        let zero = number::small::<E>(0);
        ReplayAccount {
            tally: ReplayTally::nothing(),
            breakdown: CsvBetBreakdown::nothing(zero),
            bankroll: Bankroll::start(initial, zero),
            effective_ev_sum: zero,
            minimum_candidate_effective_ev: None,
            maximum_candidate_effective_ev: None,
            total_stake: zero,
            total_expected_profit: zero,
            base_game_profit: zero,
            rebate_income: zero,
        }
    }

    /// The books with the best bet of one more round.
    pub open spec fn with_candidate(self, decision: CombinedBetDecision<E>) -> ReplayAccount<E> {
        let ev = decision.effective_ev;
        ReplayAccount {
            tally: self.tally.with_candidate(decision.candidate),
            effective_ev_sum: number::sum(self.effective_ev_sum, ev),
            minimum_candidate_effective_ev: match self.minimum_candidate_effective_ev {
                Some(least) => Some(order::lower(least, ev)),
                None => Some(ev),
            },
            maximum_candidate_effective_ev: match self.maximum_candidate_effective_ev {
                Some(most) => Some(order::higher(most, ev)),
                None => Some(ev),
            },
            ..self
        }
    }

    /// The books with one more plan, whether it makes a bet or not.
    pub open spec fn with_plan(self, placed: Option<PlacedBet<E>>) -> ReplayAccount<E> {
        match placed {
            Some(placed) => ReplayAccount {
                tally: self.tally.with_placed(placed.bet, placed.result),
                breakdown: self.breakdown.with_bet(
                    placed.bet,
                    placed.amount,
                    placed.base_game_profit,
                    placed.rebate_income,
                    number::small::<E>(0),
                ),
                bankroll: Bankroll {
                    maximum_single_stake: order::higher(
                        self.bankroll.maximum_single_stake,
                        placed.amount,
                    ),
                    ..self.bankroll
                },
                total_stake: number::sum(self.total_stake, placed.amount),
                total_expected_profit: number::sum(
                    self.total_expected_profit,
                    placed.quote.expected_profit,
                ),
                base_game_profit: number::sum(self.base_game_profit, placed.base_game_profit),
                rebate_income: number::sum(self.rebate_income, placed.rebate_income),
                ..self
            },
            None => ReplayAccount { tally: self.tally.with_skipped(), ..self },
        }
    }

    /// The books after all bets of a round have been settled together.
    pub open spec fn after_round(self, stake: E, profit: E) -> ReplayAccount<E> {
        let zero = number::small::<E>(0);
        let after = self.bankroll.after_round(stake, profit, zero);
        let rate = if order::above(after.maximum, zero) {
            number::quotient(self.bankroll.drawdown_after(profit, zero), after.maximum)
        } else {
            zero
        };
        ReplayAccount {
            bankroll: Bankroll {
                maximum_drawdown_rate: order::higher(after.maximum_drawdown_rate, rate),
                ..after
            },
            ..self
        }
    }

    /// The books are consistent, and no count is above a limit.
    pub open spec fn within(self, limit: int) -> bool {
        &&& self.tally.reconciles()
        &&& self.tally.placed_bet_count <= limit
        &&& self.tally.skipped_bets <= limit
        &&& forall|bet: BetTarget| #[trigger] self.tally.candidate_bets.of(bet) <= limit
        &&& forall|bet: BetTarget| #[trigger] self.breakdown.of(bet).count <= limit
        &&& forall|bet: BetTarget| (#[trigger] self.breakdown.of(bet)).reconciles()
    }

    /// The books before the first round.
    pub fn new(initial: E) -> (account: ReplayAccount<E>)
        requires
            number::arithmetic::<E>(),
        ensures
            account == Self::start(initial),
            account.within(0),
    {
        let zero: E = E::from(0u32);
        ReplayAccount {
            tally: ReplayTally::new(),
            breakdown: CsvBetBreakdown::new(zero),
            bankroll: Bankroll::new(initial, zero),
            effective_ev_sum: zero,
            minimum_candidate_effective_ev: None,
            maximum_candidate_effective_ev: None,
            total_stake: zero,
            total_expected_profit: zero,
            base_game_profit: zero,
            rebate_income: zero,
        }
    }

    /// Takes note of the best bet of a round.
    pub fn note_candidate(&mut self, decision: CombinedBetDecision<E>)
        requires
            number::arithmetic::<E>(),
            old(self).within(u64::MAX - 1),
        ensures
            *final(self) == old(self).with_candidate(decision),
    {
        let ev: E = decision.effective_ev;
        self.tally.note_candidate(decision.candidate);
        self.effective_ev_sum = self.effective_ev_sum + ev;
        self.minimum_candidate_effective_ev = match self.minimum_candidate_effective_ev {
            Some(least) => Some(order::lower_of(least, ev)),
            None => Some(ev),
        };
        self.maximum_candidate_effective_ev = match self.maximum_candidate_effective_ev {
            Some(most) => Some(order::higher_of(most, ev)),
            None => Some(ev),
        };
    }

    /// Takes in one more plan, whether it makes a bet or not.
    pub fn note_plan(&mut self, placed: Option<PlacedBet<E>>)
        requires
            number::arithmetic::<E>(),
            old(self).within(u64::MAX - 1),
        ensures
            *final(self) == old(self).with_plan(placed),
    {
        match placed {
            Some(placed) => {
                let zero: E = E::from(0u32);
                self.tally.note_placed(placed.bet, placed.result);
                self.breakdown.record(
                    placed.bet,
                    placed.amount,
                    placed.base_game_profit,
                    placed.rebate_income,
                    zero,
                );
                self.bankroll.note_stake(placed.amount);
                self.total_stake = self.total_stake + placed.amount;
                self.total_expected_profit = self.total_expected_profit
                    + placed.quote.expected_profit;
                self.base_game_profit = self.base_game_profit + placed.base_game_profit;
                self.rebate_income = self.rebate_income + placed.rebate_income;
            },
            None => {
                self.tally.note_skipped();
            },
        }
    }

    /// Settles all bets of a round together.
    pub fn close_round(&mut self, stake: E, profit: E)
        requires
            number::arithmetic::<E>(),
        ensures
            *final(self) == old(self).after_round(stake, profit),
    {
        let zero: E = E::from(0u32);
        let drawdown: E = self.bankroll.close_round(stake, profit, zero);
        let maximum: E = self.bankroll.maximum;
        let rate: E = if order::is_above(maximum, zero) {
            drawdown / maximum
        } else {
            zero
        };
        self.bankroll.note_drawdown_rate(rate);
    }
}

/// One more round raises no count by more than one.
pub proof fn lemma_candidate_stays_within<E: Number>(
    account: ReplayAccount<E>,
    decision: CombinedBetDecision<E>,
    limit: int,
)
    requires
        account.within(limit),
        limit < u64::MAX,
    ensures
        account.with_candidate(decision).within(limit + 1),
{
    let after = account.with_candidate(decision);
    assert forall|bet: BetTarget| #[trigger] after.tally.candidate_bets.of(bet) <= limit + 1 by {
        assert(account.tally.candidate_bets.of(bet) <= limit);
        assert(account.tally.candidate_bets.of(decision.candidate) <= limit);
    }
    assert forall|bet: BetTarget| #[trigger] after.breakdown.of(bet).count <= limit + 1 by {
        assert(account.breakdown.of(bet).count <= limit);
    }
}

proof fn lemma_one_bet_more<E: Number>(
    breakdown: CsvBetBreakdown<E>,
    made: PlacedBet<E>,
    bet: BetTarget,
    limit: int,
)
    requires
        limit < u64::MAX,
        breakdown.of(made.bet).count <= limit,
        breakdown.of(made.bet).reconciles(),
        breakdown.of(bet).count <= limit,
        breakdown.of(bet).reconciles(),
    ensures
        ({
            let after = breakdown.with_bet(
                made.bet,
                made.amount,
                made.base_game_profit,
                made.rebate_income,
                number::small::<E>(0),
            ).of(bet);
            after.count <= limit + 1 && after.reconciles()
        }),
{
    let zero = number::small::<E>(0);
    let base = made.base_game_profit;
    let rebate = made.rebate_income;
    let after = breakdown.with_bet(made.bet, made.amount, base, rebate, zero);
    lemma_one_item_changes(breakdown, made.bet, made.amount, base, rebate, zero);
    lemma_item(breakdown, bet);
    lemma_item(after, bet);
    if item_of(bet) == item_of(made.bet) {
        assert(bet == made.bet);
        assert(after.of(bet) == breakdown.of(bet).with_bet(made.amount, base, rebate, zero));
    } else {
        assert(after.of(bet) == breakdown.of(bet));
    }
}

proof fn lemma_one_placed_more(tally: ReplayTally, bet: BetTarget, result: BetResult)
    requires
        tally.reconciles(),
        tally.placed_bet_count < u64::MAX,
    ensures
        tally.with_placed(bet, result).reconciles(),
        tally.with_placed(bet, result).placed_bet_count == tally.placed_bet_count + 1,
{
    assert(tally.placed_bets.of(bet) <= tally.placed_bets.total());
    assert(tally.placed_bets.plus(bet).total() == tally.placed_bets.total() + 1);
}

/// One more plan raises no count by more than one.
pub proof fn lemma_plan_stays_within<E: Number>(
    account: ReplayAccount<E>,
    placed: Option<PlacedBet<E>>,
    limit: int,
)
    requires
        account.within(limit),
        limit < u64::MAX,
    ensures
        account.with_plan(placed).within(limit + 1),
{
    let after = account.with_plan(placed);
    assert forall|bet: BetTarget| #[trigger] after.tally.candidate_bets.of(bet) <= limit + 1 by {
        assert(account.tally.candidate_bets.of(bet) <= limit);
    }
    assert forall|bet: BetTarget| #[trigger]
        after.breakdown.of(bet).count <= limit + 1 && after.breakdown.of(bet).reconciles() by {
        assert(account.breakdown.of(bet).count <= limit && account.breakdown.of(bet).reconciles());
        if let Some(made) = placed {
            let own = account.breakdown.of(made.bet);
            assert(own.count <= limit && own.reconciles());
            lemma_one_bet_more(account.breakdown, made, bet, limit);
        }
    }
    if let Some(made) = placed {
        lemma_one_placed_more(account.tally, made.bet, made.result);
    }
}

/// The bets of the first performances together.
pub open spec fn count_sum<E>(items: Seq<CsvBetPerformance<E>>, n: int) -> nat
    decreases n,
{
    if n <= 0 {
        0
    } else {
        count_sum(items, n - 1) + items[n - 1].count as nat
    }
}

/// The first numbers together.
pub open spec fn number_sum<E: Number>(items: Seq<E>, n: int) -> E
    decreases n,
{
    if n <= 0 {
        number::small::<E>(0)
    } else {
        number::sum(number_sum(items, n - 1), items[n - 1])
    }
}

impl<E: Number> CsvBetBreakdown<E> {
    /// The performances of all bets.
    pub open spec fn items(self) -> Seq<CsvBetPerformance<E>> {
        seq![
            self.player,
            self.banker,
            self.tie,
            self.any_pair,
            self.banker_pair,
            self.player_pair,
            self.perfect_pair,
            self.big,
            self.small,
            self.lucky_seven,
            self.super_lucky_seven,
            self.lucky_six,
            self.banker_dragon_bonus,
            self.player_dragon_bonus,
        ]
    }

    fn list(&self) -> (items: [CsvBetPerformance<E>; 14])
        ensures
            items@ == self.items(),
    {
        [
            self.player,
            self.banker,
            self.tie,
            self.any_pair,
            self.banker_pair,
            self.player_pair,
            self.perfect_pair,
            self.big,
            self.small,
            self.lucky_seven,
            self.super_lucky_seven,
            self.lucky_six,
            self.banker_dragon_bonus,
            self.player_dragon_bonus,
        ]
    }

    /// The bets, the stakes and the profits of all kinds of bets together.
    pub fn totals(&self) -> (totals: (u64, E, E))
        requires
            number::arithmetic::<E>(),
            count_sum(self.items(), 14) <= u64::MAX,
        ensures
            totals.0 == count_sum(self.items(), 14),
            totals.1 == number_sum(
                self.items().map_values(|item: CsvBetPerformance<E>| item.total_stake),
                14,
            ),
            totals.2 == number_sum(
                self.items().map_values(|item: CsvBetPerformance<E>| item.total_profit),
                14,
            ),
    {
        let items: [CsvBetPerformance<E>; 14] = self.list();
        let ghost stakes = self.items().map_values(
            |item: CsvBetPerformance<E>| item.total_stake,
        );
        let ghost profits = self.items().map_values(
            |item: CsvBetPerformance<E>| item.total_profit,
        );
        let mut count: u64 = 0;
        let mut stake: E = E::from(0u32);
        let mut profit: E = E::from(0u32);
        let mut i: usize = 0;
        while i < 14
            invariant
                number::arithmetic::<E>(),
                i <= 14,
                items@ == self.items(),
                count_sum(self.items(), 14) <= u64::MAX,
                stakes == self.items().map_values(|item: CsvBetPerformance<E>| item.total_stake),
                profits == self.items().map_values(|item: CsvBetPerformance<E>| item.total_profit),
                count == count_sum(self.items(), i as int),
                stake == number_sum(stakes, i as int),
                profit == number_sum(profits, i as int),
            decreases 14 - i,
        {
            proof {
                lemma_count_sum_grows(self.items(), i + 1, 14);
            }
            let item: CsvBetPerformance<E> = items[i];
            count = count + item.count;
            stake = stake + item.total_stake;
            profit = profit + item.total_profit;
            i = i + 1;
        }
        (count, stake, profit)
    }

    /// The profits and the losses of all kinds of bets together, rebates included.
    pub fn gross_totals(&self) -> (totals: (E, E))
        requires
            number::arithmetic::<E>(),
        ensures
            totals.0 == number_sum(
                self.items().map_values(|item: CsvBetPerformance<E>| item.gross_profit),
                14,
            ),
            totals.1 == number_sum(
                self.items().map_values(|item: CsvBetPerformance<E>| item.gross_loss),
                14,
            ),
    {
        let items: [CsvBetPerformance<E>; 14] = self.list();
        let ghost profits = self.items().map_values(
            |item: CsvBetPerformance<E>| item.gross_profit,
        );
        let ghost losses = self.items().map_values(|item: CsvBetPerformance<E>| item.gross_loss);
        let mut profit: E = E::from(0u32);
        let mut loss: E = E::from(0u32);
        let mut i: usize = 0;
        while i < 14
            invariant
                number::arithmetic::<E>(),
                i <= 14,
                items@ == self.items(),
                profits == self.items().map_values(|item: CsvBetPerformance<E>| item.gross_profit),
                losses == self.items().map_values(|item: CsvBetPerformance<E>| item.gross_loss),
                profit == number_sum(profits, i as int),
                loss == number_sum(losses, i as int),
            decreases 14 - i,
        {
            let item: CsvBetPerformance<E> = items[i];
            profit = profit + item.gross_profit;
            loss = loss + item.gross_loss;
            i = i + 1;
        }
        (profit, loss)
    }

    /// The profits and the losses of all kinds of bets together, without rebates.
    pub fn base_gross_totals(&self) -> (totals: (E, E))
        requires
            number::arithmetic::<E>(),
        ensures
            totals.0 == number_sum(
                self.items().map_values(|item: CsvBetPerformance<E>| item.base_gross_profit),
                14,
            ),
            totals.1 == number_sum(
                self.items().map_values(|item: CsvBetPerformance<E>| item.base_gross_loss),
                14,
            ),
    {
        let items: [CsvBetPerformance<E>; 14] = self.list();
        let ghost profits = self.items().map_values(
            |item: CsvBetPerformance<E>| item.base_gross_profit,
        );
        let ghost losses = self.items().map_values(
            |item: CsvBetPerformance<E>| item.base_gross_loss,
        );
        let mut profit: E = E::from(0u32);
        let mut loss: E = E::from(0u32);
        let mut i: usize = 0;
        while i < 14
            invariant
                number::arithmetic::<E>(),
                i <= 14,
                items@ == self.items(),
                profits == self.items().map_values(
                    |item: CsvBetPerformance<E>| item.base_gross_profit,
                ),
                losses == self.items().map_values(
                    |item: CsvBetPerformance<E>| item.base_gross_loss,
                ),
                profit == number_sum(profits, i as int),
                loss == number_sum(losses, i as int),
            decreases 14 - i,
        {
            let item: CsvBetPerformance<E> = items[i];
            profit = profit + item.base_gross_profit;
            loss = loss + item.base_gross_loss;
            i = i + 1;
        }
        (profit, loss)
    }
}

proof fn lemma_count_sum_grows<E>(items: Seq<CsvBetPerformance<E>>, early: int, late: int)
    requires
        0 <= early <= late,
    ensures
        count_sum(items, early) <= count_sum(items, late),
    decreases late - early,
{
    if early < late {
        lemma_count_sum_grows(items, early, late - 1);
    }
}

/// The place of a bet among the performances of all bets.
pub open spec fn item_of(bet: BetTarget) -> int {
    match bet {
        BetTarget::Main(MainBet::Player) => 0,
        BetTarget::Main(MainBet::Banker) => 1,
        BetTarget::Main(MainBet::Tie) => 2,
        BetTarget::Side(SideBet::AnyPair) => 3,
        BetTarget::Side(SideBet::BankerPair) => 4,
        BetTarget::Side(SideBet::PlayerPair) => 5,
        BetTarget::Side(SideBet::PerfectPair) => 6,
        BetTarget::Side(SideBet::Big) => 7,
        BetTarget::Side(SideBet::Small) => 8,
        BetTarget::Side(SideBet::LuckySeven) => 9,
        BetTarget::Side(SideBet::SuperLuckySeven) => 10,
        BetTarget::Side(SideBet::LuckySix) => 11,
        BetTarget::Side(SideBet::BankerDragonBonus) => 12,
        BetTarget::Side(SideBet::PlayerDragonBonus) => 13,
    }
}

/// The performance of a kind of bet stands at its place.
pub proof fn lemma_item<E: Number>(breakdown: CsvBetBreakdown<E>, bet: BetTarget)
    ensures
        0 <= item_of(bet) < 14,
        breakdown.items()[item_of(bet)] == breakdown.of(bet),
{
}

/// One more bet changes the performance of its kind, and no other.
pub proof fn lemma_one_item_changes<E: Number>(
    breakdown: CsvBetBreakdown<E>,
    bet: BetTarget,
    amount: E,
    base: E,
    rebate: E,
    zero: E,
)
    ensures
        0 <= item_of(bet) < 14,
        breakdown.items()[item_of(bet)] == breakdown.of(bet),
        breakdown.with_bet(bet, amount, base, rebate, zero).items() == breakdown.items().update(
            item_of(bet),
            breakdown.of(bet).with_bet(amount, base, rebate, zero),
        ),
{
    assert(breakdown.with_bet(bet, amount, base, rebate, zero).items()
        =~= breakdown.items().update(
        item_of(bet),
        breakdown.of(bet).with_bet(amount, base, rebate, zero),
    ));
}

proof fn lemma_count_with_one_more<E>(
    items: Seq<CsvBetPerformance<E>>,
    j: int,
    item: CsvBetPerformance<E>,
    n: int,
)
    requires
        0 <= j < items.len(),
        0 <= n <= items.len(),
        item.count == items[j].count + 1,
    ensures
        count_sum(items.update(j, item), n) == count_sum(items, n) + if j < n {
            1nat
        } else {
            0nat
        },
    decreases n,
{
    if n > 0 {
        lemma_count_with_one_more(items, j, item, n - 1);
    }
}

/// The kinds of bets together count every bet that was made.
pub proof fn lemma_breakdown_counts_every_bet<E: Number>(
    account: ReplayAccount<E>,
    placed: Option<PlacedBet<E>>,
    limit: int,
)
    requires
        account.within(limit),
        limit < u64::MAX,
        count_sum(account.breakdown.items(), 14) == account.tally.placed_bet_count,
    ensures
        count_sum(account.with_plan(placed).breakdown.items(), 14) == account.with_plan(
            placed,
        ).tally.placed_bet_count,
{
    if let Some(made) = placed {
        let zero = number::small::<E>(0);
        let base = made.base_game_profit;
        let rebate = made.rebate_income;
        let before = account.breakdown;
        assert(before.of(made.bet).count <= limit);
        lemma_one_item_changes(before, made.bet, made.amount, base, rebate, zero);
        lemma_count_with_one_more(
            before.items(),
            item_of(made.bet),
            before.of(made.bet).with_bet(made.amount, base, rebate, zero),
            14,
        );
    }
}

} // verus!
