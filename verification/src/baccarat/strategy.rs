//! Which bets to make: the expected values that reach their thresholds.

use vstd::prelude::*;

use crate::baccarat::analysis::{
    EffectiveBetMetrics, EffectiveMainBets, EffectiveSideBets, MainBetAnalysis,
};
use crate::baccarat::bet::MainBet;
use crate::baccarat::ev;
use crate::baccarat::ev::SideBetAnalysis;
use crate::baccarat::rebate::RebateRule;
use crate::baccarat::side_bet::SideBet;
use crate::number;
use crate::number::Number;
use crate::order;

verus! {

/// Any bet that can be made.
#[derive(Debug, Clone, Copy, PartialEq, Eq, Structural)]
pub enum BetTarget {
    Main(MainBet),
    Side(SideBet),
}

impl BetTarget {
    /// The stable name of the bet.
    pub open spec fn name(self) -> Seq<char> {
        match self {
            BetTarget::Main(bet) => bet.name(),
            BetTarget::Side(bet) => bet.name(),
        }
    }

    /// The stable name of the bet.
    pub fn as_str(self) -> (name: &'static str)
        ensures
            name@ == self.name(),
    {
        match self {
            BetTarget::Main(bet) => bet.as_str(),
            BetTarget::Side(bet) => bet.as_str(),
        }
    }

    /// Whether the bet is a side bet.
    pub fn is_side(self) -> (side: bool)
        ensures
            side == (self is Side),
    {
        match self {
            BetTarget::Main(_) => false,
            BetTarget::Side(_) => true,
        }
    }
}

/// Why no bet is made.
#[derive(Debug, Clone, Copy, PartialEq, Eq)]
pub enum SkipReason<E> {
    /// The largest effective value does not reach the threshold.
    BelowMinimumEv { effective_ev: E, minimum_ev: E },
}

/// What to do about the main bets.
#[derive(Debug, Clone, Copy, PartialEq, Eq)]
pub enum BetAction<E> {
    Place { bet: MainBet },
    Skip { reason: SkipReason<E> },
}

/// What to do about all bets.
#[derive(Debug, Clone, Copy, PartialEq, Eq)]
pub enum CombinedBetAction<E> {
    Place { bet: BetTarget },
    Skip { reason: SkipReason<E> },
}

/// A decision between the main bets, with the values it was made by.
#[derive(Debug, Clone, Copy, PartialEq, Eq)]
pub struct BetDecision<E> {
    pub candidate: MainBet,
    pub base_ev: E,
    pub rebate_ev: E,
    pub effective_ev: E,
    pub action: BetAction<E>,
}

impl<E: Copy> BetDecision<E> {
    /// The bet with the largest effective value, made or not.
    pub fn candidate(self) -> (bet: MainBet)
        ensures
            bet == self.candidate,
    {
        self.candidate
    }

    /// The candidate's expected net profit from the payouts.
    pub fn base_ev(self) -> (ev: E)
        ensures
            ev == self.base_ev,
    {
        self.base_ev
    }

    /// The candidate's expected rebate.
    pub fn rebate_ev(self) -> (ev: E)
        ensures
            ev == self.rebate_ev,
    {
        self.rebate_ev
    }

    /// The candidate's expected net profit with the rebate.
    pub fn effective_ev(self) -> (ev: E)
        ensures
            ev == self.effective_ev,
    {
        self.effective_ev
    }

    /// What to do.
    pub fn action(&self) -> (action: &BetAction<E>)
        ensures
            *action == self.action,
    {
        &self.action
    }
}

/// A decision between all bets, with the values it was made by.
#[derive(Debug, Clone, Copy, PartialEq, Eq)]
pub struct CombinedBetDecision<E> {
    pub candidate: BetTarget,
    pub base_ev: E,
    pub rebate_ev: E,
    pub effective_ev: E,
    pub minimum_ev: E,
    pub action: CombinedBetAction<E>,
}

impl<E: Copy> CombinedBetDecision<E> {
    /// The bet the decision is about.
    pub fn candidate(self) -> (bet: BetTarget)
        ensures
            bet == self.candidate,
    {
        self.candidate
    }

    /// The candidate's expected net profit from the payouts.
    pub fn base_ev(self) -> (ev: E)
        ensures
            ev == self.base_ev,
    {
        self.base_ev
    }

    /// The candidate's expected rebate.
    pub fn rebate_ev(self) -> (ev: E)
        ensures
            ev == self.rebate_ev,
    {
        self.rebate_ev
    }

    /// The candidate's expected net profit with the rebate.
    pub fn effective_ev(self) -> (ev: E)
        ensures
            ev == self.effective_ev,
    {
        self.effective_ev
    }

    /// The threshold of the candidate.
    pub fn minimum_ev(self) -> (ev: E)
        ensures
            ev == self.minimum_ev,
    {
        self.minimum_ev
    }

    /// What to do.
    pub fn action(&self) -> (action: &CombinedBetAction<E>)
        ensures
            *action == self.action,
    {
        &self.action
    }
}

/// A bet with its values and its threshold.
#[derive(Debug, Clone, Copy, PartialEq, Eq)]
pub struct CandidateMetrics<E> {
    pub target: BetTarget,
    pub base_ev: E,
    pub rebate_ev: E,
    pub effective_ev: E,
    pub minimum_ev: E,
}

impl<E: Copy + PartialOrd> CandidateMetrics<E> {
    /// A bet with its metrics and its threshold.
    pub open spec fn of(
        target: BetTarget,
        metrics: EffectiveBetMetrics<E>,
        minimum_ev: E,
    ) -> CandidateMetrics<E> {
        CandidateMetrics {
            target,
            base_ev: metrics.base_ev,
            rebate_ev: metrics.rebate_ev,
            effective_ev: metrics.effective_ev,
            minimum_ev,
        }
    }

    /// Whether the effective value reaches the threshold.
    pub open spec fn eligible(self) -> bool {
        order::reaches(self.effective_ev, self.minimum_ev)
    }

    /// The decision to make the bet.
    pub open spec fn placed(self) -> CombinedBetDecision<E> {
        CombinedBetDecision {
            candidate: self.target,
            base_ev: self.base_ev,
            rebate_ev: self.rebate_ev,
            effective_ev: self.effective_ev,
            minimum_ev: self.minimum_ev,
            action: CombinedBetAction::Place { bet: self.target },
        }
    }

    /// The decision not to make the bet because its value is too low.
    pub open spec fn skipped(self) -> CombinedBetDecision<E> {
        CombinedBetDecision {
            candidate: self.target,
            base_ev: self.base_ev,
            rebate_ev: self.rebate_ev,
            effective_ev: self.effective_ev,
            minimum_ev: self.minimum_ev,
            action: CombinedBetAction::Skip {
                reason: SkipReason::BelowMinimumEv {
                    effective_ev: self.effective_ev,
                    minimum_ev: self.minimum_ev,
                },
            },
        }
    }

    fn new(target: BetTarget, metrics: EffectiveBetMetrics<E>, minimum_ev: E) -> (candidate:
        CandidateMetrics<E>)
        ensures
            candidate == Self::of(target, metrics, minimum_ev),
    {
        CandidateMetrics {
            target,
            base_ev: metrics.base_ev,
            rebate_ev: metrics.rebate_ev,
            effective_ev: metrics.effective_ev,
            minimum_ev,
        }
    }

    fn place(self) -> (decision: CombinedBetDecision<E>)
        ensures
            decision == self.placed(),
    {
        CombinedBetDecision {
            candidate: self.target,
            base_ev: self.base_ev,
            rebate_ev: self.rebate_ev,
            effective_ev: self.effective_ev,
            minimum_ev: self.minimum_ev,
            action: CombinedBetAction::Place { bet: self.target },
        }
    }

    fn skip(self) -> (decision: CombinedBetDecision<E>)
        ensures
            decision == self.skipped(),
    {
        CombinedBetDecision {
            candidate: self.target,
            base_ev: self.base_ev,
            rebate_ev: self.rebate_ev,
            effective_ev: self.effective_ev,
            minimum_ev: self.minimum_ev,
            action: CombinedBetAction::Skip {
                reason: SkipReason::BelowMinimumEv {
                    effective_ev: self.effective_ev,
                    minimum_ev: self.minimum_ev,
                },
            },
        }
    }
}

/// The effective values of the candidates.
pub open spec fn values<E: Copy + PartialOrd>(candidates: Seq<CandidateMetrics<E>>) -> Seq<E> {
    Seq::new(candidates.len(), |i: int| candidates[i].effective_ev)
}

/// The position of the eligible candidate with the largest value among the first ones, the
/// earliest where several rank alike.
pub open spec fn best_eligible<E: Copy + PartialOrd>(
    candidates: Seq<CandidateMetrics<E>>,
    count: int,
) -> Option<int>
    decreases count,
{
    if count <= 0 {
        None
    } else {
        let before = best_eligible(candidates, count - 1);
        let last = candidates[count - 1];
        if last.eligible() && (before matches Some(best) ==> order::above(
            last.effective_ev,
            candidates[best].effective_ev,
        )) {
            Some(count - 1)
        } else {
            before
        }
    }
}

/// The decision between candidates: make the best one that reaches its threshold; where none
/// does, make none and name the best one.
pub open spec fn decided<E: Copy + PartialOrd>(
    candidates: Seq<CandidateMetrics<E>>,
) -> CombinedBetDecision<E> {
    match best_eligible(candidates, candidates.len() as int) {
        Some(best) => candidates[best].placed(),
        None => candidates[order::first_best(
            values(candidates),
            candidates.len() as int,
        )].skipped(),
    }
}

/// The first slot at or after `from` whose candidate has a smaller value; the end where there
/// is none.
pub open spec fn slot<E: Copy + PartialOrd>(
    candidates: Seq<CandidateMetrics<E>>,
    ranks: Seq<int>,
    value: E,
    from: int,
) -> int
    decreases ranks.len() - from,
{
    if from >= ranks.len() {
        ranks.len() as int
    } else if order::above(value, candidates[ranks[from]].effective_ev) {
        from
    } else {
        slot(candidates, ranks, value, from + 1)
    }
}

/// The positions of the eligible ones among the first candidates, from the largest value to
/// the smallest, in their own order where several rank alike.
pub open spec fn ranking<E: Copy + PartialOrd>(
    candidates: Seq<CandidateMetrics<E>>,
    count: int,
) -> Seq<int>
    decreases count,
{
    if count <= 0 {
        Seq::empty()
    } else {
        let before = ranking(candidates, count - 1);
        let last = candidates[count - 1];
        if last.eligible() {
            before.insert(slot(candidates, before, last.effective_ev, 0), count - 1)
        } else {
            before
        }
    }
}

/// The candidates of the allowed side bets among the first ones.
pub open spec fn side_candidates<E: Copy + PartialOrd>(
    side: EffectiveSideBets<E>,
    allowed: Seq<bool>,
    minimum_ev: E,
    count: int,
) -> Seq<CandidateMetrics<E>>
    decreases count,
{
    if count <= 0 {
        Seq::empty()
    } else {
        let before = side_candidates(side, allowed, minimum_ev, count - 1);
        if allowed[count - 1] {
            before.push(
                CandidateMetrics::of(
                    BetTarget::Side(SideBet::ALL@[count - 1]),
                    side.metrics@[count - 1],
                    minimum_ev,
                ),
            )
        } else {
            before
        }
    }
}

/// A rebate and the thresholds that bets must reach.
#[derive(Debug, Clone, Copy, PartialEq, Eq)]
pub struct BettingPolicy<E> {
    pub rebate: RebateRule<E>,
    pub minimum_effective_ev: E,
    pub minimum_side_bet_ev: E,
}

impl<E: Copy + PartialOrd> BettingPolicy<E> {
    /// The decision between the main bets.
    pub open spec fn main_decision(self, main: EffectiveMainBets<E>) -> BetDecision<E> {
        let bet = main.best();
        let metrics = main.of(bet);
        BetDecision {
            candidate: bet,
            base_ev: metrics.base_ev,
            rebate_ev: metrics.rebate_ev,
            effective_ev: metrics.effective_ev,
            action: if order::reaches(metrics.effective_ev, self.minimum_effective_ev) {
                BetAction::Place { bet }
            } else {
                BetAction::Skip {
                    reason: SkipReason::BelowMinimumEv {
                        effective_ev: metrics.effective_ev,
                        minimum_ev: self.minimum_effective_ev,
                    },
                }
            },
        }
    }

    /// The main bets and the allowed side bets with their thresholds.
    pub open spec fn candidates(
        self,
        main: EffectiveMainBets<E>,
        side: EffectiveSideBets<E>,
        allowed: Seq<bool>,
    ) -> Seq<CandidateMetrics<E>> {
        seq![
            CandidateMetrics::of(
                BetTarget::Main(MainBet::Player),
                main.player,
                self.minimum_effective_ev,
            ),
            CandidateMetrics::of(
                BetTarget::Main(MainBet::Banker),
                main.banker,
                self.minimum_effective_ev,
            ),
            CandidateMetrics::of(
                BetTarget::Main(MainBet::Tie),
                main.tie,
                self.minimum_effective_ev,
            ),
        ] + side_candidates(side, allowed, self.minimum_side_bet_ev, 11)
    }

    /// A policy with one threshold for all bets.
    pub fn new(rebate: RebateRule<E>, minimum_effective_ev: E) -> (policy: BettingPolicy<E>)
        ensures
            policy == (BettingPolicy {
                rebate,
                minimum_effective_ev,
                minimum_side_bet_ev: minimum_effective_ev,
            }),
    {
        BettingPolicy { rebate, minimum_effective_ev, minimum_side_bet_ev: minimum_effective_ev }
    }

    /// A policy with a threshold of its own for the side bets.
    pub fn with_side_bet_minimum(
        rebate: RebateRule<E>,
        minimum_effective_ev: E,
        minimum_side_bet_ev: E,
    ) -> (policy: BettingPolicy<E>)
        ensures
            policy == (BettingPolicy { rebate, minimum_effective_ev, minimum_side_bet_ev }),
    {
        BettingPolicy { rebate, minimum_effective_ev, minimum_side_bet_ev }
    }

    /// The rebate.
    pub fn rebate(&self) -> (rebate: RebateRule<E>)
        ensures
            rebate == self.rebate,
    {
        self.rebate
    }

    /// The threshold of the main bets.
    pub fn minimum_effective_ev(&self) -> (ev: E)
        ensures
            ev == self.minimum_effective_ev,
    {
        self.minimum_effective_ev
    }

    /// The threshold of the side bets.
    pub fn minimum_side_bet_ev(&self) -> (ev: E)
        ensures
            ev == self.minimum_side_bet_ev,
    {
        self.minimum_side_bet_ev
    }

    fn decide_effective(&self, main: EffectiveMainBets<E>) -> (decision: BetDecision<E>)
        ensures
            order::comparable::<E>() ==> decision == self.main_decision(main),
    {
        let candidate: MainBet = main.optimal_effective_bet();
        let metrics: EffectiveBetMetrics<E> = main.effective_metrics(candidate);
        let effective_ev: E = metrics.effective_ev;
        let action: BetAction<E> = if order::has_reached(effective_ev, self.minimum_effective_ev) {
            BetAction::Place { bet: candidate }
        } else {
            BetAction::Skip {
                reason: SkipReason::BelowMinimumEv {
                    effective_ev,
                    minimum_ev: self.minimum_effective_ev,
                },
            }
        };
        BetDecision {
            candidate,
            base_ev: metrics.base_ev,
            rebate_ev: metrics.rebate_ev,
            effective_ev,
            action,
        }
    }

    fn decide_all_effective(
        &self,
        main: EffectiveMainBets<E>,
        side: EffectiveSideBets<E>,
        allowed: [bool; 11],
    ) -> (decision: CombinedBetDecision<E>)
        ensures
            order::comparable::<E>() ==> decision == decided(self.candidates(main, side, allowed@)),
    {
        let candidates: Vec<CandidateMetrics<E>> = self.list_candidates(main, side, allowed);
        let mut best_overall: usize = 0;
        let mut best: Option<usize> = None;
        let mut i: usize = 0;
        let ghost all = candidates@;
        while i < candidates.len()
            invariant
                0 <= i <= candidates.len(),
                candidates@ == all,
                candidates.len() > 0,
                best_overall < candidates.len(),
                best matches Some(b) ==> b < candidates.len(),
                order::comparable::<E>() ==> best_overall == order::first_best(
                    values(all),
                    if i == 0 {
                        1
                    } else {
                        i as int
                    },
                ),
                order::comparable::<E>() ==> match best {
                    Some(b) => best_eligible(all, i as int) == Some(b as int),
                    None => best_eligible(all, i as int) is None,
                },
            decreases candidates.len() - i,
        {
            let candidate: CandidateMetrics<E> = candidates[i];
            proof {
                assert(values(all)[i as int] == candidate.effective_ev);
                assert(values(all)[best_overall as int]
                    == candidates@[best_overall as int].effective_ev);
                reveal_with_fuel(order::first_best, 2);
            }
            if i > 0 && order::is_above(
                candidate.effective_ev,
                candidates[best_overall].effective_ev,
            ) {
                best_overall = i;
            }
            if order::has_reached(candidate.effective_ev, candidate.minimum_ev) {
                let better: bool = match best {
                    Some(b) => order::is_above(
                        candidate.effective_ev,
                        candidates[b].effective_ev,
                    ),
                    None => true,
                };
                if better {
                    best = Some(i);
                }
            }
            i = i + 1;
        }
        match best {
            Some(b) => candidates[b].place(),
            None => candidates[best_overall].skip(),
        }
    }

    fn eligible_effective(
        &self,
        main: EffectiveMainBets<E>,
        side: EffectiveSideBets<E>,
        allowed: [bool; 11],
    ) -> (decisions: Vec<CombinedBetDecision<E>>)
        ensures
            order::comparable::<E>() ==> decisions@ == ranking(
                self.candidates(main, side, allowed@),
                self.candidates(main, side, allowed@).len() as int,
            ).map_values(|i: int| self.candidates(main, side, allowed@)[i].placed()),
    {
        let candidates: Vec<CandidateMetrics<E>> = self.list_candidates(main, side, allowed);
        let ghost all = candidates@;
        let mut ranks: Vec<usize> = Vec::new();
        let mut i: usize = 0;
        while i < candidates.len()
            invariant
                0 <= i <= candidates.len(),
                candidates@ == all,
                forall|k: int| 0 <= k < ranks.len() ==> #[trigger] ranks@[k] < candidates.len(),
                order::comparable::<E>() ==> positions(ranks@) == ranking(all, i as int),
            decreases candidates.len() - i,
        {
            let candidate: CandidateMetrics<E> = candidates[i];
            if order::has_reached(candidate.effective_ev, candidate.minimum_ev) {
                let at: usize = find_slot(&candidates, &ranks, candidate.effective_ev);
                let ghost before = ranks@;
                ranks.insert(at, i);
                proof {
                    assert(positions(ranks@) =~= positions(before).insert(at as int, i as int));
                    assert forall|k: int| 0 <= k < ranks.len() implies #[trigger] ranks@[k]
                        < candidates.len() by {
                        if k < at {
                            assert(ranks@[k] == before[k]);
                        } else if k > at {
                            assert(ranks@[k] == before[k - 1]);
                        }
                    }
                }
            }
            i = i + 1;
        }
        let mut decisions: Vec<CombinedBetDecision<E>> = Vec::new();
        let mut k: usize = 0;
        while k < ranks.len()
            invariant
                0 <= k <= ranks.len(),
                candidates@ == all,
                forall|j: int| 0 <= j < ranks.len() ==> #[trigger] ranks@[j] < candidates.len(),
                decisions@ == Seq::new(k as nat, |j: int| all[ranks@[j] as int].placed()),
            decreases ranks.len() - k,
        {
            decisions.push(candidates[ranks[k]].place());
            k = k + 1;
        }
        proof {
            assert(decisions@ =~= positions(ranks@).map_values(|j: int| all[j].placed()));
        }
        decisions
    }

    fn list_candidates(
        &self,
        main: EffectiveMainBets<E>,
        side: EffectiveSideBets<E>,
        allowed: [bool; 11],
    ) -> (candidates: Vec<CandidateMetrics<E>>)
        ensures
            candidates@ == self.candidates(main, side, allowed@),
            candidates.len() >= 3,
    {
        let mut candidates: Vec<CandidateMetrics<E>> = Vec::new();
        candidates.push(
            CandidateMetrics::new(
                BetTarget::Main(MainBet::Player),
                main.player,
                self.minimum_effective_ev,
            ),
        );
        candidates.push(
            CandidateMetrics::new(
                BetTarget::Main(MainBet::Banker),
                main.banker,
                self.minimum_effective_ev,
            ),
        );
        candidates.push(
            CandidateMetrics::new(
                BetTarget::Main(MainBet::Tie),
                main.tie,
                self.minimum_effective_ev,
            ),
        );
        let ghost first = candidates@;
        let mut i: usize = 0;
        while i < 11
            invariant
                0 <= i <= 11,
                first.len() == 3,
                candidates@ == first + side_candidates(
                    side,
                    allowed@,
                    self.minimum_side_bet_ev,
                    i as int,
                ),
            decreases 11 - i,
        {
            if allowed[i] {
                candidates.push(
                    CandidateMetrics::new(
                        BetTarget::Side(SideBet::ALL[i]),
                        side.metrics[i],
                        self.minimum_side_bet_ev,
                    ),
                );
            }
            i = i + 1;
        }
        proof {
            assert(candidates@ =~= self.candidates(main, side, allowed@));
        }
        candidates
    }
}

impl<E: Number> BettingPolicy<E> {
    /// All bets that analyses tell of, with the rebate of the policy and their thresholds.
    pub open spec fn analyzed_candidates(
        self,
        main: MainBetAnalysis<E>,
        side: SideBetAnalysis<E>,
        allowed: Seq<bool>,
    ) -> Seq<CandidateMetrics<E>> {
        self.candidates(
            ev::all_with_rebate(main, self.rebate),
            ev::all_sides_with_rebate(side, self.rebate),
            allowed,
        )
    }

    /// Decides between the main bets: the best one, with the rebate of the policy, is made when
    /// it reaches the threshold.
    pub fn decide(&self, analysis: MainBetAnalysis<E>) -> (decision: BetDecision<E>)
        requires
            number::arithmetic::<E>(),
        ensures
            decision == self.main_decision(ev::all_with_rebate(analysis, self.rebate)),
    {
        self.decide_effective(analysis.with_rebate(self.rebate))
    }

    /// Decides between all bets: the best of those that reach their thresholds is made.
    pub fn decide_all(
        &self,
        main_analysis: MainBetAnalysis<E>,
        side_analysis: SideBetAnalysis<E>,
    ) -> (decision: CombinedBetDecision<E>)
        requires
            number::arithmetic::<E>(),
        ensures
            decision == decided(
                self.analyzed_candidates(
                    main_analysis,
                    side_analysis,
                    Seq::new(11, |i: int| true),
                ),
            ),
    {
        let allowed: [bool; 11] = [true; 11];
        proof {
            assert(allowed@ =~= Seq::new(11, |i: int| true));
        }
        self.decide_all_with_side_bet_filter(main_analysis, side_analysis, allowed)
    }

    /// Decides between the main bets and the allowed side bets, given in the order of
    /// [`SideBet::ALL`].
    pub fn decide_all_with_side_bet_filter(
        &self,
        main_analysis: MainBetAnalysis<E>,
        side_analysis: SideBetAnalysis<E>,
        allowed: [bool; 11],
    ) -> (decision: CombinedBetDecision<E>)
        requires
            number::arithmetic::<E>(),
        ensures
            decision == decided(
                self.analyzed_candidates(main_analysis, side_analysis, allowed@),
            ),
    {
        self.decide_all_effective(
            main_analysis.with_rebate(self.rebate),
            side_analysis.with_rebate(self.rebate),
            allowed,
        )
    }

    /// Decides to make every eligible bet, from the largest value to the smallest.
    pub fn eligible_all_with_side_bet_filter(
        &self,
        main_analysis: MainBetAnalysis<E>,
        side_analysis: SideBetAnalysis<E>,
        allowed: [bool; 11],
    ) -> (decisions: Vec<CombinedBetDecision<E>>)
        requires
            number::arithmetic::<E>(),
        ensures
            ({
                let candidates = self.analyzed_candidates(main_analysis, side_analysis, allowed@);
                decisions@ == ranking(candidates, candidates.len() as int).map_values(
                    |i: int| candidates[i].placed(),
                )
            }),
    {
        self.eligible_effective(
            main_analysis.with_rebate(self.rebate),
            side_analysis.with_rebate(self.rebate),
            allowed,
        )
    }
}

/// Positions as integers.
pub open spec fn positions(ranks: Seq<usize>) -> Seq<int> {
    ranks.map_values(|rank: usize| rank as int)
}

fn find_slot<E: Copy + PartialOrd>(
    candidates: &Vec<CandidateMetrics<E>>,
    ranks: &Vec<usize>,
    value: E,
) -> (at: usize)
    requires
        forall|k: int| 0 <= k < ranks.len() ==> #[trigger] ranks@[k] < candidates.len(),
    ensures
        at <= ranks.len(),
        order::comparable::<E>() ==> at == slot(candidates@, positions(ranks@), value, 0),
{
    let mut at: usize = 0;
    while at < ranks.len()
        invariant
            at <= ranks.len(),
            forall|k: int| 0 <= k < ranks.len() ==> #[trigger] ranks@[k] < candidates.len(),
            order::comparable::<E>() ==> slot(candidates@, positions(ranks@), value, 0) == slot(
                candidates@,
                positions(ranks@),
                value,
                at as int,
            ),
        decreases ranks.len() - at,
    {
        if order::is_above(value, candidates[ranks[at]].effective_ev) {
            return at;
        }
        at = at + 1;
    }
    at
}

/// A bet is made exactly when some candidate reaches its threshold, and then the one that is
/// made reaches its own: a candidate that misses a stricter threshold blocks no other.
pub proof fn lemma_best_eligible<E: Copy + PartialOrd>(
    candidates: Seq<CandidateMetrics<E>>,
    count: int,
)
    requires
        0 <= count <= candidates.len(),
    ensures
        best_eligible(candidates, count) is None <==> forall|i: int|
            0 <= i < count ==> !(#[trigger] candidates[i]).eligible(),
        best_eligible(candidates, count) matches Some(best) ==> 0 <= best < count
            && candidates[best].eligible(),
    decreases count,
{
    if count > 0 {
        lemma_best_eligible(candidates, count - 1);
        assert(candidates[count - 1].eligible() ==> best_eligible(candidates, count) is Some);
    }
}

/// In a linear order the bet that is made has the largest value of all that reach their
/// thresholds, and a larger one than every such bet before it.
pub proof fn lemma_best_eligible_is_the_maximum<E: Copy + PartialOrd>(
    candidates: Seq<CandidateMetrics<E>>,
    count: int,
    ordered: Set<E>,
)
    requires
        0 <= count <= candidates.len(),
        order::linear(ordered),
        forall|i: int|
            0 <= i < count ==> ordered.contains((#[trigger] candidates[i]).effective_ev),
    ensures
        best_eligible(candidates, count) matches Some(best) ==> {
            &&& 0 <= best < count
            &&& forall|i: int|
                0 <= i < count && (#[trigger] candidates[i]).eligible() ==> !order::above(
                    candidates[i].effective_ev,
                    candidates[best].effective_ev,
                )
            &&& forall|i: int|
                0 <= i < best && (#[trigger] candidates[i]).eligible() ==> order::above(
                    candidates[best].effective_ev,
                    candidates[i].effective_ev,
                )
        },
    decreases count,
{
    if count > 0 {
        lemma_best_eligible(candidates, count - 1);
        lemma_best_eligible_is_the_maximum(candidates, count - 1, ordered);
        let before = best_eligible(candidates, count - 1);
        let last = candidates[count - 1].effective_ev;
        if best_eligible(candidates, count) == Some(count - 1) {
            if before is Some {
                let top = candidates[before->0].effective_ev;
                assert(order::above(last, top));
                assert(!order::above(top, last));
                assert forall|i: int|
                    0 <= i < count - 1 && (#[trigger] candidates[i]).eligible() implies order::above(
                    last,
                    candidates[i].effective_ev,
                ) && !order::above(candidates[i].effective_ev, last) by {
                    assert(!order::above(candidates[i].effective_ev, top));
                    if !order::above(last, candidates[i].effective_ev) {
                        assert(!order::above(last, top));
                    }
                }
            }
            assert(order::above(last, last) ==> !order::above(last, last));
        }
    }
}

proof fn lemma_slot<E: Copy + PartialOrd>(
    candidates: Seq<CandidateMetrics<E>>,
    ranks: Seq<int>,
    value: E,
    from: int,
)
    requires
        0 <= from <= ranks.len(),
    ensures
        from <= slot(candidates, ranks, value, from) <= ranks.len(),
        forall|k: int|
            from <= k < slot(candidates, ranks, value, from) ==> !order::above(
                value,
                candidates[#[trigger] ranks[k]].effective_ev,
            ),
        slot(candidates, ranks, value, from) < ranks.len() ==> order::above(
            value,
            candidates[ranks[slot(candidates, ranks, value, from)]].effective_ev,
        ),
    decreases ranks.len() - from,
{
    if from < ranks.len() && !order::above(value, candidates[ranks[from]].effective_ev) {
        lemma_slot(candidates, ranks, value, from + 1);
    }
}

/// Every candidate that reaches its threshold is made exactly once, and no other is.
pub proof fn lemma_ranking_holds_the_eligible<E: Copy + PartialOrd>(
    candidates: Seq<CandidateMetrics<E>>,
    count: int,
)
    requires
        0 <= count <= candidates.len(),
    ensures
        ranking(candidates, count).len() <= count,
        ranking(candidates, count).no_duplicates(),
        forall|i: int| #[trigger]
            ranking(candidates, count).contains(i) <==> 0 <= i < count
                && candidates[i].eligible(),
    decreases count,
{
    if count > 0 {
        lemma_ranking_holds_the_eligible(candidates, count - 1);
        let before = ranking(candidates, count - 1);
        let now = ranking(candidates, count);
        let last = candidates[count - 1];
        if last.eligible() {
            lemma_slot(candidates, before, last.effective_ev, 0);
            let at = slot(candidates, before, last.effective_ev, 0);
            assert forall|i: int| #[trigger]
                now.contains(i) <==> 0 <= i < count && candidates[i].eligible() by {
                if now.contains(i) {
                    let k = choose|k: int| 0 <= k < now.len() && now[k] == i;
                    if k < at {
                        assert(before[k] == i);
                        assert(before.contains(i));
                    } else if k > at {
                        assert(before[k - 1] == i);
                        assert(before.contains(i));
                    }
                }
                if 0 <= i < count && candidates[i].eligible() {
                    if i == count - 1 {
                        assert(now[at] == i);
                    } else {
                        assert(before.contains(i));
                        let k = choose|k: int| 0 <= k < before.len() && before[k] == i;
                        if k < at {
                            assert(now[k] == i);
                        } else {
                            assert(now[k + 1] == i);
                        }
                    }
                }
            }
            assert(!before.contains(count - 1));
            assert forall|a: int, b: int|
                0 <= a < now.len() && 0 <= b < now.len() && a != b implies now[a] != now[b] by {
                let old_a = if a < at {
                    a
                } else {
                    a - 1
                };
                let old_b = if b < at {
                    b
                } else {
                    b - 1
                };
                if a == at {
                    assert(now[b] == before[old_b]);
                    assert(before.contains(now[b]));
                } else if b == at {
                    assert(now[a] == before[old_a]);
                    assert(before.contains(now[a]));
                } else {
                    assert(now[a] == before[old_a] && now[b] == before[old_b]);
                    assert(old_a != old_b);
                }
            }
        }
    }
}

/// In a linear order the bets that are made come from the largest value to the smallest, and
/// in their own order where several rank alike.
pub proof fn lemma_ranking_descends<E: Copy + PartialOrd>(
    candidates: Seq<CandidateMetrics<E>>,
    count: int,
    ordered: Set<E>,
)
    requires
        0 <= count <= candidates.len(),
        order::linear(ordered),
        forall|i: int|
            0 <= i < count ==> ordered.contains((#[trigger] candidates[i]).effective_ev),
    ensures
        forall|a: int, b: int|
            #![trigger ranking(candidates, count)[a], ranking(candidates, count)[b]]
            0 <= a < b < ranking(candidates, count).len() ==> {
                let first = ranking(candidates, count)[a];
                let second = ranking(candidates, count)[b];
                &&& !order::above(
                    candidates[second].effective_ev,
                    candidates[first].effective_ev,
                )
                &&& order::above(candidates[first].effective_ev, candidates[second].effective_ev)
                    || first < second
            },
    decreases count,
{
    if count > 0 {
        lemma_ranking_descends(candidates, count - 1, ordered);
        lemma_ranking_holds_the_eligible(candidates, count - 1);
        let before = ranking(candidates, count - 1);
        let now = ranking(candidates, count);
        let last = candidates[count - 1];
        if last.eligible() {
            let value = last.effective_ev;
            lemma_slot(candidates, before, value, 0);
            let at = slot(candidates, before, value, 0);
            assert forall|a: int, b: int|
                #![trigger now[a], now[b]]
                0 <= a < b < now.len() implies {
                let first = now[a];
                let second = now[b];
                &&& !order::above(
                    candidates[second].effective_ev,
                    candidates[first].effective_ev,
                )
                &&& order::above(candidates[first].effective_ev, candidates[second].effective_ev)
                    || first < second
            } by {
                let first = candidates[now[a]].effective_ev;
                let second = candidates[now[b]].effective_ev;
                if b < at {
                    assert(now[a] == before[a] && now[b] == before[b]);
                } else if a > at {
                    assert(now[a] == before[a - 1] && now[b] == before[b - 1]);
                } else if b == at {
                    assert(now[a] == before[a]);
                    assert(before.contains(now[a]));
                    assert(!order::above(value, first));
                } else if a == at {
                    assert(now[b] == before[b - 1]);
                    assert(before.contains(before[at]) && before.contains(before[b - 1]));
                    let next = candidates[before[at]].effective_ev;
                    assert(ordered.contains(next) && ordered.contains(second));
                    assert(ordered.contains(value));
                    assert(order::above(value, next));
                    if b - 1 > at {
                        assert(!order::above(second, next));
                        if !order::above(value, second) {
                            assert(!order::above(value, next));
                        }
                    }
                    assert(order::above(value, second));
                    assert(!order::above(second, value));
                } else {
                    assert(now[a] == before[a] && now[b] == before[b - 1]);
                }
            }
        }
    }
}

/// In a linear order the first of the bets that are made is the one that is made alone.
pub proof fn lemma_ranking_starts_with_the_decision<E: Copy + PartialOrd>(
    candidates: Seq<CandidateMetrics<E>>,
    count: int,
    ordered: Set<E>,
)
    requires
        0 <= count <= candidates.len(),
        order::linear(ordered),
        forall|i: int|
            0 <= i < count ==> ordered.contains((#[trigger] candidates[i]).effective_ev),
    ensures
        best_eligible(candidates, count) == if ranking(candidates, count).len() == 0 {
            None
        } else {
            Some(ranking(candidates, count)[0])
        },
    decreases count,
{
    if count > 0 {
        lemma_ranking_starts_with_the_decision(candidates, count - 1, ordered);
        let before = ranking(candidates, count - 1);
        let last = candidates[count - 1];
        if last.eligible() {
            lemma_slot(candidates, before, last.effective_ev, 0);
            reveal_with_fuel(slot, 2);
        }
    }
}

} // verus!
