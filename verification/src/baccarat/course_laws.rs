//! Laws of the rounds of a replay: what their stakes are parts of, which bets they hold, and what
//! their shoes hold.

use vstd::prelude::*;

use crate::baccarat::engine;
use crate::baccarat::engine::{Course, ReplaySetup};
use crate::baccarat::machine;
use crate::baccarat::placing;
use crate::baccarat::plan;
use crate::baccarat::plan::RoundOffer;
use crate::baccarat::rebate::RebateRule;
use crate::baccarat::records::LoadedRound;
use crate::baccarat::risk::{CombinedBetPlan, CombinedBetPlanAction, KellyQuote};
use crate::baccarat::side_bet::SideBet;
use crate::baccarat::strategy;
use crate::baccarat::strategy::{BetTarget, CombinedBetDecision};
use crate::baccarat::totals;
use crate::card::Card;
use crate::exact;
use crate::exact::exact;
use crate::number;
use crate::number::Number;
use crate::order;
use crate::scale::Scale;
use crate::shoe;

verus! {

proof fn lemma_scaled_quote<E: Number>(
    value: spec_fn(E) -> real,
    quote: KellyQuote<E>,
    factor: E,
    bankroll: E,
)
    requires
        exact(value),
        value(quote.applied_fraction) * value(bankroll) == value(quote.amount),
    ensures
        value(quote.scaled(factor).applied_fraction) * value(bankroll) == value(
            quote.scaled(factor).amount,
        ),
{
    let a = value(quote.applied_fraction);
    let f = value(factor);
    let b = value(bankroll);
    exact::lemma_factors(a, f, b);
    exact::lemma_substitute(a * b, value(quote.amount), f);
}

/// The stake of every plan of a round is the shown part of the bankroll of that round: what was
/// there at the start and all that was won and lost since.
pub proof fn lemma_stakes_are_parts_of_the_bankroll_so_far<E: Number, F: Fn(E) -> E>(
    value: spec_fn(E) -> real,
    setup: ReplaySetup<E>,
    scale: Scale<E>,
    course: Course,
    initial: E,
    root: F,
    run: Seq<Seq<CombinedBetPlan<E>>>,
    k: int,
    i: int,
)
    requires
        exact(value),
        value(scale.zero) == 0 as real,
        engine::is_run(setup, scale, course, initial, root, run),
        0 <= k < run.len(),
        15 * k + 15 < u64::MAX,
        0 <= i < run[k].len(),
        run[k][i].quote is Some,
    ensures
        ({
            let quote = run[k][i].quote->0;
            let bets = totals::bets_of(engine::all_records(setup, course, initial, run, k));
            let bankroll = value(initial) + totals::sum_over(bets, totals::profit_of(value));
            &&& bankroll > 0 as real
            &&& value(quote.applied_fraction) * bankroll == value(quote.amount)
        }),
{
    totals::lemma_books_tell_of_the_bets(value, setup, scale, course, initial, root, run, k);
    let bankroll = engine::account_after(setup, course, initial, run, k).bankroll.current;
    assert(engine::is_step(setup, scale, course, initial, root, run, k));
    reveal(engine::is_step);
    reveal(engine::planned);
    let allowed = setup.allowed(course.row(k).round_no);
    let offer = choose|offer: RoundOffer<E>|
        {
            &&& #[trigger] setup.offers(course.shoe(k), offer)
            &&& engine::round_plan_error(setup, scale, offer, allowed, bankroll) is None
            &&& engine::are_round_plans(setup, scale, offer, allowed, bankroll, root, run[k])
        };
    let rebate = setup.betting.rebate;
    let eligible = plan::eligible_decisions(offer, setup.betting, allowed);
    let single = strategy::decided(offer.candidates(setup.betting, allowed));
    lemma_first_error(scale, offer, rebate, eligible, bankroll);
    assert(scale.positive(bankroll));
    assert(order::above(bankroll, scale.zero) <==> value(bankroll) > 0 as real);
    if setup.multiple && eligible.len() > 0 {
        let quoted = choose|quoted: Seq<CombinedBetPlan<E>>|
            plan::are_plans(
                setup.kelly,
                scale,
                offer,
                rebate,
                eligible,
                bankroll,
                root,
                quoted,
            ) && run[k] == #[trigger] plan::shared(setup.kelly, quoted, bankroll);
        let factor = plan::common_factor(setup.kelly, quoted, bankroll);
        assert(run[k][i] == quoted[i].with_factor(factor));
        assert(plan::is_plan(
            setup.kelly,
            scale,
            eligible[i],
            offer.outcomes(rebate, eligible[i].candidate),
            bankroll,
            root,
            quoted[i],
        ));
        let quote = quoted[i].quote->0;
        assert(value(number::quotient(quote.amount, bankroll)) * value(bankroll) == value(
            quote.amount,
        ));
        lemma_scaled_quote(value, quote, factor, bankroll);
    } else {
        let quote = run[k][i].quote->0;
        assert(value(number::quotient(quote.amount, bankroll)) * value(bankroll) == value(
            quote.amount,
        ));
    }
}

proof fn lemma_first_error<E: Number>(
    scale: Scale<E>,
    offer: RoundOffer<E>,
    rebate: RebateRule<E>,
    decisions: Seq<CombinedBetDecision<E>>,
    bankroll: E,
)
    ensures
        plan::first_plan_error(
            scale,
            offer,
            rebate,
            decisions,
            bankroll,
            decisions.len() as int,
        ) is None ==> scale.positive(bankroll),
{
}

/// Whether a bet may be made in a round and is worth what it has to be.
pub open spec fn fits_round<E: Number>(
    value: spec_fn(E) -> real,
    setup: ReplaySetup<E>,
    round_no: u32,
    bet: BetTarget,
    worth: E,
) -> bool {
    match bet {
        BetTarget::Main(_) => value(worth) >= value(setup.betting.minimum_effective_ev),
        BetTarget::Side(side) => value(worth) >= value(setup.betting.minimum_side_bet_ev) && (
        setup.limits.of(side) == 0 || round_no <= setup.limits.of(side)),
    }
}

proof fn lemma_candidate_fits<E: Number>(
    value: spec_fn(E) -> real,
    setup: ReplaySetup<E>,
    offer: RoundOffer<E>,
    round_no: u32,
    at: int,
)
    requires
        exact(value),
        0 <= at < offer.candidates(setup.betting, setup.allowed(round_no)).len(),
        offer.candidates(setup.betting, setup.allowed(round_no))[at].eligible(),
    ensures
        ({
            let candidate = offer.candidates(setup.betting, setup.allowed(round_no))[at];
            fits_round(value, setup, round_no, candidate.target, candidate.effective_ev)
        }),
{
    let allowed = setup.allowed(round_no);
    let candidates = offer.candidates(setup.betting, allowed);
    let side = offer.side_bets(setup.betting.rebate);
    let minimum = setup.betting.minimum_side_bet_ev;
    let candidate = candidates[at];
    assert(order::reaches(candidate.effective_ev, candidate.minimum_ev) <==> value(
        candidate.effective_ev,
    ) >= value(candidate.minimum_ev));
    if at >= 3 {
        assert(candidate == strategy::side_candidates(side, allowed, minimum, 11)[at - 3]);
        let j = placing::lemma_bet_of(side, allowed, minimum, 11, at - 3);
        assert(allowed[j] == setup.limits.permits(SideBet::ALL@[j], round_no));
    }
}

/// Every bet of a replay is worth its threshold, that of the main bets or that of the side bets, and
/// no side bet is made in a round after its limit.
pub proof fn lemma_bets_fit_their_rounds<E: Number, F: Fn(E) -> E>(
    value: spec_fn(E) -> real,
    setup: ReplaySetup<E>,
    scale: Scale<E>,
    course: Course,
    initial: E,
    root: F,
    run: Seq<Seq<CombinedBetPlan<E>>>,
    k: int,
    i: int,
)
    requires
        exact(value),
        engine::is_run(setup, scale, course, initial, root, run),
        0 <= k < run.len(),
        0 <= i < run[k].len(),
    ensures
        run[k][i].action matches CombinedBetPlanAction::Place { bet, .. } ==> fits_round(
            value,
            setup,
            course.row(k).round_no,
            bet,
            run[k][i].decision.effective_ev,
        ) && run[k][i].decision.candidate == bet,
{
    let bankroll = engine::account_after(setup, course, initial, run, k).bankroll.current;
    assert(engine::is_step(setup, scale, course, initial, root, run, k));
    reveal(engine::is_step);
    reveal(engine::planned);
    let round_no = course.row(k).round_no;
    let allowed = setup.allowed(round_no);
    let offer = choose|offer: RoundOffer<E>|
        {
            &&& #[trigger] setup.offers(course.shoe(k), offer)
            &&& engine::round_plan_error(setup, scale, offer, allowed, bankroll) is None
            &&& engine::are_round_plans(setup, scale, offer, allowed, bankroll, root, run[k])
        };
    let rebate = setup.betting.rebate;
    let candidates = offer.candidates(setup.betting, allowed);
    let n = candidates.len() as int;
    let eligible = plan::eligible_decisions(offer, setup.betting, allowed);
    if run[k][i].action is Place {
        if setup.multiple && eligible.len() > 0 {
            let quoted = choose|quoted: Seq<CombinedBetPlan<E>>|
                plan::are_plans(
                    setup.kelly,
                    scale,
                    offer,
                    rebate,
                    eligible,
                    bankroll,
                    root,
                    quoted,
                ) && run[k] == #[trigger] plan::shared(setup.kelly, quoted, bankroll);
            let factor = plan::common_factor(setup.kelly, quoted, bankroll);
            assert(run[k][i] == quoted[i].with_factor(factor));
            assert(plan::is_plan(
                setup.kelly,
                scale,
                eligible[i],
                offer.outcomes(rebate, eligible[i].candidate),
                bankroll,
                root,
                quoted[i],
            ));
            let ranks = strategy::ranking(candidates, n);
            strategy::lemma_ranking_holds_the_eligible(candidates, n);
            assert(ranks.contains(ranks[i]));
            assert(eligible[i] == candidates[ranks[i]].placed());
            lemma_candidate_fits(value, setup, offer, round_no, ranks[i]);
        } else {
            strategy::lemma_best_eligible(candidates, n);
            let best = strategy::best_eligible(candidates, n)->0;
            lemma_candidate_fits(value, setup, offer, round_no, best);
        }
    }
}

/// The number of cards that the first rounds of a replay dealt from a shoe.
pub open spec fn dealt_before(
    rounds: Seq<LoadedRound>,
    order: Seq<usize>,
    slots: Seq<usize>,
    n: int,
    slot: int,
) -> nat
    decreases n,
{
    if n <= 0 {
        0
    } else {
        dealt_before(rounds, order, slots, n - 1, slot) + if slots[n - 1] == slot {
            machine::cards_of(rounds[order[n - 1] as int]).len()
        } else {
            0
        }
    }
}

proof fn lemma_consumed_length(
    rounds: Seq<LoadedRound>,
    order: Seq<usize>,
    slots: Seq<usize>,
    n: int,
    slot: int,
)
    ensures
        machine::consumed(rounds, order, slots, n, slot).len() == dealt_before(
            rounds,
            order,
            slots,
            n,
            slot,
        ),
    decreases n,
{
    if n > 0 {
        lemma_consumed_length(rounds, order, slots, n - 1, slot);
    }
}

/// Before a round its shoe holds what a full shoe holds, fifty-two cards for every deck, less the
/// cards of the earlier rounds from the same shoe.
pub proof fn lemma_shoes_hold_what_was_not_dealt(course: Course, k: int)
    requires
        0 <= k < course.slots.len(),
        1 <= course.decks <= 8,
        shoe::full_shoe(course.decks).holds(
            machine::consumed(course.rounds, course.order, course.slots, k, course.slots[k] as int),
        ),
    ensures
        course.shoe(k).total() + dealt_before(
            course.rounds,
            course.order,
            course.slots,
            k,
            course.slots[k] as int,
        ) == 52 * course.decks,
{
    let slot = course.slots[k] as int;
    let cards: Seq<Card> = machine::consumed(
        course.rounds,
        course.order,
        course.slots,
        k,
        slot,
    );
    lemma_consumed_length(course.rounds, course.order, course.slots, k, slot);
    shoe::lemma_full_shoe_total(course.decks);
    shoe::lemma_remove_many_total(shoe::full_shoe(course.decks), cards);
}

} // verus!
