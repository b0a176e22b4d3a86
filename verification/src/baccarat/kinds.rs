//! Laws of the performance of each kind of bet in a replay, where numbers are exact.

use vstd::prelude::*;

use crate::baccarat::account;
use crate::baccarat::account::{item_of, PlacedBet, ReplayAccount};
use crate::baccarat::engine;
use crate::baccarat::engine::{Course, ReplayOutcome, ReplaySetup};
use crate::baccarat::ledger::{CsvBetBreakdown, CsvBetPerformance};
use crate::baccarat::risk::CombinedBetPlan;
use crate::baccarat::strategy::BetTarget;
use crate::baccarat::totals;
use crate::baccarat::totals::{bets_of, count_of, sum_over};
use crate::card::Card;
use crate::exact::exact;
use crate::number;
use crate::number::Number;
use crate::order;
use crate::scale::Scale;

verus! {

/// What a bet of a kind won without its rebate; nothing for another bet.
pub open spec fn base_of_kind<E>(value: spec_fn(E) -> real, kind: BetTarget) -> spec_fn(
    PlacedBet<E>,
) -> real {
    |bet: PlacedBet<E>|
        if bet.bet == kind {
            value(bet.base_game_profit)
        } else {
            0 as real
        }
}

/// What a bet of a kind won with its rebate; nothing for another bet.
pub open spec fn profit_of_kind<E>(value: spec_fn(E) -> real, kind: BetTarget) -> spec_fn(
    PlacedBet<E>,
) -> real {
    |bet: PlacedBet<E>|
        if bet.bet == kind {
            value(bet.base_game_profit) + value(bet.rebate_income)
        } else {
            0 as real
        }
}

/// The stake of a bet of a kind; nothing for another bet.
pub open spec fn stake_of_kind<E>(value: spec_fn(E) -> real, kind: BetTarget) -> spec_fn(
    PlacedBet<E>,
) -> real {
    |bet: PlacedBet<E>|
        if bet.bet == kind {
            value(bet.amount)
        } else {
            0 as real
        }
}

/// The number itself where it is positive, and nothing otherwise.
pub open spec fn gain<E>(number: spec_fn(PlacedBet<E>) -> real) -> spec_fn(PlacedBet<E>) -> real {
    |bet: PlacedBet<E>|
        if number(bet) > 0 as real {
            number(bet)
        } else {
            0 as real
        }
}

/// The amount by which a number is below zero, and nothing where it is not.
pub open spec fn loss<E>(number: spec_fn(PlacedBet<E>) -> real) -> spec_fn(PlacedBet<E>) -> real {
    |bet: PlacedBet<E>|
        if number(bet) < 0 as real {
            -number(bet)
        } else {
            0 as real
        }
}

/// The bets of a kind that won, lost or came back, as the sign says.
pub open spec fn kind_with_sign<E>(
    value: spec_fn(E) -> real,
    kind: BetTarget,
    sign: int,
) -> spec_fn(PlacedBet<E>) -> bool {
    |bet: PlacedBet<E>|
        bet.bet == kind && if sign > 0 {
            value(bet.base_game_profit) > 0 as real
        } else if sign < 0 {
            value(bet.base_game_profit) < 0 as real
        } else {
            value(bet.base_game_profit) == 0 as real
        }
}

/// What a performance says of the bets of its kind: how many there are and how many won, lost and
/// came back, their stakes, what they won with and without rebates, and the gains and the losses
/// apart.
pub open spec fn performance_tells<E: Number>(
    value: spec_fn(E) -> real,
    shown: CsvBetPerformance<E>,
    kind: BetTarget,
    bets: Seq<PlacedBet<E>>,
) -> bool {
    let profit = profit_of_kind(value, kind);
    let base = base_of_kind(value, kind);
    &&& shown.count == count_of(bets, totals::of_kind(kind))
    &&& shown.win_count == count_of(bets, kind_with_sign(value, kind, 1))
    &&& shown.loss_count == count_of(bets, kind_with_sign(value, kind, -1))
    &&& shown.push_count == count_of(bets, kind_with_sign(value, kind, 0))
    &&& value(shown.total_stake) == sum_over(bets, stake_of_kind(value, kind))
    &&& value(shown.total_profit) == sum_over(bets, profit)
    &&& value(shown.gross_profit) == sum_over(bets, gain(profit))
    &&& value(shown.gross_loss) == sum_over(bets, loss(profit))
    &&& value(shown.base_gross_profit) == sum_over(bets, gain(base))
    &&& value(shown.base_gross_loss) == sum_over(bets, loss(base))
}

proof fn lemma_one_more_of_a_kind<E: Number>(
    value: spec_fn(E) -> real,
    breakdown: CsvBetBreakdown<E>,
    made: PlacedBet<E>,
    kind: BetTarget,
    bets: Seq<PlacedBet<E>>,
)
    requires
        exact(value),
        performance_tells(value, breakdown.of(kind), kind, bets),
        breakdown.of(kind).count < u64::MAX,
        breakdown.of(kind).reconciles(),
    ensures
        performance_tells(
            value,
            breakdown.with_bet(
                made.bet,
                made.amount,
                made.base_game_profit,
                made.rebate_income,
                number::small::<E>(0),
            ).of(kind),
            kind,
            bets.push(made),
        ),
{
    let zero = number::small::<E>(0);
    let base = made.base_game_profit;
    let rebate = made.rebate_income;
    let after = breakdown.with_bet(made.bet, made.amount, base, rebate, zero);
    account::lemma_one_item_changes(breakdown, made.bet, made.amount, base, rebate, zero);
    account::lemma_item(breakdown, kind);
    account::lemma_item(after, kind);
    let more = bets.push(made);
    assert(more.drop_last() =~= bets);
    assert(more.last() == made);
    if item_of(kind) == item_of(made.bet) {
        assert(kind == made.bet);
        let before = breakdown.of(kind);
        let shown = before.with_bet(made.amount, base, rebate, zero);
        assert(after.of(kind) == shown);
        let actual = number::sum(base, rebate);
        assert(order::above(base, zero) <==> value(base) > 0 as real);
        assert(order::above(zero, base) <==> value(base) < 0 as real);
        assert(order::above(actual, zero) <==> value(actual) > 0 as real);
        assert(order::above(zero, actual) <==> value(actual) < 0 as real);
        assert(shown.total_stake == number::sum(before.total_stake, made.amount));
        assert(shown.total_profit == number::sum(before.total_profit, actual));
        let owed = number::difference(zero, actual);
        let lost = number::difference(zero, base);
        assert(value(number::sum(before.gross_profit, actual)) == value(before.gross_profit)
            + value(actual));
        assert(value(number::sum(before.gross_loss, owed)) == value(before.gross_loss) + value(
            owed,
        ));
        assert(value(number::sum(before.base_gross_profit, base)) == value(
            before.base_gross_profit,
        ) + value(base));
        assert(value(number::sum(before.base_gross_loss, lost)) == value(before.base_gross_loss)
            + value(lost));
    } else {
        assert(after.of(kind) == breakdown.of(kind));
    }
}

proof fn lemma_kind_in_round<E: Number>(
    value: spec_fn(E) -> real,
    setup: ReplaySetup<E>,
    cards: Seq<Card>,
    plans: Seq<CombinedBetPlan<E>>,
    account: ReplayAccount<E>,
    kind: BetTarget,
    earlier: Seq<PlacedBet<E>>,
    limit: int,
    n: int,
)
    requires
        exact(value),
        0 <= n,
        0 <= limit,
        account.within(limit),
        limit + n < u64::MAX,
        performance_tells(value, account.breakdown.of(kind), kind, earlier),
    ensures
        engine::booked(setup, cards, plans, account, n).within(limit + n),
        performance_tells(
            value,
            engine::booked(setup, cards, plans, account, n).breakdown.of(kind),
            kind,
            earlier + engine::all_made(setup, cards, plans, n),
        ),
    decreases n,
{
    if n > 0 {
        lemma_kind_in_round(value, setup, cards, plans, account, kind, earlier, limit, n - 1);
        let before = engine::booked(setup, cards, plans, account, n - 1);
        let bets = earlier + engine::all_made(setup, cards, plans, n - 1);
        let placed = engine::made(setup, cards, plans[n - 1]);
        account::lemma_plan_stays_within(before, placed, limit + n - 1);
        assert(before.breakdown.of(kind).count <= limit + n - 1);
        assert(before.breakdown.of(kind).reconciles());
        if let Some(made) = placed {
            lemma_one_more_of_a_kind(value, before.breakdown, made, kind, bets);
            assert(earlier + engine::all_made(setup, cards, plans, n) =~= bets.push(made));
        } else {
            assert(earlier + engine::all_made(setup, cards, plans, n) =~= bets);
        }
    } else {
        assert(earlier + engine::all_made(setup, cards, plans, 0) =~= earlier);
    }
}

/// After any number of rounds the performance of each kind of bet says what the reported bets of
/// that kind add up to.
pub proof fn lemma_performances_tell_of_their_bets<E: Number, F: Fn(E) -> E>(
    value: spec_fn(E) -> real,
    setup: ReplaySetup<E>,
    scale: Scale<E>,
    course: Course,
    initial: E,
    root: F,
    run: Seq<Seq<CombinedBetPlan<E>>>,
    kind: BetTarget,
    n: int,
)
    requires
        exact(value),
        engine::is_run(setup, scale, course, initial, root, run),
        0 <= n <= run.len(),
        15 * n + 15 < u64::MAX,
    ensures
        performance_tells(
            value,
            engine::account_after(setup, course, initial, run, n).breakdown.of(kind),
            kind,
            bets_of(engine::all_records(setup, course, initial, run, n)),
        ),
    decreases n,
{
    if n > 0 {
        lemma_performances_tell_of_their_bets(
            value,
            setup,
            scale,
            course,
            initial,
            root,
            run,
            kind,
            n - 1,
        );
        engine::lemma_every_bet_is_reported(setup, scale, course, initial, root, run, n - 1);
        engine::lemma_rounds_have_few_plans(setup, scale, course, initial, root, run, n - 1);
        let before = engine::account_after(setup, course, initial, run, n - 1);
        let plans = run[n - 1];
        let noted = before.with_candidate(plans[0].decision);
        account::lemma_candidate_stays_within(before, plans[0].decision, 15 * (n - 1));
        lemma_kind_in_round(
            value,
            setup,
            course.cards(n - 1),
            plans,
            noted,
            kind,
            bets_of(engine::all_records(setup, course, initial, run, n - 1)),
            15 * (n - 1) + 1,
            plans.len() as int,
        );
        totals::lemma_more_records(setup, course, initial, run, n);
        reveal(engine::after_round);
    } else {
        assert(bets_of(engine::all_records(setup, course, initial, run, 0)) =~= Seq::empty());
        let nothing = CsvBetBreakdown::<E>::nothing(number::small::<E>(0));
        assert(nothing.of(kind) == CsvBetPerformance::nothing(number::small::<E>(0)));
    }
}

/// The summary of a replay shows for each kind of bet what its reported bets add up to.
pub proof fn lemma_the_summary_tells_of_each_kind<E: Number, F: Fn(E) -> E>(
    value: spec_fn(E) -> real,
    report: ReplayOutcome<E>,
    setup: ReplaySetup<E>,
    scale: Scale<E>,
    course: Course,
    initial: E,
    root: F,
    run: Seq<Seq<CombinedBetPlan<E>>>,
    kind: BetTarget,
)
    requires
        exact(value),
        engine::is_run(setup, scale, course, initial, root, run),
        engine::is_report(report, setup, course, initial, run),
        15 * run.len() + 15 < u64::MAX,
    ensures
        ({
            let bets = bets_of(
                engine::all_records(setup, course, initial, run, run.len() as int),
            );
            &&& performance_tells(value, report.summary.bet_breakdown.of(kind), kind, bets)
            &&& report.summary.placed_bets.of(kind) == count_of(bets, totals::of_kind(kind))
        }),
{
    let n = run.len() as int;
    lemma_performances_tell_of_their_bets(
        value,
        setup,
        scale,
        course,
        initial,
        root,
        run,
        kind,
        n,
    );
    totals::lemma_books_tell_of_the_bets(value, setup, scale, course, initial, root, run, n);
    let books = engine::account_after(setup, course, initial, run, n);
    assert(books.tally.placed_bets.of(kind) == count_of(
        bets_of(engine::all_records(setup, course, initial, run, n)),
        totals::of_kind(kind),
    ));
}

} // verus!
