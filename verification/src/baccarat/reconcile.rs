//! Laws of a whole replay: where sums are exact, the parts of its books add up to their totals;
//! the bankroll keeps within its range; and every row is replayed or left out.

use vstd::prelude::*;

use crate::baccarat::account;
use crate::baccarat::account::{item_of, number_sum, PlacedBet, ReplayAccount};
use crate::baccarat::engine;
use crate::baccarat::engine::{Course, CsvReplaySummary, ReplayOutcome, ReplaySetup, ReplayStop};
use crate::baccarat::ledger::{CsvBetBreakdown, CsvBetPerformance};
use crate::baccarat::load;
use crate::baccarat::load::LoadedRounds;
use crate::baccarat::records::CsvRound;
use crate::baccarat::replay::CsvReplayConfig;
use crate::baccarat::risk::CombinedBetPlan;
use crate::baccarat::schedule;
use crate::baccarat::schedule::Schedule;
use crate::card::Card;
use crate::number;
use crate::number::Number;
use crate::order;
use crate::scale::Scale;

verus! {

/// The stakes of all kinds of bets together.
pub open spec fn stakes<E: Number>(breakdown: CsvBetBreakdown<E>) -> E {
    number_sum(breakdown.items().map_values(|item: CsvBetPerformance<E>| item.total_stake), 14)
}

/// The profits and losses of all kinds of bets together.
pub open spec fn profits<E: Number>(breakdown: CsvBetBreakdown<E>) -> E {
    number_sum(breakdown.items().map_values(|item: CsvBetPerformance<E>| item.total_profit), 14)
}

/// The profits of the bets that gained, of all kinds together.
pub open spec fn gains<E: Number>(breakdown: CsvBetBreakdown<E>) -> E {
    number_sum(breakdown.items().map_values(|item: CsvBetPerformance<E>| item.gross_profit), 14)
}

/// The losses of the bets that lost, of all kinds together.
pub open spec fn losses<E: Number>(breakdown: CsvBetBreakdown<E>) -> E {
    number_sum(breakdown.items().map_values(|item: CsvBetPerformance<E>| item.gross_loss), 14)
}

/// The profits of the bets that gained, without rebates.
pub open spec fn base_gains<E: Number>(breakdown: CsvBetBreakdown<E>) -> E {
    number_sum(
        breakdown.items().map_values(|item: CsvBetPerformance<E>| item.base_gross_profit),
        14,
    )
}

/// The losses of the bets that lost, without rebates.
pub open spec fn base_losses<E: Number>(breakdown: CsvBetBreakdown<E>) -> E {
    number_sum(
        breakdown.items().map_values(|item: CsvBetPerformance<E>| item.base_gross_loss),
        14,
    )
}

/// The profits of the games and the rebates together.
pub open spec fn income<E: Number>(account: ReplayAccount<E>) -> E {
    number::sum(account.base_game_profit, account.rebate_income)
}

/// Whether the kinds of bets add up to the totals of the books.
pub open spec fn parts_add_up<E: Number>(account: ReplayAccount<E>) -> bool {
    let parts = account.breakdown;
    &&& stakes(parts) == account.total_stake
    &&& profits(parts) == income(account)
    &&& number::difference(gains(parts), losses(parts)) == income(account)
    &&& number::difference(base_gains(parts), base_losses(parts)) == account.base_game_profit
}

proof fn lemma_part_grows<E: Number>(
    items: Seq<CsvBetPerformance<E>>,
    j: int,
    item: CsvBetPerformance<E>,
    part: spec_fn(CsvBetPerformance<E>) -> E,
    x: E,
    n: int,
)
    requires
        number::exact_sums::<E>(),
        0 <= j < items.len(),
        0 <= n <= items.len(),
        part(item) == number::sum(part(items[j]), x),
    ensures
        number_sum(items.update(j, item).map_values(part), n) == if j < n {
            number::sum(number_sum(items.map_values(part), n), x)
        } else {
            number_sum(items.map_values(part), n)
        },
    decreases n,
{
    if n > 0 {
        lemma_part_grows(items, j, item, part, x, n - 1);
        let before = number_sum(items.map_values(part), n - 1);
        if j == n - 1 {
            number::lemma_sums_swap(before, part(items[j]), x);
        } else if j < n - 1 {
            number::lemma_sums_swap(before, x, part(items[n - 1]));
        }
    }
}

proof fn lemma_part_stays<E: Number>(
    items: Seq<CsvBetPerformance<E>>,
    j: int,
    item: CsvBetPerformance<E>,
    part: spec_fn(CsvBetPerformance<E>) -> E,
)
    requires
        0 <= j < items.len(),
        part(item) == part(items[j]),
    ensures
        items.update(j, item).map_values(part) == items.map_values(part),
{
    assert(items.update(j, item).map_values(part) =~= items.map_values(part));
}

proof fn lemma_alike<E: Number>(a: E, b: E)
    requires
        number::exact_sums::<E>(),
        !order::above(a, b),
        !order::above(b, a),
    ensures
        a == b,
{
    reveal(number::alike_is_equal);
}

/// What one more bet does to the sums over all kinds of bets.
proof fn lemma_parts_with_bet<E: Number>(
    before: CsvBetBreakdown<E>,
    after: CsvBetBreakdown<E>,
    made: PlacedBet<E>,
)
    requires
        number::exact_sums::<E>(),
        after == before.with_bet(
            made.bet,
            made.amount,
            made.base_game_profit,
            made.rebate_income,
            number::small::<E>(0),
        ),
    ensures
        stakes(after) == number::sum(stakes(before), made.amount),
        profits(after) == number::sum(
            profits(before),
            number::sum(made.base_game_profit, made.rebate_income),
        ),
        number::difference(gains(after), losses(after)) == number::sum(
            number::difference(gains(before), losses(before)),
            number::sum(made.base_game_profit, made.rebate_income),
        ),
        number::difference(base_gains(after), base_losses(after)) == number::sum(
            number::difference(base_gains(before), base_losses(before)),
            made.base_game_profit,
        ),
{
    let zero = number::small::<E>(0);
    let base = made.base_game_profit;
    let rebate = made.rebate_income;
    let actual = number::sum(base, rebate);
    let items = before.items();
    let j = item_of(made.bet);
    let old_item = before.of(made.bet);
    let item = old_item.with_bet(made.amount, base, rebate, zero);
    account::lemma_one_item_changes(before, made.bet, made.amount, base, rebate, zero);
    let stake = |item: CsvBetPerformance<E>| item.total_stake;
    let profit = |item: CsvBetPerformance<E>| item.total_profit;
    let gain = |item: CsvBetPerformance<E>| item.gross_profit;
    let loss = |item: CsvBetPerformance<E>| item.gross_loss;
    let base_gain = |item: CsvBetPerformance<E>| item.base_gross_profit;
    let base_loss = |item: CsvBetPerformance<E>| item.base_gross_loss;
    lemma_part_grows(items, j, item, stake, made.amount, 14);
    lemma_part_grows(items, j, item, profit, actual, 14);
    number::lemma_difference_grows(gains(before), losses(before), actual);
    number::lemma_difference_grows(base_gains(before), base_losses(before), base);
    number::lemma_difference_undoes(number::difference(gains(before), losses(before)), zero);
    number::lemma_difference_undoes(
        number::difference(base_gains(before), base_losses(before)),
        zero,
    );
    if order::above(actual, zero) {
        lemma_part_grows(items, j, item, gain, actual, 14);
        lemma_part_stays(items, j, item, loss);
    } else if order::above(zero, actual) {
        lemma_part_stays(items, j, item, gain);
        lemma_part_grows(items, j, item, loss, number::difference(zero, actual), 14);
    } else {
        lemma_alike(actual, zero);
        lemma_part_stays(items, j, item, gain);
        lemma_part_stays(items, j, item, loss);
    }
    if order::above(base, zero) {
        lemma_part_grows(items, j, item, base_gain, base, 14);
        lemma_part_stays(items, j, item, base_loss);
    } else if order::above(zero, base) {
        lemma_part_stays(items, j, item, base_gain);
        lemma_part_grows(items, j, item, base_loss, number::difference(zero, base), 14);
    } else {
        lemma_alike(base, zero);
        lemma_part_stays(items, j, item, base_gain);
        lemma_part_stays(items, j, item, base_loss);
    }
}

proof fn lemma_nothing_adds_up<E: Number>(initial: E)
    requires
        number::exact_sums::<E>(),
    ensures
        parts_add_up(ReplayAccount::start(initial)),
        income(ReplayAccount::start(initial)) == number::small::<E>(0),
{
    let zero = number::small::<E>(0);
    let parts = CsvBetBreakdown::<E>::nothing(zero);
    number::lemma_difference_undoes(zero, zero);
    lemma_zeros_add_up(
        parts.items().map_values(|item: CsvBetPerformance<E>| item.total_stake),
        14,
    );
    lemma_zeros_add_up(
        parts.items().map_values(|item: CsvBetPerformance<E>| item.total_profit),
        14,
    );
    lemma_zeros_add_up(
        parts.items().map_values(|item: CsvBetPerformance<E>| item.gross_profit),
        14,
    );
    lemma_zeros_add_up(
        parts.items().map_values(|item: CsvBetPerformance<E>| item.gross_loss),
        14,
    );
    lemma_zeros_add_up(
        parts.items().map_values(|item: CsvBetPerformance<E>| item.base_gross_profit),
        14,
    );
    lemma_zeros_add_up(
        parts.items().map_values(|item: CsvBetPerformance<E>| item.base_gross_loss),
        14,
    );
}

proof fn lemma_zeros_add_up<E: Number>(items: Seq<E>, n: int)
    requires
        number::exact_sums::<E>(),
        0 <= n <= items.len(),
        forall|i: int| 0 <= i < items.len() ==> #[trigger] items[i] == number::small::<E>(0),
    ensures
        number_sum(items, n) == number::small::<E>(0),
    decreases n,
{
    if n > 0 {
        lemma_zeros_add_up(items, n - 1);
        number::lemma_difference_undoes(number::small::<E>(0), number::small::<E>(0));
    }
}

proof fn lemma_plan_keeps_the_parts<E: Number>(
    account: ReplayAccount<E>,
    placed: Option<PlacedBet<E>>,
)
    requires
        number::exact_sums::<E>(),
        parts_add_up(account),
    ensures
        parts_add_up(account.with_plan(placed)),
        income(account.with_plan(placed)) == match placed {
            Some(made) => number::sum(
                income(account),
                number::sum(made.base_game_profit, made.rebate_income),
            ),
            None => income(account),
        },
{
    if let Some(made) = placed {
        lemma_parts_with_bet(account.breakdown, account.with_plan(placed).breakdown, made);
        number::lemma_sums_cross(
            account.base_game_profit,
            account.rebate_income,
            made.base_game_profit,
            made.rebate_income,
        );
    }
}

proof fn lemma_round_keeps_the_parts<E: Number>(
    setup: ReplaySetup<E>,
    cards: Seq<Card>,
    plans: Seq<CombinedBetPlan<E>>,
    account: ReplayAccount<E>,
    n: int,
)
    requires
        number::exact_sums::<E>(),
        parts_add_up(account),
        0 <= n,
    ensures
        ({
            let after = engine::booked(setup, cards, plans, account, n);
            &&& parts_add_up(after)
            &&& income(after) == number::sum(
                income(account),
                engine::profit_sum(engine::all_made(setup, cards, plans, n)),
            )
            &&& after.bankroll.current == account.bankroll.current
            &&& after.bankroll.initial == account.bankroll.initial
        }),
    decreases n,
{
    number::lemma_difference_undoes(income(account), income(account));
    if n > 0 {
        lemma_round_keeps_the_parts(setup, cards, plans, account, n - 1);
        let before = engine::booked(setup, cards, plans, account, n - 1);
        let bets = engine::all_made(setup, cards, plans, n - 1);
        let placed = engine::made(setup, cards, plans[n - 1]);
        lemma_plan_keeps_the_parts(before, placed);
        if let Some(made) = placed {
            assert(bets.push(made).drop_last() =~= bets);
            number::lemma_sums_swap(
                income(account),
                engine::profit_sum(bets),
                made.actual_profit,
            );
        }
    }
}

/// Where sums are exact, after any number of rounds the bankroll is the first one with the
/// profits of the games and the rebates, and the kinds of bets add up to the totals.
pub proof fn lemma_books_add_up<E: Number>(
    setup: ReplaySetup<E>,
    course: Course,
    initial: E,
    run: Seq<Seq<CombinedBetPlan<E>>>,
    n: int,
)
    requires
        number::exact_sums::<E>(),
        0 <= n <= run.len(),
    ensures
        ({
            let books = engine::account_after(setup, course, initial, run, n);
            &&& books.bankroll.initial == initial
            &&& books.bankroll.current == number::sum(initial, income(books))
            &&& parts_add_up(books)
        }),
    decreases n,
{
    number::lemma_difference_undoes(initial, initial);
    if n <= 0 {
        lemma_nothing_adds_up(initial);
    } else {
        lemma_books_add_up(setup, course, initial, run, n - 1);
        let before = engine::account_after(setup, course, initial, run, n - 1);
        let cards = course.cards(n - 1);
        let plans = run[n - 1];
        let count = plans.len() as int;
        let noted = before.with_candidate(plans[0].decision);
        lemma_round_keeps_the_parts(setup, cards, plans, noted, count);
        reveal(engine::after_round);
        number::lemma_sums_swap(
            initial,
            income(before),
            engine::profit_sum(engine::all_made(setup, cards, plans, count)),
        );
    }
}

/// Where sums are exact, the summary of a replay reconciles: the final bankroll is the first one
/// with the profits of the games and the rebates, these are the total profit, and the kinds of
/// bets add up to the stakes, the total profit and the profit of the games.
pub proof fn lemma_summary_reconciles<E: Number>(
    setup: ReplaySetup<E>,
    course: Course,
    initial: E,
    run: Seq<Seq<CombinedBetPlan<E>>>,
    sessions: nat,
    lookups: (nat, nat),
)
    requires
        number::exact_sums::<E>(),
    ensures
        ({
            let rounds = run.len();
            let summary = CsvReplaySummary::of(
                engine::account_after(setup, course, initial, run, rounds as int),
                sessions,
                rounds,
                lookups,
            );
            let parts = summary.bet_breakdown;
            &&& summary.initial_bankroll == initial
            &&& summary.final_bankroll == number::sum(
                initial,
                number::sum(summary.base_game_profit, summary.rebate_income),
            )
            &&& summary.total_profit == number::sum(
                summary.base_game_profit,
                summary.rebate_income,
            )
            &&& stakes(parts) == summary.total_stake
            &&& profits(parts) == summary.total_profit
            &&& number::difference(gains(parts), losses(parts)) == summary.total_profit
            &&& number::difference(base_gains(parts), base_losses(parts))
                == summary.base_game_profit
        }),
{
    lemma_books_add_up(setup, course, initial, run, run.len() as int);
    let books = engine::account_after(setup, course, initial, run, run.len() as int);
    number::lemma_difference_undoes(income(books), initial);
}

/// Plans of a round leave the bankroll and its range as they are until the round is settled.
proof fn lemma_plans_keep_the_range<E: Number>(
    setup: ReplaySetup<E>,
    cards: Seq<Card>,
    plans: Seq<CombinedBetPlan<E>>,
    account: ReplayAccount<E>,
    n: int,
)
    ensures
        ({
            let after = engine::booked(setup, cards, plans, account, n).bankroll;
            let before = account.bankroll;
            &&& after.initial == before.initial
            &&& after.current == before.current
            &&& after.maximum == before.maximum
            &&& after.minimum == before.minimum
        }),
    decreases n,
{
    if n > 0 {
        lemma_plans_keep_the_range(setup, cards, plans, account, n - 1);
    }
}

/// Whether the bankrolls after the first `n` rounds, the first one among them, are values in
/// order.
pub open spec fn bankrolls_are_ordered<E: Number>(
    setup: ReplaySetup<E>,
    course: Course,
    initial: E,
    run: Seq<Seq<CombinedBetPlan<E>>>,
    n: int,
    ordered: Set<E>,
) -> bool {
    forall|k: int|
        0 <= k <= n ==> ordered.contains(
            (#[trigger] engine::account_after(setup, course, initial, run, k)).bankroll.current,
        )
}

/// In a linear order, after any number of rounds the lowest bankroll is at most the first one and
/// the highest at least the first one, and no bankroll up to then was outside of the two.
pub proof fn lemma_bankroll_keeps_its_range<E: Number>(
    setup: ReplaySetup<E>,
    course: Course,
    initial: E,
    run: Seq<Seq<CombinedBetPlan<E>>>,
    n: int,
    ordered: Set<E>,
)
    requires
        order::linear(ordered),
        0 <= n,
        bankrolls_are_ordered(setup, course, initial, run, n, ordered),
    ensures
        ({
            let books = engine::account_after(setup, course, initial, run, n).bankroll;
            &&& books.initial == initial
            &&& ordered.contains(books.minimum) && ordered.contains(books.maximum)
            &&& !order::above(books.minimum, initial)
            &&& !order::above(initial, books.maximum)
            &&& forall|k: int|
                0 <= k <= n ==> {
                    let then = #[trigger] engine::account_after(setup, course, initial, run, k);
                    &&& !order::above(books.minimum, then.bankroll.current)
                    &&& !order::above(then.bankroll.current, books.maximum)
                }
        }),
    decreases n,
{
    let books = engine::account_after(setup, course, initial, run, n).bankroll;
    assert(ordered.contains(books.current));
    if n > 0 {
        lemma_bankroll_keeps_its_range(setup, course, initial, run, n - 1, ordered);
        let before = engine::account_after(setup, course, initial, run, n - 1);
        let noted = before.with_candidate(run[n - 1][0].decision);
        lemma_plans_keep_the_range(
            setup,
            course.cards(n - 1),
            run[n - 1],
            noted,
            run[n - 1].len() as int,
        );
        reveal(engine::after_round);
        let old_range = before.bankroll;
        assert(engine::account_after(setup, course, initial, run, 0).bankroll.current == initial);
        assert(ordered.contains(initial));
        assert(books.maximum == order::higher(old_range.maximum, books.current));
        assert(books.minimum == order::lower(old_range.minimum, books.current));
        assert(!order::above(old_range.maximum, books.maximum));
        assert(!order::above(books.minimum, old_range.minimum));
        assert(!order::above(books.current, books.maximum));
        assert(!order::above(books.minimum, books.current));
        assert forall|k: int| 0 <= k <= n implies {
            let then = #[trigger] engine::account_after(setup, course, initial, run, k);
            &&& !order::above(books.minimum, then.bankroll.current)
            &&& !order::above(then.bankroll.current, books.maximum)
        } by {
            let then = engine::account_after(setup, course, initial, run, k).bankroll.current;
            assert(ordered.contains(then));
            if k < n {
                assert(!order::above(old_range.minimum, then));
                assert(!order::above(then, old_range.maximum));
            }
        }
    }
}

/// In a linear order, the summary of a replay has its first and its final bankroll between the
/// lowest and the highest one.
pub proof fn lemma_summary_keeps_its_range<E: Number>(
    setup: ReplaySetup<E>,
    course: Course,
    initial: E,
    run: Seq<Seq<CombinedBetPlan<E>>>,
    sessions: nat,
    lookups: (nat, nat),
    ordered: Set<E>,
)
    requires
        order::linear(ordered),
        bankrolls_are_ordered(setup, course, initial, run, run.len() as int, ordered),
    ensures
        ({
            let rounds = run.len();
            let summary = CsvReplaySummary::of(
                engine::account_after(setup, course, initial, run, rounds as int),
                sessions,
                rounds,
                lookups,
            );
            &&& summary.initial_bankroll == initial
            &&& !order::above(summary.minimum_bankroll, summary.initial_bankroll)
            &&& !order::above(summary.initial_bankroll, summary.maximum_bankroll)
            &&& !order::above(summary.minimum_bankroll, summary.final_bankroll)
            &&& !order::above(summary.final_bankroll, summary.maximum_bankroll)
        }),
{
    lemma_bankroll_keeps_its_range(setup, course, initial, run, run.len() as int, ordered);
}

/// Of rows that could be loaded, whose keys are distinct then, a finished replay has played or
/// left out every one: the rounds it replayed and those it left out are as many as the rows.
pub proof fn lemma_every_row_is_replayed_or_left_out<E: Number, F: Fn(E) -> E>(
    rows: Seq<CsvRound>,
    failure: Option<String>,
    loaded: LoadedRounds,
    report: ReplayOutcome<E>,
    config: CsvReplayConfig<E>,
    scale: Scale<E>,
    root: F,
)
    requires
        rows.len() <= usize::MAX,
        load::is_loading(Ok(loaded), rows, failure),
        engine::is_outcome(
            Ok::<ReplayOutcome<E>, ReplayStop<E>>(report),
            loaded.list(),
            loaded.judgement(),
            config,
            scale,
            root,
        ),
    ensures
        report.summary.replayed_rounds + report.quality.quarantined_rounds == rows.len(),
{
    let rounds = loaded.list();
    let setup = ReplaySetup::of(config);
    let initial = config.initial_bankroll;
    let (course, run) = choose|course: Course, run: Seq<Seq<CombinedBetPlan<E>>>|
        {
            &&& course.replays(rounds, config.decks as nat)
            &&& #[trigger] engine::is_run(setup, scale, course, initial, root, run)
            &&& engine::is_report(report, setup, course, initial, run)
        };
    let order = choose|order: Schedule| #[trigger]
        order.fits(rounds) && course.order == order.order@ && course.slots == order.slots@;
    schedule::lemma_quarantined(rounds, order.order@);
}

} // verus!
