//! Laws of the totals of a replay: what the summary says of the bets that were made, where numbers
//! are exact.

use vstd::prelude::*;

use crate::baccarat::account;
use crate::baccarat::account::{PlacedBet, ReplayAccount};
use crate::baccarat::bet::{BankerPayoutRule, MainBet};
use crate::baccarat::engine;
use crate::baccarat::engine::{BetRecord, Course, CsvReplaySummary, ReplayOutcome, ReplaySetup};
use crate::baccarat::ev;
use crate::baccarat::machine;
use crate::baccarat::rebate::RebateRule;
use crate::baccarat::replay::BetResult;
use crate::baccarat::risk::{CombinedBetPlan, CombinedBetPlanAction};
use crate::baccarat::round;
use crate::baccarat::settling;
use crate::baccarat::side_bet::Settlement;
use crate::baccarat::strategy::BetTarget;
use crate::card::Card;
use crate::exact;
use crate::exact::exact;
use crate::number;
use crate::number::Number;
use crate::order;
use crate::scale::Scale;

verus! {

/// The sum over bets of a number of each.
pub open spec fn sum_over<E>(bets: Seq<PlacedBet<E>>, number: spec_fn(PlacedBet<E>) -> real) -> real
    decreases bets.len(),
{
    if bets.len() == 0 {
        0 as real
    } else {
        sum_over(bets.drop_last(), number) + number(bets.last())
    }
}

/// The number of bets of which something holds.
pub open spec fn count_of<E>(bets: Seq<PlacedBet<E>>, which: spec_fn(PlacedBet<E>) -> bool) -> nat
    decreases bets.len(),
{
    if bets.len() == 0 {
        0
    } else {
        count_of(bets.drop_last(), which) + if which(bets.last()) {
            1nat
        } else {
            0nat
        }
    }
}

/// The bets that records tell of.
pub open spec fn bets_of<E>(records: Seq<BetRecord<E>>) -> Seq<PlacedBet<E>> {
    records.map_values(|record: BetRecord<E>| record.placed)
}

/// The bets that ended in a way.
pub open spec fn ended<E>(result: BetResult) -> spec_fn(PlacedBet<E>) -> bool {
    |bet: PlacedBet<E>| bet.result == result
}

/// The bets of a kind.
pub open spec fn of_kind<E>(kind: BetTarget) -> spec_fn(PlacedBet<E>) -> bool {
    |bet: PlacedBet<E>| bet.bet == kind
}

/// The stakes of bets.
pub open spec fn stake_of<E>(value: spec_fn(E) -> real) -> spec_fn(PlacedBet<E>) -> real {
    |bet: PlacedBet<E>| value(bet.amount)
}

/// The profits that were expected of bets.
pub open spec fn expected_of<E>(value: spec_fn(E) -> real) -> spec_fn(PlacedBet<E>) -> real {
    |bet: PlacedBet<E>| value(bet.quote.expected_profit)
}

/// The profits of bets without rebates.
pub open spec fn base_of<E>(value: spec_fn(E) -> real) -> spec_fn(PlacedBet<E>) -> real {
    |bet: PlacedBet<E>| value(bet.base_game_profit)
}

/// The rebates on bets.
pub open spec fn rebate_of<E>(value: spec_fn(E) -> real) -> spec_fn(PlacedBet<E>) -> real {
    |bet: PlacedBet<E>| value(bet.rebate_income)
}

/// The profits of bets, rebates included.
pub open spec fn profit_of<E>(value: spec_fn(E) -> real) -> spec_fn(PlacedBet<E>) -> real {
    |bet: PlacedBet<E>| value(bet.actual_profit)
}

proof fn lemma_sum_joins<E>(
    a: Seq<PlacedBet<E>>,
    b: Seq<PlacedBet<E>>,
    number: spec_fn(PlacedBet<E>) -> real,
)
    ensures
        sum_over(a + b, number) == sum_over(a, number) + sum_over(b, number),
    decreases b.len(),
{
    if b.len() == 0 {
        assert(a + b =~= a);
    } else {
        assert((a + b).drop_last() =~= a + b.drop_last());
        lemma_sum_joins(a, b.drop_last(), number);
    }
}

proof fn lemma_count_joins<E>(
    a: Seq<PlacedBet<E>>,
    b: Seq<PlacedBet<E>>,
    which: spec_fn(PlacedBet<E>) -> bool,
)
    ensures
        count_of(a + b, which) == count_of(a, which) + count_of(b, which),
    decreases b.len(),
{
    if b.len() == 0 {
        assert(a + b =~= a);
    } else {
        assert((a + b).drop_last() =~= a + b.drop_last());
        lemma_count_joins(a, b.drop_last(), which);
    }
}

/// What bets add to the books.
#[verifier::opaque]
spec fn grown<E: Number>(
    value: spec_fn(E) -> real,
    before: ReplayAccount<E>,
    after: ReplayAccount<E>,
    bets: Seq<PlacedBet<E>>,
) -> bool {
    &&& after.tally.wins == before.tally.wins + count_of(bets, ended(BetResult::Win))
    &&& after.tally.losses == before.tally.losses + count_of(bets, ended(BetResult::Loss))
    &&& after.tally.pushes == before.tally.pushes + count_of(bets, ended(BetResult::Push))
    &&& forall|kind: BetTarget| #[trigger]
        after.tally.placed_bets.of(kind) == before.tally.placed_bets.of(kind) + count_of(
            bets,
            of_kind(kind),
        )
    &&& value(after.total_stake) == value(before.total_stake) + sum_over(bets, stake_of(value))
    &&& value(after.total_expected_profit) == value(before.total_expected_profit) + sum_over(
        bets,
        expected_of(value),
    )
    &&& value(after.base_game_profit) == value(before.base_game_profit) + sum_over(
        bets,
        base_of(value),
    )
    &&& value(after.rebate_income) == value(before.rebate_income) + sum_over(
        bets,
        rebate_of(value),
    )
}

proof fn lemma_one_more_grows<E: Number>(
    value: spec_fn(E) -> real,
    start: ReplayAccount<E>,
    before: ReplayAccount<E>,
    bets: Seq<PlacedBet<E>>,
    placed: Option<PlacedBet<E>>,
    limit: int,
)
    requires
        exact(value),
        before.within(limit),
        limit < u64::MAX,
        grown(value, start, before, bets),
    ensures
        grown(
            value,
            start,
            before.with_plan(placed),
            match placed {
                Some(made) => bets.push(made),
                None => bets,
            },
        ),
{
    reveal(grown);
    let after = before.with_plan(placed);
    if let Some(made) = placed {
        let more = bets.push(made);
        assert(more.drop_last() =~= bets);
        assert(before.tally.placed_bets.of(made.bet) <= before.tally.placed_bets.total());
        assert forall|kind: BetTarget| #[trigger]
            after.tally.placed_bets.of(kind) == start.tally.placed_bets.of(kind) + count_of(
                more,
                of_kind(kind),
            ) by {
            assert(before.tally.placed_bets.of(kind) == start.tally.placed_bets.of(kind) + count_of(
                bets,
                of_kind(kind),
            ));
            lemma_kind_counted(before.tally.placed_bets, made.bet, kind);
        }
    }
}

proof fn lemma_kind_counted(
    counts: crate::baccarat::replay::CsvBetCounts,
    bet: BetTarget,
    kind: BetTarget,
)
    requires
        counts.of(bet) < u64::MAX,
    ensures
        counts.plus(bet).of(kind) == counts.of(kind) + if bet == kind {
            1int
        } else {
            0int
        },
{
}

proof fn lemma_round_grows<E: Number>(
    value: spec_fn(E) -> real,
    setup: ReplaySetup<E>,
    cards: Seq<Card>,
    plans: Seq<CombinedBetPlan<E>>,
    start: ReplayAccount<E>,
    limit: int,
    n: int,
)
    requires
        exact(value),
        0 <= n,
        0 <= limit,
        start.within(limit),
        limit + n < u64::MAX,
    ensures
        engine::booked(setup, cards, plans, start, n).within(limit + n),
        grown(
            value,
            start,
            engine::booked(setup, cards, plans, start, n),
            engine::all_made(setup, cards, plans, n),
        ),
    decreases n,
{
    if n > 0 {
        lemma_round_grows(value, setup, cards, plans, start, limit, n - 1);
        let before = engine::booked(setup, cards, plans, start, n - 1);
        let placed = engine::made(setup, cards, plans[n - 1]);
        account::lemma_plan_stays_within(before, placed, limit + n - 1);
        lemma_one_more_grows(
            value,
            start,
            before,
            engine::all_made(setup, cards, plans, n - 1),
            placed,
            limit + n - 1,
        );
    } else {
        reveal(grown);
    }
}

/// What the books say of the bets that were made.
pub open spec fn books_tell<E: Number>(
    value: spec_fn(E) -> real,
    books: ReplayAccount<E>,
    initial: E,
    bets: Seq<PlacedBet<E>>,
) -> bool {
    &&& books.tally.placed_bet_count == bets.len()
    &&& books.tally.wins == count_of(bets, ended(BetResult::Win))
    &&& books.tally.losses == count_of(bets, ended(BetResult::Loss))
    &&& books.tally.pushes == count_of(bets, ended(BetResult::Push))
    &&& forall|kind: BetTarget| #[trigger]
        books.tally.placed_bets.of(kind) == count_of(bets, of_kind(kind))
    &&& value(books.total_stake) == sum_over(bets, stake_of(value))
    &&& value(books.total_expected_profit) == sum_over(bets, expected_of(value))
    &&& value(books.base_game_profit) == sum_over(bets, base_of(value))
    &&& value(books.rebate_income) == sum_over(bets, rebate_of(value))
    &&& value(books.bankroll.current) == value(initial) + sum_over(bets, profit_of(value))
    &&& books.bankroll.initial == initial
}

proof fn lemma_profit_sum<E: Number>(value: spec_fn(E) -> real, bets: Seq<PlacedBet<E>>)
    requires
        exact(value),
    ensures
        value(engine::profit_sum(bets)) == sum_over(bets, profit_of(value)),
        value(engine::stake_sum(bets)) == sum_over(bets, stake_of(value)),
    decreases bets.len(),
{
    if bets.len() > 0 {
        lemma_profit_sum(value, bets.drop_last());
    }
}

proof fn lemma_plans_keep_the_bankroll<E: Number>(
    setup: ReplaySetup<E>,
    cards: Seq<Card>,
    plans: Seq<CombinedBetPlan<E>>,
    account: ReplayAccount<E>,
    n: int,
)
    ensures
        ({
            let after = engine::booked(setup, cards, plans, account, n);
            &&& after.bankroll.current == account.bankroll.current
            &&& after.bankroll.initial == account.bankroll.initial
            &&& after.bankroll.maximum == account.bankroll.maximum
            &&& after.bankroll.minimum == account.bankroll.minimum
            &&& after.bankroll.maximum_drawdown == account.bankroll.maximum_drawdown
            &&& after.bankroll.maximum_drawdown_rate == account.bankroll.maximum_drawdown_rate
            &&& after.bankroll.maximum_round_stake == account.bankroll.maximum_round_stake
            &&& after.effective_ev_sum == account.effective_ev_sum
            &&& after.minimum_candidate_effective_ev == account.minimum_candidate_effective_ev
            &&& after.maximum_candidate_effective_ev == account.maximum_candidate_effective_ev
            &&& after.tally.candidate_bets == account.tally.candidate_bets
        }),
    decreases n,
{
    if n > 0 {
        lemma_plans_keep_the_bankroll(setup, cards, plans, account, n - 1);
    }
}

/// One more round reports the bets of its plans behind the earlier ones.
pub proof fn lemma_more_records<E: Number>(
    setup: ReplaySetup<E>,
    course: Course,
    initial: E,
    run: Seq<Seq<CombinedBetPlan<E>>>,
    n: int,
)
    requires
        n > 0,
    ensures
        bets_of(engine::all_records(setup, course, initial, run, n)) == bets_of(
            engine::all_records(setup, course, initial, run, n - 1),
        ) + engine::all_made(setup, course.cards(n - 1), run[n - 1], run[n - 1].len() as int),
{
    assert(bets_of(engine::all_records(setup, course, initial, run, n)) =~= bets_of(
        engine::all_records(setup, course, initial, run, n - 1),
    ) + engine::all_made(setup, course.cards(n - 1), run[n - 1], run[n - 1].len() as int));
}

/// After any number of rounds the books say what the reported bets add up to: how many there are,
/// of each kind and by how they ended, their stakes, their expected profits, their profits without
/// rebates and their rebates; and the bankroll is the first one with the profits of all of them.
pub proof fn lemma_books_tell_of_the_bets<E: Number, F: Fn(E) -> E>(
    value: spec_fn(E) -> real,
    setup: ReplaySetup<E>,
    scale: Scale<E>,
    course: Course,
    initial: E,
    root: F,
    run: Seq<Seq<CombinedBetPlan<E>>>,
    n: int,
)
    requires
        exact(value),
        engine::is_run(setup, scale, course, initial, root, run),
        0 <= n <= run.len(),
        15 * n + 15 < u64::MAX,
    ensures
        books_tell(
            value,
            engine::account_after(setup, course, initial, run, n),
            initial,
            bets_of(engine::all_records(setup, course, initial, run, n)),
        ),
    decreases n,
{
    engine::lemma_every_bet_is_reported(setup, scale, course, initial, root, run, n);
    let bets = bets_of(engine::all_records(setup, course, initial, run, n));
    if n > 0 {
        lemma_books_tell_of_the_bets(value, setup, scale, course, initial, root, run, n - 1);
        engine::lemma_every_bet_is_reported(setup, scale, course, initial, root, run, n - 1);
        engine::lemma_rounds_have_few_plans(setup, scale, course, initial, root, run, n - 1);
        let before = engine::account_after(setup, course, initial, run, n - 1);
        let earlier = bets_of(engine::all_records(setup, course, initial, run, n - 1));
        let plans = run[n - 1];
        let cards = course.cards(n - 1);
        let noted = before.with_candidate(plans[0].decision);
        let count = plans.len() as int;
        let made = engine::all_made(setup, cards, plans, count);
        account::lemma_candidate_stays_within(before, plans[0].decision, 15 * (n - 1));
        lemma_round_grows(value, setup, cards, plans, noted, 15 * (n - 1) + 1, count);
        lemma_plans_keep_the_bankroll(setup, cards, plans, noted, count);
        lemma_more_records(setup, course, initial, run, n);
        assert(bets == earlier + made);
        lemma_profit_sum(value, made);
        lemma_sum_joins(earlier, made, stake_of(value));
        lemma_sum_joins(earlier, made, expected_of(value));
        lemma_sum_joins(earlier, made, base_of(value));
        lemma_sum_joins(earlier, made, rebate_of(value));
        lemma_sum_joins(earlier, made, profit_of(value));
        lemma_count_joins(earlier, made, ended(BetResult::Win));
        lemma_count_joins(earlier, made, ended(BetResult::Loss));
        lemma_count_joins(earlier, made, ended(BetResult::Push));
        let after = engine::account_after(setup, course, initial, run, n);
        reveal(engine::after_round);
        reveal(grown);
        assert(after.bankroll.current == number::sum(
            before.bankroll.current,
            engine::profit_sum(made),
        ));
        assert forall|kind: BetTarget| #[trigger]
            after.tally.placed_bets.of(kind) == count_of(bets, of_kind(kind)) by {
            lemma_count_joins(earlier, made, of_kind(kind));
            assert(before.tally.placed_bets.of(kind) == count_of(earlier, of_kind(kind)));
            let booked = engine::booked(setup, cards, plans, noted, count);
            assert(booked.tally.placed_bets.of(kind) == noted.tally.placed_bets.of(kind)
                + count_of(made, of_kind(kind)));
        }
    } else {
        assert(bets =~= Seq::empty());
        let start = ReplayAccount::start(initial);
        assert forall|kind: BetTarget| #[trigger] start.tally.placed_bets.of(kind) == 0 by {}
    }
}

/// The bankroll after the first rounds.
pub open spec fn bankroll_after<E: Number>(
    value: spec_fn(E) -> real,
    setup: ReplaySetup<E>,
    course: Course,
    initial: E,
    run: Seq<Seq<CombinedBetPlan<E>>>,
) -> spec_fn(int) -> real {
    |k: int| value(engine::account_after(setup, course, initial, run, k).bankroll.current)
}

/// Whether a number is the highest of the first ones of a list.
pub open spec fn is_highest(numbers: spec_fn(int) -> real, n: int, highest: real) -> bool {
    &&& forall|k: int| 0 <= k <= n ==> #[trigger] numbers(k) <= highest
    &&& exists|k: int| 0 <= k <= n && #[trigger] numbers(k) == highest
}

/// Whether a number is the lowest of the first ones of a list.
pub open spec fn is_lowest(numbers: spec_fn(int) -> real, n: int, lowest: real) -> bool {
    &&& forall|k: int| 0 <= k <= n ==> #[trigger] numbers(k) >= lowest
    &&& exists|k: int| 0 <= k <= n && #[trigger] numbers(k) == lowest
}

/// Whether a number is the largest fall from one of the first numbers of a list to it or to a
/// later one.
pub open spec fn is_largest_fall(numbers: spec_fn(int) -> real, n: int, fall: real) -> bool {
    &&& forall|i: int, k: int|
        0 <= i <= k <= n ==> #[trigger] numbers(i) - #[trigger] numbers(k) <= fall
    &&& exists|i: int, k: int|
        0 <= i <= k <= n && #[trigger] numbers(i) - #[trigger] numbers(k) == fall
}

/// Whether a number is the largest part of the highest bankroll so far that was lost again, where
/// that was positive.
pub open spec fn is_largest_part(
    numbers: spec_fn(int) -> real,
    peaks: spec_fn(int) -> real,
    n: int,
    part: real,
) -> bool {
    &&& part >= 0 as real
    &&& forall|k: int|
        0 <= k <= n && peaks(k) > 0 as real ==> #[trigger] peaks(k) - numbers(k) <= part * peaks(k)
    &&& part == 0 as real || exists|k: int|
        0 <= k <= n && peaks(k) > 0 as real && #[trigger] peaks(k) - numbers(k) == part * peaks(k)
}

/// The highest bankroll up to the end of each of the first rounds.
pub open spec fn peak_after<E: Number>(
    value: spec_fn(E) -> real,
    setup: ReplaySetup<E>,
    course: Course,
    initial: E,
    run: Seq<Seq<CombinedBetPlan<E>>>,
) -> spec_fn(int) -> real {
    |k: int| value(engine::account_after(setup, course, initial, run, k).bankroll.maximum)
}

/// What the bankroll of the books says of the bankrolls after all rounds: the highest and the
/// lowest of them, the largest fall from one of them to a later one, and the largest part of the
/// highest one so far that was lost again.
pub open spec fn bankroll_tells<E: Number>(
    value: spec_fn(E) -> real,
    setup: ReplaySetup<E>,
    course: Course,
    initial: E,
    run: Seq<Seq<CombinedBetPlan<E>>>,
    n: int,
) -> bool {
    let books = engine::account_after(setup, course, initial, run, n).bankroll;
    let bankrolls = bankroll_after(value, setup, course, initial, run);
    let peaks = peak_after(value, setup, course, initial, run);
    &&& bankrolls(0) == value(initial)
    &&& is_highest(bankrolls, n, value(books.maximum))
    &&& is_lowest(bankrolls, n, value(books.minimum))
    &&& is_largest_fall(bankrolls, n, value(books.maximum_drawdown))
    &&& is_largest_part(bankrolls, peaks, n, value(books.maximum_drawdown_rate))
}

proof fn lemma_bankroll_step<E: Number>(
    value: spec_fn(E) -> real,
    setup: ReplaySetup<E>,
    course: Course,
    initial: E,
    run: Seq<Seq<CombinedBetPlan<E>>>,
    n: int,
)
    requires
        exact(value),
        n > 0,
    ensures
        ({
            let before = engine::account_after(setup, course, initial, run, n - 1).bankroll;
            let after = engine::account_after(setup, course, initial, run, n).bankroll;
            let m = value(after.maximum);
            let c = value(after.current);
            let d = value(after.maximum_drawdown);
            let r = value(after.maximum_drawdown_rate);
            &&& m >= value(before.maximum) && m >= c && (m == value(before.maximum) || m == c)
            &&& value(after.minimum) <= value(before.minimum) && value(after.minimum) <= c && (
            value(after.minimum) == value(before.minimum) || value(after.minimum) == c)
            &&& d >= value(before.maximum_drawdown) && d >= m - c && (d == value(
                before.maximum_drawdown,
            ) || d == m - c)
            &&& r >= value(before.maximum_drawdown_rate)
            &&& m > 0 as real ==> m - c <= r * m
            &&& r == value(before.maximum_drawdown_rate) || m > 0 as real && m - c == r * m || r
                == 0 as real
        }),
{
    let before = engine::account_after(setup, course, initial, run, n - 1);
    let plans = run[n - 1];
    let cards = course.cards(n - 1);
    let noted = before.with_candidate(plans[0].decision);
    let count = plans.len() as int;
    lemma_plans_keep_the_bankroll(setup, cards, plans, noted, count);
    reveal(engine::after_round);
    let booked = engine::booked(setup, cards, plans, noted, count).bankroll;
    let profit = engine::profit_sum(engine::all_made(setup, cards, plans, count));
    let after = engine::account_after(setup, course, initial, run, n).bankroll;
    let zero = number::small::<E>(0);
    let current = number::sum(booked.current, profit);
    assert(after.current == current);
    let maximum = order::higher(booked.maximum, current);
    assert(after.maximum == maximum);
    exact::lemma_extremes(value, booked.maximum, current);
    exact::lemma_extremes(value, booked.minimum, current);
    let gap = number::difference(maximum, current);
    let fall = order::higher(gap, zero);
    exact::lemma_extremes(value, gap, zero);
    assert(booked.drawdown_after(profit, zero) == fall);
    assert(value(fall) == value(maximum) - value(current));
    exact::lemma_extremes(value, booked.maximum_drawdown, fall);
    assert(order::above(maximum, zero) <==> value(maximum) > 0 as real);
    let rate = if order::above(maximum, zero) {
        number::quotient(fall, maximum)
    } else {
        zero
    };
    exact::lemma_extremes(value, booked.maximum_drawdown_rate, rate);
    assert(after.maximum_drawdown_rate == order::higher(booked.maximum_drawdown_rate, rate));
    let m = value(maximum);
    let r = value(after.maximum_drawdown_rate);
    if m > 0 as real {
        assert(value(rate) * m == value(fall));
        exact::lemma_scale_order(value(rate), r, m);
    }
}

/// After any number of rounds the bankroll of the books says what the bankrolls were: the highest
/// and the lowest, the largest fall from one to a later one, and the largest part of the highest
/// one so far that was lost again.
pub proof fn lemma_the_bankroll_tells_its_course<E: Number>(
    value: spec_fn(E) -> real,
    setup: ReplaySetup<E>,
    course: Course,
    initial: E,
    run: Seq<Seq<CombinedBetPlan<E>>>,
    n: int,
)
    requires
        exact(value),
        0 <= n,
    ensures
        bankroll_tells(value, setup, course, initial, run, n),
    decreases n,
{
    let bankrolls = bankroll_after(value, setup, course, initial, run);
    let peaks = peak_after(value, setup, course, initial, run);
    let books = engine::account_after(setup, course, initial, run, n).bankroll;
    let fall = value(books.maximum_drawdown);
    let part = value(books.maximum_drawdown_rate);
    let highest = value(books.maximum);
    if n > 0 {
        lemma_the_bankroll_tells_its_course(value, setup, course, initial, run, n - 1);
        lemma_bankroll_step(value, setup, course, initial, run, n);
        let before = engine::account_after(setup, course, initial, run, n - 1).bankroll;
        let i = choose|i: int| 0 <= i <= n - 1 && #[trigger] bankrolls(i) == value(before.maximum);
        let j = choose|j: int| 0 <= j <= n - 1 && #[trigger] bankrolls(j) == value(before.minimum);
        let (a, b) = choose|a: int, b: int|
            0 <= a <= b <= n - 1 && #[trigger] bankrolls(a) - #[trigger] bankrolls(b) == value(
                before.maximum_drawdown,
            );
        assert(bankrolls(n) == value(books.current));
        assert(bankrolls(i) == value(before.maximum));
        assert(bankrolls(j) == value(before.minimum));
        assert(bankrolls(a) - bankrolls(b) == value(before.maximum_drawdown));
        assert(is_highest(bankrolls, n, highest));
        assert(is_lowest(bankrolls, n, value(books.minimum)));
        assert forall|x: int, y: int| 0 <= x <= y <= n implies #[trigger] bankrolls(x)
            - #[trigger] bankrolls(y) <= fall by {
            if y < n {
                assert(bankrolls(x) - bankrolls(y) <= value(before.maximum_drawdown));
            } else {
                assert(bankrolls(x) <= highest);
            }
        }
        assert(is_largest_fall(bankrolls, n, fall));
        let earlier = value(before.maximum_drawdown_rate);
        assert forall|k: int| 0 <= k <= n && peaks(k) > 0 as real implies #[trigger] peaks(k)
            - bankrolls(k) <= part * peaks(k) by {
            if k < n {
                assert(peaks(k) - bankrolls(k) <= earlier * peaks(k));
                exact::lemma_scale_order(earlier, part, peaks(k));
            }
        }
        if part != 0 as real {
            if part == earlier {
                let k = choose|k: int|
                    0 <= k <= n - 1 && peaks(k) > 0 as real && #[trigger] peaks(k) - bankrolls(k)
                        == earlier * peaks(k);
                assert(peaks(k) - bankrolls(k) == part * peaks(k));
            } else {
                assert(peaks(n) - bankrolls(n) == part * peaks(n));
            }
        }
        assert(is_largest_part(bankrolls, peaks, n, part));
    } else {
        assert(bankrolls(0) == value(initial));
        assert(bankrolls(0) - bankrolls(0) == fall);
        assert forall|k: int| 0 <= k <= n && peaks(k) > 0 as real implies #[trigger] peaks(k)
            - bankrolls(k) <= part * peaks(k) by {
            assert((0 as real) * peaks(k) == 0 as real) by (nonlinear_arith);
        }
    }
}

/// The effective value of the best bet of each round.
pub open spec fn candidate_values<E: Number>(
    value: spec_fn(E) -> real,
    run: Seq<Seq<CombinedBetPlan<E>>>,
) -> spec_fn(int) -> real {
    |k: int| value(run[k][0].decision.effective_ev)
}

/// The sum of the first numbers of a list.
pub open spec fn sum_below(numbers: spec_fn(int) -> real, n: int) -> real
    decreases n,
{
    if n <= 0 {
        0 as real
    } else {
        sum_below(numbers, n - 1) + numbers(n - 1)
    }
}

/// The books hold the sum of the effective values of the best bets of all rounds, and the least
/// and the greatest of these.
pub proof fn lemma_books_tell_of_the_candidates<E: Number>(
    value: spec_fn(E) -> real,
    setup: ReplaySetup<E>,
    course: Course,
    initial: E,
    run: Seq<Seq<CombinedBetPlan<E>>>,
    n: int,
)
    requires
        exact(value),
        0 <= n,
    ensures
        ({
            let books = engine::account_after(setup, course, initial, run, n);
            let values = candidate_values(value, run);
            &&& value(books.effective_ev_sum) == sum_below(values, n)
            &&& match books.minimum_candidate_effective_ev {
                Some(least) => n > 0 && is_lowest(values, n - 1, value(least)),
                None => n == 0,
            }
            &&& match books.maximum_candidate_effective_ev {
                Some(most) => n > 0 && is_highest(values, n - 1, value(most)),
                None => n == 0,
            }
        }),
    decreases n,
{
    let values = candidate_values(value, run);
    if n > 0 {
        lemma_books_tell_of_the_candidates(value, setup, course, initial, run, n - 1);
        let before = engine::account_after(setup, course, initial, run, n - 1);
        let plans = run[n - 1];
        let cards = course.cards(n - 1);
        let noted = before.with_candidate(plans[0].decision);
        lemma_plans_keep_the_bankroll(setup, cards, plans, noted, plans.len() as int);
        reveal(engine::after_round);
        let books = engine::account_after(setup, course, initial, run, n);
        let ev = plans[0].decision.effective_ev;
        assert(values(n - 1) == value(ev));
        assert(books.effective_ev_sum == number::sum(before.effective_ev_sum, ev));
        if let Some(least) = before.minimum_candidate_effective_ev {
            exact::lemma_extremes(value, least, ev);
            let k = choose|k: int| 0 <= k <= n - 2 && #[trigger] values(k) == value(least);
            assert(values(k) == value(least));
        }
        if let Some(most) = before.maximum_candidate_effective_ev {
            exact::lemma_extremes(value, most, ev);
            let k = choose|k: int| 0 <= k <= n - 2 && #[trigger] values(k) == value(most);
            assert(values(k) == value(most));
        }
    }
}

/// What the summary of a replay says of its bets.
pub open spec fn summary_tells<E: Number>(
    value: spec_fn(E) -> real,
    summary: CsvReplaySummary<E>,
    bets: Seq<PlacedBet<E>>,
    initial: E,
    rounds: int,
) -> bool {
    let wins = count_of(bets, ended(BetResult::Win));
    let profit = sum_over(bets, profit_of(value));
    &&& summary.placed_bet_count == bets.len()
    &&& summary.wins == wins
    &&& summary.losses == count_of(bets, ended(BetResult::Loss))
    &&& summary.pushes == count_of(bets, ended(BetResult::Push))
    &&& match summary.hit_rate {
        Some(rate) => {
            &&& bets.len() > 0
            &&& value(rate) * bets.len() as real == wins as real
            &&& 0 as real <= value(rate) <= 1 as real
            &&& value(rate) == 1 as real <==> wins == bets.len()
        },
        None => bets.len() == 0,
    }
    &&& value(summary.total_stake) == sum_over(bets, stake_of(value))
    &&& value(summary.total_expected_profit) == sum_over(bets, expected_of(value))
    &&& value(summary.base_game_profit) == sum_over(bets, base_of(value))
    &&& value(summary.rebate_income) == sum_over(bets, rebate_of(value))
    &&& value(summary.total_profit) == profit
    &&& summary.initial_bankroll == initial
    &&& value(summary.final_bankroll) == value(initial) + profit
    &&& value(initial) != 0 as real ==> value(summary.return_on_initial) * value(initial) == profit
    &&& summary.replayed_rounds == rounds
}

/// The summary of a replay says what its bets add up to. Of them, the hit rate is the part that
/// won: times the number of bets it is the number of wins, it is between zero and one, and it is
/// one just where every bet won; rounds without a bet do not count.
pub proof fn lemma_the_summary_tells_of_the_bets<E: Number, F: Fn(E) -> E>(
    value: spec_fn(E) -> real,
    report: ReplayOutcome<E>,
    setup: ReplaySetup<E>,
    scale: Scale<E>,
    course: Course,
    initial: E,
    root: F,
    run: Seq<Seq<CombinedBetPlan<E>>>,
)
    requires
        exact(value),
        engine::is_run(setup, scale, course, initial, root, run),
        engine::is_report(report, setup, course, initial, run),
        15 * run.len() + 15 < u64::MAX,
    ensures
        summary_tells(
            value,
            report.summary,
            bets_of(engine::all_records(setup, course, initial, run, run.len() as int)),
            initial,
            run.len() as int,
        ),
        report.bets@.len() == report.summary.placed_bet_count,
{
    let n = run.len() as int;
    let bets = bets_of(engine::all_records(setup, course, initial, run, n));
    let books = engine::account_after(setup, course, initial, run, n);
    lemma_books_tell_of_the_bets(value, setup, scale, course, initial, root, run, n);
    engine::lemma_every_bet_is_reported(setup, scale, course, initial, root, run, n);
    let summary = report.summary;
    let wins = books.tally.wins as int;
    let made = books.tally.placed_bet_count as int;
    assert(wins <= made);
    if let Some(rate) = summary.hit_rate {
        exact::lemma_share(value, wins, made);
        let r = value(rate);
        let d = made as real;
        exact::lemma_scale_order(0 as real, r, d);
        exact::lemma_scale_order(r, 1 as real, d);
        assert((0 as real) * d == 0 as real && (1 as real) * d == d);
        if r == 1 as real {
            assert(r * d == d);
        }
        if wins == made {
            exact::lemma_cancel(r, 1 as real, d);
        }
    }
}

/// The mean effective value in the summary, times the rounds, is the sum of the values of the best
/// bets of all rounds; the least and the greatest of these are the shown ones.
pub proof fn lemma_the_summary_tells_of_the_candidates<E: Number>(
    value: spec_fn(E) -> real,
    report: ReplayOutcome<E>,
    setup: ReplaySetup<E>,
    course: Course,
    initial: E,
    run: Seq<Seq<CombinedBetPlan<E>>>,
)
    requires
        exact(value),
        engine::is_report(report, setup, course, initial, run),
        run.len() <= u64::MAX,
    ensures
        ({
            let rounds = run.len() as int;
            let values = candidate_values(value, run);
            let summary = report.summary;
            &&& match summary.average_candidate_effective_ev {
                Some(mean) => rounds > 0 && value(mean) * rounds as real == sum_below(
                    values,
                    rounds,
                ),
                None => rounds == 0,
            }
            &&& match summary.minimum_candidate_effective_ev {
                Some(least) => rounds > 0 && is_lowest(values, rounds - 1, value(least)),
                None => rounds == 0,
            }
            &&& match summary.maximum_candidate_effective_ev {
                Some(most) => rounds > 0 && is_highest(values, rounds - 1, value(most)),
                None => rounds == 0,
            }
        }),
{
    lemma_books_tell_of_the_candidates(value, setup, course, initial, run, run.len() as int);
    exact::lemma_whole(value, run.len() as int);
}

/// The summary of a replay shows the highest and the lowest bankroll after a round, the first one
/// among them, the gain up to the highest, the largest fall from one to a later one, and the
/// largest part of the highest one so far that was lost again.
pub proof fn lemma_the_summary_tells_the_course_of_the_bankroll<E: Number>(
    value: spec_fn(E) -> real,
    report: ReplayOutcome<E>,
    setup: ReplaySetup<E>,
    course: Course,
    initial: E,
    run: Seq<Seq<CombinedBetPlan<E>>>,
)
    requires
        exact(value),
        engine::is_report(report, setup, course, initial, run),
    ensures
        ({
            let n = run.len() as int;
            let bankrolls = bankroll_after(value, setup, course, initial, run);
            let peaks = peak_after(value, setup, course, initial, run);
            let summary = report.summary;
            &&& bankrolls(0) == value(initial)
            &&& bankrolls(n) == value(summary.final_bankroll)
            &&& is_highest(bankrolls, n, value(summary.maximum_bankroll))
            &&& is_lowest(bankrolls, n, value(summary.minimum_bankroll))
            &&& value(summary.maximum_profit) == value(summary.maximum_bankroll) - value(
                summary.initial_bankroll,
            )
            &&& is_largest_fall(bankrolls, n, value(summary.maximum_drawdown))
            &&& is_largest_part(bankrolls, peaks, n, value(summary.maximum_drawdown_rate))
            &&& forall|k: int| 0 <= k <= n ==> is_highest(bankrolls, k, #[trigger] peaks(k))
        }),
{
    let n = run.len() as int;
    let bankrolls = bankroll_after(value, setup, course, initial, run);
    let peaks = peak_after(value, setup, course, initial, run);
    lemma_the_bankroll_tells_its_course(value, setup, course, initial, run, n);
    assert forall|k: int| 0 <= k <= n implies is_highest(bankrolls, k, #[trigger] peaks(k)) by {
        lemma_the_bankroll_tells_its_course(value, setup, course, initial, run, k);
    }
}

/// What a unit of stake on a bet wins on dealt cards, the rebate apart: the payout where the bet
/// names how the round ended, a stake lost where it does not, and nothing where the stake comes
/// back.
pub open spec fn won_for_a_unit<E: Number>(
    value: spec_fn(E) -> real,
    setup: ReplaySetup<E>,
    bet: BetTarget,
    cards: Seq<Card>,
) -> real {
    let player = round::player_hand_of(cards);
    let banker = round::banker_hand_of(cards);
    let lead = player.points() - banker.points();
    match bet {
        BetTarget::Main(MainBet::Player) => if lead > 0 {
            value(setup.rules.player_payout)
        } else if lead == 0 {
            0 as real
        } else {
            -1 as real
        },
        BetTarget::Main(MainBet::Banker) => if lead < 0 {
            match setup.rules.banker_rule {
                BankerPayoutRule::Commission { net_payout } => value(net_payout),
                BankerPayoutRule::NoCommission { normal_net_payout, six_net_payout } => value(
                    if banker.points() == 6 {
                        six_net_payout
                    } else {
                        normal_net_payout
                    },
                ),
            }
        } else if lead == 0 {
            0 as real
        } else {
            -1 as real
        },
        BetTarget::Main(MainBet::Tie) => if lead == 0 {
            value(setup.rules.tie_payout)
        } else {
            -1 as real
        },
        BetTarget::Side(bet) => match settling::settlement(
            setup.side_rules,
            bet,
            player,
            banker,
        ) {
            Settlement::Win(payout) => value(payout),
            Settlement::Push => 0 as real,
            Settlement::Lose => -1 as real,
        },
    }
}

/// Whether a rebate is paid on a bet: on all but the player and banker bets that a tie returns.
pub open spec fn earns_a_rebate(bet: BetTarget, cards: Seq<Card>) -> bool {
    let tied = round::player_hand_of(cards).points() == round::banker_hand_of(cards).points();
    !(tied && (bet == BetTarget::Main(MainBet::Player) || bet == BetTarget::Main(
        MainBet::Banker,
    )))
}

/// A bet of a replay stakes what was planned and wins what the round says for each unit of it,
/// with a rebate on all but a player or banker bet that a tie returns. It counts as won, lost or
/// returned by what it won without the rebate.
pub proof fn lemma_bets_are_settled_by_their_round<E: Number>(
    value: spec_fn(E) -> real,
    setup: ReplaySetup<E>,
    cards: Seq<Card>,
    plan: CombinedBetPlan<E>,
    placed: PlacedBet<E>,
)
    requires
        exact(value),
        engine::made(setup, cards, plan) == Some(placed),
    ensures
        ({
            let stake = value(placed.amount);
            let base = value(placed.base_game_profit);
            let rebate = match setup.betting.rebate {
                RebateRule::NoRebate => 0 as real,
                RebateRule::AllExceptMainBetTie { rate } => value(rate),
            };
            &&& plan.action matches CombinedBetPlanAction::Place { bet, amount } && placed.bet
                == bet && placed.amount == amount
            &&& plan.quote == Some(placed.quote)
            &&& base == stake * won_for_a_unit(value, setup, placed.bet, cards)
            &&& value(placed.rebate_income) == if earns_a_rebate(placed.bet, cards) {
                stake * rebate
            } else {
                0 as real
            }
            &&& value(placed.actual_profit) == base + value(placed.rebate_income)
            &&& stake > 0 as real ==> (placed.result == BetResult::Win <==> base > 0 as real)
            &&& stake > 0 as real ==> (placed.result == BetResult::Loss <==> base < 0 as real)
            &&& stake > 0 as real ==> (placed.result == BetResult::Push <==> base == 0 as real)
        }),
{
    let stake = value(placed.amount);
    let won = won_for_a_unit(value, setup, placed.bet, cards);
    let zero = number::small::<E>(0);
    let settled = machine::settled(
        placed.bet,
        setup.rules,
        setup.side_rules,
        setup.betting.rebate,
        cards,
    );
    assert(value(ev::net_profit(settled.0)) == won);
    assert(value(placed.base_game_profit) == stake * won);
    assert(stake * (0 as real) == 0 as real) by (nonlinear_arith);
    exact::lemma_product_sign(stake, won);
    exact::lemma_product_sign(stake, -won);
    assert(stake * (-won) == -(stake * won)) by (nonlinear_arith);
    match settled.0 {
        Settlement::Win(payout) => {
            assert(order::above(payout, zero) <==> value(payout) > 0 as real);
            assert(order::above(zero, payout) <==> value(payout) < 0 as real);
        },
        _ => {},
    }
}

/// The stake of a round.
pub open spec fn round_stake<E: Number>(
    value: spec_fn(E) -> real,
    setup: ReplaySetup<E>,
    course: Course,
    run: Seq<Seq<CombinedBetPlan<E>>>,
) -> spec_fn(int) -> real {
    |k: int|
        sum_over(
            engine::all_made(setup, course.cards(k), run[k], run[k].len() as int),
            stake_of(value),
        )
}

/// The books show the largest stake of a round, or nothing where all are less.
pub proof fn lemma_books_tell_the_largest_round<E: Number>(
    value: spec_fn(E) -> real,
    setup: ReplaySetup<E>,
    course: Course,
    initial: E,
    run: Seq<Seq<CombinedBetPlan<E>>>,
    n: int,
)
    requires
        exact(value),
        0 <= n,
    ensures
        ({
            let most = value(
                engine::account_after(setup, course, initial, run, n).bankroll.maximum_round_stake,
            );
            let stakes = round_stake(value, setup, course, run);
            &&& most >= 0 as real
            &&& forall|k: int| 0 <= k < n ==> #[trigger] stakes(k) <= most
            &&& most == 0 as real || exists|k: int| 0 <= k < n && #[trigger] stakes(k) == most
        }),
    decreases n,
{
    let stakes = round_stake(value, setup, course, run);
    if n > 0 {
        lemma_books_tell_the_largest_round(value, setup, course, initial, run, n - 1);
        let before = engine::account_after(setup, course, initial, run, n - 1);
        let plans = run[n - 1];
        let cards = course.cards(n - 1);
        let noted = before.with_candidate(plans[0].decision);
        let made = engine::all_made(setup, cards, plans, plans.len() as int);
        lemma_plans_keep_the_bankroll(setup, cards, plans, noted, plans.len() as int);
        reveal(engine::after_round);
        lemma_profit_sum(value, made);
        let earlier = before.bankroll.maximum_round_stake;
        exact::lemma_extremes(value, earlier, engine::stake_sum(made));
        let most = engine::account_after(setup, course, initial, run, n).bankroll.maximum_round_stake;
        assert(most == order::higher(earlier, engine::stake_sum(made)));
        assert(stakes(n - 1) == value(engine::stake_sum(made)));
        if value(most) != 0 as real && value(most) == value(earlier) {
            let k = choose|k: int| 0 <= k < n - 1 && #[trigger] stakes(k) == value(earlier);
            assert(stakes(k) == value(most));
        }
    }
}

/// The books show the largest single stake, or nothing where all are less.
pub proof fn lemma_books_tell_the_largest_stake<E: Number>(
    value: spec_fn(E) -> real,
    setup: ReplaySetup<E>,
    course: Course,
    initial: E,
    run: Seq<Seq<CombinedBetPlan<E>>>,
    n: int,
)
    requires
        exact(value),
        0 <= n,
    ensures
        is_largest_stake(
            value,
            engine::account_after(setup, course, initial, run, n).bankroll.maximum_single_stake,
            bets_of(engine::all_records(setup, course, initial, run, n)),
        ),
    decreases n,
{
    if n > 0 {
        lemma_books_tell_the_largest_stake(value, setup, course, initial, run, n - 1);
        let before = engine::account_after(setup, course, initial, run, n - 1);
        let plans = run[n - 1];
        let noted = before.with_candidate(plans[0].decision);
        lemma_largest_in_round(
            value,
            setup,
            course.cards(n - 1),
            plans,
            noted,
            bets_of(engine::all_records(setup, course, initial, run, n - 1)),
            plans.len() as int,
        );
        lemma_more_records(setup, course, initial, run, n);
        reveal(engine::after_round);
    } else {
        assert(bets_of(engine::all_records(setup, course, initial, run, 0)) =~= Seq::empty());
    }
}

/// Whether a number is the largest stake of bets, or nothing where all are less.
pub open spec fn is_largest_stake<E: Number>(
    value: spec_fn(E) -> real,
    largest: E,
    bets: Seq<PlacedBet<E>>,
) -> bool {
    &&& value(largest) >= 0 as real
    &&& forall|i: int| 0 <= i < bets.len() ==> value((#[trigger] bets[i]).amount) <= value(largest)
    &&& value(largest) == 0 as real || exists|i: int|
        0 <= i < bets.len() && value((#[trigger] bets[i]).amount) == value(largest)
}

proof fn lemma_largest_in_round<E: Number>(
    value: spec_fn(E) -> real,
    setup: ReplaySetup<E>,
    cards: Seq<Card>,
    plans: Seq<CombinedBetPlan<E>>,
    account: ReplayAccount<E>,
    earlier: Seq<PlacedBet<E>>,
    n: int,
)
    requires
        exact(value),
        is_largest_stake(value, account.bankroll.maximum_single_stake, earlier),
        0 <= n,
    ensures
        is_largest_stake(
            value,
            engine::booked(setup, cards, plans, account, n).bankroll.maximum_single_stake,
            earlier + engine::all_made(setup, cards, plans, n),
        ),
    decreases n,
{
    if n > 0 {
        lemma_largest_in_round(value, setup, cards, plans, account, earlier, n - 1);
        let before = engine::booked(setup, cards, plans, account, n - 1);
        let bets = earlier + engine::all_made(setup, cards, plans, n - 1);
        if let Some(made) = engine::made(setup, cards, plans[n - 1]) {
            let more = earlier + engine::all_made(setup, cards, plans, n);
            assert(more =~= bets.push(made));
            let old = before.bankroll.maximum_single_stake;
            let largest = order::higher(old, made.amount);
            exact::lemma_extremes(value, old, made.amount);
            assert forall|i: int| 0 <= i < more.len() implies value((#[trigger] more[i]).amount)
                <= value(largest) by {
                if i < bets.len() {
                    assert(more[i] == bets[i]);
                }
            }
            assert(more[bets.len() as int] == made);
            if value(largest) != 0 as real && value(largest) == value(old) {
                let i = choose|i: int|
                    0 <= i < bets.len() && value((#[trigger] bets[i]).amount) == value(old);
                assert(more[i] == bets[i]);
            }
        }
    } else {
        assert(earlier + engine::all_made(setup, cards, plans, 0) =~= earlier);
    }
}

} // verus!
