//! Laws of the books of a day: what they hold is what the rounds of the day come to, where numbers
//! are exact.

use vstd::prelude::*;

use crate::baccarat::bet::MainBet;
use crate::baccarat::day;
use crate::baccarat::day::{BetCounts, DayBooks, DayConfig, DayCourse, DayReport};
use crate::baccarat::ev;
use crate::baccarat::records;
use crate::baccarat::risk::{BetPlan, BetPlanAction};
use crate::baccarat::round;
use crate::baccarat::totals;
use crate::card::Card;
use crate::exact;
use crate::exact::exact;
use crate::number;
use crate::number::Number;
use crate::order;

verus! {

/// How many of the first rounds something holds of.
pub open spec fn rounds_where(which: spec_fn(int) -> bool, n: int) -> nat
    decreases n,
{
    if n <= 0 {
        0
    } else {
        rounds_where(which, n - 1) + if which(n - 1) {
            1nat
        } else {
            0nat
        }
    }
}

/// The count of a bet.
pub open spec fn count_for(counts: BetCounts, bet: MainBet) -> nat {
    match bet {
        MainBet::Player => counts.player as nat,
        MainBet::Banker => counts.banker as nat,
        MainBet::Tie => counts.tie as nat,
    }
}

/// By how many points the player leads.
pub open spec fn lead(cards: Seq<Card>) -> int {
    round::player_hand_of(cards).points() - round::banker_hand_of(cards).points()
}

/// Whether a bet is on what came.
pub open spec fn hits(bet: MainBet, cards: Seq<Card>) -> bool {
    match bet {
        MainBet::Player => lead(cards) > 0,
        MainBet::Banker => lead(cards) < 0,
        MainBet::Tie => lead(cards) == 0,
    }
}

/// What a bet earns for a unit of stake: a player bet one, a banker bet nineteen twentieths, a tie
/// bet eight, where it hits; nothing where a tie returns it; the loss of the stake otherwise; and
/// the rebate, where the rate is above zero and the bet was not returned.
pub open spec fn earns<E: Number>(
    value: spec_fn(E) -> real,
    config: DayConfig<E>,
    bet: MainBet,
    cards: Seq<Card>,
) -> real {
    let rate = if value(config.rebate_rate) > 0 as real {
        value(config.rebate_rate)
    } else {
        0 as real
    };
    if hits(bet, cards) {
        rate + match bet {
            MainBet::Player => 1 as real,
            MainBet::Banker => 19 as real / 20 as real,
            MainBet::Tie => 8 as real,
        }
    } else if lead(cards) == 0 {
        0 as real
    } else {
        rate - 1 as real
    }
}

/// The rounds whose best bet is a given one.
pub open spec fn best_is<E>(run: Seq<BetPlan<E>>, bet: MainBet) -> spec_fn(int) -> bool {
    |k: int| run[k].decision.candidate == bet
}

/// The rounds in which a bet is made.
pub open spec fn made_is<E>(run: Seq<BetPlan<E>>, bet: MainBet) -> spec_fn(int) -> bool {
    |k: int| run[k].action matches BetPlanAction::Place { bet: made, .. } && made == bet
}

/// The rounds in which no bet is made.
pub open spec fn none_made<E>(run: Seq<BetPlan<E>>) -> spec_fn(int) -> bool {
    |k: int| run[k].action is Skip
}

/// The rounds in which some bet is made.
pub open spec fn some_made<E>(run: Seq<BetPlan<E>>) -> spec_fn(int) -> bool {
    |k: int| run[k].action is Place
}

/// The rounds in which a bet is made that hits.
pub open spec fn some_hits<E>(run: Seq<BetPlan<E>>, course: DayCourse) -> spec_fn(int) -> bool {
    |k: int|
        run[k].action matches BetPlanAction::Place { bet, .. } && hits(bet, course.cards(k))
}

/// What the best bets of the rounds are worth.
pub open spec fn worths<E>(value: spec_fn(E) -> real, run: Seq<BetPlan<E>>) -> spec_fn(int) -> real {
    |k: int| value(run[k].decision.effective_ev)
}

/// The stakes of the rounds.
pub open spec fn stakes<E>(value: spec_fn(E) -> real, run: Seq<BetPlan<E>>) -> spec_fn(int) -> real {
    |k: int|
        match run[k].action {
            BetPlanAction::Place { amount, .. } => value(amount),
            BetPlanAction::Skip { .. } => 0 as real,
        }
}

/// The profits that are expected of the rounds.
pub open spec fn hopes<E>(value: spec_fn(E) -> real, run: Seq<BetPlan<E>>) -> spec_fn(int) -> real {
    |k: int|
        match run[k].action {
            BetPlanAction::Place { amount, .. } => value(amount) * value(
                run[k].decision.effective_ev,
            ),
            BetPlanAction::Skip { .. } => 0 as real,
        }
}

/// The profits of the rounds.
pub open spec fn profits<E: Number>(
    value: spec_fn(E) -> real,
    config: DayConfig<E>,
    course: DayCourse,
    run: Seq<BetPlan<E>>,
) -> spec_fn(int) -> real {
    |k: int|
        match run[k].action {
            BetPlanAction::Place { bet, amount } => value(amount) * earns(
                value,
                config,
                bet,
                course.cards(k),
            ),
            BetPlanAction::Skip { .. } => 0 as real,
        }
}

proof fn lemma_earned<E: Number>(
    value: spec_fn(E) -> real,
    config: DayConfig<E>,
    bet: MainBet,
    cards: Seq<Card>,
)
    requires
        exact(value),
    ensures
        value(DayBooks::<E>::earned(config, bet, records::winner_of(cards))) == earns(
            value,
            config,
            bet,
            cards,
        ),
        day::names(bet, records::winner_of(cards)) == hits(bet, cards),
{
    let outcome = records::winner_of(cards);
    assert(order::above(config.rebate_rate, number::small::<E>(0)) <==> value(config.rebate_rate)
        > 0 as real);
    let player = value(ev::hundredths::<E>(100));
    let banker = value(ev::hundredths::<E>(95));
    let tie = value(ev::hundredths::<E>(800));
    assert(player * 100 as real == 100 as real);
    assert(banker * 100 as real == 95 as real);
    assert(tie * 100 as real == 800 as real);
    let settled = config.payouts().settled(bet, outcome, 0);
    assert(value(ev::minus_one::<E>()) == -1 as real);
}

/// What the books of a day say of the first rounds: how often each bet was the best and was made,
/// how often none was made, how many bets hit, and what the worths of the best bets, the stakes,
/// the expected profits and the profits come to.
pub open spec fn day_tells<E: Number>(
    value: spec_fn(E) -> real,
    books: DayBooks<E>,
    config: DayConfig<E>,
    course: DayCourse,
    run: Seq<BetPlan<E>>,
    n: int,
) -> bool {
    &&& forall|bet: MainBet|
        #![trigger count_for(books.candidate_bets, bet)]
        count_for(books.candidate_bets, bet) == rounds_where(best_is(run, bet), n)
    &&& forall|bet: MainBet|
        #![trigger count_for(books.placed_bets, bet)]
        count_for(books.placed_bets, bet) == rounds_where(made_is(run, bet), n)
    &&& books.placed_bets.all() == rounds_where(some_made(run), n)
    &&& books.skipped_bets == rounds_where(none_made(run), n)
    &&& books.placed_bet_wins == rounds_where(some_hits(run, course), n)
    &&& value(books.effective_ev_sum) == totals::sum_below(worths(value, run), n)
    &&& value(books.total_suggested_stake) == totals::sum_below(stakes(value, run), n)
    &&& value(books.total_expected_profit) == totals::sum_below(hopes(value, run), n)
    &&& value(books.hypothetical_actual_profit) == totals::sum_below(
        profits(value, config, course, run),
        n,
    )
}

/// The books of a day tell of the bets of its rounds.
pub proof fn lemma_day_books_tell_of_the_bets<E: Number>(
    value: spec_fn(E) -> real,
    config: DayConfig<E>,
    course: DayCourse,
    run: Seq<BetPlan<E>>,
    n: int,
)
    requires
        exact(value),
        0 <= n <= run.len(),
        n < u64::MAX,
    ensures
        day_tells(value, day::books_after(config, course, run, n), config, course, run, n),
    decreases n,
{
    if n > 0 {
        lemma_day_books_tell_of_the_bets(value, config, course, run, n - 1);
        day::lemma_day_books_count_every_round(config, course, run, n - 1);
        let before = day::books_after(config, course, run, n - 1);
        let after = day::books_after(config, course, run, n);
        let plan = run[n - 1];
        let cards = course.cards(n - 1);
        reveal(DayBooks::with_round);
        assert(after == before.with_round(config, plan, records::winner_of(cards)));
        assert forall|bet: MainBet|
            #![trigger count_for(after.candidate_bets, bet)]
            count_for(after.candidate_bets, bet) == rounds_where(best_is(run, bet), n) by {
            assert(count_for(before.candidate_bets, bet) == rounds_where(
                best_is(run, bet),
                n - 1,
            ));
        }
        assert forall|bet: MainBet|
            #![trigger count_for(after.placed_bets, bet)]
            count_for(after.placed_bets, bet) == rounds_where(made_is(run, bet), n) by {
            assert(count_for(before.placed_bets, bet) == rounds_where(made_is(run, bet), n - 1));
        }
        if let BetPlanAction::Place { bet, amount } = plan.action {
            lemma_earned(value, config, bet, cards);
        }
    } else {
        assert forall|bet: MainBet|
            #![trigger count_for(DayBooks::<E>::start().candidate_bets, bet)]
            count_for(DayBooks::<E>::start().candidate_bets, bet) == rounds_where(
                best_is(run, bet),
                n,
            ) by {}
    }
}

/// The books of a day hold the least and the greatest worth of the best bets of its rounds.
pub proof fn lemma_day_books_tell_the_range_of_worths<E: Number>(
    value: spec_fn(E) -> real,
    config: DayConfig<E>,
    course: DayCourse,
    run: Seq<BetPlan<E>>,
    n: int,
)
    requires
        exact(value),
        0 < n <= run.len(),
    ensures
        ({
            let books = day::books_after(config, course, run, n);
            let worths = worths(value, run);
            &&& books.minimum_candidate_effective_ev matches Some(least) && totals::is_lowest(
                worths,
                n - 1,
                value(least),
            )
            &&& books.maximum_candidate_effective_ev matches Some(most) && totals::is_highest(
                worths,
                n - 1,
                value(most),
            )
        }),
    decreases n,
{
    reveal(DayBooks::with_round);
    let before = day::books_after(config, course, run, n - 1);
    let after = day::books_after(config, course, run, n);
    let worths = worths(value, run);
    let plan = run[n - 1];
    let last = plan.decision.effective_ev;
    assert(after == before.with_round(config, plan, records::winner_of(course.cards(n - 1))));
    assert(worths(n - 1) == value(last));
    if n > 1 {
        lemma_day_books_tell_the_range_of_worths(value, config, course, run, n - 1);
        let least = before.minimum_candidate_effective_ev->0;
        let most = before.maximum_candidate_effective_ev->0;
        exact::lemma_extremes(value, least, last);
        exact::lemma_extremes(value, most, last);
        let i = choose|i: int| 0 <= i <= n - 2 && #[trigger] worths(i) == value(least);
        let j = choose|j: int| 0 <= j <= n - 2 && #[trigger] worths(j) == value(most);
        assert(worths(i) == value(least) && worths(j) == value(most));
        let low = value(after.minimum_candidate_effective_ev->0);
        let high = value(after.maximum_candidate_effective_ev->0);
        assert(worths(i) == low || worths(n - 1) == low);
        assert(worths(j) == high || worths(n - 1) == high);
    } else {
        assert(before == DayBooks::<E>::start());
    }
}

/// The report of a day tells of all its rounds: the part of the bets made that hit, and the mean
/// worth of the best bets.
pub proof fn lemma_a_day_report_tells_of_the_bets<E: Number>(
    value: spec_fn(E) -> real,
    report: DayReport<E>,
    config: DayConfig<E>,
    course: DayCourse,
    run: Seq<BetPlan<E>>,
)
    requires
        exact(value),
        day::is_day_report(report, config, course, run),
        course.order.len() < u64::MAX,
    ensures
        ({
            let n = course.order.len() as int;
            let made = rounds_where(some_made(run), n);
            let hit = rounds_where(some_hits(run, course), n);
            &&& report.replayed_rounds == n
            &&& report.probability_cache_hits + report.probability_cache_misses == n
            &&& day_tells(value, report.books, config, course, run, n)
            &&& match report.placed_bet_hit_rate {
                Some(rate) => made > 0 && value(rate) * made as real == hit as real,
                None => made == 0,
            }
            &&& match report.average_candidate_effective_ev {
                Some(mean) => n > 0 && value(mean) * n as real == totals::sum_below(
                    worths(value, run),
                    n,
                ),
                None => n == 0,
            }
        }),
{
    let n = course.order.len() as int;
    lemma_day_books_tell_of_the_bets(value, config, course, run, n);
    day::lemma_day_books_count_every_round(config, course, run, n);
    let books = report.books;
    let placed = books.placed_bets.all();
    lemma_lookups(course, n);
    if placed > 0 {
        exact::lemma_share(value, books.placed_bet_wins as int, placed);
    }
    if n > 0 {
        exact::lemma_whole(value, n);
    }
}

proof fn lemma_lookups(course: DayCourse, n: int)
    requires
        0 <= n,
    ensures
        course.lookups(n).0 + course.lookups(n).1 == n,
    decreases n,
{
    if n > 0 {
        lemma_lookups(course, n - 1);
    }
}

} // verus!
