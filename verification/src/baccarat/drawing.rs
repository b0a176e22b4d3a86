//! Laws of the drawing rules and of the rounds that a shoe is recorded with.

use vstd::prelude::*;

use crate::baccarat::records::LoadedRound;
use crate::baccarat::round;
use crate::baccarat::rule;
use crate::baccarat::schedule;

verus! {

/// The highest total on which the banker draws against a third card of the player.
pub open spec fn highest_draw(third: int) -> int {
    if third == 9 {
        3
    } else if third == 8 {
        2
    } else {
        3 + third / 2
    }
}

/// The banker draws up to a total, which rises by one with every second point of the player's third
/// card, up to seven; against an eight it is two, and against a nine three. A side that looks at no
/// third card draws as the other one does.
pub proof fn lemma_the_banker_draws_up_to_a_total(initial: int, third: int)
    requires
        0 <= initial <= 9,
        0 <= third <= 9,
    ensures
        rule::banker_draws(initial, Some(third)) <==> initial <= highest_draw(third),
        rule::banker_draws(initial, None) <==> rule::player_draws(initial),
        rule::player_draws(initial) <==> initial < 6,
{
}

/// All cards of a round belong to one of the hands: the last digit of what both come to is that of
/// what the cards come to. A round of four cards has a natural or two hands that stand.
pub proof fn lemma_every_card_counts(points: Seq<int>)
    requires
        round::dealing_error(points) is None,
        forall|i: int| 0 <= i < points.len() ==> 0 <= #[trigger] points[i] <= 9,
    ensures
        0 <= round::player_final(points) <= 9,
        0 <= round::banker_final(points) <= 9,
        ({
            let four = points[0] + points[1] + points[2] + points[3];
            let fifth = if points.len() > 4 {
                points[4]
            } else {
                0
            };
            let sixth = if points.len() > 5 {
                points[5]
            } else {
                0
            };
            (round::player_final(points) + round::banker_final(points)) % 10 == (four + fifth
                + sixth) % 10
        }),
        4 <= points.len() <= 6,
        points.len() == 4 <==> round::player_initial(points) >= 8 || round::banker_initial(points)
            >= 8 || round::player_initial(points) >= 6 && round::banker_initial(points) >= 6,
{
    let player = points[0] + points[2];
    let banker = points[1] + points[3];
    let player_third = if round::player_takes(points) {
        points[4]
    } else {
        0
    };
    let banker_third = if round::banker_takes(points) {
        points[round::cards_used(points) - 1]
    } else {
        0
    };
    assert(0 <= points[0] <= 9 && 0 <= points[1] <= 9 && 0 <= points[2] <= 9 && 0 <= points[3]
        <= 9);
    assert(0 <= player_third <= 9 && 0 <= banker_third <= 9);
    lemma_last_digit(player, player_third);
    lemma_last_digit(banker, banker_third);
    assert(round::player_final(points) == (player + player_third) % 10);
    assert(round::banker_final(points) == (banker + banker_third) % 10);
    vstd::arithmetic::div_mod::lemma_add_mod_noop(
        player + player_third,
        banker + banker_third,
        10,
    );
}

proof fn lemma_last_digit(sum: int, more: int)
    requires
        0 <= sum,
        0 <= more <= 9,
    ensures
        (sum % 10 + more) % 10 == (sum + more) % 10,
{
    vstd::arithmetic::div_mod::lemma_add_mod_noop(sum, more, 10);
}

/// A shoe that is replayed has been recorded from its first round on: every round up to a recorded
/// one is recorded too, with its cards, and nothing is wrong with it.
pub proof fn lemma_replayed_shoes_are_recorded_from_the_start(
    rounds: Seq<LoadedRound>,
    session: (u64, u64),
    i: int,
    number: int,
) -> (found: int)
    requires
        schedule::observable(rounds, session),
        schedule::member(rounds, session, i),
        1 <= number <= rounds[i].round_no,
    ensures
        schedule::member(rounds, session, found),
        rounds[found].round_no == number,
        !rounds[found].blank(),
        rounds[found].validation_error is None,
    decreases number,
{
    if number == 1 {
        choose|k: int| #[trigger] schedule::member(rounds, session, k) && rounds[k].round_no == 1
    } else {
        let before = lemma_replayed_shoes_are_recorded_from_the_start(
            rounds,
            session,
            i,
            number - 1,
        );
        assert(schedule::member(rounds, session, before) && rounds[before].round_no
            < rounds[i].round_no);
        choose|k: int| #[trigger]
            schedule::member(rounds, session, k) && rounds[k].round_no == rounds[before].round_no
                + 1
    }
}

} // verus!
