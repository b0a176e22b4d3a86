//! The drawing rules of standard baccarat.

use vstd::prelude::*;

verus! {

/// The player draws a third card on zero to five.
pub open spec fn player_draws(initial: int) -> bool {
    0 <= initial <= 5
}

/// The banker's drawing table: on zero to five when the player stood; otherwise by the
/// points of the player's third card.
pub open spec fn banker_draws(initial: int, player_third: Option<int>) -> bool {
    match player_third {
        None => 0 <= initial <= 5,
        Some(third) => {
            ||| 0 <= initial <= 2 && 0 <= third <= 9
            ||| initial == 3 && 0 <= third <= 9 && third != 8
            ||| initial == 4 && 2 <= third <= 7
            ||| initial == 5 && 4 <= third <= 7
            ||| initial == 6 && 6 <= third <= 7
        },
    }
}

/// Whether the player draws a third card.
pub fn player_should_draw(initial_total: u8) -> (draws: bool)
    ensures
        draws == player_draws(initial_total as int),
{
    initial_total <= 5
}

/// The points that a third card shows, as a number of the rules.
pub open spec fn third_points(third: Option<u8>) -> Option<int> {
    match third {
        Some(value) => Some(value as int),
        None => None,
    }
}

/// Whether the banker draws a third card.
pub fn banker_should_draw(banker_initial_total: u8, player_third_value: Option<u8>) -> (draws: bool)
    ensures
        draws == banker_draws(banker_initial_total as int, third_points(player_third_value)),
{
    match player_third_value {
        None => banker_initial_total <= 5,
        Some(third) => {
            if banker_initial_total <= 2 {
                third <= 9
            } else if banker_initial_total == 3 {
                third <= 9 && third != 8
            } else if banker_initial_total == 4 {
                2 <= third && third <= 7
            } else if banker_initial_total == 5 {
                4 <= third && third <= 7
            } else if banker_initial_total == 6 {
                6 <= third && third <= 7
            } else {
                false
            }
        },
    }
}

} // verus!
