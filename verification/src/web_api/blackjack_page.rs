//! The analysis of a blackjack hand for a page.

use vstd::prelude::*;

use crate::blackjack;
use crate::blackjack::analysis;
use crate::blackjack::analysis::{analyze_blackjack_hand, BlackjackAnalysis};
use crate::blackjack::{BlackjackAction, BlackjackRules};
use crate::number;
use crate::number::Number;
use crate::scale::Scale;
use crate::web_api;
use crate::web_api::{read_blackjack_table, BlackjackInput, PageError};

verus! {

/// What a page shows of a blackjack hand.
#[derive(Debug)]
pub struct BrowserBlackjackAnalysis<E> {
    pub source_mode: String,
    pub decks: u8,
    pub input_shoe_card_count: usize,
    /// The number of unseen cards.
    pub remaining_card_count: u16,
    pub current_base_stake: E,
    /// How many times the stake must be put in again.
    pub additional_stake_units: E,
    pub suggested_additional_stake: E,
    pub analysis: BlackjackAnalysis<E>,
}

/// How many times an action asks for the stake again.
pub open spec fn stake_units<E: Number>(action: BlackjackAction) -> E {
    match action {
        BlackjackAction::Double => number::small::<E>(1),
        BlackjackAction::Split => number::small::<E>(1),
        _ => number::small::<E>(0),
    }
}

/// The common rules with what a page sets.
pub open spec fn page_rules<E: Number>(
    dealer_hits_soft_17: bool,
    blackjack_payout: E,
    late_surrender: bool,
) -> BlackjackRules<E> {
    BlackjackRules {
        dealer_hits_soft_17,
        blackjack_payout,
        late_surrender,
        ..blackjack::standard_rules().in_units::<E>()
    }
}

impl<E: Number> BrowserBlackjackAnalysis<E> {
    /// Whether this is what a page shows of a hand.
    pub open spec fn shows(
        self,
        input: BlackjackInput,
        decks: u8,
        rules: BlackjackRules<E>,
        stake: E,
    ) -> bool {
        &&& self.source_mode@ == input.source_mode@
        &&& self.decks == decks
        &&& self.input_shoe_card_count == input.shoe_card_count
        &&& self.remaining_card_count == input.shoe@.total()
        &&& self.current_base_stake == stake
        &&& self.additional_stake_units == stake_units::<E>(self.analysis.optimal_action)
        &&& self.suggested_additional_stake == number::product(self.additional_stake_units, stake)
        &&& analysis::is_analysis(
            self.analysis,
            input.shoe@,
            input.player_cards@,
            input.dealer_upcard,
            rules,
        )
    }
}

/// Whether a result is the analysis of what was read.
pub open spec fn answers_hand<E: Number>(
    result: Result<BrowserBlackjackAnalysis<E>, PageError<E>>,
    scale: Scale<E>,
    input: Result<BlackjackInput, String>,
    decks: u8,
    rules: BlackjackRules<E>,
    stake: E,
) -> bool {
    match input {
        Err(message) => result matches Err(error) && error.says(message@),
        Ok(input) => match blackjack::hand_error(
            scale,
            input.shoe@,
            input.player_cards@,
            input.dealer_upcard,
            rules,
        ) {
            Some(found) => result matches Err(PageError::Hand(error)) && error == found,
            None => result matches Ok(page) && page.shows(input, decks, rules, stake),
        },
    }
}

/// Analyses the first two cards of a player for a page. The stake must be positive; then the
/// cards are read, and the hand is analysed with the common rules and what the page sets.
pub fn analyze_blackjack<E: Number>(
    scale: Scale<E>,
    source_mode: &str,
    decks: u8,
    shoe_cards_text: &str,
    player_cards_text: &str,
    dealer_upcard_text: &str,
    dealer_hits_soft_17: bool,
    blackjack_payout: E,
    late_surrender: bool,
    current_base_stake: E,
) -> (result: Result<BrowserBlackjackAnalysis<E>, PageError<E>>)
    requires
        number::arithmetic::<E>(),
    ensures
        if !scale.positive(current_base_stake) {
            result matches Err(error) && error.says("当前底注必须是有限正数"@)
        } else {
            exists|input: Result<BlackjackInput, String>|
                #[trigger] web_api::tells_table(
                    input,
                    source_mode@,
                    decks,
                    shoe_cards_text@,
                    player_cards_text@,
                    dealer_upcard_text@,
                ) && answers_hand(
                    result,
                    scale,
                    input,
                    decks,
                    page_rules(dealer_hits_soft_17, blackjack_payout, late_surrender),
                    current_base_stake,
                )
        },
{
    if !scale.is_positive(current_base_stake) {
        return Err(PageError::Message("当前底注必须是有限正数".to_owned()));
    }
    let read: Result<BlackjackInput, String> = read_blackjack_table(
        source_mode,
        decks,
        shoe_cards_text,
        player_cards_text,
        dealer_upcard_text,
    );
    let ghost told = read;
    let input: BlackjackInput = match read {
        Ok(input) => input,
        Err(message) => {
            let result: Result<BrowserBlackjackAnalysis<E>, PageError<E>> = Err(
                PageError::Message(message),
            );
            assert(answers_hand(
                result,
                scale,
                told,
                decks,
                page_rules(dealer_hits_soft_17, blackjack_payout, late_surrender),
                current_base_stake,
            ));
            return result;
        },
    };
    let mut rules: BlackjackRules<E> = BlackjackRules::standard().per_unit::<E>();
    rules.dealer_hits_soft_17 = dealer_hits_soft_17;
    rules.blackjack_payout = blackjack_payout;
    rules.late_surrender = late_surrender;
    assert(rules == page_rules(dealer_hits_soft_17, blackjack_payout, late_surrender));
    let analysis: BlackjackAnalysis<E> = match analyze_blackjack_hand(
        scale,
        &input.shoe,
        input.player_cards.as_slice(),
        input.dealer_upcard,
        rules,
    ) {
        Ok(analysis) => analysis,
        Err(error) => {
            let result: Result<BrowserBlackjackAnalysis<E>, PageError<E>> = Err(
                PageError::Hand(error),
            );
            assert(answers_hand(result, scale, told, decks, rules, current_base_stake));
            return result;
        },
    };
    let additional_stake_units: E = match analysis.optimal_action {
        BlackjackAction::Double => E::from(1u32),
        BlackjackAction::Split => E::from(1u32),
        _ => E::from(0u32),
    };
    let remaining_card_count: u16 = input.shoe.total_remaining();
    let page: BrowserBlackjackAnalysis<E> = BrowserBlackjackAnalysis {
        source_mode: input.source_mode,
        decks,
        input_shoe_card_count: input.shoe_card_count,
        remaining_card_count,
        current_base_stake,
        additional_stake_units,
        suggested_additional_stake: additional_stake_units * current_base_stake,
        analysis,
    };
    let result: Result<BrowserBlackjackAnalysis<E>, PageError<E>> = Ok(page);
    assert(answers_hand(result, scale, told, decks, rules, current_base_stake));
    result
}

} // verus!
