use game_ev_engine::blackjack::{blackjack_value_counts, HandState};
use game_ev_engine::{
    analyze_blackjack_hand, BlackjackAction, BlackjackError, BlackjackRules, Card, Rank, Scale,
    Shoe, Suit,
};

fn card(rank: Rank, suit: Suit) -> Card {
    Card::new(rank, suit)
}

fn prepared_shoe(player: &[Card], dealer: Card) -> Shoe {
    let mut shoe = Shoe::new(8).expect("eight decks make a shoe");
    shoe.remove_many(player).expect("the player's cards are there");
    shoe.remove(dealer).expect("the dealer's card is there");
    shoe
}

fn standard() -> BlackjackRules<f64> {
    BlackjackRules::standard().per_unit()
}

fn scale() -> Scale<f64> {
    Scale { least: f64::MIN, zero: 0.0, one: 1.0, largest: f64::MAX }
}

#[test]
fn hand_totals_treat_one_ace_as_eleven_when_safe() {
    let soft =
        HandState::from_cards(&[card(Rank::Ace, Suit::Spades), card(Rank::Six, Suit::Hearts)]);
    assert_eq!(soft.total(), 17);
    assert!(soft.is_soft());

    let hard = soft.add_value(9);
    assert_eq!(hard.total(), 17);
    assert!(!hard.is_soft());
}

#[test]
fn ten_jack_queen_and_king_share_one_probability_class() {
    let shoe = Shoe::new(8).expect("八副牌合法");
    let counts = blackjack_value_counts(&shoe);
    assert_eq!(counts[0], 32);
    assert_eq!(counts[9], 128);
    assert_eq!(counts.iter().sum::<u16>(), 416);
}

#[test]
fn natural_blackjack_pays_three_to_two_after_a_clear_peek() {
    let player = [
        card(Rank::Ace, Suit::Spades),
        card(Rank::King, Suit::Hearts),
    ];
    let dealer = card(Rank::Ace, Suit::Clubs);
    let shoe = prepared_shoe(&player, dealer);
    let analysis = analyze_blackjack_hand(scale(), &shoe, &player, dealer, standard())
        .expect("天然 Blackjack 应可分析");

    assert_eq!(analysis.optimal_action, BlackjackAction::Blackjack);
    assert_eq!(analysis.optimal_ev, 1.5);
    assert!(analysis.dealer_blackjack_probability_before_peek > 0.0);
    assert!(analysis.conditional_on_no_dealer_blackjack);
}

#[test]
fn six_to_five_rule_changes_only_the_natural_payout() {
    let player = [
        card(Rank::Ace, Suit::Spades),
        card(Rank::King, Suit::Hearts),
    ];
    let dealer = card(Rank::Six, Suit::Clubs);
    let shoe = prepared_shoe(&player, dealer);
    let rules: BlackjackRules<f64> = BlackjackRules {
        blackjack_payout: 1.2,
        ..standard()
    };
    let analysis = analyze_blackjack_hand(scale(), &shoe, &player, dealer, rules)
        .expect("6:5 天然 Blackjack 应可分析");

    assert_eq!(analysis.optimal_action, BlackjackAction::Blackjack);
    assert_eq!(analysis.optimal_ev, 1.2);
}

#[test]
fn ace_upcard_exposes_insurance_ev_from_the_pre_peek_probability() {
    let player = [
        card(Rank::Five, Suit::Spades),
        card(Rank::Six, Suit::Hearts),
    ];
    let dealer = card(Rank::Ace, Suit::Clubs);
    let shoe = prepared_shoe(&player, dealer);
    let analysis = analyze_blackjack_hand(scale(), &shoe, &player, dealer, standard())
        .expect("庄家 A 明牌应可计算保险");
    let probability = analysis.dealer_blackjack_probability_before_peek;

    assert!(analysis.conditional_on_no_dealer_blackjack);
    assert!((probability - 128.0 / 413.0).abs() < 1e-12);
    assert!(
        (analysis.insurance_ev.expect("A 明牌应有保险 EV") - (3.0 * probability - 1.0)).abs()
            < 1e-12
    );
}

#[test]
fn obvious_hard_totals_choose_expected_actions() {
    let rules = standard();
    let twenty = [
        card(Rank::King, Suit::Spades),
        card(Rank::Queen, Suit::Hearts),
    ];
    let dealer_six = card(Rank::Six, Suit::Clubs);
    let shoe = prepared_shoe(&twenty, dealer_six);
    let analysis =
        analyze_blackjack_hand(scale(), &shoe, &twenty, dealer_six, rules).expect("硬 20 应可分析");
    assert_eq!(analysis.optimal_action, BlackjackAction::Stand);

    let eleven = [
        card(Rank::Five, Suit::Spades),
        card(Rank::Six, Suit::Hearts),
    ];
    let dealer_six = card(Rank::Six, Suit::Diamonds);
    let shoe = prepared_shoe(&eleven, dealer_six);
    let analysis =
        analyze_blackjack_hand(scale(), &shoe, &eleven, dealer_six, rules).expect("硬 11 应可分析");
    assert_eq!(analysis.optimal_action, BlackjackAction::Double);
}

#[test]
fn pair_exposes_a_split_candidate() {
    let player = [
        card(Rank::Eight, Suit::Spades),
        card(Rank::Eight, Suit::Hearts),
    ];
    let dealer = card(Rank::Six, Suit::Clubs);
    let shoe = prepared_shoe(&player, dealer);
    let analysis = analyze_blackjack_hand(scale(), &shoe, &player, dealer, standard())
        .expect("对子应可分析");

    assert!(analysis.actions.split.is_some());
    assert!(analysis.split_ev_is_independent_hand_estimate);
}

#[test]
fn late_surrender_can_be_the_best_action_for_hard_sixteen() {
    let player = [card(Rank::Ten, Suit::Spades), card(Rank::Six, Suit::Hearts)];
    let dealer = card(Rank::Ten, Suit::Clubs);
    let shoe = prepared_shoe(&player, dealer);
    let analysis = analyze_blackjack_hand(scale(), &shoe, &player, dealer, standard())
        .expect("硬 16 对十点牌应可分析");

    assert_eq!(analysis.optimal_action, BlackjackAction::Surrender);
    assert_eq!(analysis.actions.surrender, Some(-0.5));
}

#[test]
fn hands_that_cannot_be_analysed_are_refused() {
    let ace = card(Rank::Ace, Suit::Spades);
    let shoe = Shoe::default();
    assert_eq!(
        analyze_blackjack_hand(scale(), &shoe, &[ace], ace, standard()),
        Err(BlackjackError::ExpectedTwoPlayerCards(1))
    );
    let player = [ace, card(Rank::Two, Suit::Spades)];
    let rules: BlackjackRules<f64> = BlackjackRules { blackjack_payout: -1.5, ..standard() };
    assert_eq!(
        analyze_blackjack_hand(scale(), &shoe, &player, ace, rules),
        Err(BlackjackError::InvalidBlackjackPayout(-1.5))
    );
    let rules: BlackjackRules<f64> = BlackjackRules { max_split_hands: 5, ..standard() };
    assert_eq!(
        analyze_blackjack_hand(scale(), &shoe, &player, ace, rules),
        Err(BlackjackError::InvalidMaxSplitHands(5))
    );
    let one = Shoe::from_remaining(8, &[ace]).expect("the card fits into the shoe");
    assert_eq!(
        analyze_blackjack_hand(scale(), &one, &player, ace, standard()),
        Err(BlackjackError::NotEnoughCards(1))
    );
    let tens = [card(Rank::King, Suit::Spades), card(Rank::Ten, Suit::Clubs)];
    let shoe = Shoe::from_remaining(8, &tens).expect("the cards fit into the shoe");
    assert_eq!(
        analyze_blackjack_hand(scale(), &shoe, &player, ace, standard()),
        Err(BlackjackError::NoPossibleDealerHoleCard)
    );
}

#[test]
fn a_small_shoe_has_the_values_of_its_few_deals() {
    // Two tens and a five are unseen; the dealer shows a ten, the player stands on eighteen.
    // The hidden card is a ten with 2/3 (twenty: the player loses) and a five with 1/3: then the
    // dealer draws one of the two tens and busts.
    let unseen = [
        card(Rank::King, Suit::Spades),
        card(Rank::Queen, Suit::Clubs),
        card(Rank::Five, Suit::Hearts),
    ];
    let shoe = Shoe::from_remaining(8, &unseen).expect("the cards fit into the shoe");
    let player = [card(Rank::Nine, Suit::Spades), card(Rank::Nine, Suit::Hearts)];
    let dealer = card(Rank::Ten, Suit::Diamonds);
    let analysis = analyze_blackjack_hand(scale(), &shoe, &player, dealer, standard())
        .expect("the hand can be analysed");
    let stand = analysis.actions.stand.expect("standing is possible");
    assert!((stand - (-1.0 / 3.0)).abs() < 1e-12);
    // Any card busts an eighteen.
    assert_eq!(analysis.actions.hit, Some(-1.0));
    assert_eq!(analysis.actions.double, Some(-2.0));
    assert_eq!(analysis.player_total, 18);
    assert!(!analysis.player_soft);
    assert_eq!(analysis.dealer_upcard, "10");
    assert_eq!(analysis.dealer_blackjack_probability_before_peek, 0.0);
    assert_eq!(analysis.insurance_ev, None);
}

#[test]
fn error_texts_name_the_numbers() {
    let error: BlackjackError<f64> = BlackjackError::ExpectedTwoPlayerCards(3);
    assert_eq!(error.to_string(""), "expected exactly two player cards; got 3");
    let error: BlackjackError<f64> = BlackjackError::InvalidBlackjackPayout(-1.5);
    assert_eq!(error.to_string("-1.5"), "blackjack payout must be finite and positive; got -1.5");
}

#[test]
fn a_ten_and_a_king_are_no_pair() {
    let player = [card(Rank::Ten, Suit::Spades), card(Rank::King, Suit::Hearts)];
    let dealer = card(Rank::Six, Suit::Clubs);
    let shoe = prepared_shoe(&player, dealer);
    let analysis = analyze_blackjack_hand(scale(), &shoe, &player, dealer, standard())
        .expect("the hand can be analysed");
    assert_eq!(analysis.player_total, 20);
    assert!(!analysis.pair);
    assert_eq!(analysis.actions.split, None);
    assert!(!analysis.split_ev_is_independent_hand_estimate);

    let kings = [card(Rank::King, Suit::Spades), card(Rank::King, Suit::Hearts)];
    let shoe = prepared_shoe(&kings, dealer);
    let paired = analyze_blackjack_hand(scale(), &shoe, &kings, dealer, standard())
        .expect("the hand can be analysed");
    assert!(paired.pair);
    assert!(paired.actions.split.is_some());
    assert!(paired.split_ev_is_independent_hand_estimate);
    assert_eq!(paired.actions.stand, analysis.actions.stand);
}
