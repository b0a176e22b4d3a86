use game_ev_engine::baccarat::round::resolve_point_round;
use game_ev_engine::baccarat::rule::{banker_should_draw, player_should_draw};
use game_ev_engine::{resolve_round, BaccaratHand, Card, RoundError, RoundOutcome};

fn card(input: &str) -> Card {
    input.parse().expect("the card is valid")
}

fn cards(input: &str) -> Vec<Card> {
    input
        .split_whitespace()
        .map(|card| card.parse().expect("the card is valid"))
        .collect()
}

#[test]
fn two_card_hand_keeps_cards_and_has_no_third_card() {
    let first = card("AS");
    let second = card("3H");
    let hand = BaccaratHand::new(first, second);

    assert_eq!(hand.first_card(), first);
    assert_eq!(hand.second_card(), second);
    assert_eq!(hand.third_card(), None);
    assert_eq!(hand.card_count(), 2);
}

#[test]
fn two_card_total_uses_the_ones_digit() {
    let hand = BaccaratHand::new(card("7S"), card("8H"));

    assert_eq!(hand.initial_total(), 5);
    assert_eq!(hand.total(), 5);
    assert!(!hand.is_natural());
}

#[test]
fn ten_and_face_cards_are_zero_points() {
    let hand = BaccaratHand::new(card("KS"), card("QH"));

    assert_eq!(hand.initial_total(), 0);
    assert_eq!(hand.total(), 0);
    assert!(!hand.is_natural());
}

#[test]
fn two_card_eight_is_natural() {
    let hand = BaccaratHand::new(card("AS"), card("7H"));

    assert_eq!(hand.initial_total(), 8);
    assert_eq!(hand.total(), 8);
    assert_eq!(hand.card_count(), 2);
    assert!(hand.is_natural());
}

#[test]
fn two_card_nine_is_natural() {
    let hand = BaccaratHand::new(card("AS"), card("8H"));

    assert_eq!(hand.initial_total(), 9);
    assert_eq!(hand.total(), 9);
    assert_eq!(hand.card_count(), 2);
    assert!(hand.is_natural());
}

#[test]
fn third_card_changes_only_the_final_total() {
    let third = card("8D");
    let hand = BaccaratHand::with_third(card("9S"), card("7H"), third);

    assert_eq!(hand.initial_total(), 6);
    assert_eq!(hand.total(), 4);
    assert_eq!(hand.card_count(), 3);
    assert_eq!(hand.third_card(), Some(third));
    assert!(!hand.is_natural());
}

#[test]
fn three_card_eight_is_not_natural() {
    let hand = BaccaratHand::with_third(card("2S"), card("3H"), card("3D"));

    assert_eq!(hand.initial_total(), 5);
    assert_eq!(hand.total(), 8);
    assert_eq!(hand.card_count(), 3);
    assert!(!hand.is_natural());
}

#[test]
fn hand_with_a_third_card_is_not_natural_even_if_initial_total_is_eight() {
    let hand = BaccaratHand::with_third(card("AS"), card("7H"), card("3D"));

    assert_eq!(hand.initial_total(), 8);
    assert_eq!(hand.card_count(), 3);
    assert!(!hand.is_natural());
}

#[test]
fn player_draws_on_zero_through_five_and_stands_on_six_through_nine() {
    let cases = [
        (0, true),
        (1, true),
        (2, true),
        (3, true),
        (4, true),
        (5, true),
        (6, false),
        (7, false),
        (8, false),
        (9, false),
    ];

    for (initial_total, expected) in cases {
        assert_eq!(
            player_should_draw(initial_total),
            expected,
            "闲家起手点数为 {initial_total}"
        );
    }
}

#[test]
fn banker_drawing_rule_matches_the_complete_table() {
    let without_player_third = [
        true, true, true, true, true, true, false, false, false, false,
    ];
    let with_player_third = [
        [true; 10],
        [true; 10],
        [true; 10],
        [true, true, true, true, true, true, true, true, false, true],
        [
            false, false, true, true, true, true, true, true, false, false,
        ],
        [
            false, false, false, false, true, true, true, true, false, false,
        ],
        [
            false, false, false, false, false, false, true, true, false, false,
        ],
        [false; 10],
        [false; 10],
        [false; 10],
    ];

    for banker_total in 0_u8..=9 {
        assert_eq!(
            banker_should_draw(banker_total, None),
            without_player_third[usize::from(banker_total)],
            "闲家未补牌，庄家起手点数为 {banker_total}"
        );

        for player_third in 0_u8..=9 {
            assert_eq!(
                banker_should_draw(banker_total, Some(player_third)),
                with_player_third[usize::from(banker_total)][usize::from(player_third)],
                "庄家起手点数为 {banker_total}，闲家第三张牌点数为 {player_third}"
            );
        }
    }
}

#[test]
fn resolves_all_necessary_dealing_paths() {
    let cases = [
        ("AS 4C 7H 3D", RoundOutcome::Player, 8, 7, 2, 2),
        ("KC 2C QH KS 5D 4H", RoundOutcome::Banker, 5, 6, 3, 3),
        ("2C 4H 3D 2S 5C", RoundOutcome::Banker, 0, 6, 3, 2),
        ("2C 2H 4D 3S 4C", RoundOutcome::Banker, 6, 9, 2, 3),
        ("2C 3H 4D 4S", RoundOutcome::Banker, 6, 7, 2, 2),
        ("2C 3H 4D 3S", RoundOutcome::Tie, 6, 6, 2, 2),
    ];

    for (input, outcome, player_total, banker_total, player_cards, banker_cards) in cases {
        let result = resolve_round(&cards(input)).expect("测试牌局应符合补牌规则");

        assert_eq!(result.outcome(), outcome, "发牌序列为 {input}");
        assert_eq!(
            result.player_hand().total(),
            player_total,
            "发牌序列为 {input}"
        );
        assert_eq!(
            result.banker_hand().total(),
            banker_total,
            "发牌序列为 {input}"
        );
        assert_eq!(
            result.player_hand().card_count(),
            player_cards,
            "发牌序列为 {input}"
        );
        assert_eq!(
            result.banker_hand().card_count(),
            banker_cards,
            "发牌序列为 {input}"
        );
        assert_eq!(
            result.card_count(),
            player_cards + banker_cards,
            "发牌序列为 {input}"
        );
    }
}

#[test]
fn rejects_incomplete_or_extra_dealing_sequences() {
    let cases = [
        ("AS 2H 3D", RoundError::NotEnoughInitialCards),
        ("KC 2C QH 4S", RoundError::MissingPlayerThirdCard),
        ("2C 2H 4D 3S", RoundError::MissingBankerThirdCard),
        ("AS 4C 7H 3D 5S", RoundError::UnexpectedExtraCards),
    ];

    for (input, expected) in cases {
        assert_eq!(
            resolve_round(&cards(input)),
            Err(expected),
            "发牌序列为 {input}"
        );
    }
}

#[test]
fn resolves_point_round_natural_after_four_cards() {
    let result = resolve_point_round(&[1, 4, 7, 3]).expect("Natural 牌局应在四张牌后结束");

    assert_eq!(result.player_total(), 8);
    assert_eq!(result.banker_total(), 7);
    assert_eq!(result.card_count(), 4);
    assert_eq!(result.outcome(), RoundOutcome::Player);
}

#[test]
fn resolves_point_round_when_both_sides_draw() {
    let result = resolve_point_round(&[0, 2, 0, 0, 5, 4]).expect("双方补牌的牌局应正常结束");

    assert_eq!(result.player_total(), 5);
    assert_eq!(result.banker_total(), 6);
    assert_eq!(result.card_count(), 6);
    assert_eq!(result.outcome(), RoundOutcome::Banker);
}

#[test]
fn resolves_point_round_when_player_stands_and_banker_draws() {
    let result =
        resolve_point_round(&[3, 0, 3, 1, 2]).expect("闲家停牌、庄家补牌的牌局应正常结束");

    assert_eq!(result.player_total(), 6);
    assert_eq!(result.banker_total(), 3);
    assert_eq!(result.card_count(), 5);
    assert_eq!(result.outcome(), RoundOutcome::Player);
}

#[test]
fn resolves_point_round_tie_after_four_cards() {
    let result = resolve_point_round(&[2, 3, 4, 3]).expect("四张牌和局应正常结束");

    assert_eq!(result.player_total(), 6);
    assert_eq!(result.banker_total(), 6);
    assert_eq!(result.card_count(), 4);
    assert_eq!(result.outcome(), RoundOutcome::Tie);
}

#[test]
fn point_round_reports_missing_cards_and_extra_cards() {
    assert_eq!(
        resolve_point_round(&[0, 2, 0, 0]),
        Err(RoundError::MissingPlayerThirdCard)
    );
    assert_eq!(
        resolve_point_round(&[3, 0, 3, 1]),
        Err(RoundError::MissingBankerThirdCard)
    );
    assert_eq!(
        resolve_point_round(&[1, 4, 7, 3, 5]),
        Err(RoundError::UnexpectedExtraCards)
    );
}
