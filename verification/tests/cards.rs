use game_ev_engine::{Card, CardParseError, Rank, Suit};

#[test]
fn all_52_cards_round_trip_through_ascii_display() {
    let mut tested = 0;

    for suit in Suit::ALL {
        for rank in Rank::ALL {
            let card = Card::new(rank, suit);
            let displayed = card.to_string();

            assert_eq!(
                displayed.parse::<Card>(),
                Ok(card),
                "无法往返解析 {displayed}"
            );
            tested += 1;
        }
    }

    assert_eq!(tested, 52);
}

#[test]
fn card_indexes_are_unique_and_cover_zero_through_51() {
    let mut seen = [false; Card::DISTINCT_COUNT];

    for rank in Rank::ALL {
        for suit in Suit::ALL {
            let card = Card::new(rank, suit);
            let index = card.index();

            assert!(
                index < Card::DISTINCT_COUNT,
                "index out of range for {}",
                card.to_string()
            );
            assert!(!seen[index], "duplicate index {index} for {}", card.to_string());
            seen[index] = true;
        }
    }

    assert!(seen.into_iter().all(|value| value));
    assert_eq!(Card::new(Rank::Ace, Suit::Clubs).index(), 0);
    assert_eq!(Card::new(Rank::Ace, Suit::Spades).index(), 3);
    assert_eq!(Card::new(Rank::Two, Suit::Clubs).index(), 4);
    assert_eq!(Card::new(Rank::King, Suit::Spades).index(), 51);
}

#[test]
fn ascii_input_is_case_insensitive_and_trimmed() {
    assert_eq!(
        "  as  ".parse::<Card>(),
        Ok(Card::new(Rank::Ace, Suit::Spades))
    );
    assert_eq!(
        "kd".parse::<Card>(),
        Ok(Card::new(Rank::King, Suit::Diamonds))
    );
    assert_eq!("th".parse::<Card>(), Ok(Card::new(Rank::Ten, Suit::Hearts)));
}

#[test]
fn card_exposes_rank_suit_and_baccarat_value() {
    let card = Card::new(Rank::Nine, Suit::Hearts);

    assert_eq!(card.rank(), Rank::Nine);
    assert_eq!(card.suit(), Suit::Hearts);
    assert_eq!(card.baccarat_value(), 9);
    assert_eq!(card.to_string(), "9H");
}

#[test]
fn baccarat_values_match_the_rules() {
    let expected = [1, 2, 3, 4, 5, 6, 7, 8, 9, 0, 0, 0, 0];

    for (rank, expected_value) in Rank::ALL.into_iter().zip(expected) {
        assert_eq!(rank.baccarat_value(), expected_value, "牌面为 {}", rank.to_string());
    }
}

#[test]
fn invalid_inputs_return_structured_errors() {
    assert_eq!("".parse::<Card>(), Err(CardParseError::Empty));
    assert_eq!(
        "A".parse::<Card>(),
        Err(CardParseError::InvalidFormat("A".to_owned()))
    );
    assert_eq!(
        "11S".parse::<Card>(),
        Err(CardParseError::InvalidRank("11".to_owned()))
    );
    assert_eq!(
        "AX".parse::<Card>(),
        Err(CardParseError::InvalidSuit("X".to_owned()))
    );
}

#[test]
fn errors_have_readable_messages() {
    assert_eq!(
        CardParseError::Empty.to_string(),
        "card input cannot be empty"
    );
    assert_eq!(
        CardParseError::InvalidRank("11".to_owned()).to_string(),
        "invalid rank `11`"
    );
}

#[test]
fn cards_are_read_in_either_case_and_with_white_space() {
    for index in 0..52 {
        let card = Card::from_index(index);
        let written = format!(" \t{}\u{3000}", card.to_string().to_ascii_lowercase());
        assert_eq!(written.parse::<Card>(), Ok(card));
    }
    assert_eq!(" q ".parse::<Rank>(), Ok(Rank::Queen));
    assert_eq!("1".parse::<Rank>(), Err(CardParseError::InvalidRank("1".to_owned())));
    assert_eq!("s\n".parse::<Suit>(), Ok(Suit::Spades));
    assert_eq!(" x ".parse::<Suit>(), Err(CardParseError::InvalidSuit("x".to_owned())));
}
