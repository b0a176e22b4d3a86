use game_ev_engine::{Card, Rank, Shoe, ShoeError, Suit, DEFAULT_DECKS};

fn card(input: &str) -> Card {
    // 测试辅助函数把字符串快速转换成 Card；测试数据写错时应立即失败。
    input.parse().expect("test card must be valid")
}

#[test]
fn default_shoe_has_eight_decks_and_416_cards() {
    let shoe = Shoe::default();

    assert_eq!(shoe.decks(), DEFAULT_DECKS);
    assert_eq!(shoe.total_remaining(), 416);

    for rank in Rank::ALL {
        for suit in Suit::ALL {
            assert_eq!(shoe.remaining(Card::new(rank, suit)), DEFAULT_DECKS);
        }
    }
}

#[test]
fn rejects_deck_counts_outside_one_through_eight() {
    assert_eq!(Shoe::new(0), Err(ShoeError::InvalidDeckCount { decks: 0 }));
    assert_eq!(Shoe::new(9), Err(ShoeError::InvalidDeckCount { decks: 9 }));
}

#[test]
fn removing_a_card_updates_its_count_and_the_total() {
    let mut shoe = Shoe::default();
    let ace_of_spades = card("AS");

    shoe.remove(ace_of_spades).expect("AS should be available");

    assert_eq!(shoe.remaining(ace_of_spades), 7);
    assert_eq!(shoe.remaining(card("AH")), 8);
    assert_eq!(shoe.total_remaining(), 415);
}

#[test]
fn cannot_remove_more_copies_than_the_shoe_contains() {
    let mut shoe = Shoe::default();
    let ace_of_spades = card("AS");

    for _ in 0..DEFAULT_DECKS {
        shoe.remove(ace_of_spades).expect("AS should be available");
    }
    let state_before_failure = shoe.clone();

    assert_eq!(
        shoe.remove(ace_of_spades),
        Err(ShoeError::CardUnavailable {
            card: ace_of_spades,
            requested: 1,
            remaining: 0,
        })
    );
    assert_eq!(shoe, state_before_failure);
}

#[test]
fn restoring_a_removed_card_returns_to_the_previous_state() {
    let mut shoe = Shoe::default();
    let initial = shoe.clone();
    let ace_of_spades = card("AS");

    shoe.remove(ace_of_spades).expect("AS should be available");
    shoe.restore(ace_of_spades)
        .expect("AS should be restorable");

    assert_eq!(shoe, initial);
}

#[test]
fn cannot_restore_a_card_beyond_the_initial_capacity() {
    let mut shoe = Shoe::default();
    let initial = shoe.clone();
    let ace_of_spades = card("AS");

    assert_eq!(
        shoe.restore(ace_of_spades),
        Err(ShoeError::CardAtCapacity {
            card: ace_of_spades,
            capacity: DEFAULT_DECKS,
        })
    );
    assert_eq!(shoe, initial);
}

#[test]
fn batch_removal_supports_duplicate_cards() {
    let mut shoe = Shoe::default();
    let ace_of_spades = card("AS");
    let cards = [ace_of_spades, card("KD"), ace_of_spades];

    shoe.remove_many(&cards).expect("batch should be available");

    assert_eq!(shoe.remaining(ace_of_spades), 6);
    assert_eq!(shoe.remaining(card("KD")), 7);
    assert_eq!(shoe.total_remaining(), 413);
}

#[test]
fn failed_batch_removal_is_atomic() {
    let mut shoe = Shoe::new(1).expect("one deck is valid");
    let initial = shoe.clone();
    let ace_of_spades = card("AS");
    let cards = [ace_of_spades, card("KD"), ace_of_spades];

    assert_eq!(
        shoe.remove_many(&cards),
        Err(ShoeError::CardUnavailable {
            card: ace_of_spades,
            requested: 2,
            remaining: 1,
        })
    );
    assert_eq!(shoe, initial);
}

#[test]
fn empty_batch_is_a_successful_no_op() {
    let mut shoe = Shoe::default();
    let initial = shoe.clone();

    shoe.remove_many(&[]).expect("empty batch should succeed");

    assert_eq!(shoe, initial);
}

#[test]
fn baccarat_point_counts_reflect_the_current_shoe() {
    let mut shoe = Shoe::default();

    assert_eq!(
        shoe.baccarat_point_counts(),
        [128, 32, 32, 32, 32, 32, 32, 32, 32, 32]
    );

    shoe.remove(card("KS")).expect("KS should be available");
    shoe.remove(card("7H")).expect("7H should be available");

    let point_counts = shoe.baccarat_point_counts();
    assert_eq!(point_counts, [127, 32, 32, 32, 32, 32, 32, 31, 32, 32]);
    assert_eq!(point_counts.iter().sum::<u16>(), shoe.total_remaining());
}
