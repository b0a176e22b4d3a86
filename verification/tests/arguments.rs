use game_ev_engine::cli::{build_shoe, parse_args, AnalyzeInput, CardSource, CliError, Command};
use game_ev_engine::{Card, Shoe, ShoeError};

fn words(list: &[&str]) -> Vec<String> {
    list.iter().map(|word| word.to_string()).collect()
}

fn card(text: &str) -> Card {
    text.parse().expect("a card")
}

#[test]
fn arguments_name_a_source_and_its_cards() {
    assert_eq!(
        parse_args(&words(&["analyze", "consumed", "AS", "9h", " 10D "])),
        Ok(Command::Analyze(AnalyzeInput {
            source: CardSource::Consumed,
            cards: vec![card("AS"), card("9H"), card("10D")],
        }))
    );
    assert_eq!(
        parse_args(&words(&["analyze", "remaining"])),
        Ok(Command::Analyze(AnalyzeInput { source: CardSource::Remaining, cards: vec![] }))
    );
}

#[test]
fn refused_arguments_name_the_word() {
    assert_eq!(parse_args(&words(&[])), Err(CliError::MissingCommand));
    assert_eq!(parse_args(&words(&["play"])), Err(CliError::UnknownCommand("play".to_owned())));
    assert_eq!(parse_args(&words(&["analyze"])), Err(CliError::MissingCardSource));
    assert_eq!(
        parse_args(&words(&["analyze", "seen"])),
        Err(CliError::UnknownCardSource("seen".to_owned()))
    );
    assert_eq!(
        parse_args(&words(&["analyze", "consumed", "AS", "1X", "2X"])),
        Err(CliError::InvalidCard("1X".to_owned()))
    );
}

#[test]
fn consumed_cards_leave_a_full_shoe_and_remaining_cards_are_all() {
    let aces = vec![card("AS"), card("AS")];
    let shoe = build_shoe(&AnalyzeInput { source: CardSource::Consumed, cards: aces.clone() })
        .expect("there are eight of them");
    assert_eq!(shoe.total_remaining(), 414);
    assert_eq!(shoe.remaining(card("AS")), 6);
    let shoe = build_shoe(&AnalyzeInput { source: CardSource::Remaining, cards: aces })
        .expect("there are eight of them");
    assert_eq!(shoe.total_remaining(), 2);
    assert_eq!(shoe.remaining(card("AS")), 2);

    let nine = vec![card("AS"); 9];
    assert_eq!(
        build_shoe(&AnalyzeInput { source: CardSource::Consumed, cards: nine.clone() }),
        Err(CliError::Shoe(ShoeError::CardUnavailable {
            card: card("AS"),
            requested: 9,
            remaining: 8,
        }))
    );
    assert!(matches!(
        build_shoe(&AnalyzeInput { source: CardSource::Remaining, cards: nine }),
        Err(CliError::Shoe(_))
    ));
}

#[test]
fn cards_leave_a_shoe_in_any_order() {
    let cards = [card("AS"), card("KD"), card("AS"), card("2C")];
    let mut at_once = Shoe::default();
    at_once.remove_many(&cards).expect("the cards are there");
    let mut one_by_one = Shoe::default();
    for removed in cards.iter().rev() {
        one_by_one.remove(*removed).expect("the card is there");
    }
    assert_eq!(at_once, one_by_one);
    for restored in cards {
        one_by_one.restore(restored).expect("the card was taken out");
    }
    assert_eq!(one_by_one, Shoe::default());
}
