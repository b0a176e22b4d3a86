use game_ev_engine::baccarat::provider::{
    decode_recorded_outcome, parse_raw_cards, provider_card, ProviderDataError,
};
use game_ev_engine::{resolve_round, RoundOutcome};

#[test]
fn provider_card_ranges_map_to_four_suits_and_thirteen_ranks() {
    assert_eq!(provider_card(1).expect("1 是合法牌码").to_string(), "AC");
    assert_eq!(provider_card(13).expect("13 是合法牌码").to_string(), "KC");
    assert_eq!(provider_card(21).expect("21 是合法牌码").to_string(), "AD");
    assert_eq!(provider_card(33).expect("33 是合法牌码").to_string(), "KD");
    assert_eq!(provider_card(41).expect("41 是合法牌码").to_string(), "AH");
    assert_eq!(provider_card(53).expect("53 是合法牌码").to_string(), "KH");
    assert_eq!(provider_card(61).expect("61 是合法牌码").to_string(), "AS");
    assert_eq!(provider_card(73).expect("73 是合法牌码").to_string(), "KS");
    assert!(provider_card(20).is_err());
    assert!(provider_card(74).is_err());
}

#[test]
fn raw_cards_are_reordered_from_sides_to_real_dealing_order() {
    let cards = parse_raw_cards("b:24,31,45;p:31,42,47")
        .expect("牌面格式合法")
        .expect("本局有牌");
    let text: Vec<String> = cards.into_iter().map(|card| card.to_string()).collect();

    assert_eq!(text, ["JD", "4D", "2H", "JD", "7H", "5H"]);
}

#[test]
fn empty_provider_payload_is_not_a_playable_round() {
    assert_eq!(parse_raw_cards("b:,,;p:,,").expect("空牌格式合法"), None);
}

#[test]
fn result_code_uses_low_bits_for_main_outcome() {
    assert_eq!(decode_recorded_outcome(33), Ok(RoundOutcome::Banker));
    assert_eq!(decode_recorded_outcome(322), Ok(RoundOutcome::Player));
    assert_eq!(decode_recorded_outcome(36), Ok(RoundOutcome::Tie));
    assert!(decode_recorded_outcome(7).is_err());
}

#[test]
fn parsed_sample_obeys_the_same_round_rules_as_the_core() {
    let cards = parse_raw_cards("b:24,31,45;p:31,42,47")
        .expect("牌面格式合法")
        .expect("本局有牌");
    let result = resolve_round(&cards).expect("真实样例应符合补牌规则");

    assert_eq!(result.outcome(), RoundOutcome::Tie);
}

#[test]
fn provider_codes_and_dealing_order_match_the_database_contract() {
    assert_eq!(provider_card(1).expect("合法牌码").to_string(), "AC");
    assert_eq!(provider_card(73).expect("合法牌码").to_string(), "KS");

    let cards = parse_raw_cards("b:24,31,45;p:31,42,47")
        .expect("开奖内容应该合法")
        .expect("本局应该有牌");
    let text: Vec<String> = cards.into_iter().map(|card| card.to_string()).collect();
    assert_eq!(text, ["JD", "4D", "2H", "JD", "7H", "5H"]);
}

#[test]
fn refused_payloads_say_what_is_wrong() {
    assert_eq!(
        parse_raw_cards("24,31;p:31,42"),
        Err(ProviderDataError::CardPayload("24,31;p:31,42".to_owned()))
    );
    assert_eq!(
        parse_raw_cards("b:24,31"),
        Err(ProviderDataError::CardPayload("b:24,31".to_owned()))
    );
    assert_eq!(
        parse_raw_cards("b:24,x;p:31,42"),
        Err(ProviderDataError::CardCodeText("x".to_owned()))
    );
    assert_eq!(parse_raw_cards("b:24,99;p:31,42"), Err(ProviderDataError::CardCode(99)));
    assert_eq!(
        parse_raw_cards("b:24;p:31,42"),
        Err(ProviderDataError::HandShape { banker_cards: 1, player_cards: 2 })
    );
    assert_eq!(
        decode_recorded_outcome(3),
        Err(ProviderDataError::MainOutcomeBits { result_code: 3, bits: 3 })
    );
    let error = ProviderDataError::MainOutcomeBits { result_code: 7, bits: 7 };
    assert_eq!(error.to_string(), "result_code=7 的主结果位 7 不是庄 1、闲 2 或和 4");
}

#[test]
fn white_space_and_empty_places_are_no_cards() {
    let cards = parse_raw_cards("b: 24 , 31,;p:31, 42,")
        .expect("the payload is valid")
        .expect("the round has cards");
    assert_eq!(cards.len(), 4);
}
