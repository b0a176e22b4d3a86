//! The source format of a round: numbered cards, `b:..;p:..` payloads and result codes.

use vstd::prelude::*;

use crate::baccarat::round::RoundOutcome;
use crate::card::{Card, Rank, Suit};
use crate::text;

verus! {

/// The card of a source code: twenty codes to a suit, of which 1 to 13 are ace to king.
pub open spec fn code_card(code: int) -> Option<Card> {
    if 0 <= code < 80 && 1 <= code % 20 <= 13 {
        Some(Card { rank: Rank::ALL@[code % 20 - 1], suit: Suit::ALL@[code / 20] })
    } else {
        None
    }
}

/// The code of a card.
pub open spec fn card_code(card: Card) -> int {
    card.suit.number() * 20 + card.rank.number() + 1
}

/// Why source data does not tell a round.
#[derive(Debug, Clone, PartialEq, Eq)]
pub enum ProviderDataError {
    /// The payload is not of the form `b:..;p:..`.
    CardPayload(String),
    /// A card code is not a number up to 255.
    CardCodeText(String),
    /// A number is no card code.
    CardCode(u8),
    /// A side has neither two nor three cards.
    HandShape { banker_cards: usize, player_cards: usize },
    /// The result code does not name exactly one main outcome.
    MainOutcomeBits { result_code: u64, bits: u64 },
}

/// What a payload tells.
pub enum PayloadView {
    /// No cards.
    Nothing,
    /// Cards in dealing order.
    Cards(Seq<Card>),
    /// Not of the form `b:..;p:..`.
    Malformed(Seq<char>),
    /// A card code that is not a number up to 255.
    BadCodeText(Seq<char>),
    /// A number that is no card code.
    BadCode(nat),
    /// Wrong numbers of cards, the banker's first.
    BadShape(nat, nat),
}

/// The cards of one side so far, or what is wrong with them.
pub enum SideView {
    Cards(Seq<Card>),
    BadCodeText(Seq<char>),
    BadCode(nat),
}

/// The parts of a text between commas.
pub open spec fn parts(s: Seq<char>) -> Seq<Seq<char>>
    decreases s.len(),
{
    if s.len() == 0 {
        seq![Seq::empty()]
    } else {
        let before = parts(s.drop_last());
        if s.last() == ',' {
            before.push(Seq::empty())
        } else {
            before.drop_last().push(before.last().push(s.last()))
        }
    }
}

/// What a side's card codes tell; blank parts are left out.
pub open spec fn side_of(codes: Seq<Seq<char>>) -> SideView
    decreases codes.len(),
{
    if codes.len() == 0 {
        SideView::Cards(Seq::empty())
    } else {
        match side_of(codes.drop_last()) {
            SideView::Cards(cards) => side_with(cards, text::trim(codes.last())),
            problem => problem,
        }
    }
}

/// The cards of a side with one more code.
pub open spec fn side_with(cards: Seq<Card>, code: Seq<char>) -> SideView {
    if code.len() == 0 {
        SideView::Cards(cards)
    } else {
        match text::parsed_number(code, 255) {
            None => SideView::BadCodeText(code),
            Some(number) => match code_card(number as int) {
                None => SideView::BadCode(number),
                Some(card) => SideView::Cards(cards.push(card)),
            },
        }
    }
}

/// Whether `;p:` stands at a place of a text.
pub open spec fn marker_at(s: Seq<char>, i: int) -> bool {
    0 <= i && i + 3 <= s.len() && s[i] == ';' && s[i + 1] == 'p' && s[i + 2] == ':'
}

/// The first place from `i` on where `;p:` stands, or the length of the text.
pub open spec fn marker_from(s: Seq<char>, i: int) -> int
    decreases s.len() - i,
{
    if i >= s.len() {
        s.len() as int
    } else if marker_at(s, i) {
        i
    } else {
        marker_from(s, i + 1)
    }
}

/// The dealing order of two hands.
pub open spec fn dealing_order(player: Seq<Card>, banker: Seq<Card>) -> Seq<Card> {
    seq![player[0], banker[0], player[1], banker[1]] + player.skip(2) + banker.skip(2)
}

/// What the two sides' cards tell.
pub open spec fn hands_of(banker: Seq<Card>, player: Seq<Card>) -> PayloadView {
    if banker.len() == 0 && player.len() == 0 {
        PayloadView::Nothing
    } else if 2 <= banker.len() <= 3 && 2 <= player.len() <= 3 {
        PayloadView::Cards(dealing_order(player, banker))
    } else {
        PayloadView::BadShape(banker.len(), player.len())
    }
}

/// What a payload tells. The banker's codes are judged before the player's.
pub open spec fn payload_of(raw: Seq<char>) -> PayloadView {
    let marker = marker_from(raw, 2);
    if raw.len() < 2 || raw[0] != 'b' || raw[1] != ':' || marker >= raw.len() {
        PayloadView::Malformed(raw)
    } else {
        match (
            side_of(parts(raw.subrange(2, marker))),
            side_of(parts(raw.subrange(marker + 3, raw.len() as int))),
        ) {
            (SideView::BadCodeText(code), _) => PayloadView::BadCodeText(code),
            (SideView::BadCode(code), _) => PayloadView::BadCode(code),
            (_, SideView::BadCodeText(code)) => PayloadView::BadCodeText(code),
            (_, SideView::BadCode(code)) => PayloadView::BadCode(code),
            (SideView::Cards(banker), SideView::Cards(player)) => hands_of(banker, player),
        }
    }
}

/// The main outcome that the low three bits of a result code name.
pub open spec fn recorded_outcome(result_code: u64) -> Option<RoundOutcome> {
    if result_code % 8 == 1 {
        Some(RoundOutcome::Banker)
    } else if result_code % 8 == 2 {
        Some(RoundOutcome::Player)
    } else if result_code % 8 == 4 {
        Some(RoundOutcome::Tie)
    } else {
        None
    }
}

impl ProviderDataError {
    /// Whether the error reports what a payload tells.
    pub open spec fn reports(self, payload: PayloadView) -> bool {
        match (self, payload) {
            (ProviderDataError::CardPayload(raw), PayloadView::Malformed(s)) => raw@ == s,
            (ProviderDataError::CardCodeText(code), PayloadView::BadCodeText(s)) => code@ == s,
            (ProviderDataError::CardCode(code), PayloadView::BadCode(n)) => code == n,
            (
                ProviderDataError::HandShape { banker_cards, player_cards },
                PayloadView::BadShape(banker, player),
            ) => banker_cards == banker && player_cards == player,
            _ => false,
        }
    }

    /// The message of the error.
    pub open spec fn message(self) -> Seq<char> {
        match self {
            ProviderDataError::CardPayload(raw) => "无法解析开奖内容："@ + raw@,
            ProviderDataError::CardCodeText(value) => "牌码不是 u8："@ + value@,
            ProviderDataError::CardCode(code) => "未知来源牌码："@ + text::decimal(code as nat),
            ProviderDataError::HandShape { banker_cards, player_cards } =>
                "非法手牌数量：庄 "@ + text::decimal(banker_cards as nat) + " 张，闲 "@
                + text::decimal(player_cards as nat) + " 张"@,
            ProviderDataError::MainOutcomeBits { result_code, bits } => "result_code="@
                + text::decimal(result_code as nat) + " 的主结果位 "@ + text::decimal(bits as nat)
                + " 不是庄 1、闲 2 或和 4"@,
        }
    }

    /// The message of the error.
    pub fn to_string(&self) -> (result: String)
        ensures
            result@ == self.message(),
    {
        match self {
            ProviderDataError::CardPayload(raw) => {
                "无法解析开奖内容：".to_owned().concat(raw.as_str())
            },
            ProviderDataError::CardCodeText(value) => {
                "牌码不是 u8：".to_owned().concat(value.as_str())
            },
            ProviderDataError::CardCode(code) => {
                let mut result: String = "未知来源牌码：".to_owned();
                text::push_decimal(&mut result, *code as u64);
                result
            },
            ProviderDataError::HandShape { banker_cards, player_cards } => {
                let mut result: String = "非法手牌数量：庄 ".to_owned();
                text::push_decimal(&mut result, *banker_cards as u64);
                result.append(" 张，闲 ");
                text::push_decimal(&mut result, *player_cards as u64);
                result.append(" 张");
                result
            },
            ProviderDataError::MainOutcomeBits { result_code, bits } => {
                let mut result: String = "result_code=".to_owned();
                text::push_decimal(&mut result, *result_code);
                result.append(" 的主结果位 ");
                text::push_decimal(&mut result, *bits);
                result.append(" 不是庄 1、闲 2 或和 4");
                result
            },
        }
    }
}

/// The card of a source code.
pub fn provider_card(code: u8) -> (result: Result<Card, ProviderDataError>)
    ensures
        match code_card(code as int) {
            Some(card) => result == Ok::<Card, ProviderDataError>(card),
            None => result == Err::<Card, ProviderDataError>(ProviderDataError::CardCode(code)),
        },
{
    let suit_index: u8 = code / 20;
    let rank_number: u8 = code % 20;
    if suit_index >= 4 || rank_number < 1 || rank_number > 13 {
        return Err(ProviderDataError::CardCode(code));
    }
    Ok(Card::new(Rank::ALL[(rank_number - 1) as usize], Suit::ALL[suit_index as usize]))
}

/// The main outcome of a result code.
pub fn decode_recorded_outcome(result_code: u64) -> (result: Result<
    RoundOutcome,
    ProviderDataError,
>)
    ensures
        match recorded_outcome(result_code) {
            Some(outcome) => result == Ok::<RoundOutcome, ProviderDataError>(outcome),
            None => result == Err::<RoundOutcome, ProviderDataError>(
                ProviderDataError::MainOutcomeBits { result_code, bits: result_code % 8 },
            ),
        },
{
    assert(result_code & 7 == result_code % 8) by (bit_vector);
    let bits: u64 = result_code & 7;
    if bits == 1 {
        Ok(RoundOutcome::Banker)
    } else if bits == 2 {
        Ok(RoundOutcome::Player)
    } else if bits == 4 {
        Ok(RoundOutcome::Tie)
    } else {
        Err(ProviderDataError::MainOutcomeBits { result_code, bits })
    }
}

impl SideView {
    /// Whether an error reports what is wrong with a side.
    pub open spec fn wrong(self, error: ProviderDataError) -> bool {
        match (self, error) {
            (SideView::BadCodeText(s), ProviderDataError::CardCodeText(code)) => code@ == s,
            (SideView::BadCode(n), ProviderDataError::CardCode(code)) => code == n,
            _ => false,
        }
    }
}

/// Once a code is wrong, what follows does not matter.
proof fn lemma_side_problem_stays(codes: Seq<Seq<char>>, n: int)
    requires
        0 <= n <= codes.len(),
        !(side_of(codes.take(n)) is Cards),
    ensures
        side_of(codes) == side_of(codes.take(n)),
    decreases codes.len(),
{
    if n < codes.len() {
        assert(codes.drop_last().take(n) =~= codes.take(n));
        lemma_side_problem_stays(codes.drop_last(), n);
    } else {
        assert(codes.take(n) =~= codes);
    }
}

proof fn lemma_parts_grow(s: Seq<char>, i: int)
    requires
        0 <= i <= s.len(),
    ensures
        parts(s.take(i)).len() <= parts(s).len(),
        parts(s.take(i)).len() >= 1,
        parts(s).take(parts(s.take(i)).len() - 1) == parts(s.take(i)).drop_last(),
    decreases s.len(),
{
    if i < s.len() {
        let shorter = s.drop_last();
        assert(shorter.take(i) =~= s.take(i));
        lemma_parts_grow(shorter, i);
        let n = parts(s.take(i)).len() - 1;
        assert(parts(s).take(n) =~= parts(shorter).take(n)) by {
            assert(parts(shorter).len() >= 1);
        }
    } else {
        assert(s.take(i) =~= s);
        lemma_parts_not_empty(s);
        assert(parts(s).take(parts(s).len() - 1) =~= parts(s).drop_last());
    }
}

proof fn lemma_parts_not_empty(s: Seq<char>)
    ensures
        parts(s).len() >= 1,
    decreases s.len(),
{
    if s.len() > 0 {
        lemma_parts_not_empty(s.drop_last());
    }
}

/// Reads one side's comma-separated card codes.
fn parse_side_cards(chars: &Vec<char>, from: usize, to: usize) -> (result: Result<
    Vec<Card>,
    ProviderDataError,
>)
    requires
        from <= to <= chars@.len(),
    ensures
        match (result, side_of(parts(chars@.subrange(from as int, to as int)))) {
            (Ok(cards), SideView::Cards(told)) => cards@ == told,
            (Err(error), side) => side.wrong(error),
            _ => false,
        },
{
    let ghost all = chars@.subrange(from as int, to as int);
    let mut cards: Vec<Card> = Vec::new();
    let mut start: usize = from;
    let mut i: usize = from;
    proof {
        assert(all.take(0) =~= Seq::<char>::empty());
        assert(chars@.subrange(from as int, from as int) =~= Seq::<char>::empty());
        assert(parts(all.take(0)) =~= seq![Seq::<char>::empty()]);
        assert(parts(all.take(0)).drop_last() =~= Seq::<Seq<char>>::empty());
    }
    while i < to
        invariant
            from <= start <= i <= to <= chars@.len(),
            all == chars@.subrange(from as int, to as int),
            parts(all.take(i - from)).len() >= 1,
            parts(all.take(i - from)).last() == chars@.subrange(start as int, i as int),
            side_of(parts(all.take(i - from)).drop_last()) == SideView::Cards(cards@),
        decreases to - i,
    {
        let ghost before = all.take(i - from);
        let ghost after = all.take(i - from + 1);
        let c: char = chars[i];
        proof {
            assert(after.drop_last() =~= before);
            assert(after.last() == c);
        }
        if c == ',' {
            let ghost done = parts(after).drop_last();
            proof {
                assert(done =~= parts(before));
                assert(done.drop_last() == parts(before).drop_last());
                assert(done.last() == chars@.subrange(start as int, i as int));
            }
            let part: Vec<char> = text::part_of(chars, start, i);
            match push_code(&mut cards, &part) {
                Ok(_) => {},
                Err(error) => {
                    proof {
                        lemma_parts_grow(all, i - from + 1);
                        lemma_side_problem_stays(parts(all), parts(after).len() - 1);
                    }
                    return Err(error);
                },
            }
            start = i + 1;
            assert(chars@.subrange(start as int, i + 1) =~= Seq::<char>::empty());
        } else {
            proof {
                assert(parts(after).drop_last() =~= parts(before).drop_last());
                assert(chars@.subrange(start as int, i + 1) =~= chars@.subrange(
                    start as int,
                    i as int,
                ).push(c));
            }
        }
        i += 1;
    }
    assert(all.take(to - from) =~= all);
    let part: Vec<char> = text::part_of(chars, start, to);
    match push_code(&mut cards, &part) {
        Ok(_) => Ok(cards),
        Err(error) => Err(error),
    }
}

/// Reads one card code and adds its card; a blank code adds nothing.
fn push_code(cards: &mut Vec<Card>, part: &Vec<char>) -> (result: Result<(), ProviderDataError>)
    ensures
        match (result, side_with(old(cards)@, text::trim(part@))) {
            (Ok(_), SideView::Cards(told)) => final(cards)@ == told,
            (Err(error), side) => side.wrong(error),
            _ => false,
        },
{
    let code: Vec<char> = text::trimmed(part);
    if code.len() == 0 {
        return Ok(());
    }
    match text::parse_number(&code, 255) {
        None => {
            let shown: String = text::text_of(&code, 0, code.len());
            assert(shown@ == code@);
            Err(ProviderDataError::CardCodeText(shown))
        },
        Some(number) => match provider_card(number as u8) {
            Ok(card) => {
                cards.push(card);
                Ok(())
            },
            Err(error) => Err(error),
        },
    }
}

/// Reads a `b:..;p:..` payload into dealing order: P1, B1, P2, B2 and the third cards.
pub fn parse_raw_cards(raw: &str) -> (result: Result<Option<Vec<Card>>, ProviderDataError>)
    ensures
        match (result, payload_of(raw@)) {
            (Ok(None), PayloadView::Nothing) => true,
            (Ok(Some(cards)), PayloadView::Cards(told)) => cards@ == told,
            (Err(error), payload) => error.reports(payload),
            _ => false,
        },
{
    let chars: Vec<char> = text::chars_of(raw);
    if chars.len() < 2 || chars[0] != 'b' || chars[1] != ':' {
        return Err(ProviderDataError::CardPayload(raw.to_owned()));
    }
    let length: usize = chars.len();
    let mut marker: usize = 2;
    while marker < length && !(length - marker >= 3 && chars[marker] == ';' && chars[marker + 1]
        == 'p' && chars[marker + 2] == ':')
        invariant
            2 <= marker <= length,
            length == chars@.len(),
            marker_from(chars@, 2) == marker_from(chars@, marker as int),
        decreases length - marker,
    {
        marker += 1;
    }
    if marker >= length {
        return Err(ProviderDataError::CardPayload(raw.to_owned()));
    }
    let banker: Vec<Card> = match parse_side_cards(&chars, 2, marker) {
        Ok(cards) => cards,
        Err(error) => {
            return Err(error);
        },
    };
    let player: Vec<Card> = match parse_side_cards(&chars, marker + 3, length) {
        Ok(cards) => cards,
        Err(error) => {
            return Err(error);
        },
    };
    if banker.len() == 0 && player.len() == 0 {
        return Ok(None);
    }
    if banker.len() < 2 || banker.len() > 3 || player.len() < 2 || player.len() > 3 {
        return Err(
            ProviderDataError::HandShape {
                banker_cards: banker.len(),
                player_cards: player.len(),
            },
        );
    }
    let mut dealing: Vec<Card> = vec![player[0], banker[0], player[1], banker[1]];
    if player.len() == 3 {
        dealing.push(player[2]);
    }
    if banker.len() == 3 {
        dealing.push(banker[2]);
    }
    assert(dealing@ =~= dealing_order(player@, banker@));
    Ok(Some(dealing))
}

/// Codes and cards name each other.
pub proof fn lemma_codes_name_cards(card: Card)
    ensures
        code_card(card_code(card)) == Some(card),
        0 < card_code(card) < 80,
{
    let rank = card.rank.number();
    let suit = card.suit.number();
    assert((suit * 20 + rank + 1) % 20 == rank + 1);
    assert((suit * 20 + rank + 1) / 20 == suit);
    assert(Rank::ALL@[rank] == card.rank);
    assert(Suit::ALL@[suit] == card.suit);
}

} // verus!
