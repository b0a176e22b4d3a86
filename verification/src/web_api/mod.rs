//! Texts that a page sends and the names that it is sent back.

pub mod advice;
pub mod blackjack_page;
pub mod laws;
pub mod replay_page;

use vstd::prelude::*;

use crate::baccarat::bet;
use crate::baccarat::bet::MainBetRules;
use crate::baccarat::replay::ReplayConfigError;
use crate::baccarat::risk::{BetPlanSkipReason, KellyError, StakeSizingStrategy};
use crate::baccarat::side_bet::SideBet;
use crate::blackjack::BlackjackError;
use crate::card;
use crate::card::{Card, CardReading};
use crate::cli;
use crate::cli::CardList;
use crate::number;
use crate::number::Number;
use crate::order;
use crate::scale::Scale;
use crate::shoe;
use crate::shoe::{Shoe, ShoeError, ShoeView};
use crate::text;

verus! {

/// Whether a character stands between cards.
pub open spec fn is_separator(c: char) -> bool {
    text::is_white_space(c) || c == ',' || c == '，' || c == ';' || c == '；' || c == '、'
}

/// The words between separators.
pub open spec fn words(s: Seq<char>) -> Seq<Seq<char>>
    decreases s.len(),
{
    if s.len() == 0 {
        Seq::empty()
    } else {
        let before = words(s.drop_last());
        let last = s.last();
        if is_separator(last) {
            before
        } else if s.len() > 1 && !is_separator(s[s.len() - 2]) {
            before.drop_last().push(before.last().push(last))
        } else {
            before.push(seq![last])
        }
    }
}

/// What is said of a text that is no card.
pub open spec fn card_refusal(shown: Seq<char>) -> Seq<char> {
    "无法识别牌面“"@ + shown + "”："@ + match card::card_reading(shown) {
        CardReading::InvalidFormat(input) => "invalid card format `"@ + input
            + "`; expected `AS` or `10H`"@,
        CardReading::InvalidSuit(suit) => "invalid suit `"@ + suit + "`"@,
        CardReading::InvalidRank(rank) => "invalid rank `"@ + rank + "`"@,
        _ => "card input cannot be empty"@,
    }
}

/// Whether a result is the cards of a text.
pub open spec fn reads_cards(result: Result<Vec<Card>, String>, input: Seq<char>) -> bool {
    match (result, cli::card_list(words(input))) {
        (Ok(cards), CardList::Cards(told)) => cards@ == told,
        (Err(message), CardList::Unreadable(shown)) => message@ == card_refusal(shown),
        _ => false,
    }
}

fn separates(c: char) -> (result: bool)
    ensures
        result == is_separator(c),
{
    text::white_space(c) || c == ',' || c == '，' || c == ';' || c == '；' || c == '、'
}

fn split_words(chars: &Vec<char>) -> (result: Vec<Vec<char>>)
    ensures
        result@.map_values(|word: Vec<char>| word@) == words(chars@),
{
    let mut done: Vec<Vec<char>> = Vec::new();
    let mut current: Vec<char> = Vec::new();
    let mut i: usize = 0;
    proof {
        assert(chars@.take(0) =~= Seq::empty());
        assert(done@.map_values(|word: Vec<char>| word@) =~= Seq::empty());
    }
    while i < chars.len()
        invariant
            i <= chars.len(),
            words(chars@.take(i as int)) == if current.len() > 0 {
                done@.map_values(|word: Vec<char>| word@).push(current@)
            } else {
                done@.map_values(|word: Vec<char>| word@)
            },
            current.len() > 0 <==> i > 0 && !is_separator(chars@[i - 1]),
        decreases chars.len() - i,
    {
        let ghost so_far = chars@.take(i + 1);
        proof {
            assert(so_far.drop_last() =~= chars@.take(i as int));
            assert(so_far.last() == chars@[i as int]);
            if i > 0 {
                assert(so_far[so_far.len() - 2] == chars@[i - 1]);
            }
        }
        let ghost finished = done@.map_values(|word: Vec<char>| word@);
        if separates(chars[i]) {
            if current.len() > 0 {
                let mut next: Vec<char> = Vec::new();
                std::mem::swap(&mut next, &mut current);
                let ghost word = next@;
                done.push(next);
                proof {
                    assert(done@.map_values(|word: Vec<char>| word@) =~= finished.push(word));
                }
            }
        } else {
            let ghost before = current@;
            current.push(chars[i]);
            proof {
                if before.len() > 0 {
                    assert(words(chars@.take(i as int)).drop_last() =~= finished);
                } else {
                    assert(current@ =~= seq![chars@[i as int]]);
                }
            }
        }
        i = i + 1;
    }
    assert(chars@.take(i as int) =~= chars@);
    if current.len() > 0 {
        let ghost finished = done@.map_values(|word: Vec<char>| word@);
        let ghost word = current@;
        done.push(current);
        proof {
            assert(done@.map_values(|word: Vec<char>| word@) =~= finished.push(word));
        }
    }
    done
}

/// Reads the cards of a text; separators are white space, commas, semicolons and the
/// enumeration comma.
pub fn parse_cards(input: &str) -> (result: Result<Vec<Card>, String>)
    ensures
        reads_cards(result, input@),
{
    let chars: Vec<char> = text::chars_of(input);
    let list: Vec<Vec<char>> = split_words(&chars);
    let ghost told = words(input@);
    let mut cards: Vec<Card> = Vec::new();
    let mut i: usize = 0;
    assert(told.take(0) =~= Seq::empty());
    while i < list.len()
        invariant
            i <= list.len(),
            told == words(input@),
            told == list@.map_values(|word: Vec<char>| word@),
            cli::card_list(told.take(i as int)) == CardList::Cards(cards@),
        decreases list.len() - i,
    {
        let word: String = text::text_of(&list[i], 0, list[i].len());
        proof {
            assert(word@ =~= list@[i as int]@);
            assert(told.take(i + 1).drop_last() =~= told.take(i as int));
            assert(told.take(i + 1).last() == word@);
        }
        match Card::parse(word.as_str()) {
            Ok(card) => {
                cards.push(card);
            },
            Err(error) => {
                proof {
                    cli::lemma_unreadable_stays(told, i + 1);
                }
                let mut message: String = "无法识别牌面“".to_owned();
                message.append(word.as_str());
                message.append("”：");
                message.append(error.to_string().as_str());
                return Err(message);
            },
        }
        i = i + 1;
    }
    assert(told.take(i as int) =~= told);
    Ok(cards)
}

/// The payouts of the main bets that a word names, in hundredths.
pub open spec fn payout_rule_named(word: Seq<char>) -> Option<(MainBetRules<u32>, Seq<char>)> {
    if text::normal(word) == "standard"@ {
        Some((bet::standard_table(), "standard"@))
    } else if text::normal(word) == "no_commission"@ {
        Some((bet::no_commission_table(), "no_commission"@))
    } else {
        None
    }
}

/// Reads the name of the payouts of the main bets.
pub fn parse_payout_rule(input: &str) -> (result: Result<(MainBetRules<u32>, &'static str), String>)
    ensures
        match (result, payout_rule_named(input@)) {
            (Ok((rules, name)), Some((told, word))) => rules == told && name@ == word,
            (Err(message), None) => message@ == "庄赔付规则必须是 standard 或 no_commission"@,
            _ => false,
        },
{
    let word: String = text::normalized(input);
    if text::equal(word.as_str(), "standard") {
        Ok((MainBetRules::standard(), "standard"))
    } else if text::equal(word.as_str(), "no_commission") {
        Ok((MainBetRules::no_commission(), "no_commission"))
    } else {
        Err("庄赔付规则必须是 standard 或 no_commission".to_owned())
    }
}

/// The way to choose stakes that a word names, set by a number.
pub open spec fn strategy_named<E: Copy>(word: Seq<char>, parameter: E) -> Option<
    StakeSizingStrategy<E>,
> {
    let name = text::normal(word);
    if name == "full_kelly"@ {
        Some(StakeSizingStrategy::FullKelly)
    } else if name == "half_kelly"@ {
        Some(StakeSizingStrategy::HalfKelly)
    } else if name == "quarter_kelly"@ {
        Some(StakeSizingStrategy::QuarterKelly)
    } else if name == "custom_kelly"@ {
        Some(StakeSizingStrategy::CustomKelly { fraction: parameter })
    } else if name == "fixed"@ {
        Some(StakeSizingStrategy::Fixed { amount: parameter })
    } else if name == "bankroll_fraction"@ {
        Some(StakeSizingStrategy::FixedBankrollFraction { fraction: parameter })
    } else if name == "target_expected_profit"@ {
        Some(StakeSizingStrategy::TargetExpectedProfit { amount: parameter })
    } else if name == "target_volatility"@ {
        Some(StakeSizingStrategy::TargetVolatility { fraction: parameter })
    } else {
        None
    }
}

/// Reads the name of a way to choose stakes.
pub fn parse_stake_strategy<E: Copy>(input: &str, strategy_parameter: E) -> (result: Result<
    StakeSizingStrategy<E>,
    String,
>)
    ensures
        match (result, strategy_named(input@, strategy_parameter)) {
            (Ok(strategy), Some(told)) => strategy == told,
            (Err(message), None) => message@
                == "金额策略必须是 full_kelly、half_kelly、quarter_kelly、custom_kelly、fixed、bankroll_fraction、target_expected_profit 或 target_volatility"@,
            _ => false,
        },
{
    let word: String = text::normalized(input);
    if text::equal(word.as_str(), "full_kelly") {
        Ok(StakeSizingStrategy::FullKelly)
    } else if text::equal(word.as_str(), "half_kelly") {
        Ok(StakeSizingStrategy::HalfKelly)
    } else if text::equal(word.as_str(), "quarter_kelly") {
        Ok(StakeSizingStrategy::QuarterKelly)
    } else if text::equal(word.as_str(), "custom_kelly") {
        Ok(StakeSizingStrategy::CustomKelly { fraction: strategy_parameter })
    } else if text::equal(word.as_str(), "fixed") {
        Ok(StakeSizingStrategy::Fixed { amount: strategy_parameter })
    } else if text::equal(word.as_str(), "bankroll_fraction") {
        Ok(StakeSizingStrategy::FixedBankrollFraction { fraction: strategy_parameter })
    } else if text::equal(word.as_str(), "target_expected_profit") {
        Ok(StakeSizingStrategy::TargetExpectedProfit { amount: strategy_parameter })
    } else if text::equal(word.as_str(), "target_volatility") {
        Ok(StakeSizingStrategy::TargetVolatility { fraction: strategy_parameter })
    } else {
        Err(
            "金额策略必须是 full_kelly、half_kelly、quarter_kelly、custom_kelly、fixed、bankroll_fraction、target_expected_profit 或 target_volatility".to_owned(),
        )
    }
}

/// The stable name of the reason for which a plan makes no bet.
pub open spec fn skip_reason_label<E>(reason: BetPlanSkipReason<E>) -> Seq<char> {
    match reason {
        BetPlanSkipReason::Strategy(_) => "below_minimum_ev"@,
        BetPlanSkipReason::NonPositiveKelly => "non_positive_kelly"@,
        BetPlanSkipReason::RiskLimitIsZero => "risk_limit_is_zero"@,
    }
}

/// The stable name of the reason for which a plan makes no bet.
pub fn skip_reason_code<E: Copy>(reason: BetPlanSkipReason<E>) -> (code: &'static str)
    ensures
        code@ == skip_reason_label(reason),
{
    match reason {
        BetPlanSkipReason::Strategy(_) => "below_minimum_ev",
        BetPlanSkipReason::NonPositiveKelly => "non_positive_kelly",
        BetPlanSkipReason::RiskLimitIsZero => "risk_limit_is_zero",
    }
}

/// How the payouts of a side bet are shown.
pub open spec fn payout_label(bet: SideBet) -> Seq<char> {
    match bet {
        SideBet::AnyPair => "5:1"@,
        SideBet::BankerPair => "11:1"@,
        SideBet::PlayerPair => "11:1"@,
        SideBet::PerfectPair => "25:1"@,
        SideBet::Big => "0.5:1"@,
        SideBet::Small => "1.5:1"@,
        SideBet::LuckySeven => "闲2张 6:1 / 闲3张 15:1"@,
        SideBet::SuperLuckySeven => "总4张 30:1 / 5张 40:1 / 6张 100:1"@,
        SideBet::LuckySix => "庄2张 12:1 / 庄3张 18:1"@,
        SideBet::BankerDragonBonus =>
            "点差4/5/6/7/8/9：1/2/3/5/10/30:1；Natural赢/双方Natural和为Push"@,
        SideBet::PlayerDragonBonus =>
            "点差4/5/6/7/8/9：1/2/3/5/10/30:1；Natural赢/双方Natural和为Push"@,
    }
}

/// How the payouts of a side bet are shown.
pub fn side_bet_payout_text(bet: SideBet) -> (shown: &'static str)
    ensures
        shown@ == payout_label(bet),
{
    match bet {
        SideBet::AnyPair => "5:1",
        SideBet::BankerPair => "11:1",
        SideBet::PlayerPair => "11:1",
        SideBet::PerfectPair => "25:1",
        SideBet::Big => "0.5:1",
        SideBet::Small => "1.5:1",
        SideBet::LuckySeven => "闲2张 6:1 / 闲3张 15:1",
        SideBet::SuperLuckySeven => "总4张 30:1 / 5张 40:1 / 6张 100:1",
        SideBet::LuckySix => "庄2张 12:1 / 庄3张 18:1",
        SideBet::BankerDragonBonus => {
            "点差4/5/6/7/8/9：1/2/3/5/10/30:1；Natural赢/双方Natural和为Push"
        },
        SideBet::PlayerDragonBonus => {
            "点差4/5/6/7/8/9：1/2/3/5/10/30:1；Natural赢/双方Natural和为Push"
        },
    }
}

/// Why a page gets no answer.
#[derive(Debug)]
pub enum PageError<E> {
    /// What the page sent is refused, with the text to show.
    Message(String),
    /// The limits on stakes are refused.
    Policy(KellyError<E>),
    /// A stake cannot be computed.
    Plan(KellyError<E>),
    /// The settings of a replay are refused.
    Config(ReplayConfigError<E>),
    /// A blackjack hand cannot be analysed.
    Hand(BlackjackError<E>),
}

impl<E> PageError<E> {
    /// The text to show, given the message of the error inside.
    pub open spec fn message(self, detail: Seq<char>) -> Seq<char> {
        match self {
            PageError::Message(text) => text@,
            PageError::Policy(_) => "资金策略不合法："@ + detail,
            PageError::Plan(_) => "下注策略计算失败："@ + detail,
            PageError::Config(_) => "回放配置不合法："@ + detail,
            PageError::Hand(_) => "二十一点 EV 计算失败："@ + detail,
        }
    }

    /// Whether this is a refusal with a text.
    pub open spec fn says(self, text: Seq<char>) -> bool {
        self matches PageError::Message(shown) && shown@ == text
    }

    /// The text to show, given the message of the error inside.
    pub fn into_text(self, detail: &str) -> (result: String)
        ensures
            result@ == self.message(detail@),
    {
        match self {
            PageError::Message(text) => text,
            PageError::Policy(_) => "资金策略不合法：".to_owned().concat(detail),
            PageError::Plan(_) => "下注策略计算失败：".to_owned().concat(detail),
            PageError::Config(_) => "回放配置不合法：".to_owned().concat(detail),
            PageError::Hand(_) => "二十一点 EV 计算失败：".to_owned().concat(detail),
        }
    }
}

/// What a page sets for the bets on a shoe.
#[derive(Debug, Clone, Copy, PartialEq, Eq)]
pub struct StrategySettings<E> {
    pub rebate_rate: E,
    pub minimum_effective_ev: E,
    pub bankroll: E,
    pub max_fraction: E,
    pub max_round_stake: E,
    pub table_limit: E,
    /// The number that the way to choose stakes is set by.
    pub strategy_parameter: E,
    pub minimum_side_bet_ev: E,
    pub side_bet_limit: E,
    pub allow_multiple_bets: bool,
}

impl<E: Number> StrategySettings<E> {
    /// The settings of a page that only asks for a rebate: no threshold, a bankroll of ten
    /// thousand and no limit below it.
    pub open spec fn plain(rebate_rate: E) -> StrategySettings<E> {
        StrategySettings {
            rebate_rate,
            minimum_effective_ev: number::small::<E>(0),
            bankroll: number::small::<E>(10_000),
            max_fraction: number::small::<E>(1),
            max_round_stake: number::small::<E>(10_000),
            table_limit: number::small::<E>(10_000),
            strategy_parameter: number::small::<E>(0),
            minimum_side_bet_ev: number::small::<E>(0),
            side_bet_limit: number::small::<E>(10_000),
            allow_multiple_bets: false,
        }
    }

    /// Gives the settings of a page that only asks for a rebate.
    pub fn with_rebate(rebate_rate: E) -> (settings: StrategySettings<E>)
        requires
            number::arithmetic::<E>(),
        ensures
            settings == Self::plain(rebate_rate),
    {
        let zero: E = E::from(0u32);
        let amount: E = E::from(10_000u32);
        StrategySettings {
            rebate_rate,
            minimum_effective_ev: zero,
            bankroll: amount,
            max_fraction: E::from(1u32),
            max_round_stake: amount,
            table_limit: amount,
            strategy_parameter: zero,
            minimum_side_bet_ev: zero,
            side_bet_limit: amount,
            allow_multiple_bets: false,
        }
    }

    /// The settings of a page that makes one bet a round and has the threshold and the limit of
    /// the main bets for the side bets too.
    pub fn for_one_bet(
        rebate_rate: E,
        minimum_effective_ev: E,
        bankroll: E,
        max_fraction: E,
        max_round_stake: E,
        table_limit: E,
        strategy_parameter: E,
    ) -> (settings: StrategySettings<E>)
        ensures
            settings == (StrategySettings {
                rebate_rate,
                minimum_effective_ev,
                bankroll,
                max_fraction,
                max_round_stake,
                table_limit,
                strategy_parameter,
                minimum_side_bet_ev: minimum_effective_ev,
                side_bet_limit: max_round_stake,
                allow_multiple_bets: false,
            }),
    {
        StrategySettings {
            rebate_rate,
            minimum_effective_ev,
            bankroll,
            max_fraction,
            max_round_stake,
            table_limit,
            strategy_parameter,
            minimum_side_bet_ev: minimum_effective_ev,
            side_bet_limit: max_round_stake,
            allow_multiple_bets: false,
        }
    }

    /// The settings with a threshold and a limit of their own for the side bets.
    pub fn with_side_bets(self, minimum_side_bet_ev: E, side_bet_limit: E) -> (settings:
        StrategySettings<E>)
        ensures
            settings == (StrategySettings { minimum_side_bet_ev, side_bet_limit, ..self }),
    {
        StrategySettings { minimum_side_bet_ev, side_bet_limit, ..self }
    }

    /// The settings with one bet a round or with every eligible one.
    pub fn with_multiple_bets(self, allow_multiple_bets: bool) -> (settings: StrategySettings<E>)
        ensures
            settings == (StrategySettings { allow_multiple_bets, ..self }),
    {
        StrategySettings { allow_multiple_bets, ..self }
    }
}

/// What a page tells of a shoe.
#[derive(Debug)]
pub struct ShoeInput {
    /// The word that tells what the cards are, in lower case.
    pub source_mode: String,
    /// The number of listed cards.
    pub card_count: usize,
    pub shoe: Shoe,
}

/// What is said of an unsupported number of decks.
pub open spec fn decks_message(decks: u8) -> Seq<char> {
    "副牌数不合法："@ + (ShoeError::InvalidDeckCount { decks }).message()
}

/// Whether a message is a prefix and the message of a refusal to take cards out of a shoe.
pub open spec fn tells_removal(
    message: Seq<char>,
    prefix: Seq<char>,
    shoe: ShoeView,
    cards: Seq<Card>,
) -> bool {
    exists|error: ShoeError|
        #![trigger shoe.refuses_removal(cards, error)]
        shoe.refuses_removal(cards, error) && message == prefix + error.message()
}

/// Whether a message tells why a list cannot be the cards of a shoe.
pub open spec fn tells_remaining(message: Seq<char>, decks: u8, cards: Seq<Card>) -> bool {
    exists|error: ShoeError|
        #![trigger shoe::refuses_remaining(decks, cards, error)]
        shoe::refuses_remaining(decks, cards, error) && message
            == "剩余牌无法构成合法牌靴："@ + error.message()
}

/// Whether a result is the shoe that listed cards describe.
pub open spec fn describes_shoe(
    result: Result<Shoe, String>,
    mode: Seq<char>,
    decks: u8,
    cards: Seq<Card>,
) -> bool {
    let full = shoe::full_shoe(decks as nat);
    if mode == "consumed"@ {
        match result {
            Ok(built) => shoe::MIN_DECKS <= decks <= shoe::MAX_DECKS && full.holds(cards) && built@
                == full.without_all(cards),
            Err(message) => if shoe::MIN_DECKS <= decks <= shoe::MAX_DECKS {
                tells_removal(message@, "已消耗牌无法从牌靴扣除："@, full, cards)
            } else {
                message@ == decks_message(decks)
            },
        }
    } else if mode == "remaining"@ {
        match result {
            Ok(built) => built@ == shoe::exact_shoe(decks as nat, cards) && built@.wf(),
            Err(message) => tells_remaining(message@, decks, cards),
        }
    } else {
        result matches Err(message) && message@ == "输入模式必须是 consumed 或 remaining"@
    }
}

fn shoe_of_cards(mode: &String, decks: u8, cards: &Vec<Card>) -> (result: Result<Shoe, String>)
    ensures
        describes_shoe(result, mode@, decks, cards@),
{
    if text::equal(mode.as_str(), "consumed") {
        let mut built: Shoe = match Shoe::new(decks) {
            Ok(built) => built,
            Err(error) => {
                return Err("副牌数不合法：".to_owned().concat(error.to_string().as_str()));
            },
        };
        match built.remove_many(cards.as_slice()) {
            Ok(_) => Ok(built),
            Err(error) => {
                proof {
                    assert(shoe::full_shoe(decks as nat).refuses_removal(cards@, error));
                }
                Err("已消耗牌无法从牌靴扣除：".to_owned().concat(error.to_string().as_str()))
            },
        }
    } else if text::equal(mode.as_str(), "remaining") {
        match Shoe::from_remaining(decks, cards.as_slice()) {
            Ok(built) => Ok(built),
            Err(error) => {
                proof {
                    assert(shoe::refuses_remaining(decks, cards@, error));
                }
                Err("剩余牌无法构成合法牌靴：".to_owned().concat(error.to_string().as_str()))
            },
        }
    } else {
        Err("输入模式必须是 consumed 或 remaining".to_owned())
    }
}

/// What is said of a shoe with too few cards for a round.
pub open spec fn too_few_message(total: nat) -> Seq<char> {
    "当前只剩 "@ + text::decimal(total) + " 张牌，至少需要 6 张才能计算下一局完整概率"@
}

/// Whether a result is what a page tells of a baccarat shoe: the cards are read first, then the
/// shoe is made, then it must hold enough cards for a round.
pub open spec fn tells_shoe(
    result: Result<ShoeInput, String>,
    source_mode: Seq<char>,
    decks: u8,
    cards_text: Seq<char>,
) -> bool {
    let mode = text::normal(source_mode);
    match cli::card_list(words(cards_text)) {
        CardList::Unreadable(shown) => result matches Err(message) && message@ == card_refusal(
            shown,
        ),
        CardList::Cards(cards) => match result {
            Ok(input) => {
                &&& input.source_mode@ == mode
                &&& input.card_count == cards.len()
                &&& describes_shoe(Ok(input.shoe), mode, decks, cards)
                &&& input.shoe@.total() >= 6
            },
            Err(message) => {
                ||| describes_shoe(Err(message), mode, decks, cards)
                ||| exists|built: Shoe|
                    {
                        &&& #[trigger] describes_shoe(Ok(built), mode, decks, cards)
                        &&& built@.total() < 6
                        &&& message@ == too_few_message(built@.total())
                    }
            },
        },
    }
}

/// Reads what a page tells of a baccarat shoe.
pub fn read_baccarat_shoe(source_mode: &str, decks: u8, cards_text: &str) -> (result: Result<
    ShoeInput,
    String,
>)
    ensures
        tells_shoe(result, source_mode@, decks, cards_text@),
{
    let cards: Vec<Card> = match parse_cards(cards_text) {
        Ok(cards) => cards,
        Err(message) => {
            return Err(message);
        },
    };
    let mode: String = text::normalized(source_mode);
    let built: Shoe = match shoe_of_cards(&mode, decks, &cards) {
        Ok(built) => built,
        Err(message) => {
            return Err(message);
        },
    };
    let total: u16 = built.total_remaining();
    if total < 6 {
        let mut message: String = "当前只剩 ".to_owned();
        text::push_decimal(&mut message, total as u64);
        message.append(" 张牌，至少需要 6 张才能计算下一局完整概率");
        proof {
            assert(describes_shoe(Ok(built), text::normal(source_mode@), decks, cards@));
        }
        return Err(message);
    }
    Ok(ShoeInput { source_mode: mode, card_count: cards.len(), shoe: built })
}

/// The threshold and the limit of side bets: those of the other bets where neither was sent.
pub fn side_bet_settings<E: Copy + PartialOrd>(
    scale: Scale<E>,
    minimum_side_bet_ev: E,
    side_bet_limit: E,
    minimum_effective_ev: E,
    max_round_stake: E,
) -> (settings: (E, E))
    ensures
        order::comparable::<E>() ==> settings == if !scale.finite(minimum_side_bet_ev)
            && !scale.finite(side_bet_limit) {
            (minimum_effective_ev, max_round_stake)
        } else {
            (minimum_side_bet_ev, side_bet_limit)
        },
{
    if !scale.is_finite(minimum_side_bet_ev) && !scale.is_finite(side_bet_limit) {
        (minimum_effective_ev, max_round_stake)
    } else {
        (minimum_side_bet_ev, side_bet_limit)
    }
}

/// What a page tells of a blackjack hand.
#[derive(Debug)]
pub struct BlackjackInput {
    /// The word that tells what the shoe's cards are, in lower case.
    pub source_mode: String,
    /// The number of cards listed for the shoe.
    pub shoe_card_count: usize,
    /// The shoe without the cards on the table.
    pub shoe: Shoe,
    pub player_cards: Vec<Card>,
    pub dealer_upcard: Card,
}

/// What is said of a wrong number of the player's cards.
pub open spec fn player_count_message(count: nat) -> Seq<char> {
    "玩家起手牌必须正好是 2 张，当前输入了 "@ + text::decimal(count) + " 张"@
}

/// What is said of a wrong number of the dealer's cards.
pub open spec fn dealer_count_message(count: nat) -> Seq<char> {
    "庄家明牌必须正好是 1 张，当前输入了 "@ + text::decimal(count) + " 张"@
}

/// Whether a result is the shoe of a hand: the cards on the table leave a shoe that is
/// described by its consumed cards, and are no part of one that is described by its remaining
/// cards.
pub open spec fn describes_table(
    result: Result<Shoe, String>,
    mode: Seq<char>,
    decks: u8,
    cards: Seq<Card>,
    player: Seq<Card>,
    upcard: Card,
) -> bool {
    let full = shoe::full_shoe(decks as nat);
    let dealt = full.without_all(cards);
    let seen = dealt.without_all(player);
    if mode == "consumed"@ {
        match result {
            Ok(built) => {
                &&& shoe::MIN_DECKS <= decks <= shoe::MAX_DECKS
                &&& full.holds(cards)
                &&& dealt.holds(player)
                &&& seen.copies(upcard) > 0
                &&& built@ == seen.without(upcard)
            },
            Err(message) => if !(shoe::MIN_DECKS <= decks <= shoe::MAX_DECKS) {
                message@ == decks_message(decks)
            } else if !full.holds(cards) {
                tells_removal(message@, "历史已消耗牌无法从牌靴扣除："@, full, cards)
            } else if !dealt.holds(player) {
                tells_removal(message@, "玩家起手牌无法从牌靴扣除："@, dealt, player)
            } else {
                &&& seen.copies(upcard) == 0
                &&& message@ == "庄家明牌无法从牌靴扣除："@ + (ShoeError::CardUnavailable {
                    card: upcard,
                    requested: 1,
                    remaining: 0,
                }).message()
            },
        }
    } else if mode == "remaining"@ {
        match result {
            Ok(built) => built@ == shoe::exact_shoe(decks as nat, cards) && built@.wf(),
            Err(message) => tells_remaining(message@, decks, cards),
        }
    } else {
        result matches Err(message) && message@ == "输入模式必须是 consumed 或 remaining"@
    }
}

fn shoe_of_table(
    mode: &String,
    decks: u8,
    cards: &Vec<Card>,
    player: &Vec<Card>,
    upcard: Card,
) -> (result: Result<Shoe, String>)
    ensures
        describes_table(result, mode@, decks, cards@, player@, upcard),
{
    if text::equal(mode.as_str(), "consumed") {
        let mut built: Shoe = match Shoe::new(decks) {
            Ok(built) => built,
            Err(error) => {
                return Err("副牌数不合法：".to_owned().concat(error.to_string().as_str()));
            },
        };
        match built.remove_many(cards.as_slice()) {
            Ok(_) => {},
            Err(error) => {
                proof {
                    shoe::lemma_refusal_means_missing(shoe::full_shoe(decks as nat), cards@, error);
                }
                return Err(
                    "历史已消耗牌无法从牌靴扣除：".to_owned().concat(
                        error.to_string().as_str(),
                    ),
                );
            },
        }
        let ghost dealt = built@;
        match built.remove_many(player.as_slice()) {
            Ok(_) => {},
            Err(error) => {
                proof {
                    shoe::lemma_refusal_means_missing(dealt, player@, error);
                }
                return Err(
                    "玩家起手牌无法从牌靴扣除：".to_owned().concat(error.to_string().as_str()),
                );
            },
        }
        match built.remove(upcard) {
            Ok(_) => Ok(built),
            Err(error) => Err(
                "庄家明牌无法从牌靴扣除：".to_owned().concat(error.to_string().as_str()),
            ),
        }
    } else if text::equal(mode.as_str(), "remaining") {
        match Shoe::from_remaining(decks, cards.as_slice()) {
            Ok(built) => Ok(built),
            Err(error) => {
                proof {
                    assert(shoe::refuses_remaining(decks, cards@, error));
                }
                Err("剩余牌无法构成合法牌靴：".to_owned().concat(error.to_string().as_str()))
            },
        }
    } else {
        Err("输入模式必须是 consumed 或 remaining".to_owned())
    }
}

/// The cards of a text, where all its words are cards.
pub open spec fn cards_told(input: Seq<char>) -> Option<Seq<Card>> {
    match cli::card_list(words(input)) {
        CardList::Cards(cards) => Some(cards),
        CardList::Unreadable(_) => None,
    }
}

/// The message for the first word of a text that is no card.
pub open spec fn cards_message(input: Seq<char>) -> Seq<char> {
    match cli::card_list(words(input)) {
        CardList::Cards(_) => Seq::empty(),
        CardList::Unreadable(shown) => card_refusal(shown),
    }
}

/// Whether a result is what a page tells of a blackjack hand: the cards of the shoe, of the
/// player and of the dealer are read in this order, then the shoe is made.
pub open spec fn tells_table(
    result: Result<BlackjackInput, String>,
    source_mode: Seq<char>,
    decks: u8,
    shoe_text: Seq<char>,
    player_text: Seq<char>,
    dealer_text: Seq<char>,
) -> bool {
    let mode = text::normal(source_mode);
    match (cards_told(shoe_text), cards_told(player_text), cards_told(dealer_text)) {
        (None, _, _) => result matches Err(message) && message@ == cards_message(shoe_text),
        (Some(_), None, _) => result matches Err(message) && message@ == cards_message(
            player_text,
        ),
        (Some(cards), Some(player), dealer) => if player.len() != 2 {
            result matches Err(message) && message@ == player_count_message(player.len())
        } else {
            match dealer {
                None => result matches Err(message) && message@ == cards_message(dealer_text),
                Some(dealer) => if dealer.len() != 1 {
                    result matches Err(message) && message@ == dealer_count_message(dealer.len())
                } else {
                    match result {
                        Ok(input) => {
                            &&& input.source_mode@ == mode
                            &&& input.shoe_card_count == cards.len()
                            &&& input.player_cards@ == player
                            &&& input.dealer_upcard == dealer[0]
                            &&& describes_table(
                                Ok(input.shoe),
                                mode,
                                decks,
                                cards,
                                player,
                                dealer[0],
                            )
                        },
                        Err(message) => describes_table(
                            Err(message),
                            mode,
                            decks,
                            cards,
                            player,
                            dealer[0],
                        ),
                    }
                },
            }
        },
    }
}

/// Reads what a page tells of a blackjack hand.
pub fn read_blackjack_table(
    source_mode: &str,
    decks: u8,
    shoe_cards_text: &str,
    player_cards_text: &str,
    dealer_upcard_text: &str,
) -> (result: Result<BlackjackInput, String>)
    ensures
        tells_table(
            result,
            source_mode@,
            decks,
            shoe_cards_text@,
            player_cards_text@,
            dealer_upcard_text@,
        ),
{
    let cards: Vec<Card> = match parse_cards(shoe_cards_text) {
        Ok(cards) => cards,
        Err(message) => {
            return Err(message);
        },
    };
    let player: Vec<Card> = match parse_cards(player_cards_text) {
        Ok(player) => player,
        Err(message) => {
            return Err(message);
        },
    };
    if player.len() != 2 {
        let mut message: String = "玩家起手牌必须正好是 2 张，当前输入了 ".to_owned();
        text::push_decimal(&mut message, player.len() as u64);
        message.append(" 张");
        return Err(message);
    }
    let dealer: Vec<Card> = match parse_cards(dealer_upcard_text) {
        Ok(dealer) => dealer,
        Err(message) => {
            return Err(message);
        },
    };
    if dealer.len() != 1 {
        let mut message: String = "庄家明牌必须正好是 1 张，当前输入了 ".to_owned();
        text::push_decimal(&mut message, dealer.len() as u64);
        message.append(" 张");
        return Err(message);
    }
    let upcard: Card = dealer[0];
    let mode: String = text::normalized(source_mode);
    match shoe_of_table(&mode, decks, &cards, &player, upcard) {
        Ok(built) => Ok(
            BlackjackInput {
                source_mode: mode,
                shoe_card_count: cards.len(),
                shoe: built,
                player_cards: player,
                dealer_upcard: upcard,
            },
        ),
        Err(message) => Err(message),
    }
}

} // verus!
