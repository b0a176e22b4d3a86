//! Repeatable random shoes: shuffling, dealing by the rules and writing rounds as CSV.

use vstd::prelude::*;

use crate::baccarat::provider;
use crate::baccarat::random;
use crate::baccarat::random::DeterministicRng;
use crate::baccarat::round;
use crate::baccarat::round::{resolve_round, RoundOutcome};
use crate::baccarat::rule;
use crate::card::{Card, Rank};
use crate::csv_text;
use crate::csv_text::{csv_error_text, csv_record};
use crate::text;

verus! {

/// The parameters of a simulation.
#[derive(Debug, Clone, Copy, PartialEq, Eq, Structural)]
pub struct BaccaratSimulationConfig {
    /// How many shoes are shuffled and dealt.
    pub shoes: u64,
    /// The decks of each shoe.
    pub decks: u8,
    /// How many rounds are dealt from each shoe.
    pub max_rounds_per_shoe: u32,
    /// The seed of the random numbers.
    pub seed: u64,
    /// The number of the first shoe; the others follow.
    pub start_session_id: u64,
}

/// What is wrong with the parameters of a simulation, if anything is.
pub open spec fn config_problem(config: BaccaratSimulationConfig) -> Option<Seq<char>> {
    let guaranteed = config.decks as nat * 52 / 6;
    if config.shoes == 0 {
        Some("牌靴数必须大于 0"@)
    } else if !(1 <= config.decks <= 8) {
        Some("副牌数必须在 1..=8 之间"@)
    } else if config.max_rounds_per_shoe == 0 {
        Some("每靴最大子局数必须大于 0"@)
    } else if config.max_rounds_per_shoe > guaranteed {
        Some(
            text::decimal(config.decks as nat) + " 副牌最多保证生成 "@ + text::decimal(guaranteed)
                + " 局，当前填写了 "@ + text::decimal(config.max_rounds_per_shoe as nat) + " 局"@,
        )
    } else if config.start_session_id + (config.shoes - 1) > u64::MAX {
        Some("牌靴编号发生 u64 溢出"@)
    } else {
        None
    }
}

/// Why a simulation was refused or stopped.
#[derive(Debug)]
pub enum BaccaratSimulationError {
    /// The parameters do not allow a complete simulation.
    InvalidConfig(String),
    /// A shoe ran out of cards.
    GeneratedRound(String),
    /// A line could not be written.
    Csv(csv::Error),
}

impl BaccaratSimulationConfig {
    /// Checks and collects the parameters of a simulation.
    pub fn new(
        shoes: u64,
        decks: u8,
        max_rounds_per_shoe: u32,
        seed: u64,
        start_session_id: u64,
    ) -> (result: Result<BaccaratSimulationConfig, BaccaratSimulationError>)
        ensures
            ({
                let given = BaccaratSimulationConfig {
                    shoes,
                    decks,
                    max_rounds_per_shoe,
                    seed,
                    start_session_id,
                };
                match result {
                    Ok(config) => config == given && config_problem(given) is None,
                    Err(BaccaratSimulationError::InvalidConfig(message)) => config_problem(given)
                        == Some(message@),
                    Err(_) => false,
                }
            }),
    {
        if shoes == 0 {
            return Err(
                BaccaratSimulationError::InvalidConfig("牌靴数必须大于 0".to_owned()),
            );
        }
        if decks < 1 || decks > 8 {
            return Err(
                BaccaratSimulationError::InvalidConfig("副牌数必须在 1..=8 之间".to_owned()),
            );
        }
        if max_rounds_per_shoe == 0 {
            return Err(
                BaccaratSimulationError::InvalidConfig("每靴最大子局数必须大于 0".to_owned()),
            );
        }
        let guaranteed_rounds: u32 = decks as u32 * 52 / 6;
        if max_rounds_per_shoe > guaranteed_rounds {
            let mut message: String = text::decimal_text(decks as u64);
            message.append(" 副牌最多保证生成 ");
            text::push_decimal(&mut message, guaranteed_rounds as u64);
            message.append(" 局，当前填写了 ");
            text::push_decimal(&mut message, max_rounds_per_shoe as u64);
            message.append(" 局");
            return Err(BaccaratSimulationError::InvalidConfig(message));
        }
        if start_session_id.checked_add(shoes - 1).is_none() {
            return Err(
                BaccaratSimulationError::InvalidConfig("牌靴编号发生 u64 溢出".to_owned()),
            );
        }
        Ok(BaccaratSimulationConfig { shoes, decks, max_rounds_per_shoe, seed, start_session_id })
    }
}

/// The points of a card code.
pub open spec fn code_points(code: u8) -> int {
    if 1 <= code % 20 <= 9 {
        (code % 20) as int
    } else {
        0
    }
}

/// The codes of one deck in order: four suits of thirteen.
pub open spec fn deck_code(i: int) -> u8 {
    ((i / 13) % 4 * 20 + i % 13 + 1) as u8
}

/// The codes of a new shoe, deck after deck.
pub open spec fn full_codes(decks: nat) -> Seq<u8> {
    Seq::new(decks * 52, |i: int| deck_code(i % 52))
}

/// The points of the next cards of a shoe, which are dealt from its end; six are looked at.
pub open spec fn next_points(codes: Seq<u8>) -> Seq<int> {
    Seq::new(
        if codes.len() < 6 {
            codes.len()
        } else {
            6
        },
        |i: int| code_points(codes[codes.len() - 1 - i]),
    )
}

/// Whether a shoe holds the cards of a whole round.
pub open spec fn can_deal(codes: Seq<u8>) -> bool {
    match round::dealing_error(next_points(codes)) {
        None => true,
        Some(round::RoundError::UnexpectedExtraCards) => true,
        Some(_) => false,
    }
}

/// The number of cards of the next round.
pub open spec fn next_length(codes: Seq<u8>) -> int {
    round::cards_used(next_points(codes))
}

/// The codes of the next round, in dealing order.
pub open spec fn next_order(codes: Seq<u8>) -> Seq<u8> {
    Seq::new(next_length(codes) as nat, |i: int| codes[codes.len() - 1 - i])
}

/// The player's codes of the next round.
pub open spec fn next_player(codes: Seq<u8>) -> Seq<u8> {
    let order = next_order(codes);
    if round::player_takes(next_points(codes)) {
        seq![order[0], order[2], order[4]]
    } else {
        seq![order[0], order[2]]
    }
}

/// The banker's codes of the next round.
pub open spec fn next_banker(codes: Seq<u8>) -> Seq<u8> {
    let order = next_order(codes);
    if round::banker_takes(next_points(codes)) {
        seq![order[1], order[3], order.last()]
    } else {
        seq![order[1], order[3]]
    }
}

/// The shoe after the next round.
pub open spec fn after_round(codes: Seq<u8>) -> Seq<u8> {
    codes.take(codes.len() - next_length(codes))
}

/// The shoe after `n` rounds.
pub open spec fn after_rounds(codes: Seq<u8>, n: nat) -> Seq<u8>
    decreases n,
{
    if n == 0 {
        codes
    } else {
        after_round(after_rounds(codes, (n - 1) as nat))
    }
}

/// Whether `n` rounds can be dealt from a shoe.
pub open spec fn can_deal_rounds(codes: Seq<u8>, n: nat) -> bool {
    forall|k: nat| k < n ==> #[trigger] can_deal(after_rounds(codes, k))
}

/// Codes with commas between them.
pub open spec fn joined_codes(codes: Seq<u8>) -> Seq<char>
    decreases codes.len(),
{
    if codes.len() == 0 {
        Seq::empty()
    } else if codes.len() == 1 {
        text::decimal(codes[0] as nat)
    } else {
        joined_codes(codes.drop_last()).push(',') + text::decimal(codes.last() as nat)
    }
}

/// The payload of the next round of a shoe.
pub open spec fn next_payload(codes: Seq<u8>) -> Seq<char> {
    "b:"@ + joined_codes(next_banker(codes)) + ";p:"@ + joined_codes(next_player(codes))
}

/// A dealt round.
struct DealtRound {
    player: Vec<u8>,
    banker: Vec<u8>,
    dealing_order: Vec<u8>,
}

fn card_point(code: u8) -> (point: u8)
    ensures
        point == code_points(code),
        point < 10,
{
    let rest: u8 = code % 20;
    if 1 <= rest && rest <= 9 {
        rest
    } else {
        0
    }
}

fn pair_total(first: u8, second: u8) -> (total: u8)
    ensures
        total == (code_points(first) + code_points(second)) % 10,
        total < 10,
{
    (card_point(first) + card_point(second)) % 10
}

fn out_of_cards() -> (error: BaccaratSimulationError)
    ensures
        error matches BaccaratSimulationError::GeneratedRound(message) && message@
            == "牌靴没有足够的牌完成指定局数"@,
{
    BaccaratSimulationError::GeneratedRound("牌靴没有足够的牌完成指定局数".to_owned())
}

/// Whether an error says that a shoe ran out of cards.
pub open spec fn says_out_of_cards(error: BaccaratSimulationError) -> bool {
    error matches BaccaratSimulationError::GeneratedRound(message) && message@
        == "牌靴没有足够的牌完成指定局数"@
}

/// Deals one round from the end of a shoe.
fn deal_round(shoe: &mut Vec<u8>) -> (result: Result<DealtRound, BaccaratSimulationError>)
    ensures
        match result {
            Ok(dealt) => {
                &&& can_deal(old(shoe)@)
                &&& dealt.dealing_order@ == next_order(old(shoe)@)
                &&& dealt.player@ == next_player(old(shoe)@)
                &&& dealt.banker@ == next_banker(old(shoe)@)
                &&& final(shoe)@ == after_round(old(shoe)@)
                &&& next_length(old(shoe)@) <= old(shoe)@.len()
            },
            Err(error) => !can_deal(old(shoe)@) && says_out_of_cards(error),
        },
{
    let ghost all = shoe@;
    let ghost points = next_points(all);
    if shoe.len() < 4 {
        return Err(out_of_cards());
    }
    let length: usize = shoe.len();
    let player_first: u8 = shoe[length - 1];
    let banker_first: u8 = shoe[length - 2];
    let player_second: u8 = shoe[length - 3];
    let banker_second: u8 = shoe[length - 4];
    let mut player: Vec<u8> = vec![player_first, player_second];
    let mut banker: Vec<u8> = vec![banker_first, banker_second];
    let mut dealing_order: Vec<u8> = vec![player_first, banker_first, player_second, banker_second];
    let player_initial: u8 = pair_total(player_first, player_second);
    let banker_initial: u8 = pair_total(banker_first, banker_second);
    let mut used: usize = 4;
    if player_initial < 8 && banker_initial < 8 {
        let mut player_third: Option<u8> = None;
        if rule::player_should_draw(player_initial) {
            if length < 5 {
                return Err(out_of_cards());
            }
            let card: u8 = shoe[length - 5];
            player.push(card);
            dealing_order.push(card);
            player_third = Some(card_point(card));
            used = 5;
        }
        if rule::banker_should_draw(banker_initial, player_third) {
            if length < used + 1 {
                return Err(out_of_cards());
            }
            let card: u8 = shoe[length - 1 - used];
            banker.push(card);
            dealing_order.push(card);
            used = used + 1;
        }
    }
    assert(used == round::cards_used(points));
    shoe.truncate(length - used);
    proof {
        assert(dealing_order@ =~= next_order(all));
        assert(player@ =~= next_player(all));
        assert(banker@ =~= next_banker(all));
        assert(shoe@ =~= after_round(all));
    }
    Ok(DealtRound { player, banker, dealing_order })
}

/// The codes of a new shoe.
fn full_shoe_codes(decks: u8) -> (codes: Vec<u8>)
    ensures
        codes@ == full_codes(decks as nat),
{
    let mut codes: Vec<u8> = Vec::with_capacity(decks as usize * 52);
    let total: usize = decks as usize * 52;
    let mut i: usize = 0;
    while i < total
        invariant
            i <= total,
            total == decks * 52,
            codes@.len() == i,
            forall|k: int| 0 <= k < i ==> #[trigger] codes@[k] == deck_code(k % 52),
        decreases total - i,
    {
        let place: usize = i % 52;
        let suit: u8 = (place / 13) as u8;
        let rank: u8 = (place % 13) as u8;
        assert(suit < 4);
        assert(suit % 4 == suit);
        codes.push(suit * 20 + rank + 1);
        i += 1;
    }
    assert(codes@ =~= full_codes(decks as nat));
    codes
}

/// Codes with commas between them.
fn join_codes(codes: &Vec<u8>) -> (result: String)
    ensures
        result@ == joined_codes(codes@),
{
    let mut result: String = String::new();
    let mut i: usize = 0;
    while i < codes.len()
        invariant
            i <= codes@.len(),
            result@ == joined_codes(codes@.take(i as int)),
        decreases codes@.len() - i,
    {
        proof {
            let longer = codes@.take(i + 1);
            assert(longer.drop_last() =~= codes@.take(i as int));
            assert(longer.last() == codes@[i as int]);
        }
        if i > 0 {
            result.push(',');
        }
        text::push_decimal(&mut result, codes[i] as u64);
        proof {
            assert(result@ =~= joined_codes(codes@.take(i + 1)));
        }
        i += 1;
    }
    assert(codes@.take(codes@.len() as int) =~= codes@);
    result
}

/// One generated round.
#[derive(Debug, Clone, PartialEq, Eq)]
pub struct GeneratedRound {
    pub session_id: u64,
    pub round_no: u32,
    pub raw_cards: String,
}

/// The fields of a round in a CSV line.
pub open spec fn round_fields(session_id: nat, round_no: nat, payload: Seq<char>) -> Seq<
    Seq<char>,
> {
    seq![text::decimal(session_id), text::decimal(round_no), payload]
}

impl GeneratedRound {
    /// Whether this is round `k`, counted from zero, of a shoe.
    pub open spec fn is_round(self, session_id: nat, codes: Seq<u8>, k: nat) -> bool {
        &&& self.session_id == session_id
        &&& self.round_no == k + 1
        &&& self.raw_cards@ == next_payload(after_rounds(codes, k))
    }

    /// The fields of the round in a CSV line.
    pub open spec fn fields(self) -> Seq<Seq<char>> {
        round_fields(self.session_id as nat, self.round_no as nat, self.raw_cards@)
    }

    /// The CSV line of the round.
    pub fn csv_line(&self) -> (result: Result<String, BaccaratSimulationError>)
        ensures
            result matches Ok(line) && line@ == csv_text::csv_line(self.fields()),
    {
        let fields: Vec<String> = vec![
            text::decimal_text(self.session_id),
            text::decimal_text(self.round_no as u64),
            self.raw_cards.clone(),
        ];
        assert(csv_text::views(fields@) =~= self.fields());
        match csv_record(&fields) {
            Ok(line) => Ok(line),
            Err(error) => Err(BaccaratSimulationError::Csv(error)),
        }
    }
}

/// The names of the columns.
pub open spec fn header_fields() -> Seq<Seq<char>> {
    seq!["session_id"@, "round_no"@, "raw_cards"@]
}

/// The line of column names.
pub fn csv_header() -> (result: Result<String, BaccaratSimulationError>)
    ensures
        result matches Ok(line) && line@ == csv_text::csv_line(header_fields()),
{
    let fields: Vec<String> = vec![
        "session_id".to_owned(),
        "round_no".to_owned(),
        "raw_cards".to_owned(),
    ];
    assert(csv_text::views(fields@) =~= header_fields());
    match csv_record(&fields) {
        Ok(line) => Ok(line),
        Err(error) => Err(BaccaratSimulationError::Csv(error)),
    }
}

/// Tells whether column names are those of generated rounds.
pub fn has_generated_columns(names: &[String]) -> (result: bool)
    ensures
        result == (csv_text::views(names@) == header_fields()),
{
    let ghost told = csv_text::views(names@);
    if names.len() != 3 {
        assert(told.len() != header_fields().len());
        return false;
    }
    let result: bool = text::equal(names[0].as_str(), "session_id") && text::equal(
        names[1].as_str(),
        "round_no",
    ) && text::equal(names[2].as_str(), "raw_cards");
    proof {
        assert(told[0] == names@[0]@ && told[1] == names@[1]@ && told[2] == names@[2]@);
        assert(header_fields()[0] == "session_id"@);
        assert(header_fields()[1] == "round_no"@);
        assert(header_fields()[2] == "raw_cards"@);
        if result {
            assert(told =~= header_fields());
        }
    }
    result
}

/// The random state before shoe `n` is shuffled.
pub open spec fn state_before(config: BaccaratSimulationConfig, n: nat) -> u64
    decreases n,
{
    if n == 0 {
        random::seeded(config.seed)
    } else {
        random::shuffle_result(
            state_before(config, (n - 1) as nat),
            full_codes(config.decks as nat),
        ).0
    }
}

/// The codes of shoe `n` after shuffling.
pub open spec fn shoe_codes(config: BaccaratSimulationConfig, n: nat) -> Seq<u8> {
    random::shuffle_result(state_before(config, n), full_codes(config.decks as nat)).1
}

/// Whether the rounds of shoe `n` can all be dealt.
pub open spec fn shoe_lasts(config: BaccaratSimulationConfig, n: nat) -> bool {
    can_deal_rounds(shoe_codes(config, n), config.max_rounds_per_shoe as nat)
}

/// Whether rows are the rounds of shoe `n`.
pub open spec fn are_rounds_of(
    rows: Seq<GeneratedRound>,
    config: BaccaratSimulationConfig,
    n: nat,
) -> bool {
    &&& rows.len() == config.max_rounds_per_shoe
    &&& forall|k: int|
        0 <= k < rows.len() ==> (#[trigger] rows[k]).is_round(
            config.start_session_id as nat + n,
            shoe_codes(config, n),
            k as nat,
        )
}

/// Totals of a simulation.
#[derive(Debug, Clone, Copy, PartialEq, Eq, Structural)]
pub struct BaccaratGenerationSummary {
    pub shoes: u64,
    pub rounds: u64,
    pub player_wins: u64,
    pub banker_wins: u64,
    pub ties: u64,
}

impl Default for BaccaratGenerationSummary {
    fn default() -> (summary: BaccaratGenerationSummary)
        ensures
            summary == (BaccaratGenerationSummary {
                shoes: 0,
                rounds: 0,
                player_wins: 0,
                banker_wins: 0,
                ties: 0,
            }),
    {
        BaccaratGenerationSummary { shoes: 0, rounds: 0, player_wins: 0, banker_wins: 0, ties: 0 }
    }
}

/// Who wins the next round of a shoe.
pub open spec fn next_winner(codes: Seq<u8>) -> RoundOutcome {
    let points = next_points(codes);
    round::winner(round::player_final(points), round::banker_final(points))
}

/// How many of the first `n` rounds of a shoe end in an outcome.
pub open spec fn wins_of(codes: Seq<u8>, n: nat, outcome: RoundOutcome) -> nat
    decreases n,
{
    if n == 0 {
        0
    } else {
        wins_of(codes, (n - 1) as nat, outcome) + if next_winner(
            after_rounds(codes, (n - 1) as nat),
        ) == outcome {
            1nat
        } else {
            0nat
        }
    }
}

/// How many rounds of the first `n` shoes end in an outcome.
pub open spec fn wins_in_shoes(
    config: BaccaratSimulationConfig,
    n: nat,
    outcome: RoundOutcome,
) -> nat
    decreases n,
{
    if n == 0 {
        0
    } else {
        wins_in_shoes(config, (n - 1) as nat, outcome) + wins_of(
            shoe_codes(config, (n - 1) as nat),
            config.max_rounds_per_shoe as nat,
            outcome,
        )
    }
}

/// One dealt shoe: its rounds and who won them.
pub struct GeneratedShoe {
    pub rows: Vec<GeneratedRound>,
    pub player_wins: u64,
    pub banker_wins: u64,
    pub ties: u64,
}

/// Deals shoes one after another from one stream of random numbers.
pub struct BaccaratShoeGenerator {
    config: BaccaratSimulationConfig,
    state: u64,
    next_index: u64,
}

/// How far a generator has come.
pub struct GeneratorView {
    pub config: BaccaratSimulationConfig,
    pub next_index: nat,
}

impl View for BaccaratShoeGenerator {
    type V = GeneratorView;

    closed spec fn view(&self) -> GeneratorView {
        GeneratorView { config: self.config, next_index: self.next_index as nat }
    }
}

/// Every code of a shuffled shoe is a card.
pub proof fn lemma_codes_are_cards(state: u64, decks: nat)
    ensures
        random::shuffle_result(state, full_codes(decks)).1.len() == decks * 52,
        forall|i: int|
            0 <= i < decks * 52 ==> provider::code_card(
                #[trigger] random::shuffle_result(state, full_codes(decks)).1[i] as int,
            ) is Some,
{
    broadcast use vstd::seq_lib::group_to_multiset_ensures;

    let before = full_codes(decks);
    let after = random::shuffle_result(state, before).1;
    random::lemma_shuffle_is_a_reordering(state, before);
    assert forall|i: int| 0 <= i < decks * 52 implies provider::code_card(
        #[trigger] after[i] as int,
    ) is Some by {
        assert(after.contains(after[i]));
        assert(after.to_multiset().count(after[i]) > 0);
        assert(before.contains(after[i]));
        let j = choose|j: int| 0 <= j < before.len() && before[j] == after[i];
        assert(before[j] == deck_code(j % 52));
        let place = j % 52;
        assert(0 <= place < 52);
        assert(0 <= place / 13 < 4);
    }
}

/// Rounds leave the start of a shoe as it was.
pub proof fn lemma_after_rounds_prefix(codes: Seq<u8>, n: nat)
    requires
        forall|k: nat| k < n ==> #[trigger] can_deal(after_rounds(codes, k)),
    ensures
        after_rounds(codes, n).len() <= codes.len(),
        after_rounds(codes, n) == codes.take(after_rounds(codes, n).len() as int),
    decreases n,
{
    if n > 0 {
        let k = (n - 1) as nat;
        lemma_after_rounds_prefix(codes, k);
        let before = after_rounds(codes, k);
        assert(can_deal(before));
        lemma_round_fits(before);
        assert(after_rounds(codes, n) =~= codes.take(after_rounds(codes, n).len() as int));
    } else {
        assert(codes.take(codes.len() as int) =~= codes);
    }
}

/// A round takes four to six cards.
pub proof fn lemma_round_fits(codes: Seq<u8>)
    requires
        can_deal(codes),
    ensures
        4 <= next_length(codes) <= 6,
        next_length(codes) <= codes.len(),
{
}

/// The cards of a list of valid codes.
pub open spec fn cards_of_codes(codes: Seq<u8>) -> Seq<Card> {
    codes.map_values(|code: u8| provider::code_card(code as int)->0)
}

/// A dealt round of valid codes is a complete round of the rules.
proof fn lemma_dealt_round_resolves(codes: Seq<u8>)
    requires
        can_deal(codes),
        forall|i: int| 0 <= i < codes.len() ==> provider::code_card(#[trigger] codes[i] as int) is Some,
    ensures
        ({
            let cards = cards_of_codes(next_order(codes));
            let points = round::card_points(cards);
            &&& round::dealing_error(points) is None
            &&& round::winner(
                round::player_hand_of(cards).points(),
                round::banker_hand_of(cards).points(),
            ) == next_winner(codes)
        }),
{
    lemma_round_fits(codes);
    let order = next_order(codes);
    let cards = cards_of_codes(order);
    let points = round::card_points(cards);
    let seen = next_points(codes);
    assert forall|i: int| 0 <= i < order.len() implies #[trigger] points[i] == seen[i] by {
        let code = codes[codes.len() - 1 - i];
        assert(provider::code_card(code as int) is Some);
        let rank = code % 20 - 1;
        assert(Rank::ALL@[rank].number() == rank);
    }
    round::lemma_cards_used(seen);
    assert(points[0] == seen[0] && points[1] == seen[1] && points[2] == seen[2] && points[3]
        == seen[3]);
    round::lemma_round_looks_at_used_cards(seen, points);
    round::lemma_card_round_is_point_round(cards);
}

impl BaccaratShoeGenerator {
    #[verifier::type_invariant]
    spec fn inv(self) -> bool {
        &&& self.state == state_before(self.config, self.next_index as nat)
        &&& random::seeded(self.state) == self.state
    }

    /// A generator at its first shoe.
    pub fn new(config: BaccaratSimulationConfig) -> (generator: BaccaratShoeGenerator)
        ensures
            generator@ == (GeneratorView { config, next_index: 0 }),
    {
        let state: u64 = DeterministicRng::new(config.seed).state();
        BaccaratShoeGenerator { config, state, next_index: 0 }
    }

    /// Shuffles and deals the next shoe; nothing when all shoes have been dealt.
    pub fn next_shoe(&mut self) -> (result: Result<
        Option<GeneratedShoe>,
        BaccaratSimulationError,
    >)
        requires
            old(self)@.config.start_session_id + old(self)@.next_index <= u64::MAX,
        ensures
            final(self)@.config == old(self)@.config,
            match result {
                Ok(None) => old(self)@.next_index >= old(self)@.config.shoes && final(self)@
                    == old(self)@,
                Ok(Some(shoe)) => {
                    let config = old(self)@.config;
                    let n = old(self)@.next_index;
                    let codes = shoe_codes(config, n);
                    let rounds = config.max_rounds_per_shoe as nat;
                    &&& n < config.shoes
                    &&& shoe_lasts(config, n)
                    &&& final(self)@.next_index == n + 1
                    &&& are_rounds_of(shoe.rows@, config, n)
                    &&& shoe.player_wins == wins_of(codes, rounds, RoundOutcome::Player)
                    &&& shoe.banker_wins == wins_of(codes, rounds, RoundOutcome::Banker)
                    &&& shoe.ties == wins_of(codes, rounds, RoundOutcome::Tie)
                },
                Err(error) => {
                    &&& old(self)@.next_index < old(self)@.config.shoes
                    &&& !shoe_lasts(old(self)@.config, old(self)@.next_index)
                    &&& says_out_of_cards(error)
                },
            },
    {
        proof {
            use_type_invariant(&*self);
        }
        if self.next_index >= self.config.shoes {
            return Ok(None);
        }
        let config: BaccaratSimulationConfig = self.config;
        let index: u64 = self.next_index;
        let ghost n = index as nat;
        let mut shoe: Vec<u8> = full_shoe_codes(config.decks);
        let mut random: DeterministicRng = DeterministicRng::new(self.state);
        random.shuffle(&mut shoe);
        *self = BaccaratShoeGenerator { config, state: random.state(), next_index: index + 1 };
        let ghost codes = shoe_codes(config, n);
        proof {
            lemma_codes_are_cards(state_before(config, n), config.decks as nat);
        }
        let mut rows: Vec<GeneratedRound> = Vec::new();
        let mut player_wins: u64 = 0;
        let mut banker_wins: u64 = 0;
        let mut ties: u64 = 0;
        let mut round_no: u32 = 0;
        while round_no < config.max_rounds_per_shoe
            invariant
                round_no <= config.max_rounds_per_shoe,
                index == n,
                config == old(self)@.config,
                n == old(self)@.next_index,
                n < config.shoes,
                self@ == (GeneratorView { config, next_index: n + 1 }),
                config.start_session_id + index <= u64::MAX,
                codes == shoe_codes(config, n),
                forall|i: int|
                    0 <= i < codes.len() ==> provider::code_card(#[trigger] codes[i] as int)
                        is Some,
                shoe@ == after_rounds(codes, round_no as nat),
                rows@.len() == round_no,
                forall|k: nat| k < round_no ==> #[trigger] can_deal(after_rounds(codes, k)),
                forall|k: int|
                    0 <= k < rows@.len() ==> (#[trigger] rows@[k]).is_round(
                        config.start_session_id as nat + n,
                        codes,
                        k as nat,
                    ),
                player_wins == wins_of(codes, round_no as nat, RoundOutcome::Player),
                banker_wins == wins_of(codes, round_no as nat, RoundOutcome::Banker),
                ties == wins_of(codes, round_no as nat, RoundOutcome::Tie),
                player_wins <= round_no,
                banker_wins <= round_no,
                ties <= round_no,
            decreases config.max_rounds_per_shoe - round_no,
        {
            let ghost before = shoe@;
            proof {
                lemma_after_rounds_prefix(codes, round_no as nat);
                assert forall|i: int| 0 <= i < before.len() implies provider::code_card(
                    #[trigger] before[i] as int,
                ) is Some by {
                    assert(before[i] == codes[i]);
                }
            }
            let dealt: DealtRound = match deal_round(&mut shoe) {
                Ok(dealt) => dealt,
                Err(error) => {
                    proof {
                        assert(!can_deal(after_rounds(codes, round_no as nat)));
                    }
                    return Err(error);
                },
            };
            proof {
                lemma_dealt_round_resolves(before);
                assert forall|i: int| 0 <= i < dealt.dealing_order@.len() implies provider::code_card(
                    #[trigger] dealt.dealing_order@[i] as int,
                ) is Some by {
                    assert(dealt.dealing_order@[i] == before[before.len() - 1 - i]);
                }
            }
            match winner_of(&dealt.dealing_order) {
                RoundOutcome::Player => {
                    player_wins = player_wins + 1;
                },
                RoundOutcome::Banker => {
                    banker_wins = banker_wins + 1;
                },
                RoundOutcome::Tie => {
                    ties = ties + 1;
                },
            }
            let mut raw_cards: String = "b:".to_owned();
            raw_cards.append(join_codes(&dealt.banker).as_str());
            raw_cards.append(";p:");
            raw_cards.append(join_codes(&dealt.player).as_str());
            rows.push(
                GeneratedRound {
                    session_id: config.start_session_id + index,
                    round_no: round_no + 1,
                    raw_cards,
                },
            );
            round_no += 1;
        }
        Ok(Some(GeneratedShoe { rows, player_wins, banker_wins, ties }))
    }
}

/// Who wins a dealt round of valid codes.
fn winner_of(codes: &Vec<u8>) -> (outcome: RoundOutcome)
    requires
        forall|i: int|
            0 <= i < codes@.len() ==> provider::code_card(#[trigger] codes@[i] as int) is Some,
        round::dealing_error(round::card_points(cards_of_codes(codes@))) is None,
    ensures
        outcome == round::winner(
            round::player_hand_of(cards_of_codes(codes@)).points(),
            round::banker_hand_of(cards_of_codes(codes@)).points(),
        ),
{
    let mut cards: Vec<Card> = Vec::with_capacity(6);
    let mut i: usize = 0;
    while i < codes.len()
        invariant
            i <= codes@.len(),
            forall|k: int|
                0 <= k < codes@.len() ==> provider::code_card(#[trigger] codes@[k] as int) is Some,
            cards@ == cards_of_codes(codes@.take(i as int)),
        decreases codes@.len() - i,
    {
        assert(provider::code_card(codes@[i as int] as int) is Some);
        match provider::provider_card(codes[i]) {
            Ok(card) => {
                cards.push(card);
            },
            Err(_) => {},
        }
        assert(codes@.take(i + 1) =~= codes@.take(i as int).push(codes@[i as int]));
        assert(cards@ =~= cards_of_codes(codes@.take(i + 1)));
        i += 1;
    }
    assert(codes@.take(codes@.len() as int) =~= codes@);
    match resolve_round(cards.as_slice()) {
        Ok(result) => result.outcome(),
        Err(_) => {
            assert(false);
            RoundOutcome::Tie
        },
    }
}

/// The lines of the first `k` rounds of shoe `n`.
pub open spec fn rounds_text(config: BaccaratSimulationConfig, n: nat, k: nat) -> Seq<char>
    decreases k,
{
    if k == 0 {
        Seq::empty()
    } else {
        rounds_text(config, n, (k - 1) as nat) + csv_text::csv_line(
            round_fields(
                config.start_session_id as nat + n,
                k,
                next_payload(after_rounds(shoe_codes(config, n), (k - 1) as nat)),
            ),
        )
    }
}

/// The line of column names and the lines of the first `n` shoes.
pub open spec fn shoes_text(config: BaccaratSimulationConfig, n: nat) -> Seq<char>
    decreases n,
{
    if n == 0 {
        csv_text::csv_line(header_fields())
    } else {
        shoes_text(config, (n - 1) as nat) + rounds_text(
            config,
            (n - 1) as nat,
            config.max_rounds_per_shoe as nat,
        )
    }
}

/// Whether every shoe of a simulation lasts for its rounds.
pub open spec fn simulation_lasts(config: BaccaratSimulationConfig) -> bool {
    forall|n: nat| n < config.shoes ==> #[trigger] shoe_lasts(config, n)
}

/// The totals of a whole simulation.
pub open spec fn summary_of(config: BaccaratSimulationConfig) -> BaccaratGenerationSummary {
    BaccaratGenerationSummary {
        shoes: config.shoes,
        rounds: (config.shoes * config.max_rounds_per_shoe) as u64,
        player_wins: wins_in_shoes(config, config.shoes as nat, RoundOutcome::Player) as u64,
        banker_wins: wins_in_shoes(config, config.shoes as nat, RoundOutcome::Banker) as u64,
        ties: wins_in_shoes(config, config.shoes as nat, RoundOutcome::Tie) as u64,
    }
}

proof fn lemma_wins_at_most(codes: Seq<u8>, n: nat, outcome: RoundOutcome)
    ensures
        wins_of(codes, n, outcome) <= n,
    decreases n,
{
    if n > 0 {
        lemma_wins_at_most(codes, (n - 1) as nat, outcome);
    }
}

/// Writes the lines of one generated shoe behind a text.
fn append_rows(
    text: &mut String,
    rows: &Vec<GeneratedRound>,
    Ghost(config): Ghost<BaccaratSimulationConfig>,
    Ghost(n): Ghost<nat>,
) -> (result: Result<(), BaccaratSimulationError>)
    requires
        are_rounds_of(rows@, config, n),
    ensures
        result is Ok,
        final(text)@ == old(text)@ + rounds_text(config, n, config.max_rounds_per_shoe as nat),
{
    let ghost before = text@;
    let mut k: usize = 0;
    assert(text@ =~= before + rounds_text(config, n, 0));
    while k < rows.len()
        invariant
            k <= rows@.len(),
            are_rounds_of(rows@, config, n),
            text@ == before + rounds_text(config, n, k as nat),
        decreases rows@.len() - k,
    {
        assert(rows@[k as int].is_round(
            config.start_session_id as nat + n,
            shoe_codes(config, n),
            k as nat,
        ));
        let line: String = match rows[k].csv_line() {
            Ok(line) => line,
            Err(error) => {
                return Err(error);
            },
        };
        text.append(line.as_str());
        proof {
            assert(text@ =~= before + rounds_text(config, n, (k + 1) as nat));
        }
        k += 1;
    }
    Ok(())
}

/// Deals all shoes of a simulation into CSV text and counts who won.
pub fn generate_baccarat_csv(config: BaccaratSimulationConfig) -> (result: Result<
    (String, BaccaratGenerationSummary),
    BaccaratSimulationError,
>)
    requires
        config.shoes > 0 ==> config.start_session_id + (config.shoes - 1) <= u64::MAX,
        config.shoes * config.max_rounds_per_shoe <= u64::MAX,
    ensures
        match result {
            Ok((text, summary)) => {
                &&& simulation_lasts(config)
                &&& text@ == shoes_text(config, config.shoes as nat)
                &&& summary == summary_of(config)
            },
            Err(error) => !simulation_lasts(config) && says_out_of_cards(error),
        },
{
    let mut generator: BaccaratShoeGenerator = BaccaratShoeGenerator::new(config);
    let mut text: String = match csv_header() {
        Ok(line) => line,
        Err(error) => {
            return Err(error);
        },
    };
    let mut summary: BaccaratGenerationSummary = BaccaratGenerationSummary::default();
    let mut index: u64 = 0;
    let ghost rounds = config.max_rounds_per_shoe as nat;
    while index < config.shoes
        invariant
            index <= config.shoes,
            rounds == config.max_rounds_per_shoe,
            config.start_session_id + (config.shoes - 1) <= u64::MAX || config.shoes == 0,
            config.shoes * rounds <= u64::MAX,
            generator@ == (GeneratorView { config, next_index: index as nat }),
            forall|n: nat| n < index ==> #[trigger] shoe_lasts(config, n),
            text@ == shoes_text(config, index as nat),
            summary.shoes == index,
            summary.rounds == index * rounds,
            summary.player_wins == wins_in_shoes(config, index as nat, RoundOutcome::Player),
            summary.banker_wins == wins_in_shoes(config, index as nat, RoundOutcome::Banker),
            summary.ties == wins_in_shoes(config, index as nat, RoundOutcome::Tie),
            summary.player_wins <= index * rounds,
            summary.banker_wins <= index * rounds,
            summary.ties <= index * rounds,
        decreases config.shoes - index,
    {
        let ghost n = index as nat;
        let shoe: GeneratedShoe = match generator.next_shoe() {
            Ok(Some(shoe)) => shoe,
            Ok(None) => {
                assert(false);
                return Err(out_of_cards());
            },
            Err(error) => {
                return Err(error);
            },
        };
        let ghost codes = shoe_codes(config, n);
        proof {
            lemma_wins_at_most(codes, rounds, RoundOutcome::Player);
            lemma_wins_at_most(codes, rounds, RoundOutcome::Banker);
            lemma_wins_at_most(codes, rounds, RoundOutcome::Tie);
            assert(index * rounds + rounds == (index + 1) * rounds) by (nonlinear_arith);
            assert((index + 1) * rounds <= config.shoes * rounds) by (nonlinear_arith)
                requires
                    index + 1 <= config.shoes,
            ;
        }
        match append_rows(&mut text, &shoe.rows, Ghost(config), Ghost(n)) {
            Ok(_) => (),
            Err(error) => {
                return Err(error);
            },
        }
        summary.shoes = summary.shoes + 1;
        summary.rounds = summary.rounds + shoe.rows.len() as u64;
        summary.player_wins = summary.player_wins + shoe.player_wins;
        summary.banker_wins = summary.banker_wins + shoe.banker_wins;
        summary.ties = summary.ties + shoe.ties;
        index += 1;
    }
    Ok((text, summary))
}

/// Deals all shoes of a simulation into CSV text.
pub fn generate_baccarat_csv_text(config: BaccaratSimulationConfig) -> (result: Result<
    String,
    BaccaratSimulationError,
>)
    requires
        config.shoes > 0 ==> config.start_session_id + (config.shoes - 1) <= u64::MAX,
    ensures
        match result {
            Ok(text) => simulation_lasts(config) && text@ == shoes_text(
                config,
                config.shoes as nat,
            ),
            Err(error) => !simulation_lasts(config) && says_out_of_cards(error),
        },
{
    let mut generator: BaccaratShoeGenerator = BaccaratShoeGenerator::new(config);
    let mut text: String = match csv_header() {
        Ok(line) => line,
        Err(error) => {
            return Err(error);
        },
    };
    let mut index: u64 = 0;
    while index < config.shoes
        invariant
            index <= config.shoes,
            config.start_session_id + (config.shoes - 1) <= u64::MAX || config.shoes == 0,
            generator@ == (GeneratorView { config, next_index: index as nat }),
            forall|n: nat| n < index ==> #[trigger] shoe_lasts(config, n),
            text@ == shoes_text(config, index as nat),
        decreases config.shoes - index,
    {
        let ghost n = index as nat;
        let shoe: GeneratedShoe = match generator.next_shoe() {
            Ok(Some(shoe)) => shoe,
            Ok(None) => {
                assert(false);
                return Err(out_of_cards());
            },
            Err(error) => {
                return Err(error);
            },
        };
        match append_rows(&mut text, &shoe.rows, Ghost(config), Ghost(n)) {
            Ok(_) => (),
            Err(error) => {
                return Err(error);
            },
        }
        index += 1;
    }
    Ok(text)
}

/// A round takes at most six cards, so a shoe of `n` times six cards lasts for `n` rounds.
proof fn lemma_rounds_within_cards(codes: Seq<u8>, n: nat)
    requires
        codes.len() >= 6 * n,
    ensures
        can_deal_rounds(codes, n),
        after_rounds(codes, n).len() >= codes.len() - 6 * n,
    decreases n,
{
    if n > 0 {
        let k = (n - 1) as nat;
        lemma_rounds_within_cards(codes, k);
        let before = after_rounds(codes, k);
        assert(before.len() >= 6);
        round::lemma_cards_used(next_points(before));
        assert(can_deal(before));
        assert forall|j: nat| j < n implies #[trigger] can_deal(after_rounds(codes, j)) by {
            if j == k {
                assert(can_deal(before));
            }
        }
    }
}

/// A simulation with accepted parameters never runs out of cards, whatever its seed.
pub proof fn lemma_accepted_simulations_last(config: BaccaratSimulationConfig)
    requires
        config_problem(config) is None,
    ensures
        simulation_lasts(config),
{
    assert forall|n: nat| n < config.shoes implies #[trigger] shoe_lasts(config, n) by {
        lemma_codes_are_cards(state_before(config, n), config.decks as nat);
        lemma_rounds_within_cards(shoe_codes(config, n), config.max_rounds_per_shoe as nat);
    }
}

/// A shuffled shoe holds exactly the cards of its decks.
pub proof fn lemma_shoe_is_a_full_shoe(config: BaccaratSimulationConfig, n: nat)
    ensures
        shoe_codes(config, n).to_multiset() == full_codes(config.decks as nat).to_multiset(),
{
    random::lemma_shuffle_is_a_reordering(
        state_before(config, n),
        full_codes(config.decks as nat),
    );
}

/// Text without commas lengthens the last part.
proof fn lemma_parts_append(s: Seq<char>, d: Seq<char>)
    requires
        forall|i: int| 0 <= i < d.len() ==> #[trigger] d[i] != ',',
    ensures
        provider::parts(s + d) == provider::parts(s).drop_last().push(
            provider::parts(s).last() + d,
        ),
        provider::parts(s).len() >= 1,
    decreases d.len(),
{
    if d.len() == 0 {
        assert(s + d =~= s);
        lemma_parts_not_empty(s);
        assert(provider::parts(s).last() + d =~= provider::parts(s).last());
        assert(provider::parts(s).drop_last().push(provider::parts(s).last()) =~= provider::parts(
            s,
        ));
    } else {
        let shorter = d.drop_last();
        lemma_parts_append(s, shorter);
        assert((s + d).drop_last() =~= s + shorter);
        assert((s + d).last() == d.last());
        assert(d[d.len() - 1] != ',');
        let before = provider::parts(s + shorter);
        assert(before.last().push(d.last()) =~= provider::parts(s).last() + d);
        assert(before.drop_last() =~= provider::parts(s).drop_last());
    }
}

proof fn lemma_parts_not_empty(s: Seq<char>)
    ensures
        provider::parts(s).len() >= 1,
    decreases s.len(),
{
    if s.len() > 0 {
        lemma_parts_not_empty(s.drop_last());
    }
}

/// The parts of joined codes are the codes.
proof fn lemma_joined_parts(codes: Seq<u8>)
    requires
        codes.len() >= 1,
    ensures
        provider::parts(joined_codes(codes)) == Seq::new(
            codes.len(),
            |i: int| text::decimal(codes[i] as nat),
        ),
        forall|i: int|
            0 <= i < joined_codes(codes).len() ==> (#[trigger] joined_codes(codes)[i] == ',' || '0'
                <= joined_codes(codes)[i] <= '9'),
    decreases codes.len(),
{
    let last = text::decimal(codes.last() as nat);
    text::lemma_decimal(codes.last() as nat);
    assert forall|i: int| 0 <= i < last.len() implies #[trigger] last[i] != ',' by {
        assert('0' <= last[i] <= '9');
    }
    let all = joined_codes(codes);
    let told = Seq::new(codes.len(), |i: int| text::decimal(codes[i] as nat));
    if codes.len() == 1 {
        let nothing = Seq::<char>::empty();
        lemma_parts_append(nothing, last);
        assert(nothing + last =~= last);
        assert(provider::parts(nothing) =~= seq![nothing]);
        assert(provider::parts(all) =~= told);
    } else {
        let shorter = codes.drop_last();
        lemma_joined_parts(shorter);
        let front = joined_codes(shorter).push(',');
        assert(front.drop_last() =~= joined_codes(shorter));
        lemma_parts_append(front, last);
        assert(all =~= front + last);
        let before = provider::parts(joined_codes(shorter));
        assert(provider::parts(front) =~= before.push(Seq::empty()));
        assert(provider::parts(front).drop_last() =~= before);
        assert(Seq::<char>::empty() + last =~= last);
        assert(provider::parts(all) =~= told);
        assert forall|i: int| 0 <= i < all.len() implies (#[trigger] all[i] == ',' || '0' <= all[i]
            <= '9') by {
            if i < joined_codes(shorter).len() {
                assert(all[i] == joined_codes(shorter)[i]);
            } else if i > joined_codes(shorter).len() {
                assert(all[i] == last[i - front.len()]);
            }
        }
    }
}

/// Reading the decimal texts of valid codes gives their cards.
proof fn lemma_side_of_codes(codes: Seq<u8>, n: nat)
    requires
        n <= codes.len(),
        forall|i: int|
            0 <= i < codes.len() ==> provider::code_card(#[trigger] codes[i] as int) is Some,
    ensures
        provider::side_of(Seq::new(n, |i: int| text::decimal(codes[i] as nat)))
            == provider::SideView::Cards(cards_of_codes(codes.take(n as int))),
    decreases n,
{
    let told = Seq::new(n, |i: int| text::decimal(codes[i] as nat));
    if n == 0 {
        assert(cards_of_codes(codes.take(0)) =~= Seq::<Card>::empty());
    } else {
        let k = (n - 1) as nat;
        lemma_side_of_codes(codes, k);
        assert(told.drop_last() =~= Seq::new(k, |i: int| text::decimal(codes[i] as nat)));
        let code = codes[k as int];
        text::lemma_decimal_round_trip(code as nat, 255);
        text::lemma_decimal(code as nat);
        assert(told.last() == text::decimal(code as nat));
        assert(provider::code_card(code as int) is Some);
        assert(codes.take(n as int) =~= codes.take(k as int).push(code));
        assert(cards_of_codes(codes.take(n as int)) =~= cards_of_codes(codes.take(k as int)).push(
            provider::code_card(code as int)->0,
        ));
    }
}

proof fn lemma_marker_found(s: Seq<char>, i: int, marker: int)
    requires
        0 <= i <= marker,
        provider::marker_at(s, marker),
        forall|k: int| i <= k < marker ==> #[trigger] s[k] != ';',
    ensures
        provider::marker_from(s, i) == marker,
    decreases marker - i,
{
    if i < marker {
        assert(s[i] != ';');
        lemma_marker_found(s, i + 1, marker);
    }
}

/// A payload is split at its marker into the texts of the banker's and the player's codes.
proof fn lemma_payload_split(codes: Seq<u8>)
    ensures
        ({
            let raw = next_payload(codes);
            let marker = 2 + joined_codes(next_banker(codes)).len() as int;
            &&& raw.len() > 2
            &&& raw[0] == 'b' && raw[1] == ':'
            &&& provider::marker_at(raw, marker)
            &&& provider::marker_from(raw, 2) == marker
            &&& raw.subrange(2, marker) == joined_codes(next_banker(codes))
            &&& raw.subrange(marker + 3, raw.len() as int) == joined_codes(next_player(codes))
        }),
{
    reveal_strlit("b:");
    reveal_strlit(";p:");
    let banker_text = joined_codes(next_banker(codes));
    let player_text = joined_codes(next_player(codes));
    let raw = next_payload(codes);
    lemma_joined_parts(next_banker(codes));
    let marker = 2 + banker_text.len() as int;
    assert forall|k: int| 2 <= k < marker implies #[trigger] raw[k] != ';' by {
        assert(raw[k] == banker_text[k - 2]);
    }
    assert(raw[marker] == ';' && raw[marker + 1] == 'p' && raw[marker + 2] == ':');
    lemma_marker_found(raw, 2, marker);
    assert(raw.subrange(2, marker) =~= banker_text);
    assert(raw.subrange(marker + 3, raw.len() as int) =~= player_text);
}

/// The text of valid codes reads back as one side's cards.
proof fn lemma_side_round_trip(codes: Seq<u8>)
    requires
        codes.len() > 0,
        forall|i: int|
            0 <= i < codes.len() ==> provider::code_card(#[trigger] codes[i] as int) is Some,
    ensures
        provider::side_of(provider::parts(joined_codes(codes))) == provider::SideView::Cards(
            cards_of_codes(codes),
        ),
{
    lemma_joined_parts(codes);
    lemma_side_of_codes(codes, codes.len());
    assert(codes.take(codes.len() as int) =~= codes);
}

/// Both sides of the next round of valid codes have valid codes, and their cards put in dealing
/// order are the cards as they are dealt.
proof fn lemma_sides_of_the_next_round(codes: Seq<u8>)
    requires
        can_deal(codes),
        forall|i: int|
            0 <= i < codes.len() ==> provider::code_card(#[trigger] codes[i] as int) is Some,
    ensures
        2 <= next_banker(codes).len() <= 3,
        2 <= next_player(codes).len() <= 3,
        forall|i: int|
            0 <= i < next_banker(codes).len() ==> provider::code_card(
                #[trigger] next_banker(codes)[i] as int,
            ) is Some,
        forall|i: int|
            0 <= i < next_player(codes).len() ==> provider::code_card(
                #[trigger] next_player(codes)[i] as int,
            ) is Some,
        provider::dealing_order(
            cards_of_codes(next_player(codes)),
            cards_of_codes(next_banker(codes)),
        ) == cards_of_codes(next_order(codes)),
{
    lemma_round_fits(codes);
    let order = next_order(codes);
    let banker = next_banker(codes);
    let player = next_player(codes);
    assert forall|i: int| 0 <= i < order.len() implies provider::code_card(
        #[trigger] order[i] as int,
    ) is Some by {
        assert(order[i] == codes[codes.len() - 1 - i]);
    }
    assert forall|i: int| 0 <= i < banker.len() implies provider::code_card(
        #[trigger] banker[i] as int,
    ) is Some by {
        assert(banker[0] == order[1] && banker[1] == order[3]);
        assert(banker.len() == 3 ==> banker[2] == order[order.len() - 1]);
    }
    assert forall|i: int| 0 <= i < player.len() implies provider::code_card(
        #[trigger] player[i] as int,
    ) is Some by {
        assert(player[0] == order[0] && player[1] == order[2]);
        assert(player.len() == 3 ==> player[2] == order[4]);
    }
    assert(provider::dealing_order(cards_of_codes(player), cards_of_codes(banker))
        =~= cards_of_codes(order));
}

/// Reading back the payload of a generated round gives its cards in dealing order.
pub proof fn lemma_payload_round_trip(codes: Seq<u8>)
    requires
        can_deal(codes),
        forall|i: int|
            0 <= i < codes.len() ==> provider::code_card(#[trigger] codes[i] as int) is Some,
    ensures
        provider::payload_of(next_payload(codes)) == provider::PayloadView::Cards(
            cards_of_codes(next_order(codes)),
        ),
{
    lemma_sides_of_the_next_round(codes);
    lemma_payload_split(codes);
    lemma_side_round_trip(next_banker(codes));
    lemma_side_round_trip(next_player(codes));
}

/// Every round of a simulation reads back as a complete round of the rules.
pub proof fn lemma_generated_rounds_are_valid(
    config: BaccaratSimulationConfig,
    n: nat,
    k: nat,
)
    requires
        shoe_lasts(config, n),
        k < config.max_rounds_per_shoe,
    ensures
        ({
            let codes = after_rounds(shoe_codes(config, n), k);
            let cards = cards_of_codes(next_order(codes));
            &&& provider::payload_of(next_payload(codes)) == provider::PayloadView::Cards(cards)
            &&& round::dealing_error(round::card_points(cards)) is None
        }),
{
    let all = shoe_codes(config, n);
    lemma_codes_are_cards(state_before(config, n), config.decks as nat);
    lemma_after_rounds_prefix(all, k);
    let codes = after_rounds(all, k);
    assert(can_deal(codes));
    assert forall|i: int| 0 <= i < codes.len() implies provider::code_card(
        #[trigger] codes[i] as int,
    ) is Some by {
        assert(codes[i] == all[i]);
    }
    lemma_dealt_round_resolves(codes);
    lemma_payload_round_trip(codes);
}

impl BaccaratSimulationError {
    /// The message of the error; that of a failed line is left to `csv`.
    pub fn to_string(&self) -> (result: String)
        ensures
            match self {
                BaccaratSimulationError::InvalidConfig(message) => result@ == message@,
                BaccaratSimulationError::GeneratedRound(message) => result@ == message@,
                BaccaratSimulationError::Csv(_) => "CSV 生成失败："@.is_prefix_of(result@),
            },
    {
        match self {
            BaccaratSimulationError::InvalidConfig(message) => message.clone(),
            BaccaratSimulationError::GeneratedRound(message) => message.clone(),
            BaccaratSimulationError::Csv(error) => {
                "CSV 生成失败：".to_owned().concat(csv_error_text(error).as_str())
            },
        }
    }
}

} // verus!
