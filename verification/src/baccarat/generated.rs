//! Laws of generated rounds: the lines of their text, and the shoes they are dealt from.

use vstd::prelude::*;

use crate::baccarat::provider;
use crate::baccarat::provider::PayloadView;
use crate::baccarat::records;
use crate::baccarat::simulation;
use crate::baccarat::simulation::{BaccaratSimulationConfig, GeneratedRound};
use crate::card;
use crate::card::{Card, Rank, Suit};
use crate::counting;
use crate::csv_text;
use crate::shoe;
use crate::text;

verus! {

/// Whether a text holds no line break.
pub open spec fn in_one_line(s: Seq<char>) -> bool {
    forall|i: int| 0 <= i < s.len() ==> #[trigger] s[i] != '\n'
}

/// Whether a text is one line: its only line break is its last character.
pub open spec fn is_line(s: Seq<char>) -> bool {
    s.len() > 0 && s.last() == '\n' && in_one_line(s.drop_last())
}

/// The payload of round `k`, counted from zero, of shoe `n`.
pub open spec fn payload(config: BaccaratSimulationConfig, n: nat, k: nat) -> Seq<char> {
    simulation::next_payload(simulation::after_rounds(simulation::shoe_codes(config, n), k))
}

/// Line `i` of the text of a simulation: the column names, then round after round of shoe after
/// shoe, the shoes and the rounds of a shoe numbered one after another.
pub open spec fn text_line(config: BaccaratSimulationConfig, i: nat) -> Seq<char> {
    if i == 0 {
        csv_text::csv_line(simulation::header_fields())
    } else {
        let rounds = config.max_rounds_per_shoe as nat;
        let n = (i - 1) as nat / rounds;
        let k = (i - 1) as nat % rounds;
        csv_text::csv_line(
            simulation::round_fields(
                config.start_session_id as nat + n,
                k + 1,
                payload(config, n, k),
            ),
        )
    }
}

/// The first lines of the text of a simulation.
pub open spec fn first_lines(config: BaccaratSimulationConfig, count: nat) -> Seq<char>
    decreases count,
{
    if count == 0 {
        Seq::empty()
    } else {
        first_lines(config, (count - 1) as nat) + text_line(config, (count - 1) as nat)
    }
}

proof fn lemma_doubled_in_one_line(field: Seq<char>)
    requires
        in_one_line(field),
    ensures
        in_one_line(csv_text::doubled_quotes(field)),
    decreases field.len(),
{
    if field.len() > 0 {
        assert(in_one_line(field.drop_last())) by {
            assert forall|i: int| 0 <= i < field.len() - 1 implies #[trigger] field.drop_last()[i]
                != '\n' by {
                assert(field[i] != '\n');
            }
        }
        lemma_doubled_in_one_line(field.drop_last());
        assert(field[field.len() - 1] != '\n');
    }
}

proof fn lemma_field_in_one_line(field: Seq<char>)
    requires
        in_one_line(field),
    ensures
        in_one_line(csv_text::field_text(field)),
{
    lemma_doubled_in_one_line(field);
}

proof fn lemma_three_fields_are_a_line(fields: Seq<Seq<char>>)
    requires
        fields.len() == 3,
        in_one_line(fields[0]),
        in_one_line(fields[1]),
        in_one_line(fields[2]),
    ensures
        csv_text::joined(fields) == csv_text::field_text(fields[0]).push(',')
            + csv_text::field_text(fields[1]).push(',') + csv_text::field_text(fields[2]),
        is_line(csv_text::csv_line(fields)),
{
    lemma_field_in_one_line(fields[0]);
    lemma_field_in_one_line(fields[1]);
    lemma_field_in_one_line(fields[2]);
    reveal_with_fuel(csv_text::joined, 4);
    let two = fields.drop_last();
    assert(two.drop_last()[0] == fields[0]);
    assert(two.last() == fields[1]);
    let all = csv_text::joined(fields);
    assert(all =~= csv_text::field_text(fields[0]).push(',') + csv_text::field_text(fields[1]).push(
        ',',
    ) + csv_text::field_text(fields[2]));
    assert(csv_text::csv_line(fields).drop_last() =~= all);
}

proof fn lemma_decimal_in_one_line(n: nat)
    ensures
        in_one_line(text::decimal(n)),
{
    text::lemma_decimal(n);
    let s = text::decimal(n);
    assert forall|i: int| 0 <= i < s.len() implies #[trigger] s[i] != '\n' by {
        assert('0' <= s[i] <= '9');
    }
}

proof fn lemma_codes_in_one_line(codes: Seq<u8>)
    ensures
        in_one_line(simulation::joined_codes(codes)),
    decreases codes.len(),
{
    if codes.len() > 0 {
        lemma_decimal_in_one_line(codes[0] as nat);
        lemma_decimal_in_one_line(codes.last() as nat);
        lemma_codes_in_one_line(codes.drop_last());
    }
}

proof fn lemma_payload_in_one_line(codes: Seq<u8>)
    ensures
        in_one_line(simulation::next_payload(codes)),
{
    reveal_strlit("b:");
    reveal_strlit(";p:");
    lemma_codes_in_one_line(simulation::next_banker(codes));
    lemma_codes_in_one_line(simulation::next_player(codes));
}

proof fn lemma_header_line()
    ensures
        csv_text::csv_line(simulation::header_fields()) == "session_id,round_no,raw_cards\n"@,
        is_line(csv_text::csv_line(simulation::header_fields())),
{
    reveal_strlit("session_id");
    reveal_strlit("round_no");
    reveal_strlit("raw_cards");
    reveal_strlit("session_id,round_no,raw_cards\n");
    let fields = simulation::header_fields();
    assert(fields[0] == "session_id"@ && fields[1] == "round_no"@ && fields[2] == "raw_cards"@);
    lemma_three_fields_are_a_line(fields);
    assert(!csv_text::needs_quotes(fields[0]));
    assert(!csv_text::needs_quotes(fields[1]));
    assert(!csv_text::needs_quotes(fields[2]));
    assert(csv_text::csv_line(fields) =~= "session_id,round_no,raw_cards\n"@);
}

proof fn lemma_text_line_is_a_line(config: BaccaratSimulationConfig, i: nat)
    ensures
        is_line(text_line(config, i)),
{
    if i == 0 {
        lemma_header_line();
    } else {
        let rounds = config.max_rounds_per_shoe as nat;
        let n = (i - 1) as nat / rounds;
        let k = (i - 1) as nat % rounds;
        lemma_decimal_in_one_line(config.start_session_id as nat + n);
        lemma_decimal_in_one_line(k + 1);
        lemma_payload_in_one_line(
            simulation::after_rounds(simulation::shoe_codes(config, n), k),
        );
        lemma_three_fields_are_a_line(
            simulation::round_fields(
                config.start_session_id as nat + n,
                k + 1,
                payload(config, n, k),
            ),
        );
    }
}

proof fn lemma_lines_of_a_shoe(config: BaccaratSimulationConfig, n: nat, k: nat)
    requires
        config.max_rounds_per_shoe > 0,
        k <= config.max_rounds_per_shoe,
    ensures
        first_lines(config, 1 + n * config.max_rounds_per_shoe as nat + k) == first_lines(
            config,
            1 + n * config.max_rounds_per_shoe as nat,
        ) + simulation::rounds_text(config, n, k),
    decreases k,
{
    let rounds = config.max_rounds_per_shoe as nat;
    let start = first_lines(config, 1 + n * rounds);
    if k == 0 {
        assert(start + simulation::rounds_text(config, n, 0) =~= start);
    } else {
        let j = (k - 1) as nat;
        lemma_lines_of_a_shoe(config, n, j);
        assert((n * rounds + j) / rounds == n && (n * rounds + j) % rounds == j) by {
            vstd::arithmetic::div_mod::lemma_fundamental_div_mod_converse(
                (n * rounds + j) as int,
                rounds as int,
                n as int,
                j as int,
            );
        }
        let at = 1 + n * rounds + j;
        assert((at - 1) as nat / rounds == n && (at - 1) as nat % rounds == j);
        assert(first_lines(config, 1 + n * rounds + k) == first_lines(config, at) + text_line(
            config,
            at,
        ));
        assert(first_lines(config, at) + text_line(config, at) =~= start + simulation::rounds_text(
            config,
            n,
            k,
        ));
    }
}

proof fn lemma_lines_of_shoes(config: BaccaratSimulationConfig, n: nat)
    requires
        config.max_rounds_per_shoe > 0,
    ensures
        simulation::shoes_text(config, n) == first_lines(
            config,
            1 + n * config.max_rounds_per_shoe as nat,
        ),
    decreases n,
{
    let rounds = config.max_rounds_per_shoe as nat;
    if n == 0 {
        reveal_with_fuel(first_lines, 2);
        assert(0 * rounds == 0);
        assert(Seq::<char>::empty() + text_line(config, 0) =~= text_line(config, 0));
    } else {
        let m = (n - 1) as nat;
        lemma_lines_of_shoes(config, m);
        lemma_lines_of_a_shoe(config, m, rounds);
        assert(1 + m * rounds + rounds == 1 + n * rounds) by (nonlinear_arith)
            requires
                m == n - 1,
        ;
    }
}

/// The number of lines of a text that ends with a line break.
pub open spec fn line_count(s: Seq<char>) -> nat
    decreases s.len(),
{
    if s.len() == 0 {
        0
    } else {
        line_count(s.drop_last()) + if s.last() == '\n' {
            1nat
        } else {
            0nat
        }
    }
}

proof fn lemma_line_count_adds(a: Seq<char>, b: Seq<char>)
    ensures
        line_count(a + b) == line_count(a) + line_count(b),
    decreases b.len(),
{
    if b.len() == 0 {
        assert(a + b =~= a);
    } else {
        assert((a + b).drop_last() =~= a + b.drop_last());
        lemma_line_count_adds(a, b.drop_last());
    }
}

proof fn lemma_no_break_no_line(s: Seq<char>)
    requires
        in_one_line(s),
    ensures
        line_count(s) == 0,
    decreases s.len(),
{
    if s.len() > 0 {
        assert(s[s.len() - 1] != '\n');
        assert forall|i: int| 0 <= i < s.len() - 1 implies #[trigger] s.drop_last()[i] != '\n' by {
            assert(s[i] != '\n');
        }
        lemma_no_break_no_line(s.drop_last());
    }
}

proof fn lemma_first_lines_count(config: BaccaratSimulationConfig, count: nat)
    ensures
        line_count(first_lines(config, count)) == count,
    decreases count,
{
    if count > 0 {
        let i = (count - 1) as nat;
        lemma_first_lines_count(config, i);
        lemma_text_line_is_a_line(config, i);
        lemma_no_break_no_line(text_line(config, i).drop_last());
        lemma_line_count_adds(first_lines(config, i), text_line(config, i));
    }
}

/// A simulation with accepted parameters succeeds, and its text is one line of column names and
/// one line for each round: as many lines as shoes times rounds, and one. The shoes are numbered
/// from the first one on, and the rounds of each from one on.
pub proof fn lemma_a_line_for_each_round(config: BaccaratSimulationConfig)
    requires
        simulation::config_problem(config) is None,
    ensures
        simulation::simulation_lasts(config),
        simulation::shoes_text(config, config.shoes as nat) == first_lines(
            config,
            1 + config.shoes as nat * config.max_rounds_per_shoe as nat,
        ),
        line_count(simulation::shoes_text(config, config.shoes as nat)) == 1 + config.shoes
            * config.max_rounds_per_shoe,
        forall|i: nat| is_line(#[trigger] text_line(config, i)),
        text_line(config, 0) == "session_id,round_no,raw_cards\n"@,
{
    simulation::lemma_accepted_simulations_last(config);
    lemma_lines_of_shoes(config, config.shoes as nat);
    lemma_first_lines_count(
        config,
        1 + config.shoes as nat * config.max_rounds_per_shoe as nat,
    );
    assert forall|i: nat| is_line(#[trigger] text_line(config, i)) by {
        lemma_text_line_is_a_line(config, i);
    }
    lemma_header_line();
}

/// The cards that a payload tells.
pub open spec fn payload_cards(raw: Seq<char>) -> Seq<Card> {
    match provider::payload_of(raw) {
        PayloadView::Cards(cards) => cards,
        _ => Seq::empty(),
    }
}

/// The cards of the first rows together.
pub open spec fn all_cards(rows: Seq<GeneratedRound>, n: int) -> Seq<Card>
    decreases n,
{
    if n <= 0 {
        Seq::empty()
    } else {
        all_cards(rows, n - 1) + payload_cards(rows[n - 1].raw_cards@)
    }
}

/// The cards that the payloads of the first `k` rounds of shoe `n` tell, together.
pub open spec fn session_cards(config: BaccaratSimulationConfig, n: nat, k: nat) -> Seq<Card>
    decreases k,
{
    if k == 0 {
        Seq::empty()
    } else {
        session_cards(config, n, (k - 1) as nat) + payload_cards(
            payload(config, n, (k - 1) as nat),
        )
    }
}

/// How often a code occurs.
spec fn code_count(codes: Seq<u8>, code: int) -> nat
    decreases codes.len(),
{
    if codes.len() == 0 {
        0
    } else {
        code_count(codes.drop_last(), code) + if codes.last() == code {
            1nat
        } else {
            0nat
        }
    }
}

proof fn lemma_code_count_by_multiset(codes: Seq<u8>, code: u8)
    ensures
        code_count(codes, code as int) == codes.to_multiset().count(code),
    decreases codes.len(),
{
    broadcast use vstd::seq_lib::group_to_multiset_ensures;

    if codes.len() > 0 {
        lemma_code_count_by_multiset(codes.drop_last(), code);
        assert(codes =~= codes.drop_last().push(codes.last()));
    }
}

proof fn lemma_code_count_add(a: Seq<u8>, b: Seq<u8>, code: int)
    ensures
        code_count(a + b, code) == code_count(a, code) + code_count(b, code),
    decreases b.len(),
{
    if b.len() == 0 {
        assert(a + b =~= a);
    } else {
        assert((a + b).drop_last() =~= a + b.drop_last());
        lemma_code_count_add(a, b.drop_last(), code);
    }
}

proof fn lemma_code_count_reversed(codes: Seq<u8>, code: int)
    ensures
        code_count(codes.reverse(), code) == code_count(codes, code),
    decreases codes.len(),
{
    if codes.len() > 0 {
        let last = seq![codes.last()];
        lemma_code_count_reversed(codes.drop_last(), code);
        assert(codes.reverse() =~= last + codes.drop_last().reverse());
        lemma_code_count_add(last, codes.drop_last().reverse(), code);
        assert(last.drop_last() =~= Seq::empty());
        reveal_with_fuel(code_count, 2);
    }
}

/// In one deck every card has one code.
proof fn lemma_deck_has_each_code_once(n: nat, code: int, place: int)
    requires
        n <= 52,
        0 <= place < 52,
        code == simulation::deck_code(place),
    ensures
        code_count(Seq::new(n, |i: int| simulation::deck_code(i)), code) == if place < n {
            1nat
        } else {
            0nat
        },
    decreases n,
{
    let codes = Seq::new(n, |i: int| simulation::deck_code(i));
    if n > 0 {
        let m = (n - 1) as nat;
        lemma_deck_has_each_code_once(m, code, place);
        assert(codes.drop_last() =~= Seq::new(m, |i: int| simulation::deck_code(i)));
        assert(0 <= place / 13 < 4 && 0 <= m as int / 13 < 4);
        assert(simulation::deck_code(m as int) == code ==> m == place);
    }
}

proof fn lemma_full_shoe_has_each_code(decks: nat, place: int)
    requires
        0 <= place < 52,
    ensures
        code_count(simulation::full_codes(decks), simulation::deck_code(place) as int) == decks,
    decreases decks,
{
    let code = simulation::deck_code(place) as int;
    if decks > 0 {
        let fewer = (decks - 1) as nat;
        lemma_full_shoe_has_each_code(fewer, place);
        let deck = Seq::new(52, |i: int| simulation::deck_code(i));
        lemma_deck_has_each_code_once(52, code, place);
        assert(simulation::full_codes(decks) =~= simulation::full_codes(fewer) + deck) by {
            assert forall|i: int| 0 <= i < decks * 52 implies #[trigger] simulation::full_codes(
                decks,
            )[i] == (simulation::full_codes(fewer) + deck)[i] by {
                if i >= fewer * 52 {
                    assert(i % 52 == i - fewer * 52);
                }
            }
        }
        lemma_code_count_add(simulation::full_codes(fewer), deck, code);
    }
}

/// Of valid codes, a card occurs as often as its code.
proof fn lemma_cards_occur_as_codes(codes: Seq<u8>, card: Card)
    requires
        forall|i: int|
            0 <= i < codes.len() ==> provider::code_card(#[trigger] codes[i] as int) is Some,
    ensures
        shoe::times(simulation::cards_of_codes(codes), card) == code_count(
            codes,
            provider::card_code(card),
        ),
    decreases codes.len(),
{
    let cards = simulation::cards_of_codes(codes);
    if codes.len() > 0 {
        let shorter = codes.drop_last();
        lemma_cards_occur_as_codes(shorter, card);
        assert(shoe::positions(cards).drop_last() =~= shoe::positions(
            simulation::cards_of_codes(shorter),
        ));
        let code = codes.last() as int;
        assert(provider::code_card(codes[codes.len() - 1] as int) is Some);
        let told = provider::code_card(code)->0;
        assert(shoe::positions(cards).last() == told.number());
        card::lemma_card_numbers_are_positions(0);
        provider::lemma_codes_name_cards(card);
        assert(Rank::ALL@[code % 20 - 1].number() == code % 20 - 1);
        assert(Suit::ALL@[code / 20].number() == code / 20);
        assert(provider::card_code(told) == code);
        assert(told.number() == card.number() ==> told == card) by {
            assert(card::card_at(told.number()) == told && card::card_at(card.number()) == card);
        }
    }
}

/// Every code is that of a place in a deck.
proof fn lemma_card_has_a_place(card: Card) -> (place: int)
    ensures
        0 <= place < 52,
        simulation::deck_code(place) == provider::card_code(card),
{
    let place = card.suit.number() * 13 + card.rank.number();
    assert(place / 13 == card.suit.number() && place % 13 == card.rank.number());
    place
}

/// The codes that the first rounds take, as they stand in the shoe.
proof fn lemma_rounds_take_the_end(config: BaccaratSimulationConfig, n: nat, k: nat)
    requires
        simulation::shoe_lasts(config, n),
        k <= config.max_rounds_per_shoe,
    ensures
        ({
            let codes = simulation::shoe_codes(config, n);
            let left = simulation::after_rounds(codes, k).len() as int;
            &&& left <= codes.len()
            &&& session_cards(config, n, k) == simulation::cards_of_codes(
                codes.skip(left).reverse(),
            )
        }),
    decreases k,
{
    let codes = simulation::shoe_codes(config, n);
    if k == 0 {
        assert(codes.skip(codes.len() as int).reverse() =~= Seq::empty());
        assert(session_cards(config, n, 0) =~= simulation::cards_of_codes(
            codes.skip(codes.len() as int).reverse(),
        ));
    } else {
        let m = (k - 1) as nat;
        lemma_rounds_take_the_end(config, n, m);
        assert forall|j: nat| j < k implies #[trigger] simulation::can_deal(
            simulation::after_rounds(codes, j),
        ) by {}
        simulation::lemma_after_rounds_prefix(codes, m);
        simulation::lemma_after_rounds_prefix(codes, k);
        let before = simulation::after_rounds(codes, m);
        let after = simulation::after_rounds(codes, k);
        assert(simulation::can_deal(before));
        simulation::lemma_round_fits(before);
        simulation::lemma_generated_rounds_are_valid(config, n, m);
        let order = simulation::next_order(before);
        assert(payload_cards(payload(config, n, m)) == simulation::cards_of_codes(order));
        let old_part = codes.skip(before.len() as int).reverse();
        let new_part = codes.skip(after.len() as int).reverse();
        assert(after.len() == before.len() - order.len());
        assert(new_part =~= old_part + order) by {
            assert forall|i: int| 0 <= i < new_part.len() implies #[trigger] new_part[i] == (
            old_part + order)[i] by {
                assert(new_part[i] == codes[codes.len() - 1 - i]);
            }
        }
        assert(session_cards(config, n, k) =~= simulation::cards_of_codes(new_part));
    }
}

/// All cards of a session can be taken out of a full shoe of its decks.
proof fn lemma_session_cards_are_held(config: BaccaratSimulationConfig, n: nat)
    requires
        simulation::shoe_lasts(config, n),
    ensures
        shoe::full_shoe(config.decks as nat).holds(
            session_cards(config, n, config.max_rounds_per_shoe as nat),
        ),
{
    let codes = simulation::shoe_codes(config, n);
    let decks = config.decks as nat;
    let rounds = config.max_rounds_per_shoe as nat;
    simulation::lemma_codes_are_cards(simulation::state_before(config, n), decks);
    lemma_rounds_take_the_end(config, n, rounds);
    let left = simulation::after_rounds(codes, rounds).len() as int;
    let end = codes.skip(left);
    let cards = session_cards(config, n, rounds);
    let full = shoe::full_shoe(decks);
    assert forall|i: int| 0 <= i < 52 implies counting::occurrences(shoe::positions(cards), i)
        <= #[trigger] full.counts[i] by {
        let card = card::card_at(i);
        card::lemma_card_numbers_are_positions(i);
        let code = provider::card_code(card);
        let place = lemma_card_has_a_place(card);
        assert forall|j: int| 0 <= j < end.reverse().len() implies provider::code_card(
            #[trigger] end.reverse()[j] as int,
        ) is Some by {
            assert(end.reverse()[j] == codes[codes.len() - 1 - j]);
        }
        lemma_cards_occur_as_codes(end.reverse(), card);
        lemma_code_count_reversed(end, code);
        lemma_code_count_add(codes.take(left), end, code);
        assert(codes.take(left) + end =~= codes);
        simulation::lemma_shoe_is_a_full_shoe(config, n);
        lemma_code_count_by_multiset(codes, code as u8);
        lemma_code_count_by_multiset(simulation::full_codes(decks), code as u8);
        provider::lemma_codes_name_cards(card);
        assert((code as u8) as int == code);
        lemma_full_shoe_has_each_code(decks, place);
    }
}

proof fn lemma_rows_tell_the_session(
    config: BaccaratSimulationConfig,
    n: nat,
    rows: Seq<GeneratedRound>,
    k: nat,
)
    requires
        simulation::are_rounds_of(rows, config, n),
        k <= rows.len(),
    ensures
        all_cards(rows, k as int) == session_cards(config, n, k),
    decreases k,
{
    if k > 0 {
        let m = (k - 1) as nat;
        lemma_rows_tell_the_session(config, n, rows, m);
        assert(rows[m as int].is_round(
            config.start_session_id as nat + n,
            simulation::shoe_codes(config, n),
            m,
        ));
    }
}

/// The rounds of one generated shoe carry its number and are numbered from one on; each reads
/// back as a complete round of the rules; and all their cards together can be taken out of a full
/// shoe of its decks, so that no card is dealt more often than the shoe holds it.
pub proof fn lemma_a_session_fits_its_shoe(
    config: BaccaratSimulationConfig,
    n: nat,
    rows: Seq<GeneratedRound>,
)
    requires
        simulation::shoe_lasts(config, n),
        simulation::are_rounds_of(rows, config, n),
    ensures
        forall|k: int|
            0 <= k < rows.len() ==> {
                &&& (#[trigger] rows[k]).session_id == config.start_session_id + n
                &&& rows[k].round_no == k + 1
                &&& provider::payload_of(rows[k].raw_cards@) == PayloadView::Cards(
                    payload_cards(rows[k].raw_cards@),
                )
                &&& records::is_round(payload_cards(rows[k].raw_cards@))
            },
        shoe::full_shoe(config.decks as nat).holds(all_cards(rows, rows.len() as int)),
{
    let codes = simulation::shoe_codes(config, n);
    let session = config.start_session_id as nat + n;
    assert forall|k: int| 0 <= k < rows.len() implies {
        &&& (#[trigger] rows[k]).session_id == config.start_session_id + n
        &&& rows[k].round_no == k + 1
        &&& provider::payload_of(rows[k].raw_cards@) == PayloadView::Cards(
            payload_cards(rows[k].raw_cards@),
        )
        &&& records::is_round(payload_cards(rows[k].raw_cards@))
    } by {
        assert(rows[k].is_round(session, codes, k as nat));
        simulation::lemma_generated_rounds_are_valid(config, n, k as nat);
    }
    lemma_rows_tell_the_session(config, n, rows, rows.len());
    lemma_session_cards_are_held(config, n);
}

/// The line of a round: the number of its shoe, its own number, and its payload in quotes.
pub open spec fn round_line(session_id: nat, round_no: nat, payload: Seq<char>) -> Seq<char> {
    text::decimal(session_id).push(',') + text::decimal(round_no).push(',') + (seq!['"'] + payload
        + seq!['"']).push('\n')
}

proof fn lemma_doubled_without_quotes(field: Seq<char>)
    requires
        forall|i: int| 0 <= i < field.len() ==> #[trigger] field[i] != '"',
    ensures
        csv_text::doubled_quotes(field) == field,
    decreases field.len(),
{
    if field.len() > 0 {
        assert forall|i: int| 0 <= i < field.len() - 1 implies #[trigger] field.drop_last()[i]
            != '"' by {
            assert(field[i] != '"');
        }
        lemma_doubled_without_quotes(field.drop_last());
        assert(field[field.len() - 1] != '"');
        assert(field.drop_last().push(field.last()) =~= field);
    } else {
        assert(field =~= Seq::empty());
    }
}

proof fn lemma_codes_without_quotes(codes: Seq<u8>)
    ensures
        forall|i: int|
            0 <= i < simulation::joined_codes(codes).len() ==> #[trigger] simulation::joined_codes(
                codes,
            )[i] != '"',
    decreases codes.len(),
{
    if codes.len() > 0 {
        text::lemma_decimal(codes[0] as nat);
        text::lemma_decimal(codes.last() as nat);
        lemma_codes_without_quotes(codes.drop_last());
        let all = simulation::joined_codes(codes);
        let front = simulation::joined_codes(codes.drop_last());
        assert forall|i: int| 0 <= i < all.len() implies #[trigger] all[i] != '"' by {
            if codes.len() > 1 {
                if i < front.len() {
                    assert(all[i] == front[i]);
                } else if i > front.len() {
                    assert(all[i] == text::decimal(codes.last() as nat)[i - front.len() - 1]);
                }
            }
        }
    }
}

proof fn lemma_codes_with_a_comma(codes: Seq<u8>) -> (at: int)
    requires
        codes.len() > 1,
    ensures
        0 <= at < simulation::joined_codes(codes).len(),
        simulation::joined_codes(codes)[at] == ',',
{
    simulation::joined_codes(codes.drop_last()).len() as int
}

/// A payload holds commas and no quotes, so it stands in quotes and unchanged.
proof fn lemma_payload_field(codes: Seq<u8>)
    ensures
        csv_text::field_text(simulation::next_payload(codes)) == seq!['"']
            + simulation::next_payload(codes) + seq!['"'],
{
    reveal_strlit("b:");
    reveal_strlit(";p:");
    let raw = simulation::next_payload(codes);
    let banker = simulation::joined_codes(simulation::next_banker(codes));
    let player = simulation::joined_codes(simulation::next_player(codes));
    lemma_codes_without_quotes(simulation::next_banker(codes));
    lemma_codes_without_quotes(simulation::next_player(codes));
    assert forall|i: int| 0 <= i < raw.len() implies #[trigger] raw[i] != '"' by {
        if 2 <= i < 2 + banker.len() {
            assert(raw[i] == banker[i - 2]);
        } else if i >= 5 + banker.len() {
            assert(raw[i] == player[i - 5 - banker.len()]);
        }
    }
    lemma_doubled_without_quotes(raw);
    let at = lemma_codes_with_a_comma(simulation::next_banker(codes));
    assert(raw[at + 2] == banker[at]);
    assert(csv_text::needs_quotes(raw));
}

proof fn lemma_line_of_a_round(config: BaccaratSimulationConfig, n: nat, k: nat)
    requires
        k < config.max_rounds_per_shoe,
    ensures
        text_line(config, 1 + n * config.max_rounds_per_shoe as nat + k) == round_line(
            config.start_session_id as nat + n,
            k + 1,
            payload(config, n, k),
        ),
{
    let rounds = config.max_rounds_per_shoe as nat;
    vstd::arithmetic::div_mod::lemma_fundamental_div_mod_converse(
        (n * rounds + k) as int,
        rounds as int,
        n as int,
        k as int,
    );
    let session = config.start_session_id as nat + n;
    let raw = payload(config, n, k);
    let fields = simulation::round_fields(session, k + 1, raw);
    lemma_decimal_in_one_line(session);
    lemma_decimal_in_one_line(k + 1);
    let codes = simulation::after_rounds(simulation::shoe_codes(config, n), k);
    lemma_payload_in_one_line(codes);
    lemma_three_fields_are_a_line(fields);
    lemma_payload_field(codes);
    lemma_decimal_needs_no_quotes(session);
    lemma_decimal_needs_no_quotes(k + 1);
    assert(csv_text::csv_line(fields) =~= round_line(session, k + 1, raw));
}

proof fn lemma_decimal_needs_no_quotes(n: nat)
    ensures
        csv_text::field_text(text::decimal(n)) == text::decimal(n),
{
    text::lemma_decimal(n);
    let s = text::decimal(n);
    assert forall|i: int| 0 <= i < s.len() implies !(#[trigger] s[i] == ',' || s[i] == '"' || s[i]
        == '\n' || s[i] == '\r') by {
        assert('0' <= s[i] <= '9');
    }
}

/// The text of a simulation with accepted parameters is one line of column names and, shoe after
/// shoe, one line for each round. The shoes are numbered from the first one on and the rounds of
/// each from one on; every line tells the cards of a complete round of the rules; and all cards
/// that the lines of one shoe tell can be taken out of a full shoe of its decks.
pub proof fn lemma_text_of_full_shoes(config: BaccaratSimulationConfig, text: Seq<char>)
    requires
        simulation::config_problem(config) is None,
        text == simulation::shoes_text(config, config.shoes as nat),
    ensures
        simulation::simulation_lasts(config),
        text == first_lines(
            config,
            1 + config.shoes as nat * config.max_rounds_per_shoe as nat,
        ),
        line_count(text) == 1 + config.shoes * config.max_rounds_per_shoe,
        forall|i: nat| is_line(#[trigger] text_line(config, i)),
        text_line(config, 0) == "session_id,round_no,raw_cards\n"@,
        forall|n: nat, k: nat|
            n < config.shoes && k < config.max_rounds_per_shoe ==> {
                let raw = #[trigger] payload(config, n, k);
                &&& text_line(config, 1 + n * config.max_rounds_per_shoe as nat + k) == round_line(
                    config.start_session_id as nat + n,
                    k + 1,
                    raw,
                )
                &&& provider::payload_of(raw) == PayloadView::Cards(payload_cards(raw))
                &&& records::is_round(payload_cards(raw))
            },
        forall|n: nat|
            n < config.shoes ==> shoe::full_shoe(config.decks as nat).holds(
                #[trigger] session_cards(config, n, config.max_rounds_per_shoe as nat),
            ),
{
    lemma_a_line_for_each_round(config);
    assert forall|n: nat, k: nat| n < config.shoes && k < config.max_rounds_per_shoe implies {
        let raw = #[trigger] payload(config, n, k);
        &&& text_line(config, 1 + n * config.max_rounds_per_shoe as nat + k) == round_line(
            config.start_session_id as nat + n,
            k + 1,
            raw,
        )
        &&& provider::payload_of(raw) == PayloadView::Cards(payload_cards(raw))
        &&& records::is_round(payload_cards(raw))
    } by {
        lemma_line_of_a_round(config, n, k);
        assert(simulation::shoe_lasts(config, n));
        simulation::lemma_generated_rounds_are_valid(config, n, k);
    }
    assert forall|n: nat| n < config.shoes implies shoe::full_shoe(config.decks as nat).holds(
        #[trigger] session_cards(config, n, config.max_rounds_per_shoe as nat),
    ) by {
        assert(simulation::shoe_lasts(config, n));
        lemma_session_cards_are_held(config, n);
    }
}

} // verus!
