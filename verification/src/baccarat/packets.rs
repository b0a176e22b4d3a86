//! The rounds of a generated shoe, each with the weights of the shoe that it is dealt from.

use vstd::prelude::*;

use crate::baccarat::composition::CompositionTable;
use crate::baccarat::deals;
use crate::baccarat::probability::{OutcomeWeights, ProbabilityError};
use crate::baccarat::provider::{self, PayloadView};
use crate::baccarat::records;
use crate::baccarat::round::{self, RoundOutcome, RoundResult};
use crate::baccarat::side_bet::SideBetWeights;
use crate::baccarat::simulation::GeneratedRound;
use crate::card::Card;
use crate::shoe::{self, Shoe, ShoeError, ShoeView, MAX_DECKS, MIN_DECKS};
use crate::text;

verus! {

/// A round as it was dealt.
#[derive(Debug, Clone, PartialEq, Eq)]
pub struct StreamSourceRound {
    pub table_id: u64,
    pub session_id: u64,
    pub round_no: u32,
    /// What stands for the starting time of the round.
    pub started_at: String,
    /// The place of the round among all rows.
    pub source_order: usize,
    pub has_started_at: bool,
    /// The positions of the cards in the order of all cards.
    pub cards: Vec<u8>,
    pub outcome: RoundOutcome,
    pub banker_total: u8,
}

/// The weights of the shoe that a round is dealt from.
#[derive(Debug, Clone, Copy, PartialEq, Eq)]
pub struct PreparedReplayWeight {
    pub table_id: u64,
    pub session_id: u64,
    pub round_no: u32,
    pub weights: OutcomeWeights,
    pub side_weights: SideBetWeights,
}

/// A round with its weights.
#[derive(Debug, Clone, PartialEq, Eq)]
pub struct StreamPacket {
    pub source: StreamSourceRound,
    pub prepared: PreparedReplayWeight,
    /// Whether no round of the shoe comes after this one.
    pub last_in_shoe: bool,
}

/// The cards of a row, where its payload tells any.
pub open spec fn told_cards(row: GeneratedRound) -> Option<Seq<Card>> {
    match provider::payload_of(row.raw_cards@) {
        PayloadView::Cards(cards) => Some(cards),
        _ => None,
    }
}

/// The shoe before row `k`: a full shoe without the cards of the rows before.
pub open spec fn shoe_before(rows: Seq<GeneratedRound>, decks: nat, k: nat) -> ShoeView
    decreases k,
{
    if k == 0 {
        shoe::full_shoe(decks)
    } else {
        shoe_before(rows, decks, (k - 1) as nat).without_all(told_cards(rows[k - 1])->Some_0)
    }
}

/// Whether a row is a round that can be dealt from a shoe.
pub open spec fn dealt_from(row: GeneratedRound, shoe: ShoeView) -> bool {
    match told_cards(row) {
        Some(cards) => records::is_round(cards) && shoe.total() >= 6 && shoe.holds(cards),
        None => false,
    }
}

/// Whether a message says why a row cannot be dealt from a shoe.
pub open spec fn says_why(message: Seq<char>, row: GeneratedRound, shoe: ShoeView) -> bool {
    match provider::payload_of(row.raw_cards@) {
        PayloadView::Nothing => message == "随机牌局不应为空"@,
        PayloadView::Cards(cards) => match round::dealing_error(round::card_points(cards)) {
            Some(error) => message == error.message(),
            None => if shoe.total() < 6 {
                message == (ProbabilityError::NotEnoughCards {
                    remaining: shoe.total() as u16,
                }).message()
            } else {
                exists|error: ShoeError| #[trigger]
                    shoe.refuses_removal(cards, error) && message == error.message()
            },
        },
        payload => message == records::payload_message(payload),
    }
}

/// The positions of cards in the order of all cards.
pub open spec fn card_positions(cards: Seq<Card>) -> Seq<u8> {
    Seq::new(cards.len(), |i: int| cards[i].number() as u8)
}

impl StreamPacket {
    /// Whether the packet holds a row at a place and the weights of a shoe.
    pub open spec fn holds(self, row: GeneratedRound, order: int, shoe: ShoeView) -> bool {
        let cards = told_cards(row)->Some_0;
        &&& self.source.table_id == 1
        &&& self.source.session_id == row.session_id
        &&& self.source.round_no == row.round_no
        &&& self.source.started_at@ == "CSV 第 "@ + text::decimal((order + 2) as nat) + " 行"@
        &&& self.source.source_order == order
        &&& !self.source.has_started_at
        &&& self.source.cards@ == card_positions(cards)
        &&& self.source.outcome == records::winner_of(cards)
        &&& self.source.banker_total == round::banker_hand_of(cards).points()
        &&& self.prepared.table_id == 1
        &&& self.prepared.session_id == row.session_id
        &&& self.prepared.round_no == row.round_no
        &&& self.prepared.weights@ == deals::main_weights(shoe)
        &&& deals::are_side_weights(self.prepared.side_weights, shoe)
    }
}

fn positions_of(cards: &Vec<Card>) -> (positions: Vec<u8>)
    ensures
        positions@ == card_positions(cards@),
{
    let mut positions: Vec<u8> = Vec::with_capacity(cards.len());
    let mut i: usize = 0;
    while i < cards.len()
        invariant
            i <= cards@.len(),
            positions@.len() == i,
            forall|j: int| 0 <= j < i ==> #[trigger] positions@[j] == cards@[j].number() as u8,
        decreases cards@.len() - i,
    {
        positions.push(cards[i].index() as u8);
        i += 1;
    }
    assert(positions@ =~= card_positions(cards@));
    positions
}

/// Puts one row together with the weights of the shoe and takes its cards out of the shoe.
fn prepare_row(
    table: &CompositionTable,
    shoe: &mut Shoe,
    row: &GeneratedRound,
    source_order: usize,
    last_in_shoe: bool,
) -> (result: Result<StreamPacket, String>)
    requires
        source_order + 2 <= u64::MAX,
    ensures
        match result {
            Ok(packet) => {
                &&& dealt_from(*row, old(shoe)@)
                &&& packet.holds(*row, source_order as int, old(shoe)@)
                &&& packet.last_in_shoe == last_in_shoe
                &&& final(shoe)@ == old(shoe)@.without_all(told_cards(*row)->Some_0)
            },
            Err(message) => !dealt_from(*row, old(shoe)@) && says_why(message@, *row, old(shoe)@),
        },
{
    let cards: Vec<Card> = match provider::parse_raw_cards(row.raw_cards.as_str()) {
        Ok(Some(cards)) => cards,
        Ok(None) => {
            return Err("随机牌局不应为空".to_owned());
        },
        Err(error) => {
            return Err(error.to_string());
        },
    };
    let result: RoundResult = match round::resolve_round(cards.as_slice()) {
        Ok(result) => result,
        Err(error) => {
            return Err(error.to_string());
        },
    };
    let (weights, side_weights) = match table.main_and_side_outcomes(shoe) {
        Ok(found) => found,
        Err(error) => {
            return Err(error.to_string());
        },
    };
    let mut started_at: String = "CSV 第 ".to_owned();
    text::push_decimal(&mut started_at, source_order as u64 + 2);
    started_at.append(" 行");
    let packet: StreamPacket = StreamPacket {
        source: StreamSourceRound {
            table_id: 1,
            session_id: row.session_id,
            round_no: row.round_no,
            started_at,
            source_order,
            has_started_at: false,
            cards: positions_of(&cards),
            outcome: result.outcome(),
            banker_total: result.banker_hand().total(),
        },
        prepared: PreparedReplayWeight {
            table_id: 1,
            session_id: row.session_id,
            round_no: row.round_no,
            weights,
            side_weights,
        },
        last_in_shoe,
    };
    match shoe.remove_many(cards.as_slice()) {
        Ok(_) => Ok(packet),
        Err(error) => {
            proof {
                shoe::lemma_refusal_means_missing(old(shoe)@, cards@, error);
            }
            Err(error.to_string())
        },
    }
}

/// Puts each row of a generated shoe together with the weights of the shoe before it: the rows
/// become packets, or the first row that cannot be dealt is told.
pub fn prepare_generated_shoe(rows: &[GeneratedRound], decks: u8, source_base: usize) -> (result:
    Result<Vec<StreamPacket>, String>)
    requires
        source_base + rows@.len() + 1 <= usize::MAX,
    ensures
        match result {
            Ok(packets) => {
                &&& MIN_DECKS <= decks <= MAX_DECKS
                &&& packets@.len() == rows@.len()
                &&& forall|k: int|
                    0 <= k < rows@.len() ==> {
                        let shoe = shoe_before(rows@, decks as nat, k as nat);
                        &&& dealt_from(rows@[k], shoe)
                        &&& (#[trigger] packets@[k]).holds(rows@[k], source_base + k, shoe)
                        &&& packets@[k].last_in_shoe == (k == rows@.len() - 1)
                    }
            },
            Err(message) => if MIN_DECKS <= decks <= MAX_DECKS {
                exists|k: int|
                    #![trigger rows@[k]]
                    {
                        &&& 0 <= k < rows@.len()
                        &&& forall|j: int|
                            0 <= j < k ==> dealt_from(
                                #[trigger] rows@[j],
                                shoe_before(rows@, decks as nat, j as nat),
                            )
                        &&& !dealt_from(rows@[k], shoe_before(rows@, decks as nat, k as nat))
                        &&& says_why(
                            message@,
                            rows@[k],
                            shoe_before(rows@, decks as nat, k as nat),
                        )
                    }
            } else {
                message@ == (ShoeError::InvalidDeckCount { decks }).message()
            },
        },
{
    let mut shoe: Shoe = match Shoe::new(decks) {
        Ok(shoe) => shoe,
        Err(error) => {
            return Err(error.to_string());
        },
    };
    let table: CompositionTable = CompositionTable::new();
    let mut packets: Vec<StreamPacket> = Vec::with_capacity(rows.len());
    let mut i: usize = 0;
    while i < rows.len()
        invariant
            i <= rows@.len(),
            source_base + rows@.len() + 1 <= usize::MAX,
            MIN_DECKS <= decks <= MAX_DECKS,
            shoe@ == shoe_before(rows@, decks as nat, i as nat),
            packets@.len() == i,
            forall|k: int|
                0 <= k < i ==> {
                    let before = shoe_before(rows@, decks as nat, k as nat);
                    &&& dealt_from(rows@[k], before)
                    &&& (#[trigger] packets@[k]).holds(rows@[k], source_base + k, before)
                    &&& packets@[k].last_in_shoe == (k == rows@.len() - 1)
                },
        decreases rows@.len() - i,
    {
        let last: bool = i + 1 == rows.len();
        match prepare_row(&table, &mut shoe, &rows[i], source_base + i, last) {
            Ok(packet) => {
                packets.push(packet);
            },
            Err(message) => {
                assert forall|j: int| 0 <= j < i implies dealt_from(
                    #[trigger] rows@[j],
                    shoe_before(rows@, decks as nat, j as nat),
                ) by {
                    assert(packets@[j].holds(
                        rows@[j],
                        source_base + j,
                        shoe_before(rows@, decks as nat, j as nat),
                    ));
                }
                assert(!dealt_from(rows@[i as int], shoe_before(rows@, decks as nat, i as nat)));
                return Err(message);
            },
        }
        i += 1;
    }
    Ok(packets)
}

} // verus!
