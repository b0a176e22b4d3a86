//! A multi-deck shoe kept as one counter for each of the 52 concrete cards.

use vstd::prelude::*;

use crate::card;
use crate::card::{Card, Rank};
use crate::counting;
use crate::text;

verus! {

/// The number of decks of a default shoe.
pub const DEFAULT_DECKS: u8 = 8;

/// The smallest supported number of decks.
pub const MIN_DECKS: u8 = 1;

/// The largest supported number of decks.
pub const MAX_DECKS: u8 = 8;

/// The cards that remain in a multi-deck shoe.
#[derive(Debug, PartialEq, Eq)]
pub struct Shoe {
    decks: u8,
    counts: [u8; 52],
    total: u16,
}

/// What a shoe holds: how many decks it was made of, and the copies left of each card, by
/// the card's position.
pub struct ShoeView {
    pub decks: nat,
    pub counts: Seq<nat>,
}

impl ShoeView {
    /// A supported number of decks, and of no card more copies than decks.
    pub open spec fn wf(self) -> bool {
        &&& MIN_DECKS <= self.decks <= MAX_DECKS
        &&& self.counts.len() == 52
        &&& forall|i: int| 0 <= i < 52 ==> #[trigger] self.counts[i] <= self.decks
    }

    /// The number of cards left.
    pub open spec fn total(self) -> nat {
        counting::total(self.counts)
    }

    /// The copies left of a card.
    pub open spec fn copies(self, card: Card) -> nat {
        self.counts[card.number()]
    }

    /// The shoe without one copy of a card.
    pub open spec fn without(self, card: Card) -> ShoeView {
        ShoeView { counts: counting::drawn(self.counts, card.number()), ..self }
    }

    /// The shoe with one more copy of a card.
    pub open spec fn with(self, card: Card) -> ShoeView {
        ShoeView {
            counts: self.counts.update(card.number(), self.counts[card.number()] + 1),
            ..self
        }
    }

    /// The shoe without the cards of a list.
    pub open spec fn without_all(self, cards: Seq<Card>) -> ShoeView {
        ShoeView { counts: counting::remaining(self.counts, positions(cards)), ..self }
    }

    /// Whether an error names the first card that the shoe holds too few of for a list.
    pub open spec fn refuses_removal(self, cards: Seq<Card>, error: ShoeError) -> bool {
        match error {
            ShoeError::CardUnavailable { card, requested, remaining } => {
                &&& requested == times(cards, card)
                &&& remaining == self.copies(card)
                &&& requested > remaining
                &&& forall|i: int|
                    0 <= i < card.number() ==> counting::occurrences(positions(cards), i)
                        <= #[trigger] self.counts[i]
            },
            _ => false,
        }
    }

    /// Whether the shoe holds every card of a list, repetitions counted.
    pub open spec fn holds(self, cards: Seq<Card>) -> bool {
        forall|i: int|
            0 <= i < 52 ==> counting::occurrences(positions(cards), i) <= #[trigger] self.counts[i]
    }
}

/// A full shoe.
pub open spec fn full_shoe(decks: nat) -> ShoeView {
    ShoeView { decks, counts: Seq::new(52, |i: int| decks) }
}

/// A shoe that holds exactly the cards of a list.
pub open spec fn exact_shoe(decks: nat, cards: Seq<Card>) -> ShoeView {
    ShoeView { decks, counts: counting::composition(52, positions(cards)) }
}

/// Whether an error tells why a list cannot be the cards of a shoe: an unsupported number of
/// decks, or the first card that exceeds it.
pub open spec fn refuses_remaining(decks: u8, cards: Seq<Card>, error: ShoeError) -> bool {
    match error {
        ShoeError::InvalidDeckCount { decks: given } => given == decks && !(MIN_DECKS <= decks
            <= MAX_DECKS),
        ShoeError::RemainingCardCountExceedsCapacity { card, requested, capacity } => {
            &&& MIN_DECKS <= decks <= MAX_DECKS
            &&& capacity == decks
            &&& requested == decks + 1
            &&& exists|j: int|
                {
                    &&& 0 <= j < cards.len()
                    &&& card == #[trigger] cards[j]
                    &&& times(cards.take(j), card) == decks
                    &&& forall|i: int|
                        0 <= i < 52 ==> #[trigger] counting::occurrences(
                            positions(cards.take(j)),
                            i,
                        ) <= decks
                }
        },
        _ => false,
    }
}

/// The positions of the cards of a list.
pub open spec fn positions(cards: Seq<Card>) -> Seq<int> {
    cards.map_values(|card: Card| card.number())
}

/// How often a card occurs in a list.
pub open spec fn times(cards: Seq<Card>, card: Card) -> nat {
    counting::occurrences(positions(cards), card.number())
}

/// The class of a card position by baccarat points.
pub open spec fn point_class() -> spec_fn(int) -> int {
    |i: int| Rank::points_at(i / 4)
}

/// The class of a card position by rank.
pub open spec fn rank_class() -> spec_fn(int) -> int {
    |i: int| i / 4
}

proof fn lemma_positions_push(cards: Seq<Card>, j: int)
    requires
        0 <= j < cards.len(),
    ensures
        positions(cards.take(j + 1)) == positions(cards.take(j)).push(cards[j].number()),
        positions(cards.take(j + 1)).drop_last() == positions(cards.take(j)),
        positions(cards.take(j + 1)).last() == cards[j].number(),
        positions(cards).take(j + 1) == positions(cards.take(j + 1)),
        forall|i: int|
            counting::occurrences(positions(cards.take(j + 1)), i) == #[trigger]
            counting::occurrences(positions(cards.take(j)), i) + if cards[j].number() == i {
                1nat
            } else {
                0nat
            },
{
    assert(cards.take(j + 1) =~= cards.take(j).push(cards[j]));
    assert(positions(cards.take(j + 1)) =~= positions(cards.take(j)).push(cards[j].number()));
    assert(positions(cards.take(j + 1)).drop_last() =~= positions(cards.take(j)));
    assert(positions(cards).take(j + 1) =~= positions(cards.take(j + 1)));
}

proof fn lemma_occurrences_at_most(s: Seq<int>, i: int)
    ensures
        counting::occurrences(s, i) <= s.len(),
    decreases s.len(),
{
    if s.len() > 0 {
        lemma_occurrences_at_most(s.drop_last(), i);
    }
}

proof fn lemma_occurrences_grow(s: Seq<int>, j: int, i: int)
    requires
        0 <= j <= s.len(),
    ensures
        counting::occurrences(s.take(j), i) <= counting::occurrences(s, i),
    decreases s.len(),
{
    if j < s.len() {
        assert(s.take(j) =~= s.drop_last().take(j));
        lemma_occurrences_grow(s.drop_last(), j, i);
    } else {
        assert(s.take(j) =~= s);
    }
}

proof fn lemma_total_at_most(counts: Seq<nat>, each: nat, n: nat)
    requires
        n <= counts.len(),
        forall|i: int| 0 <= i < n ==> #[trigger] counts[i] <= each,
    ensures
        counting::sum_to(n, |i: int| counts[i]) <= each * n,
    decreases n,
{
    if n > 0 {
        lemma_total_at_most(counts, each, (n - 1) as nat);
        assert(each * n == each * (n - 1) + each) by (nonlinear_arith)
            requires
                n > 0,
        ;
    }
}

/// A shoe never holds more than the cards of its decks.
pub proof fn lemma_total_within_decks(shoe: ShoeView)
    requires
        shoe.wf(),
    ensures
        shoe.total() <= 52 * shoe.decks,
        shoe.total() <= 416,
{
    lemma_total_at_most(shoe.counts, shoe.decks, 52);
}

/// A full shoe of `decks` decks holds `52 * decks` cards.
pub proof fn lemma_full_shoe_total(decks: nat)
    ensures
        full_shoe(decks).total() == 52 * decks,
{
    let counts = full_shoe(decks).counts;
    let f = |i: int| counts[i];
    let one = |i: int| 1nat;
    assert forall|i: int| 0 <= i < 52 implies #[trigger] f(i) == decks * one(i) by {
        assert(one(i) == 1);
        assert(f(i) == decks);
        assert(decks * 1 == decks);
    }
    counting::lemma_sum_scales(52, decks, one, f);
    assert(counting::sum_to(52, one) == 52) by {
        lemma_ones(52);
    }
}

proof fn lemma_ones(n: nat)
    ensures
        counting::sum_to(n, |i: int| 1nat) == n,
    decreases n,
{
    if n > 0 {
        lemma_ones((n - 1) as nat);
    }
}

impl View for Shoe {
    type V = ShoeView;

    closed spec fn view(&self) -> ShoeView {
        ShoeView { decks: self.decks as nat, counts: self.counts@.map_values(|n: u8| n as nat) }
    }
}

impl Clone for Shoe {
    fn clone(&self) -> (shoe: Shoe)
        ensures
            shoe == *self,
    {
        proof {
            use_type_invariant(self);
        }
        Shoe { decks: self.decks, counts: self.counts, total: self.total }
    }
}

impl Shoe {
    #[verifier::type_invariant]
    spec fn inv(self) -> bool {
        &&& self@.wf()
        &&& self.total == self@.total()
    }

    /// A full shoe of `decks` standard decks.
    pub fn new(decks: u8) -> (result: Result<Shoe, ShoeError>)
        ensures
            match result {
                Ok(shoe) => MIN_DECKS <= decks <= MAX_DECKS && shoe@ == full_shoe(decks as nat),
                Err(error) => !(MIN_DECKS <= decks <= MAX_DECKS) && error
                    == ShoeError::InvalidDeckCount { decks },
            },
    {
        if decks < MIN_DECKS || decks > MAX_DECKS {
            return Err(ShoeError::InvalidDeckCount { decks });
        }
        let counts: [u8; 52] = [decks;52];
        proof {
            lemma_full_shoe_total(decks as nat);
            assert(counts@.map_values(|n: u8| n as nat) =~= full_shoe(decks as nat).counts);
        }
        Ok(Shoe { decks, counts, total: decks as u16 * 52 })
    }

    /// The number of decks that the shoe was made of.
    pub fn decks(&self) -> (decks: u8)
        ensures
            decks == self@.decks,
            self@.wf(),
    {
        proof {
            use_type_invariant(self);
        }
        self.decks
    }

    /// The number of cards left.
    pub fn total_remaining(&self) -> (total: u16)
        ensures
            total == self@.total(),
            self@.wf(),
    {
        proof {
            use_type_invariant(self);
        }
        self.total
    }

    /// The copies left of a card.
    pub fn remaining(&self, card: Card) -> (copies: u8)
        ensures
            copies == self@.copies(card),
            self@.wf(),
    {
        proof {
            use_type_invariant(self);
        }
        self.counts[card.index()]
    }

    /// The copies left of each card, by the card's position.
    pub fn card_counts(&self) -> (counts: [u8; 52])
        ensures
            counts@.map_values(|n: u8| n as nat) == self@.counts,
            self@.wf(),
    {
        proof {
            use_type_invariant(self);
        }
        self.counts
    }

    /// Takes one copy of a known card out of the shoe.
    pub fn remove(&mut self, card: Card) -> (result: Result<(), ShoeError>)
        ensures
            match result {
                Ok(_) => old(self)@.copies(card) > 0 && final(self)@ == old(self)@.without(card),
                Err(error) => old(self)@.copies(card) == 0 && *final(self) == *old(self) && error
                    == (ShoeError::CardUnavailable { card, requested: 1, remaining: 0 }),
            },
            old(self)@.wf(),
            final(self)@.wf(),
    {
        proof {
            use_type_invariant(&*self);
        }
        let index: usize = card.index();
        let copies: u8 = self.counts[index];
        if copies == 0 {
            return Err(ShoeError::CardUnavailable { card, requested: 1, remaining: 0 });
        }
        let mut counts: [u8; 52] = self.counts;
        counts[index] = copies - 1;
        proof {
            counting::lemma_total_after_draw(self@.counts, index as int);
            assert(counts@.map_values(|n: u8| n as nat) =~= counting::drawn(
                self@.counts,
                index as int,
            ));
        }
        *self = Shoe { decks: self.decks, counts, total: self.total - 1 };
        Ok(())
    }

    /// Puts back one copy of a card that had been taken out.
    pub fn restore(&mut self, card: Card) -> (result: Result<(), ShoeError>)
        ensures
            match result {
                Ok(_) => old(self)@.copies(card) < old(self)@.decks && final(self)@ == old(
                    self,
                )@.with(card),
                Err(ShoeError::CardAtCapacity { card: at, capacity }) => {
                    &&& old(self)@.copies(card) == old(self)@.decks
                    &&& *final(self) == *old(self)
                    &&& at == card
                    &&& capacity == old(self)@.decks
                },
                Err(_) => false,
            },
            old(self)@.wf(),
            final(self)@.wf(),
    {
        proof {
            use_type_invariant(&*self);
        }
        let index: usize = card.index();
        let copies: u8 = self.counts[index];
        if copies == self.decks {
            return Err(ShoeError::CardAtCapacity { card, capacity: self.decks });
        }
        let mut counts: [u8; 52] = self.counts;
        assert(copies == self@.counts[index as int]);
        counts[index] = copies + 1;
        proof {
            let before = self@;
            let after = before.with(card);
            assert(counts@.map_values(|n: u8| n as nat) =~= after.counts);
            assert(counting::drawn(after.counts, index as int) =~= before.counts);
            counting::lemma_total_after_draw(after.counts, index as int);
            lemma_total_within_decks(before);
        }
        *self = Shoe { decks: self.decks, counts, total: self.total + 1 };
        Ok(())
    }

    /// The copies left of each baccarat point value.
    pub fn baccarat_point_counts(&self) -> (counts: [u16; 10])
        ensures
            counts@.map_values(|n: u16| n as nat) == counting::gathered(
                self@.counts,
                point_class(),
                10,
            ),
            self@.wf(),
    {
        proof {
            use_type_invariant(self);
        }
        let mut counts: [u16; 10] = [0;10];
        let ghost all = self@.counts;
        let mut i: usize = 0;
        while i < 52
            invariant
                i <= 52,
                all == self@.counts,
                self@.wf(),
                forall|p: int|
                    0 <= p < 10 ==> #[trigger] counts@[p] as nat == counting::sum_to(
                        i as nat,
                        |k: int|
                            if point_class()(k) == p {
                                all[k]
                            } else {
                                0
                            },
                    ),
                forall|p: int| 0 <= p < 10 ==> #[trigger] counts@[p] <= 8 * i,
            decreases 52 - i,
        {
            let card: Card = Card::from_index(i);
            proof {
                card::lemma_card_numbers_are_positions(i as int);
            }
            let point: usize = card.baccarat_value() as usize;
            let copies: u8 = self.remaining(card);
            assert(point == point_class()(i as int));
            counts[point] = counts[point] + copies as u16;
            i += 1;
        }
        assert(counts@.map_values(|n: u16| n as nat) =~= counting::gathered(
            all,
            point_class(),
            10,
        ));
        counts
    }

    /// The copies left of each rank.
    pub fn rank_counts(&self) -> (counts: [u16; 13])
        ensures
            counts@.map_values(|n: u16| n as nat) == counting::gathered(
                self@.counts,
                rank_class(),
                13,
            ),
            self@.wf(),
    {
        proof {
            use_type_invariant(self);
        }
        let mut counts: [u16; 13] = [0;13];
        let ghost all = self@.counts;
        let mut i: usize = 0;
        while i < 52
            invariant
                i <= 52,
                all == self@.counts,
                self@.wf(),
                forall|p: int|
                    0 <= p < 13 ==> #[trigger] counts@[p] as nat == counting::sum_to(
                        i as nat,
                        |k: int|
                            if rank_class()(k) == p {
                                all[k]
                            } else {
                                0
                            },
                    ),
                forall|p: int| 0 <= p < 13 ==> #[trigger] counts@[p] <= 8 * i,
            decreases 52 - i,
        {
            let card: Card = Card::from_index(i);
            proof {
                card::lemma_card_numbers_are_positions(i as int);
            }
            let rank: usize = card.rank().index();
            let copies: u8 = self.remaining(card);
            assert(rank == rank_class()(i as int));
            counts[rank] = counts[rank] + copies as u16;
            i += 1;
        }
        assert(counts@.map_values(|n: u16| n as nat) =~= counting::gathered(
            all,
            rank_class(),
            13,
        ));
        counts
    }

    /// A shoe that holds exactly the listed cards.
    pub fn from_remaining(decks: u8, cards: &[Card]) -> (result: Result<Shoe, ShoeError>)
        ensures
            match result {
                Ok(shoe) => MIN_DECKS <= decks <= MAX_DECKS && shoe@ == exact_shoe(
                    decks as nat,
                    cards@,
                ) && shoe@.wf(),
                Err(error) => refuses_remaining(decks, cards@, error),
            },
    {
        if decks < MIN_DECKS || decks > MAX_DECKS {
            return Err(ShoeError::InvalidDeckCount { decks });
        }
        let mut counts: [u8; 52] = [0;52];
        let mut total: u16 = 0;
        let mut j: usize = 0;
        let ghost all = cards@;
        proof {
            counting::lemma_sum_zero(52, |i: int| counts@.map_values(|n: u8| n as nat)[i]);
        }
        while j < cards.len()
            invariant
                j <= cards@.len(),
                all == cards@,
                MIN_DECKS <= decks <= MAX_DECKS,
                forall|i: int|
                    0 <= i < 52 ==> #[trigger] counts@[i] as nat == counting::occurrences(
                        positions(all.take(j as int)),
                        i,
                    ),
                forall|i: int| 0 <= i < 52 ==> #[trigger] counts@[i] <= decks,
                total == counting::total(counts@.map_values(|n: u8| n as nat)),
            decreases cards@.len() - j,
        {
            let card: Card = cards[j];
            let index: usize = card.index();
            let count: u8 = counts[index];
            if count == decks {
                proof {
                    assert(card == all[j as int]);
                    assert(times(all.take(j as int), card) == decks);
                    assert forall|i: int| 0 <= i < 52 implies #[trigger] counting::occurrences(
                        positions(all.take(j as int)),
                        i,
                    ) <= decks by {
                        assert(counts@[i] <= decks);
                    }
                }
                return Err(
                    ShoeError::RemainingCardCountExceedsCapacity {
                        card,
                        requested: count as usize + 1,
                        capacity: decks,
                    },
                );
            }
            let ghost before = counts@.map_values(|n: u8| n as nat);
            counts[index] = count + 1;
            proof {
                let after = counts@.map_values(|n: u8| n as nat);
                assert(counting::drawn(after, index as int) =~= before);
                counting::lemma_total_after_draw(after, index as int);
                lemma_positions_push(all, j as int);
                lemma_total_at_most(before, decks as nat, 52);
            }
            total = total + 1;
            j += 1;
        }
        proof {
            assert(all.take(all.len() as int) =~= all);
            assert(counts@.map_values(|n: u8| n as nat) =~= counting::composition(
                52,
                positions(all),
            ));
        }
        Ok(Shoe { decks, counts, total })
    }

    /// Takes all the listed cards out of the shoe, or none of them.
    pub fn remove_many(&mut self, cards: &[Card]) -> (result: Result<(), ShoeError>)
        ensures
            match result {
                Ok(_) => old(self)@.holds(cards@) && final(self)@ == old(self)@.without_all(cards@),
                Err(error) => *final(self) == *old(self) && old(self)@.refuses_removal(
                    cards@,
                    error,
                ),
            },
            old(self)@.wf(),
            final(self)@.wf(),
    {
        proof {
            use_type_invariant(&*self);
        }
        let mut requested: [usize; 52] = [0;52];
        let ghost all = cards@;
        let ghost asked = positions(all);
        let mut j: usize = 0;
        while j < cards.len()
            invariant
                j <= cards@.len(),
                all == cards@,
                forall|i: int|
                    0 <= i < 52 ==> #[trigger] requested@[i] == counting::occurrences(
                        positions(all.take(j as int)),
                        i,
                    ),
            decreases cards@.len() - j,
        {
            let index: usize = cards[j].index();
            proof {
                lemma_occurrences_at_most(positions(all.take(j as int)), index as int);
                lemma_positions_push(all, j as int);
            }
            requested[index] = requested[index] + 1;
            j += 1;
        }
        assert(all.take(all.len() as int) =~= all);
        let ghost before = self@;
        let mut counts: [u8; 52] = [0;52];
        let mut total: u16 = 0;
        let mut k: usize = 0;
        let ghost target = counting::remaining(before.counts, asked);
        while k < 52
            invariant
                k <= 52,
                all == cards@,
                asked == positions(all),
                self@ == before,
                *self == *old(self),
                before == old(self)@,
                before.wf(),
                target == counting::remaining(before.counts, asked),
                forall|i: int|
                    0 <= i < 52 ==> #[trigger] requested@[i] == counting::occurrences(asked, i),
                forall|i: int|
                    0 <= i < k ==> counting::occurrences(asked, i) <= #[trigger] before.counts[i],
                forall|i: int| 0 <= i < k ==> #[trigger] counts@[i] == target[i],
                total == counting::sum_to(k as nat, |i: int| target[i]),
                total <= 8 * k,
            decreases 52 - k,
        {
            let available: u8 = self.counts[k];
            assert(available == before.counts[k as int]);
            if requested[k] > available as usize {
                let card: Card = Card::from_index(k);
                return Err(
                    ShoeError::CardUnavailable {
                        card,
                        requested: requested[k],
                        remaining: available,
                    },
                );
            }
            let left: u8 = available - requested[k] as u8;
            assert(left == target[k as int]);
            counts[k] = left;
            total = total + left as u16;
            k += 1;
        }
        proof {
            assert(counts@.map_values(|n: u8| n as nat) =~= target);
            assert(before.holds(all));
            assert forall|i: int| 0 <= i < 52 implies #[trigger] target[i] <= before.decks by {
                assert(before.counts[i] <= before.decks);
            }
            counting::lemma_sum_equal(52, |i: int| target[i], |i: int| counts@.map_values(
                |n: u8| n as nat,
            )[i]);
        }
        *self = Shoe { decks: self.decks, counts, total };
        Ok(())
    }
}

impl Default for Shoe {
    /// A full shoe of eight decks.
    fn default() -> (shoe: Shoe)
        ensures
            shoe@ == full_shoe(8),
    {
        let counts: [u8; 52] = [DEFAULT_DECKS;52];
        proof {
            lemma_full_shoe_total(8);
            assert(counts@.map_values(|n: u8| n as nat) =~= full_shoe(8).counts);
        }
        Shoe { decks: DEFAULT_DECKS, counts, total: 416 }
    }
}

/// Putting back a card that was just taken out gives the same shoe again.
pub proof fn lemma_restore_undoes_remove(shoe: ShoeView, card: Card)
    requires
        shoe.wf(),
        shoe.copies(card) > 0,
    ensures
        shoe.without(card).copies(card) < shoe.decks,
        shoe.without(card).with(card) == shoe,
{
    assert(shoe.without(card).with(card).counts =~= shoe.counts);
}

/// Taking out a card that was just put back gives the same shoe again.
pub proof fn lemma_remove_undoes_restore(shoe: ShoeView, card: Card)
    requires
        shoe.wf(),
        shoe.copies(card) < shoe.decks,
    ensures
        shoe.with(card).copies(card) > 0,
        shoe.with(card).without(card) == shoe,
{
    assert(shoe.with(card).without(card).counts =~= shoe.counts);
}

/// Taking out a list of cards together is taking them out one after another.
pub proof fn lemma_remove_many_is_repeated_remove(shoe: ShoeView, cards: Seq<Card>, card: Card)
    requires
        shoe.wf(),
    ensures
        shoe.without_all(cards.push(card)) == shoe.without_all(cards).without(card),
        shoe.without_all(Seq::empty()) == shoe,
        shoe.holds(Seq::empty()),
        shoe.holds(cards.push(card)) <==> shoe.holds(cards) && shoe.without_all(cards).copies(card)
            > 0,
{
    let longer = cards.push(card);
    assert(longer.take(cards.len() as int) =~= cards);
    assert(longer.take(longer.len() as int) =~= longer);
    lemma_positions_push(longer, cards.len() as int);
    assert(shoe.without_all(longer).counts =~= shoe.without_all(cards).without(card).counts);
    assert(shoe.without_all(Seq::empty()).counts =~= shoe.counts);
    card::lemma_card_numbers_are_positions(0);
    assert(0 <= card.number() < 52);
    if shoe.holds(longer) {
        assert forall|i: int| 0 <= i < 52 implies counting::occurrences(positions(cards), i)
            <= #[trigger] shoe.counts[i] by {
            assert(counting::occurrences(positions(longer), i) <= shoe.counts[i]);
        }
        assert(counting::occurrences(positions(longer), card.number())
            <= shoe.counts[card.number()]);
    }
}

/// Taking out one list after another is taking out both together.
pub proof fn lemma_remove_in_parts(shoe: ShoeView, first: Seq<Card>, second: Seq<Card>)
    requires
        shoe.wf(),
    ensures
        shoe.without_all(first + second) == shoe.without_all(first).without_all(second),
        shoe.holds(first + second) <==> shoe.holds(first) && shoe.without_all(first).holds(second),
{
    let a = positions(first);
    let b = positions(second);
    assert(positions(first + second) =~= a + b);
    assert forall|i: int| counting::occurrences(a + b, i) == counting::occurrences(a, i)
        + counting::occurrences(b, i) by {
        lemma_occurrences_add(a, b, i);
    }
    assert(shoe.without_all(first + second).counts =~= shoe.without_all(first).without_all(
        second,
    ).counts);
    if shoe.holds(first + second) {
        assert forall|i: int| 0 <= i < 52 implies counting::occurrences(a, i)
            <= #[trigger] shoe.counts[i] by {
            assert(counting::occurrences(a + b, i) <= shoe.counts[i]);
        }
        assert forall|i: int| 0 <= i < 52 implies counting::occurrences(b, i)
            <= #[trigger] shoe.without_all(first).counts[i] by {
            assert(counting::occurrences(a + b, i) <= shoe.counts[i]);
        }
    }
    if shoe.holds(first) && shoe.without_all(first).holds(second) {
        assert forall|i: int| 0 <= i < 52 implies counting::occurrences(a + b, i)
            <= #[trigger] shoe.counts[i] by {
            assert(counting::occurrences(a, i) <= shoe.counts[i]);
            assert(counting::occurrences(b, i) <= shoe.without_all(first).counts[i]);
        }
    }
}

proof fn lemma_occurrences_add(a: Seq<int>, b: Seq<int>, i: int)
    ensures
        counting::occurrences(a + b, i) == counting::occurrences(a, i) + counting::occurrences(
            b,
            i,
        ),
    decreases b.len(),
{
    if b.len() == 0 {
        assert(a + b =~= a);
    } else {
        lemma_occurrences_add(a, b.drop_last(), i);
        assert((a + b).drop_last() =~= a + b.drop_last());
    }
}

/// The cards taken out and the cards left make up the shoe.
pub proof fn lemma_remove_many_total(shoe: ShoeView, cards: Seq<Card>)
    requires
        shoe.wf(),
        shoe.holds(cards),
    ensures
        shoe.without_all(cards).total() + cards.len() == shoe.total(),
        shoe.without_all(cards).wf(),
    decreases cards.len(),
{
    if cards.len() == 0 {
        lemma_remove_many_is_repeated_remove(shoe, cards, card::card_at(0));
        assert(cards =~= Seq::empty());
    } else {
        let shorter = cards.drop_last();
        let card = cards.last();
        assert(cards =~= shorter.push(card));
        lemma_remove_many_is_repeated_remove(shoe, shorter, card);
        lemma_remove_many_total(shoe, shorter);
        card::lemma_card_numbers_are_positions(0);
        assert(0 <= card.number() < 52);
        counting::lemma_total_after_draw(shoe.without_all(shorter).counts, card.number());
    }
}

/// Why an operation on a shoe was refused.
#[derive(Debug, Clone, PartialEq, Eq)]
pub enum ShoeError {
    /// The number of decks is not supported.
    InvalidDeckCount { decks: u8 },
    /// Fewer copies of a card are left than were asked for.
    CardUnavailable { card: Card, requested: usize, remaining: u8 },
    /// All copies of a card are already in the shoe.
    CardAtCapacity { card: Card, capacity: u8 },
    /// A list of remaining cards repeats a card more often than there are decks.
    RemainingCardCountExceedsCapacity { card: Card, requested: usize, capacity: u8 },
}

impl ShoeError {
    /// The message of the error.
    pub open spec fn message(self) -> Seq<char> {
        match self {
            ShoeError::InvalidDeckCount { decks } => "invalid deck count "@ + text::decimal(
                decks as nat,
            ) + "; expected "@ + text::decimal(MIN_DECKS as nat) + " through "@ + text::decimal(
                MAX_DECKS as nat,
            ),
            ShoeError::CardUnavailable { card, requested, remaining } => "cannot remove "@
                + text::decimal(requested as nat) + " copies of "@ + card.name() + "; only "@
                + text::decimal(remaining as nat) + " remain"@,
            ShoeError::CardAtCapacity { card, capacity } => "cannot restore "@ + card.name()
                + "; all "@ + text::decimal(capacity as nat)
                + " copies are already in the shoe"@,
            ShoeError::RemainingCardCountExceedsCapacity { card, requested, capacity } =>
                "剩余牌列表中包含 "@ + text::decimal(requested as nat) + " 张 "@
                + card.name() + "，但 "@ + text::decimal(capacity as nat)
                + " 副牌最多只能有 "@ + text::decimal(capacity as nat) + " 张"@,
        }
    }

    /// The message of the error.
    pub fn to_string(&self) -> (result: String)
        ensures
            result@ == self.message(),
    {
        match self {
            ShoeError::InvalidDeckCount { decks } => {
                let mut result: String = "invalid deck count ".to_owned();
                text::push_decimal(&mut result, *decks as u64);
                result.append("; expected ");
                text::push_decimal(&mut result, MIN_DECKS as u64);
                result.append(" through ");
                text::push_decimal(&mut result, MAX_DECKS as u64);
                result
            },
            ShoeError::CardUnavailable { card, requested, remaining } => {
                let mut result: String = "cannot remove ".to_owned();
                text::push_decimal(&mut result, *requested as u64);
                result.append(" copies of ");
                result.append(card.to_string().as_str());
                result.append("; only ");
                text::push_decimal(&mut result, *remaining as u64);
                result.append(" remain");
                result
            },
            ShoeError::CardAtCapacity { card, capacity } => {
                let mut result: String = "cannot restore ".to_owned();
                result.append(card.to_string().as_str());
                result.append("; all ");
                text::push_decimal(&mut result, *capacity as u64);
                result.append(" copies are already in the shoe");
                result
            },
            ShoeError::RemainingCardCountExceedsCapacity { card, requested, capacity } => {
                let mut result: String = "剩余牌列表中包含 ".to_owned();
                text::push_decimal(&mut result, *requested as u64);
                result.append(" 张 ");
                result.append(card.to_string().as_str());
                result.append("，但 ");
                text::push_decimal(&mut result, *capacity as u64);
                result.append(" 副牌最多只能有 ");
                text::push_decimal(&mut result, *capacity as u64);
                result.append(" 张");
                result
            },
        }
    }
}

/// Cards that a shoe refuses to give are not all in it.
pub proof fn lemma_refusal_means_missing(shoe: ShoeView, cards: Seq<Card>, error: ShoeError)
    requires
        shoe.wf(),
        shoe.refuses_removal(cards, error),
    ensures
        !shoe.holds(cards),
{
    match error {
        ShoeError::CardUnavailable { card, requested, remaining } => {
            let i = card.number();
            assert(0 <= i < 52);
            assert(shoe.counts[i] < times(cards, card));
        },
        _ => {},
    }
}

} // verus!
