//! A small deterministic random number generator for repeatable simulations.

use vstd::prelude::*;

verus! {

/// The state that a seed of zero stands for.
pub const ZERO_SEED_STATE: u64 = 0x9e37_79b9_7f4a_7c15;

/// The multiplier of the output.
pub const OUTPUT_FACTOR: u64 = 0x2545_f491_4f6c_dd1d;

/// The largest range that an index is drawn from.
pub const INDEX_LIMIT: usize = 16384;

/// The next state: three xor-shifts.
pub open spec fn scrambled(state: u64) -> u64 {
    let a = state ^ (state >> 12u64);
    let b = a ^ (a << 25u64);
    b ^ (b >> 27u64)
}

/// The output of a state: its product with the output factor, modulo `2^64`.
pub open spec fn output(state: u64) -> u64 {
    (state * 0x2545_f491_4f6c_dd1du64) as u64
}

/// The outputs below this are rejected, so that the rest are spread evenly over `upper`
/// values.
pub open spec fn rejected_below(upper: nat) -> nat {
    ((0x1_0000_0000_0000_0000 - upper) % upper as int) as nat
}

/// The state after drawing an index below `upper`, and the index.
///
/// An output is drawn again when it is rejected, which cannot happen twice in a row.
pub open spec fn drawn_index(state: u64, upper: nat) -> (u64, nat) {
    let first = scrambled(state);
    let second = scrambled(first);
    if output(first) >= rejected_below(upper) {
        (first, output(first) as nat % upper)
    } else {
        (second, output(second) as nat % upper)
    }
}

/// A sequence with two items exchanged.
pub open spec fn exchanged(values: Seq<u8>, i: int, j: int) -> Seq<u8> {
    values.update(i, values[j]).update(j, values[i])
}

/// The state and the values after shuffling the places up to `top`, from the top down.
pub open spec fn shuffled(state: u64, values: Seq<u8>, top: nat) -> (u64, Seq<u8>)
    decreases top,
{
    if top == 0 {
        (state, values)
    } else {
        let (next, j) = drawn_index(state, top + 1);
        shuffled(next, exchanged(values, top as int, j as int), (top - 1) as nat)
    }
}

/// The state and the values after a whole shuffle.
pub open spec fn shuffle_result(state: u64, values: Seq<u8>) -> (u64, Seq<u8>) {
    if values.len() == 0 {
        (state, values)
    } else {
        shuffled(state, values, (values.len() - 1) as nat)
    }
}

/// The output factor has an inverse modulo `2^64`.
proof fn lemma_output_inverse(state: u64, value: u64)
    by (bit_vector)
    requires
        value == (state * 0x2545_f491_4f6c_dd1du64) as u64,
    ensures
        state == (value * 0x5907_1d96_d81e_cd35u64) as u64,
{
}

/// A small output is followed by a large one.
#[verifier::rlimit(100)]
proof fn lemma_small_then_large(value: u64)
    by (bit_vector)
    requires
        0 < value < 16384,
    ensures
        (scrambled((value * 0x5907_1d96_d81e_cd35u64) as u64) * 0x2545_f491_4f6c_dd1du64) as u64
            >= 16384,
{
}

/// Scrambling keeps a state from becoming zero.
proof fn lemma_scrambled_not_zero(state: u64)
    by (bit_vector)
    requires
        state != 0,
    ensures
        scrambled(state) != 0,
{
}

proof fn lemma_product_modulo(a: u64, b: u64)
    by (bit_vector)
    ensures
        (a * b) as u64 == (a * b) % 0x1_0000_0000_0000_0000,
{
}

/// No two outputs in a row are small.
pub proof fn lemma_no_two_rejections(state: u64, upper: nat)
    requires
        state != 0,
        0 < upper <= INDEX_LIMIT,
        output(state) < rejected_below(upper),
    ensures
        output(scrambled(state)) >= rejected_below(upper),
{
    let value = output(state);
    lemma_output_inverse(state, value);
    assert(rejected_below(upper) < upper) by {
        vstd::arithmetic::div_mod::lemma_mod_bound(
            0x1_0000_0000_0000_0000 - upper,
            upper as int,
        );
    }
    if value == 0 {
        assert(0u64 * 0x5907_1d96_d81e_cd35u64 == 0) by (nonlinear_arith);
        assert(state == 0);
    }
    lemma_small_then_large(value);
}

/// A generator that always gives the same numbers for the same seed.
#[derive(Debug)]
pub struct DeterministicRng {
    state: u64,
}

impl View for DeterministicRng {
    type V = u64;

    closed spec fn view(&self) -> u64 {
        self.state
    }
}

/// The first state for a seed.
pub open spec fn seeded(seed: u64) -> u64 {
    if seed == 0 {
        ZERO_SEED_STATE
    } else {
        seed
    }
}

impl DeterministicRng {
    #[verifier::type_invariant]
    spec fn inv(self) -> bool {
        self.state != 0
    }

    /// A generator for a seed.
    pub fn new(seed: u64) -> (random: DeterministicRng)
        ensures
            random@ == seeded(seed),
    {
        if seed == 0 {
            DeterministicRng { state: ZERO_SEED_STATE }
        } else {
            DeterministicRng { state: seed }
        }
    }

    /// The state, from which a generator goes on when it is used as a seed.
    pub fn state(&self) -> (state: u64)
        ensures
            state == self@,
            seeded(state) == state,
    {
        proof {
            use_type_invariant(self);
        }
        self.state
    }

    /// The next number.
    pub fn next_u64(&mut self) -> (value: u64)
        ensures
            final(self)@ == scrambled(old(self)@),
            value == output(final(self)@),
            final(self)@ != 0,
    {
        proof {
            use_type_invariant(&*self);
            lemma_scrambled_not_zero(self.state);
        }
        let mut value: u64 = self.state;
        value = value ^ (value >> 12);
        value = value ^ (value << 25);
        value = value ^ (value >> 27);
        self.state = value;
        proof {
            lemma_product_modulo(value, OUTPUT_FACTOR);
        }
        value.wrapping_mul(OUTPUT_FACTOR)
    }

    /// An index below `upper_exclusive`, all equally likely.
    pub fn index(&mut self, upper_exclusive: usize) -> (index: usize)
        requires
            0 < upper_exclusive <= INDEX_LIMIT,
        ensures
            drawn_index(old(self)@, upper_exclusive as nat) == (final(self)@, index as nat),
            index < upper_exclusive,
    {
        let upper: u64 = upper_exclusive as u64;
        let rejection_threshold: u64 = (u64::MAX - upper + 1) % upper;
        let mut value: u64 = self.next_u64();
        if value < rejection_threshold {
            proof {
                lemma_no_two_rejections(self@, upper as nat);
            }
            value = self.next_u64();
        }
        (value % upper) as usize
    }

    /// Shuffles the values, from the last place down.
    pub fn shuffle(&mut self, values: &mut Vec<u8>)
        requires
            old(values)@.len() <= INDEX_LIMIT,
        ensures
            shuffle_result(old(self)@, old(values)@) == (final(self)@, final(values)@),
    {
        if values.len() == 0 {
            return;
        }
        let mut top: usize = values.len() - 1;
        let ghost state = self@;
        let ghost all = values@;
        while top > 0
            invariant
                top < values@.len(),
                values@.len() <= INDEX_LIMIT,
                shuffled(self@, values@, top as nat) == shuffled(
                    state,
                    all,
                    (all.len() - 1) as nat,
                ),
            decreases top,
        {
            let ghost before = values@;
            let other: usize = self.index(top + 1);
            let high: u8 = values[top];
            let low: u8 = values[other];
            values.set(top, low);
            values.set(other, high);
            assert(values@ =~= exchanged(before, top as int, other as int));
            top -= 1;
        }
    }
}

/// An exchange keeps what is there.
proof fn lemma_exchange_keeps_values(values: Seq<u8>, i: int, j: int)
    requires
        0 <= i < values.len(),
        0 <= j < values.len(),
    ensures
        exchanged(values, i, j).to_multiset() == values.to_multiset(),
{
    broadcast use vstd::seq_lib::group_to_multiset_ensures;

    let once = values.update(i, values[j]);
    if i == j {
        assert(exchanged(values, i, j) =~= values);
    } else {
        assert(once[j] == values[j]);
        let m = values.to_multiset();
        assert(once.to_multiset() =~= m.insert(values[j]).remove(values[i]));
        assert(exchanged(values, i, j).to_multiset() =~= once.to_multiset().insert(
            values[i],
        ).remove(once[j]));
        assert(m.count(values[i]) > 0) by {
            assert(values.contains(values[i]));
        }
        assert(exchanged(values, i, j).to_multiset() =~= m);
    }
}

proof fn lemma_shuffled_keeps_values(state: u64, values: Seq<u8>, top: nat)
    requires
        top < values.len(),
    ensures
        shuffled(state, values, top).1.to_multiset() == values.to_multiset(),
        shuffled(state, values, top).1.len() == values.len(),
    decreases top,
{
    if top > 0 {
        let (next, j) = drawn_index(state, top + 1);
        assert(0 <= j < top + 1) by {
            vstd::arithmetic::div_mod::lemma_mod_bound(
                output(scrambled(state)) as int,
                (top + 1) as int,
            );
            vstd::arithmetic::div_mod::lemma_mod_bound(
                output(scrambled(scrambled(state))) as int,
                (top + 1) as int,
            );
        }
        lemma_exchange_keeps_values(values, top as int, j as int);
        lemma_shuffled_keeps_values(
            next,
            exchanged(values, top as int, j as int),
            (top - 1) as nat,
        );
    }
}

/// A shuffle only reorders: the same values are there as often as before.
pub proof fn lemma_shuffle_is_a_reordering(state: u64, values: Seq<u8>)
    ensures
        shuffle_result(state, values).1.to_multiset() == values.to_multiset(),
        shuffle_result(state, values).1.len() == values.len(),
{
    if values.len() > 0 {
        lemma_shuffled_keeps_values(state, values, (values.len() - 1) as nat);
    }
}

/// The places that are drawn when the places up to `top` are shuffled: at `n - 1` the one for
/// place `n`.
pub open spec fn draws(state: u64, top: nat) -> Seq<nat>
    decreases top,
{
    if top == 0 {
        Seq::empty()
    } else {
        let (next, j) = drawn_index(state, top + 1);
        draws(next, (top - 1) as nat).push(j)
    }
}

/// Whether every place draws one that is at most as high as itself.
pub open spec fn are_draws(draws: Seq<nat>) -> bool {
    forall|i: int| 0 <= i < draws.len() ==> #[trigger] draws[i] <= i + 1
}

/// What is left of a list when the value at a place is taken out: the last value takes its place.
pub open spec fn left_without(values: Seq<u8>, j: int) -> Seq<u8> {
    Seq::new(
        (values.len() - 1) as nat,
        |i: int|
            if i == j {
                values.last()
            } else {
                values[i]
            },
    )
}

/// Values taken out of a list from its last place down: the value at the drawn place is put last,
/// and the last value takes its place among those that are left.
pub open spec fn taken_out(values: Seq<u8>, draws: Seq<nat>) -> Seq<u8>
    decreases values.len(),
{
    if values.len() <= 1 {
        values
    } else {
        let j = draws.last() as int;
        taken_out(left_without(values, j), draws.drop_last()).push(values[j])
    }
}

proof fn lemma_index_below(state: u64, upper: nat)
    requires
        upper > 0,
    ensures
        drawn_index(state, upper).1 < upper,
{
    vstd::arithmetic::div_mod::lemma_mod_bound(output(scrambled(state)) as int, upper as int);
    vstd::arithmetic::div_mod::lemma_mod_bound(
        output(scrambled(scrambled(state))) as int,
        upper as int,
    );
}

proof fn lemma_draws(state: u64, top: nat)
    ensures
        draws(state, top).len() == top,
        are_draws(draws(state, top)),
    decreases top,
{
    if top > 0 {
        let (next, j) = drawn_index(state, top + 1);
        lemma_draws(next, (top - 1) as nat);
        lemma_index_below(state, top + 1);
    }
}

proof fn lemma_shuffled_takes_out(state: u64, values: Seq<u8>, top: nat)
    requires
        top < values.len(),
    ensures
        shuffled(state, values, top).1 == taken_out(values.take(top as int + 1), draws(state, top))
            + values.skip(top as int + 1),
    decreases top,
{
    if top == 0 {
        assert(values.take(1) + values.skip(1) =~= values);
    } else {
        let (next, j) = drawn_index(state, top + 1);
        let below = (top - 1) as nat;
        lemma_index_below(state, top + 1);
        let moved = exchanged(values, top as int, j as int);
        lemma_shuffled_takes_out(next, moved, below);
        let part = values.take(top as int + 1);
        assert(draws(state, top).last() == j);
        assert(draws(state, top).drop_last() =~= draws(next, below));
        assert(left_without(part, j as int) =~= moved.take(top as int));
        assert(moved.skip(top as int) =~= seq![values[j as int]] + values.skip(top as int + 1));
        assert(shuffled(state, values, top).1 =~= taken_out(part, draws(state, top)) + values.skip(
            top as int + 1,
        ));
    }
}

/// A shuffle draws, for every place from the last down to the second, a place that is at most as
/// high, and puts the value from there into it: the value at the last place is the one that stood
/// at the place drawn for it, and so on for each place below among the values that are left.
pub proof fn lemma_every_place_is_drawn(state: u64, values: Seq<u8>)
    requires
        values.len() > 0,
    ensures
        draws(state, (values.len() - 1) as nat).len() == values.len() - 1,
        are_draws(draws(state, (values.len() - 1) as nat)),
        shuffle_result(state, values).1 == taken_out(
            values,
            draws(state, (values.len() - 1) as nat),
        ),
{
    let top = (values.len() - 1) as nat;
    lemma_draws(state, top);
    lemma_shuffled_takes_out(state, values, top);
    assert(values.take(top as int + 1) =~= values);
    assert(taken_out(values, draws(state, top)) + values.skip(top as int + 1) =~= taken_out(
        values,
        draws(state, top),
    ));
}

proof fn lemma_rest_after(values: Seq<u8>, j: int)
    requires
        values.len() > 1,
        0 <= j < values.len(),
    ensures
        left_without(values, j).to_multiset() == values.to_multiset().remove(values[j]),
        values.no_duplicates() ==> left_without(values, j).no_duplicates(),
{
    broadcast use vstd::seq_lib::group_to_multiset_ensures;

    let last = values.len() - 1;
    let moved = exchanged(values, j, last);
    let rest = left_without(values, j);
    lemma_exchange_keeps_values(values, j, last);
    assert(moved =~= rest.push(values[j]));
    assert(rest.to_multiset() =~= values.to_multiset().remove(values[j]));
    if values.no_duplicates() {
        assert forall|a: int, b: int|
            0 <= a < rest.len() && 0 <= b < rest.len() && a != b implies rest[a] != rest[b] by {
            let x = if a == j {
                last
            } else {
                a
            };
            let y = if b == j {
                last
            } else {
                b
            };
            assert(rest[a] == values[x] && rest[b] == values[y]);
        }
    }
}

/// Other draws give another arrangement of values that differ.
pub proof fn lemma_other_draws_arrange_otherwise(
    values: Seq<u8>,
    left: Seq<nat>,
    right: Seq<nat>,
)
    requires
        values.len() > 0,
        values.no_duplicates(),
        are_draws(left),
        are_draws(right),
        left.len() == values.len() - 1,
        right.len() == values.len() - 1,
        taken_out(values, left) == taken_out(values, right),
    ensures
        left == right,
    decreases values.len(),
{
    if values.len() > 1 {
        let i = left.last() as int;
        let j = right.last() as int;
        let a = left_without(values, i);
        let b = left_without(values, j);
        assert(left[left.len() - 1] <= left.len() && right[right.len() - 1] <= right.len());
        assert(taken_out(values, left).last() == values[i]);
        assert(taken_out(values, right).last() == values[j]);
        assert(i == j);
        assert(taken_out(values, left).drop_last() =~= taken_out(a, left.drop_last()));
        assert(taken_out(values, right).drop_last() =~= taken_out(b, right.drop_last()));
        lemma_rest_after(values, i);
        assert forall|k: int| 0 <= k < left.drop_last().len() implies #[trigger] left.drop_last()[k]
            <= k + 1 by {
            assert(left[k] <= k + 1);
        }
        assert forall|k: int| 0 <= k < right.drop_last().len() implies #[trigger] right.drop_last()[k]
            <= k + 1 by {
            assert(right[k] <= k + 1);
        }
        lemma_other_draws_arrange_otherwise(a, left.drop_last(), right.drop_last());
        assert(left =~= left.drop_last().push(left.last()));
        assert(right =~= right.drop_last().push(right.last()));
    } else {
        assert(left =~= right);
    }
}

/// Every arrangement of values is given by some draws.
pub proof fn lemma_every_arrangement_can_be_drawn(values: Seq<u8>, target: Seq<u8>) -> (found: Seq<
    nat,
>)
    requires
        values.len() > 0,
        target.to_multiset() == values.to_multiset(),
    ensures
        found.len() == values.len() - 1,
        are_draws(found),
        taken_out(values, found) == target,
    decreases values.len(),
{
    broadcast use vstd::seq_lib::group_to_multiset_ensures;

    assert(target.len() == values.len()) by {
        assert(target.to_multiset().len() == target.len());
        assert(values.to_multiset().len() == values.len());
    }
    if values.len() == 1 {
        assert(values.to_multiset().count(values[0]) > 0) by {
            assert(values.contains(values[0]));
        }
        assert(target.contains(values[0]));
        assert(target =~= values);
        Seq::empty()
    } else {
        let last = target.last();
        assert(target.contains(target[target.len() - 1]));
        assert(values.to_multiset().count(last) > 0);
        assert(values.contains(last));
        let j = choose|j: int| 0 <= j < values.len() && values[j] == last;
        let rest = left_without(values, j);
        lemma_rest_after(values, j);
        let left = target.drop_last();
        assert(target =~= left.push(last));
        assert(left.to_multiset() =~= target.to_multiset().remove(last));
        let before = lemma_every_arrangement_can_be_drawn(rest, left);
        let found = before.push(j as nat);
        assert(found.drop_last() =~= before);
        assert(taken_out(values, found) =~= target);
        found
    }
}

/// An index is drawn evenly: it is what an output leaves when it is divided by the number of
/// places, of the outputs that are taken each index has the same number, and fewer than one for
/// each place are not taken.
pub proof fn lemma_indexes_are_drawn_evenly(state: u64, upper: nat)
    requires
        state != 0,
        0 < upper <= INDEX_LIMIT,
    ensures
        ({
            let (next, index) = drawn_index(state, upper);
            &&& next == scrambled(state) || next == scrambled(scrambled(state))
            &&& index == output(next) as nat % upper
            &&& output(next) >= rejected_below(upper)
            &&& (0x1_0000_0000_0000_0000 - rejected_below(upper)) % (upper as int) == 0
            &&& rejected_below(upper) < upper
        }),
{
    let first = scrambled(state);
    lemma_scrambled_not_zero(state);
    if output(first) < rejected_below(upper) {
        lemma_no_two_rejections(first, upper);
    }
    let u = upper as int;
    let all: int = 0x1_0000_0000_0000_0000;
    vstd::arithmetic::div_mod::lemma_mod_bound(all - u, u);
    let r = (all - u) % u;
    vstd::arithmetic::div_mod::lemma_fundamental_div_mod(all - u, u);
    let q = (all - u) / u;
    assert(all - r == u * (q + 1)) by (nonlinear_arith)
        requires
            all - u == u * q + r,
    ;
    vstd::arithmetic::div_mod::lemma_mod_multiples_basic(q + 1, u);
    assert(u * (q + 1) == (q + 1) * u) by (nonlinear_arith);
}

/// The state is scrambled by three shifts, of 12 places down, 25 up and 27 down, each of which
/// leaves the bits that it does not reach as they are; two states differ in their successors as
/// the successor of their difference.
pub proof fn lemma_scrambling_is_linear(a: u64, b: u64)
    by (bit_vector)
    ensures
        scrambled(a ^ b) == scrambled(a) ^ scrambled(b),
        scrambled(a) == a ^ (a >> 12u64) ^ (a << 25u64) ^ ((a >> 12u64) << 25u64) ^ (a >> 27u64) ^ (
        (a >> 12u64) >> 27u64) ^ ((a << 25u64) >> 27u64) ^ (((a >> 12u64) << 25u64) >> 27u64),
{
}

} // verus!
