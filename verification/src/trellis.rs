//! The state-transition structure of a rate k/(k+1) feedback convolutional
//! encoder: for every state and input symbol the next state and the output
//! symbol, and for every state an input sequence that drives the encoder back
//! to state zero.

use vstd::prelude::*;
use vstd::arithmetic::power2::pow2;
use crate::gf2::{
    fits_bits, lemma_leading_zeros_of_width, poly_add, poly_div, poly_mul_bit, poly_rem,
    poly_shl, popcount16, reverse16, swap_bits16,
};
use crate::termination::shortest_terminations;
use crate::vec2d::{Fill, Vec2d};

verus! {

/// The two transition tables of an encoder and its termination sequences.
pub struct Trellis {
    pub num_input_symbols: usize,
    pub num_output_symbols: usize,
    pub num_states: usize,
    pub next_states: Vec2d<u16>,
    pub outputs: Vec2d<u16>,
    pub terminations: Vec<Vec<u16>>,
}

/// Why an encoder description was turned down.
#[derive(Debug, Clone, Copy, PartialEq, Eq, Structural)]
pub enum TrellisError {
    /// The constraint length is below two or above sixteen.
    ConstraintLength,
    /// There is no numerator, or there are more than fifteen.
    InputRails,
    /// A polynomial has a decimal digit that is no octal digit.
    OctalDigit,
    /// A polynomial does not fit the constraint length.
    PolynomialWidth,
    /// The leading coefficient of the denominator is zero.
    Denominator,
    /// Some state cannot be driven back to state zero.
    Unreachable,
}

/// Entry `(s, m)` of a transition table, as a number.
pub open spec fn table_entry(table: Vec2d<u16>, s: int, m: int) -> int {
    table.entry(s, m) as int
}

/// The state reached from `s` in the table of next states by taking the
/// edges that `inputs` names.
pub open spec fn table_follow(next_states: Vec2d<u16>, s: int, inputs: Seq<u16>) -> int
    decreases inputs.len(),
{
    if inputs.len() == 0 {
        s
    } else {
        table_entry(next_states, table_follow(next_states, s, inputs.drop_last()), inputs.last() as int)
    }
}

/// The Hamming weight of the output symbols along the path that starts in
/// state `s` and takes the edges that `inputs` names.
pub open spec fn table_path_weight(
    next_states: Vec2d<u16>,
    outputs: Vec2d<u16>,
    s: int,
    inputs: Seq<u16>,
) -> int
    decreases inputs.len(),
{
    if inputs.len() == 0 {
        0
    } else {
        table_path_weight(next_states, outputs, s, inputs.drop_last()) + popcount16(
            outputs.entry(table_follow(next_states, s, inputs.drop_last()), inputs.last() as int),
        )
    }
}

/// Every symbol of `inputs` is below `bound`.
pub open spec fn symbols_below(inputs: Seq<u16>, bound: int) -> bool {
    forall|i: int| 0 <= i < inputs.len() ==> (#[trigger] inputs[i] as int) < bound
}

/// In the table of next states, with `num_inputs` input symbols, state zero
/// can be reached from `s` in at most `n` steps.
pub open spec fn table_reaches_zero_within(
    next_states: Vec2d<u16>,
    num_inputs: int,
    s: int,
    n: int,
) -> bool {
    exists|inputs: Seq<u16>|
        symbols_below(inputs, num_inputs) && inputs.len() <= n && #[trigger] table_follow(
            next_states,
            s,
            inputs,
        ) == 0
}

/// In the table of next states, with `num_inputs` input symbols, state zero
/// can be reached from `s`.
pub open spec fn table_reaches_zero(next_states: Vec2d<u16>, num_inputs: int, s: int) -> bool {
    exists|inputs: Seq<u16>|
        symbols_below(inputs, num_inputs) && #[trigger] table_follow(next_states, s, inputs) == 0
}

/// In the table of next states, with `num_inputs` input symbols, `seq` starts
/// with a shortest path from `s` to state zero and goes on with zero symbols,
/// up to the length `min_len` where the path is shorter than that.
pub open spec fn table_is_termination(
    next_states: Vec2d<u16>,
    num_inputs: int,
    s: int,
    seq: Seq<u16>,
    min_len: int,
) -> bool {
    &&& symbols_below(seq, num_inputs)
    &&& exists|hops: int|
        {
            &&& 0 <= hops <= seq.len()
            &&& #[trigger] table_follow(next_states, s, seq.take(hops)) == 0
            &&& !table_reaches_zero_within(next_states, num_inputs, s, hops - 1)
            &&& forall|i: int| hops <= i < seq.len() ==> seq[i] == 0
            &&& seq.len() == if hops >= min_len { hops } else { min_len }
        }
}

impl Trellis {
    /// The tables have one row for each state and one column for each input
    /// symbol, and every next state is a state.
    pub open spec fn wf(&self) -> bool {
        &&& 1 <= self.num_states <= 0x8000
        &&& 1 <= self.num_input_symbols <= 0x8000
        &&& self.next_states.wf()
        &&& self.next_states.row == self.num_states
        &&& self.next_states.col == self.num_input_symbols
        &&& self.outputs.wf()
        &&& self.outputs.row == self.num_states
        &&& self.outputs.col == self.num_input_symbols
        &&& forall|s: int, m: int|
            0 <= s < self.num_states && 0 <= m < self.num_input_symbols ==> 0 <= #[trigger] self.next(
                s,
                m,
            ) < self.num_states
    }

    /// The state that follows state `s` on the input symbol `m`.
    #[verifier::inline]
    pub open spec fn next(&self, s: int, m: int) -> int {
        table_entry(self.next_states, s, m)
    }

    /// The output symbol on the edge that leaves state `s` on the input
    /// symbol `m`.
    #[verifier::inline]
    pub open spec fn output(&self, s: int, m: int) -> int {
        table_entry(self.outputs, s, m)
    }

    /// The Hamming weight of the output symbol on the edge that leaves state
    /// `s` on the input symbol `m`.
    #[verifier::inline]
    pub open spec fn edge_weight(&self, s: int, m: int) -> int {
        popcount16(self.outputs.entry(s, m)) as int
    }

    /// The Hamming weight of the output symbols along the path that starts
    /// in state `s` and takes the edges that `inputs` names.
    #[verifier::inline]
    pub open spec fn path_weight(&self, s: int, inputs: Seq<u16>) -> int {
        table_path_weight(self.next_states, self.outputs, s, inputs)
    }

    /// Every edge that takes a nonzero input symbol puts out a nonzero
    /// symbol: the output symbol holds the input bits.
    pub open spec fn outputs_carry_inputs(&self) -> bool {
        forall|s: int, m: int|
            0 <= s < self.num_states && 0 < m < self.num_input_symbols ==> #[trigger] self.outputs.entry(
                s,
                m,
            ) != 0
    }

    /// Every symbol of `inputs` is an input symbol of this trellis.
    #[verifier::inline]
    pub open spec fn valid_inputs(&self, inputs: Seq<u16>) -> bool {
        symbols_below(inputs, self.num_input_symbols as int)
    }

    /// The state reached from `s` by taking the edges that `inputs` names.
    #[verifier::inline]
    pub open spec fn follow(&self, s: int, inputs: Seq<u16>) -> int {
        table_follow(self.next_states, s, inputs)
    }

    /// State zero can be reached from `s` in at most `n` steps.
    #[verifier::inline]
    pub open spec fn reaches_zero_within(&self, s: int, n: int) -> bool {
        table_reaches_zero_within(self.next_states, self.num_input_symbols as int, s, n)
    }

    /// State zero can be reached from `s`.
    #[verifier::inline]
    pub open spec fn reaches_zero(&self, s: int) -> bool {
        table_reaches_zero(self.next_states, self.num_input_symbols as int, s)
    }

    /// `seq` terminates state `s`: it starts with a shortest path from `s` to
    /// state zero and goes on with zero symbols, up to the length `min_len`
    /// where the path is shorter than that.
    #[verifier::inline]
    pub open spec fn is_termination(&self, s: int, seq: Seq<u16>, min_len: int) -> bool {
        table_is_termination(self.next_states, self.num_input_symbols as int, s, seq, min_len)
    }
}

/// Every decimal digit of `n` is an octal digit.
pub open spec fn octal_digits_valid(n: nat) -> bool
    decreases n,
{
    if n < 10 {
        n < 8
    } else {
        n % 10 < 8 && octal_digits_valid(n / 10)
    }
}

/// The number whose octal digits are the decimal digits of `n`.
pub open spec fn octal_value(n: nat) -> nat
    decreases n,
{
    if n < 10 {
        n
    } else {
        8 * octal_value(n / 10) + n % 10
    }
}

/// The value of the first `count` entries of `octal`, read as octal digits.
pub open spec fn octal_values(octal: Seq<u16>) -> Seq<u16> {
    Seq::new(octal.len(), |i: int| octal_value(octal[i] as nat) as u16)
}

/// The sum over GF(2) of the numerators `lo..` whose input bit is set in the
/// input symbol `m`: numerator `j` belongs to bit `j` of the symbol.
pub open spec fn numerator_sum(nums: Seq<u16>, m: u16, lo: nat) -> u16
    decreases nums.len() - lo,
{
    if lo >= nums.len() {
        0u16
    } else {
        numerator_sum(nums, m, lo + 1) ^ (if (m >> (lo as u16)) & 1 == 1 {
            nums[lo as int]
        } else {
            0u16
        })
    }
}

/// The polynomial that enters the feedback division: the selected numerators
/// plus the state.
pub open spec fn total_numerator(nums: Seq<u16>, state: u16, m: u16) -> u16 {
    numerator_sum(nums, m, 0) ^ state
}

/// The state after one step: the feedback bit, which is the lowest
/// coefficient of the total, subtracts the denominator, and the register
/// shifts by one place.
pub open spec fn spec_next_state(nums: Seq<u16>, den: u16, state: u16, m: u16) -> u16 {
    let total = total_numerator(nums, state, m);
    (total ^ (if total & 1 == 1 { den } else { 0u16 })) >> 1
}

/// The output symbol of one step: the input bits with the feedback bit set
/// above them.
pub open spec fn spec_output(nums: Seq<u16>, state: u16, m: u16) -> u16 {
    let total = total_numerator(nums, state, m);
    m ^ ((total & 1) << (nums.len() as u16))
}

/// The number of termination steps that every state is padded to: the
/// ceiling of `(v - 1) / k`.
pub open spec fn termination_length(v: int, k: int) -> int {
    (v - 1 + k - 1) / k
}

/// The state that the encoder reaches from `state` on the symbols `inputs`.
pub open spec fn encoder_follow(nums: Seq<u16>, den: u16, state: u16, inputs: Seq<u16>) -> u16
    decreases inputs.len(),
{
    if inputs.len() == 0 {
        state
    } else {
        spec_next_state(nums, den, encoder_follow(nums, den, state, inputs.drop_last()), inputs.last())
    }
}

/// Some sequence of input symbols drives the encoder from `state` to state
/// zero.
pub open spec fn encoder_reaches_zero(nums: Seq<u16>, den: u16, state: u16) -> bool {
    exists|inputs: Seq<u16>|
        (forall|i: int| 0 <= i < inputs.len() ==> (#[trigger] inputs[i] as nat) < pow2(nums.len()))
            && #[trigger] encoder_follow(nums, den, state, inputs) == 0
}

/// The first reason, if any, for which an encoder description is turned
/// down before any table is computed. The leading coefficient of the
/// denominator is its lowest bit: the place that the feedback division
/// treats as the highest power.
pub open spec fn encoder_error(v: u16, numerators: Seq<u16>, octal_denominator: u16) -> Option<
    TrellisError,
> {
    if v < 2 || v > 16 {
        Some(TrellisError::ConstraintLength)
    } else if numerators.len() == 0 || numerators.len() > 15 {
        Some(TrellisError::InputRails)
    } else if !octal_digits_valid(octal_denominator as nat) || exists|i: int|
        0 <= i < numerators.len() && !octal_digits_valid(#[trigger] numerators[i] as nat) {
        Some(TrellisError::OctalDigit)
    } else if !fits_bits(octal_value(octal_denominator as nat) as u16, v as nat) || exists|i: int|
        0 <= i < numerators.len() && !fits_bits(
            octal_value(#[trigger] numerators[i] as nat) as u16,
            v as nat,
        ) {
        Some(TrellisError::PolynomialWidth)
    } else if octal_value(octal_denominator as nat) % 2 == 0 {
        Some(TrellisError::Denominator)
    } else {
        None
    }
}

/// The transition tables of `t` are those of the encoder with constraint
/// length `v`, the numerators `nums` and the denominator `den`, the
/// polynomials in binary.
pub open spec fn tables_of_encoder(t: &Trellis, v: u16, nums: Seq<u16>, den: u16) -> bool {
    &&& t.wf()
    &&& t.num_states == pow2((v - 1) as nat)
    &&& t.num_input_symbols == pow2(nums.len())
    &&& t.num_output_symbols == pow2(nums.len() + 1)
    &&& forall|s: int, m: int|
        0 <= s < t.num_states && 0 <= m < t.num_input_symbols ==> #[trigger] t.next(s, m)
            == spec_next_state(nums, den, s as u16, m as u16)
    &&& forall|s: int, m: int|
        0 <= s < t.num_states && 0 <= m < t.num_input_symbols ==> #[trigger] t.output(s, m)
            == spec_output(nums, s as u16, m as u16)
}

/// The trellis `t` is the one of the encoder with constraint length `v`, the
/// numerators `nums` and the denominator `den`: its tables are the encoder's,
/// and every state has its termination sequence.
pub open spec fn trellis_of_encoder(t: &Trellis, v: u16, nums: Seq<u16>, den: u16) -> bool {
    &&& tables_of_encoder(t, v, nums, den)
    &&& t.terminations@.len() == t.num_states
    &&& forall|s: int|
        0 <= s < t.num_states ==> t.is_termination(
            s,
            #[trigger] t.terminations@[s]@,
            termination_length(v as int, nums.len() as int),
        )
}

/// Reads the decimal digits of `n` as octal digits.
pub fn parse_octal(n: u16) -> (value: Option<u16>)
    ensures
        value is Some <==> octal_digits_valid(n as nat),
        value is Some ==> value.unwrap() == octal_value(n as nat),
        value is Some ==> value.unwrap() <= n,
    decreases n,
{
    if n < 10 {
        if n < 8 {
            Some(n)
        } else {
            None
        }
    } else {
        let digit: u16 = n % 10;
        if digit >= 8 {
            None
        } else {
            match parse_octal(n / 10) {
                Some(high) => Some(8 * high + digit),
                None => None,
            }
        }
    }
}

/// Bit `d` of an input symbol reversed within `k` bits is bit `k - 1 - d` of
/// the symbol.
proof fn lemma_reversed_symbol_bit(m: u16, k: u16, d: u16)
    by (bit_vector)
    requires
        1 <= k <= 15,
        d < k,
        (m as u32) < (1u32 << k),
    ensures
        ((reverse16(m) >> ((16 - k) as u16)) >> d) & 1 == (m >> ((k - 1 - d) as u16)) & 1,
        ((reverse16(m) >> ((16 - k) as u16)) >> d) & 1 <= 1,
{
}

/// Polynomials that fit `v` bits add up to one that fits `v` bits.
proof fn lemma_xor_fits(a: u16, b: u16, v: u16)
    by (bit_vector)
    requires
        1 <= v <= 16,
        (a as u32) < (1u32 << v),
        (b as u32) < (1u32 << v),
    ensures
        ((a ^ b) as u32) < (1u32 << v),
{
}

/// A state, of `v - 1` bits, fits `v` bits.
proof fn lemma_state_fits(s: u16, v: u16)
    by (bit_vector)
    requires
        2 <= v <= 16,
        (s as u32) < (1u32 << ((v - 1) as u16)),
    ensures
        (s as u32) < (1u32 << v),
{
}

/// What the bit reversals around the feedback division amount to. With the
/// total and the denominator reversed within `v` bits, the denominator's
/// lowest coefficient becomes the leading one, the total's lowest coefficient
/// decides whether one subtraction takes place, and reversing the remainder
/// within `v - 1` bits is a shift of the unreversed difference by one place.
proof fn lemma_reversed_division(total: u16, den: u16, v: u16)
    by (bit_vector)
    requires
        2 <= v <= 16,
        (total as u32) < (1u32 << v),
        (den as u32) < (1u32 << v),
        den & 1 == 1,
    ensures
        ({
            let rt = reverse16(total) >> ((16 - v) as u16);
            let rd = reverse16(den) >> ((16 - v) as u16);
            &&& rd != 0
            &&& (rt as u32) < (1u32 << v)
            &&& (rd as u32) < (1u32 << v)
            &&& (rd >> ((v - 1) as u16)) & 1 == 1
            &&& (rt >> ((v - 1) as u16)) & 1 == total & 1
            &&& total & 1 <= 1
            &&& reverse16(rt ^ rd) >> ((17 - v) as u16) == (total ^ den) >> 1
            &&& reverse16(rt) >> ((17 - v) as u16) == total >> 1
            &&& (((total ^ den) >> 1) as u32) < (1u32 << ((v - 1) as u16))
            &&& ((total >> 1) as u32) < (1u32 << ((v - 1) as u16))
        }),
{
}

/// An output symbol, the input bits with the feedback bit above them, fits
/// `k + 1` bits.
proof fn lemma_output_fits(m: u16, bit: u16, k: u16)
    by (bit_vector)
    requires
        1 <= k <= 15,
        (m as u32) < (1u32 << k),
        bit <= 1,
    ensures
        ((m ^ (bit << k)) as u32) < (1u32 << ((k + 1) as u16)),
        m != 0 ==> (m ^ (bit << k)) != 0,
{
}

/// One step of the encoder from `state` on the input symbol `input`: the next
/// state and the output symbol.
fn transition(v: u16, nums: &Vec<u16>, revved_nums: &Vec<u16>, den: u16, state: u16, input: u16)
    -> (step: (u16, u16))
    requires
        2 <= v <= 16,
        1 <= nums@.len() <= 15,
        revved_nums@ == nums@.reverse(),
        forall|i: int| 0 <= i < nums@.len() ==> (#[trigger] nums@[i] as u32) < (1u32 << v),
        (den as u32) < (1u32 << v),
        den & 1 == 1,
        (state as u32) < (1u32 << ((v - 1) as u16)),
        (input as u32) < (1u32 << (nums@.len() as u16)),
    ensures
        step.0 == spec_next_state(nums@, den, state, input),
        step.1 == spec_output(nums@, state, input),
        (step.0 as u32) < (1u32 << ((v - 1) as u16)),
        (step.1 as u32) < (1u32 << ((nums@.len() + 1) as u16)),
        input != 0 ==> step.1 != 0,
{
    let k: u16 = nums.len() as u16;
    let input_symbol_revved: u16 = swap_bits16(input) >> (16 - k);
    let mut total_numerator: u16 = 0;
    let mut nth_digit: u16 = 0;
    while nth_digit < k
        invariant
            nth_digit <= k,
            k == nums@.len(),
            1 <= k <= 15,
            1 <= v <= 16,
            revved_nums@ == nums@.reverse(),
            forall|i: int| 0 <= i < nums@.len() ==> (#[trigger] nums@[i] as u32) < (1u32 << v),
            (input as u32) < (1u32 << k),
            input_symbol_revved == reverse16(input) >> ((16 - k) as u16),
            total_numerator == numerator_sum(nums@, input, (k - nth_digit) as nat),
            (total_numerator as u32) < (1u32 << v),
        decreases k - nth_digit,
    {
        proof {
            lemma_reversed_symbol_bit(input, k, nth_digit);
        }
        let nth_bit: u16 = (input_symbol_revved >> nth_digit) & 1;
        let numerator: u16 = revved_nums[nth_digit as usize];
        assert(numerator == nums@[k - 1 - nth_digit]);
        let term: u16 = poly_mul_bit(numerator, nth_bit);
        proof {
            assert((0u16 as u32) < (1u32 << v)) by (bit_vector)
                requires
                    1 <= v <= 16,
            ;
            lemma_xor_fits(total_numerator, term, v);
        }
        total_numerator = poly_add(total_numerator, term);
        nth_digit = nth_digit + 1;
    }
    proof {
        lemma_state_fits(state, v);
        lemma_xor_fits(total_numerator, state, v);
    }
    total_numerator = poly_add(total_numerator, state);
    assert(total_numerator == self::total_numerator(nums@, state, input));

    let revved_total_num: u16 = swap_bits16(total_numerator) >> (16 - v);
    let revved_denom: u16 = swap_bits16(den) >> (16 - v);
    proof {
        lemma_reversed_division(total_numerator, den, v);
        lemma_leading_zeros_of_width(revved_denom, v);
        lemma_leading_zeros_of_width(revved_total_num, v);
    }
    let quotient: u16 = poly_div(revved_total_num, revved_denom);
    let remainder: u16 = poly_rem(revved_total_num, revved_denom);
    let revved_remainder: u16 = swap_bits16(remainder) >> (16 - v + 1);
    proof {
        lemma_output_fits(input, quotient, k);
        let shift: u16 = (17 - v) as u16;
        assert(revved_remainder == reverse16(remainder) >> shift);
        if total_numerator & 1 == 1 {
            assert(quotient == 1);
            assert(remainder == revved_total_num ^ revved_denom);
            assert(revved_remainder == (total_numerator ^ den) >> 1);
        } else {
            assert(total_numerator & 1 == 0);
            assert(quotient == 0);
            assert(remainder == revved_total_num);
            assert(total_numerator ^ 0u16 == total_numerator) by (bit_vector);
        }
    }
    let output: u16 = poly_add(input, poly_shl(quotient, k));
    (revved_remainder, output)
}

/// A path stays among the states.
pub proof fn lemma_follow_in_range(t: &Trellis, s: int, inputs: Seq<u16>)
    requires
        t.wf(),
        0 <= s < t.num_states,
        t.valid_inputs(inputs),
    ensures
        0 <= t.follow(s, inputs) < t.num_states,
    decreases inputs.len(),
{
    if inputs.len() > 0 {
        lemma_follow_in_range(t, s, inputs.drop_last());
    }
}

/// `2^n` for an exponent of at most sixteen.
fn power_of_two(n: u16) -> (power: usize)
    requires
        n <= 16,
    ensures
        power == pow2(n as nat),
        power == (1u32 << n),
        1 <= power <= 0x10000,
        n <= 15 ==> power <= 0x8000,
{
    let power: u32 = 1u32 << (n as u32);
    proof {
        vstd::bits::lemma_u32_pow2_no_overflow(n as nat);
        vstd::bits::lemma_u32_shl_is_mul(1u32, n as u32);
        assert(1u32 << (n as u32) == 1u32 << n) by (bit_vector)
            requires
                n <= 16,
        ;
        assert(1 <= (1u32 << n) <= 0x10000) by (bit_vector)
            requires
                n <= 16,
        ;
        assert(n <= 15 ==> (1u32 << n) <= 0x8000) by (bit_vector);
    }
    power as usize
}

/// `x < 2^n` says the same in words of bits and in numbers.
proof fn lemma_fits_bits(x: u16, n: u16)
    requires
        n <= 16,
    ensures
        fits_bits(x, n as nat) <==> (x as u32) < (1u32 << n),
{
    vstd::bits::lemma_u32_pow2_no_overflow(n as nat);
    vstd::bits::lemma_u32_shl_is_mul(1u32, n as u32);
    assert(1u32 << (n as u32) == 1u32 << n) by (bit_vector)
        requires
            n <= 16,
    ;
    assert(n == 16 ==> (x as u32) < (1u32 << n)) by (bit_vector);
}

/// With no input bit set, no numerator is selected.
proof fn lemma_numerator_sum_zero(nums: Seq<u16>, lo: nat)
    ensures
        numerator_sum(nums, 0, lo) == 0,
    decreases nums.len() - lo,
{
    if lo < nums.len() {
        lemma_numerator_sum_zero(nums, lo + 1);
        let shift = lo as u16;
        assert((0u16 >> shift) & 1 != 1) by (bit_vector);
        assert(0u16 ^ 0u16 == 0u16) by (bit_vector);
    }
}

/// On a trellis whose transitions are those of an encoder, a path leads
/// where the encoder goes.
proof fn lemma_follow_is_encoder_follow(
    t: &Trellis,
    nums: Seq<u16>,
    den: u16,
    s: int,
    inputs: Seq<u16>,
)
    requires
        t.wf(),
        forall|s: int, m: int|
            0 <= s < t.num_states && 0 <= m < t.num_input_symbols ==> #[trigger] t.next(s, m)
                == spec_next_state(nums, den, s as u16, m as u16),
        0 <= s < t.num_states,
        t.valid_inputs(inputs),
    ensures
        0 <= t.follow(s, inputs) < t.num_states,
        t.follow(s, inputs) == encoder_follow(nums, den, s as u16, inputs),
    decreases inputs.len(),
{
    if inputs.len() > 0 {
        lemma_follow_is_encoder_follow(t, nums, den, s, inputs.drop_last());
        assert(t.valid_inputs(inputs.drop_last()));
    }
}

/// Computes the two transition tables of the rate k/(k+1) feedback encoder
/// with constraint length `v`, the `k` numerators and the denominator, the
/// polynomials written in octal digits. No termination sequence is computed,
/// and the tables are returned whether or not every state can be driven back
/// to state zero.
pub fn generate_transition_tables(v: u16, numerators: &[u16], octal_denominator: u16) -> (result:
    Result<Trellis, TrellisError>)
    ensures
        match result {
            Ok(t) => {
                &&& encoder_error(v, numerators@, octal_denominator) is None
                &&& tables_of_encoder(
                    &t,
                    v,
                    octal_values(numerators@),
                    octal_value(octal_denominator as nat) as u16,
                )
                &&& t.next(0, 0) == 0
                &&& t.outputs_carry_inputs()
                &&& t.terminations@.len() == 0
            },
            Err(e) => encoder_error(v, numerators@, octal_denominator) == Some(e),
        },
{
    if v < 2 || v > 16 {
        return Err(TrellisError::ConstraintLength);
    }
    if numerators.len() == 0 || numerators.len() > 15 {
        return Err(TrellisError::InputRails);
    }
    let k: u16 = numerators.len() as u16;
    let n: u16 = k + 1;

    let decimal_denominator: u16 = match parse_octal(octal_denominator) {
        Some(value) => value,
        None => {
            return Err(TrellisError::OctalDigit);
        },
    };
    let mut nums: Vec<u16> = Vec::new();
    let mut i: usize = 0;
    while i < numerators.len()
        invariant
            2 <= v <= 16,
            1 <= numerators@.len() <= 15,
            i <= numerators@.len(),
            nums@.len() == i,
            forall|j: int| 0 <= j < i ==> octal_digits_valid(#[trigger] numerators@[j] as nat),
            forall|j: int| 0 <= j < i ==> #[trigger] nums@[j] == octal_value(numerators@[j] as nat),
        decreases numerators@.len() - i,
    {
        match parse_octal(numerators[i]) {
            Some(value) => {
                nums.push(value);
            },
            None => {
                assert(!octal_digits_valid(numerators@[i as int] as nat));
                return Err(TrellisError::OctalDigit);
            },
        }
        i += 1;
    }
    assert(nums@ =~= octal_values(numerators@));
    assert(forall|j: int|
        0 <= j < numerators@.len() ==> octal_digits_valid(#[trigger] numerators@[j] as nat));

    proof {
        lemma_fits_bits(decimal_denominator, v);
    }
    if (decimal_denominator as u32) >= (1u32 << (v as u32)) {
        return Err(TrellisError::PolynomialWidth);
    }
    let mut i: usize = 0;
    while i < nums.len()
        invariant
            i <= nums@.len(),
            2 <= v <= 16,
            1 <= numerators@.len() <= 15,
            octal_digits_valid(octal_denominator as nat),
            decimal_denominator == octal_value(octal_denominator as nat),
            fits_bits(decimal_denominator, v as nat),
            forall|j: int|
                0 <= j < numerators@.len() ==> octal_digits_valid(#[trigger] numerators@[j] as nat),
            nums@ == octal_values(numerators@),
            forall|j: int| 0 <= j < i ==> (#[trigger] nums@[j] as u32) < (1u32 << v),
            forall|j: int|
                0 <= j < i ==> fits_bits(octal_value(#[trigger] numerators@[j] as nat) as u16, v as nat),
        decreases nums@.len() - i,
    {
        proof {
            lemma_fits_bits(nums@[i as int], v);
            assert(nums@[i as int] == octal_value(numerators@[i as int] as nat) as u16);
        }
        if (nums[i] as u32) >= (1u32 << (v as u32)) {
            assert(!fits_bits(octal_value(numerators@[i as int] as nat) as u16, v as nat));
            return Err(TrellisError::PolynomialWidth);
        }
        i += 1;
    }
    assert(decimal_denominator & 1 == decimal_denominator % 2) by (bit_vector);
    if decimal_denominator & 1 == 0 {
        return Err(TrellisError::Denominator);
    }
    assert(encoder_error(v, numerators@, octal_denominator) is None);

    // The numerators in reverse, to go with the bits of a reversed input symbol.
    let mut revved_nums: Vec<u16> = Vec::new();
    let mut i: usize = nums.len();
    while i > 0
        invariant
            i <= nums@.len(),
            revved_nums@.len() == nums@.len() - i,
            forall|j: int|
                0 <= j < revved_nums@.len() ==> #[trigger] revved_nums@[j] == nums@[nums@.len() - 1
                    - j],
        decreases i,
    {
        i -= 1;
        revved_nums.push(nums[i]);
    }
    assert(revved_nums@ =~= nums@.reverse());

    let num_input_symbols: usize = power_of_two(k);
    let num_output_symbols: usize = power_of_two(n);
    let num_states: usize = power_of_two(v - 1);
    assert(num_states * num_input_symbols <= 0x8000 * 0x8000) by (nonlinear_arith)
        requires
            num_states <= 0x8000,
            num_input_symbols <= 0x8000,
    ;
    let mut next_states: Vec2d<u16> = Vec2d::new(
        Fill(0, num_states * num_input_symbols),
        num_states,
        num_input_symbols,
    );
    let mut outputs: Vec2d<u16> = Vec2d::new(
        Fill(0, num_states * num_input_symbols),
        num_states,
        num_input_symbols,
    );

    let mut current_state: usize = 0;
    while current_state < num_states
        invariant
            2 <= v <= 16,
            k == nums@.len(),
            1 <= k <= 15,
            revved_nums@ == nums@.reverse(),
            forall|j: int| 0 <= j < nums@.len() ==> (#[trigger] nums@[j] as u32) < (1u32 << v),
            (decimal_denominator as u32) < (1u32 << v),
            decimal_denominator & 1 == 1,
            num_states == (1u32 << ((v - 1) as u16)),
            num_input_symbols == (1u32 << k),
            num_states <= 0x8000,
            num_input_symbols <= 0x8000,
            current_state <= num_states,
            next_states.wf(),
            next_states.row == num_states,
            next_states.col == num_input_symbols,
            outputs.wf(),
            outputs.row == num_states,
            outputs.col == num_input_symbols,
            forall|s: int, m: int|
                0 <= s < current_state && 0 <= m < num_input_symbols ==> #[trigger] next_states.entry(
                    s,
                    m,
                ) == spec_next_state(nums@, decimal_denominator, s as u16, m as u16)
                    && next_states.entry(s, m) < num_states,
            forall|s: int, m: int|
                0 <= s < current_state && 0 <= m < num_input_symbols ==> #[trigger] outputs.entry(
                    s,
                    m,
                ) == spec_output(nums@, s as u16, m as u16) && (m != 0 ==> outputs.entry(s, m)
                    != 0),
        decreases num_states - current_state,
    {
        let mut input_symbol: usize = 0;
        while input_symbol < num_input_symbols
            invariant
                2 <= v <= 16,
                k == nums@.len(),
                1 <= k <= 15,
                revved_nums@ == nums@.reverse(),
                forall|j: int| 0 <= j < nums@.len() ==> (#[trigger] nums@[j] as u32) < (1u32 << v),
                (decimal_denominator as u32) < (1u32 << v),
                decimal_denominator & 1 == 1,
                num_states == (1u32 << ((v - 1) as u16)),
                num_input_symbols == (1u32 << k),
                num_states <= 0x8000,
                num_input_symbols <= 0x8000,
                current_state < num_states,
                input_symbol <= num_input_symbols,
                next_states.wf(),
                next_states.row == num_states,
                next_states.col == num_input_symbols,
                outputs.wf(),
                outputs.row == num_states,
                outputs.col == num_input_symbols,
                forall|s: int, m: int|
                    (0 <= s < current_state && 0 <= m < num_input_symbols) || (s == current_state
                        && 0 <= m < input_symbol) ==> #[trigger] next_states.entry(s, m)
                        == spec_next_state(nums@, decimal_denominator, s as u16, m as u16)
                        && next_states.entry(s, m) < num_states,
                forall|s: int, m: int|
                    (0 <= s < current_state && 0 <= m < num_input_symbols) || (s == current_state
                        && 0 <= m < input_symbol) ==> #[trigger] outputs.entry(s, m) == spec_output(
                        nums@,
                        s as u16,
                        m as u16,
                    ) && (m != 0 ==> outputs.entry(s, m) != 0),
            decreases num_input_symbols - input_symbol,
        {
            let step = transition(
                v,
                &nums,
                &revved_nums,
                decimal_denominator,
                current_state as u16,
                input_symbol as u16,
            );
            *next_states.index_mut(current_state, input_symbol) = step.0;
            *outputs.index_mut(current_state, input_symbol) = step.1;
            input_symbol += 1;
        }
        current_state += 1;
    }

    let trellis = Trellis {
        num_input_symbols,
        num_output_symbols,
        num_states,
        next_states,
        outputs,
        terminations: Vec::new(),
    };
    proof {
        lemma_numerator_sum_zero(nums@, 0);
        assert(0u16 ^ 0u16 == 0u16) by (bit_vector);
        assert(0u16 & 1 != 1) by (bit_vector);
        assert(0u16 >> 1 == 0u16) by (bit_vector);
        assert(trellis.next(0, 0) == spec_next_state(nums@, decimal_denominator, 0, 0));
    }
    Ok(trellis)
}

/// Builds the trellis of the rate k/(k+1) feedback encoder with constraint
/// length `v`, the `k` numerators and the denominator, the polynomials written
/// in octal digits. The result is the trellis of that encoder, with a
/// termination sequence for every state; or the reason why the description
/// is turned down, which for an encoder that passes every check on its
/// numbers is that some state cannot be driven back to state zero.
pub fn generate_feedback_trellis(v: u16, numerators: &[u16], octal_denominator: u16) -> (result:
    Result<Trellis, TrellisError>)
    ensures
        match result {
            Ok(t) => {
                &&& encoder_error(v, numerators@, octal_denominator) is None
                &&& trellis_of_encoder(
                    &t,
                    v,
                    octal_values(numerators@),
                    octal_value(octal_denominator as nat) as u16,
                )
                &&& t.outputs_carry_inputs()
                &&& forall|s: int|
                    0 <= s < t.num_states ==> #[trigger] t.follow(s, t.terminations@[s]@) == 0
                &&& forall|s: u16|
                    (s as nat) < pow2((v - 1) as nat) ==> #[trigger] encoder_reaches_zero(
                        octal_values(numerators@),
                        octal_value(octal_denominator as nat) as u16,
                        s,
                    )
            },
            Err(e) => {
                ||| encoder_error(v, numerators@, octal_denominator) == Some(e)
                ||| {
                    &&& encoder_error(v, numerators@, octal_denominator) is None
                    &&& e == TrellisError::Unreachable
                    &&& exists|s: u16|
                        (s as nat) < pow2((v - 1) as nat) && !#[trigger] encoder_reaches_zero(
                            octal_values(numerators@),
                            octal_value(octal_denominator as nat) as u16,
                            s,
                        )
                }
            },
        },
{
    let mut trellis = match generate_transition_tables(v, numerators, octal_denominator) {
        Ok(tables) => tables,
        Err(e) => {
            return Err(e);
        },
    };
    let k: u16 = numerators.len() as u16;
    let ghost nums = octal_values(numerators@);
    let ghost decimal_denominator = octal_value(octal_denominator as nat) as u16;
    let num_transitions: usize = ((v - 1 + k - 1) / k) as usize;
    match shortest_terminations(&trellis, num_transitions) {
        Some(terminations) => {
            trellis.terminations = terminations;
            proof {
                assert forall|s: u16| (s as nat) < pow2((v - 1) as nat) implies #[trigger] encoder_reaches_zero(
                    nums,
                    decimal_denominator,
                    s,
                ) by {
                    let inputs = trellis.terminations@[s as int]@;
                    assert(trellis.is_termination(s as int, inputs, num_transitions as int));
                    lemma_follow_is_encoder_follow(
                        &trellis,
                        nums,
                        decimal_denominator,
                        s as int,
                        inputs,
                    );
                }
            }
            Ok(trellis)
        },
        None => {
            proof {
                let s = choose|s: int| 0 <= s < trellis.num_states && !trellis.reaches_zero(s);
                let state = s as u16;
                if encoder_reaches_zero(nums, decimal_denominator, state) {
                    let inputs = choose|inputs: Seq<u16>|
                        (forall|i: int|
                            0 <= i < inputs.len() ==> (#[trigger] inputs[i] as nat) < pow2(
                                nums.len(),
                            )) && #[trigger] encoder_follow(
                            nums,
                            decimal_denominator,
                            state,
                            inputs,
                        ) == 0;
                    lemma_follow_is_encoder_follow(&trellis, nums, decimal_denominator, s, inputs);
                    assert(trellis.follow(s, inputs) == 0);
                }
                assert(!encoder_reaches_zero(nums, decimal_denominator, state));
            }
            Err(TrellisError::Unreachable)
        },
    }
}

} // verus!
