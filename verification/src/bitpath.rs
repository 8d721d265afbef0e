//! Paths through a trellis as bit sequences of any length. A path keeps its
//! bits in the `BitVec` of the `bitvec` crate; this module states what such a
//! vector holds and what each call that the analysis makes does to it.

use vstd::prelude::*;
use bitvec::vec::BitVec;

verus! {

/// A growable sequence of bits, one symbol's worth of bits for each step of a
/// path. The bits live in a `bitvec::vec::BitVec`, which the verifier does
/// not look into: what it knows of a path is what [`path_bits`] names.
#[verifier::external_body]
#[derive(Debug)]
pub struct BitPath {
    bits: BitVec,
}

/// The bits that a path holds, first to last.
pub uninterp spec fn path_bits(path: BitPath) -> Seq<bool>;

impl View for BitPath {
    type V = Seq<bool>;

    open spec fn view(&self) -> Seq<bool> {
        path_bits(*self)
    }
}

impl DeepView for BitPath {
    type V = Seq<bool>;

    open spec fn deep_view(&self) -> Seq<bool> {
        path_bits(*self)
    }
}

/// The greatest number of bits that a bit vector can hold: an eighth of the
/// range of `usize`.
pub open spec fn max_bits() -> int {
    (usize::MAX / 8) as int
}

/// `BitVec::new` makes a vector that holds no bit.
#[verifier::external_body]
pub(crate) fn bv_new() -> (b: BitPath)
    ensures
        path_bits(b) == Seq::<bool>::empty(),
{
    BitPath { bits: BitVec::new() }
}

/// `BitVec::len` is the number of bits held.
#[verifier::external_body]
pub(crate) fn bv_len(b: &BitPath) -> (n: usize)
    ensures
        n == path_bits(*b).len(),
{
    b.bits.len()
}

/// Indexing a `BitVec` by a position below its length reads that bit.
#[verifier::external_body]
pub(crate) fn bv_get(b: &BitPath, i: usize) -> (bit: bool)
    requires
        i < path_bits(*b).len(),
    ensures
        bit == path_bits(*b)[i as int],
{
    b.bits[i]
}

/// `BitVec::clone` copies the bits into a new vector.
#[verifier::external_body]
pub(crate) fn bv_clone(b: &BitPath) -> (copy: BitPath)
    ensures
        path_bits(copy) == path_bits(*b),
{
    BitPath { bits: b.bits.clone() }
}

/// `BitVec::push` appends one bit; it panics only where the vector would
/// outgrow the greatest length.
#[verifier::external_body]
pub(crate) fn bv_push(b: &mut BitPath, value: bool)
    requires
        path_bits(*old(b)).len() < max_bits(),
    ensures
        path_bits(*final(b)) == path_bits(*old(b)).push(value),
{
    b.bits.push(value)
}

/// `BitVec::resize` cuts the vector down to `new_len` bits, or fills it up to
/// that length with copies of `value`.
#[verifier::external_body]
pub(crate) fn bv_resize(b: &mut BitPath, new_len: usize, value: bool)
    requires
        new_len <= max_bits(),
    ensures
        path_bits(*final(b)) == resized(path_bits(*old(b)), new_len as int, value),
{
    b.bits.resize(new_len, value)
}

/// `BitVec::extend_from_bitslice` appends a copy of the bits of another
/// vector.
#[verifier::external_body]
pub(crate) fn bv_extend_from(b: &mut BitPath, other: &BitPath)
    requires
        path_bits(*old(b)).len() + path_bits(*other).len() <= max_bits(),
    ensures
        path_bits(*final(b)) == path_bits(*old(b)) + path_bits(*other),
{
    b.bits.extend_from_bitslice(other.bits.as_bitslice())
}

/// `Extend::extend` on a `BitVec`, handed the vector that `BitVec::repeat`
/// makes of `count` zero bits, appends that many zero bits.
#[verifier::external_body]
pub(crate) fn bv_extend_zeros(b: &mut BitPath, count: usize)
    requires
        path_bits(*old(b)).len() + count <= max_bits(),
    ensures
        path_bits(*final(b)) == path_bits(*old(b)) + zeros(count as int),
{
    b.bits.extend(BitVec::<usize, bitvec::order::Lsb0>::repeat(false, count))
}

/// The `k` bits of the input symbol `m`, highest first.
pub open spec fn symbol_bits(m: u16, k: nat) -> Seq<bool> {
    Seq::new(k, |i: int| (m >> ((k - 1 - i) as u16)) & 1 == 1)
}

/// The bits `prefix` followed by the `k` bits of the input symbol `m`.
pub open spec fn with_symbol(prefix: Seq<bool>, m: u16, k: nat) -> Seq<bool> {
    prefix + symbol_bits(m, k)
}

/// A sequence of input symbols written as bits, `k` bits for each symbol.
pub open spec fn encode(symbols: Seq<u16>, k: nat) -> Seq<bool>
    decreases symbols.len(),
{
    if symbols.len() == 0 {
        Seq::<bool>::empty()
    } else {
        with_symbol(encode(symbols.drop_last(), k), symbols.last(), k)
    }
}

/// A sequence of symbols takes `k` bits for each of them.
pub proof fn lemma_encode_len(symbols: Seq<u16>, k: nat)
    ensures
        encode(symbols, k).len() == symbols.len() * k,
    decreases symbols.len(),
{
    if symbols.len() > 0 {
        lemma_encode_len(symbols.drop_last(), k);
        assert((symbols.len() - 1) * k + k == symbols.len() * k) by (nonlinear_arith);
    }
}

/// Two input symbols of `k` bits with the same bits are the same symbol.
pub proof fn lemma_symbol_bits_injective(m1: u16, m2: u16, k: u16)
    requires
        k <= 16,
        (m1 as u32) < (1u32 << k),
        (m2 as u32) < (1u32 << k),
        symbol_bits(m1, k as nat) == symbol_bits(m2, k as nat),
    ensures
        m1 == m2,
    decreases k,
{
    if k == 0 {
        assert(m1 == 0 && m2 == 0) by (bit_vector)
            requires
                (m1 as u32) < (1u32 << 0u16),
                (m2 as u32) < (1u32 << 0u16),
        ;
    } else {
        let h1: u16 = m1 >> 1;
        let h2: u16 = m2 >> 1;
        let less: u16 = (k - 1) as u16;
        assert((h1 as u32) < (1u32 << less) && (h2 as u32) < (1u32 << less)) by (bit_vector)
            requires
                1 <= k <= 16,
                less == k - 1,
                h1 == m1 >> 1,
                h2 == m2 >> 1,
                (m1 as u32) < (1u32 << k),
                (m2 as u32) < (1u32 << k),
        ;
        let a = symbol_bits(m1, k as nat);
        let b = symbol_bits(m2, k as nat);
        assert forall|i: int| 0 <= i < less implies symbol_bits(h1, less as nat)[i] == symbol_bits(
            h2,
            less as nat,
        )[i] by {
            let shift: u16 = (less - 1 - i) as u16;
            let up: u16 = (k - 1 - i) as u16;
            assert(a[i] == b[i]);
            assert((h1 >> shift) & 1 == (m1 >> up) & 1 && (h2 >> shift) & 1 == (m2 >> up) & 1)
                by (bit_vector)
                requires
                    h1 == m1 >> 1,
                    h2 == m2 >> 1,
                    up == shift + 1,
                    up < 16,
            ;
        }
        assert(symbol_bits(h1, less as nat) =~= symbol_bits(h2, less as nat));
        lemma_symbol_bits_injective(h1, h2, less);
        assert(a[k - 1] == b[k - 1]);
        assert(m1 == m2) by (bit_vector)
            requires
                m1 >> 1 == m2 >> 1,
                ((m1 >> 0u16) & 1 == 1) == ((m2 >> 0u16) & 1 == 1),
        ;
    }
}

/// Two sequences of equal length, each with something behind it, give the
/// same whole only where they are the same and what is behind them is.
pub proof fn lemma_concat_injective(a: Seq<bool>, x: Seq<bool>, b: Seq<bool>, y: Seq<bool>)
    requires
        a.len() == b.len(),
        a + x == b + y,
    ensures
        a == b,
        x == y,
{
    let whole = a + x;
    assert(a =~= whole.take(a.len() as int));
    assert(b =~= (b + y).take(b.len() as int));
    assert(x =~= whole.skip(a.len() as int));
    assert(y =~= (b + y).skip(b.len() as int));
}

/// `count` zero bits.
pub open spec fn zeros(count: int) -> Seq<bool> {
    Seq::new(count as nat, |i: int| false)
}

/// The first `new_len` bits of `s`, with copies of `value` where `s` is
/// shorter than that.
pub open spec fn resized(s: Seq<bool>, new_len: int, value: bool) -> Seq<bool> {
    Seq::new(new_len as nat, |i: int| if i < s.len() { s[i] } else { value })
}

/// Appends the `k` bits of the input symbol `m` to `path`, highest first.
pub(crate) fn push_symbol(path: &mut BitPath, m: u16, k: u16)
    requires
        k <= 16,
        old(path)@.len() + k <= max_bits(),
    ensures
        final(path)@ == with_symbol(old(path)@, m, k as nat),
{
    let ghost before = path@;
    let mut n: u16 = k;
    while n > 0
        invariant
            n <= k,
            k <= 16,
            before.len() + k <= max_bits(),
            path@.len() == before.len() + (k - n),
            path@ == before + symbol_bits(m, k as nat).take(k - n),
        decreases n,
    {
        n -= 1;
        let bit: u16 = (m >> n) & 1;
        bv_push(path, bit != 0);
        proof {
            assert(bit == 0 || bit == 1) by (bit_vector)
                requires
                    bit == (m >> n) & 1,
            ;
            let all = symbol_bits(m, k as nat);
            assert(all[k - 1 - n] == (bit != 0));
            assert(all.take(k - n) =~= all.take(k - n - 1).push(bit != 0));
            assert(path@ =~= before + all.take(k - n));
        }
    }
    assert(symbol_bits(m, k as nat).take(k as int) =~= symbol_bits(m, k as nat));
}

impl BitPath {
    /// The path that holds the given bits.
    pub fn from_bools(bools: &Vec<bool>) -> (path: BitPath)
        requires
            bools@.len() <= max_bits(),
        ensures
            path@ == bools@,
    {
        let mut path = bv_new();
        let mut i: usize = 0;
        while i < bools.len()
            invariant
                i <= bools@.len(),
                bools@.len() <= max_bits(),
                path@ == bools@.take(i as int),
            decreases bools@.len() - i,
        {
            bv_push(&mut path, bools[i]);
            i += 1;
            assert(path@ =~= bools@.take(i as int));
        }
        assert(bools@.take(i as int) =~= bools@);
        path
    }

    /// The bits of the path, first to last.
    pub fn to_bools(&self) -> (bools: Vec<bool>)
        ensures
            bools@ == self@,
    {
        let mut bools: Vec<bool> = Vec::new();
        let len = bv_len(self);
        let mut i: usize = 0;
        while i < len
            invariant
                i <= len,
                len == self@.len(),
                bools@ == self@.take(i as int),
            decreases len - i,
        {
            bools.push(bv_get(self, i));
            i += 1;
            assert(bools@ =~= self@.take(i as int));
        }
        assert(self@.take(i as int) =~= self@);
        bools
    }

    /// The number of bits of the path.
    pub fn len(&self) -> (n: usize)
        ensures
            n == self@.len(),
    {
        bv_len(self)
    }
}

} // verus!
