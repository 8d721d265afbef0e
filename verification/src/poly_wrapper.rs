//! Polynomials whose coefficients are counts of any size. A coefficient is a
//! `BigUint` of the `num_bigint` crate, which does the arithmetic on
//! numbers; the arithmetic on polynomials is done here.

use vstd::prelude::*;
use num_bigint::BigUint;
use num_traits::One;
use num_traits::Zero;

verus! {

/// `num_bigint::BigUint`, known to the verifier by name only.
#[verifier::external_type_specification]
#[verifier::external_body]
pub struct ExBigUint(BigUint);

/// The number that a big unsigned integer holds.
pub uninterp spec fn big_value(n: BigUint) -> nat;

/// `BigUint::from` on a `usize` makes the big integer of the same value.
#[verifier::external_body]
fn big_from(n: usize) -> (r: BigUint)
    ensures
        big_value(r) == n,
{
    BigUint::from(n)
}

/// `+` on two `BigUint` is their sum.
#[verifier::external_body]
fn big_add(a: BigUint, b: BigUint) -> (r: BigUint)
    ensures
        big_value(r) == big_value(a) + big_value(b),
{
    a + b
}

/// `*` on two `BigUint` is their product.
#[verifier::external_body]
fn big_mul(a: BigUint, b: BigUint) -> (r: BigUint)
    ensures
        big_value(r) == big_value(a) * big_value(b),
{
    a * b
}

/// `Zero::is_zero` on a `BigUint` tells whether its value is zero.
#[verifier::external_body]
fn big_is_zero(a: &BigUint) -> (r: bool)
    ensures
        r == (big_value(*a) == 0),
{
    a.is_zero()
}

/// `One::is_one` on a `BigUint` tells whether its value is one.
#[verifier::external_body]
fn big_is_one(a: &BigUint) -> (r: bool)
    ensures
        r == (big_value(*a) == 1),
{
    a.is_one()
}

/// `==` on two `BigUint` tells whether their values are equal.
#[verifier::external_body]
fn big_eq(a: &BigUint, b: &BigUint) -> (r: bool)
    ensures
        r == (big_value(*a) == big_value(*b)),
{
    a == b
}

/// `BigUint::clone` makes a big integer of the same value.
#[verifier::external_body]
fn big_clone(a: &BigUint) -> (r: BigUint)
    ensures
        big_value(r) == big_value(*a),
{
    a.clone()
}

/// A count of any size, as a coefficient of a polynomial.
#[derive(Debug)]
pub struct BigUintWrapper(pub BigUint);

impl View for BigUintWrapper {
    type V = nat;

    open spec fn view(&self) -> nat {
        big_value(self.0)
    }
}

impl DeepView for BigUintWrapper {
    type V = nat;

    open spec fn deep_view(&self) -> nat {
        big_value(self.0)
    }
}

/// Turns a big integer into a coefficient.
pub trait BigUintToWrapped {
    fn wrap(self) -> BigUintWrapper;
}

impl BigUintToWrapped for BigUint {
    fn wrap(self) -> (wrapped: BigUintWrapper)
        ensures
            wrapped@ == big_value(self),
    {
        BigUintWrapper(self)
    }
}

impl BigUintWrapper {
    /// The coefficient of the given value.
    pub fn from_usize(n: usize) -> (r: Self)
        ensures
            r@ == n,
    {
        BigUintWrapper(big_from(n))
    }

    /// The sum of two coefficients.
    pub fn add(self, rhs: Self) -> (r: Self)
        ensures
            r@ == self@ + rhs@,
    {
        BigUintWrapper(big_add(self.0, rhs.0))
    }

    /// The product of two coefficients.
    pub fn mul(self, rhs: Self) -> (r: Self)
        ensures
            r@ == self@ * rhs@,
    {
        BigUintWrapper(big_mul(self.0, rhs.0))
    }

    /// The coefficient zero.
    pub fn zero() -> (r: Self)
        ensures
            r@ == 0,
    {
        BigUintWrapper(big_from(0 as usize))
    }

    /// Whether the coefficient is zero.
    pub fn is_zero(&self) -> (r: bool)
        ensures
            r == (self@ == 0),
    {
        big_is_zero(&self.0)
    }

    /// The coefficient one.
    pub fn one() -> (r: Self)
        ensures
            r@ == 1,
    {
        BigUintWrapper(big_from(1 as usize))
    }

    /// Whether the coefficient is one.
    pub fn is_one(&self) -> (r: bool)
        ensures
            r == (self@ == 1),
    {
        big_is_one(&self.0)
    }

    /// A coefficient of the same value.
    pub fn duplicate(&self) -> (r: Self)
        ensures
            r@ == self@,
    {
        BigUintWrapper(big_clone(&self.0))
    }

    /// Whether the coefficient has the value `n`.
    pub fn equals_usize(&self, n: usize) -> (r: bool)
        ensures
            r == (self@ == n),
    {
        let other = big_from(n);
        big_eq(&self.0, &other)
    }
}

/// The degree of the polynomial with the coefficients `p`: the place of its
/// last coefficient that is not zero, if it has one.
pub open spec fn degree_of(p: Seq<nat>) -> Option<int>
    decreases p.len(),
{
    if p.len() == 0 {
        None
    } else if p.last() != 0 {
        Some(p.len() - 1)
    } else {
        degree_of(p.drop_last())
    }
}

/// Coefficient `i` of the polynomial with the coefficients `p`, lowest
/// first: zero beyond the last.
pub open spec fn coeff(p: Seq<nat>, i: int) -> nat {
    if 0 <= i < p.len() {
        p[i]
    } else {
        0
    }
}

/// The part of coefficient `n` of the product of `a` and `b` that the first
/// `upto` coefficients of `a` contribute.
pub open spec fn convolution(a: Seq<nat>, b: Seq<nat>, n: int, upto: int) -> nat
    decreases upto,
{
    if upto <= 0 {
        0
    } else {
        convolution(a, b, n, upto - 1) + coeff(a, upto - 1) * coeff(b, n - (upto - 1))
    }
}

/// Coefficient `n` of the product of the polynomials `a` and `b`.
pub open spec fn product_coeff(a: Seq<nat>, b: Seq<nat>, n: int) -> nat {
    convolution(a, b, n, n + 1)
}

/// Coefficients of `a` beyond its last contribute nothing to a product.
pub proof fn lemma_convolution_beyond(a: Seq<nat>, b: Seq<nat>, n: int, upto: int)
    requires
        upto >= a.len(),
    ensures
        convolution(a, b, n, upto) == convolution(a, b, n, a.len() as int),
    decreases upto,
{
    if upto > a.len() {
        lemma_convolution_beyond(a, b, n, upto - 1);
        assert(coeff(a, upto - 1) * coeff(b, n - (upto - 1)) == 0) by (nonlinear_arith)
            requires
                coeff(a, upto - 1) == 0,
        ;
    }
}

/// Where `b` has no coefficient to meet them, coefficients of `a` contribute
/// nothing to a product.
pub proof fn lemma_convolution_below(a: Seq<nat>, b: Seq<nat>, n: int, upto: int)
    requires
        upto <= n - b.len() + 1,
    ensures
        convolution(a, b, n, upto) == 0,
    decreases upto,
{
    if upto > 0 {
        lemma_convolution_below(a, b, n, upto - 1);
        assert(coeff(a, upto - 1) * coeff(b, n - (upto - 1)) == 0) by (nonlinear_arith)
            requires
                coeff(b, n - (upto - 1)) == 0,
        ;
    }
}

/// A polynomial with counts as coefficients, lowest first.
#[derive(Debug)]
pub struct PolyWrapper {
    pub coeffs: Vec<BigUintWrapper>,
}

impl View for PolyWrapper {
    type V = Seq<nat>;

    open spec fn view(&self) -> Seq<nat> {
        self.coeffs.deep_view()
    }
}

impl DeepView for PolyWrapper {
    type V = Seq<nat>;

    open spec fn deep_view(&self) -> Seq<nat> {
        self.coeffs.deep_view()
    }
}

/// Turns a list of coefficients into a polynomial.
pub trait PolyToWrapped {
    fn wrap(self) -> PolyWrapper;
}

impl PolyToWrapped for Vec<BigUintWrapper> {
    fn wrap(self) -> (wrapped: PolyWrapper)
        ensures
            wrapped@ == self.deep_view(),
    {
        PolyWrapper { coeffs: self }
    }
}

/// Turns a polynomial into the list of its coefficients.
pub trait WrappedToPoly {
    fn unwrap(self) -> Vec<BigUintWrapper>;
}

impl WrappedToPoly for PolyWrapper {
    fn unwrap(self) -> (coeffs: Vec<BigUintWrapper>)
        ensures
            coeffs.deep_view() == self@,
    {
        self.coeffs
    }
}

impl PolyWrapper {
    /// The polynomial with the given small coefficients, lowest first.
    pub fn from_coeffs(values: &Vec<usize>) -> (r: Self)
        ensures
            r@.len() == values@.len(),
            forall|i: int| 0 <= i < values@.len() ==> #[trigger] r@[i] == values@[i],
    {
        let mut coeffs: Vec<BigUintWrapper> = Vec::new();
        let mut i: usize = 0;
        while i < values.len()
            invariant
                i <= values@.len(),
                coeffs@.len() == i,
                forall|j: int| 0 <= j < i ==> (#[trigger] coeffs@[j])@ == values@[j],
            decreases values@.len() - i,
        {
            coeffs.push(BigUintWrapper::from_usize(values[i]));
            i += 1;
        }
        PolyWrapper { coeffs }
    }

    /// A polynomial with the same coefficients.
    pub fn duplicate(&self) -> (r: Self)
        ensures
            r@ == self@,
    {
        let mut coeffs: Vec<BigUintWrapper> = Vec::new();
        let mut i: usize = 0;
        while i < self.coeffs.len()
            invariant
                i <= self.coeffs@.len(),
                coeffs@.len() == i,
                forall|j: int| 0 <= j < i ==> (#[trigger] coeffs@[j])@ == self.coeffs@[j]@,
            decreases self.coeffs@.len() - i,
        {
            coeffs.push(self.coeffs[i].duplicate());
            i += 1;
        }
        let r = PolyWrapper { coeffs };
        assert(r@ =~= self@);
        r
    }

    /// The sum of two polynomials.
    pub fn add(self, rhs: PolyWrapper) -> (r: Self)
        ensures
            r@.len() == if self@.len() >= rhs@.len() { self@.len() } else { rhs@.len() },
            forall|i: int| coeff(r@, i) == coeff(self@, i) + coeff(rhs@, i),
    {
        let la = self.coeffs.len();
        let lb = rhs.coeffs.len();
        let len = if la >= lb { la } else { lb };
        let mut coeffs: Vec<BigUintWrapper> = Vec::new();
        let mut i: usize = 0;
        while i < len
            invariant
                i <= len,
                la == self.coeffs@.len(),
                lb == rhs.coeffs@.len(),
                len == if la >= lb { la } else { lb },
                coeffs@.len() == i,
                forall|j: int|
                    0 <= j < i ==> (#[trigger] coeffs@[j])@ == coeff(self@, j) + coeff(rhs@, j),
            decreases len - i,
        {
            let a = if i < la { self.coeffs[i].duplicate() } else { BigUintWrapper::zero() };
            let b = if i < lb { rhs.coeffs[i].duplicate() } else { BigUintWrapper::zero() };
            coeffs.push(a.add(b));
            i += 1;
        }
        let r = PolyWrapper { coeffs };
        assert forall|i: int| coeff(r@, i) == coeff(self@, i) + coeff(rhs@, i) by {
            if 0 <= i < len {
                assert(r@[i] == r.coeffs@[i]@);
            }
        }
        r
    }

    /// Adds `rhs` to this polynomial.
    pub fn add_assign(&mut self, rhs: PolyWrapper)
        ensures
            final(self)@.len() == if old(self)@.len() >= rhs@.len() {
                old(self)@.len()
            } else {
                rhs@.len()
            },
            forall|i: int| coeff(final(self)@, i) == coeff(old(self)@, i) + coeff(rhs@, i),
    {
        let mut taken: Vec<BigUintWrapper> = Vec::new();
        std::mem::swap(&mut self.coeffs, &mut taken);
        let sum = rhs.add(PolyWrapper { coeffs: taken });
        self.coeffs = sum.coeffs;
    }

    /// The product of two polynomials.
    pub fn mul(self, rhs: PolyWrapper) -> (r: Self)
        requires
            self@.len() + rhs@.len() <= usize::MAX,
        ensures
            r@.len() == if self@.len() == 0 || rhs@.len() == 0 {
                0
            } else {
                self@.len() + rhs@.len() - 1
            },
            forall|n: int| coeff(r@, n) == product_coeff(self@, rhs@, n),
    {
        let la = self.coeffs.len();
        let lb = rhs.coeffs.len();
        let len = if la == 0 || lb == 0 { 0 } else { la + lb - 1 };
        let mut coeffs: Vec<BigUintWrapper> = Vec::new();
        let mut n: usize = 0;
        while n < len
            invariant
                n <= len,
                la == self.coeffs@.len(),
                lb == rhs.coeffs@.len(),
                len == if la == 0 || lb == 0 { 0 } else { la + lb - 1 },
                coeffs@.len() == n,
                forall|j: int| 0 <= j < n ==> (#[trigger] coeffs@[j])@ == product_coeff(self@, rhs@, j),
            decreases len - n,
        {
            let low: usize = if n >= lb { n - (lb - 1) } else { 0 };
            let high: usize = if n < la { n + 1 } else { la };
            let mut sum = BigUintWrapper::zero();
            let mut i: usize = low;
            proof {
                assert(rhs@.len() == lb && self@.len() == la);
                if n >= lb {
                    lemma_convolution_below(self@, rhs@, n as int, low as int);
                }
            }
            while i < high
                invariant
                    low <= i <= high,
                    high <= la,
                    high <= n + 1,
                    n < len,
                    n - i < lb || i == high,
                    la == self.coeffs@.len(),
                    lb == rhs.coeffs@.len(),
                    low == if n >= lb { n - (lb - 1) } else { 0 },
                    sum@ == convolution(self@, rhs@, n as int, i as int),
                decreases high - i,
            {
                let term = self.coeffs[i].duplicate().mul(rhs.coeffs[n - i].duplicate());
                assert(self@[i as int] == self.coeffs@[i as int]@);
                assert(rhs@[n - i] == rhs.coeffs@[n - i]@);
                sum = sum.add(term);
                i += 1;
            }
            proof {
                if high == la {
                    lemma_convolution_beyond(self@, rhs@, n as int, n + 1);
                }
            }
            coeffs.push(sum);
            n += 1;
        }
        let r = PolyWrapper { coeffs };
        assert forall|n: int| coeff(r@, n) == product_coeff(self@, rhs@, n) by {
            if 0 <= n < len {
                assert(r@[n] == r.coeffs@[n]@);
            } else if n >= 0 {
                if la == 0 {
                    lemma_convolution_beyond(self@, rhs@, n, n + 1);
                } else if lb == 0 {
                    lemma_convolution_below(self@, rhs@, n, n + 1);
                } else {
                    // every product pairs a coefficient beyond one of the two ends
                    lemma_convolution_beyond(self@, rhs@, n, n + 1);
                    lemma_convolution_below(self@, rhs@, n, la as int);
                }
            }
        }
        r
    }

    /// Multiplies this polynomial by `rhs`.
    pub fn mul_assign(&mut self, rhs: PolyWrapper)
        requires
            old(self)@.len() + rhs@.len() <= usize::MAX,
        ensures
            forall|n: int| coeff(final(self)@, n) == product_coeff(old(self)@, rhs@, n),
    {
        let mut taken: Vec<BigUintWrapper> = Vec::new();
        std::mem::swap(&mut self.coeffs, &mut taken);
        let product = PolyWrapper { coeffs: taken }.mul(rhs);
        self.coeffs = product.coeffs;
    }

    /// The polynomial without any coefficient, which is zero.
    pub fn zero() -> (r: Self)
        ensures
            r@.len() == 0,
    {
        PolyWrapper { coeffs: Vec::new() }
    }

    /// Whether every coefficient is zero.
    pub fn is_zero(&self) -> (r: bool)
        ensures
            r == (forall|i: int| coeff(self@, i) == 0),
    {
        let mut i: usize = 0;
        while i < self.coeffs.len()
            invariant
                i <= self.coeffs@.len(),
                forall|j: int| 0 <= j < i ==> coeff(self@, j) == 0,
            decreases self.coeffs@.len() - i,
        {
            if !self.coeffs[i].is_zero() {
                assert(self@[i as int] == self.coeffs@[i as int]@);
                assert(coeff(self@, i as int) != 0);
                return false;
            }
            assert(self@[i as int] == self.coeffs@[i as int]@);
            i += 1;
        }
        true
    }

    /// The degree of the polynomial, or nothing where it is zero.
    pub fn degree(&self) -> (r: Option<usize>)
        ensures
            match r {
                Some(deg) => degree_of(self@) == Some(deg as int) && deg < self@.len(),
                None => degree_of(self@) is None,
            },
    {
        let mut n: usize = self.coeffs.len();
        assert(self@.take(n as int) =~= self@);
        while n > 0
            invariant
                n <= self.coeffs@.len(),
                degree_of(self@) == degree_of(self@.take(n as int)),
            decreases n,
        {
            let ghost head = self@.take(n as int);
            assert(head.last() == self.coeffs@[n - 1]@);
            if !self.coeffs[n - 1].is_zero() {
                return Some(n - 1);
            }
            assert(head.drop_last() =~= self@.take(n - 1));
            n -= 1;
        }
        None
    }

    /// Whether coefficient `i` of the polynomial has the value `n`.
    pub fn coeff_equals(&self, i: usize, n: usize) -> (r: bool)
        ensures
            r == (coeff(self@, i as int) == n),
    {
        if i < self.coeffs.len() {
            assert(self@[i as int] == self.coeffs@[i as int]@);
            self.coeffs[i].equals_usize(n)
        } else {
            n == 0
        }
    }

    /// The constant polynomial one.
    pub fn one() -> (r: Self)
        ensures
            r@ == seq![1nat],
    {
        let mut coeffs: Vec<BigUintWrapper> = Vec::new();
        coeffs.push(BigUintWrapper::one());
        let r = PolyWrapper { coeffs };
        assert(r@ =~= seq![1nat]);
        r
    }
}

} // verus!
