//! The weight enumerator of a zero-terminated convolutional code: the
//! polynomial whose coefficient at `d` counts the paths of a given length
//! that leave state zero of the trellis, come back to it at their end, and
//! put out symbols of the Hamming weight `d` in all. It is the entry for
//! state zero of a power of the matrix that holds, for every pair of states,
//! one monomial for each edge between them.

use vstd::prelude::*;
use crate::gf2::lemma_popcount16_bounds;
use crate::poly_wrapper::{
    coeff, convolution, product_coeff, BigUintWrapper, PolyWrapper,
};
use crate::trellis::Trellis;

verus! {

/// A square matrix of polynomials, as the coefficients of its entries.
pub type Matrix = Seq<Seq<Seq<nat>>>;

/// The number of edges from state `i` to state `j` with an output of the
/// Hamming weight `c`, among those on the input symbols below `upto`.
pub open spec fn edge_count(t: &Trellis, i: int, j: int, c: int, upto: int) -> nat
    decreases upto,
{
    if upto <= 0 {
        0
    } else {
        edge_count(t, i, j, c, upto - 1) + if t.next(i, upto - 1) == j && t.edge_weight(i, upto - 1)
            == c {
            1nat
        } else {
            0nat
        }
    }
}

/// Coefficient `c` of the entry for the states `i` and `j` of the transfer
/// matrix: the number of edges from `i` to `j` with an output of weight `c`.
pub open spec fn transfer_coeff(t: &Trellis, i: int, j: int, c: int) -> nat {
    edge_count(t, i, j, c, t.num_input_symbols as int)
}

/// Coefficient `c` of the entry for the states `i` and `j` of the `n`-th
/// power of the transfer matrix.
pub open spec fn power_coeff(t: &Trellis, n: nat, i: int, j: int, c: int) -> nat
    decreases n, 2nat, 0nat,
{
    if n == 0 {
        if i == j && c == 0 {
            1
        } else {
            0
        }
    } else {
        power_row(t, n, i, j, c, t.num_states as int)
    }
}

/// The part of [`power_coeff`] that goes through the states below `upto`
/// at the last step but one.
pub open spec fn power_row(t: &Trellis, n: nat, i: int, j: int, c: int, upto: int) -> nat
    decreases n, 1nat, (if upto <= 0 { 0nat } else { upto as nat }),
{
    if n == 0 || upto <= 0 {
        0
    } else {
        power_row(t, n, i, j, c, upto - 1) + power_conv(t, n, i, upto - 1, j, c, c + 1)
    }
}

/// The part of [`power_coeff`] that goes through the state `k` at the last
/// step but one, with a weight below `upto` until there.
pub open spec fn power_conv(t: &Trellis, n: nat, i: int, k: int, j: int, c: int, upto: int) -> nat
    decreases n, 0nat, (if upto <= 0 { 0nat } else { upto as nat }),
{
    if n == 0 || upto <= 0 {
        0
    } else {
        power_conv(t, n, i, k, j, c, upto - 1) + power_coeff(t, (n - 1) as nat, i, k, upto - 1)
            * transfer_coeff(t, k, j, c - (upto - 1))
    }
}

/// Coefficient `c` of the weight enumerator of the paths of `n` steps from
/// state zero back to state zero.
pub open spec fn weight_enumerator_coeff(t: &Trellis, n: nat, c: int) -> nat {
    power_coeff(t, n, 0, 0, c)
}

/// For no step at all the weight enumerator is the constant one: there is
/// the empty path, of weight zero, and no other.
pub proof fn lemma_enumerator_of_length_zero(t: &Trellis, c: int)
    ensures
        weight_enumerator_coeff(t, 0, c) == if c == 0 { 1nat } else { 0nat },
{
}

/// The number of paths of `n` steps from state `i` to state `j` whose output
/// has the Hamming weight `c`, counted by their last edge.
pub open spec fn walk_count(t: &Trellis, n: nat, i: int, j: int, c: int) -> nat
    decreases n, 2nat, 0nat,
{
    if n == 0 {
        if i == j && c == 0 {
            1
        } else {
            0
        }
    } else {
        walks_through(t, n, i, j, c, t.num_states as int)
    }
}

/// The paths of [`walk_count`] whose last edge leaves a state below `upto`.
pub open spec fn walks_through(t: &Trellis, n: nat, i: int, j: int, c: int, upto: int) -> nat
    decreases n, 1nat, (if upto <= 0 { 0nat } else { upto as nat }),
{
    if n == 0 || upto <= 0 {
        0
    } else {
        walks_through(t, n, i, j, c, upto - 1) + walks_ending(
            t,
            n,
            i,
            upto - 1,
            j,
            c,
            t.num_input_symbols as int,
        )
    }
}

/// The paths of [`walk_count`] whose last edge leaves the state `k` on an
/// input symbol below `upto`: for each such edge that leads to `j`, the
/// paths of one step less from `i` to `k` with the weight that the edge
/// leaves over.
pub open spec fn walks_ending(t: &Trellis, n: nat, i: int, k: int, j: int, c: int, upto: int) -> nat
    decreases n, 0nat, (if upto <= 0 { 0nat } else { upto as nat }),
{
    if n == 0 || upto <= 0 {
        0
    } else {
        walks_ending(t, n, i, k, j, c, upto - 1) + if t.next(k, upto - 1) == j && t.edge_weight(
            k,
            upto - 1,
        ) <= c {
            walk_count(t, (n - 1) as nat, i, k, c - t.edge_weight(k, upto - 1))
        } else {
            0
        }
    }
}

/// The part of [`power_conv`] that the input symbols below `inputs` give:
/// the sum, over the weights `a` below `upto`, of the number of paths of
/// weight `a` times the number of edges of weight `c - a`.
spec fn conv_edges(t: &Trellis, n: nat, i: int, k: int, j: int, c: int, inputs: int, upto: int) -> nat
    decreases upto,
{
    if n == 0 || upto <= 0 {
        0
    } else {
        conv_edges(t, n, i, k, j, c, inputs, upto - 1) + power_coeff(
            t,
            (n - 1) as nat,
            i,
            k,
            upto - 1,
        ) * edge_count(t, k, j, c - (upto - 1), inputs)
    }
}

proof fn lemma_conv_edges_is_power_conv(t: &Trellis, n: nat, i: int, k: int, j: int, c: int, upto: int)
    ensures
        conv_edges(t, n, i, k, j, c, t.num_input_symbols as int, upto) == power_conv(
            t,
            n,
            i,
            k,
            j,
            c,
            upto,
        ),
    decreases upto,
{
    if n > 0 && upto > 0 {
        lemma_conv_edges_is_power_conv(t, n, i, k, j, c, upto - 1);
    }
}

proof fn lemma_conv_edges_none(t: &Trellis, n: nat, i: int, k: int, j: int, c: int, upto: int)
    ensures
        conv_edges(t, n, i, k, j, c, 0, upto) == 0,
    decreases upto,
{
    if n > 0 && upto > 0 {
        lemma_conv_edges_none(t, n, i, k, j, c, upto - 1);
        assert(power_coeff(t, (n - 1) as nat, i, k, upto - 1) * 0nat == 0) by (nonlinear_arith);
    }
}

/// One more input symbol adds, where its edge leads to `j` and its weight
/// leaves a weight below `upto` over, the paths of that weight.
proof fn lemma_conv_edges_step(
    t: &Trellis,
    n: nat,
    i: int,
    k: int,
    j: int,
    c: int,
    inputs: int,
    upto: int,
)
    requires
        n >= 1,
        inputs >= 1,
        0 <= upto,
    ensures
        conv_edges(t, n, i, k, j, c, inputs, upto) == conv_edges(t, n, i, k, j, c, inputs - 1, upto)
            + if t.next(k, inputs - 1) == j && 0 <= c - t.edge_weight(k, inputs - 1) < upto {
            power_coeff(t, (n - 1) as nat, i, k, c - t.edge_weight(k, inputs - 1))
        } else {
            0
        },
    decreases upto,
{
    if upto > 0 {
        lemma_conv_edges_step(t, n, i, k, j, c, inputs, upto - 1);
        let a = upto - 1;
        let p = power_coeff(t, (n - 1) as nat, i, k, a);
        let before = edge_count(t, k, j, c - a, inputs - 1);
        let one: nat = if t.next(k, inputs - 1) == j && t.edge_weight(k, inputs - 1) == c - a {
            1
        } else {
            0
        };
        assert(edge_count(t, k, j, c - a, inputs) == before + one);
        assert(p * (before + one) == p * before + p * one) by (nonlinear_arith);
        assert(p * one == if one == 1 { p } else { 0nat }) by (nonlinear_arith)
            requires
                one == 0 || one == 1,
        ;
    }
}

/// The coefficients of the powers of the transfer matrix count paths:
/// coefficient `c` of the entry for the states `i` and `j` of the `n`-th
/// power is the number of paths of `n` steps from `i` to `j` whose output
/// has the Hamming weight `c`.
pub proof fn lemma_power_counts_walks(t: &Trellis, n: nat, i: int, j: int, c: int)
    requires
        0 <= c,
    ensures
        power_coeff(t, n, i, j, c) == walk_count(t, n, i, j, c),
    decreases n, 2nat, 0nat,
{
    if n > 0 {
        lemma_power_row_counts_walks(t, n, i, j, c, t.num_states as int);
    }
}

proof fn lemma_power_row_counts_walks(t: &Trellis, n: nat, i: int, j: int, c: int, upto: int)
    requires
        n >= 1,
        0 <= c,
    ensures
        power_row(t, n, i, j, c, upto) == walks_through(t, n, i, j, c, upto),
    decreases n, 1nat, (if upto <= 0 { 0nat } else { upto as nat }),
{
    if upto > 0 {
        lemma_power_row_counts_walks(t, n, i, j, c, upto - 1);
        lemma_conv_edges_is_power_conv(t, n, i, upto - 1, j, c, c + 1);
        lemma_power_conv_counts_walks(t, n, i, upto - 1, j, c, t.num_input_symbols as int);
    }
}

proof fn lemma_power_conv_counts_walks(t: &Trellis, n: nat, i: int, k: int, j: int, c: int, inputs: int)
    requires
        n >= 1,
        0 <= c,
        0 <= inputs,
    ensures
        conv_edges(t, n, i, k, j, c, inputs, c + 1) == walks_ending(t, n, i, k, j, c, inputs),
    decreases n, 0nat, inputs,
{
    if inputs == 0 {
        lemma_conv_edges_none(t, n, i, k, j, c, c + 1);
    } else {
        lemma_power_conv_counts_walks(t, n, i, k, j, c, inputs - 1);
        lemma_conv_edges_step(t, n, i, k, j, c, inputs, c + 1);
        let w = t.edge_weight(k, inputs - 1);
        if t.next(k, inputs - 1) == j && w <= c {
            lemma_power_counts_walks(t, (n - 1) as nat, i, k, c - w);
        }
    }
}

/// The weight enumerator counts paths: its coefficient `d` is the number of
/// paths of `n` steps from state zero back to state zero whose output has the
/// Hamming weight `d`.
pub proof fn lemma_enumerator_counts_paths(t: &Trellis, n: nat, d: int)
    requires
        0 <= d,
    ensures
        weight_enumerator_coeff(t, n, d) == walk_count(t, n, 0, 0, d),
{
    lemma_power_counts_walks(t, n, 0, 0, d);
}

/// The monomial `x^weight`.
pub fn calc_polynomial_from_weight(weight: u32) -> (polynomial: PolyWrapper)
    ensures
        polynomial@.len() == weight + 1,
        forall|c: int| coeff(polynomial@, c) == if c == weight { 1nat } else { 0nat },
{
    let mut tmp: Vec<BigUintWrapper> = Vec::new();
    let mut i: u32 = 0;
    while i < weight
        invariant
            i <= weight,
            tmp@.len() == i,
            forall|j: int| 0 <= j < i ==> (#[trigger] tmp@[j])@ == 0,
        decreases weight - i,
    {
        tmp.push(BigUintWrapper::zero());
        i += 1;
    }
    tmp.push(BigUintWrapper::one());
    let polynomial = PolyWrapper { coeffs: tmp };
    assert forall|c: int| coeff(polynomial@, c) == if c == weight { 1nat } else { 0nat } by {
        if 0 <= c <= weight {
            assert(polynomial@[c] == polynomial.coeffs@[c]@);
        }
    }
    polynomial
}

/// The matrix has `size` rows of `size` entries, none of them with more than
/// `bound` coefficients.
pub open spec fn is_square(m: Matrix, size: int, bound: int) -> bool {
    &&& m.len() == size
    &&& forall|i: int| 0 <= i < size ==> (#[trigger] m[i]).len() == size
    &&& forall|i: int, j: int| 0 <= i < size && 0 <= j < size ==> (#[trigger] m[i][j]).len() <= bound
}

/// The part of coefficient `c` of entry `(i, j)` of the product of the
/// matrices `a` and `b` that comes from the columns of `a` below `upto`.
pub open spec fn matrix_product_coeff(a: Matrix, b: Matrix, i: int, j: int, c: int, upto: int) -> nat
    decreases upto,
{
    if upto <= 0 {
        0
    } else {
        matrix_product_coeff(a, b, i, j, c, upto - 1) + product_coeff(
            a[i][upto - 1],
            b[upto - 1][j],
            c,
        )
    }
}

/// The matrix `m` is the transfer matrix of the trellis `t`.
pub open spec fn is_transfer_matrix(t: &Trellis, m: Matrix) -> bool {
    &&& is_square(m, t.num_states as int, 17)
    &&& forall|i: int, j: int, c: int|
        0 <= i < t.num_states && 0 <= j < t.num_states && 0 <= c ==> #[trigger] coeff(m[i][j], c)
            == transfer_coeff(t, i, j, c)
}

/// The matrix `m` is the `n`-th power of the transfer matrix of the trellis
/// `t`.
pub open spec fn is_power_matrix(t: &Trellis, n: nat, m: Matrix) -> bool {
    &&& is_square(m, t.num_states as int, 16 * (n as int) + 1)
    &&& forall|i: int, j: int, c: int|
        0 <= i < t.num_states && 0 <= j < t.num_states && 0 <= c ==> #[trigger] coeff(m[i][j], c)
            == power_coeff(t, n, i, j, c)
}

proof fn lemma_power_conv(
    t: &Trellis,
    n: nat,
    p: Matrix,
    m: Matrix,
    i: int,
    k: int,
    j: int,
    c: int,
    upto: int,
)
    requires
        n >= 1,
        is_power_matrix(t, (n - 1) as nat, p),
        is_transfer_matrix(t, m),
        0 <= i < t.num_states,
        0 <= k < t.num_states,
        0 <= j < t.num_states,
        0 <= c,
        upto <= c + 1,
    ensures
        convolution(p[i][k], m[k][j], c, upto) == power_conv(t, n, i, k, j, c, upto),
    decreases upto,
{
    if upto > 0 {
        lemma_power_conv(t, n, p, m, i, k, j, c, upto - 1);
        assert(coeff(p[i][k], upto - 1) == power_coeff(t, (n - 1) as nat, i, k, upto - 1));
        assert(coeff(m[k][j], c - (upto - 1)) == transfer_coeff(t, k, j, c - (upto - 1)));
    }
}

proof fn lemma_power_row(t: &Trellis, n: nat, p: Matrix, m: Matrix, i: int, j: int, c: int, upto: int)
    requires
        n >= 1,
        is_power_matrix(t, (n - 1) as nat, p),
        is_transfer_matrix(t, m),
        0 <= i < t.num_states,
        0 <= j < t.num_states,
        0 <= c,
        upto <= t.num_states,
    ensures
        matrix_product_coeff(p, m, i, j, c, upto) == power_row(t, n, i, j, c, upto),
    decreases upto,
{
    if upto > 0 {
        lemma_power_row(t, n, p, m, i, j, c, upto - 1);
        lemma_power_conv(t, n, p, m, i, upto - 1, j, c, c + 1);
    }
}

/// A matrix of `size` rows of `size` polynomials, all zero but for the
/// constant one on the diagonal where `diagonal` is set.
fn scalar_matrix(size: usize, diagonal: bool) -> (m: Vec<Vec<PolyWrapper>>)
    ensures
        is_square(m.deep_view(), size as int, 1),
        forall|i: int, j: int, c: int|
            0 <= i < size && 0 <= j < size ==> #[trigger] coeff(m.deep_view()[i][j], c) == if diagonal
                && i == j && c == 0 {
                1nat
            } else {
                0nat
            },
{
    let mut m: Vec<Vec<PolyWrapper>> = Vec::new();
    let mut i: usize = 0;
    while i < size
        invariant
            i <= size,
            m@.len() == i,
            forall|r: int| 0 <= r < i ==> (#[trigger] m@[r])@.len() == size,
            forall|r: int, j: int|
                0 <= r < i && 0 <= j < size ==> (#[trigger] m@[r]@[j])@ == if diagonal && r == j {
                    seq![1nat]
                } else {
                    Seq::<nat>::empty()
                },
        decreases size - i,
    {
        let mut row: Vec<PolyWrapper> = Vec::new();
        let mut j: usize = 0;
        while j < size
            invariant
                j <= size,
                i < size,
                row@.len() == j,
                forall|x: int|
                    0 <= x < j ==> (#[trigger] row@[x])@ == if diagonal && i == x {
                        seq![1nat]
                    } else {
                        Seq::<nat>::empty()
                    },
            decreases size - j,
        {
            if diagonal && i == j {
                row.push(PolyWrapper::one());
            } else {
                row.push(PolyWrapper::zero());
            }
            j += 1;
        }
        m.push(row);
        i += 1;
    }
    proof {
        let mv = m.deep_view();
        assert(mv.len() == size);
        assert forall|r: int| 0 <= r < size implies (#[trigger] mv[r]).len() == size by {
            assert(mv[r].len() == m@[r]@.len());
        }
        assert forall|r: int, j: int| 0 <= r < size && 0 <= j < size implies (#[trigger] mv[r][j])
            == m@[r]@[j]@ by {}
    }
    m
}

/// The transfer matrix of a trellis: for every pair of states the sum of the
/// monomials `x^w`, one for each edge from the first to the second, with `w`
/// the Hamming weight of the edge's output symbol.
pub fn transfer_function(trell: &Trellis) -> (m: Vec<Vec<PolyWrapper>>)
    requires
        trell.wf(),
    ensures
        is_transfer_matrix(trell, m.deep_view()),
{
    let num_states = trell.num_states;
    let num_inputs = trell.num_input_symbols;
    let mut m = scalar_matrix(num_states, false);
    let mut current_state: usize = 0;
    while current_state < num_states
        invariant
            trell.wf(),
            num_states == trell.num_states,
            num_inputs == trell.num_input_symbols,
            current_state <= num_states,
            is_square(m.deep_view(), num_states as int, 17),
            forall|i: int, j: int, c: int|
                0 <= i < num_states && 0 <= j < num_states ==> #[trigger] coeff(
                    m.deep_view()[i][j],
                    c,
                ) == if i < current_state {
                    transfer_coeff(trell, i, j, c)
                } else {
                    0nat
                },
        decreases num_states - current_state,
    {
        let mut input: usize = 0;
        while input < num_inputs
            invariant
                trell.wf(),
                num_states == trell.num_states,
                num_inputs == trell.num_input_symbols,
                current_state < num_states,
                input <= num_inputs,
                is_square(m.deep_view(), num_states as int, 17),
                forall|i: int, j: int, c: int|
                    0 <= i < num_states && 0 <= j < num_states ==> #[trigger] coeff(
                        m.deep_view()[i][j],
                        c,
                    ) == if i < current_state {
                        transfer_coeff(trell, i, j, c)
                    } else if i == current_state {
                        edge_count(trell, i, j, c, input as int)
                    } else {
                        0nat
                    },
            decreases num_inputs - input,
        {
            let ghost before = m.deep_view();
            let next_state: usize = *trell.next_states.index(current_state, input) as usize;
            let output: u16 = *trell.outputs.index(current_state, input);
            let weight: u32 = output.count_ones();
            proof {
                lemma_popcount16_bounds(output);
                assert(0 <= trell.next(current_state as int, input as int) < num_states);
                assert(before.len() == m@.len());
                assert(before[current_state as int].len() == m@[current_state as int]@.len());
            }
            let monomial = calc_polynomial_from_weight(weight);
            m[current_state][next_state].add_assign(monomial);
            proof {
                let after = m.deep_view();
                assert(after.len() == m@.len());
                assert forall|i: int| 0 <= i < num_states implies (#[trigger] after[i]).len()
                    == num_states by {
                    assert(after[i].len() == m@[i]@.len());
                    assert(before[i].len() == num_states);
                }
                assert forall|i: int, j: int, c: int|
                    0 <= i < num_states && 0 <= j < num_states implies #[trigger] coeff(
                    after[i][j],
                    c,
                ) == if i < current_state {
                    transfer_coeff(trell, i, j, c)
                } else if i == current_state {
                    edge_count(trell, i, j, c, input + 1)
                } else {
                    0nat
                } by {
                    assert(after[i][j] == m@[i]@[j]@);
                    if i == current_state && j == next_state {
                        assert(coeff(after[i][j], c) == coeff(before[i][j], c) + coeff(
                            monomial@,
                            c,
                        ));
                    } else {
                        assert(after[i][j] == before[i][j]);
                        assert(coeff(before[i][j], c) == coeff(after[i][j], c));
                    }
                }
                assert forall|i: int, j: int| 0 <= i < num_states && 0 <= j < num_states implies (
                #[trigger] after[i][j]).len() <= 17 by {
                    assert(after[i][j] == m@[i]@[j]@);
                    if i == current_state && j == next_state {
                        assert(before[i][j].len() <= 17);
                        assert(monomial@.len() <= 17);
                    } else {
                        assert(after[i][j] == before[i][j]);
                    }
                }
            }
            input += 1;
        }
        current_state += 1;
    }
    m
}

/// The product of two square matrices of polynomials.
pub fn multiply_matrices(a: &Vec<Vec<PolyWrapper>>, b: &Vec<Vec<PolyWrapper>>, size: usize) -> (product:
    Vec<Vec<PolyWrapper>>)
    requires
        is_square(a.deep_view(), size as int, (usize::MAX / 2) as int),
        is_square(b.deep_view(), size as int, (usize::MAX / 2) as int),
    ensures
        is_square(product.deep_view(), size as int, usize::MAX as int),
        forall|i: int, j: int, c: int|
            0 <= i < size && 0 <= j < size && 0 <= c ==> #[trigger] coeff(
                product.deep_view()[i][j],
                c,
            ) == matrix_product_coeff(a.deep_view(), b.deep_view(), i, j, c, size as int),
{
    multiply_bounded(a, b, size, Ghost((usize::MAX / 2) as int), Ghost((usize::MAX / 2) as int))
}

/// The product of two square matrices of polynomials whose numbers of
/// coefficients are bounded.
fn multiply_bounded(
    a: &Vec<Vec<PolyWrapper>>,
    b: &Vec<Vec<PolyWrapper>>,
    size: usize,
    Ghost(bound_a): Ghost<int>,
    Ghost(bound_b): Ghost<int>,
) -> (product: Vec<Vec<PolyWrapper>>)
    requires
        is_square(a.deep_view(), size as int, bound_a),
        is_square(b.deep_view(), size as int, bound_b),
        1 <= bound_a,
        1 <= bound_b,
        bound_a + bound_b <= usize::MAX,
    ensures
        is_square(product.deep_view(), size as int, bound_a + bound_b - 1),
        forall|i: int, j: int, c: int|
            0 <= i < size && 0 <= j < size && 0 <= c ==> #[trigger] coeff(
                product.deep_view()[i][j],
                c,
            ) == matrix_product_coeff(a.deep_view(), b.deep_view(), i, j, c, size as int),
{
    let ghost av = a.deep_view();
    let ghost bv = b.deep_view();
    proof {
        assert(av.len() == a@.len());
        assert(bv.len() == b@.len());
        assert forall|i: int| 0 <= i < size implies a@[i]@.len() == size && b@[i]@.len() == size by {
            assert(av[i].len() == a@[i]@.len());
            assert(bv[i].len() == b@[i]@.len());
        }
    }
    let mut product: Vec<Vec<PolyWrapper>> = Vec::new();
    let mut i: usize = 0;
    while i < size
        invariant
            i <= size,
            av == a.deep_view(),
            bv == b.deep_view(),
            a@.len() == size,
            b@.len() == size,
            forall|r: int| 0 <= r < size ==> (#[trigger] a@[r])@.len() == size,
            forall|r: int| 0 <= r < size ==> (#[trigger] b@[r])@.len() == size,
            is_square(av, size as int, bound_a),
            is_square(bv, size as int, bound_b),
            1 <= bound_a,
            1 <= bound_b,
            bound_a + bound_b <= usize::MAX,
            product@.len() == i,
            forall|r: int| 0 <= r < i ==> (#[trigger] product@[r])@.len() == size,
            forall|r: int, j: int|
                0 <= r < i && 0 <= j < size ==> (#[trigger] product@[r]@[j])@.len() <= bound_a
                    + bound_b - 1,
            forall|r: int, j: int, c: int|
                0 <= r < i && 0 <= j < size && 0 <= c ==> #[trigger] coeff(product@[r]@[j]@, c)
                    == matrix_product_coeff(av, bv, r, j, c, size as int),
        decreases size - i,
    {
        let mut row: Vec<PolyWrapper> = Vec::new();
        let mut j: usize = 0;
        while j < size
            invariant
                i < size,
                j <= size,
                av == a.deep_view(),
                bv == b.deep_view(),
                a@.len() == size,
                b@.len() == size,
                forall|r: int| 0 <= r < size ==> (#[trigger] a@[r])@.len() == size,
                forall|r: int| 0 <= r < size ==> (#[trigger] b@[r])@.len() == size,
                is_square(av, size as int, bound_a),
                is_square(bv, size as int, bound_b),
                1 <= bound_a,
                1 <= bound_b,
                bound_a + bound_b <= usize::MAX,
                row@.len() == j,
                forall|x: int| 0 <= x < j ==> (#[trigger] row@[x])@.len() <= bound_a + bound_b - 1,
                forall|x: int, c: int|
                    0 <= x < j && 0 <= c ==> #[trigger] coeff(row@[x]@, c) == matrix_product_coeff(
                        av,
                        bv,
                        i as int,
                        x,
                        c,
                        size as int,
                    ),
            decreases size - j,
        {
            let mut entry = PolyWrapper::zero();
            let mut k: usize = 0;
            while k < size
                invariant
                    i < size,
                    j < size,
                    k <= size,
                    av == a.deep_view(),
                    bv == b.deep_view(),
                    a@.len() == size,
                    b@.len() == size,
                    forall|r: int| 0 <= r < size ==> (#[trigger] a@[r])@.len() == size,
                    forall|r: int| 0 <= r < size ==> (#[trigger] b@[r])@.len() == size,
                    is_square(av, size as int, bound_a),
                    is_square(bv, size as int, bound_b),
                    1 <= bound_a,
                    1 <= bound_b,
                    bound_a + bound_b <= usize::MAX,
                    entry@.len() <= bound_a + bound_b - 1,
                    forall|c: int|
                        0 <= c ==> #[trigger] coeff(entry@, c) == matrix_product_coeff(
                            av,
                            bv,
                            i as int,
                            j as int,
                            c,
                            k as int,
                        ),
                decreases size - k,
            {
                let left = a[i][k].duplicate();
                let right = b[k][j].duplicate();
                proof {
                    assert(left@ == av[i as int][k as int]);
                    assert(right@ == bv[k as int][j as int]);
                    assert(av[i as int][k as int].len() <= bound_a);
                    assert(bv[k as int][j as int].len() <= bound_b);
                }
                let ghost before = entry@;
                let term = left.mul(right);
                entry.add_assign(term);
                proof {
                    assert forall|c: int| 0 <= c implies #[trigger] coeff(entry@, c)
                        == matrix_product_coeff(av, bv, i as int, j as int, c, k + 1) by {
                        assert(coeff(entry@, c) == coeff(before, c) + coeff(term@, c));
                        assert(coeff(before, c) == matrix_product_coeff(
                            av,
                            bv,
                            i as int,
                            j as int,
                            c,
                            k as int,
                        ));
                    }
                }
                k += 1;
            }
            row.push(entry);
            j += 1;
        }
        product.push(row);
        i += 1;
    }
    proof {
        let pv = product.deep_view();
        assert(pv.len() == size);
        assert forall|r: int| 0 <= r < size implies (#[trigger] pv[r]).len() == size by {
            assert(pv[r].len() == product@[r]@.len());
        }
        assert forall|r: int, j: int| 0 <= r < size && 0 <= j < size implies (#[trigger] pv[r][j]).len()
            <= bound_a + bound_b - 1 by {
            assert(pv[r][j] == product@[r]@[j]@);
        }
        assert forall|r: int, j: int, c: int|
            0 <= r < size && 0 <= j < size && 0 <= c implies #[trigger] coeff(pv[r][j], c)
            == matrix_product_coeff(av, bv, r, j, c, size as int) by {
            assert(pv[r][j] == product@[r]@[j]@);
        }
    }
    product
}

/// The weight enumerator of the zero-terminated code of `trellis_len` steps
/// on the trellis: coefficient `d` counts the paths of that length from
/// state zero back to state zero whose output has the Hamming weight `d`.
/// The encoder's numbers have no part in it: the trellis holds what they led
/// to.
pub fn compute_ztcc_weight_spectrum(
    _v: u16,
    _numerators: &[u16],
    _denominator: u16,
    trellis_len: u16,
    trell: &Trellis,
) -> (spectrum: PolyWrapper)
    requires
        trell.wf(),
    ensures
        forall|d: int|
            0 <= d ==> #[trigger] coeff(spectrum@, d) == weight_enumerator_coeff(
                trell,
                trellis_len as nat,
                d,
            ),
{
    let num_states = trell.num_states;
    let transfer = transfer_function(trell);
    let mut power = scalar_matrix(num_states, true);
    let mut i: u16 = 0;
    while i < trellis_len
        invariant
            trell.wf(),
            num_states == trell.num_states,
            i <= trellis_len,
            is_transfer_matrix(trell, transfer.deep_view()),
            is_power_matrix(trell, i as nat, power.deep_view()),
        decreases trellis_len - i,
    {
        let next = multiply_bounded(
            &power,
            &transfer,
            num_states,
            Ghost(16 * (i as int) + 1),
            Ghost(17),
        );
        proof {
            let pv = power.deep_view();
            let mv = transfer.deep_view();
            let nv = next.deep_view();
            assert forall|r: int, j: int, c: int|
                0 <= r < num_states && 0 <= j < num_states && 0 <= c implies #[trigger] coeff(
                nv[r][j],
                c,
            ) == power_coeff(trell, (i + 1) as nat, r, j, c) by {
                lemma_power_row(trell, (i + 1) as nat, pv, mv, r, j, c, num_states as int);
            }
        }
        power = next;
        i += 1;
    }
    proof {
        assert(power.deep_view().len() == power@.len());
        assert(power.deep_view()[0].len() == power@[0]@.len());
        assert(power.deep_view()[0][0] == power@[0]@[0]@);
    }
    power[0][0].duplicate()
}

} // verus!
