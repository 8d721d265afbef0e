//! The search for the distance-spectrum-optimal cyclic redundancy check: among
//! all binary polynomials of a degree, with the first and the last coefficient
//! set, the one that leaves the fewest zero-terminated paths undetected,
//! distance by distance. A path is undetected where the polynomial divides
//! it; the division over GF(2) is done by the `galois_field` crate.

use vstd::prelude::*;
use galois_field::Element;
use galois_field::FiniteField;
use galois_field::Polynomial;
use crate::bitpath::{bv_clone, bv_get, bv_len, BitPath};
use crate::reconstruct_ztps::ZTPs;

verus! {

/// A polynomial over GF(2) with the data it was made from: the coefficients,
/// lowest power first, the data, and the place of the data in its list.
pub struct Poly<T> {
    pub poly: Vec<bool>,
    pub poly_data: T,
    pub data_idx: u16,
}

/// The zero-terminated paths as polynomials, by distance, and the number of
/// them all.
#[allow(non_camel_case_types)]
pub struct ZTP_Polys {
    pub zero_terminated_paths: Vec<Vec<Poly<BitPath>>>,
    pub aggregate: usize,
}

/// What the search ends with.
#[derive(Debug, PartialEq, Eq)]
pub enum DsoOutcome {
    /// One polynomial is left: its bits, and the least distance at which it
    /// leaves a path undetected, if there is one within the distances searched.
    Found { polynomial: u16, undetected_distance: Option<usize> },
    /// Several polynomials are tied at every distance searched: their bits,
    /// and the distance at which the search stopped.
    Tied { candidates: Vec<u16>, stopped_distance: usize },
}

/// The remainder of the division of one polynomial over GF(2) by another, as
/// the `galois_field` crate computes it; coefficients lowest power first.
pub uninterp spec fn polynomial_remainder(dividend: Seq<bool>, divisor: Seq<bool>) -> Seq<bool>;

/// `%` on two `galois_field::Polynomial` over the field of two elements:
/// each coefficient of the remainder is reported as whether it is one.
#[verifier::external_body]
fn gf2_remainder(dividend: &Vec<bool>, divisor: &Vec<bool>) -> (remainder: Vec<bool>)
    requires
        dividend@.len() > 0,
        divisor@.len() > 0,
    ensures
        remainder@ == polynomial_remainder(dividend@, divisor@),
{
    let field = |b: &bool| FiniteField { char: 2, element: Element::PrimeField { element: *b as i64 } };
    let f = Polynomial { coef: dividend.iter().map(field).collect() };
    let g = Polynomial { coef: divisor.iter().map(field).collect() };
    (f % g).coef.iter().map(|x| x.is_1()).collect()
}

/// The bits of candidate `idx` among the polynomials of the degree `degree`:
/// the bits of `idx` between a leading and a trailing one.
pub open spec fn crc_value(idx: u16, degree: u32) -> u16 {
    (((idx | (1u16 << ((degree - 1) as u16))) << 1u16) | 1u16)
}

/// The coefficients of the polynomial with the bits `crc`, the highest bit
/// first.
pub open spec fn crc_coeffs(crc: u16, degree: u32) -> Seq<bool> {
    Seq::new((degree + 1) as nat, |i: int| 1u16 & (crc >> ((degree - i) as u16)) != 0)
}

/// The number of candidates of the degree `degree`.
pub open spec fn candidate_count(degree: u32) -> int {
    (1u16 << ((degree - 1) as u16)) as int
}

/// A path without its last `cut` bits, or nothing where it has no more than
/// that.
pub open spec fn stripped(bits: Seq<bool>, cut: int) -> Seq<bool> {
    if bits.len() >= cut {
        bits.take(bits.len() - cut)
    } else {
        Seq::empty()
    }
}

/// The polynomial `crc` divides the polynomial `event`: the division leaves
/// no coefficient one. The polynomial without any coefficient is zero and
/// divided by all.
pub open spec fn divides(crc: Seq<bool>, event: Seq<bool>) -> bool {
    event.len() == 0 || !polynomial_remainder(event, crc).contains(true)
}

/// The number of polynomials among `events` that `crc` divides.
pub open spec fn undetected_count(events: Seq<Seq<bool>>, crc: Seq<bool>) -> nat
    decreases events.len(),
{
    if events.len() == 0 {
        0
    } else {
        undetected_count(events.drop_last(), crc) + if divides(crc, events.last()) {
            1nat
        } else {
            0nat
        }
    }
}

/// No more polynomials are divided than there are.
pub proof fn lemma_undetected_count_bound(events: Seq<Seq<bool>>, crc: Seq<bool>)
    ensures
        undetected_count(events, crc) <= events.len(),
    decreases events.len(),
{
    if events.len() > 0 {
        lemma_undetected_count_bound(events.drop_last(), crc);
    }
}

/// Whether no coefficient of a remainder is one.
pub fn no_coefficient_set(remainder: &Vec<bool>) -> (none: bool)
    ensures
        none == !remainder@.contains(true),
{
    let mut i: usize = 0;
    while i < remainder.len()
        invariant
            i <= remainder@.len(),
            forall|j: int| 0 <= j < i ==> !remainder@[j],
        decreases remainder@.len() - i,
    {
        if remainder[i] {
            return false;
        }
        i += 1;
    }
    true
}

/// The number of error events that the polynomial `crc` divides, and so
/// leaves undetected.
pub fn check_divisible_by_distance(crc: &Poly<u16>, error_events: &Vec<Poly<BitPath>>) -> (weight:
    usize)
    requires
        crc.poly@.len() > 0,
    ensures
        weight == undetected_count(polys_view(error_events@), crc.poly@),
{
    let mut weight: usize = 0;
    let mut i: usize = 0;
    let ghost events = polys_view(error_events@);
    assert(events.take(0) =~= Seq::<Seq<bool>>::empty());
    while i < error_events.len()
        invariant
            i <= error_events@.len(),
            crc.poly@.len() > 0,
            events == polys_view(error_events@),
            weight == undetected_count(events.take(i as int), crc.poly@),
            weight <= i,
        decreases error_events@.len() - i,
    {
        let error_event = &error_events[i];
        let undetected: bool = if error_event.poly.len() == 0 {
            true
        } else {
            let remainder = gf2_remainder(&error_event.poly, &crc.poly);
            no_coefficient_set(&remainder)
        };
        proof {
            let head = events.take(i + 1);
            assert(head.drop_last() =~= events.take(i as int));
            assert(head.last() == error_event.poly@);
        }
        if undetected {
            weight += 1;
        }
        i += 1;
    }
    assert(events.take(i as int) =~= events);
    weight
}

/// The coefficients of the polynomials of a list.
pub open spec fn polys_view(polys: Seq<Poly<BitPath>>) -> Seq<Seq<bool>> {
    Seq::new(polys.len(), |i: int| polys[i].poly@)
}

/// The candidates of the degree `polynomial_degree` at the places below
/// `list_size`, each with its coefficients, highest power first, its bits
/// and its place.
pub fn generate_crcs(list_size: u16, polynomial_degree: u32) -> (crc_polys: Vec<Poly<u16>>)
    requires
        1 <= polynomial_degree <= 15,
        list_size <= candidate_count(polynomial_degree),
    ensures
        crc_polys@.len() == list_size,
        forall|idx: int|
            0 <= idx < list_size ==> {
                &&& (#[trigger] crc_polys@[idx]).poly_data == crc_value(idx as u16, polynomial_degree)
                &&& crc_polys@[idx].poly@ == crc_coeffs(
                    crc_value(idx as u16, polynomial_degree),
                    polynomial_degree,
                )
                &&& crc_polys@[idx].data_idx == idx
            },
{
    let mut crc_polys: Vec<Poly<u16>> = Vec::new();
    let shift: u16 = (polynomial_degree - 1) as u16;
    let mut crc_idx: u16 = 0;
    while crc_idx < list_size
        invariant
            1 <= polynomial_degree <= 15,
            shift == polynomial_degree - 1,
            crc_idx <= list_size,
            crc_polys@.len() == crc_idx,
            forall|idx: int|
                0 <= idx < crc_idx ==> {
                    &&& (#[trigger] crc_polys@[idx]).poly_data == crc_value(
                        idx as u16,
                        polynomial_degree,
                    )
                    &&& crc_polys@[idx].poly@ == crc_coeffs(
                        crc_value(idx as u16, polynomial_degree),
                        polynomial_degree,
                    )
                    &&& crc_polys@[idx].data_idx == idx
                },
        decreases list_size - crc_idx,
    {
        let mut crc: u16 = crc_idx | (1u16 << shift);
        crc = crc << 1u16;
        crc = crc | 1u16;
        let mut crc_vec: Vec<bool> = Vec::new();
        let mut x: u16 = (polynomial_degree + 1) as u16;
        while x > 0
            invariant
                1 <= polynomial_degree <= 15,
                x <= polynomial_degree + 1,
                crc_vec@.len() == polynomial_degree + 1 - x,
                forall|i: int|
                    0 <= i < crc_vec@.len() ==> #[trigger] crc_vec@[i] == (1u16 & (crc >> ((
                    polynomial_degree - i) as u16)) != 0),
            decreases x,
        {
            x -= 1;
            crc_vec.push((1u16 & (crc >> x)) != 0);
        }
        assert(crc_vec@ =~= crc_coeffs(crc, polynomial_degree));
        crc_polys.push(Poly { poly: crc_vec, poly_data: crc, data_idx: crc_idx });
        crc_idx += 1;
    }
    crc_polys
}

/// The zero-terminated paths as polynomials: each path without the `k * mu`
/// bits of its termination, coefficient `i` being bit `i` of the path.
pub fn convert_ztps(ztps: &ZTPs, k: u16, mu: u32) -> (converted: ZTP_Polys)
    requires
        k * mu <= usize::MAX,
    ensures
        is_conversion(&converted, ztps, k * mu),
{
    let cut: usize = (k as usize) * (mu as usize);
    let mut new_ztps: Vec<Vec<Poly<BitPath>>> = Vec::new();
    let mut d: usize = 0;
    while d < ztps.zero_terminated_paths.len()
        invariant
            d <= ztps.zero_terminated_paths@.len(),
            new_ztps@.len() == d,
            forall|e: int|
                0 <= e < d ==> is_converted_bucket(
                    (#[trigger] new_ztps@[e])@,
                    ztps.zero_terminated_paths@[e]@,
                    cut as int,
                ),
        decreases ztps.zero_terminated_paths@.len() - d,
    {
        let bucket = &ztps.zero_terminated_paths[d];
        let mut polys: Vec<Poly<BitPath>> = Vec::new();
        let mut j: usize = 0;
        while j < bucket.len()
            invariant
                j <= bucket@.len(),
                polys@.len() == j,
                forall|i: int|
                    0 <= i < j ==> is_converted((#[trigger] polys@[i]), bucket@[i], cut as int),
            decreases bucket@.len() - j,
        {
            let b = &bucket[j];
            let length = bv_len(b);
            let kept: usize = if length >= cut { length - cut } else { 0 };
            let mut err_vec: Vec<bool> = Vec::new();
            let mut i: usize = 0;
            while i < kept
                invariant
                    i <= kept,
                    kept <= b@.len(),
                    err_vec@ == b@.take(i as int),
                decreases kept - i,
            {
                err_vec.push(bv_get(b, i));
                i += 1;
                assert(err_vec@ =~= b@.take(i as int));
            }
            assert(err_vec@ =~= stripped(b@, cut as int));
            polys.push(Poly { poly: err_vec, poly_data: bv_clone(b), data_idx: 0 });
            j += 1;
        }
        new_ztps.push(polys);
        d += 1;
    }
    ZTP_Polys { zero_terminated_paths: new_ztps, aggregate: ztps.aggregate }
}

/// The polynomial `poly` is the path `path` without its last `cut` bits,
/// and carries the path.
pub open spec fn is_converted(poly: Poly<BitPath>, path: BitPath, cut: int) -> bool {
    &&& poly.poly@ == stripped(path@, cut)
    &&& poly.poly_data@ == path@
    &&& poly.data_idx == 0
}

/// Each polynomial of the list is the path at its place, converted.
pub open spec fn is_converted_bucket(polys: Seq<Poly<BitPath>>, paths: Seq<BitPath>, cut: int) -> bool {
    &&& polys.len() == paths.len()
    &&& forall|j: int| 0 <= j < polys.len() ==> is_converted(#[trigger] polys[j], paths[j], cut)
}

/// `converted` holds the paths of `ztps`, distance by distance, as
/// polynomials without their last `cut` bits.
pub open spec fn is_conversion(converted: &ZTP_Polys, ztps: &ZTPs, cut: int) -> bool {
    &&& converted.aggregate == ztps.aggregate
    &&& converted.zero_terminated_paths@.len() == ztps.zero_terminated_paths@.len()
    &&& forall|d: int|
        0 <= d < converted.zero_terminated_paths@.len() ==> is_converted_bucket(
            (#[trigger] converted.zero_terminated_paths@[d])@,
            ztps.zero_terminated_paths@[d]@,
            cut,
        )
}

/// The least of the weights, or zero where there is none.
pub open spec fn min_weight(weights: Seq<usize>) -> int
    decreases weights.len(),
{
    if weights.len() == 0 {
        0
    } else if weights.len() == 1 {
        weights[0] as int
    } else {
        let rest = min_weight(weights.drop_last());
        if weights.last() < rest {
            weights.last() as int
        } else {
            rest
        }
    }
}

/// Of the first `upto` locations those whose weight is the least of all the
/// weights, in their order.
pub open spec fn kept(locations: Seq<u16>, weights: Seq<usize>, upto: int) -> Seq<u16>
    decreases upto,
{
    if upto <= 0 {
        Seq::empty()
    } else {
        let before = kept(locations, weights, upto - 1);
        if weights[upto - 1] == min_weight(weights) {
            before.push(locations[upto - 1])
        } else {
            before
        }
    }
}

/// The least weight is one of the weights, and none is below it.
pub proof fn lemma_min_weight(weights: Seq<usize>)
    requires
        weights.len() > 0,
    ensures
        exists|i: int| 0 <= i < weights.len() && #[trigger] weights[i] == min_weight(weights),
        forall|i: int| 0 <= i < weights.len() ==> min_weight(weights) <= #[trigger] weights[i],
    decreases weights.len(),
{
    if weights.len() > 1 {
        let head = weights.drop_last();
        lemma_min_weight(head);
        let i = choose|i: int| 0 <= i < head.len() && #[trigger] head[i] == min_weight(head);
        assert(weights[i] == head[i]);
        assert(weights[weights.len() - 1] == weights.last());
        assert forall|j: int| 0 <= j < weights.len() implies min_weight(weights)
            <= #[trigger] weights[j] by {
            if j < head.len() {
                assert(head[j] == weights[j]);
            }
        }
    } else {
        assert(weights[0] == min_weight(weights));
    }
}

/// The locations whose weight is the least of all the weights.
pub fn keep_minimum(locations: &Vec<u16>, weights: &Vec<usize>) -> (min_locations: Vec<u16>)
    requires
        locations@.len() == weights@.len(),
    ensures
        min_locations@ == kept(locations@, weights@, locations@.len() as int),
{
    let mut min_locations: Vec<u16> = Vec::new();
    if weights.len() == 0 {
        return min_locations;
    }
    let mut least: usize = weights[0];
    let mut i: usize = 1;
    assert(weights@.take(1) =~= seq![weights@[0]]);
    while i < weights.len()
        invariant
            1 <= i <= weights@.len(),
            least == min_weight(weights@.take(i as int)),
        decreases weights@.len() - i,
    {
        proof {
            let head = weights@.take(i + 1);
            assert(head.drop_last() =~= weights@.take(i as int));
            assert(head.last() == weights@[i as int]);
        }
        if weights[i] < least {
            least = weights[i];
        }
        i += 1;
    }
    assert(weights@.take(i as int) =~= weights@);
    let mut i: usize = 0;
    while i < locations.len()
        invariant
            i <= locations@.len(),
            locations@.len() == weights@.len(),
            least == min_weight(weights@),
            min_locations@ == kept(locations@, weights@, i as int),
        decreases locations@.len() - i,
    {
        if weights[i] == least {
            min_locations.push(locations[i]);
        }
        i += 1;
    }
    min_locations
}

/// Every location that is kept is one of the locations, and where there is
/// a location, one is kept.
pub proof fn lemma_kept(locations: Seq<u16>, weights: Seq<usize>, upto: int)
    requires
        locations.len() == weights.len(),
        0 <= upto <= locations.len(),
    ensures
        kept(locations, weights, upto).len() <= upto,
        forall|j: int|
            0 <= j < kept(locations, weights, upto).len() ==> locations.contains(
                #[trigger] kept(locations, weights, upto)[j],
            ),
        forall|i: int|
            0 <= i < upto && weights[i] == min_weight(weights) ==> kept(
                locations,
                weights,
                upto,
            ).len() > 0,
    decreases upto,
{
    if upto > 0 {
        lemma_kept(locations, weights, upto - 1);
        let before = kept(locations, weights, upto - 1);
        let now = kept(locations, weights, upto);
        assert forall|j: int| 0 <= j < now.len() implies locations.contains(#[trigger] now[j]) by {
            if j < before.len() {
                assert(now[j] == before[j]);
            } else {
                assert(now[j] == locations[upto - 1]);
            }
        }
    }
}

/// For each location the number of polynomials among `events` that its
/// candidate divides.
pub open spec fn weights_of(events: Seq<Seq<bool>>, degree: u32, locations: Seq<u16>) -> Seq<usize> {
    Seq::new(
        locations.len(),
        |i: int| undetected_count(events, crc_coeffs(crc_value(locations[i], degree), degree)) as usize,
    )
}

/// The locations of all candidates of the degree `degree`.
pub open spec fn all_candidates(degree: u32) -> Seq<u16> {
    Seq::new(candidate_count(degree) as nat, |i: int| i as u16)
}

/// The candidates that are left after the distances from one to `d`: at each
/// distance that has paths, and while more than one candidate is left, those
/// stay that leave the fewest paths of that distance undetected.
pub open spec fn survivors(table: Seq<Seq<Seq<bool>>>, degree: u32, d: int) -> Seq<u16>
    decreases d,
{
    if d <= 0 {
        all_candidates(degree)
    } else {
        let before = survivors(table, degree, d - 1);
        if d >= table.len() || table[d].len() == 0 || before.len() <= 1 {
            before
        } else {
            kept(before, weights_of(table[d], degree, before), before.len() as int)
        }
    }
}

/// The least distance from `from` to `max` at which the polynomial `crc`
/// divides a path.
pub open spec fn first_undetected(table: Seq<Seq<Seq<bool>>>, crc: Seq<bool>, from: int, max: int)
    -> Option<int>
    decreases max - from + 1,
{
    if from > max {
        None
    } else if 0 <= from < table.len() && undetected_count(table[from], crc) > 0 {
        Some(from)
    } else {
        first_undetected(table, crc, from + 1, max)
    }
}

/// The bits of the candidates at the given locations.
pub open spec fn values_of(locations: Seq<u16>, degree: u32) -> Seq<u16> {
    Seq::new(locations.len(), |i: int| crc_value(locations[i], degree))
}

/// `outcome` is what the search over the distances from one to `max` ends
/// with: the one candidate that is left, with the least distance at which it
/// leaves a path undetected, or all the candidates that are left.
pub open spec fn is_outcome(
    outcome: &DsoOutcome,
    table: Seq<Seq<Seq<bool>>>,
    degree: u32,
    max: int,
) -> bool {
    let left = survivors(table, degree, max);
    match outcome {
        DsoOutcome::Found { polynomial, undetected_distance } => {
            &&& left.len() == 1
            &&& *polynomial == crc_value(left[0], degree)
            &&& match first_undetected(table, crc_coeffs(*polynomial, degree), 1, max) {
                Some(d) => *undetected_distance == Some(d as usize),
                None => *undetected_distance is None,
            }
        },
        DsoOutcome::Tied { candidates, stopped_distance } => {
            &&& left.len() != 1
            &&& candidates@ == values_of(left, degree)
            &&& *stopped_distance == max
        },
    }
}

/// The paths of `ztps` as polynomials, each without its last `cut` bits.
pub open spec fn table_of(ztps: &ZTPs, cut: int) -> Seq<Seq<Seq<bool>>> {
    Seq::new(
        ztps.zero_terminated_paths@.len(),
        |d: int|
            Seq::new(
                ztps.zero_terminated_paths@[d]@.len(),
                |j: int| stripped(ztps.zero_terminated_paths@[d]@[j]@, cut),
            ),
    )
}

/// The search goes the same way whenever it is given the same paths: two
/// outcomes for one table, one degree and one greatest distance name the same
/// polynomial and the same distance, or the same tied candidates.
pub proof fn lemma_search_is_deterministic(
    first: &DsoOutcome,
    second: &DsoOutcome,
    table: Seq<Seq<Seq<bool>>>,
    degree: u32,
    max: int,
)
    requires
        is_outcome(first, table, degree, max),
        is_outcome(second, table, degree, max),
    ensures
        match (first, second) {
            (
                DsoOutcome::Found { polynomial: p1, undetected_distance: u1 },
                DsoOutcome::Found { polynomial: p2, undetected_distance: u2 },
            ) => p1 == p2 && u1 == u2,
            (
                DsoOutcome::Tied { candidates: c1, stopped_distance: s1 },
                DsoOutcome::Tied { candidates: c2, stopped_distance: s2 },
            ) => c1@ == c2@ && s1 == s2,
            _ => false,
        },
{
}

/// Searching further can only narrow the choice: every candidate that is
/// left after the distances up to `far` was left after those up to `near`,
/// and no more are left.
pub proof fn lemma_survivors_shrink(table: Seq<Seq<Seq<bool>>>, degree: u32, near: int, far: int)
    requires
        near <= far,
    ensures
        survivors(table, degree, far).len() <= survivors(table, degree, near).len(),
        forall|j: int|
            0 <= j < survivors(table, degree, far).len() ==> survivors(
                table,
                degree,
                near,
            ).contains(#[trigger] survivors(table, degree, far)[j]),
    decreases far - near,
{
    if near < far {
        lemma_survivors_shrink(table, degree, near, far - 1);
        let before = survivors(table, degree, far - 1);
        let now = survivors(table, degree, far);
        if far <= 0 {
        } else if far >= table.len() || table[far].len() == 0 || before.len() <= 1 {
        } else {
            let weights = weights_of(table[far], degree, before);
            lemma_kept(before, weights, before.len() as int);
            assert forall|j: int| 0 <= j < now.len() implies survivors(table, degree, near).contains(
                #[trigger] now[j],
            ) by {
                assert(before.contains(now[j]));
                let i = choose|i: int| 0 <= i < before.len() && before[i] == now[j];
                assert(survivors(table, degree, near).contains(before[i]));
            }
        }
    } else {
        let here = survivors(table, degree, near);
        assert forall|j: int| 0 <= j < here.len() implies here.contains(#[trigger] here[j]) by {}
    }
}

/// A candidate is always left, and each one that is left is a candidate.
pub proof fn lemma_survivors_are_candidates(table: Seq<Seq<Seq<bool>>>, degree: u32, d: int)
    requires
        1 <= degree <= 15,
    ensures
        survivors(table, degree, d).len() >= 1,
        forall|j: int|
            0 <= j < survivors(table, degree, d).len() ==> #[trigger] survivors(table, degree, d)[j]
                < candidate_count(degree),
    decreases d,
{
    let shift = (degree - 1) as u16;
    assert(1 <= (1u16 << shift) <= 0x4000) by (bit_vector)
        requires
            shift <= 14,
    ;
    if d > 0 {
        lemma_survivors_are_candidates(table, degree, d - 1);
        let before = survivors(table, degree, d - 1);
        let now = survivors(table, degree, d);
        if !(d >= table.len() || table[d].len() == 0 || before.len() <= 1) {
            let weights = weights_of(table[d], degree, before);
            lemma_kept(before, weights, before.len() as int);
            lemma_min_weight(weights);
            assert forall|j: int| 0 <= j < now.len() implies #[trigger] now[j] < candidate_count(
                degree,
            ) by {
                assert(before.contains(now[j]));
                let i = choose|i: int| 0 <= i < before.len() && before[i] == now[j];
                assert(before[i] < candidate_count(degree));
            }
        }
    }
}

/// A search among the candidates of the degree one ends with the polynomial
/// `x + 1`, bits `11`, whatever the paths are: it is the only candidate.
pub proof fn lemma_degree_one_outcome(outcome: &DsoOutcome, table: Seq<Seq<Seq<bool>>>, max: int)
    requires
        is_outcome(outcome, table, 1, max),
    ensures
        outcome matches DsoOutcome::Found { polynomial, .. } && polynomial == 3,
{
    lemma_degree_one(table, max);
}

/// Of the degree one there is a single candidate, the polynomial `x + 1`,
/// and it is what the search ends with whatever the paths are.
pub proof fn lemma_degree_one(table: Seq<Seq<Seq<bool>>>, d: int)
    ensures
        survivors(table, 1, d) == seq![0u16],
        crc_value(0, 1) == 3,
        crc_coeffs(3, 1) == seq![true, true],
    decreases d,
{
    assert(1u16 << 0u16 == 1u16) by (bit_vector);
    assert(((0u16 | 1u16) << 1u16) | 1u16 == 3u16) by (bit_vector);
    assert(1u16 & (3u16 >> 1u16) != 0) by (bit_vector);
    assert(1u16 & (3u16 >> 0u16) != 0) by (bit_vector);
    assert(all_candidates(1) =~= seq![0u16]);
    assert(crc_coeffs(3, 1) =~= seq![true, true]);
    if d > 0 {
        lemma_degree_one(table, d - 1);
    }
}

/// The table of polynomials that `polys` holds: for each distance the
/// coefficients of its polynomials.
pub open spec fn polys_table(polys: &ZTP_Polys) -> Seq<Seq<Seq<bool>>> {
    Seq::new(
        polys.zero_terminated_paths@.len(),
        |d: int| polys_view(polys.zero_terminated_paths@[d]@),
    )
}

/// Searches, among the candidates of the degree `polynomial_degree`, for the
/// one that leaves the fewest zero-terminated paths undetected at the
/// distances from one to `max_search_distance`, taken in turn. The paths
/// count without their termination: the last `k * mu` bits, with `k` the
/// number of numerators and `mu` the number of termination steps for the
/// constraint length `v`.
pub fn dso_crc_polynomial_search(
    v: u16,
    numerators: &[u16],
    _octal_denominator: u16,
    max_search_distance: usize,
    _trellis_len: u16,
    polynomial_degree: u32,
    classic_ztps: &ZTPs,
) -> (outcome: DsoOutcome)
    requires
        1 <= v,
        1 <= numerators@.len() <= 15,
        1 <= polynomial_degree <= 15,
        max_search_distance < classic_ztps.zero_terminated_paths@.len(),
    ensures
        is_outcome(
            &outcome,
            table_of(
                classic_ztps,
                numerators@.len() * ((v - 1 + numerators@.len() - 1) / (numerators@.len() as int)),
            ),
            polynomial_degree,
            max_search_distance as int,
        ),
{
    let k: u16 = numerators.len() as u16;
    let mu: u32 = (v as u32 - 1 + k as u32 - 1) / (k as u32);
    let shift: u16 = (polynomial_degree - 1) as u16;
    assert(1 <= (1u16 << shift) <= 0x4000) by (bit_vector)
        requires
            shift <= 14,
    ;
    let list_size: u16 = 1u16 << shift;
    let candidate_crcs = generate_crcs(list_size, polynomial_degree);
    assert(mu <= 0x20000) by (nonlinear_arith)
        requires
            mu == (v - 1 + k - 1) / (k as int),
            1 <= k <= 15,
            1 <= v <= 0xffff,
    ;
    assert(k * mu <= 15 * 0x20000) by (nonlinear_arith)
        requires
            k <= 15,
            mu <= 0x20000,
    ;
    let ztps = convert_ztps(classic_ztps, k, mu);
    let ghost table = table_of(classic_ztps, k * mu);
    proof {
        assert(polys_table(&ztps) =~= table) by {
            assert forall|d: int| 0 <= d < table.len() implies polys_table(&ztps)[d] =~= table[d] by {
                assert(is_converted_bucket(
                    ztps.zero_terminated_paths@[d]@,
                    classic_ztps.zero_terminated_paths@[d]@,
                    k * mu,
                ));
            }
        }
    }

    let mut locations: Vec<u16> = Vec::new();
    let mut i: u16 = 0;
    while i < list_size
        invariant
            i <= list_size,
            locations@.len() == i,
            forall|j: int| 0 <= j < i ==> #[trigger] locations@[j] == j as u16,
        decreases list_size - i,
    {
        locations.push(i);
        i += 1;
    }
    assert(locations@ =~= all_candidates(polynomial_degree));

    let rows: usize = ztps.zero_terminated_paths.len();
    let mut distance: usize = 1;
    while distance <= max_search_distance
        invariant
            1 <= polynomial_degree <= 15,
            list_size == candidate_count(polynomial_degree),
            1 <= distance <= max_search_distance + 1,
            max_search_distance < rows,
            rows == ztps.zero_terminated_paths@.len(),
            table == polys_table(&ztps),
            candidate_crcs@.len() == list_size,
            forall|idx: int|
                0 <= idx < list_size ==> {
                    &&& (#[trigger] candidate_crcs@[idx]).poly_data == crc_value(
                        idx as u16,
                        polynomial_degree,
                    )
                    &&& candidate_crcs@[idx].poly@ == crc_coeffs(
                        crc_value(idx as u16, polynomial_degree),
                        polynomial_degree,
                    )
                },
            locations@ == survivors(table, polynomial_degree, distance - 1),
        decreases max_search_distance + 1 - distance,
    {
        proof {
            lemma_survivors_are_candidates(table, polynomial_degree, distance - 1);
        }
        if ztps.zero_terminated_paths[distance].len() != 0 && locations.len() > 1 {
            let mut weight_vector: Vec<usize> = Vec::new();
            let mut n: usize = 0;
            while n < locations.len()
                invariant
                    1 <= polynomial_degree <= 15,
                    n <= locations@.len(),
                    distance < ztps.zero_terminated_paths@.len(),
                    table == polys_table(&ztps),
                    candidate_crcs@.len() == list_size,
                    forall|idx: int|
                        0 <= idx < list_size ==> {
                            &&& (#[trigger] candidate_crcs@[idx]).poly_data == crc_value(
                                idx as u16,
                                polynomial_degree,
                            )
                            &&& candidate_crcs@[idx].poly@ == crc_coeffs(
                                crc_value(idx as u16, polynomial_degree),
                                polynomial_degree,
                            )
                        },
                    forall|j: int| 0 <= j < locations@.len() ==> #[trigger] locations@[j] < list_size,
                    weight_vector@.len() == n,
                    forall|j: int|
                        0 <= j < n ==> #[trigger] weight_vector@[j] == weights_of(
                            table[distance as int],
                            polynomial_degree,
                            locations@,
                        )[j],
                decreases locations@.len() - n,
            {
                let location = locations[n] as usize;
                let crc = &candidate_crcs[location];
                proof {
                    lemma_undetected_count_bound(table[distance as int], crc.poly@);
                }
                let weight = check_divisible_by_distance(crc, &ztps.zero_terminated_paths[distance]);
                weight_vector.push(weight);
                n += 1;
            }
            assert(weight_vector@ =~= weights_of(
                table[distance as int],
                polynomial_degree,
                locations@,
            ));
            locations = keep_minimum(&locations, &weight_vector);
        }
        distance += 1;
    }

    proof {
        lemma_survivors_are_candidates(table, polynomial_degree, max_search_distance as int);
    }
    if locations.len() == 1 {
        let crc = &candidate_crcs[locations[0] as usize];
        let mut undetected_distance: Option<usize> = None;
        let mut distance: usize = 1;
        while distance <= max_search_distance
            invariant_except_break
                1 <= distance <= max_search_distance + 1,
                undetected_distance is None,
                first_undetected(table, crc.poly@, 1, max_search_distance as int)
                    == first_undetected(
                    table,
                    crc.poly@,
                    distance as int,
                    max_search_distance as int,
                ),
            invariant
                max_search_distance < rows,
                rows == ztps.zero_terminated_paths@.len(),
                table == polys_table(&ztps),
                crc.poly@.len() > 0,
            ensures
                match first_undetected(table, crc.poly@, 1, max_search_distance as int) {
                    Some(d) => undetected_distance == Some(d as usize),
                    None => undetected_distance is None,
                },
            decreases max_search_distance + 1 - distance,
        {
            let w = check_divisible_by_distance(crc, &ztps.zero_terminated_paths[distance]);
            if w > 0 {
                undetected_distance = Some(distance);
                break ;
            }
            distance += 1;
        }
        DsoOutcome::Found { polynomial: crc.poly_data, undetected_distance }
    } else {
        let mut crc_gen_polynomials: Vec<u16> = Vec::new();
        let mut n: usize = 0;
        while n < locations.len()
            invariant
                n <= locations@.len(),
                candidate_crcs@.len() == list_size,
                forall|idx: int|
                    0 <= idx < list_size ==> (#[trigger] candidate_crcs@[idx]).poly_data == crc_value(
                        idx as u16,
                        polynomial_degree,
                    ),
                forall|j: int| 0 <= j < locations@.len() ==> #[trigger] locations@[j] < list_size,
                crc_gen_polynomials@.len() == n,
                forall|j: int|
                    0 <= j < n ==> #[trigger] crc_gen_polynomials@[j] == crc_value(
                        locations@[j],
                        polynomial_degree,
                    ),
            decreases locations@.len() - n,
        {
            crc_gen_polynomials.push(candidate_crcs[locations[n] as usize].poly_data);
            n += 1;
        }
        assert(crc_gen_polynomials@ =~= values_of(locations@, polynomial_degree));
        DsoOutcome::Tied { candidates: crc_gen_polynomials, stopped_distance: max_search_distance }
    }
}

} // verus!
