use ztcc::bitpath::BitPath;
use ztcc::compute_ztcc_weight_spectrum::compute_ztcc_weight_spectrum;
use ztcc::dso_crc_polynomial_search::{
    check_divisible_by_distance, convert_ztps, dso_crc_polynomial_search, generate_crcs,
    keep_minimum, no_coefficient_set, DsoOutcome, Poly,
};
use ztcc::find_irreducible_error_event::find_irreducible_error_event;
use ztcc::reconstruct_ztps::{reconstruct_ztps, ZTPs};
use ztcc::trellis::generate_feedback_trellis;

fn path(values: &[u8]) -> BitPath {
    BitPath::from_bools(&values.iter().map(|b| *b != 0).collect())
}

fn poly(values: &[u8]) -> Poly<BitPath> {
    Poly { poly: values.iter().map(|b| *b != 0).collect(), poly_data: path(values), data_idx: 0 }
}

fn crc(values: &[u8], data: u16) -> Poly<u16> {
    Poly { poly: values.iter().map(|b| *b != 0).collect(), poly_data: data, data_idx: 0 }
}

fn ztps_of(v: u16, nums: &[u16], den: u16, max: usize, n: u16) -> ZTPs {
    let t = generate_feedback_trellis(v, nums, den).unwrap();
    let events = find_irreducible_error_event(v, nums, den, max, &t);
    let spectrum = compute_ztcc_weight_spectrum(v, nums, den, n, &t);
    reconstruct_ztps(v, nums, den, max, n, &spectrum, &events).unwrap()
}

#[test]
fn candidates_have_both_end_bits_set() {
    let crcs = generate_crcs(4, 3);
    let data: Vec<u16> = crcs.iter().map(|c| c.poly_data).collect();
    assert_eq!(data, vec![9, 11, 13, 15]);
    assert_eq!(crcs[1].poly, vec![true, false, true, true]);
    assert_eq!(crcs[2].poly, vec![true, true, false, true]);
    assert_eq!(crcs[2].data_idx, 2);
    let one = generate_crcs(1, 1);
    assert_eq!(one.len(), 1);
    assert_eq!(one[0].poly_data, 3);
    assert_eq!(one[0].poly, vec![true, true]);
    assert!(generate_crcs(0, 2).is_empty());
}

#[test]
fn paths_lose_their_termination() {
    let ztps = ZTPs {
        zero_terminated_paths: vec![vec![path(&[1, 0, 1, 1, 0, 0])], vec![], vec![path(&[1, 0])]],
        aggregate: 2,
    };
    let polys = convert_ztps(&ztps, 2, 2);
    assert_eq!(polys.aggregate, 2);
    assert_eq!(polys.zero_terminated_paths.len(), 3);
    assert_eq!(polys.zero_terminated_paths[0][0].poly, vec![true, false]);
    assert_eq!(
        polys.zero_terminated_paths[0][0].poly_data.to_bools(),
        vec![true, false, true, true, false, false]
    );
    assert_eq!(polys.zero_terminated_paths[0][0].data_idx, 0);
    assert!(polys.zero_terminated_paths[1].is_empty());
    // shorter than the termination: nothing is left
    assert!(polys.zero_terminated_paths[2][0].poly.is_empty());
}

#[test]
fn divisible_events_are_counted() {
    let parity = crc(&[1, 1], 3);
    // x^2 + 1 is a multiple of x + 1, x^3 + x + 1 is not, zero is
    let events = vec![poly(&[1, 0, 1]), poly(&[1, 1, 0, 1]), poly(&[0, 0]), poly(&[])];
    assert_eq!(check_divisible_by_distance(&parity, &events), 3);
    let cubic = crc(&[1, 1, 0, 1], 13);
    // (x^3 + x + 1)(x + 1) = x^4 + x^3 + x^2 + 1
    let events = vec![poly(&[1, 0, 1, 1, 1]), poly(&[1, 1, 0, 1]), poly(&[1, 0, 1])];
    assert_eq!(check_divisible_by_distance(&cubic, &events), 2);
    assert_eq!(check_divisible_by_distance(&cubic, &Vec::new()), 0);
}

#[test]
fn remainders_without_a_one_are_zero() {
    assert!(no_coefficient_set(&vec![false, false]));
    assert!(no_coefficient_set(&vec![]));
    assert!(!no_coefficient_set(&vec![false, true]));
}

#[test]
fn locations_of_the_least_weight_stay() {
    assert_eq!(keep_minimum(&vec![4, 7, 9, 12], &vec![3, 1, 2, 1]), vec![7, 12]);
    assert_eq!(keep_minimum(&vec![4, 7], &vec![0, 0]), vec![4, 7]);
    assert_eq!(keep_minimum(&vec![5], &vec![8]), vec![5]);
    assert!(keep_minimum(&vec![], &vec![]).is_empty());
}

#[test]
fn degree_one_selects_the_parity_check() {
    let z = ztps_of(3, &[5], 7, 8, 8);
    assert_eq!(
        dso_crc_polynomial_search(3, &[5], 7, 8, 8, 1, &z),
        DsoOutcome::Found { polynomial: 3, undetected_distance: Some(5) }
    );
    // with no path at all the single candidate is still the answer
    let empty = ZTPs { zero_terminated_paths: vec![vec![], vec![], vec![]], aggregate: 0 };
    assert_eq!(
        dso_crc_polynomial_search(3, &[5], 7, 2, 8, 1, &empty),
        DsoOutcome::Found { polynomial: 3, undetected_distance: None }
    );
}

#[test]
fn search_on_a_rate_one_half_encoder() {
    let z = ztps_of(3, &[5], 7, 8, 8);
    assert_eq!(
        dso_crc_polynomial_search(3, &[5], 7, 8, 8, 2, &z),
        DsoOutcome::Found { polynomial: 5, undetected_distance: Some(6) }
    );
    assert_eq!(
        dso_crc_polynomial_search(3, &[5], 7, 8, 8, 3, &z),
        DsoOutcome::Tied { candidates: vec![11, 15], stopped_distance: 8 }
    );
    assert_eq!(
        dso_crc_polynomial_search(3, &[5], 7, 8, 8, 4, &z),
        DsoOutcome::Tied { candidates: vec![23, 29, 31], stopped_distance: 8 }
    );
}

#[test]
fn search_on_larger_encoders() {
    let z = ztps_of(4, &[15, 17], 13, 7, 6);
    assert_eq!(
        dso_crc_polynomial_search(4, &[15, 17], 13, 7, 6, 3, &z),
        DsoOutcome::Found { polynomial: 15, undetected_distance: Some(4) }
    );
    assert_eq!(
        dso_crc_polynomial_search(4, &[15, 17], 13, 7, 6, 4, &z),
        DsoOutcome::Found { polynomial: 21, undetected_distance: Some(4) }
    );
    assert_eq!(
        dso_crc_polynomial_search(4, &[15, 17], 13, 7, 6, 5, &z),
        DsoOutcome::Tied { candidates: vec![47, 59], stopped_distance: 7 }
    );
    let z = ztps_of(7, &[107, 135, 133], 141, 9, 5);
    assert_eq!(
        dso_crc_polynomial_search(7, &[107, 135, 133], 141, 9, 5, 4, &z),
        DsoOutcome::Found { polynomial: 19, undetected_distance: Some(8) }
    );
    assert_eq!(
        dso_crc_polynomial_search(7, &[107, 135, 133], 141, 9, 5, 6, &z),
        DsoOutcome::Tied { candidates: vec![89, 93, 117, 119], stopped_distance: 9 }
    );
}

#[test]
fn searching_further_never_widens_the_choice() {
    let z = ztps_of(4, &[15, 17], 13, 7, 6);
    let mut before: Option<Vec<u16>> = None;
    for max in 0..=7usize {
        let left = match dso_crc_polynomial_search(4, &[15, 17], 13, max, 6, 5, &z) {
            DsoOutcome::Found { polynomial, .. } => vec![polynomial],
            DsoOutcome::Tied { candidates, .. } => candidates,
        };
        if let Some(wider) = &before {
            assert!(left.iter().all(|c| wider.contains(c)));
            assert!(left.len() <= wider.len());
        } else {
            assert_eq!(left.len(), 16);
        }
        before = Some(left);
    }
    // and the same search gives the same answer
    assert_eq!(
        dso_crc_polynomial_search(4, &[15, 17], 13, 7, 6, 5, &z),
        dso_crc_polynomial_search(4, &[15, 17], 13, 7, 6, 5, &z)
    );
}
