use ztcc::bitpath::BitPath;
use ztcc::compute_ztcc_weight_spectrum::compute_ztcc_weight_spectrum;
use ztcc::find_irreducible_error_event::{find_irreducible_error_event, ErrorEvents};
use ztcc::poly_wrapper::PolyWrapper;
use ztcc::reconstruct_ztps::{reconstruct_ztps, ztps_match_spectrum, ReconstructError, ZTPs};
use ztcc::trellis::{generate_feedback_trellis, generate_transition_tables, Trellis};

fn counts(z: &ZTPs) -> Vec<usize> {
    z.zero_terminated_paths.iter().map(|b| b.len()).collect()
}

fn bits(p: &BitPath) -> Vec<u8> {
    p.to_bools().iter().map(|b| *b as u8).collect()
}

fn path(values: &[u8]) -> BitPath {
    BitPath::from_bools(&values.iter().map(|b| *b != 0).collect())
}

fn pipeline(v: u16, nums: &[u16], den: u16, max: usize, n: u16, t: &Trellis) -> (ZTPs, PolyWrapper) {
    let events = find_irreducible_error_event(v, nums, den, max, t);
    let spectrum = compute_ztcc_weight_spectrum(v, nums, den, n, t);
    let ztps = reconstruct_ztps(v, nums, den, max, n, &spectrum, &events).unwrap();
    (ztps, spectrum)
}

#[test]
fn paths_of_a_rate_one_half_encoder() {
    let t = generate_feedback_trellis(3, &[5], 7).unwrap();
    let (z, spectrum) = pipeline(3, &[5], 7, 6, 6, &t);
    assert_eq!(counts(&z), vec![1, 0, 0, 0, 0, 4, 5]);
    assert_eq!(z.aggregate, 10);
    assert_eq!(bits(&z.zero_terminated_paths[0][0]), vec![0, 0, 0, 0, 0, 0]);
    let fifth: Vec<Vec<u8>> = z.zero_terminated_paths[5].iter().map(bits).collect();
    assert_eq!(
        fifth,
        vec![
            vec![0, 0, 0, 1, 1, 1],
            vec![0, 0, 1, 1, 1, 0],
            vec![0, 1, 1, 1, 0, 0],
            vec![1, 1, 1, 0, 0, 0]
        ]
    );
    assert_eq!(bits(&z.zero_terminated_paths[6][0]), vec![0, 0, 1, 0, 0, 1]);
    assert_eq!(bits(&z.zero_terminated_paths[6][1]), vec![0, 1, 1, 0, 1, 1]);
    assert!(ztps_match_spectrum(&z, &spectrum, 6));
}

#[test]
fn path_counts_equal_the_weight_enumerator() {
    let t = generate_transition_tables(3, &[3], 3).unwrap();
    let (z, spectrum) = pipeline(3, &[3], 3, 4, 4, &t);
    assert_eq!(counts(&z), vec![1, 0, 4, 0, 6]);
    assert_eq!(z.aggregate, 11);
    assert!(ztps_match_spectrum(&z, &spectrum, 4));

    let t = generate_feedback_trellis(4, &[15, 17], 13).unwrap();
    let (z, spectrum) = pipeline(4, &[15, 17], 13, 6, 5, &t);
    assert_eq!(counts(&z), vec![1, 0, 0, 0, 4, 13, 23]);
    assert_eq!(z.aggregate, 41);
    assert!(ztps_match_spectrum(&z, &spectrum, 6));
    for bucket in &z.zero_terminated_paths {
        for p in bucket {
            assert_eq!(p.len(), 10);
        }
    }

    let t = generate_feedback_trellis(7, &[107, 135, 133], 141).unwrap();
    let (z, spectrum) = pipeline(7, &[107, 135, 133], 141, 8, 4, &t);
    assert_eq!(counts(&z), vec![1, 0, 0, 0, 0, 0, 9, 20, 13]);
    assert_eq!(z.aggregate, 43);
    assert!(ztps_match_spectrum(&z, &spectrum, 8));
}

#[test]
fn every_path_gets_the_event_appended() {
    // two paths of weight one and one step, then an event of weight one:
    // both must grow by the event
    let events = ErrorEvents {
        error_events: vec![vec![path(&[1]), path(&[1])]],
        error_event_lengths: vec![vec![1, 1]],
    };
    let spectrum = PolyWrapper::from_coeffs(&vec![1, 1, 1]);
    let z = reconstruct_ztps(3, &[5], 7, 2, 2, &spectrum, &events).unwrap();
    let two: Vec<Vec<u8>> = z.zero_terminated_paths[2].iter().map(bits).collect();
    assert_eq!(two, vec![vec![1, 1], vec![1, 1], vec![1, 1], vec![1, 1]]);
    let one: Vec<Vec<u8>> = z.zero_terminated_paths[1].iter().map(bits).collect();
    assert_eq!(one, vec![vec![0, 1], vec![0, 1], vec![1, 0], vec![1, 0]]);
    assert!(!ztps_match_spectrum(&z, &spectrum, 2));
}

#[test]
fn events_are_cut_down_to_their_own_length() {
    // the event is listed with three bits of which two are padding
    let events = ErrorEvents {
        error_events: vec![vec![path(&[1, 0, 0])]],
        error_event_lengths: vec![vec![1]],
    };
    let spectrum = PolyWrapper::from_coeffs(&vec![1, 3]);
    let z = reconstruct_ztps(3, &[5], 7, 1, 3, &spectrum, &events).unwrap();
    let one: Vec<Vec<u8>> = z.zero_terminated_paths[1].iter().map(bits).collect();
    assert_eq!(one, vec![vec![0, 0, 1], vec![0, 1, 0], vec![1, 0, 0]]);
    assert!(ztps_match_spectrum(&z, &spectrum, 1));
}

#[test]
fn distance_beyond_the_degree_is_insufficient() {
    let t = generate_feedback_trellis(3, &[5], 7).unwrap();
    let events = find_irreducible_error_event(3, &[5], 7, 12, &t);
    let spectrum = compute_ztcc_weight_spectrum(3, &[5], 7, 6, &t);
    // the enumerator of six steps has the degree ten
    assert_eq!(
        reconstruct_ztps(3, &[5], 7, 11, 6, &spectrum, &events).err(),
        Some(ReconstructError::InsufficientParameters)
    );
    assert!(reconstruct_ztps(3, &[5], 7, 10, 6, &spectrum, &events).is_ok());
    let zero = PolyWrapper::zero();
    assert_eq!(
        reconstruct_ztps(3, &[5], 7, 0, 6, &zero, &events).err(),
        Some(ReconstructError::InsufficientParameters)
    );
}

#[test]
fn no_step_gives_no_path() {
    let t = generate_feedback_trellis(3, &[5], 7).unwrap();
    let events = find_irreducible_error_event(3, &[5], 7, 2, &t);
    let spectrum = PolyWrapper::from_coeffs(&vec![1, 0, 1]);
    let z = reconstruct_ztps(3, &[5], 7, 2, 0, &spectrum, &events).unwrap();
    assert_eq!(counts(&z), vec![0, 0, 0]);
    assert_eq!(z.aggregate, 0);
}
