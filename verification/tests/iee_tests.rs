use ztcc::find_irreducible_error_event::{
    find_irreducible_error_event, irreducible_error_events, ErrorEvents,
};
use ztcc::trellis::{generate_feedback_trellis, generate_transition_tables};

fn counts(e: &ErrorEvents) -> Vec<usize> {
    e.error_events.iter().map(|b| b.len()).collect()
}

fn bits(e: &ErrorEvents, d: usize, j: usize) -> Vec<u8> {
    e.error_events[d][j].to_bools().iter().map(|b| *b as u8).collect()
}

#[test]
fn single_step_event_of_the_smallest_encoder() {
    let t = generate_transition_tables(3, &[3], 3).unwrap();
    let e = find_irreducible_error_event(3, &[3], 3, 4, &t);
    assert_eq!(counts(&e), vec![0, 1, 0, 0]);
    assert_eq!(bits(&e, 1, 0), vec![1]);
    assert_eq!(e.error_event_lengths, vec![vec![], vec![1], vec![], vec![]]);
}

#[test]
fn events_of_a_rate_one_half_encoder() {
    let t = generate_feedback_trellis(3, &[5], 7).unwrap();
    let e = irreducible_error_events(&t, 1, 6, 12);
    assert_eq!(counts(&e), vec![0, 0, 0, 0, 1, 2]);
    assert_eq!(e.error_event_lengths[4], vec![3]);
    assert_eq!(e.error_event_lengths[5], vec![4, 5]);
    assert_eq!(bits(&e, 4, 0), vec![1, 1, 1]);
    // the shorter event is filled up to the length of the longer one
    assert_eq!(bits(&e, 5, 0).len(), 5);
    assert_eq!(bits(&e, 5, 0)[4], 0);
    assert_eq!(bits(&e, 5, 1).len(), 5);
}

#[test]
fn events_of_a_rate_two_thirds_encoder() {
    let t = generate_feedback_trellis(4, &[15, 17], 13).unwrap();
    let e = irreducible_error_events(&t, 2, 6, 12);
    assert_eq!(counts(&e), vec![0, 0, 0, 1, 5, 24]);
    assert_eq!(e.error_event_lengths[3], vec![4]);
    assert_eq!(e.error_event_lengths[4], vec![6, 6, 6, 8, 8]);
    assert_eq!(&e.error_event_lengths[5][..6], &[6, 8, 8, 8, 8, 8]);
}

#[test]
fn events_of_the_rate_three_quarters_encoder() {
    let t = generate_feedback_trellis(7, &[107, 135, 133], 141).unwrap();
    let e = irreducible_error_events(&t, 3, 6, 12);
    assert_eq!(counts(&e), vec![0, 0, 0, 0, 0, 26]);
    assert_eq!(&e.error_event_lengths[5][..6], &[9, 9, 12, 12, 12, 12]);
}

#[test]
fn no_distance_and_no_depth_give_no_event() {
    let t = generate_feedback_trellis(3, &[5], 7).unwrap();
    let e = irreducible_error_events(&t, 1, 0, 12);
    assert!(e.error_events.is_empty());
    assert!(e.error_event_lengths.is_empty());
    let e = irreducible_error_events(&t, 1, 6, 0);
    assert_eq!(counts(&e), vec![0; 6]);
}

#[test]
fn first_event_of_a_distance_is_a_shortest_one() {
    // every return to state zero within the depth, by exhaustive walk
    let t = generate_feedback_trellis(3, &[5], 7).unwrap();
    let e = irreducible_error_events(&t, 1, 8, 10);
    let mut shortest = vec![usize::MAX; 8];
    for len in 1..=10usize {
        for word in 0..(1u32 << len) {
            let mut state = 0usize;
            let mut weight = 0u32;
            let mut ok = true;
            for step in 0..len {
                let m = ((word >> (len - 1 - step)) & 1) as usize;
                if step == 0 && m == 0 {
                    ok = false;
                    break;
                }
                weight += t.outputs.index(state, m).count_ones();
                state = *t.next_states.index(state, m) as usize;
                if state == 0 && step + 1 < len {
                    ok = false;
                    break;
                }
            }
            if ok && state == 0 && weight >= 1 && (weight as usize) <= 8 {
                let d = weight as usize - 1;
                if shortest[d] == usize::MAX {
                    shortest[d] = len;
                }
            }
        }
    }
    for d in 0..8 {
        match e.error_event_lengths[d].first() {
            Some(first) => assert_eq!(*first as usize, shortest[d]),
            None => assert_eq!(shortest[d], usize::MAX),
        }
    }
}

#[test]
fn no_event_is_listed_twice() {
    let t = generate_feedback_trellis(4, &[15, 17], 13).unwrap();
    let e = irreducible_error_events(&t, 2, 7, 10);
    for d in 0..7 {
        let count = e.error_events[d].len();
        assert_eq!(e.error_event_lengths[d].len(), count);
        for i in 0..count {
            for j in (i + 1)..count {
                let a = &bits(&e, d, i)[..e.error_event_lengths[d][i] as usize];
                let b = &bits(&e, d, j)[..e.error_event_lengths[d][j] as usize];
                assert!(a != b);
            }
            assert!(i == 0 || e.error_event_lengths[d][i - 1] <= e.error_event_lengths[d][i]);
            assert_eq!(bits(&e, d, i).len() as u32, e.error_event_lengths[d][count - 1]);
        }
    }
}

#[test]
fn paths_keep_their_bits() {
    let bools = vec![true, false, false, true, true];
    let path = ztcc::bitpath::BitPath::from_bools(&bools);
    assert_eq!(path.len(), 5);
    assert_eq!(path.to_bools(), bools);
    let empty = ztcc::bitpath::BitPath::from_bools(&Vec::new());
    assert_eq!(empty.len(), 0);
    assert!(empty.to_bools().is_empty());
}

#[test]
fn events_at_the_greatest_distance_are_dropped() {
    // the only edge out of state zero already weighs two
    let t = generate_transition_tables(3, &[3], 3).unwrap();
    let e = irreducible_error_events(&t, 1, 1, 5);
    assert_eq!(counts(&e), vec![0]);
    let e = irreducible_error_events(&t, 1, 2, 5);
    assert_eq!(counts(&e), vec![0, 1]);
}

#[test]
fn depth_limits_the_events_found() {
    let t = generate_feedback_trellis(3, &[5], 7).unwrap();
    // the shortest event takes three steps
    assert_eq!(counts(&irreducible_error_events(&t, 1, 6, 2)), vec![0; 6]);
    assert_eq!(counts(&irreducible_error_events(&t, 1, 6, 3)), vec![0, 0, 0, 0, 1, 0]);
    assert_eq!(counts(&irreducible_error_events(&t, 1, 6, 4)), vec![0, 0, 0, 0, 1, 1]);
}
