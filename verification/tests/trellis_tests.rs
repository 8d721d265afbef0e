use ztcc::trellis::{
    generate_feedback_trellis, generate_transition_tables, parse_octal, Trellis, TrellisError,
};

fn rows(t: &Trellis, next: bool) -> Vec<Vec<u16>> {
    let mut all = Vec::new();
    for s in 0..t.num_states {
        let table = if next { &t.next_states } else { &t.outputs };
        all.push(table.row(s).to_vec());
    }
    all
}

fn follow(t: &Trellis, from: usize, inputs: &[u16]) -> usize {
    let mut state = from;
    for m in inputs {
        state = *t.next_states.index(state, *m as usize) as usize;
    }
    state
}

#[test]
fn octal_digits_are_read_in_base_eight() {
    assert_eq!(parse_octal(141), Some(97));
    assert_eq!(parse_octal(107), Some(71));
    assert_eq!(parse_octal(7), Some(7));
    assert_eq!(parse_octal(0), Some(0));
    assert_eq!(parse_octal(8), None);
    assert_eq!(parse_octal(190), None);
    assert_eq!(parse_octal(65535), Some(27485));
    assert_eq!(parse_octal(17777), Some(8191));
}

#[test]
fn tables_of_the_smallest_encoder() {
    let t = generate_transition_tables(3, &[3], 3).unwrap();
    assert_eq!(t.num_states, 4);
    assert_eq!(t.num_input_symbols, 2);
    assert_eq!(t.num_output_symbols, 4);
    assert_eq!(rows(&t, true), vec![vec![0, 0], vec![1, 1], vec![1, 1], vec![0, 0]]);
    assert_eq!(rows(&t, false), vec![vec![0, 3], vec![2, 1], vec![0, 3], vec![2, 1]]);
    assert!(t.terminations.is_empty());
}

#[test]
fn encoder_with_an_absorbing_state_is_rejected() {
    // state 1 of this encoder leads only to itself
    assert_eq!(generate_feedback_trellis(3, &[3], 3).err(), Some(TrellisError::Unreachable));
}

#[test]
fn trellis_of_a_rate_one_half_encoder() {
    let t = generate_feedback_trellis(3, &[5], 7).unwrap();
    assert_eq!(rows(&t, true), vec![vec![0, 1], vec![3, 2], vec![1, 0], vec![2, 3]]);
    assert_eq!(rows(&t, false), vec![vec![0, 3], vec![2, 1], vec![0, 3], vec![2, 1]]);
    assert_eq!(t.terminations, vec![vec![0, 0], vec![1, 1], vec![1, 0], vec![0, 1]]);
}

#[test]
fn trellis_of_a_rate_two_thirds_encoder() {
    let t = generate_feedback_trellis(4, &[15, 17], 13).unwrap();
    assert_eq!(t.num_states, 8);
    assert_eq!(t.num_input_symbols, 4);
    assert_eq!(t.num_output_symbols, 8);
    assert_eq!(
        rows(&t, true),
        vec![
            vec![0, 3, 2, 1],
            vec![5, 6, 7, 4],
            vec![1, 2, 3, 0],
            vec![4, 7, 6, 5],
            vec![2, 1, 0, 3],
            vec![7, 4, 5, 6],
            vec![3, 0, 1, 2],
            vec![6, 5, 4, 7]
        ]
    );
    assert_eq!(rows(&t, false)[1], vec![4, 1, 2, 7]);
    assert_eq!(
        t.terminations,
        vec![
            vec![0, 0],
            vec![3, 2],
            vec![3, 0],
            vec![0, 2],
            vec![2, 0],
            vec![1, 2],
            vec![1, 0],
            vec![2, 2]
        ]
    );
}

#[test]
fn termination_sequences_reach_state_zero() {
    let t = generate_feedback_trellis(7, &[107, 135, 133], 141).unwrap();
    assert_eq!(t.num_states, 64);
    assert_eq!(t.num_input_symbols, 8);
    assert_eq!(t.num_output_symbols, 16);
    assert_eq!(t.terminations.len(), 64);
    for s in 0..t.num_states {
        assert_eq!(t.terminations[s].len(), 2);
        assert_eq!(follow(&t, s, &t.terminations[s]), 0);
    }
    assert_eq!(t.terminations[0], vec![0, 0]);
}

#[test]
fn padded_terminations_have_the_common_length() {
    let t = generate_feedback_trellis(4, &[13], 15).unwrap();
    assert_eq!(t.terminations[0], vec![0, 0, 0]);
    assert_eq!(t.terminations[6], vec![1, 0, 0]);
    assert_eq!(t.terminations[5], vec![1, 1, 1]);
}

#[test]
fn each_configuration_error_is_reported() {
    assert_eq!(generate_feedback_trellis(1, &[3], 3).err(), Some(TrellisError::ConstraintLength));
    assert_eq!(generate_feedback_trellis(17, &[3], 3).err(), Some(TrellisError::ConstraintLength));
    assert_eq!(generate_feedback_trellis(3, &[], 3).err(), Some(TrellisError::InputRails));
    assert_eq!(generate_feedback_trellis(3, &[1; 16], 3).err(), Some(TrellisError::InputRails));
    assert_eq!(generate_feedback_trellis(3, &[8], 3).err(), Some(TrellisError::OctalDigit));
    assert_eq!(generate_feedback_trellis(3, &[5], 9).err(), Some(TrellisError::OctalDigit));
    assert_eq!(generate_feedback_trellis(3, &[10], 7).err(), Some(TrellisError::PolynomialWidth));
    assert_eq!(generate_feedback_trellis(3, &[5], 17).err(), Some(TrellisError::PolynomialWidth));
    assert_eq!(generate_feedback_trellis(3, &[5], 6).err(), Some(TrellisError::Denominator));
    assert_eq!(generate_transition_tables(3, &[5], 6).err(), Some(TrellisError::Denominator));
}
