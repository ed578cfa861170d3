use sdf::markov::d_markov::DMarkovMachine;
use sdf::markov::state::State;
use sdf::markov::transitions::{byte_transition_counts, code_labels, index_labels, restrict_to_kept};
use sdf::SdfError;

#[test]
fn test_d_markov_creation() {
    let sequence = vec!['a', 'b', 'a', 'b', 'a', 'b', 'a', 'b'];
    let machine = DMarkovMachine::new(&sequence, 1, 2).unwrap();

    assert_eq!(machine.order(), 1);
    assert_eq!(machine.n_states(), 2);
}

#[test]
fn test_d_markov_machine() {
    let symbols: Vec<char> = "abaababbaabaabb".chars().collect();
    let depth = 2;
    let alphabet_size = 2;

    let machine = DMarkovMachine::new(&symbols, depth, alphabet_size)
        .expect("D-Markov creation should succeed");

    assert_eq!(machine.order(), depth);
    assert_eq!(machine.n_states(), 4); // 2^2 = 4 states

    let matrix = machine.transition_counts();
    assert_eq!(matrix.len(), 4);
    assert_eq!(matrix[0].len(), 4);
}

#[test]
fn test_state_creation() {
    let state = State::new(0, "a".to_string()).unwrap();
    assert_eq!(state.id(), 0);
    assert_eq!(state.word(), "a");
}

#[test]
fn test_state_from_word() {
    let state = State::from_word(1, "abc").unwrap();
    assert_eq!(state.word(), "abc");
}

#[test]
fn d_markov_states_are_words_in_order() {
    let machine = DMarkovMachine::new(&['a', 'b', 'c', 'a'], 2, 3).unwrap();
    let states: Vec<&str> = machine.states().iter().map(|s| s.as_str()).collect();
    assert_eq!(states, vec!["aa", "ab", "ac", "ba", "bb", "bc", "ca", "cb", "cc"]);
    assert_eq!(machine.state(5).unwrap(), "bc");
    assert!(matches!(machine.state(9), Err(SdfError::InvalidParameter(_))));
}

#[test]
fn d_markov_counts_windows() {
    // Transitions of depth 1 over "ababb": a->b, b->a, a->b, b->b.
    let seq: Vec<char> = "ababb".chars().collect();
    let machine = DMarkovMachine::new(&seq, 1, 2).unwrap();
    assert_eq!(machine.transition_counts(), &vec![vec![0, 2], vec![1, 1]]);
    assert_eq!(machine.departure_counts(), &[2, 2]);
    // Depth 2: windows ab->ba, ba->ab, ab->bb.
    let machine = DMarkovMachine::new(&seq, 2, 2).unwrap();
    let counts = machine.transition_counts();
    assert_eq!(counts[1][2], 1); // ab -> ba
    assert_eq!(counts[2][1], 1); // ba -> ab
    assert_eq!(counts[1][3], 1); // ab -> bb
    assert_eq!(machine.departure_counts(), &[0, 2, 1, 0]);
}

#[test]
fn d_markov_skips_foreign_symbols() {
    // 'z' is outside a two-letter alphabet: windows that hold it do not count.
    let seq: Vec<char> = "abzab".chars().collect();
    let machine = DMarkovMachine::new(&seq, 1, 2).unwrap();
    assert_eq!(machine.transition_counts(), &vec![vec![0, 2], vec![0, 0]]);
    assert_eq!(machine.departure_counts(), &[2, 0]);
}

#[test]
fn d_markov_rows_add_up_to_departures() {
    let seq: Vec<char> = "abcabcaabbcc".chars().collect();
    let machine = DMarkovMachine::new(&seq, 2, 3).unwrap();
    for (row, total) in machine.transition_counts().iter().zip(machine.departure_counts()) {
        assert_eq!(row.iter().sum::<usize>(), *total);
    }
    assert_eq!(machine.departure_counts().iter().sum::<usize>(), seq.len() - 2);
}

#[test]
fn d_markov_errors() {
    assert!(matches!(DMarkovMachine::new(&[], 1, 2), Err(SdfError::InvalidParameter(_))));
    assert!(matches!(DMarkovMachine::new(&['a'], 0, 2), Err(SdfError::InvalidParameter(_))));
    assert!(matches!(DMarkovMachine::new(&['a'], 1, 0), Err(SdfError::InvalidParameter(_))));
    assert!(matches!(DMarkovMachine::new(&['a', 'b'], 2, 2), Err(SdfError::ComputationError(_))));
}

#[test]
fn build_transition_counts_with_listed_states() {
    let seq: Vec<char> = "abab".chars().collect();
    let states = vec!["a".to_string(), "b".to_string(), "a".to_string()];
    let (m, rows) = DMarkovMachine::build_transition_counts(&seq, &states, 1).unwrap();
    // "a" is found at its last listing, index 2.
    assert_eq!(m, vec![vec![0, 0, 0], vec![0, 0, 1], vec![0, 2, 0]]);
    assert_eq!(rows, vec![0, 1, 2]);
    assert!(matches!(
        DMarkovMachine::build_transition_counts(&seq, &states, 4),
        Err(SdfError::ComputationError(_))
    ));
}

#[test]
fn state_merge_joins_words_and_counts() {
    let a = State::new(3, "ab".to_string()).unwrap();
    let b = State::from_word(7, "ba").unwrap();
    let m = a.merge_with(&b);
    assert_eq!(m.id(), 3);
    assert_eq!(m.word(), "ab+ba");
    assert_eq!(m.visit_count(), 0);
}

#[test]
fn byte_transition_counts_pairs() {
    let seq: Vec<char> = "aab".chars().collect();
    let (m, rows) = byte_transition_counts(&seq, 1).unwrap();
    assert_eq!(m.len(), 256);
    assert_eq!(m[97][97], 1);
    assert_eq!(m[97][98], 1);
    assert_eq!(rows[97], 2);
    assert_eq!(rows[98], 0);
    for x in 0..256 {
        assert_eq!(m[x].iter().sum::<usize>(), rows[x]);
    }
    assert!(byte_transition_counts(&[], 1).is_err());
    assert!(byte_transition_counts(&seq, 0).is_err());
    // Codes past a byte are not counted.
    let (m, rows) = byte_transition_counts(&['a', 'é', 'a', '€'], 1).unwrap();
    assert_eq!(m[97][233], 1);
    assert_eq!(m[233][97], 1);
    assert_eq!(rows[97], 1);
}

#[test]
fn labels() {
    assert_eq!(index_labels(12)[11], "11");
    assert_eq!(index_labels(3), vec!["0", "1", "2"]);
    let codes = code_labels();
    assert_eq!(codes.len(), 256);
    assert_eq!(codes[97], "a");
    assert_eq!(codes[233], "é");
}

#[test]
fn restriction_keeps_marked_states() {
    let m = vec![vec![1, 2, 3], vec![4, 5, 6], vec![7, 8, 9]];
    let (r, kept) = restrict_to_kept(&m, &[true, false, true]);
    assert_eq!(kept, vec![0, 2]);
    assert_eq!(r, vec![vec![1, 3], vec![7, 9]]);
}

#[test]
fn listed_counts_match_machine_counts() {
    let seq: Vec<char> = "abcabzcaabbcc".chars().collect();
    for depth in 1..4 {
        let machine = DMarkovMachine::new(&seq, depth, 3).unwrap();
        let (m, rows) = DMarkovMachine::build_transition_counts(&seq, machine.states(), depth).unwrap();
        assert_eq!(&m, machine.transition_counts());
        assert_eq!(&rows[..], machine.departure_counts());
    }
}
