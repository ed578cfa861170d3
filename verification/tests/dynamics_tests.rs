use sdf::symbolic::dynamics::{sorted_symbols, symbol_counts, SymbolicDynamics};
use sdf::symbolic::encoding::{sliding_words, smoothing_windows};
use sdf::SdfError;

#[test]
fn test_phase_space_reconstruction() {
    let signal = vec![1.0, 2.0, 3.0, 4.0, 5.0, 6.0];
    let phase_space = SymbolicDynamics::phase_space_reconstruction(&signal, 1, 2).unwrap();

    assert_eq!(phase_space.len(), 5);
    assert_eq!(phase_space[0].len(), 2);
    assert_eq!(phase_space[0][0], 1.0);
    assert_eq!(phase_space[0][1], 2.0);
}

#[test]
fn phase_space_with_lag() {
    let signal: Vec<i32> = (0..10).collect();
    let m = SymbolicDynamics::phase_space_reconstruction(&signal, 3, 3).unwrap();
    assert_eq!(m.len(), 4);
    assert_eq!(m[0], vec![0, 3, 6]);
    assert_eq!(m[3], vec![3, 6, 9]);
}

#[test]
fn phase_space_errors() {
    let empty: Vec<f64> = vec![];
    assert!(SymbolicDynamics::phase_space_reconstruction(&empty, 1, 1).is_err());
    assert!(SymbolicDynamics::phase_space_reconstruction(&[1.0], 1, 0).is_err());
    assert!(SymbolicDynamics::phase_space_reconstruction(&[1.0], 0, 1).is_err());
    match SymbolicDynamics::phase_space_reconstruction(&[1.0, 2.0, 3.0], 2, 2) {
        Err(SdfError::InvalidParameter(m)) => assert_eq!(m, "Signal length 3 is too short for dE=2, tau=2"),
        other => panic!("unexpected {:?}", other),
    }
}

#[test]
fn dynamics_accessors() {
    assert!(SymbolicDynamics::new(vec![]).is_err());
    let d = SymbolicDynamics::new(vec!['a', 'b', 'a']).unwrap();
    assert_eq!(d.len(), 3);
    assert!(!d.is_empty());
    assert_eq!(d.sequence(), &['a', 'b', 'a']);
    let e = d.clone();
    assert_eq!(e.sequence(), d.sequence());
}

#[test]
fn transition_counts_between_symbols() {
    let d = SymbolicDynamics::new("abaab".chars().collect()).unwrap();
    let (symbols, m, rows) = d.transition_counts();
    assert_eq!(symbols, vec!['a', 'b']);
    assert_eq!(m, vec![vec![1, 2], vec![1, 0]]);
    assert_eq!(rows, vec![3, 1]);
    for (row, total) in m.iter().zip(rows.iter()) {
        assert_eq!(row.iter().sum::<usize>(), *total);
    }
    let single = SymbolicDynamics::new(vec!['q']).unwrap();
    let (symbols, m, rows) = single.transition_counts();
    assert_eq!(symbols, vec!['q']);
    assert_eq!(m, vec![vec![0]]);
    assert_eq!(rows, vec![0]);
}

#[test]
fn symbol_counts_sorted_with_occurrences() {
    let counts = symbol_counts(&['c', 'a', 'a', 'b', 'b', 'b', 'a']);
    assert_eq!(counts, vec![('a', 3), ('b', 3), ('c', 1)]);
    assert_eq!(counts.iter().map(|p| p.1).sum::<usize>(), 7);
    assert!(symbol_counts(&[]).is_empty());
    assert_eq!(sorted_symbols(&['z', 'é', 'a', 'z']), vec!['a', 'z', 'é']);
}

#[test]
fn sliding_words_windows() {
    let seq: Vec<char> = "abcd".chars().collect();
    assert_eq!(sliding_words(&seq, 2), vec!["ab", "bc", "cd"]);
    assert_eq!(sliding_words(&seq, 4), vec!["abcd"]);
    assert!(sliding_words(&seq, 5).is_empty());
}

#[test]
fn smoothing_windows_are_centred_and_cut() {
    assert_eq!(smoothing_windows(4, 3), vec![(0, 2), (0, 3), (1, 4), (2, 4)]);
    assert_eq!(smoothing_windows(2, 3), vec![(0, 2), (0, 2)]);
    assert!(smoothing_windows(0, 3).is_empty());
    assert!(smoothing_windows(5, 0).is_empty());
}
