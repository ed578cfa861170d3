use sdf::symbolic::alphabet::Alphabet;
use sdf::SdfError;

#[test]
fn alphabet_test_alphabet_creation() {
    let alphabet = Alphabet::new(5).unwrap();
    assert_eq!(alphabet.size(), 5);
    assert_eq!(alphabet.symbol(0).unwrap(), 'a');
    assert_eq!(alphabet.symbol(4).unwrap(), 'e');
}

#[test]
fn test_alphabet_binary() {
    let alphabet = Alphabet::binary();
    assert_eq!(alphabet.size(), 2);
    assert_eq!(alphabet.symbols(), vec!['a', 'b']);
}

#[test]
fn test_alphabet_quaternary() {
    let alphabet = Alphabet::quaternary();
    assert_eq!(alphabet.size(), 4);
    assert_eq!(alphabet.symbols(), vec!['a', 'b', 'c', 'd']);
}

#[test]
fn test_alphabet_custom() {
    let symbols = vec!['x', 'y', 'z'];
    let alphabet = Alphabet::from_symbols(symbols).unwrap();
    assert_eq!(alphabet.size(), 3);
    assert_eq!(alphabet.nth_symbol(1), Some('y'));
}

#[test]
fn test_alphabet_invalid_size() {
    assert!(Alphabet::new(0).is_err());
    assert!(Alphabet::new(27).is_err());
}

#[test]
fn test_alphabet_contains() {
    let alphabet = Alphabet::new(3).unwrap();
    assert!(alphabet.contains('a'));
    assert!(alphabet.contains('b'));
    assert!(!alphabet.contains('z'));
}

#[test]
fn test_alphabet_index_of() {
    let alphabet = Alphabet::new(4).unwrap();
    assert_eq!(alphabet.index_of('a'), Some(0));
    assert_eq!(alphabet.index_of('c'), Some(2));
    assert_eq!(alphabet.index_of('z'), None);
}

#[test]
fn integration_tests_test_alphabet_creation() {
    for size in &[2, 4, 8, 16] {
        let alphabet = Alphabet::new(*size).expect("Should create alphabet");
        assert_eq!(alphabet.size(), *size);

        // Test symbol retrieval
        for i in 0..*size.min(&26) {
            let symbol = alphabet.symbol(i);
            assert!(symbol.is_ok());
        }
    }
}

#[test]
fn alphabet_size_bounds_are_inclusive() {
    assert_eq!(Alphabet::new(1).unwrap(), Alphabet::Generic(1));
    assert_eq!(Alphabet::new(26).unwrap(), Alphabet::Generic(26));
    match Alphabet::new(0) {
        Err(SdfError::InvalidParameter(m)) => assert_eq!(m, "Alphabet size must be between 1 and 26"),
        other => panic!("unexpected {:?}", other),
    }
}

#[test]
fn generic_alphabet_letters() {
    let alphabet = Alphabet::new(26).unwrap();
    let symbols = alphabet.symbols();
    assert_eq!(symbols.len(), 26);
    assert_eq!(symbols[0], 'a');
    assert_eq!(symbols[25], 'z');
}

#[test]
fn symbol_out_of_bounds_message() {
    let alphabet = Alphabet::binary();
    match alphabet.symbol(12) {
        Err(SdfError::InvalidParameter(m)) => assert_eq!(m, "Symbol index 12 out of bounds"),
        other => panic!("unexpected {:?}", other),
    }
    assert_eq!(alphabet.nth_symbol(2), None);
}

#[test]
fn custom_alphabet_limits() {
    assert!(Alphabet::from_symbols(vec![]).is_err());
    let many: Vec<char> = ('a'..='z').chain(std::iter::once('A')).collect();
    assert_eq!(many.len(), 27);
    assert!(Alphabet::from_symbols(many).is_err());
    let dup = Alphabet::from_symbols(vec!['x', 'y', 'x']).unwrap();
    assert_eq!(dup.index_of('x'), Some(0));
    assert_eq!(dup.size(), 3);
}

#[test]
fn index_of_undoes_symbol() {
    for alphabet in [Alphabet::binary(), Alphabet::quaternary(), Alphabet::new(7).unwrap()] {
        for i in 0..alphabet.size() {
            let c = alphabet.symbol(i).unwrap();
            assert_eq!(alphabet.index_of(c), Some(i));
            assert!(alphabet.contains(c));
        }
    }
}

#[test]
fn symbols_for_regions_maps_past_end_to_question_mark() {
    let alphabet = Alphabet::new(3).unwrap();
    assert_eq!(alphabet.symbols_for_regions(&[0, 2, 1, 3, 9]), vec!['a', 'c', 'b', '?', '?']);
}

#[test]
fn alphabet_display_strings() {
    assert_eq!(Alphabet::binary().display_string(), "Binary{a,b}");
    assert_eq!(Alphabet::quaternary().display_string(), "Quaternary{a,b,c,d}");
    assert_eq!(Alphabet::new(3).unwrap().display_string(), "Alphabet(n=3; {abc})");
    assert_eq!(Alphabet::new(12).unwrap().display_string(), "Alphabet(n=12; {abcdefghijkl})");
    assert_eq!(Alphabet::from_symbols(vec!['x', 'y']).unwrap().display_string(), "Custom{xy}");
}

#[test]
fn alphabet_default_has_three_letters() {
    let alphabet = Alphabet::default();
    assert_eq!(alphabet, Alphabet::Generic(3));
    assert_eq!(alphabet.symbols(), vec!['a', 'b', 'c']);
}
