use wordle_solver::word::{chars_of, Word};

#[test]
fn word_round_trips_through_text() {
    let w = Word::from_str("crane").unwrap();
    assert_eq!(w.to_string(), "crane");
    assert_eq!(w.letter(0), 'c');
    assert_eq!(w.letter(4), 'e');
    assert!(w.contains('n'));
    assert!(!w.contains('z'));
}

#[test]
fn word_rejects_bad_text() {
    assert!(Word::from_str("").is_none());
    assert!(Word::from_str("cran").is_none());
    assert!(Word::from_str("cranes").is_none());
    assert!(Word::from_str("Crane").is_none());
    assert!(Word::from_str("cr4ne").is_none());
}

#[test]
fn words_compare_by_letters() {
    let a = Word::from_chars(&vec!['s', 'l', 'a', 't', 'e']).unwrap();
    let b = Word::from_str("slate").unwrap();
    let c = Word::from_str("slant").unwrap();
    assert!(a.same_as(&b));
    assert_eq!(a, b);
    assert_ne!(a, c);
    assert_eq!(chars_of("héllo"), vec!['h', 'é', 'l', 'l', 'o']);
}
