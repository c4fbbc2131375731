use wordle_solver::filter::{apply_filter, ConstraintSet, LetterState};
use wordle_solver::word::Word;

fn words(list: &[&str]) -> Vec<Word> {
    list.iter().map(|s| Word::from_str(s).unwrap()).collect()
}

fn texts(ws: &[Word]) -> Vec<String> {
    ws.iter().map(|w| w.to_string()).collect()
}

#[test]
fn correct_keeps_letter_at_position() {
    let mut list = words(&["crane", "slate", "clamp", "acorn"]);
    let mut cs = ConstraintSet::new();
    cs.insert('c', LetterState::Correct(0));
    apply_filter(&mut list, &cs);
    assert_eq!(texts(&list), vec!["crane", "clamp"]);
}

#[test]
fn present_needs_letter_elsewhere() {
    let mut list = words(&["crane", "slate", "clamp", "acorn", "track"]);
    let mut cs = ConstraintSet::new();
    cs.insert('c', LetterState::Present(0));
    apply_filter(&mut list, &cs);
    assert_eq!(texts(&list), vec!["acorn", "track"]);
}

#[test]
fn absent_excludes_every_occurrence() {
    let mut list = words(&["eerie", "crane", "pious", "mound"]);
    let mut cs = ConstraintSet::new();
    cs.insert('e', LetterState::Absent);
    apply_filter(&mut list, &cs);
    assert_eq!(texts(&list), vec!["pious", "mound"]);
}

#[test]
fn constraints_combine() {
    let mut list = words(&["crane", "crate", "trace", "grace", "slate"]);
    let mut cs = ConstraintSet::new();
    cs.insert('e', LetterState::Correct(4));
    cs.insert('t', LetterState::Present(0));
    cs.insert('g', LetterState::Absent);
    apply_filter(&mut list, &cs);
    assert_eq!(texts(&list), vec!["crate", "slate"]);
}

#[test]
fn filtering_twice_changes_nothing() {
    let mut once = words(&["crane", "crate", "trace", "grace", "slate"]);
    let mut cs = ConstraintSet::new();
    cs.insert('r', LetterState::Present(3));
    cs.insert('a', LetterState::Correct(2));
    apply_filter(&mut once, &cs);
    let mut twice = once.clone();
    apply_filter(&mut twice, &cs);
    assert_eq!(texts(&once), texts(&twice));
    assert_eq!(texts(&once), vec!["crane", "crate", "trace", "grace"]);
}

#[test]
fn filtering_never_grows() {
    let before = words(&["crane", "crate", "pious"]);
    let mut list = before.clone();
    apply_filter(&mut list, &ConstraintSet::new());
    assert_eq!(texts(&list), texts(&before));
    let mut cs = ConstraintSet::new();
    cs.insert('o', LetterState::Present(1));
    apply_filter(&mut list, &cs);
    assert!(list.len() <= before.len());
    assert_eq!(texts(&list), vec!["pious"]);
}

#[test]
fn contradictory_constraints_empty_the_list() {
    let mut list = words(&["crane", "abbey", "alarm"]);
    let mut cs = ConstraintSet::new();
    cs.insert('a', LetterState::Correct(0));
    cs.insert('b', LetterState::Correct(0));
    apply_filter(&mut list, &cs);
    assert!(list.is_empty());
}

#[test]
fn later_state_replaces_earlier_one() {
    let mut cs = ConstraintSet::new();
    cs.insert('a', LetterState::Correct(0));
    cs.insert('b', LetterState::Present(1));
    cs.insert('a', LetterState::Absent);
    assert_eq!(cs.len(), 2);
    assert_eq!(cs.get('a'), Some(LetterState::Absent));
    assert_eq!(cs.get('b'), Some(LetterState::Present(1)));
    assert_eq!(cs.get('z'), None);
    assert_eq!(cs.entry(0), ('a', LetterState::Absent));
}
