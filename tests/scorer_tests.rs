use wordle_solver::corpus::WordCorpus;
use wordle_solver::error::SolverError;
use wordle_solver::filter::{ConstraintSet, LetterState};
use wordle_solver::scorer::{
    best_word, closeness_score, decide_mode, letter_frequency, pick_top, repeated_letter_count,
    word_base_score, word_explore_score, GuessMode,
};
use wordle_solver::word::Word;

fn words(list: &[&str]) -> Vec<Word> {
    list.iter().map(|s| Word::from_str(s).unwrap()).collect()
}

fn w(s: &str) -> Word {
    Word::from_str(s).unwrap()
}

fn sample_constraints() -> ConstraintSet {
    let mut cs = ConstraintSet::new();
    cs.insert('c', LetterState::Present(0));
    cs.insert('e', LetterState::Correct(4));
    cs.insert('z', LetterState::Absent);
    cs
}

#[test]
fn frequency_counts_each_occurrence() {
    let f = letter_frequency(&words(&["crane", "crate", "trace", "eerie"]));
    assert_eq!(f.count('e'), 6);
    assert_eq!(f.count('r'), 4);
    assert_eq!(f.count('t'), 2);
    assert_eq!(f.count('z'), 0);
    assert_eq!(f.count('A'), 0);
    assert_eq!(f.max_count(), 6);
    let empty = letter_frequency(&vec![]);
    assert_eq!(empty.max_count(), 0);
}

#[test]
fn base_score_sums_letter_counts() {
    let f = letter_frequency(&words(&["crane", "crate", "trace"]));
    assert_eq!(word_base_score(&w("crane"), &f), 13);
    assert_eq!(word_base_score(&w("slate"), &f), 8);
    assert_eq!(word_base_score(&w("pious"), &f), 0);
    assert_eq!(word_base_score(&w("eerie"), &f), 12);
}

#[test]
fn repeated_letters_are_counted_once_each() {
    assert_eq!(repeated_letter_count(&w("crane")), 0);
    assert_eq!(repeated_letter_count(&w("eerie")), 1);
    assert_eq!(repeated_letter_count(&w("aabbb")), 2);
    assert_eq!(repeated_letter_count(&w("mamma")), 2);
}

#[test]
fn explore_score_rewards_new_letters() {
    let f = letter_frequency(&words(&["crane", "crate", "trace"]));
    let cs = sample_constraints();
    let m = f.max_count();
    assert_eq!(word_explore_score(&w("crane"), &cs, &f, m), 519);
    assert_eq!(word_explore_score(&w("slate"), &cs, &f, m), 534);
    assert_eq!(word_explore_score(&w("pious"), &cs, &f, m), 500);
    assert_eq!(word_explore_score(&w("eerie"), &cs, &f, m), 403);
}

#[test]
fn closeness_weighs_feedback_against_candidates() {
    let cs = sample_constraints();
    assert_eq!(closeness_score(&cs, 3), 57);
    assert_eq!(closeness_score(&cs, 100), -40);
    assert_eq!(closeness_score(&ConstraintSet::new(), 7), -7);
}

#[test]
fn mode_decision() {
    let none = ConstraintSet::new();
    assert_eq!(decide_mode(&none, 100, 0, 6), GuessMode::Explore);
    assert_eq!(decide_mode(&none, 6, 0, 6), GuessMode::Win);
    assert_eq!(decide_mode(&none, 4, 3, 6), GuessMode::Explore);
    assert_eq!(decide_mode(&sample_constraints(), 50, 1, 6), GuessMode::Win);
    assert_eq!(decide_mode(&none, 0, 9, 6), GuessMode::Explore);
}

#[test]
fn last_guess_always_tries_to_win() {
    let none = ConstraintSet::new();
    assert_eq!(decide_mode(&none, 1000, 5, 6), GuessMode::Win);
    assert_eq!(decide_mode(&none, 1_000_000, 5, 6), GuessMode::Win);
    assert_eq!(decide_mode(&none, 1000, 2, 3), GuessMode::Win);
}

#[test]
fn duplicate_letters_rank_below_distinct_ones() {
    let list = words(&["aabbb", "abcde", "fghij"]);
    let corpus = WordCorpus::load("aabbb\nabcde\nfghij\n").unwrap();
    let cs = ConstraintSet::new();
    assert_eq!(decide_mode(&cs, 3, 0, 6), GuessMode::Win);
    let f = letter_frequency(&list);
    assert_eq!(word_base_score(&list[0], &f), 18);
    assert_eq!(word_base_score(&list[1], &f), 10);
    assert_eq!(pick_top(&list, GuessMode::Win, &cs, &f), Some(1));
    let chosen = best_word(&list, &corpus, &cs, 0, 6).unwrap();
    assert_eq!(chosen.to_string(), "abcde");
}

#[test]
fn win_mode_prefers_fewer_repeats_then_score_then_order() {
    let list = words(&["crane", "crate", "trace", "eerie"]);
    let corpus = WordCorpus::load("crane\ncrate\ntrace\neerie\n").unwrap();
    let chosen = best_word(&list, &corpus, &ConstraintSet::new(), 0, 6).unwrap();
    assert_eq!(chosen.to_string(), "crate");
}

#[test]
fn explore_mode_ranks_the_whole_corpus() {
    let corpus =
        WordCorpus::load("crane\ncrate\ntrace\ngrace\nslate\npious\neerie\nmound\n").unwrap();
    let list = words(&["crane", "crate", "trace", "grace"]);
    let cs = ConstraintSet::new();
    assert_eq!(decide_mode(&cs, 4, 3, 6), GuessMode::Explore);
    let f = letter_frequency(&list);
    assert_eq!(word_explore_score(&w("crate"), &cs, &f, f.max_count()), 725);
    assert_eq!(word_explore_score(&w("mound"), &cs, &f, f.max_count()), 513);
    let chosen = best_word(&list, &corpus, &cs, 3, 6).unwrap();
    assert_eq!(chosen.to_string(), "crate");
}

#[test]
fn nothing_to_rank_is_an_error() {
    let corpus = WordCorpus::load("crane\n").unwrap();
    assert_eq!(
        best_word(&vec![], &corpus, &ConstraintSet::new(), 0, 6),
        Err(SolverError::NoCandidates)
    );
    let f = letter_frequency(&vec![]);
    assert_eq!(pick_top(&vec![], GuessMode::Win, &ConstraintSet::new(), &f), None);
}
