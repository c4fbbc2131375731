use wordle_solver::corpus::WordCorpus;
use wordle_solver::error::SolverError;
use wordle_solver::filter::{ConstraintSet, LetterState};
use wordle_solver::solver::{Action, Phase, Solver, MAX_GUESSES};

fn corpus() -> WordCorpus {
    WordCorpus::load("crane\ncrate\ntrace\ngrace\nslate\npious\n").unwrap()
}

#[test]
fn single_match_is_guessed_and_solved() {
    let corpus = corpus();
    let mut s = Solver::new(&corpus, MAX_GUESSES);
    assert_eq!(s.candidate_words().len(), 6);
    let mut cs = ConstraintSet::new();
    cs.insert('p', LetterState::Correct(0));
    let action = s.on_feedback(&corpus, &cs);
    assert_eq!(s.candidate_words().len(), 1);
    let guess = match action {
        Action::Submit(w) => w,
        other => panic!("unexpected action {:?}", other),
    };
    assert_eq!(guess.to_string(), "pious");
    assert_eq!(s.current_phase(), Phase::Submitting(guess));
    let done = s.on_submitted(corpus.validate_guess(&guess));
    match done {
        Action::ReportSolved(word, rounds) => {
            assert_eq!(word.to_string(), "pious");
            assert_eq!(rounds, 1);
        }
        other => panic!("unexpected action {:?}", other),
    }
    assert_eq!(s.rounds_done(), 1);
}

#[test]
fn rounds_continue_until_one_candidate_is_left() {
    let corpus = corpus();
    let mut s = Solver::new(&corpus, MAX_GUESSES);
    let first = s.on_feedback(&corpus, &ConstraintSet::new());
    assert!(matches!(first, Action::Submit(_)));
    assert_eq!(s.on_submitted(Ok(())), Action::Observe);
    assert_eq!(s.current_phase(), Phase::AwaitingFeedback);
    let mut cs = ConstraintSet::new();
    cs.insert('t', LetterState::Correct(3));
    cs.insert('l', LetterState::Correct(1));
    let second = s.on_feedback(&corpus, &cs);
    let guess = match second {
        Action::Submit(w) => w,
        other => panic!("unexpected action {:?}", other),
    };
    assert_eq!(guess.to_string(), "slate");
    match s.on_submitted(Ok(())) {
        Action::ReportSolved(word, rounds) => {
            assert_eq!(word.to_string(), "slate");
            assert_eq!(rounds, 2);
        }
        other => panic!("unexpected action {:?}", other),
    }
}

#[test]
fn contradictory_feedback_fails_with_no_candidates() {
    let corpus = corpus();
    let mut s = Solver::new(&corpus, MAX_GUESSES);
    let mut cs = ConstraintSet::new();
    cs.insert('c', LetterState::Correct(0));
    cs.insert('s', LetterState::Correct(0));
    let action = s.on_feedback(&corpus, &cs);
    assert_eq!(action, Action::ReportFailed(SolverError::NoCandidates));
    assert_eq!(s.current_phase(), Phase::Failed(SolverError::NoCandidates));
    assert_eq!(s.candidate_words().len(), 0);
}

#[test]
fn collaborator_errors_end_the_session() {
    let corpus = corpus();
    let mut s = Solver::new(&corpus, MAX_GUESSES);
    assert_eq!(
        s.on_observation_failed(),
        Action::ReportFailed(SolverError::ObservationError)
    );
    let mut t = Solver::new(&corpus, MAX_GUESSES);
    let _ = t.on_feedback(&corpus, &ConstraintSet::new());
    assert_eq!(
        t.on_submitted(Err(SolverError::SubmissionError)),
        Action::ReportFailed(SolverError::SubmissionError)
    );
    assert_eq!(t.rounds_done(), 0);
}
