//! The session: a state machine that turns feedback into guesses. The caller
//! performs the observation and the submission and reports their outcome.

use vstd::prelude::*;
use crate::word::Word;
use crate::filter::{ConstraintSet, LetterState, apply_filter, consistent, filtered};
use crate::corpus::WordCorpus;
use crate::error::SolverError;
use crate::scorer::{
    MAX_WORDS,
    best_word,
    freq_table,
    is_best_guess,
    is_top,
    mode_for,
    nothing_to_rank,
    ranked_words,
    GuessMode,
};

verus! {

/// Guesses allowed in one game.
pub const MAX_GUESSES: u64 = 6;

/// Where the session stands.
#[derive(Clone, Copy, Debug, PartialEq, Eq)]
pub enum Phase {
    /// Waiting for the feedback on the board.
    AwaitingFeedback,
    /// Waiting for the chosen word to be submitted.
    Submitting(Word),
    /// The only remaining candidate is the answer.
    Solved(Word),
    /// The session ended on an error.
    Failed(SolverError),
}

/// What the caller does next.
#[derive(Clone, Copy, Debug, PartialEq, Eq)]
pub enum Action {
    /// Read the feedback and report it with `on_feedback`.
    Observe,
    /// Submit the word and report the outcome with `on_submitted`.
    Submit(Word),
    /// Stop: the word is the answer, found in this many rounds.
    ReportSolved(Word, u64),
    /// Stop: the session failed.
    ReportFailed(SolverError),
}

/// One solving session, owning its candidate list.
pub struct Solver {
    candidates: Vec<Word>,
    rounds: u64,
    max_guesses: u64,
    phase: Phase,
}

impl Solver {
    pub closed spec fn candidates(&self) -> Seq<Word> {
        self.candidates@
    }

    pub closed spec fn rounds(&self) -> nat {
        self.rounds as nat
    }

    pub closed spec fn max_guesses(&self) -> nat {
        self.max_guesses as nat
    }

    pub closed spec fn phase(&self) -> Phase {
        self.phase
    }

    pub open spec fn wf(&self) -> bool {
        self.candidates().len() <= MAX_WORDS
    }

    /// A session whose candidates are the whole corpus.
    pub fn new(corpus: &WordCorpus, max_guesses: u64) -> (r: Solver)
        requires
            corpus.wf(),
        ensures
            r.wf(),
            r.candidates() == corpus@,
            r.rounds() == 0,
            r.max_guesses() == max_guesses,
            r.phase() == Phase::AwaitingFeedback,
    {
        let words = corpus.words();
        let mut candidates: Vec<Word> = Vec::new();
        let n = words.len();
        let mut i: usize = 0;
        while i < n
            invariant
                n == words@.len(),
                i <= n,
                candidates@ == words@.subrange(0, i as int),
            decreases n - i,
        {
            candidates.push(words[i]);
            assert(candidates@ =~= words@.subrange(0, i as int + 1));
            i = i + 1;
        }
        assert(candidates@ =~= words@);
        Solver { candidates, rounds: 0, max_guesses, phase: Phase::AwaitingFeedback }
    }

    /// The remaining candidates.
    pub fn candidate_words(&self) -> (r: &Vec<Word>)
        ensures
            r@ == self.candidates(),
    {
        &self.candidates
    }

    /// Rounds completed so far.
    pub fn rounds_done(&self) -> (r: u64)
        ensures
            r == self.rounds(),
    {
        self.rounds
    }

    /// The current phase.
    pub fn current_phase(&self) -> (r: Phase)
        ensures
            r == self.phase(),
    {
        self.phase
    }

    /// Takes the round's feedback: filters the candidates, then chooses the guess.
    /// Fails with `NoCandidates` when no candidate survives or nothing can be ranked.
    pub fn on_feedback(&mut self, corpus: &WordCorpus, constraints: &ConstraintSet) -> (r: Action)
        requires
            old(self).wf(),
            old(self).phase() == Phase::AwaitingFeedback,
            constraints.wf(),
        ensures
            final(self).wf(),
            final(self).candidates() == filtered(old(self).candidates(), constraints@),
            final(self).rounds() == old(self).rounds(),
            final(self).max_guesses() == old(self).max_guesses(),
            final(self).candidates().len() == 0 ==> r == Action::ReportFailed(
                SolverError::NoCandidates,
            ),
            r is ReportFailed <==> final(self).candidates().len() == 0 || nothing_to_rank(
                final(self).candidates(),
                corpus@,
                constraints@,
                old(self).rounds() as int,
                old(self).max_guesses() as int,
            ),
            r is ReportFailed ==> r == Action::ReportFailed(SolverError::NoCandidates)
                && final(self).phase() == Phase::Failed(SolverError::NoCandidates),
            r matches Action::Submit(w) ==> final(self).phase() == Phase::Submitting(w)
                && is_best_guess(
                w,
                final(self).candidates(),
                corpus@,
                constraints@,
                old(self).rounds() as int,
                old(self).max_guesses() as int,
            ),
            r is Submit || r is ReportFailed,
    {
        apply_filter(&mut self.candidates, constraints);
        proof {
            crate::filter::lemma_filter_shrinks(old(self).candidates@, constraints@);
        }
        if self.candidates.len() == 0 {
            self.phase = Phase::Failed(SolverError::NoCandidates);
            return Action::ReportFailed(SolverError::NoCandidates);
        }
        match best_word(&self.candidates, corpus, constraints, self.rounds, self.max_guesses) {
            Ok(w) => {
                self.phase = Phase::Submitting(w);
                Action::Submit(w)
            },
            Err(e) => {
                self.phase = Phase::Failed(e);
                Action::ReportFailed(e)
            },
        }
    }

    /// The feedback could not be read: the session fails.
    pub fn on_observation_failed(&mut self) -> (r: Action)
        ensures
            final(self).candidates() == old(self).candidates(),
            final(self).rounds() == old(self).rounds(),
            final(self).max_guesses() == old(self).max_guesses(),
            final(self).phase() == Phase::Failed(SolverError::ObservationError),
            r == Action::ReportFailed(SolverError::ObservationError),
    {
        self.phase = Phase::Failed(SolverError::ObservationError);
        Action::ReportFailed(SolverError::ObservationError)
    }

    /// Takes the outcome of the submission. A failed one ends the session with
    /// its error; a successful one completes the round, and the session is
    /// solved when one candidate remains.
    pub fn on_submitted(&mut self, outcome: Result<(), SolverError>) -> (r: Action)
        requires
            old(self).phase() is Submitting,
            old(self).rounds() < u64::MAX,
        ensures
            final(self).candidates() == old(self).candidates(),
            final(self).max_guesses() == old(self).max_guesses(),
            outcome matches Err(e) ==> r == Action::ReportFailed(e) && final(self).phase()
                == Phase::Failed(e) && final(self).rounds() == old(self).rounds(),
            outcome is Ok ==> final(self).rounds() == old(self).rounds() + 1,
            outcome is Ok && old(self).candidates().len() == 1 ==> r == Action::ReportSolved(
                old(self).candidates()[0],
                (old(self).rounds() + 1) as u64,
            ) && final(self).phase() == Phase::Solved(old(self).candidates()[0]),
            outcome is Ok && old(self).candidates().len() != 1 ==> r == Action::Observe
                && final(self).phase() == Phase::AwaitingFeedback,
    {
        match outcome {
            Err(e) => {
                self.phase = Phase::Failed(e);
                Action::ReportFailed(e)
            },
            Ok(()) => {
                self.rounds = self.rounds + 1;
                if self.candidates.len() == 1 {
                    let w = self.candidates[0];
                    self.phase = Phase::Solved(w);
                    Action::ReportSolved(w, self.rounds)
                } else {
                    self.phase = Phase::AwaitingFeedback;
                    Action::Observe
                }
            },
        }
    }
}

/// Feedback that leaves exactly one candidate, within the guess budget, makes
/// that candidate the next guess; `on_submitted` then reports it solved.
pub proof fn lemma_single_candidate_is_guessed(
    ws: Seq<Word>,
    corpus: Seq<Word>,
    es: Seq<(char, LetterState)>,
    guesses_made: int,
    max_guesses: int,
)
    requires
        filtered(ws, es).len() == 1,
        guesses_made < max_guesses,
    ensures
        is_best_guess(filtered(ws, es)[0], filtered(ws, es), corpus, es, guesses_made, max_guesses),
{
    let left = filtered(ws, es);
    assert(mode_for(es, 1, guesses_made, max_guesses) == GuessMode::Win);
    assert(ranked_words(left, corpus, GuessMode::Win) == left);
    assert(is_top(left, 0, GuessMode::Win, es, freq_table(left)) && left[0] == left[0]);
}

} // verus!
