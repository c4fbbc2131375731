//! Letter-frequency statistics, word scores and the choice of the next guess.

use vstd::prelude::*;
use crate::word::{Word, WORD_LEN, is_lower, occurrences};
use crate::filter::{ConstraintSet, LetterState, lookup};
use crate::corpus::WordCorpus;
use crate::error::SolverError;

verus! {

broadcast use crate::word::Word::lemma_len;

/// Number of lowercase letters.
pub const ALPHABET_LEN: usize = 26;

/// Largest word list whose statistics fit the scorer's counters.
pub const MAX_WORDS: usize = 0xffff_ffff;

/// Position of a lowercase letter in the alphabet.
pub open spec fn letter_index(c: char) -> int {
    c as int - 'a' as int
}

/// Number of occurrences of `c` over all words of `ws`, each occurrence counted.
pub open spec fn frequency(ws: Seq<Word>, c: char) -> nat
    decreases ws.len(),
{
    if ws.len() == 0 {
        0
    } else {
        frequency(ws.drop_last(), c) + occurrences(ws.last()@, c)
    }
}

/// The letter at position `x` of the alphabet.
pub open spec fn alphabet_letter(x: int) -> char {
    ('a' as int + x) as char
}

/// Occurrence counts over `ws` of each lowercase letter, indexed from `'a'`.
pub open spec fn freq_table(ws: Seq<Word>) -> Seq<u64> {
    Seq::new(ALPHABET_LEN as nat, |x: int| frequency(ws, alphabet_letter(x)) as u64)
}

/// The count that table `t` holds for `c`; zero for anything but a lowercase letter.
pub open spec fn table_count(t: Seq<u64>, c: char) -> int {
    if is_lower(c) {
        t[letter_index(c)] as int
    } else {
        0
    }
}

/// The largest entry of `t`, zero for an empty table.
pub open spec fn seq_max(t: Seq<u64>) -> int
    decreases t.len(),
{
    if t.len() == 0 {
        0
    } else {
        let m = seq_max(t.drop_last());
        if t.last() > m {
            t.last() as int
        } else {
            m
        }
    }
}

proof fn lemma_seq_max_bound(t: Seq<u64>, b: int)
    requires
        b >= 0,
        forall|i: int| 0 <= i < t.len() ==> t[i] <= b,
    ensures
        seq_max(t) <= b,
    decreases t.len(),
{
    if t.len() > 0 {
        lemma_seq_max_bound(t.drop_last(), b);
    }
}

/// Occurrence counts of the lowercase letters, indexed from `'a'`.
pub struct LetterFrequency {
    counts: Vec<u64>,
}

impl View for LetterFrequency {
    type V = Seq<u64>;

    closed spec fn view(&self) -> Seq<u64> {
        self.counts@
    }
}

impl LetterFrequency {
    pub open spec fn wf(&self) -> bool {
        &&& self@.len() == ALPHABET_LEN
        &&& forall|i: int| 0 <= i < ALPHABET_LEN ==> #[trigger] self@[i] <= WORD_LEN * MAX_WORDS
    }

    /// The count of `c`.
    pub fn count(&self, c: char) -> (r: u64)
        requires
            self.wf(),
        ensures
            r == table_count(self@, c),
    {
        if 'a' <= c && c <= 'z' {
            self.counts[(c as u32 - 'a' as u32) as usize]
        } else {
            0
        }
    }

    /// The largest count in the table.
    pub fn max_count(&self) -> (r: u64)
        requires
            self.wf(),
        ensures
            r == seq_max(self@),
            forall|i: int| 0 <= i < ALPHABET_LEN ==> self@[i] <= r,
    {
        let mut best: u64 = 0;
        let mut i: usize = 0;
        while i < ALPHABET_LEN
            invariant
                self.counts@.len() == ALPHABET_LEN,
                i <= ALPHABET_LEN,
                best == seq_max(self.counts@.subrange(0, i as int)),
                forall|j: int| 0 <= j < i ==> self.counts@[j] <= best,
            decreases ALPHABET_LEN - i,
        {
            proof {
                let s = self.counts@.subrange(0, i as int + 1);
                assert(s.drop_last() =~= self.counts@.subrange(0, i as int));
            }
            if self.counts[i] > best {
                best = self.counts[i];
            }
            i = i + 1;
        }
        assert(self.counts@.subrange(0, ALPHABET_LEN as int) =~= self.counts@);
        best
    }
}

proof fn lemma_occurrences_bound(w: Seq<char>, c: char)
    ensures
        occurrences(w, c) <= w.len(),
    decreases w.len(),
{
    if w.len() > 0 {
        lemma_occurrences_bound(w.drop_last(), c);
    }
}

/// Counts every letter occurrence over `words` (a doubled letter counts twice).
pub fn letter_frequency(words: &Vec<Word>) -> (r: LetterFrequency)
    requires
        words@.len() <= MAX_WORDS,
    ensures
        r.wf(),
        r@ == freq_table(words@),
        forall|c: char| is_lower(c) ==> #[trigger] table_count(r@, c) == frequency(words@, c),
{
    let mut counts: Vec<u64> = Vec::new();
    let mut x: usize = 0;
    while x < ALPHABET_LEN
        invariant
            x <= ALPHABET_LEN,
            counts@.len() == x,
            forall|j: int| 0 <= j < x ==> counts@[j] == 0,
        decreases ALPHABET_LEN - x,
    {
        counts.push(0);
        x = x + 1;
    }
    let n = words.len();
    let mut i: usize = 0;
    while i < n
        invariant
            n == words@.len(),
            n <= MAX_WORDS,
            i <= n,
            counts@.len() == ALPHABET_LEN,
            forall|j: int| 0 <= j < ALPHABET_LEN ==> counts@[j] <= WORD_LEN * i,
            forall|c: char|
                is_lower(c) ==> #[trigger] counts@[letter_index(c)] == frequency(
                    words@.subrange(0, i as int),
                    c,
                ),
        decreases n - i,
    {
        let w = words[i];
        let mut k: usize = 0;
        while k < WORD_LEN
            invariant
                n == words@.len(),
                n <= MAX_WORDS,
                i < n,
                w == words@[i as int],
                k <= WORD_LEN,
                counts@.len() == ALPHABET_LEN,
                forall|j: int| 0 <= j < ALPHABET_LEN ==> counts@[j] <= WORD_LEN * i + k,
                forall|c: char|
                    is_lower(c) ==> #[trigger] counts@[letter_index(c)] == frequency(
                        words@.subrange(0, i as int),
                        c,
                    ) + occurrences(w@.subrange(0, k as int), c),
            decreases WORD_LEN - k,
        {
            let c = w.letter(k);
            proof {
                assert(w@.subrange(0, k as int + 1).drop_last() =~= w@.subrange(0, k as int));
            }
            if 'a' <= c && c <= 'z' {
                let idx = (c as u32 - 'a' as u32) as usize;
                assert(idx == letter_index(c));
                let v = counts[idx];
                counts.set(idx, v + 1);
                assert forall|d: char| is_lower(d) implies #[trigger] counts@[letter_index(d)]
                    == frequency(words@.subrange(0, i as int), d) + occurrences(
                    w@.subrange(0, k as int + 1),
                    d,
                ) by {
                    if d != c {
                        assert(letter_index(d) != letter_index(c));
                    }
                }
            }
            k = k + 1;
        }
        proof {
            assert(words@.subrange(0, i as int + 1).drop_last() =~= words@.subrange(0, i as int));
            assert(w@.subrange(0, WORD_LEN as int) =~= w@);
        }
        i = i + 1;
    }
    assert(words@.subrange(0, n as int) =~= words@);
    assert forall|x: int| 0 <= x < ALPHABET_LEN implies counts@[x] == freq_table(words@)[x] by {
        let c = alphabet_letter(x);
        assert(letter_index(c) == x);
    }
    assert(counts@ =~= freq_table(words@));
    LetterFrequency { counts }
}

/// Sum of the counts of the letters of `w`, each occurrence counted.
pub open spec fn base_score(w: Seq<char>, t: Seq<u64>) -> int
    decreases w.len(),
{
    if w.len() == 0 {
        0
    } else {
        base_score(w.drop_last(), t) + table_count(t, w.last())
    }
}

/// The score of a word in the search space that `freq` describes.
pub fn word_base_score(w: &Word, freq: &LetterFrequency) -> (r: u64)
    requires
        freq.wf(),
    ensures
        r == base_score(w@, freq@),
{
    let mut total: u64 = 0;
    let mut k: usize = 0;
    while k < WORD_LEN
        invariant
            freq.wf(),
            k <= WORD_LEN,
            total == base_score(w@.subrange(0, k as int), freq@),
            total <= k * (WORD_LEN * MAX_WORDS),
        decreases WORD_LEN - k,
    {
        let c = w.letter(k);
        let v = freq.count(c);
        proof {
            assert(w@.subrange(0, k as int + 1).drop_last() =~= w@.subrange(0, k as int));
            if is_lower(c) {
                assert(freq@[letter_index(c)] <= WORD_LEN * MAX_WORDS);
            }
            let bound: int = WORD_LEN * MAX_WORDS;
            let kk: int = k as int;
            assert(total + v <= (kk + 1) * bound) by (nonlinear_arith)
                requires
                    total <= kk * bound,
                    v <= bound,
            ;
        }
        total = total + v;
        k = k + 1;
    }
    assert(w@.subrange(0, WORD_LEN as int) =~= w@);
    total
}

/// Number of alphabet letters among the first `n` that occur at least twice in `w`.
pub open spec fn repeated_below(w: Seq<char>, n: nat) -> nat
    decreases n,
{
    if n == 0 {
        0
    } else {
        repeated_below(w, (n - 1) as nat) + if occurrences(w, alphabet_letter(n - 1)) >= 2 {
            1nat
        } else {
            0nat
        }
    }
}

/// Number of distinct letters that occur at least twice in `w`.
pub open spec fn repeated_letters(w: Seq<char>) -> nat {
    repeated_below(w, ALPHABET_LEN as nat)
}

/// How many distinct letters repeat within the word.
pub fn repeated_letter_count(w: &Word) -> (r: u64)
    ensures
        r == repeated_letters(w@),
{
    let mut single: Vec<Word> = Vec::new();
    single.push(*w);
    let table = letter_frequency(&single);
    proof {
        assert(single@.drop_last() =~= Seq::<Word>::empty());
        assert forall|c: char| #[trigger] frequency(single@, c) == occurrences(w@, c) by {
            assert(frequency(single@.drop_last(), c) == 0);
        }
    }
    let mut count: u64 = 0;
    let mut x: usize = 0;
    while x < ALPHABET_LEN
        invariant
            x <= ALPHABET_LEN,
            table@ == freq_table(single@),
            forall|c: char| #[trigger] frequency(single@, c) == occurrences(w@, c),
            count == repeated_below(w@, x as nat),
            count <= x,
        decreases ALPHABET_LEN - x,
    {
        proof {
            lemma_occurrences_bound(w@, alphabet_letter(x as int));
            assert(table@[x as int] == occurrences(w@, alphabet_letter(x as int)));
        }
        if table.counts[x] >= 2 {
            count = count + 1;
        }
        x = x + 1;
    }
    count
}

/// What trying `c` at position `pos` would tell, given the feedback so far.
pub open spec fn info_score(es: Seq<(char, LetterState)>, c: char, pos: int) -> int {
    match lookup(es, c) {
        None => 100,
        Some(LetterState::Absent) => 0,
        Some(LetterState::Correct(_)) => 1,
        Some(LetterState::Present(p)) => if p as int == pos {
            1
        } else {
            10
        },
    }
}

/// `50 * f / m` rounded to the nearest integer, halves upward; zero when `m` is zero.
pub open spec fn frequency_bonus(f: int, m: int) -> int {
    if m <= 0 {
        0
    } else {
        (100 * f + m) / (2 * m)
    }
}

/// The information score of the first `n` letters of `w`, with their frequency bonus.
pub open spec fn explore_prefix(
    w: Seq<char>,
    es: Seq<(char, LetterState)>,
    t: Seq<u64>,
    n: nat,
) -> int
    decreases n,
{
    if n == 0 {
        0
    } else {
        explore_prefix(w, es, t, (n - 1) as nat) + info_score(es, w[n - 1], n - 1)
            + frequency_bonus(table_count(t, w[n - 1]), seq_max(t))
    }
}

/// The information-seeking score of `w` under feedback `es` and table `t`.
pub open spec fn explore_score(w: Seq<char>, es: Seq<(char, LetterState)>, t: Seq<u64>) -> int {
    explore_prefix(w, es, t, w.len())
}

fn bonus_of(f: u64, max: u64) -> (r: u64)
    requires
        f <= WORD_LEN * MAX_WORDS,
        max <= WORD_LEN * MAX_WORDS,
    ensures
        r == frequency_bonus(f as int, max as int),
        r <= 100 * f + max,
{
    if max == 0 {
        0
    } else {
        let num: u64 = 100 * f + max;
        let den: u64 = 2 * max;
        let q: u64 = num / den;
        assert(q <= num) by (nonlinear_arith)
            requires
                den >= 1,
                q == num / den,
        ;
        q
    }
}

/// The information-seeking score of a word; `max` is the largest count in `freq`.
pub fn word_explore_score(
    w: &Word,
    constraints: &ConstraintSet,
    freq: &LetterFrequency,
    max: u64,
) -> (r: u64)
    requires
        constraints.wf(),
        freq.wf(),
        max == seq_max(freq@),
    ensures
        r == explore_score(w@, constraints@, freq@),
{
    proof {
        lemma_seq_max_bound(freq@, WORD_LEN * MAX_WORDS);
    }
    let ghost bound: int = 100 + 101 * (WORD_LEN * MAX_WORDS);
    let mut total: u64 = 0;
    let mut k: usize = 0;
    while k < WORD_LEN
        invariant
            constraints.wf(),
            freq.wf(),
            max == seq_max(freq@),
            max <= WORD_LEN * MAX_WORDS,
            bound == 100 + 101 * (WORD_LEN * MAX_WORDS),
            k <= WORD_LEN,
            total == explore_prefix(w@, constraints@, freq@, k as nat),
            total <= k * bound,
        decreases WORD_LEN - k,
    {
        let c = w.letter(k);
        let info: u64 = match constraints.get(c) {
            None => 100,
            Some(LetterState::Absent) => 0,
            Some(LetterState::Correct(_)) => 1,
            Some(LetterState::Present(p)) => if p as usize == k {
                1
            } else {
                10
            },
        };
        let f = freq.count(c);
        proof {
            if is_lower(c) {
                assert(freq@[letter_index(c)] <= WORD_LEN * MAX_WORDS);
            }
        }
        let bonus = bonus_of(f, max);
        proof {
            let kk: int = k as int;
            assert(total + info + bonus <= (kk + 1) * bound) by (nonlinear_arith)
                requires
                    total <= kk * bound,
                    info + bonus <= bound,
            ;
            assert((kk + 1) * bound <= WORD_LEN * bound) by (nonlinear_arith)
                requires
                    0 <= kk < WORD_LEN,
                    bound >= 0,
            ;
        }
        total = total + info + bonus;
        k = k + 1;
    }
    total
}

/// Weight of one piece of feedback in the closeness score.
pub open spec fn weight(st: LetterState) -> int {
    match st {
        LetterState::Absent => 0,
        LetterState::Present(_) => 20,
        LetterState::Correct(_) => 40,
    }
}

/// Sum of the weights of all entries of `es`.
pub open spec fn total_weight(es: Seq<(char, LetterState)>) -> int
    decreases es.len(),
{
    if es.len() == 0 {
        0
    } else {
        total_weight(es.drop_last()) + weight(es.last().1)
    }
}

/// How well constrained the search is against how many candidates remain.
pub open spec fn closeness(es: Seq<(char, LetterState)>, candidate_count: int) -> int {
    total_weight(es) - candidate_count
}

/// The closeness score: total feedback weight minus the number of candidates.
pub fn closeness_score(constraints: &ConstraintSet, candidate_count: usize) -> (r: i128)
    ensures
        r == closeness(constraints@, candidate_count as int),
{
    let n = constraints.len();
    let mut total: u128 = 0;
    let mut i: usize = 0;
    while i < n
        invariant
            n == constraints@.len(),
            i <= n,
            total == total_weight(constraints@.subrange(0, i as int)),
            total <= 40 * i,
        decreases n - i,
    {
        let (_, st) = constraints.entry(i);
        proof {
            let s = constraints@.subrange(0, i as int + 1);
            assert(s.drop_last() =~= constraints@.subrange(0, i as int));
        }
        let w: u128 = match st {
            LetterState::Absent => 0,
            LetterState::Present(_) => 20,
            LetterState::Correct(_) => 40,
        };
        total = total + w;
        i = i + 1;
    }
    assert(constraints@.subrange(0, n as int) =~= constraints@);
    total as i128 - candidate_count as i128
}

/// Whether the next guess tries to win or to gather information.
#[derive(Clone, Copy, Debug, PartialEq, Eq, Structural)]
pub enum GuessMode {
    /// Rank the remaining candidates by their letter frequencies.
    Win,
    /// Rank the whole corpus by the information a guess would reveal.
    Explore,
}

/// The mode of a round: win on the last permitted guess, when every candidate
/// can still be tried, or when the closeness score is positive.
pub open spec fn mode_for(
    es: Seq<(char, LetterState)>,
    candidate_count: int,
    guesses_made: int,
    max_guesses: int,
) -> GuessMode {
    if guesses_made + 1 == max_guesses || max_guesses - guesses_made >= candidate_count
        || closeness(es, candidate_count) > 0 {
        GuessMode::Win
    } else {
        GuessMode::Explore
    }
}

/// Decides the mode of the next guess.
pub fn decide_mode(
    constraints: &ConstraintSet,
    candidate_count: usize,
    guesses_made: u64,
    max_guesses: u64,
) -> (r: GuessMode)
    ensures
        r == mode_for(constraints@, candidate_count as int, guesses_made as int, max_guesses as int),
        guesses_made + 1 == max_guesses ==> r == GuessMode::Win,
{
    let last = guesses_made < max_guesses && guesses_made + 1 == max_guesses;
    let enough = guesses_made <= max_guesses && (max_guesses - guesses_made) as u128
        >= candidate_count as u128;
    if last || enough || closeness_score(constraints, candidate_count) > 0 {
        GuessMode::Win
    } else {
        GuessMode::Explore
    }
}

/// Whether rank key `a` comes strictly before rank key `b`: fewer repeated
/// letters first, then the higher primary score, then the higher secondary score.
pub open spec fn outranks(a: (int, int, int), b: (int, int, int)) -> bool {
    a.0 < b.0 || (a.0 == b.0 && (a.1 > b.1 || (a.1 == b.1 && a.2 > b.2)))
}

/// The rank key of `w` in `mode`, under feedback `es` and table `t`.
pub open spec fn rank_key(
    w: Word,
    mode: GuessMode,
    es: Seq<(char, LetterState)>,
    t: Seq<u64>,
) -> (int, int, int) {
    match mode {
        GuessMode::Win => (repeated_letters(w@) as int, base_score(w@, t), 0),
        GuessMode::Explore => (
            repeated_letters(w@) as int,
            explore_score(w@, es, t),
            base_score(w@, t),
        ),
    }
}

/// `ws[k]` heads the ranking: it outranks every earlier word, and no later
/// word outranks it.
pub open spec fn is_top(
    ws: Seq<Word>,
    k: int,
    mode: GuessMode,
    es: Seq<(char, LetterState)>,
    t: Seq<u64>,
) -> bool {
    &&& 0 <= k < ws.len()
    &&& forall|j: int| 0 <= j < k ==> outranks(rank_key(ws[k], mode, es, t), rank_key(#[trigger] ws[j], mode, es, t))
    &&& forall|j: int| k < j < ws.len() ==> !outranks(rank_key(#[trigger] ws[j], mode, es, t), rank_key(ws[k], mode, es, t))
}

fn key_of(
    w: &Word,
    mode: GuessMode,
    constraints: &ConstraintSet,
    freq: &LetterFrequency,
    max: u64,
) -> (r: (u64, u64, u64))
    requires
        constraints.wf(),
        freq.wf(),
        max == seq_max(freq@),
    ensures
        (r.0 as int, r.1 as int, r.2 as int) == rank_key(*w, mode, constraints@, freq@),
{
    let dups = repeated_letter_count(w);
    let base = word_base_score(w, freq);
    match mode {
        GuessMode::Win => (dups, base, 0),
        GuessMode::Explore => (dups, word_explore_score(w, constraints, freq, max), base),
    }
}

/// The position of the top-ranked word of `ranked`; `None` when it is empty.
pub fn pick_top(
    ranked: &Vec<Word>,
    mode: GuessMode,
    constraints: &ConstraintSet,
    freq: &LetterFrequency,
) -> (r: Option<usize>)
    requires
        constraints.wf(),
        freq.wf(),
    ensures
        r is None <==> ranked@.len() == 0,
        r matches Some(k) ==> is_top(ranked@, k as int, mode, constraints@, freq@),
{
    let n = ranked.len();
    if n == 0 {
        return None;
    }
    let max = freq.max_count();
    let ghost es = constraints@;
    let ghost t = freq@;
    let mut best: usize = 0;
    let mut best_key = key_of(&ranked[0], mode, constraints, freq, max);
    let mut i: usize = 1;
    while i < n
        invariant
            n == ranked@.len(),
            constraints.wf(),
            freq.wf(),
            es == constraints@,
            t == freq@,
            max == seq_max(freq@),
            1 <= i <= n,
            best < i,
            (best_key.0 as int, best_key.1 as int, best_key.2 as int) == rank_key(ranked@[best as int], mode, es, t),
            forall|j: int| 0 <= j < best ==> outranks(rank_key(ranked@[best as int], mode, es, t), rank_key(#[trigger] ranked@[j], mode, es, t)),
            forall|j: int| best < j < i ==> !outranks(rank_key(#[trigger] ranked@[j], mode, es, t), rank_key(ranked@[best as int], mode, es, t)),
        decreases n - i,
    {
        let key = key_of(&ranked[i], mode, constraints, freq, max);
        let better = key.0 < best_key.0 || (key.0 == best_key.0 && (key.1 > best_key.1 || (key.1
            == best_key.1 && key.2 > best_key.2)));
        if better {
            best = i;
            best_key = key;
        }
        i = i + 1;
    }
    Some(best)
}

/// The words a mode ranks: the candidates to win, the whole corpus to explore.
pub open spec fn ranked_words(candidates: Seq<Word>, corpus: Seq<Word>, mode: GuessMode) -> Seq<
    Word,
> {
    match mode {
        GuessMode::Win => candidates,
        GuessMode::Explore => corpus,
    }
}

/// `w` is the word that the round's ranking puts first.
pub open spec fn is_best_guess(
    w: Word,
    candidates: Seq<Word>,
    corpus: Seq<Word>,
    es: Seq<(char, LetterState)>,
    guesses_made: int,
    max_guesses: int,
) -> bool {
    let mode = mode_for(es, candidates.len() as int, guesses_made, max_guesses);
    let ranked = ranked_words(candidates, corpus, mode);
    exists|k: int| is_top(ranked, k, mode, es, freq_table(candidates)) && ranked[k] == w
}

/// Whether the round's ranking has no word to offer.
pub open spec fn nothing_to_rank(
    candidates: Seq<Word>,
    corpus: Seq<Word>,
    es: Seq<(char, LetterState)>,
    guesses_made: int,
    max_guesses: int,
) -> bool {
    let mode = mode_for(es, candidates.len() as int, guesses_made, max_guesses);
    ranked_words(candidates, corpus, mode).len() == 0
}

/// Chooses the next guess: decides the mode, ranks the candidates (win) or the
/// corpus (explore) with letter frequencies taken over the candidates, and
/// returns the top-ranked word.
pub fn best_word(
    candidates: &Vec<Word>,
    corpus: &WordCorpus,
    constraints: &ConstraintSet,
    guesses_made: u64,
    max_guesses: u64,
) -> (r: Result<Word, SolverError>)
    requires
        candidates@.len() <= MAX_WORDS,
        constraints.wf(),
    ensures
        r is Err <==> nothing_to_rank(
            candidates@,
            corpus@,
            constraints@,
            guesses_made as int,
            max_guesses as int,
        ),
        r is Err ==> r == Err::<Word, SolverError>(SolverError::NoCandidates),
        r matches Ok(w) ==> is_best_guess(
            w,
            candidates@,
            corpus@,
            constraints@,
            guesses_made as int,
            max_guesses as int,
        ),
{
    let mode = decide_mode(constraints, candidates.len(), guesses_made, max_guesses);
    let freq = letter_frequency(candidates);
    let ranked: &Vec<Word> = match mode {
        GuessMode::Win => candidates,
        GuessMode::Explore => corpus.words(),
    };
    match pick_top(ranked, mode, constraints, &freq) {
        None => Err(SolverError::NoCandidates),
        Some(k) => {
            assert(ranked@ == ranked_words(candidates@, corpus@, mode));
            assert(is_top(ranked@, k as int, mode, constraints@, freq_table(candidates@)));
            Ok(ranked[k])
        },
    }
}

} // verus!
