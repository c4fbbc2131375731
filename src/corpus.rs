//! The dictionary: newline-separated words, loaded once and then read only.

use vstd::prelude::*;
use crate::word::{Word, is_word};
use crate::scorer::MAX_WORDS;
use crate::error::SolverError;

verus! {

broadcast use crate::word::Word::lemma_len;

/// The lines of `t`, split at each `'\n'`; a text ending in `'\n'` ends with an
/// empty line.
pub open spec fn split_lines(t: Seq<char>) -> Seq<Seq<char>>
    decreases t.len(),
{
    if t.len() == 0 {
        seq![Seq::<char>::empty()]
    } else {
        let ls = split_lines(t.drop_last());
        if t.last() == '\n' {
            ls.push(Seq::<char>::empty())
        } else {
            ls.update(ls.len() - 1, ls.last().push(t.last()))
        }
    }
}

/// The non-blank lines of `t`, in order.
pub open spec fn entries(t: Seq<char>) -> Seq<Seq<char>> {
    split_lines(t).filter(|l: Seq<char>| l.len() > 0)
}

/// Every non-blank line of `t` is a word.
pub open spec fn all_words(t: Seq<char>) -> bool {
    all_good(entries(t))
}

/// The letters of each word of `ws`.
pub open spec fn letters_of(ws: Seq<Word>) -> Seq<Seq<char>> {
    ws.map_values(|w: Word| w@)
}

/// Why a dictionary text was refused.
#[derive(Clone, Copy, Debug, PartialEq, Eq, Structural)]
pub enum CorpusError {
    /// A non-blank line is not a word of lowercase letters of the right length.
    MalformedEntry,
    /// More words than the scorer's counters are sized for.
    TooLarge,
}

/// The authoritative list of words.
pub struct WordCorpus {
    words: Vec<Word>,
}

impl View for WordCorpus {
    type V = Seq<Word>;

    closed spec fn view(&self) -> Seq<Word> {
        self.words@
    }
}

proof fn lemma_split_nonempty(t: Seq<char>)
    ensures
        split_lines(t).len() >= 1,
    decreases t.len(),
{
    if t.len() > 0 {
        lemma_split_nonempty(t.drop_last());
    }
}

impl WordCorpus {
    pub open spec fn wf(&self) -> bool {
        &&& self@.len() <= MAX_WORDS
        &&& forall|i: int| 0 <= i < self@.len() ==> (#[trigger] self@[i]).wf()
    }

    /// Reads a dictionary: one word per line, blank lines ignored. Refused when
    /// a non-blank line is not a word, or when there are more than `MAX_WORDS`
    /// words.
    pub fn load(text: &str) -> (r: Result<WordCorpus, CorpusError>)
        ensures
            !all_words(text@) ==> r == Err::<WordCorpus, CorpusError>(CorpusError::MalformedEntry),
            all_words(text@) && entries(text@).len() > MAX_WORDS ==> r == Err::<
                WordCorpus,
                CorpusError,
            >(CorpusError::TooLarge),
            r is Ok <==> all_words(text@) && entries(text@).len() <= MAX_WORDS,
            r matches Ok(c) ==> c.wf() && letters_of(c@) == entries(text@),
    {
        let mut done: Vec<Word> = Vec::new();
        let mut malformed = false;
        let mut cur: Vec<char> = Vec::new();
        proof {
            reveal(Seq::filter);
            assert(text@.subrange(0, 0) =~= Seq::<char>::empty());
            assert(letters_of(done@) =~= Seq::<Seq<char>>::empty());
        }
        for c in it: text.chars()
            invariant
                it.seq() == text@,
                split_lines(text@.subrange(0, it.index() as int)).len() >= 1,
                split_lines(text@.subrange(0, it.index() as int)).last() == cur@,
                malformed == !all_good(finished(text@.subrange(0, it.index() as int))),
                !malformed ==> letters_of(done@) == finished(text@.subrange(0, it.index() as int)),
                forall|i: int| 0 <= i < done@.len() ==> (#[trigger] done@[i]).wf(),
        {
            let ghost p = text@.subrange(0, it.index() as int);
            let ghost q = text@.subrange(0, it.index() as int + 1);
            let ghost ls = split_lines(p);
            let ghost before = finished(p);
            proof {
                assert(q.drop_last() =~= p);
                assert(q.last() == c);
                assert(ls.drop_last().push(ls.last()) =~= ls);
            }
            if c == '\n' {
                proof {
                    assert(split_lines(q).drop_last() =~= ls);
                    lemma_filter_push(ls.drop_last(), cur@);
                }
                if cur.len() > 0 {
                    match Word::from_chars(&cur) {
                        Some(w) => {
                            if !malformed {
                                done.push(w);
                                assert(letters_of(done@) =~= before.push(cur@));
                            }
                        },
                        None => {
                            malformed = true;
                        },
                    }
                    proof {
                        let after = before.push(cur@);
                        assert(finished(q) == after);
                        if all_good(before) && is_word(cur@) {
                            assert forall|i: int| 0 <= i < after.len() implies is_word(
                                #[trigger] after[i],
                            ) by {
                                if i < before.len() {
                                    assert(after[i] == before[i]);
                                }
                            }
                        }
                        if !all_good(before) {
                            let i = choose|i: int| 0 <= i < before.len() && !is_word(#[trigger] before[i]);
                            assert(after[i] == before[i]);
                        }
                        if !is_word(cur@) {
                            assert(after[before.len() as int] == cur@);
                        }
                    }
                } else {
                    assert(finished(q) == before);
                }
                cur = Vec::new();
                assert(split_lines(q).last() =~= cur@);
            } else {
                cur.push(c);
                proof {
                    assert(split_lines(q).drop_last() =~= ls.drop_last());
                }
            }
            proof {
                lemma_split_nonempty(q);
            }
        }
        assert(text@.subrange(0, text@.len() as int) =~= text@);
        let ghost ls = split_lines(text@);
        let ghost before = finished(text@);
        proof {
            assert(ls.drop_last().push(ls.last()) =~= ls);
            lemma_filter_push(ls.drop_last(), cur@);
        }
        if cur.len() > 0 {
            match Word::from_chars(&cur) {
                Some(w) => {
                    if !malformed {
                        done.push(w);
                        assert(letters_of(done@) =~= before.push(cur@));
                    }
                },
                None => {
                    malformed = true;
                },
            }
            proof {
                let after = before.push(cur@);
                assert(entries(text@) == after);
                if all_good(before) && is_word(cur@) {
                    assert forall|i: int| 0 <= i < after.len() implies is_word(#[trigger] after[i]) by {
                        if i < before.len() {
                            assert(after[i] == before[i]);
                        }
                    }
                }
                if !all_good(before) {
                    let i = choose|i: int| 0 <= i < before.len() && !is_word(#[trigger] before[i]);
                    assert(after[i] == before[i]);
                }
                if !is_word(cur@) {
                    assert(after[before.len() as int] == cur@);
                }
            }
        } else {
            assert(entries(text@) == before);
        }
        if malformed {
            return Err(CorpusError::MalformedEntry);
        }
        if done.len() > MAX_WORDS {
            return Err(CorpusError::TooLarge);
        }
        proof {
            assert(letters_of(done@).len() == done@.len());
        }
        Ok(WordCorpus { words: done })
    }

    /// All words, in dictionary order.
    pub fn words(&self) -> (r: &Vec<Word>)
        ensures
            r@ == self@,
    {
        &self.words
    }

    /// Number of words.
    pub fn len(&self) -> (r: usize)
        ensures
            r == self@.len(),
    {
        self.words.len()
    }

    /// Whether some word of the corpus has the letters of `w`.
    pub fn contains(&self, w: &Word) -> (r: bool)
        ensures
            r == exists|i: int| 0 <= i < self@.len() && (#[trigger] self@[i])@ == w@,
    {
        let n = self.words.len();
        let mut i: usize = 0;
        while i < n
            invariant
                n == self.words@.len(),
                i <= n,
                forall|j: int| 0 <= j < i ==> (#[trigger] self.words@[j])@ != w@,
            decreases n - i,
        {
            if self.words[i].same_as(w) {
                assert(self@[i as int]@ == w@);
                return true;
            }
            i = i + 1;
        }
        false
    }

    /// Accepts a guess only when it is a word of the corpus.
    pub fn validate_guess(&self, w: &Word) -> (r: Result<(), SolverError>)
        ensures
            r is Ok <==> exists|i: int| 0 <= i < self@.len() && (#[trigger] self@[i])@ == w@,
            r is Err ==> r == Err::<(), SolverError>(SolverError::InvalidGuess),
    {
        if self.contains(w) {
            Ok(())
        } else {
            Err(SolverError::InvalidGuess)
        }
    }
}

/// The lines of `t` that a final `'\n'` has closed, blank ones left out.
pub open spec fn finished(t: Seq<char>) -> Seq<Seq<char>> {
    split_lines(t).drop_last().filter(|l: Seq<char>| l.len() > 0)
}

/// Every line of `ls` is a word.
pub open spec fn all_good(ls: Seq<Seq<char>>) -> bool {
    forall|i: int| 0 <= i < ls.len() ==> is_word(#[trigger] ls[i])
}

proof fn lemma_filter_push(s: Seq<Seq<char>>, x: Seq<char>)
    ensures
        s.push(x).filter(|l: Seq<char>| l.len() > 0) == if x.len() > 0 {
            s.filter(|l: Seq<char>| l.len() > 0).push(x)
        } else {
            s.filter(|l: Seq<char>| l.len() > 0)
        },
{
    reveal(Seq::filter);
    assert(s.push(x).drop_last() =~= s);
}

} // verus!
