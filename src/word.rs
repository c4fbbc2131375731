//! Fixed-length lowercase words.

use vstd::prelude::*;

verus! {

/// Number of letters in every word.
pub const WORD_LEN: usize = 5;

/// A lowercase ASCII letter.
pub open spec fn is_lower(c: char) -> bool {
    'a' <= c && c <= 'z'
}

/// A sequence of exactly `WORD_LEN` lowercase letters.
pub open spec fn is_word(s: Seq<char>) -> bool {
    &&& s.len() == WORD_LEN
    &&& forall|i: int| 0 <= i < s.len() ==> is_lower(#[trigger] s[i])
}

/// Number of positions of `w` that hold `c`.
pub open spec fn occurrences(w: Seq<char>, c: char) -> nat
    decreases w.len(),
{
    if w.len() == 0 {
        0
    } else {
        occurrences(w.drop_last(), c) + if w.last() == c {
            1nat
        } else {
            0nat
        }
    }
}

/// The characters of `s`, in order.
pub fn chars_of(s: &str) -> (r: Vec<char>)
    ensures
        r@ == s@,
{
    let mut out: Vec<char> = Vec::new();
    for c in it: s.chars()
        invariant
            it.seq() == s@,
            out@ == s@.subrange(0, it.index() as int),
    {
        out.push(c);
        assert(out@ =~= s@.subrange(0, it.index() as int + 1));
    }
    assert(out@ =~= s@);
    out
}

/// Relies on String::push: appends one character to the end.
#[verifier::external_body]
fn push_char(s: &mut String, c: char)
    ensures
        final(s)@ == old(s)@.push(c),
{
    s.push(c)
}

/// A word of the game: `WORD_LEN` lowercase letters.
#[derive(Clone, Copy, Debug, Eq)]
pub struct Word {
    letters: [char; WORD_LEN],
}

impl View for Word {
    type V = Seq<char>;

    closed spec fn view(&self) -> Seq<char> {
        self.letters@
    }
}

impl Word {
    pub open spec fn wf(&self) -> bool {
        is_word(self@)
    }

    /// Every word has `WORD_LEN` positions.
    pub broadcast proof fn lemma_len(w: Word)
        ensures
            #[trigger] w@.len() == WORD_LEN,
    {
    }

    /// Builds a word from its letters; `None` unless they are exactly
    /// `WORD_LEN` lowercase letters.
    pub fn from_chars(cs: &Vec<char>) -> (r: Option<Word>)
        ensures
            r is Some <==> is_word(cs@),
            r matches Some(w) ==> w@ == cs@ && w.wf(),
    {
        if cs.len() != WORD_LEN {
            return None;
        }
        let mut i: usize = 0;
        while i < WORD_LEN
            invariant
                cs@.len() == WORD_LEN,
                i <= WORD_LEN,
                forall|j: int| 0 <= j < i ==> is_lower(#[trigger] cs@[j]),
            decreases WORD_LEN - i,
        {
            let c = cs[i];
            if !('a' <= c && c <= 'z') {
                return None;
            }
            i = i + 1;
        }
        let w = Word { letters: [cs[0], cs[1], cs[2], cs[3], cs[4]] };
        assert(w@ =~= cs@);
        Some(w)
    }

    /// Reads a word from text; `None` unless it is exactly `WORD_LEN`
    /// lowercase letters.
    pub fn from_str(s: &str) -> (r: Option<Word>)
        ensures
            r is Some <==> is_word(s@),
            r matches Some(w) ==> w@ == s@ && w.wf(),
    {
        let cs = chars_of(s);
        Word::from_chars(&cs)
    }

    /// The word as text.
    pub fn to_string(&self) -> (r: String)
        ensures
            r@ == self@,
    {
        let mut out = String::new();
        let mut i: usize = 0;
        while i < WORD_LEN
            invariant
                i <= WORD_LEN,
                self@.len() == WORD_LEN,
                out@ == self@.subrange(0, i as int),
            decreases WORD_LEN - i,
        {
            push_char(&mut out, self.letters[i]);
            assert(out@ =~= self@.subrange(0, i as int + 1));
            i = i + 1;
        }
        assert(out@ =~= self@);
        out
    }

    /// The letter at position `i`.
    pub fn letter(&self, i: usize) -> (c: char)
        requires
            i < WORD_LEN,
        ensures
            c == self@[i as int],
    {
        self.letters[i]
    }

    /// Whether `c` occurs anywhere in the word.
    pub fn contains(&self, c: char) -> (r: bool)
        ensures
            r == self@.contains(c),
    {
        let mut i: usize = 0;
        while i < WORD_LEN
            invariant
                i <= WORD_LEN,
                self@.len() == WORD_LEN,
                forall|j: int| 0 <= j < i ==> self@[j] != c,
            decreases WORD_LEN - i,
        {
            if self.letters[i] == c {
                return true;
            }
            i = i + 1;
        }
        false
    }

    /// Whether two words have the same letters.
    pub fn same_as(&self, other: &Word) -> (r: bool)
        ensures
            r == (self@ == other@),
    {
        let mut i: usize = 0;
        while i < WORD_LEN
            invariant
                i <= WORD_LEN,
                self@.len() == WORD_LEN,
                other@.len() == WORD_LEN,
                forall|j: int| 0 <= j < i ==> self@[j] == other@[j],
            decreases WORD_LEN - i,
        {
            if self.letters[i] != other.letters[i] {
                return false;
            }
            i = i + 1;
        }
        assert(self@ =~= other@);
        true
    }
}

impl PartialEq for Word {
    fn eq(&self, other: &Word) -> (r: bool) {
        self.same_as(other)
    }
}

impl vstd::std_specs::cmp::PartialEqSpecImpl for Word {
    open spec fn obeys_eq_spec() -> bool {
        true
    }

    open spec fn eq_spec(&self, other: &Word) -> bool {
        self@ == other@
    }
}

} // verus!
