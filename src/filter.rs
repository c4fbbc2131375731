//! Letter feedback and the candidate filter.

use vstd::prelude::*;
use crate::word::{Word, WORD_LEN};

verus! {

broadcast use crate::word::Word::lemma_len;

/// Feedback on one letter.
#[derive(Clone, Copy, Debug, PartialEq, Eq, Structural)]
pub enum LetterState {
    /// The letter is not in the answer.
    Absent,
    /// The letter is in the answer, but not at this position.
    Present(u8),
    /// The letter is in the answer at this position.
    Correct(u8),
}

impl LetterState {
    /// Positions, where present, lie inside a word.
    pub open spec fn wf(self) -> bool {
        match self {
            LetterState::Absent => true,
            LetterState::Present(p) => p < WORD_LEN,
            LetterState::Correct(p) => p < WORD_LEN,
        }
    }
}

/// Whether the letters `w` agree with feedback `st` on letter `c`.
pub open spec fn satisfies(w: Seq<char>, c: char, st: LetterState) -> bool {
    match st {
        LetterState::Absent => !w.contains(c),
        LetterState::Present(p) => w.contains(c) && w[p as int] != c,
        LetterState::Correct(p) => w[p as int] == c,
    }
}

/// Entries with pairwise distinct letters and positions inside a word.
pub open spec fn entries_wf(es: Seq<(char, LetterState)>) -> bool {
    &&& forall|i: int, j: int|
        0 <= i < es.len() && 0 <= j < es.len() && i != j ==> #[trigger] es[i].0 != #[trigger] es[j].0
    &&& forall|i: int| 0 <= i < es.len() ==> (#[trigger] es[i]).1.wf()
}

/// The state that `es` records for `c`, if any.
pub open spec fn lookup(es: Seq<(char, LetterState)>, c: char) -> Option<LetterState> {
    if exists|i: int| 0 <= i < es.len() && es[i].0 == c {
        Some(es[choose|i: int| 0 <= i < es.len() && es[i].0 == c].1)
    } else {
        None
    }
}

/// `es` with `st` recorded for `c`: in place of an entry for `c`, else at the end.
pub open spec fn insert_entry(es: Seq<(char, LetterState)>, c: char, st: LetterState) -> Seq<
    (char, LetterState),
> {
    if exists|i: int| 0 <= i < es.len() && es[i].0 == c {
        es.update(choose|i: int| 0 <= i < es.len() && es[i].0 == c, (c, st))
    } else {
        es.push((c, st))
    }
}

/// Whether `w` agrees with every entry of `es`.
pub open spec fn consistent(w: Seq<char>, es: Seq<(char, LetterState)>) -> bool {
    forall|i: int| 0 <= i < es.len() ==> satisfies(w, (#[trigger] es[i]).0, es[i].1)
}

/// The words of `ws`, in order, that agree with all of `es`.
pub open spec fn filtered(ws: Seq<Word>, es: Seq<(char, LetterState)>) -> Seq<Word> {
    ws.filter(|w: Word| consistent(w@, es))
}

/// At most one state per letter, the latest observed.
pub struct ConstraintSet {
    entries: Vec<(char, LetterState)>,
}

impl View for ConstraintSet {
    type V = Seq<(char, LetterState)>;

    closed spec fn view(&self) -> Seq<(char, LetterState)> {
        self.entries@
    }
}

impl ConstraintSet {
    pub open spec fn wf(&self) -> bool {
        entries_wf(self@)
    }

    /// The empty set of constraints.
    pub fn new() -> (r: ConstraintSet)
        ensures
            r@ == Seq::<(char, LetterState)>::empty(),
            r.wf(),
    {
        ConstraintSet { entries: Vec::new() }
    }

    /// Records `st` for `c`, replacing any earlier state of `c` in place.
    pub fn insert(&mut self, c: char, st: LetterState)
        requires
            old(self).wf(),
            st.wf(),
        ensures
            final(self).wf(),
            final(self)@ == insert_entry(old(self)@, c, st),
    {
        let n = self.entries.len();
        let mut i: usize = 0;
        while i < n
            invariant
                n == self.entries@.len(),
                i <= n,
                self.entries@ == old(self).entries@,
                entries_wf(self.entries@),
                st.wf(),
                forall|j: int| 0 <= j < i ==> self.entries@[j].0 != c,
            decreases n - i,
        {
            if self.entries[i].0 == c {
                self.entries.set(i, (c, st));
                assert(self.entries@ == old(self).entries@.update(i as int, (c, st)));
                assert(old(self)@[i as int].0 == c);
                let ghost k = choose|k: int| 0 <= k < old(self)@.len() && old(self)@[k].0 == c;
                assert(k == i);
                return;
            }
            i = i + 1;
        }
        self.entries.push((c, st));
    }

    /// The state recorded for `c`, if any.
    pub fn get(&self, c: char) -> (r: Option<LetterState>)
        requires
            self.wf(),
        ensures
            r == lookup(self@, c),
    {
        let n = self.entries.len();
        let mut i: usize = 0;
        while i < n
            invariant
                n == self.entries@.len(),
                i <= n,
                entries_wf(self.entries@),
                forall|j: int| 0 <= j < i ==> self.entries@[j].0 != c,
            decreases n - i,
        {
            if self.entries[i].0 == c {
                assert(self@[i as int].0 == c);
                let ghost k = choose|k: int| 0 <= k < self@.len() && self@[k].0 == c;
                assert(k == i);
                return Some(self.entries[i].1);
            }
            i = i + 1;
        }
        None
    }

    /// Number of letters with a recorded state.
    pub fn len(&self) -> (r: usize)
        ensures
            r == self@.len(),
    {
        self.entries.len()
    }

    /// The `i`-th recorded letter and its state.
    pub fn entry(&self, i: usize) -> (r: (char, LetterState))
        requires
            i < self@.len(),
        ensures
            r == self@[i as int],
    {
        self.entries[i]
    }

    /// Whether `w` agrees with every recorded state.
    pub fn admits(&self, w: &Word) -> (r: bool)
        requires
            self.wf(),
        ensures
            r == consistent(w@, self@),
    {
        let n = self.entries.len();
        let mut i: usize = 0;
        while i < n
            invariant
                n == self.entries@.len(),
                i <= n,
                entries_wf(self.entries@),
                forall|j: int| 0 <= j < i ==> satisfies(w@, (#[trigger] self.entries@[j]).0, self.entries@[j].1),
            decreases n - i,
        {
            let (c, st) = self.entries[i];
            assert(self.entries@[i as int].1.wf());
            let ok = match st {
                LetterState::Absent => !w.contains(c),
                LetterState::Present(p) => w.contains(c) && w.letter(p as usize) != c,
                LetterState::Correct(p) => w.letter(p as usize) == c,
            };
            if !ok {
                assert(!satisfies(w@, self@[i as int].0, self@[i as int].1));
                return false;
            }
            i = i + 1;
        }
        true
    }
}

/// Keeps, in order, the candidates that agree with every constraint.
pub fn apply_filter(candidates: &mut Vec<Word>, constraints: &ConstraintSet)
    requires
        constraints.wf(),
    ensures
        final(candidates)@ == filtered(old(candidates)@, constraints@),
{
    let ghost es = constraints@;
    let ghost pred = |w: Word| consistent(w@, es);
    let n = candidates.len();
    let mut kept: Vec<Word> = Vec::new();
    let mut i: usize = 0;
    while i < n
        invariant
            n == candidates@.len(),
            i <= n,
            constraints.wf(),
            es == constraints@,
            pred == (|w: Word| consistent(w@, es)),
            kept@ == candidates@.subrange(0, i as int).filter(pred),
        decreases n - i,
    {
        let w = candidates[i];
        let keep = constraints.admits(&w);
        proof {
            let s = candidates@.subrange(0, i as int + 1);
            assert(s.drop_last() =~= candidates@.subrange(0, i as int));
            assert(s.last() == w);
            reveal(Seq::filter);
        }
        if keep {
            kept.push(w);
        }
        i = i + 1;
    }
    assert(candidates@.subrange(0, n as int) =~= candidates@);
    *candidates = kept;
}

/// Filtering twice with the same constraints gives what filtering once gives.
pub proof fn lemma_filter_idempotent(ws: Seq<Word>, es: Seq<(char, LetterState)>)
    ensures
        filtered(filtered(ws, es), es) == filtered(ws, es),
    decreases ws.len(),
{
    let pred = |w: Word| consistent(w@, es);
    reveal(Seq::filter);
    if ws.len() > 0 {
        let front = ws.drop_last();
        lemma_filter_idempotent(front, es);
        let f = front.filter(pred);
        if pred(ws.last()) {
            assert(f.push(ws.last()).drop_last() =~= f);
        }
    }
}

/// Filtering never lengthens the candidate list.
pub proof fn lemma_filter_shrinks(ws: Seq<Word>, es: Seq<(char, LetterState)>)
    ensures
        filtered(ws, es).len() <= ws.len(),
{
    ws.lemma_filter_len(|w: Word| consistent(w@, es));
}

/// Every word that survives the filter meets each constraint by its kind:
/// the letter at the position for `Correct`, the letter elsewhere but not at the
/// position for `Present`, and no occurrence at all for `Absent`; and every
/// word that meets all constraints survives.
pub proof fn lemma_filter_sound(ws: Seq<Word>, es: Seq<(char, LetterState)>)
    ensures
        forall|i: int, j: int|
            0 <= i < filtered(ws, es).len() && 0 <= j < es.len() ==> {
                let w = (#[trigger] filtered(ws, es)[i])@;
                let c = (#[trigger] es[j]).0;
                match es[j].1 {
                    LetterState::Correct(p) => w[p as int] == c,
                    LetterState::Present(p) => w.contains(c) && w[p as int] != c,
                    LetterState::Absent => !w.contains(c),
                }
            },
        forall|i: int|
            0 <= i < ws.len() && consistent(ws[i]@, es) ==> #[trigger] filtered(ws, es).contains(
                ws[i],
            ),
{
    let pred = |w: Word| consistent(w@, es);
    assert forall|i: int, j: int|
        0 <= i < filtered(ws, es).len() && 0 <= j < es.len() implies satisfies(
        (#[trigger] filtered(ws, es)[i])@,
        (#[trigger] es[j]).0,
        es[j].1,
    ) by {
        ws.lemma_filter_pred(pred, i);
    }
    assert forall|i: int|
        0 <= i < ws.len() && consistent(ws[i]@, es) implies #[trigger] filtered(ws, es).contains(
        ws[i],
    ) by {
        ws.lemma_filter_contains(pred, i);
    }
}

/// A list of feedback that asks for a letter at a position and also for its
/// absence leaves no candidate.
pub proof fn lemma_contradiction_empties(
    ws: Seq<Word>,
    es: Seq<(char, LetterState)>,
    i: int,
    j: int,
)
    requires
        0 <= i < es.len(),
        0 <= j < es.len(),
        es[i].1 is Correct,
        es[i].1.wf(),
        es[j] == (es[i].0, LetterState::Absent),
    ensures
        filtered(ws, es).len() == 0,
{
    if filtered(ws, es).len() > 0 {
        lemma_filter_sound(ws, es);
        let w = filtered(ws, es)[0]@;
        let p = es[i].1->Correct_0;
        assert(w[p as int] == es[i].0);
        assert(w.contains(es[i].0));
    }
}

/// When no word of the list agrees with the feedback, nothing survives.
pub proof fn lemma_no_consistent_word_empties(ws: Seq<Word>, es: Seq<(char, LetterState)>)
    requires
        forall|k: int| 0 <= k < ws.len() ==> !consistent((#[trigger] ws[k])@, es),
    ensures
        filtered(ws, es).len() == 0,
{
    if filtered(ws, es).len() > 0 {
        let pred = |w: Word| consistent(w@, es);
        ws.lemma_filter_pred(pred, 0);
        let w = filtered(ws, es)[0];
        lemma_filtered_from(ws, es, 0);
        let k = choose|k: int| 0 <= k < ws.len() && ws[k] == w;
        assert(!consistent(ws[k]@, es));
    }
}

proof fn lemma_filtered_from(ws: Seq<Word>, es: Seq<(char, LetterState)>, i: int)
    requires
        0 <= i < filtered(ws, es).len(),
    ensures
        ws.contains(filtered(ws, es)[i]),
    decreases ws.len(),
{
    reveal(Seq::filter);
    let pred = |w: Word| consistent(w@, es);
    let front = ws.drop_last();
    let f = front.filter(pred);
    if i < f.len() {
        lemma_filtered_from(front, es, i);
        let k = choose|k: int| 0 <= k < front.len() && front[k] == f[i];
        assert(ws[k] == f[i]);
    } else {
        assert(filtered(ws, es)[i] == ws[ws.len() - 1]);
    }
}

} // verus!
