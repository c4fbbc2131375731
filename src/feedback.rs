//! Reading the board: each tile's attributes become a letter and its state.

use vstd::prelude::*;
use crate::word::{WORD_LEN, chars_of};
use crate::filter::{ConstraintSet, LetterState, insert_entry};
use crate::error::SolverError;

verus! {

/// Where, in a tile's style text, the digit that gives its column stands.
pub const COLUMN_DIGIT_AT: usize = 17;

/// One tile of the board.
#[derive(Clone, Copy, Debug, PartialEq, Eq, Structural)]
pub enum Tile {
    /// Not yet filled; no later tile is filled either.
    Empty,
    /// A letter with its feedback.
    Letter(char, LetterState),
}

/// The tile that a state attribute, a label and a style text describe.
pub open spec fn tile_of(state: Seq<char>, label: Seq<char>, style: Seq<char>) -> Result<
    Tile,
    SolverError,
> {
    if state == "empty"@ {
        Ok(Tile::Empty)
    } else if label.len() == 0 || style.len() <= COLUMN_DIGIT_AT || !('0' <= style[COLUMN_DIGIT_AT as int]
        && style[COLUMN_DIGIT_AT as int] <= '9') || style[COLUMN_DIGIT_AT as int] as int - '0' as int
        >= WORD_LEN {
        Err(SolverError::ObservationError)
    } else {
        let pos = (style[COLUMN_DIGIT_AT as int] as int - '0' as int) as u8;
        if state == "absent"@ {
            Ok(Tile::Letter(label[0], LetterState::Absent))
        } else if state == "present"@ {
            Ok(Tile::Letter(label[0], LetterState::Present(pos)))
        } else if state == "correct"@ {
            Ok(Tile::Letter(label[0], LetterState::Correct(pos)))
        } else {
            Err(SolverError::ObservationError)
        }
    }
}

fn same_chars(a: &Vec<char>, b: &Vec<char>) -> (r: bool)
    ensures
        r == (a@ == b@),
{
    if a.len() != b.len() {
        return false;
    }
    let n = a.len();
    let mut i: usize = 0;
    while i < n
        invariant
            n == a@.len(),
            n == b@.len(),
            i <= n,
            forall|j: int| 0 <= j < i ==> a@[j] == b@[j],
        decreases n - i,
    {
        if a[i] != b[i] {
            return false;
        }
        i = i + 1;
    }
    assert(a@ =~= b@);
    true
}

/// Reads one tile from its state attribute, its label (whose first character
/// is the letter) and its style text (which gives the column).
pub fn parse_tile(state: &str, label: &str, style: &str) -> (r: Result<Tile, SolverError>)
    ensures
        r == tile_of(state@, label@, style@),
        r matches Ok(Tile::Letter(_, st)) ==> st.wf(),
{
    let kind = chars_of(state);
    if same_chars(&kind, &chars_of("empty")) {
        return Ok(Tile::Empty);
    }
    let letters = chars_of(label);
    let place = chars_of(style);
    if letters.len() == 0 || place.len() <= COLUMN_DIGIT_AT {
        return Err(SolverError::ObservationError);
    }
    let d = place[COLUMN_DIGIT_AT];
    if !('0' <= d && d <= '9') {
        return Err(SolverError::ObservationError);
    }
    let value = d as u32 - '0' as u32;
    if value >= WORD_LEN as u32 {
        return Err(SolverError::ObservationError);
    }
    let pos = value as u8;
    let c = letters[0];
    if same_chars(&kind, &chars_of("absent")) {
        Ok(Tile::Letter(c, LetterState::Absent))
    } else if same_chars(&kind, &chars_of("present")) {
        Ok(Tile::Letter(c, LetterState::Present(pos)))
    } else if same_chars(&kind, &chars_of("correct")) {
        Ok(Tile::Letter(c, LetterState::Correct(pos)))
    } else {
        Err(SolverError::ObservationError)
    }
}

/// `es` after recording, in order, the tiles of `ts` up to the first empty one.
pub open spec fn record_tiles(es: Seq<(char, LetterState)>, ts: Seq<Tile>) -> Seq<
    (char, LetterState),
>
    decreases ts.len(),
{
    if ts.len() == 0 {
        es
    } else {
        match ts[0] {
            Tile::Empty => es,
            Tile::Letter(c, st) => record_tiles(insert_entry(es, c, st), ts.drop_first()),
        }
    }
}

/// The constraints that the board shows: each filled tile in order, the last
/// state of a letter replacing earlier ones, reading stopped at the first
/// empty tile.
pub fn constraints_from_tiles(tiles: &Vec<Tile>) -> (r: ConstraintSet)
    requires
        forall|i: int| 0 <= i < tiles@.len() ==> (#[trigger] tiles@[i] matches Tile::Letter(_, st)
            ==> st.wf()),
    ensures
        r.wf(),
        r@ == record_tiles(Seq::empty(), tiles@),
{
    let mut cs = ConstraintSet::new();
    let n = tiles.len();
    let mut i: usize = 0;
    assert(tiles@.subrange(0, n as int) =~= tiles@);
    while i < n
        invariant
            n == tiles@.len(),
            i <= n,
            cs.wf(),
            forall|k: int| 0 <= k < tiles@.len() ==> (#[trigger] tiles@[k] matches Tile::Letter(_, st)
                ==> st.wf()),
            record_tiles(cs@, tiles@.subrange(i as int, n as int)) == record_tiles(
                Seq::empty(),
                tiles@,
            ),
        decreases n - i,
    {
        let ghost rest = tiles@.subrange(i as int, n as int);
        assert(rest[0] == tiles@[i as int]);
        match tiles[i] {
            Tile::Empty => {
                return cs;
            },
            Tile::Letter(c, st) => {
                assert(rest.drop_first() =~= tiles@.subrange(i as int + 1, n as int));
                cs.insert(c, st);
            },
        }
        i = i + 1;
    }
    assert(tiles@.subrange(n as int, n as int) =~= Seq::<Tile>::empty());
    cs
}

} // verus!
