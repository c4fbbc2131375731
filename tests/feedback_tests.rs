use wordle_solver::error::SolverError;
use wordle_solver::feedback::{constraints_from_tiles, parse_tile, Tile};
use wordle_solver::filter::LetterState;

#[test]
fn parse_tile_reads_each_state() {
    assert_eq!(parse_tile("empty", "", ""), Ok(Tile::Empty));
    assert_eq!(
        parse_tile("absent", "q", "animation-delay: 300ms"),
        Ok(Tile::Letter('q', LetterState::Absent))
    );
    assert_eq!(
        parse_tile("present", "r", "animation-delay: 200ms"),
        Ok(Tile::Letter('r', LetterState::Present(2)))
    );
    assert_eq!(
        parse_tile("correct", "e", "animation-delay: 400ms"),
        Ok(Tile::Letter('e', LetterState::Correct(4)))
    );
}

#[test]
fn parse_tile_refuses_bad_attributes() {
    assert_eq!(parse_tile("tbd", "a", "animation-delay: 0ms"), Err(SolverError::ObservationError));
    assert_eq!(parse_tile("absent", "", "animation-delay: 0ms"), Err(SolverError::ObservationError));
    assert_eq!(parse_tile("absent", "a", "short"), Err(SolverError::ObservationError));
    assert_eq!(parse_tile("absent", "a", "animation-delay: xms"), Err(SolverError::ObservationError));
    assert_eq!(parse_tile("absent", "a", "animation-delay: 700ms"), Err(SolverError::ObservationError));
}

#[test]
fn tiles_stop_at_first_empty_and_last_state_wins() {
    let tiles = vec![
        Tile::Letter('e', LetterState::Present(0)),
        Tile::Letter('r', LetterState::Absent),
        Tile::Letter('e', LetterState::Correct(4)),
        Tile::Empty,
        Tile::Letter('z', LetterState::Absent),
    ];
    let cs = constraints_from_tiles(&tiles);
    assert_eq!(cs.len(), 2);
    assert_eq!(cs.entry(0), ('e', LetterState::Correct(4)));
    assert_eq!(cs.entry(1), ('r', LetterState::Absent));
    assert_eq!(cs.get('z'), None);
    assert_eq!(constraints_from_tiles(&vec![]).len(), 0);
}
