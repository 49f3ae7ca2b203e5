use osero::board::PlacementError;
use osero::game::Game;
use osero::input::{parse_move, InputError};
use osero::piece::{Piece, Player};

#[test]
fn failed_move_keeps_turn() {
    let mut g = Game::new();
    assert_eq!(g.turn, Player::Black);
    assert_eq!(g.play(0, 0), Err(PlacementError::NoAdjacentOpponent));
    assert_eq!(g.turn, Player::Black);
    assert_eq!(g.play(3, 3), Err(PlacementError::OccupiedCell));
    assert_eq!(g.turn, Player::Black);
}

#[test]
fn successful_move_passes_turn() {
    let mut g = Game::new();
    assert_eq!(g.play(2, 4), Ok(()));
    assert_eq!(g.turn, Player::White);
    assert_eq!(g.board.get(3, 4), Some(Piece::Black));
    assert_eq!(g.play(2, 3), Ok(()));
    assert_eq!(g.turn, Player::Black);
    assert_eq!(g.board.count(), (3, 3));
}

#[test]
fn parse_good_moves() {
    assert_eq!(parse_move("3,4"), Ok((3, 4)));
    assert_eq!(parse_move("  2,5\n"), Ok((2, 5)));
    assert_eq!(parse_move("0,0\r\n"), Ok((0, 0)));
    assert_eq!(parse_move("07,1"), Ok((7, 1)));
}

#[test]
fn parse_bad_moves() {
    assert_eq!(parse_move("3"), Err(InputError::WrongFieldCount));
    assert_eq!(parse_move(""), Err(InputError::WrongFieldCount));
    assert_eq!(parse_move("1,2,3"), Err(InputError::WrongFieldCount));
    assert_eq!(parse_move("a,1"), Err(InputError::NotANumber));
    assert_eq!(parse_move(",1"), Err(InputError::NotANumber));
    assert_eq!(parse_move("3, 4"), Err(InputError::NotANumber));
    assert_eq!(parse_move("-1,2"), Err(InputError::NotANumber));
    assert_eq!(parse_move("8,0"), Err(InputError::OutOfRange));
    assert_eq!(parse_move("1,99999999999999999999999"), Err(InputError::OutOfRange));
}
