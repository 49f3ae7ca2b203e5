use osero::board::{Board, PlacementError};
use osero::piece::{Piece, Player};

fn occupied(b: &Board) -> usize {
    let mut n = 0;
    for x in 0..8 {
        for y in 0..8 {
            if b.get(x, y) != Some(Piece::Blank) {
                n += 1;
            }
        }
    }
    n
}

fn board_with(pieces: &[(usize, usize, Piece)]) -> Board {
    let mut cells = vec![Piece::Blank; 64];
    for &(x, y, p) in pieces {
        cells[x * 8 + y] = p;
    }
    Board::from_cells(cells).unwrap()
}

#[test]
fn starting_board() {
    let b = Board::new();
    assert_eq!(b.count(), (2, 2));
    assert_eq!(b.get(3, 3), Some(Piece::Black));
    assert_eq!(b.get(4, 4), Some(Piece::Black));
    assert_eq!(b.get(3, 4), Some(Piece::White));
    assert_eq!(b.get(4, 3), Some(Piece::White));
    let mut blanks = 0;
    for x in 0..8 {
        for y in 0..8 {
            if b.get(x, y) == Some(Piece::Blank) {
                blanks += 1;
            }
        }
    }
    assert_eq!(blanks, 60);
    assert_eq!(b.get(-1, 0), None);
    assert_eq!(b.get(0, 8), None);
}

#[test]
fn opening_moves_for_black() {
    let legal = [(2, 4, 3, 4), (3, 5, 3, 4), (4, 2, 4, 3), (5, 3, 4, 3)];
    for &(x, y, fx, fy) in legal.iter() {
        let mut b = Board::new();
        assert_eq!(b.place(x, y, Player::Black), Ok(()));
        assert_eq!(b.get(x, y), Some(Piece::Black));
        assert_eq!(b.get(fx, fy), Some(Piece::Black));
        assert_eq!(b.count(), (4, 1));
    }
    let mut n_legal = 0;
    for x in 0..8 {
        for y in 0..8 {
            let mut b = Board::new();
            if b.place(x, y, Player::Black).is_ok() {
                n_legal += 1;
                assert!(legal.iter().any(|&(lx, ly, _, _)| lx == x && ly == y));
            }
        }
    }
    assert_eq!(n_legal, 4);
}

#[test]
fn opening_moves_for_white() {
    let legal = [(2, 3, 3, 3), (3, 2, 3, 3), (4, 5, 4, 4), (5, 4, 4, 4)];
    for &(x, y, fx, fy) in legal.iter() {
        let mut b = Board::new();
        assert_eq!(b.place(x, y, Player::White), Ok(()));
        assert_eq!(b.get(fx, fy), Some(Piece::White));
        assert_eq!(b.count(), (1, 4));
    }
}

#[test]
fn black_on_d3_captures_nothing() {
    let mut b = Board::new();
    assert_eq!(b.place(2, 3, Player::Black), Err(PlacementError::NoCapture));
    assert_eq!(b.count(), (2, 2));
}

#[test]
fn every_opening_move_captures_one() {
    for &player in [Player::Black, Player::White].iter() {
        for x in 0..8 {
            for y in 0..8 {
                let mut b = Board::new();
                if b.place(x, y, player).is_ok() {
                    assert_eq!(occupied(&b), 5);
                    let (nb, nw) = b.count();
                    match player {
                        Player::Black => assert_eq!((nb, nw), (4, 1)),
                        Player::White => assert_eq!((nb, nw), (1, 4)),
                    }
                }
            }
        }
    }
}

#[test]
fn capture_in_two_directions() {
    let mut b = board_with(&[
        (0, 1, Piece::White),
        (0, 2, Piece::Black),
        (1, 0, Piece::White),
        (2, 0, Piece::Black),
    ]);
    assert_eq!(b.place(0, 0, Player::Black), Ok(()));
    assert_eq!(b.get(0, 0), Some(Piece::Black));
    assert_eq!(b.get(0, 1), Some(Piece::Black));
    assert_eq!(b.get(1, 0), Some(Piece::Black));
    assert_eq!(b.count(), (5, 0));
}

#[test]
fn long_line_and_diagonal() {
    let mut b = board_with(&[
        (4, 1, Piece::Black),
        (4, 2, Piece::Black),
        (4, 3, Piece::Black),
        (4, 4, Piece::White),
        (3, 4, Piece::Black),
        (2, 4, Piece::White),
        (5, 6, Piece::Black),
        (6, 7, Piece::White),
    ]);
    assert_eq!(b.place(4, 0, Player::White), Ok(()));
    assert_eq!(b.count(), (2, 7));
    for y in 0..5 {
        assert_eq!(b.get(4, y), Some(Piece::White));
    }
    assert_eq!(b.get(3, 4), Some(Piece::Black));
    let mut c = b;
    assert_eq!(c.place(4, 5, Player::White), Ok(()));
    assert_eq!(c.get(5, 6), Some(Piece::White));
    assert_eq!(c.count(), (1, 9));
}

#[test]
fn open_line_captures_nothing() {
    let mut b = board_with(&[(0, 1, Piece::White), (0, 2, Piece::White)]);
    assert_eq!(b.place(0, 0, Player::Black), Err(PlacementError::NoCapture));
    let mut c = board_with(&[(0, 1, Piece::White), (0, 2, Piece::White)]);
    assert_eq!(c.place(0, 0, Player::White), Err(PlacementError::NoAdjacentOpponent));
}

#[test]
fn errors_leave_board_unchanged() {
    let mut b = Board::new();
    let before = b.render();
    assert_eq!(b.place(8, 0, Player::Black), Err(PlacementError::OutOfBounds));
    assert_eq!(b.place(0, -1, Player::Black), Err(PlacementError::OutOfBounds));
    assert_eq!(b.place(3, 3, Player::Black), Err(PlacementError::OccupiedCell));
    assert_eq!(b.place(3, 4, Player::Black), Err(PlacementError::OccupiedCell));
    assert_eq!(b.place(0, 0, Player::Black), Err(PlacementError::NoAdjacentOpponent));
    assert_eq!(b.place(2, 2, Player::White), Err(PlacementError::NoCapture));
    assert_eq!(b.render(), before);
    assert_eq!(b.count(), (2, 2));
}

#[test]
fn occupancy_grows_by_one_per_success() {
    let mut b = Board::new();
    let moves = [
        (2, 4, Player::Black),
        (2, 4, Player::White),
        (2, 3, Player::White),
        (0, 0, Player::Black),
        (2, 2, Player::Black),
        (7, 7, Player::White),
        (3, 2, Player::White),
    ];
    let mut prev = occupied(&b);
    assert_eq!(prev, 4);
    for &(x, y, p) in moves.iter() {
        let ok = b.place(x, y, p).is_ok();
        let now = occupied(&b);
        if ok {
            assert_eq!(now, prev + 1);
        } else {
            assert_eq!(now, prev);
        }
        assert!(now <= 64);
        prev = now;
    }
    assert_eq!(prev, 7);
}

#[test]
fn from_cells_wants_64_squares() {
    assert!(Board::from_cells(vec![Piece::Blank; 63]).is_none());
    assert!(Board::from_cells(vec![Piece::Blank; 65]).is_none());
    let b = Board::from_cells(vec![Piece::White; 64]).unwrap();
    assert_eq!(b.count(), (0, 64));
}

#[test]
fn render_opening() {
    let b = Board::new();
    let expected = "  0 1 2 3 4 5 6 7\n\
                    0 - - - - - - - - \n\
                    1 - - - - - - - - \n\
                    2 - - - - - - - - \n\
                    3 - - - * o - - - \n\
                    4 - - - o * - - - \n\
                    5 - - - - - - - - \n\
                    6 - - - - - - - - \n\
                    7 - - - - - - - - \n\
                    Black: 2, White: 2\n";
    assert_eq!(b.render(), expected);
}

#[test]
fn render_two_digit_tally() {
    let b = Board::from_cells(vec![Piece::Black; 64]).unwrap();
    let text = b.render();
    assert!(text.ends_with("Black: 64, White: 0\n"));
    assert!(text.contains("\n0 * * * * * * * * \n"));
}

#[test]
fn piece_helpers() {
    assert!(Piece::Blank.is_blank());
    assert!(!Piece::Black.is_blank());
    assert_eq!(Player::Black.other(), Player::White);
    assert_eq!(Player::White.piece(), Piece::White);
}

#[test]
fn lines_and_neighbours() {
    let b = Board::new();
    assert_eq!(b._reverse_recv(2, 4, 1, 0, Player::Black), 1);
    assert_eq!(b._reverse_recv(2, 4, 0, 1, Player::Black), 0);
    assert_eq!(b._select_reversable(2, 4, Player::Black), vec![1, 0, 0, 0, 0, 0, 0, 0]);
    assert!(b._is_piece_around(2, 4, Player::Black));
    assert!(!b._is_piece_around(0, 0, Player::Black));
    assert!(b._is_placable(2, 3, Player::Black));
    assert!(!b._is_placable(3, 3, Player::White));
    assert!(b._is_blank(0, 0));
    assert_eq!(Board::_around_range(0), (0, 1));
    assert_eq!(Board::_around_range(7), (6, 7));
    assert_eq!(Board::_around_range(4), (3, 5));
}
