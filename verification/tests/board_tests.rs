use chess_engine::board::Board;
use chess_engine::types::{Piece, Pos, Roles, Teams};

#[test]
fn empty_board_has_no_pieces() {
    let board = Board::empty();
    for y in 0..8 {
        for x in 0..8 {
            assert_eq!(board.get(&Pos { x, y }), None);
        }
    }
}

#[test]
fn default_board_is_the_standard_starting_position() {
    let board = Board::default();
    let back = [
        Roles::Rook,
        Roles::Knight,
        Roles::Bishop,
        Roles::Queen,
        Roles::King,
        Roles::Bishop,
        Roles::Knight,
        Roles::Rook,
    ];
    for x in 0..8 {
        let white = board.get(&Pos { x, y: 0 }).unwrap();
        assert_eq!(white.role, back[x as usize]);
        assert_eq!(white.team, Teams::White);
        assert!(!white.has_moved);
        let white_pawn = board.get(&Pos { x, y: 1 }).unwrap();
        assert_eq!(white_pawn.role, Roles::Pawn);
        assert_eq!(white_pawn.team, Teams::White);
        for y in 2..6 {
            assert_eq!(board.get(&Pos { x, y }), None);
        }
        let black_pawn = board.get(&Pos { x, y: 6 }).unwrap();
        assert_eq!(black_pawn.role, Roles::Pawn);
        assert_eq!(black_pawn.team, Teams::Black);
        let black = board.get(&Pos { x, y: 7 }).unwrap();
        assert_eq!(black.role, back[x as usize]);
        assert_eq!(black.team, Teams::Black);
    }
}

#[test]
fn set_then_get_returns_the_piece() {
    let mut board = Board::empty();
    let p = Piece::queen(Teams::Black);
    board.set(&Pos { x: 3, y: 4 }, Some(p));
    assert_eq!(board.get(&Pos { x: 3, y: 4 }), Some(p));
    board.set(&Pos { x: 3, y: 4 }, None);
    assert_eq!(board.get(&Pos { x: 3, y: 4 }), None);
}

#[test]
fn out_of_bounds_reads_and_writes_are_harmless() {
    let mut board = Board::empty();
    assert_eq!(board.get(&Pos { x: -1, y: 3 }), None);
    assert_eq!(board.get(&Pos { x: 3, y: 8 }), None);
    board.set(&Pos { x: 9, y: 9 }, Some(Piece::rook(Teams::White)));
    for y in 0..8 {
        for x in 0..8 {
            assert_eq!(board.get(&Pos { x, y }), None);
        }
    }
}

#[test]
fn set_with_pos_copies_the_whole_piece_value() {
    let mut board = Board::empty();
    let mut moved_rook = Piece::rook(Teams::White);
    moved_rook.has_moved = true;
    board.set(&Pos { x: 0, y: 0 }, Some(moved_rook));
    board.set_with_pos(&Pos { x: 5, y: 5 }, &Pos { x: 0, y: 0 });
    let copied = board.get(&Pos { x: 5, y: 5 }).unwrap();
    assert_eq!(copied.role, Roles::Rook);
    assert!(copied.has_moved);
    // the source cell is not cleared
    assert_eq!(board.get(&Pos { x: 0, y: 0 }), Some(moved_rook));
}
