use chess_engine::attack::{get_attacked_cells, in_check, update_check_state};
use chess_engine::board::{Board, Check};
use chess_engine::types::{Piece, Pos, Teams};

fn has(cells: &Vec<Pos>, x: i32, y: i32) -> bool {
    cells.iter().any(|p| p.x == x && p.y == y)
}

fn assert_no_duplicates(cells: &Vec<Pos>) {
    for i in 0..cells.len() {
        for j in (i + 1)..cells.len() {
            assert_ne!(cells[i], cells[j]);
        }
    }
}

#[test]
fn attacked_cells_hold_no_square_twice() {
    let mut board = Board::empty();
    // two rooks covering many squares in common
    board.set(&Pos { x: 0, y: 0 }, Some(Piece::rook(Teams::White)));
    board.set(&Pos { x: 0, y: 7 }, Some(Piece::rook(Teams::White)));
    let cells = get_attacked_cells(&board, &Teams::White);
    assert_no_duplicates(&cells);
    assert!(has(&cells, 0, 3)); // attacked by both, counted once
    let board2 = Board::default();
    assert_no_duplicates(&get_attacked_cells(&board2, &Teams::White));
    assert_no_duplicates(&get_attacked_cells(&board2, &Teams::Black));
}

#[test]
fn two_lone_kings_each_attack_their_eight_neighbors() {
    let mut board = Board::empty();
    board.set(&Pos { x: 4, y: 0 }, Some(Piece::king(Teams::White)));
    board.set(&Pos { x: 4, y: 7 }, Some(Piece::king(Teams::Black)));
    let white = get_attacked_cells(&board, &Teams::White);
    let black = get_attacked_cells(&board, &Teams::Black);
    // the two sides mirror each other
    assert_eq!(white.len(), 5);
    assert_eq!(black.len(), 5);
    for (dx, dy) in [(-1, 0), (1, 0), (-1, 1), (0, 1), (1, 1)] {
        assert!(has(&white, 4 + dx, 0 + dy));
        assert!(has(&black, 4 + dx, 7 - dy));
    }
    assert!(!has(&white, 4, 0));
    assert!(!has(&black, 4, 7));
}

#[test]
fn pawn_attacks_diagonals_and_not_its_forward_square() {
    let mut board = Board::empty();
    board.set(&Pos { x: 4, y: 1 }, Some(Piece::pawn(Teams::White)));
    let cells = get_attacked_cells(&board, &Teams::White);
    assert!(has(&cells, 3, 2));
    assert!(has(&cells, 5, 2));
    assert!(!has(&cells, 4, 2)); // forward non-capturing square is not attacked
    assert!(!has(&cells, 4, 3));
    assert_eq!(cells.len(), 2);
}

#[test]
fn rook_line_to_king_gives_check_and_removal_clears_it() {
    let mut board = Board::empty();
    board.set(&Pos { x: 4, y: 0 }, Some(Piece::king(Teams::White)));
    board.set(&Pos { x: 4, y: 7 }, Some(Piece::rook(Teams::Black)));
    assert!(in_check(&board, &Teams::White));
    assert!(!in_check(&board, &Teams::Black));
    board.set(&Pos { x: 4, y: 7 }, None);
    assert!(!in_check(&board, &Teams::White));
}

#[test]
fn blocked_rook_line_gives_no_check() {
    let mut board = Board::empty();
    board.set(&Pos { x: 4, y: 0 }, Some(Piece::king(Teams::White)));
    board.set(&Pos { x: 4, y: 7 }, Some(Piece::rook(Teams::Black)));
    board.set(&Pos { x: 4, y: 3 }, Some(Piece::pawn(Teams::White)));
    assert!(!in_check(&board, &Teams::White));
}

#[test]
fn starting_position_has_no_check() {
    let board = Board::default();
    assert!(!in_check(&board, &Teams::White));
    assert!(!in_check(&board, &Teams::Black));
}

#[test]
fn update_check_state_reports_the_checked_team() {
    let mut board = Board::empty();
    board.set(&Pos { x: 4, y: 0 }, Some(Piece::king(Teams::White)));
    board.set(&Pos { x: 4, y: 7 }, Some(Piece::rook(Teams::Black)));
    let mut check = Check(None);
    update_check_state(&board, &mut check);
    assert_eq!(check.0, Some(Teams::White));
    board.set(&Pos { x: 4, y: 7 }, None);
    // a stale value is overwritten
    update_check_state(&board, &mut check);
    assert_eq!(check.0, None);
}
