use chess_engine::attack::in_check;
use chess_engine::board::{Board, Selected, Turn};
use chess_engine::control::move_piece;
use chess_engine::moves::get_valid_moves;
use chess_engine::types::{Piece, Pos, Roles, Teams};

fn boards_equal(a: &Board, b: &Board) -> bool {
    for y in 0..8 {
        for x in 0..8 {
            if a.get(&Pos { x, y }) != b.get(&Pos { x, y }) {
                return false;
            }
        }
    }
    true
}

fn click(board: &mut Board, selected: &mut Selected, turn: &mut Turn, x: i32, y: i32) {
    move_piece(board, selected, turn, Pos { x, y });
}

#[test]
fn white_selects_pawn_sees_candidates_and_advances_two() {
    let mut board = Board::default();
    let mut selected = Selected(None);
    let mut turn = Turn(Teams::White);
    // click the pawn on e2
    click(&mut board, &mut selected, &mut turn, 4, 1);
    assert_eq!(selected.0, Some(Pos { x: 4, y: 1 }));
    let candidates = get_valid_moves(&board, &Pos { x: 4, y: 1 });
    assert!(candidates.contains(&Pos { x: 4, y: 2 }));
    assert!(candidates.contains(&Pos { x: 4, y: 3 }));
    assert!(!candidates.contains(&Pos { x: 4, y: 4 }));
    // click e4: the move commits and the turn passes
    click(&mut board, &mut selected, &mut turn, 4, 3);
    assert_eq!(selected.0, None);
    assert_eq!(turn.0, Teams::Black);
    assert_eq!(board.get(&Pos { x: 4, y: 1 }), None);
    let moved = board.get(&Pos { x: 4, y: 3 }).unwrap();
    assert_eq!(moved.role, Roles::Pawn);
    assert_eq!(moved.team, Teams::White);
    assert!(moved.has_moved);
}

#[test]
fn wrong_team_origin_is_not_selected() {
    let mut board = Board::default();
    let mut selected = Selected(None);
    let mut turn = Turn(Teams::White);
    click(&mut board, &mut selected, &mut turn, 4, 1);
    click(&mut board, &mut selected, &mut turn, 4, 3);
    assert_eq!(turn.0, Teams::Black);
    // black clicks white's pawn on e4: no selection occurs
    click(&mut board, &mut selected, &mut turn, 4, 3);
    assert_eq!(selected.0, None);
    assert_eq!(turn.0, Teams::Black);
}

#[test]
fn clicking_the_selected_square_deselects() {
    let mut board = Board::default();
    let mut selected = Selected(None);
    let mut turn = Turn(Teams::White);
    click(&mut board, &mut selected, &mut turn, 1, 0);
    assert_eq!(selected.0, Some(Pos { x: 1, y: 0 }));
    click(&mut board, &mut selected, &mut turn, 1, 0);
    assert_eq!(selected.0, None);
    assert_eq!(turn.0, Teams::White);
}

#[test]
fn illegal_destination_changes_nothing() {
    let mut board = Board::default();
    let before = Board::default();
    let mut selected = Selected(None);
    let mut turn = Turn(Teams::White);
    click(&mut board, &mut selected, &mut turn, 4, 1);
    // e5 is not reachable from e2
    click(&mut board, &mut selected, &mut turn, 4, 4);
    assert_eq!(selected.0, Some(Pos { x: 4, y: 1 }));
    assert_eq!(turn.0, Teams::White);
    assert!(boards_equal(&board, &before));
}

#[test]
fn empty_square_click_selects_nothing() {
    let mut board = Board::default();
    let mut selected = Selected(None);
    let mut turn = Turn(Teams::White);
    click(&mut board, &mut selected, &mut turn, 4, 4);
    assert_eq!(selected.0, None);
    assert_eq!(turn.0, Teams::White);
}

#[test]
fn moving_a_pinned_piece_is_rolled_back() {
    let mut board = Board::empty();
    board.set(&Pos { x: 4, y: 0 }, Some(Piece::king(Teams::White)));
    board.set(&Pos { x: 4, y: 1 }, Some(Piece::rook(Teams::White)));
    board.set(&Pos { x: 4, y: 7 }, Some(Piece::rook(Teams::Black)));
    let mut reference = Board::empty();
    reference.set(&Pos { x: 4, y: 0 }, Some(Piece::king(Teams::White)));
    reference.set(&Pos { x: 4, y: 1 }, Some(Piece::rook(Teams::White)));
    reference.set(&Pos { x: 4, y: 7 }, Some(Piece::rook(Teams::Black)));
    let mut selected = Selected(None);
    let mut turn = Turn(Teams::White);
    // select the pinned rook, then try to move it off the pin line
    click(&mut board, &mut selected, &mut turn, 4, 1);
    assert_eq!(selected.0, Some(Pos { x: 4, y: 1 }));
    click(&mut board, &mut selected, &mut turn, 3, 1);
    // rejected: the board is identical and the turn did not pass
    assert!(boards_equal(&board, &reference));
    assert_eq!(turn.0, Teams::White);
    assert_eq!(selected.0, Some(Pos { x: 4, y: 1 }));
    // moving along the pin line is fine
    click(&mut board, &mut selected, &mut turn, 4, 5);
    assert_eq!(turn.0, Teams::Black);
    assert_eq!(board.get(&Pos { x: 4, y: 5 }).unwrap().role, Roles::Rook);
}

#[test]
fn checked_side_may_only_resolve_the_check() {
    let mut board = Board::empty();
    board.set(&Pos { x: 4, y: 0 }, Some(Piece::king(Teams::White)));
    board.set(&Pos { x: 4, y: 7 }, Some(Piece::rook(Teams::Black)));
    board.set(&Pos { x: 0, y: 1 }, Some(Piece::pawn(Teams::White)));
    board.set(&Pos { x: 7, y: 3 }, Some(Piece::rook(Teams::White)));
    assert!(in_check(&board, &Teams::White));
    let mut selected = Selected(None);
    let mut turn = Turn(Teams::White);
    // a pawn push that ignores the check is rejected
    click(&mut board, &mut selected, &mut turn, 0, 1);
    click(&mut board, &mut selected, &mut turn, 0, 2);
    assert_eq!(board.get(&Pos { x: 0, y: 2 }), None);
    assert_eq!(turn.0, Teams::White);
    assert!(in_check(&board, &Teams::White));
    // deselect the pawn, then block the check with the rook
    click(&mut board, &mut selected, &mut turn, 0, 1);
    assert_eq!(selected.0, None);
    click(&mut board, &mut selected, &mut turn, 7, 3);
    click(&mut board, &mut selected, &mut turn, 4, 3);
    assert_eq!(turn.0, Teams::Black);
    assert!(!in_check(&board, &Teams::White));
    assert_eq!(board.get(&Pos { x: 4, y: 3 }).unwrap().role, Roles::Rook);
}

#[test]
fn king_may_step_out_of_check() {
    let mut board = Board::empty();
    board.set(&Pos { x: 4, y: 0 }, Some(Piece::king(Teams::White)));
    board.set(&Pos { x: 4, y: 7 }, Some(Piece::rook(Teams::Black)));
    assert!(in_check(&board, &Teams::White));
    let mut selected = Selected(None);
    let mut turn = Turn(Teams::White);
    click(&mut board, &mut selected, &mut turn, 4, 0);
    click(&mut board, &mut selected, &mut turn, 3, 0);
    assert_eq!(turn.0, Teams::Black);
    assert!(!in_check(&board, &Teams::White));
    assert_eq!(board.get(&Pos { x: 3, y: 0 }).unwrap().role, Roles::King);
}

#[test]
fn selection_of_an_emptied_square_rejects_every_destination() {
    let mut board = Board::default();
    let reference = Board::default();
    let mut selected = Selected(Some(Pos { x: 4, y: 4 }));
    let mut turn = Turn(Teams::White);
    // the selected square holds no piece: clicking elsewhere changes nothing
    click(&mut board, &mut selected, &mut turn, 4, 5);
    assert!(boards_equal(&board, &reference));
    assert_eq!(selected.0, Some(Pos { x: 4, y: 4 }));
    assert_eq!(turn.0, Teams::White);
    // clicking the selected square itself still deselects
    click(&mut board, &mut selected, &mut turn, 4, 4);
    assert_eq!(selected.0, None);
}
