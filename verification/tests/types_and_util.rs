use chess_engine::types::{Piece, Pos, Roles, Teams};
use chess_engine::util::{get_path, is_even};

#[test]
fn pos_add_offsets_componentwise() {
    let p = Pos { x: 3, y: 5 };
    let q = p.add(2, -1);
    assert_eq!(q, Pos { x: 5, y: 4 });
}

#[test]
fn pos_add_pos_offsets_componentwise() {
    let p = Pos { x: 1, y: 2 };
    let q = p.add_pos(&Pos { x: -4, y: 7 });
    assert_eq!(q, Pos { x: -3, y: 9 });
}

#[test]
fn pos_mul_scales_componentwise() {
    let p = Pos { x: 2, y: 1 };
    assert_eq!(p.mul(-1, -1), Pos { x: -2, y: -1 });
    assert_eq!(p.mul(-1, 1), Pos { x: -2, y: 1 });
}

#[test]
fn pos_inverse_swaps_axes() {
    let p = Pos { x: 2, y: 1 };
    assert_eq!(p.inverse(), Pos { x: 1, y: 2 });
}

#[test]
fn pos_out_of_bounds_edges() {
    assert!(!Pos { x: 0, y: 0 }.out_of_bounds());
    assert!(!Pos { x: 7, y: 7 }.out_of_bounds());
    assert!(Pos { x: -1, y: 0 }.out_of_bounds());
    assert!(Pos { x: 0, y: -1 }.out_of_bounds());
    assert!(Pos { x: 8, y: 0 }.out_of_bounds());
    assert!(Pos { x: 0, y: 8 }.out_of_bounds());
}

#[test]
fn teams_toggle_is_an_involution() {
    assert_eq!(Teams::White.toggle(), Teams::Black);
    assert_eq!(Teams::Black.toggle(), Teams::White);
    assert_eq!(Teams::White.toggle().toggle(), Teams::White);
    assert_eq!(Teams::Black.toggle().toggle(), Teams::Black);
}

#[test]
fn piece_constructors_set_role_team_and_flag() {
    let p = Piece::pawn(Teams::White);
    assert_eq!(p.role, Roles::Pawn);
    assert_eq!(p.team, Teams::White);
    assert!(!p.has_moved);
    assert_eq!(Piece::rook(Teams::Black).role, Roles::Rook);
    assert_eq!(Piece::knight(Teams::White).role, Roles::Knight);
    assert_eq!(Piece::bishop(Teams::Black).role, Roles::Bishop);
    assert_eq!(Piece::queen(Teams::White).role, Roles::Queen);
    assert_eq!(Piece::king(Teams::Black).role, Roles::King);
    assert_eq!(Piece::queen(Teams::Black).team, Teams::Black);
}

#[test]
fn is_even_parity() {
    assert!(is_even(0));
    assert!(!is_even(1));
    assert!(is_even(2));
    assert!(!is_even(15));
    assert!(is_even(64));
}

#[test]
fn get_path_names_sprites() {
    assert_eq!(get_path(Piece::rook(Teams::White)), "sprites/rook_white.png");
    assert_eq!(get_path(Piece::king(Teams::Black)), "sprites/king_black.png");
    assert_eq!(get_path(Piece::pawn(Teams::Black)), "sprites/pawn_black.png");
    assert_eq!(get_path(Piece::queen(Teams::White)), "sprites/queen_white.png");
    assert_eq!(get_path(Piece::knight(Teams::Black)), "sprites/knight_black.png");
    assert_eq!(get_path(Piece::bishop(Teams::White)), "sprites/bishop_white.png");
}
