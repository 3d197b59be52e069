//! Small helpers consumed by the presentation layer: parity of a tile sum
//! for the checkered board, and the asset path of a piece's sprite.

use vstd::prelude::*;
use vstd::string::*;

use crate::types::{Piece, Roles, Teams};

verus! {

/// True when `n` is even.
pub fn is_even(n: usize) -> (r: bool)
    ensures
        r == (n % 2 == 0),
{
    n % 2 == 0
}

/// The sprite path of a piece: `"sprites/{role}_{team}.png"`, both names
/// lower-cased.
pub open spec fn spec_path(p: Piece) -> Seq<char> {
    match (p.role, p.team) {
        (Roles::Pawn, Teams::White) => "sprites/pawn_white.png"@,
        (Roles::Pawn, Teams::Black) => "sprites/pawn_black.png"@,
        (Roles::Rook, Teams::White) => "sprites/rook_white.png"@,
        (Roles::Rook, Teams::Black) => "sprites/rook_black.png"@,
        (Roles::Knight, Teams::White) => "sprites/knight_white.png"@,
        (Roles::Knight, Teams::Black) => "sprites/knight_black.png"@,
        (Roles::Bishop, Teams::White) => "sprites/bishop_white.png"@,
        (Roles::Bishop, Teams::Black) => "sprites/bishop_black.png"@,
        (Roles::Queen, Teams::White) => "sprites/queen_white.png"@,
        (Roles::Queen, Teams::Black) => "sprites/queen_black.png"@,
        (Roles::King, Teams::White) => "sprites/king_white.png"@,
        (Roles::King, Teams::Black) => "sprites/king_black.png"@,
    }
}

/// Returns the image resource path for a piece's sprite; the engine is the
/// single source of truth for this naming.
pub fn get_path(piece: Piece) -> (r: String)
    ensures
        r@ == spec_path(piece),
{
    match (piece.role, piece.team) {
        (Roles::Pawn, Teams::White) => String::from_str("sprites/pawn_white.png"),
        (Roles::Pawn, Teams::Black) => String::from_str("sprites/pawn_black.png"),
        (Roles::Rook, Teams::White) => String::from_str("sprites/rook_white.png"),
        (Roles::Rook, Teams::Black) => String::from_str("sprites/rook_black.png"),
        (Roles::Knight, Teams::White) => String::from_str("sprites/knight_white.png"),
        (Roles::Knight, Teams::Black) => String::from_str("sprites/knight_black.png"),
        (Roles::Bishop, Teams::White) => String::from_str("sprites/bishop_white.png"),
        (Roles::Bishop, Teams::Black) => String::from_str("sprites/bishop_black.png"),
        (Roles::Queen, Teams::White) => String::from_str("sprites/queen_white.png"),
        (Roles::Queen, Teams::Black) => String::from_str("sprites/queen_black.png"),
        (Roles::King, Teams::White) => String::from_str("sprites/king_white.png"),
        (Roles::King, Teams::Black) => String::from_str("sprites/king_black.png"),
    }
}

} // verus!
