//! Piece roles, teams, piece values, and board coordinates.

use vstd::prelude::*;

verus! {

/// The board is square, with this many files and ranks.
pub const BOARD_SIZE: i32 = 8;

/// A coordinate (file `x`, rank `y`) is on the board when both lie in `[0, 8)`.
pub open spec fn in_bounds(x: int, y: int) -> bool {
    0 <= x < 8 && 0 <= y < 8
}

/// Enumerates all the possible roles of a chess piece.
#[derive(Clone, Copy, PartialEq, Eq, Structural, Debug)]
pub enum Roles {
    Pawn,
    Rook,
    Knight,
    Bishop,
    Queen,
    King,
}

/// Enumerates all the possible teams of a chess piece.
#[derive(Clone, Copy, PartialEq, Eq, Structural, Debug)]
pub enum Teams {
    White,
    Black,
}

impl Teams {
    /// The opposing team.
    pub open spec fn spec_toggle(&self) -> Teams {
        match self {
            Teams::White => Teams::Black,
            Teams::Black => Teams::White,
        }
    }

    /// Returns the opposing team; toggling twice gives the team back.
    #[verifier::when_used_as_spec(spec_toggle)]
    pub fn toggle(&self) -> (r: Teams)
        ensures
            r == self.spec_toggle(),
            r != *self,
    {
        match self {
            Teams::White => Teams::Black,
            Teams::Black => Teams::White,
        }
    }
}

/// A chess piece. `has_moved` starts false and is set the first time the
/// piece completes a move.
#[derive(Clone, Copy, PartialEq, Eq, Structural, Debug)]
pub struct Piece {
    pub role: Roles,
    pub team: Teams,
    pub has_moved: bool,
}

impl Piece {
    /// Creates a new pawn of the given team.
    pub fn pawn(team: Teams) -> (r: Piece)
        ensures
            r == (Piece { role: Roles::Pawn, team, has_moved: false }),
    {
        Piece { role: Roles::Pawn, team, has_moved: false }
    }

    /// Creates a new rook of the given team.
    pub fn rook(team: Teams) -> (r: Piece)
        ensures
            r == (Piece { role: Roles::Rook, team, has_moved: false }),
    {
        Piece { role: Roles::Rook, team, has_moved: false }
    }

    /// Creates a new knight of the given team.
    pub fn knight(team: Teams) -> (r: Piece)
        ensures
            r == (Piece { role: Roles::Knight, team, has_moved: false }),
    {
        Piece { role: Roles::Knight, team, has_moved: false }
    }

    /// Creates a new bishop of the given team.
    pub fn bishop(team: Teams) -> (r: Piece)
        ensures
            r == (Piece { role: Roles::Bishop, team, has_moved: false }),
    {
        Piece { role: Roles::Bishop, team, has_moved: false }
    }

    /// Creates a new queen of the given team.
    pub fn queen(team: Teams) -> (r: Piece)
        ensures
            r == (Piece { role: Roles::Queen, team, has_moved: false }),
    {
        Piece { role: Roles::Queen, team, has_moved: false }
    }

    /// Creates a new king of the given team.
    pub fn king(team: Teams) -> (r: Piece)
        ensures
            r == (Piece { role: Roles::King, team, has_moved: false }),
    {
        Piece { role: Roles::King, team, has_moved: false }
    }
}

/// A board position. Arithmetic is pure and may produce out-of-bounds
/// values; callers test `out_of_bounds` before any board access.
#[derive(Clone, Copy, PartialEq, Eq, Structural, Debug)]
pub struct Pos {
    pub x: i32,
    pub y: i32,
}

impl Pos {
    /// Offsets the position componentwise by the given amounts.
    pub fn add(&self, x: i32, y: i32) -> (r: Pos)
        requires
            i32::MIN <= self.x + x <= i32::MAX,
            i32::MIN <= self.y + y <= i32::MAX,
        ensures
            r.x == self.x + x,
            r.y == self.y + y,
    {
        Pos { x: self.x + x, y: self.y + y }
    }

    /// Offsets the position componentwise by another position.
    pub fn add_pos(&self, other: &Pos) -> (r: Pos)
        requires
            i32::MIN <= self.x + other.x <= i32::MAX,
            i32::MIN <= self.y + other.y <= i32::MAX,
        ensures
            r.x == self.x + other.x,
            r.y == self.y + other.y,
    {
        Pos { x: self.x + other.x, y: self.y + other.y }
    }

    /// Scales each component by the given factor.
    pub fn mul(&self, x: i32, y: i32) -> (r: Pos)
        requires
            i32::MIN <= self.x * x <= i32::MAX,
            i32::MIN <= self.y * y <= i32::MAX,
        ensures
            r.x == self.x * x,
            r.y == self.y * y,
    {
        Pos { x: self.x * x, y: self.y * y }
    }

    /// Swaps the two axes.
    pub fn inverse(&self) -> (r: Pos)
        ensures
            r.x == self.y,
            r.y == self.x,
    {
        Pos { x: self.y, y: self.x }
    }

    /// True when the position lies off the board.
    pub fn out_of_bounds(&self) -> (r: bool)
        ensures
            r == !in_bounds(self.x as int, self.y as int),
    {
        self.x >= BOARD_SIZE || self.x < 0 || self.y >= BOARD_SIZE || self.y < 0
    }
}

} // verus!
