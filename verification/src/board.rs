//! The 8×8 board and the selection / turn / check state around it.

use vstd::prelude::*;

use crate::types::{in_bounds, Piece, Pos, Roles, Teams};

verus! {

/// Index of the square (`x`, `y`) in the row-major list of squares.
pub open spec fn cell_index(x: int, y: int) -> int {
    y * 8 + x
}

/// The occupant of square (`x`, `y`), or `None` when the square is empty or
/// the coordinate lies off the board.
pub open spec fn square_at(bv: Seq<Option<Piece>>, x: int, y: int) -> Option<Piece> {
    if in_bounds(x, y) {
        bv[cell_index(x, y)]
    } else {
        None
    }
}

/// The occupant of the back rank `y` in the standard starting position,
/// for the given file `x`.
pub open spec fn initial_back_role(x: int) -> Roles {
    if x == 0 || x == 7 {
        Roles::Rook
    } else if x == 1 || x == 6 {
        Roles::Knight
    } else if x == 2 || x == 5 {
        Roles::Bishop
    } else if x == 3 {
        Roles::Queen
    } else {
        Roles::King
    }
}

/// The occupant of square (`x`, `y`) in the standard starting position.
pub open spec fn initial_square(x: int, y: int) -> Option<Piece> {
    if y == 0 {
        Some(Piece { role: initial_back_role(x), team: Teams::White, has_moved: false })
    } else if y == 1 {
        Some(Piece { role: Roles::Pawn, team: Teams::White, has_moved: false })
    } else if y == 6 {
        Some(Piece { role: Roles::Pawn, team: Teams::Black, has_moved: false })
    } else if y == 7 {
        Some(Piece { role: initial_back_role(x), team: Teams::Black, has_moved: false })
    } else {
        None
    }
}

/// Represents the chess board: an 8×8 grid of optional pieces, stored
/// row-major. The view is the sequence of its 64 squares.
pub struct Board {
    squares: Vec<Option<Piece>>,
}

impl View for Board {
    type V = Seq<Option<Piece>>;

    closed spec fn view(&self) -> Seq<Option<Piece>> {
        self.squares@
    }
}

impl Board {
    /// A board value is well formed when it holds exactly one entry per square.
    pub open spec fn wf(&self) -> bool {
        self@.len() == 64
    }

    /// An empty board: every square unoccupied.
    pub fn empty() -> (r: Board)
        ensures
            r.wf(),
            forall|x: int, y: int| in_bounds(x, y) ==> #[trigger] square_at(r@, x, y) is None,
    {
        let mut squares: Vec<Option<Piece>> = Vec::new();
        let mut i: usize = 0;
        while i < 64
            invariant
                squares@.len() == i,
                i <= 64,
                forall|j: int| 0 <= j < i ==> squares@[j] is None,
            decreases 64 - i,
        {
            squares.push(None);
            i = i + 1;
        }
        Board { squares }
    }

    /// Returns the occupant of `pos`, or `None` when the square is empty or
    /// `pos` is out of bounds; a read never panics.
    pub fn get(&self, pos: &Pos) -> (r: Option<Piece>)
        requires
            self.wf(),
        ensures
            r == square_at(self@, pos.x as int, pos.y as int),
    {
        if pos.out_of_bounds() {
            None
        } else {
            self.squares[(pos.y as usize) * 8 + (pos.x as usize)]
        }
    }

    /// Writes `piece` into the square at `pos`; a no-op when `pos` is out of
    /// bounds.
    pub fn set(&mut self, pos: &Pos, piece: Option<Piece>)
        requires
            old(self).wf(),
        ensures
            final(self).wf(),
            final(self)@ == (if in_bounds(pos.x as int, pos.y as int) {
                old(self)@.update(cell_index(pos.x as int, pos.y as int), piece)
            } else {
                old(self)@
            }),
    {
        if !pos.out_of_bounds() {
            self.squares.set((pos.y as usize) * 8 + (pos.x as usize), piece);
        }
    }

    /// Copies the occupant of `other` into the square at `pos` (the piece's
    /// whole value travels, `has_moved` included); `other` is not cleared.
    /// A no-op when `pos` is out of bounds.
    pub fn set_with_pos(&mut self, pos: &Pos, other: &Pos)
        requires
            old(self).wf(),
        ensures
            final(self).wf(),
            final(self)@ == (if in_bounds(pos.x as int, pos.y as int) {
                old(self)@.update(
                    cell_index(pos.x as int, pos.y as int),
                    square_at(old(self)@, other.x as int, other.y as int),
                )
            } else {
                old(self)@
            }),
    {
        let occupant = self.get(other);
        self.set(pos, occupant);
    }
}

impl Default for Board {
    /// The standard starting position: white on ranks 0 and 1, black on
    /// ranks 6 and 7, ranks 2 through 5 empty.
    fn default() -> (r: Board)
        ensures
            r.wf(),
            forall|x: int, y: int| in_bounds(x, y) ==> #[trigger] square_at(r@, x, y)
                == initial_square(x, y),
    {
        let mut board = Board::empty();
        let mut x: i32 = 0;
        while x < 8
            invariant
                board.wf(),
                0 <= x <= 8,
                forall|xx: int, yy: int| in_bounds(xx, yy) && xx < x ==> #[trigger] square_at(
                    board@,
                    xx,
                    yy,
                ) == initial_square(xx, yy),
                forall|xx: int, yy: int| in_bounds(xx, yy) && xx >= x ==> #[trigger] square_at(
                    board@,
                    xx,
                    yy,
                ) is None,
            decreases 8 - x,
        {
            let ghost prev = board@;
            let role = if x == 0 || x == 7 {
                Roles::Rook
            } else if x == 1 || x == 6 {
                Roles::Knight
            } else if x == 2 || x == 5 {
                Roles::Bishop
            } else if x == 3 {
                Roles::Queen
            } else {
                Roles::King
            };
            board.set(&Pos { x, y: 0 }, Some(Piece { role, team: Teams::White, has_moved: false }));
            board.set(
                &Pos { x, y: 1 },
                Some(Piece { role: Roles::Pawn, team: Teams::White, has_moved: false }),
            );
            board.set(
                &Pos { x, y: 6 },
                Some(Piece { role: Roles::Pawn, team: Teams::Black, has_moved: false }),
            );
            board.set(&Pos { x, y: 7 }, Some(Piece { role, team: Teams::Black, has_moved: false }));
            proof {
                assert(role == initial_back_role(x as int));
                assert forall|xx: int, yy: int| in_bounds(xx, yy) implies #[trigger] square_at(
                    board@,
                    xx,
                    yy,
                ) == (if xx == x as int {
                    initial_square(xx, yy)
                } else {
                    square_at(prev, xx, yy)
                }) by {
                    assert(square_at(prev, xx, yy) == square_at(prev, xx, yy));
                };
            }
            x = x + 1;
        }
        board
    }
}

/// The currently selected source square, if any.
pub struct Selected(pub Option<Pos>);

/// Whose turn it is to move.
pub struct Turn(pub Teams);

impl Turn {
    /// Passes the turn to the other team.
    pub fn toggle(&mut self)
        ensures
            final(self).0 == old(self).0.toggle(),
    {
        self.0 = self.0.toggle();
    }
}

/// The team currently in check, if any.
pub struct Check(pub Option<Teams>);

} // verus!
