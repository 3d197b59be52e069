//! The move validator / turn controller: selecting a piece, validating a
//! clicked destination, tentatively applying the move, rolling it back
//! when it would leave the mover's own king in check, and otherwise
//! committing it and passing the turn.

use vstd::prelude::*;

use crate::attack::{in_check, spec_in_check};
use crate::board::{cell_index, square_at, Board, Selected, Turn};
use crate::moves::{
    contains_pos, get_valid_moves, lemma_candidates_in_bounds, mover_team, pseudo_legal, team_at,
};
use crate::types::{in_bounds, Piece, Pos};

verus! {

/// The piece as it stands after completing a move.
pub open spec fn stamp_moved(p: Piece) -> Piece {
    Piece { role: p.role, team: p.team, has_moved: true }
}

/// The board after tentatively applying a move: the origin's occupant
/// copied onto the destination unchanged, the origin cleared.
pub open spec fn board_moved(
    bv: Seq<Option<Piece>>,
    ox: int,
    oy: int,
    tx: int,
    ty: int,
) -> Seq<Option<Piece>> {
    bv.update(cell_index(tx, ty), square_at(bv, ox, oy)).update(cell_index(ox, oy), None)
}

/// The board after committing a move: as the tentative board, with the
/// moved piece stamped as having moved.
pub open spec fn board_committed(
    bv: Seq<Option<Piece>>,
    ox: int,
    oy: int,
    tx: int,
    ty: int,
) -> Seq<Option<Piece>> {
    match square_at(bv, ox, oy) {
        Some(p) => bv.update(cell_index(tx, ty), Some(stamp_moved(p))).update(
            cell_index(ox, oy),
            None,
        ),
        None => bv,
    }
}

/// Tentatively moving the piece on `orig` to `click` would leave the
/// mover's own king on an attacked square.
pub open spec fn move_self_checks(bv: Seq<Option<Piece>>, orig: Pos, click: Pos) -> bool {
    spec_in_check(
        board_moved(bv, orig.x as int, orig.y as int, click.x as int, click.y as int),
        mover_team(bv, orig.x as int, orig.y as int),
    )
}

/// Handles one primary click at `click`.
///
/// With nothing selected, the click selects the clicked piece when it
/// belongs to the team whose turn it is. With `orig` selected, clicking
/// `orig` deselects; clicking a square that is not a pseudo-legal
/// destination changes nothing; clicking a pseudo-legal destination
/// tentatively applies the move and re-derives check: a move that would
/// leave the mover's own king in check is rolled back, leaving board,
/// selection and turn exactly as they were, and otherwise the move is
/// committed, the moved piece is stamped, the selection cleared and the
/// turn passed to the other team.
pub fn move_piece(board: &mut Board, selected: &mut Selected, turn: &mut Turn, click: Pos)
    requires
        old(board).wf(),
    ensures
        final(board).wf(),
        old(selected).0 is None ==> {
            &&& final(board)@ == old(board)@
            &&& final(turn).0 == old(turn).0
            &&& final(selected).0 == (if team_at(
                old(board)@,
                click.x as int,
                click.y as int,
                old(turn).0,
            ) {
                Some(click)
            } else {
                None::<Pos>
            })
        },
        old(selected).0 matches Some(orig) && click == orig ==> {
            &&& final(board)@ == old(board)@
            &&& final(turn).0 == old(turn).0
            &&& final(selected).0 is None
        },
        old(selected).0 matches Some(orig) && click != orig && !pseudo_legal(
            old(board)@,
            orig.x as int,
            orig.y as int,
            click.x as int,
            click.y as int,
        ) ==> {
            &&& final(board)@ == old(board)@
            &&& final(turn).0 == old(turn).0
            &&& final(selected).0 == old(selected).0
        },
        old(selected).0 matches Some(orig) && click != orig && pseudo_legal(
            old(board)@,
            orig.x as int,
            orig.y as int,
            click.x as int,
            click.y as int,
        ) && move_self_checks(old(board)@, orig, click) ==> {
            &&& final(board)@ == old(board)@
            &&& final(turn).0 == old(turn).0
            &&& final(selected).0 == old(selected).0
        },
        old(selected).0 matches Some(orig) && click != orig && pseudo_legal(
            old(board)@,
            orig.x as int,
            orig.y as int,
            click.x as int,
            click.y as int,
        ) && !move_self_checks(old(board)@, orig, click) ==> {
            &&& final(board)@ == board_committed(
                old(board)@,
                (old(selected).0->0).x as int,
                (old(selected).0->0).y as int,
                click.x as int,
                click.y as int,
            )
            &&& final(selected).0 is None
            &&& final(turn).0 == old(turn).0.toggle()
        },
{
    let ghost bv = board@;
    match selected.0 {
        Some(orig) => {
            if orig == click {
                selected.0 = None;
            } else {
                let moves = get_valid_moves(board, &orig);
                if contains_pos(&moves, &click) {
                    let ghost oxi = orig.x as int;
                    let ghost oyi = orig.y as int;
                    let ghost txi = click.x as int;
                    let ghost tyi = click.y as int;
                    proof {
                        assert(moves@.contains(click));
                        assert(pseudo_legal(bv, oxi, oyi, txi, tyi));
                        lemma_candidates_in_bounds(bv, oxi, oyi, txi, tyi);
                        assert(square_at(bv, oxi, oyi) is Some);
                        assert(in_bounds(oxi, oyi));
                        assert(in_bounds(txi, tyi));
                        if cell_index(oxi, oyi) == cell_index(txi, tyi) {
                            assert(orig.x == click.x && orig.y == click.y);
                            assert(orig == click);
                        }
                        assert(cell_index(oxi, oyi) != cell_index(txi, tyi));
                    }
                    let dest_snapshot = board.get(&click);
                    let origin_piece = board.get(&orig);
                    board.set_with_pos(&click, &orig);
                    board.set(&orig, None);
                    proof {
                        assert(board@ == board_moved(bv, oxi, oyi, txi, tyi));
                    }
                    let mover = origin_piece.unwrap();
                    proof {
                        assert(mover.team == mover_team(bv, oxi, oyi));
                    }
                    if in_check(board, &mover.team) {
                        board.set(&click, dest_snapshot);
                        board.set(&orig, origin_piece);
                        proof {
                            assert(board@ =~= bv);
                        }
                    } else {
                        board.set(
                            &click,
                            Some(Piece { role: mover.role, team: mover.team, has_moved: true }),
                        );
                        selected.0 = None;
                        turn.toggle();
                        proof {
                            assert(board@ =~= board_committed(bv, oxi, oyi, txi, tyi));
                        }
                    }
                }
            }
        },
        None => {
            match board.get(&click) {
                Some(p) => {
                    if p.team == turn.0 {
                        selected.0 = Some(click);
                    }
                },
                None => {},
            }
        },
    }
}

} // verus!
