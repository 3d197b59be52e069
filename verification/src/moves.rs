//! Pseudo-legal move generation: squares reachable by a piece's movement
//! rule, respecting blocking and capture, without regard to whether the
//! mover's own king is safe afterward (that filtering is the turn
//! controller's job).
//!
//! Castling is not implemented: the movement rule yields no castling
//! candidates.

use vstd::prelude::*;

use crate::board::{square_at, Board};
use crate::types::{in_bounds, Piece, Pos, Roles, Teams};

verus! {

/// True when the square (`x`, `y`) holds a piece of `team`.
pub open spec fn team_at(bv: Seq<Option<Piece>>, x: int, y: int, team: Teams) -> bool {
    match square_at(bv, x, y) {
        Some(p) => p.team == team,
        None => false,
    }
}

/// True when (`x`, `y`) is on the board and unoccupied.
pub open spec fn empty_in(bv: Seq<Option<Piece>>, x: int, y: int) -> bool {
    in_bounds(x, y) && square_at(bv, x, y) is None
}

/// The rank direction a pawn of `team` advances in.
pub open spec fn pawn_dir(team: Teams) -> int {
    if team == Teams::White {
        1
    } else {
        -1
    }
}

/// The rank a pawn of `team` starts on.
pub open spec fn home_rank(team: Teams) -> int {
    if team == Teams::White {
        1
    } else {
        6
    }
}

/// A pawn on (`ox`, `oy`) may move to (`tx`, `ty`): forward one to an empty
/// square, a diagonal capture of an enemy piece, or forward two from the
/// home rank when both squares ahead are empty.
pub open spec fn pawn_move(
    bv: Seq<Option<Piece>>,
    ox: int,
    oy: int,
    team: Teams,
    tx: int,
    ty: int,
) -> bool {
    ||| (tx == ox && ty == oy + pawn_dir(team) && empty_in(bv, tx, ty))
    ||| ((tx == ox - 1 || tx == ox + 1) && ty == oy + pawn_dir(team) && team_at(
        bv,
        tx,
        ty,
        team.toggle(),
    ))
    ||| (tx == ox && ty == oy + 2 * pawn_dir(team) && oy == home_rank(team) && empty_in(
        bv,
        ox,
        oy + pawn_dir(team),
    ) && empty_in(bv, tx, ty))
}

/// The coordinate reached from `o` after `k` steps of size `s`.
pub open spec fn step_coord(o: int, s: int, k: int) -> int {
    o + k * s
}

/// Every square strictly before the `k`-th step along direction
/// (`sx`, `sy`) is unoccupied.
pub open spec fn ray_clear(
    bv: Seq<Option<Piece>>,
    ox: int,
    oy: int,
    sx: int,
    sy: int,
    k: int,
) -> bool {
    forall|j: int|
        1 <= j < k ==> square_at(bv, #[trigger] step_coord(ox, sx, j), step_coord(oy, sy, j))
            is None
}

/// The `k`-th step along (`sx`, `sy`) is a sliding candidate: on the board,
/// every square before it empty, and not occupied by a friendly piece.
pub open spec fn slide_ok(
    bv: Seq<Option<Piece>>,
    ox: int,
    oy: int,
    team: Teams,
    sx: int,
    sy: int,
    k: int,
) -> bool {
    &&& in_bounds(step_coord(ox, sx, k), step_coord(oy, sy, k))
    &&& ray_clear(bv, ox, oy, sx, sy, k)
    &&& !team_at(bv, step_coord(ox, sx, k), step_coord(oy, sy, k), team)
}

/// (`tx`, `ty`) is reachable by sliding from (`ox`, `oy`) along direction
/// (`sx`, `sy`).
pub open spec fn slide_reach(
    bv: Seq<Option<Piece>>,
    ox: int,
    oy: int,
    team: Teams,
    sx: int,
    sy: int,
    tx: int,
    ty: int,
) -> bool {
    exists|k: int|
        1 <= k < 8 && tx == step_coord(ox, sx, k) && ty == step_coord(oy, sy, k)
            && #[trigger] slide_ok(bv, ox, oy, team, sx, sy, k)
}

/// A rook slides along the four axis directions.
pub open spec fn rook_move(
    bv: Seq<Option<Piece>>,
    ox: int,
    oy: int,
    team: Teams,
    tx: int,
    ty: int,
) -> bool {
    ||| slide_reach(bv, ox, oy, team, 0, 1, tx, ty)
    ||| slide_reach(bv, ox, oy, team, 0, -1, tx, ty)
    ||| slide_reach(bv, ox, oy, team, 1, 0, tx, ty)
    ||| slide_reach(bv, ox, oy, team, -1, 0, tx, ty)
}

/// A bishop slides along the four diagonal directions.
pub open spec fn bishop_move(
    bv: Seq<Option<Piece>>,
    ox: int,
    oy: int,
    team: Teams,
    tx: int,
    ty: int,
) -> bool {
    ||| slide_reach(bv, ox, oy, team, 1, 1, tx, ty)
    ||| slide_reach(bv, ox, oy, team, -1, -1, tx, ty)
    ||| slide_reach(bv, ox, oy, team, 1, -1, tx, ty)
    ||| slide_reach(bv, ox, oy, team, -1, 1, tx, ty)
}

/// A queen slides along all eight directions.
pub open spec fn queen_move(
    bv: Seq<Option<Piece>>,
    ox: int,
    oy: int,
    team: Teams,
    tx: int,
    ty: int,
) -> bool {
    rook_move(bv, ox, oy, team, tx, ty) || bishop_move(bv, ox, oy, team, tx, ty)
}

/// A knight jumps by one of the eight (±1, ±2)/(±2, ±1) offsets, onto any
/// in-bounds square not occupied by a friendly piece.
pub open spec fn knight_move(
    bv: Seq<Option<Piece>>,
    ox: int,
    oy: int,
    team: Teams,
    tx: int,
    ty: int,
) -> bool {
    &&& in_bounds(tx, ty)
    &&& !team_at(bv, tx, ty, team)
    &&& ((tx == ox + 2 && (ty == oy + 1 || ty == oy - 1)) || (tx == ox - 2 && (ty == oy + 1 || ty
        == oy - 1)) || (ty == oy + 2 && (tx == ox + 1 || tx == ox - 1)) || (ty == oy - 2 && (tx
        == ox + 1 || tx == ox - 1)))
}

/// A king steps to one of the eight adjacent squares, when in bounds and not
/// occupied by a friendly piece.
pub open spec fn king_move(
    bv: Seq<Option<Piece>>,
    ox: int,
    oy: int,
    team: Teams,
    tx: int,
    ty: int,
) -> bool {
    &&& in_bounds(tx, ty)
    &&& !team_at(bv, tx, ty, team)
    &&& ox - 1 <= tx <= ox + 1
    &&& oy - 1 <= ty <= oy + 1
    &&& !(tx == ox && ty == oy)
}

/// The movement rule of piece `p` standing on (`ox`, `oy`).
pub open spec fn piece_move(
    bv: Seq<Option<Piece>>,
    ox: int,
    oy: int,
    p: Piece,
    tx: int,
    ty: int,
) -> bool {
    match p.role {
        Roles::Pawn => pawn_move(bv, ox, oy, p.team, tx, ty),
        Roles::Rook => rook_move(bv, ox, oy, p.team, tx, ty),
        Roles::Knight => knight_move(bv, ox, oy, p.team, tx, ty),
        Roles::Bishop => bishop_move(bv, ox, oy, p.team, tx, ty),
        Roles::Queen => queen_move(bv, ox, oy, p.team, tx, ty),
        Roles::King => king_move(bv, ox, oy, p.team, tx, ty),
    }
}

/// (`tx`, `ty`) is a pseudo-legal destination for the occupant of
/// (`ox`, `oy`); false when that square is empty or off the board.
pub open spec fn pseudo_legal(
    bv: Seq<Option<Piece>>,
    ox: int,
    oy: int,
    tx: int,
    ty: int,
) -> bool {
    match square_at(bv, ox, oy) {
        Some(p) => piece_move(bv, ox, oy, p, tx, ty),
        None => false,
    }
}

/// The team of the piece on (`ox`, `oy`); white when the square is empty.
pub open spec fn mover_team(bv: Seq<Option<Piece>>, ox: int, oy: int) -> Teams {
    match square_at(bv, ox, oy) {
        Some(p) => p.team,
        None => Teams::White,
    }
}

/// True when the cell at `pos` holds a piece of `team`.
pub fn is_pos_team(board: &Board, pos: &Pos, team: &Teams) -> (r: bool)
    requires
        board.wf(),
    ensures
        r == team_at(board@, pos.x as int, pos.y as int, *team),
{
    if let Some(piece) = board.get(pos) {
        piece.team == *team
    } else {
        false
    }
}

/// Appends `p`, so that the vector afterwards holds exactly its old
/// members and `p`.
pub(crate) fn push_pos(v: &mut Vec<Pos>, p: Pos)
    ensures
        final(v)@ == old(v)@.push(p),
        forall|d: Pos| final(v)@.contains(d) <==> old(v)@.contains(d) || d == p,
{
    v.push(p);
    proof {
        assert forall|d: Pos| v@.contains(d) <==> old(v)@.contains(d) || d == p by {
            if v@.contains(d) {
                let i = choose|i: int| 0 <= i < v@.len() && v@[i] == d;
                if i < old(v)@.len() {
                    assert(old(v)@[i] == d);
                }
            }
            if old(v)@.contains(d) {
                let i = choose|i: int| 0 <= i < old(v)@.len() && old(v)@[i] == d;
                assert(v@[i] == d);
            }
            if d == p {
                assert(v@[old(v)@.len() as int] == d);
            }
        };
    }
}

/// Pushes `cand` when it is in bounds and not occupied by a piece of
/// `team`; used for the single-step candidates of knights and kings.
pub(crate) fn try_step(board: &Board, cand: Pos, team: Teams, result: &mut Vec<Pos>)
    requires
        board.wf(),
    ensures
        forall|d: Pos|
            final(result)@.contains(d) <==> old(result)@.contains(d) || (d == cand && in_bounds(
                cand.x as int,
                cand.y as int,
            ) && !team_at(board@, cand.x as int, cand.y as int, team)),
{
    if !cand.out_of_bounds() && !is_pos_team(board, &cand, &team) {
        push_pos(result, cand);
    }
}

proof fn lemma_step_unfold(o: int, s: int, k: int)
    ensures
        step_coord(o, s, k + 1) == step_coord(o, s, k) + s,
{
    assert((k + 1) * s == k * s + s) by (nonlinear_arith);
}

proof fn lemma_step_bounded(o: int, s: int, k: int)
    requires
        -1 <= s <= 1,
        0 <= o < 8,
        1 <= k <= 8,
    ensures
        -8 <= step_coord(o, s, k) <= 15,
{
    assert(-8 <= k * s <= 8) by (nonlinear_arith)
        requires
            -1 <= s <= 1,
            1 <= k <= 8,
    ;
}

/// A step between the origin and an in-bounds step along the same ray is
/// itself in bounds (each coordinate moves monotonically).
proof fn lemma_step_between(o: int, s: int, k: int, m: int)
    requires
        -1 <= s <= 1,
        0 <= o < 8,
        0 <= step_coord(o, s, m) < 8,
        0 <= k <= m,
    ensures
        0 <= step_coord(o, s, k) < 8,
{
    assert(0 <= o + k * s < 8) by (nonlinear_arith)
        requires
            -1 <= s <= 1,
            0 <= o < 8,
            0 <= o + m * s < 8,
            0 <= k <= m,
    ;
}


/// The destination `d` is the `m`-th step along (`sx`, `sy`) and that step
/// is a sliding candidate.
spec fn step_hit(
    bv: Seq<Option<Piece>>,
    ox: int,
    oy: int,
    team: Teams,
    sx: int,
    sy: int,
    d: Pos,
    m: int,
) -> bool {
    d.x as int == step_coord(ox, sx, m) && d.y as int == step_coord(oy, sy, m) && slide_ok(
        bv,
        ox,
        oy,
        team,
        sx,
        sy,
        m,
    )
}

/// Some step with index below `bound` reaches `d` as a sliding candidate.
spec fn seen_to(
    bv: Seq<Option<Piece>>,
    ox: int,
    oy: int,
    team: Teams,
    sx: int,
    sy: int,
    d: Pos,
    bound: int,
) -> bool {
    exists|m: int| 1 <= m < bound && #[trigger] step_hit(bv, ox, oy, team, sx, sy, d, m)
}

/// Extends the collected-candidates characterization by one step when that
/// step was pushed.
proof fn lemma_slide_seen_push(
    bv: Seq<Option<Piece>>,
    ox: int,
    oy: int,
    team: Teams,
    sx: int,
    sy: int,
    initial: Seq<Pos>,
    before: Seq<Pos>,
    after: Seq<Pos>,
    ki: int,
    cand: Pos,
)
    requires
        forall|d: Pos|
            before.contains(d) <==> initial.contains(d) || seen_to(
                bv,
                ox,
                oy,
                team,
                sx,
                sy,
                d,
                ki,
            ),
        forall|d: Pos| after.contains(d) <==> before.contains(d) || d == cand,
        cand.x as int == step_coord(ox, sx, ki),
        cand.y as int == step_coord(oy, sy, ki),
        slide_ok(bv, ox, oy, team, sx, sy, ki),
        1 <= ki,
    ensures
        forall|d: Pos|
            after.contains(d) <==> initial.contains(d) || seen_to(
                bv,
                ox,
                oy,
                team,
                sx,
                sy,
                d,
                ki + 1,
            ),
{
    assert forall|d: Pos|
        (after.contains(d) <==> initial.contains(d) || seen_to(
            bv,
            ox,
            oy,
            team,
            sx,
            sy,
            d,
            ki + 1,
        )) by {
        assert(before.contains(d) <==> initial.contains(d) || seen_to(
            bv,
            ox,
            oy,
            team,
            sx,
            sy,
            d,
            ki,
        ));
        if after.contains(d) && !before.contains(d) {
            assert(d == cand);
            assert(step_hit(bv, ox, oy, team, sx, sy, d, ki));
            assert(seen_to(bv, ox, oy, team, sx, sy, d, ki + 1));
        }
        if before.contains(d) && !initial.contains(d) {
            let m = choose|m: int| 1 <= m < ki && #[trigger] step_hit(bv, ox, oy, team, sx, sy, d, m);
            assert(seen_to(bv, ox, oy, team, sx, sy, d, ki + 1));
        }
        if seen_to(bv, ox, oy, team, sx, sy, d, ki + 1) {
            let m = choose|m: int|
                1 <= m < ki + 1 && #[trigger] step_hit(bv, ox, oy, team, sx, sy, d, m);
            if m == ki {
                assert(d.x == cand.x && d.y == cand.y);
                assert(d == cand);
                assert(after.contains(d));
            } else {
                assert(seen_to(bv, ox, oy, team, sx, sy, d, ki));
                assert(before.contains(d));
                assert(after.contains(d));
            }
        }
    };
}

/// Keeps the collected-candidates characterization across a step that was
/// not a candidate, with the vector unchanged.
proof fn lemma_slide_seen_stop(
    bv: Seq<Option<Piece>>,
    ox: int,
    oy: int,
    team: Teams,
    sx: int,
    sy: int,
    initial: Seq<Pos>,
    s: Seq<Pos>,
    ki: int,
)
    requires
        forall|d: Pos|
            s.contains(d) <==> initial.contains(d) || seen_to(
                bv,
                ox,
                oy,
                team,
                sx,
                sy,
                d,
                ki,
            ),
        !slide_ok(bv, ox, oy, team, sx, sy, ki),
        1 <= ki,
    ensures
        forall|d: Pos|
            s.contains(d) <==> initial.contains(d) || seen_to(
                bv,
                ox,
                oy,
                team,
                sx,
                sy,
                d,
                ki + 1,
            ),
{
    assert forall|d: Pos|
        (s.contains(d) <==> initial.contains(d) || seen_to(
            bv,
            ox,
            oy,
            team,
            sx,
            sy,
            d,
            ki + 1,
        )) by {
        assert(s.contains(d) <==> initial.contains(d) || seen_to(bv, ox, oy, team, sx, sy, d, ki));
        if s.contains(d) && !initial.contains(d) {
            let m = choose|m: int| 1 <= m < ki && #[trigger] step_hit(bv, ox, oy, team, sx, sy, d, m);
            assert(seen_to(bv, ox, oy, team, sx, sy, d, ki + 1));
        }
        if seen_to(bv, ox, oy, team, sx, sy, d, ki + 1) {
            let m = choose|m: int|
                1 <= m < ki + 1 && #[trigger] step_hit(bv, ox, oy, team, sx, sy, d, m);
            assert(m < ki);
            assert(seen_to(bv, ox, oy, team, sx, sy, d, ki));
            assert(s.contains(d));
        }
    };
}

/// Collects every sliding candidate along direction (`sx`, `sy`) into
/// `result`, stepping outward from `origin` and stopping at the first
/// blocking square.
fn slide_dir(board: &Board, origin: &Pos, team: Teams, sx: i32, sy: i32, result: &mut Vec<Pos>)
    requires
        board.wf(),
        in_bounds(origin.x as int, origin.y as int),
        -1 <= sx <= 1,
        -1 <= sy <= 1,
        !(sx == 0 && sy == 0),
    ensures
        forall|d: Pos|
            final(result)@.contains(d) <==> old(result)@.contains(d) || slide_reach(
                board@,
                origin.x as int,
                origin.y as int,
                team,
                sx as int,
                sy as int,
                d.x as int,
                d.y as int,
            ),
{
    let ghost bv = board@;
    let ghost oxi = origin.x as int;
    let ghost oyi = origin.y as int;
    let ghost sxi = sx as int;
    let ghost syi = sy as int;
    let ghost initial = result@;
    let mut k: i32 = 1;
    let mut cx: i32 = origin.x + sx;
    let mut cy: i32 = origin.y + sy;
    let mut blocked: bool = false;
    while k < 8 && !blocked
        invariant
            board.wf(),
            board@ == bv,
            in_bounds(oxi, oyi),
            -1 <= sxi <= 1,
            -1 <= syi <= 1,
            !(sxi == 0 && syi == 0),
            sx == sxi,
            sy == syi,
            1 <= k <= 8,
            cx as int == step_coord(oxi, sxi, k as int),
            cy as int == step_coord(oyi, syi, k as int),
            !blocked ==> ray_clear(bv, oxi, oyi, sxi, syi, k as int),
            forall|d: Pos|
                result@.contains(d) <==> initial.contains(d) || seen_to(
                    bv,
                    oxi,
                    oyi,
                    team,
                    sxi,
                    syi,
                    d,
                    k as int,
                ),
            blocked ==> forall|m: int|
                k <= m < 8 ==> !(#[trigger] slide_ok(bv, oxi, oyi, team, sxi, syi, m)),
        decreases 8 - k,
    {
        let cand = Pos { x: cx, y: cy };
        let ghost ki = k as int;
        let ghost entry = result@;
        if cand.out_of_bounds() {
            blocked = true;
            proof {
                assert(!slide_ok(bv, oxi, oyi, team, sxi, syi, ki));
                lemma_slide_seen_stop(bv, oxi, oyi, team, sxi, syi, initial, entry, ki);
                assert forall|m: int| ki <= m < 8 implies !slide_ok(
                    bv,
                    oxi,
                    oyi,
                    team,
                    sxi,
                    syi,
                    m,
                ) by {
                    if in_bounds(step_coord(oxi, sxi, m), step_coord(oyi, syi, m)) {
                        lemma_step_between(oxi, sxi, ki, m);
                        lemma_step_between(oyi, syi, ki, m);
                    }
                };
            }
        } else if is_pos_team(board, &cand, &team) {
            blocked = true;
            proof {
                assert(square_at(bv, step_coord(oxi, sxi, ki), step_coord(oyi, syi, ki)) is Some);
                assert(!slide_ok(bv, oxi, oyi, team, sxi, syi, ki));
                lemma_slide_seen_stop(bv, oxi, oyi, team, sxi, syi, initial, entry, ki);
                assert forall|m: int| ki <= m < 8 implies !slide_ok(
                    bv,
                    oxi,
                    oyi,
                    team,
                    sxi,
                    syi,
                    m,
                ) by {
                    if m > ki {
                        assert(!ray_clear(bv, oxi, oyi, sxi, syi, m));
                    }
                };
            }
        } else {
            proof {
                assert(slide_ok(bv, oxi, oyi, team, sxi, syi, ki));
            }
            push_pos(result, cand);
            proof {
                lemma_slide_seen_push(
                    bv,
                    oxi,
                    oyi,
                    team,
                    sxi,
                    syi,
                    initial,
                    entry,
                    result@,
                    ki,
                    cand,
                );
            }
            if is_pos_team(board, &cand, &team.toggle()) {
                blocked = true;
                proof {
                    assert(square_at(bv, step_coord(oxi, sxi, ki), step_coord(oyi, syi, ki))
                        is Some);
                    assert forall|m: int| ki + 1 <= m < 8 implies !slide_ok(
                        bv,
                        oxi,
                        oyi,
                        team,
                        sxi,
                        syi,
                        m,
                    ) by {
                        assert(!ray_clear(bv, oxi, oyi, sxi, syi, m));
                    };
                }
            } else {
                proof {
                    assert forall|j: int| 1 <= j < ki + 1 implies square_at(
                        bv,
                        #[trigger] step_coord(oxi, sxi, j),
                        step_coord(oyi, syi, j),
                    ) is None by {
                        if j < ki {
                            assert(ray_clear(bv, oxi, oyi, sxi, syi, ki));
                        }
                    };
                }
            }
        }
        proof {
            lemma_step_unfold(oxi, sxi, ki);
            lemma_step_unfold(oyi, syi, ki);
            lemma_step_bounded(oxi, sxi, ki);
            lemma_step_bounded(oyi, syi, ki);
        }
        k = k + 1;
        cx = cx + sx;
        cy = cy + sy;
    }
    proof {
        assert forall|d: Pos|
            (result@.contains(d) <==> initial.contains(d) || slide_reach(
                bv,
                oxi,
                oyi,
                team,
                sxi,
                syi,
                d.x as int,
                d.y as int,
            )) by {
            assert(result@.contains(d) <==> initial.contains(d) || seen_to(
                bv,
                oxi,
                oyi,
                team,
                sxi,
                syi,
                d,
                k as int,
            ));
            if result@.contains(d) && !initial.contains(d) {
                let m = choose|m: int|
                    1 <= m < k && #[trigger] step_hit(bv, oxi, oyi, team, sxi, syi, d, m);
                assert(1 <= m < 8);
                assert(slide_ok(bv, oxi, oyi, team, sxi, syi, m));
                assert(slide_reach(bv, oxi, oyi, team, sxi, syi, d.x as int, d.y as int));
            }
            if slide_reach(bv, oxi, oyi, team, sxi, syi, d.x as int, d.y as int) {
                let m = choose|m: int|
                    1 <= m < 8 && d.x as int == step_coord(oxi, sxi, m) && d.y as int == step_coord(
                        oyi,
                        syi,
                        m,
                    ) && #[trigger] slide_ok(bv, oxi, oyi, team, sxi, syi, m);
                if m >= k {
                    if blocked {
                        assert(!slide_ok(bv, oxi, oyi, team, sxi, syi, m));
                    } else {
                        assert(k >= 8);
                    }
                    assert(false);
                }
                assert(step_hit(bv, oxi, oyi, team, sxi, syi, d, m));
                assert(seen_to(bv, oxi, oyi, team, sxi, syi, d, k as int));
                assert(result@.contains(d));
            }
        };
    }
}

/// Collects a pawn's candidate moves.
fn pawn_moves(board: &Board, origin: &Pos, team: Teams) -> (result: Vec<Pos>)
    requires
        board.wf(),
        in_bounds(origin.x as int, origin.y as int),
    ensures
        forall|d: Pos|
            result@.contains(d) <==> pawn_move(
                board@,
                origin.x as int,
                origin.y as int,
                team,
                d.x as int,
                d.y as int,
            ),
{
    let ghost bv = board@;
    let ghost oxi = origin.x as int;
    let ghost oyi = origin.y as int;
    let mut result: Vec<Pos> = Vec::new();
    let dir: i32 = if team == Teams::White {
        1
    } else {
        -1
    };
    proof {
        assert(dir as int == pawn_dir(team));
    }
    let forward = origin.add(0, dir);
    let mut forward_open = false;
    if !forward.out_of_bounds() {
        if board.get(&forward).is_none() {
            forward_open = true;
            push_pos(&mut result, forward);
        }
    }
    proof {
        assert(forward_open == empty_in(bv, oxi, oyi + pawn_dir(team)));
        assert(forall|d: Pos| result@.contains(d) <==> (forward_open && d == forward));
    }
    let left = forward.add(-1, 0);
    if is_pos_team(board, &left, &team.toggle()) {
        push_pos(&mut result, left);
    }
    proof {
        assert(forall|d: Pos|
            result@.contains(d) <==> (forward_open && d == forward) || (team_at(
                bv,
                oxi - 1,
                oyi + pawn_dir(team),
                team.toggle(),
            ) && d == left));
    }
    let right = forward.add(1, 0);
    if is_pos_team(board, &right, &team.toggle()) {
        push_pos(&mut result, right);
    }
    proof {
        assert(forall|d: Pos|
            result@.contains(d) <==> (forward_open && d == forward) || (team_at(
                bv,
                oxi - 1,
                oyi + pawn_dir(team),
                team.toggle(),
            ) && d == left) || (team_at(bv, oxi + 1, oyi + pawn_dir(team), team.toggle()) && d
                == right));
    }
    let home = if team == Teams::White {
        origin.y == 1
    } else {
        origin.y == 6
    };
    let two = origin.add(0, 2 * dir);
    let mut pushed_two = false;
    if home && forward_open && !two.out_of_bounds() {
        if board.get(&two).is_none() {
            pushed_two = true;
            push_pos(&mut result, two);
        }
    }
    proof {
        assert(pushed_two == (oyi == home_rank(team) && empty_in(bv, oxi, oyi + pawn_dir(team))
            && empty_in(bv, oxi, oyi + 2 * pawn_dir(team))));
        assert forall|d: Pos|
            (result@.contains(d) <==> pawn_move(bv, oxi, oyi, team, d.x as int, d.y as int)) by {
            let txi = d.x as int;
            let tyi = d.y as int;
            assert(forward.x as int == oxi && forward.y as int == oyi + pawn_dir(team));
            assert(left.x as int == oxi - 1 && left.y as int == oyi + pawn_dir(team));
            assert(right.x as int == oxi + 1 && right.y as int == oyi + pawn_dir(team));
            assert(two.x as int == oxi && two.y as int == oyi + 2 * pawn_dir(team));
            if pawn_move(bv, oxi, oyi, team, txi, tyi) {
                if txi == oxi && tyi == oyi + pawn_dir(team) {
                    assert(d == forward);
                } else if txi == oxi - 1 && tyi == oyi + pawn_dir(team) {
                    assert(d == left);
                } else if txi == oxi + 1 && tyi == oyi + pawn_dir(team) {
                    assert(d == right);
                } else {
                    assert(txi == oxi && tyi == oyi + 2 * pawn_dir(team));
                    assert(d == two);
                }
            }
        };
    }
    result
}

/// Collects a knight's candidate moves.
fn knight_moves(board: &Board, origin: &Pos, team: Teams) -> (result: Vec<Pos>)
    requires
        board.wf(),
        in_bounds(origin.x as int, origin.y as int),
    ensures
        forall|d: Pos|
            result@.contains(d) <==> knight_move(
                board@,
                origin.x as int,
                origin.y as int,
                team,
                d.x as int,
                d.y as int,
            ),
{
    let ghost bv = board@;
    let ghost oxi = origin.x as int;
    let ghost oyi = origin.y as int;
    let mut result: Vec<Pos> = Vec::new();
    let c1 = origin.add(2, 1);
    try_step(board, c1, team, &mut result);
    let c2 = origin.add(-2, -1);
    try_step(board, c2, team, &mut result);
    let c3 = origin.add(-2, 1);
    try_step(board, c3, team, &mut result);
    let c4 = origin.add(2, -1);
    try_step(board, c4, team, &mut result);
    let c5 = origin.add(1, 2);
    try_step(board, c5, team, &mut result);
    let c6 = origin.add(-1, -2);
    try_step(board, c6, team, &mut result);
    let c7 = origin.add(-1, 2);
    try_step(board, c7, team, &mut result);
    let c8 = origin.add(1, -2);
    try_step(board, c8, team, &mut result);
    proof {
        assert forall|d: Pos|
            (result@.contains(d) <==> knight_move(bv, oxi, oyi, team, d.x as int, d.y as int)) by {
            let txi = d.x as int;
            let tyi = d.y as int;
            if knight_move(bv, oxi, oyi, team, txi, tyi) {
                if txi == oxi + 2 && tyi == oyi + 1 {
                    assert(d == c1);
                } else if txi == oxi - 2 && tyi == oyi - 1 {
                    assert(d == c2);
                } else if txi == oxi - 2 && tyi == oyi + 1 {
                    assert(d == c3);
                } else if txi == oxi + 2 && tyi == oyi - 1 {
                    assert(d == c4);
                } else if txi == oxi + 1 && tyi == oyi + 2 {
                    assert(d == c5);
                } else if txi == oxi - 1 && tyi == oyi - 2 {
                    assert(d == c6);
                } else if txi == oxi - 1 && tyi == oyi + 2 {
                    assert(d == c7);
                } else {
                    assert(txi == oxi + 1 && tyi == oyi - 2);
                    assert(d == c8);
                }
            }
        };
    }
    result
}

/// Collects a king's single-step candidate moves. The castling
/// precondition adds no candidate and is not modelled.
fn king_moves(board: &Board, origin: &Pos, team: Teams) -> (result: Vec<Pos>)
    requires
        board.wf(),
        in_bounds(origin.x as int, origin.y as int),
    ensures
        forall|d: Pos|
            result@.contains(d) <==> king_move(
                board@,
                origin.x as int,
                origin.y as int,
                team,
                d.x as int,
                d.y as int,
            ),
{
    let ghost bv = board@;
    let ghost oxi = origin.x as int;
    let ghost oyi = origin.y as int;
    let mut result: Vec<Pos> = Vec::new();
    let c1 = origin.add(-1, -1);
    try_step(board, c1, team, &mut result);
    let c2 = origin.add(-1, 0);
    try_step(board, c2, team, &mut result);
    let c3 = origin.add(-1, 1);
    try_step(board, c3, team, &mut result);
    let c4 = origin.add(0, -1);
    try_step(board, c4, team, &mut result);
    let c5 = origin.add(0, 1);
    try_step(board, c5, team, &mut result);
    let c6 = origin.add(1, -1);
    try_step(board, c6, team, &mut result);
    let c7 = origin.add(1, 0);
    try_step(board, c7, team, &mut result);
    let c8 = origin.add(1, 1);
    try_step(board, c8, team, &mut result);
    proof {
        assert forall|d: Pos|
            (result@.contains(d) <==> king_move(bv, oxi, oyi, team, d.x as int, d.y as int)) by {
            let txi = d.x as int;
            let tyi = d.y as int;
            if king_move(bv, oxi, oyi, team, txi, tyi) {
                if txi == oxi - 1 && tyi == oyi - 1 {
                    assert(d == c1);
                } else if txi == oxi - 1 && tyi == oyi {
                    assert(d == c2);
                } else if txi == oxi - 1 && tyi == oyi + 1 {
                    assert(d == c3);
                } else if txi == oxi && tyi == oyi - 1 {
                    assert(d == c4);
                } else if txi == oxi && tyi == oyi + 1 {
                    assert(d == c5);
                } else if txi == oxi + 1 && tyi == oyi - 1 {
                    assert(d == c6);
                } else if txi == oxi + 1 && tyi == oyi {
                    assert(d == c7);
                } else {
                    assert(txi == oxi + 1 && tyi == oyi + 1);
                    assert(d == c8);
                }
            }
        };
    }
    result
}

/// Collects a rook's sliding candidate moves.
fn rook_moves(board: &Board, origin: &Pos, team: Teams) -> (result: Vec<Pos>)
    requires
        board.wf(),
        in_bounds(origin.x as int, origin.y as int),
    ensures
        forall|d: Pos|
            result@.contains(d) <==> rook_move(
                board@,
                origin.x as int,
                origin.y as int,
                team,
                d.x as int,
                d.y as int,
            ),
{
    let mut result: Vec<Pos> = Vec::new();
    slide_dir(board, origin, team, 0, 1, &mut result);
    slide_dir(board, origin, team, 0, -1, &mut result);
    slide_dir(board, origin, team, 1, 0, &mut result);
    slide_dir(board, origin, team, -1, 0, &mut result);
    result
}

/// Collects a bishop's sliding candidate moves.
fn bishop_moves(board: &Board, origin: &Pos, team: Teams) -> (result: Vec<Pos>)
    requires
        board.wf(),
        in_bounds(origin.x as int, origin.y as int),
    ensures
        forall|d: Pos|
            result@.contains(d) <==> bishop_move(
                board@,
                origin.x as int,
                origin.y as int,
                team,
                d.x as int,
                d.y as int,
            ),
{
    let mut result: Vec<Pos> = Vec::new();
    slide_dir(board, origin, team, 1, 1, &mut result);
    slide_dir(board, origin, team, -1, -1, &mut result);
    slide_dir(board, origin, team, 1, -1, &mut result);
    slide_dir(board, origin, team, -1, 1, &mut result);
    result
}

/// Collects a queen's sliding candidate moves.
fn queen_moves(board: &Board, origin: &Pos, team: Teams) -> (result: Vec<Pos>)
    requires
        board.wf(),
        in_bounds(origin.x as int, origin.y as int),
    ensures
        forall|d: Pos|
            result@.contains(d) <==> queen_move(
                board@,
                origin.x as int,
                origin.y as int,
                team,
                d.x as int,
                d.y as int,
            ),
{
    let mut result: Vec<Pos> = Vec::new();
    slide_dir(board, origin, team, 0, 1, &mut result);
    slide_dir(board, origin, team, 0, -1, &mut result);
    slide_dir(board, origin, team, 1, 0, &mut result);
    slide_dir(board, origin, team, -1, 0, &mut result);
    slide_dir(board, origin, team, 1, 1, &mut result);
    slide_dir(board, origin, team, -1, -1, &mut result);
    slide_dir(board, origin, team, 1, -1, &mut result);
    slide_dir(board, origin, team, -1, 1, &mut result);
    result
}

/// Returns the pseudo-legal destinations of the piece standing on
/// `piece_pos`; empty when that square is empty or out of bounds.
pub fn get_valid_moves(board: &Board, piece_pos: &Pos) -> (result: Vec<Pos>)
    requires
        board.wf(),
    ensures
        forall|d: Pos|
            result@.contains(d) <==> pseudo_legal(
                board@,
                piece_pos.x as int,
                piece_pos.y as int,
                d.x as int,
                d.y as int,
            ),
{
    match board.get(piece_pos) {
        None => Vec::new(),
        Some(piece) => {
            proof {
                assert(in_bounds(piece_pos.x as int, piece_pos.y as int));
            }
            match piece.role {
                Roles::Pawn => pawn_moves(board, piece_pos, piece.team),
                Roles::Rook => rook_moves(board, piece_pos, piece.team),
                Roles::Knight => knight_moves(board, piece_pos, piece.team),
                Roles::Bishop => bishop_moves(board, piece_pos, piece.team),
                Roles::Queen => queen_moves(board, piece_pos, piece.team),
                Roles::King => king_moves(board, piece_pos, piece.team),
            }
        },
    }
}

/// A destination reached by sliding is on the board and not occupied by a
/// friendly piece.
proof fn lemma_slide_reach_props(
    bv: Seq<Option<Piece>>,
    ox: int,
    oy: int,
    team: Teams,
    sx: int,
    sy: int,
    tx: int,
    ty: int,
)
    requires
        slide_reach(bv, ox, oy, team, sx, sy, tx, ty),
    ensures
        in_bounds(tx, ty),
        !team_at(bv, tx, ty, team),
{
    let k = choose|k: int|
        1 <= k < 8 && tx == step_coord(ox, sx, k) && ty == step_coord(oy, sy, k)
            && #[trigger] slide_ok(bv, ox, oy, team, sx, sy, k);
    assert(in_bounds(step_coord(ox, sx, k), step_coord(oy, sy, k)));
}

/// Every pseudo-legal destination is on the board and is not occupied by a
/// piece of the moving piece's own team.
pub proof fn lemma_candidates_in_bounds(
    bv: Seq<Option<Piece>>,
    ox: int,
    oy: int,
    tx: int,
    ty: int,
)
    requires
        pseudo_legal(bv, ox, oy, tx, ty),
    ensures
        in_bounds(tx, ty),
        !team_at(bv, tx, ty, mover_team(bv, ox, oy)),
{
    let p = square_at(bv, ox, oy)->Some_0;
    let team = p.team;
    match p.role {
        Roles::Pawn => {
            assert(pawn_move(bv, ox, oy, team, tx, ty));
            if (tx == ox - 1 || tx == ox + 1) && ty == oy + pawn_dir(team) && team_at(
                bv,
                tx,
                ty,
                team.toggle(),
            ) {
                assert(square_at(bv, tx, ty) is Some);
                assert(in_bounds(tx, ty));
            }
        },
        Roles::Rook => {
            if slide_reach(bv, ox, oy, team, 0, 1, tx, ty) {
                lemma_slide_reach_props(bv, ox, oy, team, 0, 1, tx, ty);
            } else if slide_reach(bv, ox, oy, team, 0, -1, tx, ty) {
                lemma_slide_reach_props(bv, ox, oy, team, 0, -1, tx, ty);
            } else if slide_reach(bv, ox, oy, team, 1, 0, tx, ty) {
                lemma_slide_reach_props(bv, ox, oy, team, 1, 0, tx, ty);
            } else {
                lemma_slide_reach_props(bv, ox, oy, team, -1, 0, tx, ty);
            }
        },
        Roles::Knight => {},
        Roles::Bishop => {
            if slide_reach(bv, ox, oy, team, 1, 1, tx, ty) {
                lemma_slide_reach_props(bv, ox, oy, team, 1, 1, tx, ty);
            } else if slide_reach(bv, ox, oy, team, -1, -1, tx, ty) {
                lemma_slide_reach_props(bv, ox, oy, team, -1, -1, tx, ty);
            } else if slide_reach(bv, ox, oy, team, 1, -1, tx, ty) {
                lemma_slide_reach_props(bv, ox, oy, team, 1, -1, tx, ty);
            } else {
                lemma_slide_reach_props(bv, ox, oy, team, -1, 1, tx, ty);
            }
        },
        Roles::Queen => {
            if slide_reach(bv, ox, oy, team, 0, 1, tx, ty) {
                lemma_slide_reach_props(bv, ox, oy, team, 0, 1, tx, ty);
            } else if slide_reach(bv, ox, oy, team, 0, -1, tx, ty) {
                lemma_slide_reach_props(bv, ox, oy, team, 0, -1, tx, ty);
            } else if slide_reach(bv, ox, oy, team, 1, 0, tx, ty) {
                lemma_slide_reach_props(bv, ox, oy, team, 1, 0, tx, ty);
            } else if slide_reach(bv, ox, oy, team, -1, 0, tx, ty) {
                lemma_slide_reach_props(bv, ox, oy, team, -1, 0, tx, ty);
            } else if slide_reach(bv, ox, oy, team, 1, 1, tx, ty) {
                lemma_slide_reach_props(bv, ox, oy, team, 1, 1, tx, ty);
            } else if slide_reach(bv, ox, oy, team, -1, -1, tx, ty) {
                lemma_slide_reach_props(bv, ox, oy, team, -1, -1, tx, ty);
            } else if slide_reach(bv, ox, oy, team, 1, -1, tx, ty) {
                lemma_slide_reach_props(bv, ox, oy, team, 1, -1, tx, ty);
            } else {
                lemma_slide_reach_props(bv, ox, oy, team, -1, 1, tx, ty);
            }
        },
        Roles::King => {},
    }
}

/// Along one sliding direction the candidates form a contiguous prefix:
/// when the `k`-th step is a candidate, every earlier step is an empty
/// square and a candidate as well.
pub proof fn lemma_slide_prefix(
    bv: Seq<Option<Piece>>,
    ox: int,
    oy: int,
    team: Teams,
    sx: int,
    sy: int,
    k: int,
    j: int,
)
    requires
        -1 <= sx <= 1,
        -1 <= sy <= 1,
        !(sx == 0 && sy == 0),
        in_bounds(ox, oy),
        slide_ok(bv, ox, oy, team, sx, sy, k),
        1 <= j < k,
        k < 8,
    ensures
        square_at(bv, step_coord(ox, sx, j), step_coord(oy, sy, j)) is None,
        slide_ok(bv, ox, oy, team, sx, sy, j),
{
    assert(square_at(bv, step_coord(ox, sx, j), step_coord(oy, sy, j)) is None);
    lemma_step_between(ox, sx, j, k);
    lemma_step_between(oy, sy, j, k);
    assert forall|i: int| 1 <= i < j implies square_at(
        bv,
        #[trigger] step_coord(ox, sx, i),
        step_coord(oy, sy, i),
    ) is None by {
        assert(ray_clear(bv, ox, oy, sx, sy, k));
    };
}

/// No square past the first occupied square along a sliding direction is a
/// candidate: an occupied `m`-th step blocks every later step.
pub proof fn lemma_slide_blocked(
    bv: Seq<Option<Piece>>,
    ox: int,
    oy: int,
    team: Teams,
    sx: int,
    sy: int,
    m: int,
    k: int,
)
    requires
        1 <= m < k,
        square_at(bv, step_coord(ox, sx, m), step_coord(oy, sy, m)) is Some,
    ensures
        !slide_ok(bv, ox, oy, team, sx, sy, k),
{
    assert(!ray_clear(bv, ox, oy, sx, sy, k));
}

/// A pawn's two-square advance is offered only from the team's home rank,
/// and only when the square directly ahead (and the destination) is empty.
pub proof fn lemma_pawn_two_step(
    bv: Seq<Option<Piece>>,
    ox: int,
    oy: int,
    team: Teams,
    tx: int,
    ty: int,
)
    requires
        pawn_move(bv, ox, oy, team, tx, ty),
        tx == ox,
        ty == oy + 2 * pawn_dir(team),
    ensures
        oy == home_rank(team),
        empty_in(bv, ox, oy + pawn_dir(team)),
        empty_in(bv, tx, ty),
{
}

/// True when the vector holds `p`.
pub(crate) fn contains_pos(v: &Vec<Pos>, p: &Pos) -> (r: bool)
    ensures
        r == v@.contains(*p),
{
    let mut i: usize = 0;
    while i < v.len()
        invariant
            0 <= i <= v@.len(),
            forall|j: int| 0 <= j < i ==> v@[j] != *p,
        decreases v@.len() - i,
    {
        if v[i] == *p {
            proof {
                assert(v@[i as int] == *p);
            }
            return true;
        }
        i = i + 1;
    }
    proof {
        if v@.contains(*p) {
            let j = choose|j: int| 0 <= j < v@.len() && v@[j] == *p;
            assert(false);
        }
    }
    false
}

} // verus!
