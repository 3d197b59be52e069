//! Attacked-square computation and check detection. A square is "attacked"
//! by a team when some piece of that team could capture onto it: for a
//! pawn the two forward diagonals (and not its non-capturing forward
//! squares), for every other role exactly its movement rule.

use vstd::prelude::*;

use crate::board::{square_at, Board, Check};
use crate::moves::{
    contains_pos, get_valid_moves, pawn_dir, piece_move, push_pos, team_at, try_step,
};
use crate::types::{in_bounds, Piece, Pos, Roles, Teams};

verus! {

/// A pawn of `team` on (`ox`, `oy`) attacks (`tx`, `ty`): one of its two
/// forward diagonals, on the board and not held by a friendly piece.
pub open spec fn pawn_attack(
    bv: Seq<Option<Piece>>,
    ox: int,
    oy: int,
    team: Teams,
    tx: int,
    ty: int,
) -> bool {
    &&& (tx == ox - 1 || tx == ox + 1)
    &&& ty == oy + pawn_dir(team)
    &&& in_bounds(tx, ty)
    &&& !team_at(bv, tx, ty, team)
}

/// Piece `p` on (`ox`, `oy`) attacks (`tx`, `ty`): capture reach, which for
/// a pawn differs from its movement rule.
pub open spec fn piece_attack(
    bv: Seq<Option<Piece>>,
    ox: int,
    oy: int,
    p: Piece,
    tx: int,
    ty: int,
) -> bool {
    match p.role {
        Roles::Pawn => pawn_attack(bv, ox, oy, p.team, tx, ty),
        _ => piece_move(bv, ox, oy, p, tx, ty),
    }
}

/// The square (`ox`, `oy`) holds a piece of `team` that attacks
/// (`tx`, `ty`).
pub open spec fn attacker_at(
    bv: Seq<Option<Piece>>,
    team: Teams,
    ox: int,
    oy: int,
    tx: int,
    ty: int,
) -> bool {
    match square_at(bv, ox, oy) {
        Some(p) => p.team == team && piece_attack(bv, ox, oy, p, tx, ty),
        None => false,
    }
}

/// Some piece of `team` attacks (`tx`, `ty`).
pub open spec fn attacked(bv: Seq<Option<Piece>>, team: Teams, tx: int, ty: int) -> bool {
    exists|ox: int, oy: int| #[trigger] attacker_at(bv, team, ox, oy, tx, ty)
}

/// The square with row-major scan index `i` holds a piece of `team` that
/// attacks (`tx`, `ty`).
pub open spec fn attacker_index(
    bv: Seq<Option<Piece>>,
    team: Teams,
    i: int,
    tx: int,
    ty: int,
) -> bool {
    attacker_at(bv, team, i % 8, i / 8, tx, ty)
}

/// Some square with scan index below `n` holds a piece of `team` that
/// attacks (`tx`, `ty`).
pub open spec fn attacked_before(
    bv: Seq<Option<Piece>>,
    team: Teams,
    n: int,
    tx: int,
    ty: int,
) -> bool {
    exists|i: int| 0 <= i < n && #[trigger] attacker_index(bv, team, i, tx, ty)
}

/// Scanning all 64 squares finds an attacker exactly when one exists.
proof fn lemma_attacked_scan(bv: Seq<Option<Piece>>, team: Teams, tx: int, ty: int)
    ensures
        attacked(bv, team, tx, ty) <==> attacked_before(bv, team, 64, tx, ty),
{
    if attacked(bv, team, tx, ty) {
        let (ox, oy) = choose|ox: int, oy: int| #[trigger] attacker_at(bv, team, ox, oy, tx, ty);
        assert(square_at(bv, ox, oy) is Some);
        assert(in_bounds(ox, oy));
        let i = oy * 8 + ox;
        assert(i % 8 == ox && i / 8 == oy);
        assert(attacker_index(bv, team, i, tx, ty));
        assert(attacked_before(bv, team, 64, tx, ty));
    }
    if attacked_before(bv, team, 64, tx, ty) {
        let i = choose|i: int| 0 <= i < 64 && #[trigger] attacker_index(bv, team, i, tx, ty);
        assert(attacker_at(bv, team, i % 8, i / 8, tx, ty));
    }
}

/// One more scanned square extends the found-attacker predicate by
/// exactly that square.
proof fn lemma_attacked_before_step(
    bv: Seq<Option<Piece>>,
    team: Teams,
    n: int,
    tx: int,
    ty: int,
)
    requires
        0 <= n,
    ensures
        attacked_before(bv, team, n + 1, tx, ty) <==> attacked_before(bv, team, n, tx, ty)
            || attacker_index(bv, team, n, tx, ty),
{
    if attacked_before(bv, team, n + 1, tx, ty) {
        let i = choose|i: int| 0 <= i < n + 1 && #[trigger] attacker_index(bv, team, i, tx, ty);
        if i < n {
            assert(attacked_before(bv, team, n, tx, ty));
        }
    }
    if attacked_before(bv, team, n, tx, ty) {
        let i = choose|i: int| 0 <= i < n && #[trigger] attacker_index(bv, team, i, tx, ty);
        assert(attacked_before(bv, team, n + 1, tx, ty));
    }
    if attacker_index(bv, team, n, tx, ty) {
        assert(attacked_before(bv, team, n + 1, tx, ty));
    }
}

/// Collects the squares attacked by the piece `p` standing on `pos`.
fn piece_attacks(board: &Board, pos: &Pos, p: Piece) -> (result: Vec<Pos>)
    requires
        board.wf(),
        square_at(board@, pos.x as int, pos.y as int) == Some(p),
    ensures
        forall|d: Pos|
            result@.contains(d) <==> piece_attack(
                board@,
                pos.x as int,
                pos.y as int,
                p,
                d.x as int,
                d.y as int,
            ),
{
    proof {
        assert(in_bounds(pos.x as int, pos.y as int));
    }
    match p.role {
        Roles::Pawn => {
            let ghost bv = board@;
            let ghost oxi = pos.x as int;
            let ghost oyi = pos.y as int;
            let mut result: Vec<Pos> = Vec::new();
            let dir: i32 = if p.team == Teams::White {
                1
            } else {
                -1
            };
            proof {
                assert(dir as int == pawn_dir(p.team));
            }
            let left = pos.add(-1, dir);
            try_step(board, left, p.team, &mut result);
            let right = pos.add(1, dir);
            try_step(board, right, p.team, &mut result);
            proof {
                assert forall|d: Pos|
                    (result@.contains(d) <==> pawn_attack(
                        bv,
                        oxi,
                        oyi,
                        p.team,
                        d.x as int,
                        d.y as int,
                    )) by {
                    let txi = d.x as int;
                    let tyi = d.y as int;
                    if pawn_attack(bv, oxi, oyi, p.team, txi, tyi) {
                        if txi == oxi - 1 {
                            assert(d == left);
                        } else {
                            assert(d == right);
                        }
                    }
                };
            }
            result
        },
        _ => get_valid_moves(board, pos),
    }
}

/// Merging a piece's attack squares into the collected set adds exactly
/// the squares that piece attacks.
proof fn lemma_merge_attack(
    bv: Seq<Option<Piece>>,
    ox: int,
    oy: int,
    p: Piece,
    entry: Seq<Pos>,
    atk: Seq<Pos>,
    merged: Seq<Pos>,
)
    requires
        forall|d: Pos| atk.contains(d) <==> piece_attack(bv, ox, oy, p, d.x as int, d.y as int),
        forall|d: Pos| merged.contains(d) <==> entry.contains(d) || atk.contains(d),
    ensures
        forall|d: Pos|
            merged.contains(d) <==> entry.contains(d) || piece_attack(
                bv,
                ox,
                oy,
                p,
                d.x as int,
                d.y as int,
            ),
{
    assert forall|d: Pos|
        (merged.contains(d) <==> entry.contains(d) || piece_attack(
            bv,
            ox,
            oy,
            p,
            d.x as int,
            d.y as int,
        )) by {
        assert(merged.contains(d) <==> entry.contains(d) || atk.contains(d));
        assert(atk.contains(d) <==> piece_attack(bv, ox, oy, p, d.x as int, d.y as int));
    };
}

/// No square appears twice in `s`.
pub open spec fn distinct_squares(s: Seq<Pos>) -> bool {
    forall|i: int, j: int| 0 <= i < j < s.len() ==> s[i] != s[j]
}

/// Appends to `result` the members of `items` not already present, keeping
/// the members distinct.
fn merge_into(result: &mut Vec<Pos>, items: &Vec<Pos>)
    requires
        distinct_squares(old(result)@),
    ensures
        forall|d: Pos|
            final(result)@.contains(d) <==> old(result)@.contains(d) || items@.contains(d),
        distinct_squares(final(result)@),
{
    let mut j: usize = 0;
    while j < items.len()
        invariant
            0 <= j <= items@.len(),
            distinct_squares(result@),
            forall|d: Pos|
                result@.contains(d) <==> old(result)@.contains(d) || (exists|jj: int|
                    0 <= jj < j && items@[jj] == d),
        decreases items@.len() - j,
    {
        let a = items[j];
        let ghost mid = result@;
        if !contains_pos(result, &a) {
            push_pos(result, a);
            proof {
                assert forall|i2: int, j2: int|
                    0 <= i2 < j2 < result@.len() implies result@[i2] != result@[j2] by {
                    if j2 == result@.len() - 1 {
                        assert(result@[j2] == a);
                        assert(result@[i2] == mid[i2]);
                        assert(mid.contains(mid[i2]));
                    }
                };
            }
        }
        proof {
            assert(items@[j as int] == a);
            assert forall|d: Pos|
                (result@.contains(d) <==> old(result)@.contains(d) || (exists|jj: int|
                    0 <= jj < j + 1 && items@[jj] == d)) by {
                if result@.contains(d) && !old(result)@.contains(d) {
                    if d == a {
                        assert(0 <= j < j + 1 && items@[j as int] == d);
                    } else {
                        assert(mid.contains(d));
                        let jj = choose|jj: int| 0 <= jj < j && items@[jj] == d;
                        assert(0 <= jj < j + 1 && items@[jj] == d);
                    }
                }
                if exists|jj: int| 0 <= jj < j + 1 && items@[jj] == d {
                    let jj = choose|jj: int| 0 <= jj < j + 1 && items@[jj] == d;
                    if jj == j {
                        assert(d == a);
                        assert(result@.contains(d));
                    } else {
                        assert(exists|jj2: int| 0 <= jj2 < j && items@[jj2] == d);
                        assert(mid.contains(d));
                        assert(result@.contains(d));
                    }
                }
            };
        }
        j = j + 1;
    }
    proof {
        assert forall|d: Pos|
            (result@.contains(d) <==> old(result)@.contains(d) || items@.contains(d)) by {
            if result@.contains(d) && !old(result)@.contains(d) {
                let jj = choose|jj: int| 0 <= jj < j && items@[jj] == d;
                assert(items@[jj] == d);
                assert(items@.contains(d));
            }
            if items@.contains(d) {
                let jj = choose|jj: int| 0 <= jj < items@.len() && items@[jj] == d;
                assert(exists|jj2: int| 0 <= jj2 < j && items@[jj2] == d);
                assert(result@.contains(d));
            }
        };
    }
}

/// Returns the distinct squares attacked by the pieces of `team`, in scan
/// order of their attackers; the result holds no square twice.
#[verifier::rlimit(60)]
pub fn get_attacked_cells(board: &Board, team: &Teams) -> (result: Vec<Pos>)
    requires
        board.wf(),
    ensures
        forall|d: Pos| result@.contains(d) <==> attacked(board@, *team, d.x as int, d.y as int),
        distinct_squares(result@),
{
    let ghost bv = board@;
    let mut result: Vec<Pos> = Vec::new();
    let mut y: i32 = 0;
    while y < 8
        invariant
            board.wf(),
            board@ == bv,
            0 <= y <= 8,
            forall|d: Pos|
                result@.contains(d) <==> attacked_before(bv, *team, 8 * y, d.x as int, d.y as int),
            distinct_squares(result@),
        decreases 8 - y,
    {
        let mut x: i32 = 0;
        while x < 8
            invariant
                board.wf(),
                board@ == bv,
                0 <= y < 8,
                0 <= x <= 8,
                forall|d: Pos|
                    result@.contains(d) <==> attacked_before(
                        bv,
                        *team,
                        8 * y + x,
                        d.x as int,
                        d.y as int,
                    ),
                distinct_squares(result@),
            decreases 8 - x,
        {
            let ghost n: int = 8 * (y as int) + (x as int);
            proof {
                assert(n % 8 == x as int && n / 8 == y as int);
            }
            let pos = Pos { x, y };
            let occupant = board.get(&pos);
            let ghost entry = result@;
            let mut attacker = false;
            match occupant {
                Some(p) => {
                    if p.team == *team {
                        attacker = true;
                        let atk = piece_attacks(board, &pos, p);
                        let ghost pre = result@;
                        merge_into(&mut result, &atk);
                        proof {
                            assert(pre == entry);
                            assert forall|d: Pos|
                                (result@.contains(d) <==> pre.contains(d) || atk@.contains(
                                    d,
                                )) by {
                                let c1 = result@.contains(d);
                                let c2 = pre.contains(d);
                                let c3 = atk@.contains(d);
                            };
                            lemma_merge_attack(
                                bv,
                                pos.x as int,
                                pos.y as int,
                                p,
                                entry,
                                atk@,
                                result@,
                            );
                        }
                    }
                },
                None => {},
            }
            proof {
                assert forall|d: Pos|
                    (result@.contains(d) <==> attacked_before(
                        bv,
                        *team,
                        n + 1,
                        d.x as int,
                        d.y as int,
                    )) by {
                    let txi = d.x as int;
                    let tyi = d.y as int;
                    lemma_attacked_before_step(bv, *team, n, txi, tyi);
                    assert(attacker_index(bv, *team, n, txi, tyi) == attacker_at(
                        bv,
                        *team,
                        pos.x as int,
                        pos.y as int,
                        txi,
                        tyi,
                    ));
                    assert(result@.contains(d) || !result@.contains(d));
                    assert(entry.contains(d) || !entry.contains(d));
                };
            }
            x = x + 1;
        }
        y = y + 1;
    }
    proof {
        assert forall|d: Pos|
            (result@.contains(d) <==> attacked(bv, *team, d.x as int, d.y as int)) by {
            lemma_attacked_scan(bv, *team, d.x as int, d.y as int);
        };
    }
    result
}

/// The square (`x`, `y`) holds the king of `team`.
pub open spec fn king_square(bv: Seq<Option<Piece>>, team: Teams, x: int, y: int) -> bool {
    match square_at(bv, x, y) {
        Some(p) => p.role == Roles::King && p.team == team,
        None => false,
    }
}

/// `team` is in check: some king of `team` stands on a square attacked by
/// the opposing team. False when no such king is on the board.
pub open spec fn spec_in_check(bv: Seq<Option<Piece>>, team: Teams) -> bool {
    exists|kx: int, ky: int|
        #[trigger] king_square(bv, team, kx, ky) && attacked(bv, team.toggle(), kx, ky)
}

/// True when the king of `team` stands on a square attacked by the
/// opposing team.
pub fn in_check(board: &Board, team: &Teams) -> (r: bool)
    requires
        board.wf(),
    ensures
        r == spec_in_check(board@, *team),
{
    let ghost bv = board@;
    let enemy = team.toggle();
    let att = get_attacked_cells(board, &enemy);
    let mut y: i32 = 0;
    while y < 8
        invariant
            board.wf(),
            board@ == bv,
            0 <= y <= 8,
            forall|d: Pos| att@.contains(d) <==> attacked(bv, enemy, d.x as int, d.y as int),
            enemy == team.toggle(),
            forall|xx: int, yy: int|
                0 <= xx < 8 && 0 <= yy < y ==> !(#[trigger] king_square(bv, *team, xx, yy)
                    && attacked(bv, team.toggle(), xx, yy)),
        decreases 8 - y,
    {
        let mut x: i32 = 0;
        while x < 8
            invariant
                board.wf(),
                board@ == bv,
                0 <= y < 8,
                0 <= x <= 8,
                forall|d: Pos| att@.contains(d) <==> attacked(bv, enemy, d.x as int, d.y as int),
                enemy == team.toggle(),
                forall|xx: int, yy: int|
                    0 <= xx < 8 && 0 <= yy < y ==> !(#[trigger] king_square(bv, *team, xx, yy)
                        && attacked(bv, team.toggle(), xx, yy)),
                forall|xx: int|
                    0 <= xx < x ==> !(#[trigger] king_square(bv, *team, xx, y as int) && attacked(
                        bv,
                        team.toggle(),
                        xx,
                        y as int,
                    )),
            decreases 8 - x,
        {
            let pos = Pos { x, y };
            let mut is_king = false;
            match board.get(&pos) {
                Some(p) => {
                    if p.role == Roles::King && p.team == *team {
                        is_king = true;
                        if contains_pos(&att, &pos) {
                            proof {
                                assert(att@.contains(pos));
                                assert(attacked(bv, team.toggle(), x as int, y as int));
                                assert(king_square(bv, *team, x as int, y as int));
                            }
                            return true;
                        }
                    }
                },
                None => {},
            }
            proof {
                assert(!(king_square(bv, *team, x as int, y as int) && attacked(
                    bv,
                    team.toggle(),
                    x as int,
                    y as int,
                ))) by {
                    if is_king {
                        let c = att@.contains(pos);
                    } else {
                        assert(!king_square(bv, *team, x as int, y as int));
                    }
                };
            }
            x = x + 1;
        }
        y = y + 1;
    }
    proof {
        if spec_in_check(bv, *team) {
            let (kx, ky) = choose|kx: int, ky: int|
                #[trigger] king_square(bv, *team, kx, ky) && attacked(bv, team.toggle(), kx, ky);
            assert(square_at(bv, kx, ky) is Some);
            assert(in_bounds(kx, ky));
            assert(false);
        }
    }
    false
}

/// The check state that a row-major scan of the first `n` squares leaves
/// behind: the team of the last checked king found, if any.
pub open spec fn check_scan(bv: Seq<Option<Piece>>, n: int) -> Option<Teams>
    decreases n,
{
    if n <= 0 {
        None
    } else {
        match square_at(bv, (n - 1) % 8, (n - 1) / 8) {
            Some(p) => if p.role == Roles::King && attacked(
                bv,
                p.team.toggle(),
                (n - 1) % 8,
                (n - 1) / 8,
            ) {
                Some(p.team)
            } else {
                check_scan(bv, n - 1)
            },
            None => check_scan(bv, n - 1),
        }
    }
}

/// A team reported by the scan really is in check.
proof fn lemma_check_scan_some(bv: Seq<Option<Piece>>, n: int)
    requires
        check_scan(bv, n) is Some,
    ensures
        spec_in_check(bv, check_scan(bv, n)->Some_0),
    decreases n,
{
    let x = (n - 1) % 8;
    let y = (n - 1) / 8;
    match square_at(bv, x, y) {
        Some(p) => {
            if p.role == Roles::King && attacked(bv, p.team.toggle(), x, y) {
                assert(king_square(bv, p.team, x, y));
            } else {
                lemma_check_scan_some(bv, n - 1);
            }
        },
        None => {
            lemma_check_scan_some(bv, n - 1);
        },
    }
}

/// When the scan reports no check, no king scanned so far is attacked.
proof fn lemma_check_scan_none(bv: Seq<Option<Piece>>, n: int, x: int, y: int)
    requires
        check_scan(bv, n) is None,
        0 <= x < 8,
        0 <= y < 8,
        y * 8 + x < n,
    ensures
        !(square_at(bv, x, y) matches Some(p) && p.role == Roles::King && attacked(
            bv,
            p.team.toggle(),
            x,
            y,
        )),
    decreases n,
{
    if y * 8 + x == n - 1 {
        assert((n - 1) % 8 == x && (n - 1) / 8 == y);
    } else {
        lemma_check_scan_none(bv, n - 1, x, y);
    }
}

/// Recomputes which team, if any, has a king on an attacked square, the
/// way a full row-major scan reports it.
pub fn update_check_state(board: &Board, check: &mut Check)
    requires
        board.wf(),
    ensures
        final(check).0 == check_scan(board@, 64),
        final(check).0 matches Some(t) ==> spec_in_check(board@, t),
        final(check).0 is None ==> forall|t: Teams| !spec_in_check(board@, t),
{
    let ghost bv = board@;
    check.0 = None;
    let mut y: i32 = 0;
    while y < 8
        invariant
            board.wf(),
            board@ == bv,
            0 <= y <= 8,
            check.0 == check_scan(bv, 8 * y),
        decreases 8 - y,
    {
        let mut x: i32 = 0;
        while x < 8
            invariant
                board.wf(),
                board@ == bv,
                0 <= y < 8,
                0 <= x <= 8,
                check.0 == check_scan(bv, 8 * y + x),
            decreases 8 - x,
        {
            let ghost n: int = 8 * (y as int) + (x as int);
            proof {
                assert(n % 8 == x as int && n / 8 == y as int);
            }
            let pos = Pos { x, y };
            match board.get(&pos) {
                Some(p) => {
                    if p.role == Roles::King {
                        let enemy = p.team.toggle();
                        let att = get_attacked_cells(board, &enemy);
                        if contains_pos(&att, &pos) {
                            check.0 = Some(p.team);
                            proof {
                                assert(att@.contains(pos));
                                assert(attacked(bv, p.team.toggle(), x as int, y as int));
                            }
                        } else {
                            proof {
                                assert(!att@.contains(pos));
                                assert(!attacked(bv, p.team.toggle(), x as int, y as int)) by {
                                    let c = att@.contains(pos);
                                };
                            }
                        }
                    }
                },
                None => {},
            }
            x = x + 1;
        }
        y = y + 1;
    }
    proof {
        if check.0 is Some {
            lemma_check_scan_some(bv, 64);
        }
        if check.0 is None {
            assert forall|t: Teams| !spec_in_check(bv, t) by {
                if spec_in_check(bv, t) {
                    let (kx, ky) = choose|kx: int, ky: int|
                        #[trigger] king_square(bv, t, kx, ky) && attacked(
                            bv,
                            t.toggle(),
                            kx,
                            ky,
                        );
                    assert(square_at(bv, kx, ky) is Some);
                    assert(in_bounds(kx, ky));
                    lemma_check_scan_none(bv, 64, kx, ky);
                }
            };
        }
    }
}

/// On a board holding nothing but the two kings, the squares attacked by a
/// team are exactly the squares adjacent to its own king: the attack map
/// has the same shape for either side, with the two kings exchanged.
pub proof fn lemma_attacked_two_kings(
    bv: Seq<Option<Piece>>,
    team: Teams,
    kx: int,
    ky: int,
    ex: int,
    ey: int,
    tx: int,
    ty: int,
)
    requires
        in_bounds(kx, ky),
        in_bounds(ex, ey),
        !(kx == ex && ky == ey),
        king_square(bv, team, kx, ky),
        king_square(bv, team.toggle(), ex, ey),
        forall|x: int, y: int|
            in_bounds(x, y) && !(x == kx && y == ky) && !(x == ex && y == ey)
                ==> #[trigger] square_at(bv, x, y) is None,
    ensures
        attacked(bv, team, tx, ty) <==> (in_bounds(tx, ty) && kx - 1 <= tx <= kx + 1 && ky - 1
            <= ty <= ky + 1 && !(tx == kx && ty == ky)),
{
    if attacked(bv, team, tx, ty) {
        let (ox, oy) = choose|ox: int, oy: int| #[trigger] attacker_at(bv, team, ox, oy, tx, ty);
        assert(square_at(bv, ox, oy) is Some);
        assert(in_bounds(ox, oy));
        if !(ox == kx && oy == ky) && !(ox == ex && oy == ey) {
            assert(square_at(bv, ox, oy) is None);
        }
        assert(ox == kx && oy == ky);
    }
    if in_bounds(tx, ty) && kx - 1 <= tx <= kx + 1 && ky - 1 <= ty <= ky + 1 && !(tx == kx && ty
        == ky) {
        if !(tx == kx && ty == ky) && !(tx == ex && ty == ey) {
            assert(square_at(bv, tx, ty) is None);
        }
        assert(!crate::moves::team_at(bv, tx, ty, team));
        assert(attacker_at(bv, team, kx, ky, tx, ty));
        assert(attacked(bv, team, tx, ty));
    }
}

} // verus!
