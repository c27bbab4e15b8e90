//! Pseudo-legal move generation, making a move, and legal moves.
use vstd::prelude::*;
use crate::board::{abs, is_on_board, move_of, on_board, piece_type, rank, file, sign, signum, Board, Mv, Pos, Snapshot, B, K, N, P, Q, R};
use crate::attack::{attacked, has_king, in_check, lemma_first_index_found};
use crate::enpassant::snap_of;

verus! {

/// The pawn moves from `from` to `to`: the four promotions (queen, rook,
/// bishop, knight) when `promote`, else the plain move.
pub open spec fn pawn_to(from: int, to: int, promote: bool) -> Seq<Mv> {
    if promote {
        seq![move_of(from, to, 5), move_of(from, to, 4), move_of(from, to, 3), move_of(from, to, 2)]
    } else {
        seq![move_of(from, to, 0)]
    }
}

/// A diagonal pawn step from `from` onto (r1, f1): a capture of an enemy
/// piece, or else a move onto the en passant square.
pub open spec fn pawn_capture(p: Pos, from: int, r1: int, f1: int, promo_rank: int) -> Seq<Mv> {
    if !on_board(r1, f1) {
        seq![]
    } else {
        let to = r1 * 8 + f1;
        let t = p.sq[to] as int;
        if t != 0 && sign(t) == -p.side {
            pawn_to(from, to, r1 == promo_rank)
        } else if to == p.ep {
            seq![move_of(from, to, 0)]
        } else {
            seq![]
        }
    }
}

/// The pawn's pushes: one square forward onto an empty square (with
/// promotions on the last rank), then two squares from the start rank
/// when that square is empty too.
pub open spec fn pawn_pushes(p: Pos, from: int) -> Seq<Mv> {
    let s = p.side as int;
    let r0 = from / 8;
    let f0 = from % 8;
    let start_rank = if s == 1 { 1int } else { 6int };
    let promo_rank = if s == 1 { 7int } else { 0int };
    let r1 = r0 + s;
    if on_board(r1, f0) && p.sq[r1 * 8 + f0] == 0 {
        pawn_to(from, r1 * 8 + f0, r1 == promo_rank) + if r0 == start_rank && p.sq[(r0 + 2 * s)
            * 8 + f0] == 0 {
            seq![move_of(from, (r0 + 2 * s) * 8 + f0, 0)]
        } else {
            seq![]
        }
    } else {
        seq![]
    }
}

/// Pawn moves: pushes, then captures towards the a-side and towards the h-side.
pub open spec fn pawn_moves(p: Pos, from: int) -> Seq<Mv> {
    let s = p.side as int;
    let promo_rank = if s == 1 { 7int } else { 0int };
    let r1 = from / 8 + s;
    pawn_pushes(p, from) + pawn_capture(p, from, r1, from % 8 - 1, promo_rank) + pawn_capture(
        p,
        from,
        r1,
        from % 8 + 1,
        promo_rank,
    )
}

/// A single step onto (r, f) when it is on the board and not held by a
/// piece of the side to move.
pub open spec fn step_to(p: Pos, from: int, r: int, f: int) -> Seq<Mv> {
    if on_board(r, f) && sign(p.sq[r * 8 + f] as int) != p.side {
        seq![move_of(from, r * 8 + f, 0)]
    } else {
        seq![]
    }
}

pub open spec fn knight_moves(p: Pos, from: int) -> Seq<Mv> {
    let r = from / 8;
    let f = from % 8;
    step_to(p, from, r + 1, f + 2) + step_to(p, from, r + 2, f + 1) + step_to(p, from, r - 1, f + 2)
        + step_to(p, from, r - 2, f + 1) + step_to(p, from, r + 1, f - 2) + step_to(
        p,
        from,
        r + 2,
        f - 1,
    ) + step_to(p, from, r - 1, f - 2) + step_to(p, from, r - 2, f - 1)
}

pub open spec fn king_steps(p: Pos, from: int) -> Seq<Mv> {
    let r = from / 8;
    let f = from % 8;
    step_to(p, from, r - 1, f - 1) + step_to(p, from, r - 1, f) + step_to(p, from, r - 1, f + 1)
        + step_to(p, from, r, f - 1) + step_to(p, from, r, f + 1) + step_to(p, from, r + 1, f - 1)
        + step_to(p, from, r + 1, f) + step_to(p, from, r + 1, f + 1)
}

/// Castling, for the king standing on its home square while not in check:
/// king side when the right is held, the two squares between are empty and
/// not attacked; queen side when the right is held, the three squares
/// between are empty and the two the king crosses are not attacked.
pub open spec fn castle_moves(p: Pos, from: int) -> Seq<Mv> {
    let s = p.side as int;
    let kfrom = if s == 1 { 4int } else { 60int };
    let kbit: u8 = if s == 1 { 1 } else { 4 };
    let qbit: u8 = if s == 1 { 2 } else { 8 };
    let r0 = if s == 1 { 0int } else { 7int };
    if from == kfrom && !in_check(p, s) {
        (if p.castle & kbit != 0 && p.sq[r0 * 8 + 5] == 0 && p.sq[r0 * 8 + 6] == 0 && !attacked(
            p,
            r0 * 8 + 5,
            -s,
        ) && !attacked(p, r0 * 8 + 6, -s) {
            seq![move_of(from, r0 * 8 + 6, 0)]
        } else {
            seq![]
        }) + (if p.castle & qbit != 0 && p.sq[r0 * 8 + 1] == 0 && p.sq[r0 * 8 + 2] == 0 && p.sq[r0
            * 8 + 3] == 0 && !attacked(p, r0 * 8 + 3, -s) && !attacked(p, r0 * 8 + 2, -s) {
            seq![move_of(from, r0 * 8 + 2, 0)]
        } else {
            seq![]
        })
    } else {
        seq![]
    }
}

/// The moves along a ray from (r, f) in direction (dr, df): every empty
/// square, then the first occupied one if it holds an enemy piece.
pub open spec fn ray_moves(p: Pos, from: int, r: int, f: int, dr: int, df: int, n: nat) -> Seq<Mv>
    decreases n,
{
    if n == 0 || !on_board(r, f) {
        seq![]
    } else {
        let t = p.sq[r * 8 + f] as int;
        if t == 0 {
            seq![move_of(from, r * 8 + f, 0)] + ray_moves(p, from, r + dr, f + df, dr, df, (n - 1) as nat)
        } else if sign(t) != p.side {
            seq![move_of(from, r * 8 + f, 0)]
        } else {
            seq![]
        }
    }
}

pub open spec fn ray_from(p: Pos, from: int, dr: int, df: int) -> Seq<Mv> {
    ray_moves(p, from, from / 8 + dr, from % 8 + df, dr, df, 8)
}

pub open spec fn bishop_moves(p: Pos, from: int) -> Seq<Mv> {
    ray_from(p, from, 1, 1) + ray_from(p, from, 1, -1) + ray_from(p, from, -1, 1) + ray_from(
        p,
        from,
        -1,
        -1,
    )
}

pub open spec fn rook_moves(p: Pos, from: int) -> Seq<Mv> {
    ray_from(p, from, 1, 0) + ray_from(p, from, -1, 0) + ray_from(p, from, 0, 1) + ray_from(
        p,
        from,
        0,
        -1,
    )
}

/// The pseudo-legal moves of the piece on `from`, when it belongs to the side to move.
pub open spec fn piece_moves(p: Pos, from: int) -> Seq<Mv> {
    let x = p.sq[from] as int;
    if x == 0 || sign(x) != p.side {
        seq![]
    } else if abs(x) == 1 {
        pawn_moves(p, from)
    } else if abs(x) == 2 {
        knight_moves(p, from)
    } else if abs(x) == 6 {
        king_steps(p, from) + castle_moves(p, from)
    } else if abs(x) == 3 {
        bishop_moves(p, from)
    } else if abs(x) == 4 {
        rook_moves(p, from)
    } else {
        bishop_moves(p, from) + rook_moves(p, from)
    }
}

/// The pseudo-legal moves of the pieces on the first `n` squares, square by square.
pub open spec fn pseudo_upto(p: Pos, n: int) -> Seq<Mv>
    decreases n,
{
    if n <= 0 {
        seq![]
    } else {
        pseudo_upto(p, n - 1) + piece_moves(p, n - 1)
    }
}

/// All pseudo-legal moves of the side to move, ordered by origin square (a1 first).
pub open spec fn pseudo_moves(p: Pos) -> Seq<Mv> {
    pseudo_upto(p, 64)
}

/// Origin and destination are squares and the promotion is 0 (none) or
/// a knight, bishop, rook or queen.
pub open spec fn valid_mv(m: Mv) -> bool {
    &&& 0 <= m.from < 64
    &&& 0 <= m.to < 64
    &&& (m.promo == 0 || 2 <= m.promo <= 5)
}

/// Every move of `ms` starts on `from` and is valid.
pub open spec fn moves_from(ms: Seq<Mv>, from: int) -> bool {
    forall|i: int| 0 <= i < ms.len() ==> (#[trigger] ms[i]).from == from && valid_mv(ms[i])
}

pub open spec fn all_valid(ms: Seq<Mv>) -> bool {
    forall|i: int| 0 <= i < ms.len() ==> valid_mv(#[trigger] ms[i])
}

/// The squares after making `m`: an en passant capture removes the pawn
/// passed by, castling moves the rook, then the mover (or its promotion)
/// lands on `to` and `from` is emptied.
pub open spec fn make_squares(p: Pos, m: Mv) -> Seq<i8> {
    let s = p.side as int;
    let piece = p.sq[m.from as int];
    let pt = abs(piece as int);
    let from = m.from as int;
    let to = m.to as int;
    let s1 = if pt == 1 && to == p.ep && to % 8 != from % 8 {
        p.sq.update((from / 8) * 8 + to % 8, 0)
    } else {
        p.sq
    };
    let s2 = if pt == 6 && abs(to - from) == 2 {
        let r0 = from / 8;
        if to > from {
            s1.update(r0 * 8 + 5, s1[r0 * 8 + 7]).update(r0 * 8 + 7, 0)
        } else {
            s1.update(r0 * 8 + 3, s1[r0 * 8]).update(r0 * 8, 0)
        }
    } else {
        s1
    };
    s2.update(to, if m.promo != 0 { (m.promo * s) as i8 } else { piece }).update(from, 0)
}

/// Castling rights after `m`: a move from or to a rook's home corner
/// drops that right, a king move drops both rights of its side.
pub open spec fn make_castle(p: Pos, m: Mv) -> u8 {
    let c0 = p.castle;
    let c1 = if m.from == 0 || m.to == 0 { c0 & !2u8 } else { c0 };
    let c2 = if m.from == 7 || m.to == 7 { c1 & !1u8 } else { c1 };
    let c3 = if m.from == 56 || m.to == 56 { c2 & !8u8 } else { c2 };
    let c4 = if m.from == 63 || m.to == 63 { c3 & !4u8 } else { c3 };
    if abs(p.sq[m.from as int] as int) == 6 {
        c4 & (if p.side == 1 { !3u8 } else { !12u8 })
    } else {
        c4
    }
}

/// The en passant square after `m`: the square passed by a double pawn push, else -1.
pub open spec fn make_ep(p: Pos, m: Mv) -> i8 {
    if abs(p.sq[m.from as int] as int) == 1 && abs(m.to - m.from) == 16 {
        ((m.from + m.to) / 2) as i8
    } else {
        -1i8
    }
}

/// The half-move clock after `m`: reset by a pawn move or a capture, else one more.
pub open spec fn make_half(p: Pos, m: Mv) -> u16 {
    if abs(p.sq[m.from as int] as int) == 1 || p.sq[m.to as int] != 0 {
        0
    } else {
        (p.half + 1) as u16
    }
}

/// The position after making `m` (no legality check): the other side is
/// to move and the new position is appended to the history.
pub open spec fn make_pos(p: Pos, m: Mv) -> Pos {
    let sq = make_squares(p, m);
    let side = (-p.side) as i8;
    let castle = make_castle(p, m);
    let ep = make_ep(p, m);
    Pos { sq, side, castle, ep, half: make_half(p, m), hist: p.hist.push(snap_of(sq, side, castle, ep)) }
}

/// Making `m` does not overflow the half-move clock.
pub open spec fn make_ok(p: Pos, m: Mv) -> bool {
    p.half < 65535 || abs(p.sq[m.from as int] as int) == 1 || p.sq[m.to as int] != 0
}

/// After `m`, the side that made it is not in check.
pub open spec fn leaves_king_safe(p: Pos, m: Mv) -> bool {
    !in_check(make_pos(p, m), p.side as int)
}

/// The legal moves: the pseudo-legal moves, in order, that do not leave
/// the mover's king attacked.
pub open spec fn legal_moves(p: Pos) -> Seq<Mv> {
    pseudo_moves(p).filter(|m: Mv| leaves_king_safe(p, m))
}

/// Every pseudo-legal move can be made and testing it for check finds the mover's king.
pub open spec fn legal_ok(p: Pos) -> bool {
    forall|i: int|
        0 <= i < pseudo_moves(p).len() ==> make_ok(p, #[trigger] pseudo_moves(p)[i]) && has_king(
            make_pos(p, pseudo_moves(p)[i]),
            p.side as int,
        )
}

pub proof fn lemma_moves_from_add(a: Seq<Mv>, b: Seq<Mv>, from: int)
    requires
        moves_from(a, from),
        moves_from(b, from),
    ensures
        moves_from(a + b, from),
{
    assert forall|i: int| 0 <= i < (a + b).len() implies (#[trigger] (a + b)[i]).from == from
        && valid_mv((a + b)[i]) by {
        if i < a.len() {
            assert((a + b)[i] == a[i]);
        } else {
            assert((a + b)[i] == b[i - a.len()]);
        }
    }
}

proof fn lemma_ray_from(p: Pos, from: int, r: int, f: int, dr: int, df: int, n: nat)
    requires
        0 <= from < 64,
    ensures
        moves_from(ray_moves(p, from, r, f, dr, df, n), from),
    decreases n,
{
    if n > 0 && on_board(r, f) {
        lemma_ray_from(p, from, r + dr, f + df, dr, df, (n - 1) as nat);
        let t = p.sq[r * 8 + f] as int;
        if t == 0 {
            lemma_moves_from_add(
                seq![move_of(from, r * 8 + f, 0)],
                ray_moves(p, from, r + dr, f + df, dr, df, (n - 1) as nat),
                from,
            );
        }
    }
}

proof fn lemma_pawn_to_from(from: int, to: int, promote: bool)
    requires
        0 <= from < 64,
        0 <= to < 64,
    ensures
        moves_from(pawn_to(from, to, promote), from),
{
}

/// Every pseudo-legal move of the piece on `from` starts there and is valid.
pub proof fn lemma_piece_moves_from(p: Pos, from: int)
    requires
        p.wf(),
        0 <= from < 64,
    ensures
        moves_from(piece_moves(p, from), from),
{
    let x = p.sq[from] as int;
    let r = from / 8;
    let f = from % 8;
    if x == 0 || sign(x) != p.side {
    } else if abs(x) == 1 {
        let s = p.side as int;
        let promo_rank = if s == 1 { 7int } else { 0int };
        let r1 = r + s;
        let start_rank = if s == 1 { 1int } else { 6int };
        if on_board(r1, f) && p.sq[r1 * 8 + f] == 0 {
            lemma_pawn_to_from(from, r1 * 8 + f, r1 == promo_rank);
            if r == start_rank && p.sq[(r + 2 * s) * 8 + f] == 0 {
                lemma_moves_from_add(
                    pawn_to(from, r1 * 8 + f, r1 == promo_rank),
                    seq![move_of(from, (r + 2 * s) * 8 + f, 0)],
                    from,
                );
            }
        }
        let pushes = pawn_pushes(p, from);
        assert(moves_from(pushes, from));
        let c1 = pawn_capture(p, from, r1, f - 1, promo_rank);
        let c2 = pawn_capture(p, from, r1, f + 1, promo_rank);
        if on_board(r1, f - 1) {
            lemma_pawn_to_from(from, r1 * 8 + f - 1, r1 == promo_rank);
        }
        if on_board(r1, f + 1) {
            lemma_pawn_to_from(from, r1 * 8 + f + 1, r1 == promo_rank);
        }
        assert(moves_from(c1, from));
        assert(moves_from(c2, from));
        lemma_moves_from_add(pushes, c1, from);
        lemma_moves_from_add(pushes + c1, c2, from);
    } else if abs(x) == 2 || abs(x) == 6 {
        if abs(x) == 2 {
            lemma_moves_from_add(step_to(p, from, r + 1, f + 2), step_to(p, from, r + 2, f + 1), from);
            let a2 = step_to(p, from, r + 1, f + 2) + step_to(p, from, r + 2, f + 1);
            lemma_moves_from_add(a2, step_to(p, from, r - 1, f + 2), from);
            let a3 = a2 + step_to(p, from, r - 1, f + 2);
            lemma_moves_from_add(a3, step_to(p, from, r - 2, f + 1), from);
            let a4 = a3 + step_to(p, from, r - 2, f + 1);
            lemma_moves_from_add(a4, step_to(p, from, r + 1, f - 2), from);
            let a5 = a4 + step_to(p, from, r + 1, f - 2);
            lemma_moves_from_add(a5, step_to(p, from, r + 2, f - 1), from);
            let a6 = a5 + step_to(p, from, r + 2, f - 1);
            lemma_moves_from_add(a6, step_to(p, from, r - 1, f - 2), from);
            let a7 = a6 + step_to(p, from, r - 1, f - 2);
            lemma_moves_from_add(a7, step_to(p, from, r - 2, f - 1), from);
        } else {
            lemma_moves_from_add(step_to(p, from, r - 1, f - 1), step_to(p, from, r - 1, f), from);
            let a2 = step_to(p, from, r - 1, f - 1) + step_to(p, from, r - 1, f);
            lemma_moves_from_add(a2, step_to(p, from, r - 1, f + 1), from);
            let a3 = a2 + step_to(p, from, r - 1, f + 1);
            lemma_moves_from_add(a3, step_to(p, from, r, f - 1), from);
            let a4 = a3 + step_to(p, from, r, f - 1);
            lemma_moves_from_add(a4, step_to(p, from, r, f + 1), from);
            let a5 = a4 + step_to(p, from, r, f + 1);
            lemma_moves_from_add(a5, step_to(p, from, r + 1, f - 1), from);
            let a6 = a5 + step_to(p, from, r + 1, f - 1);
            lemma_moves_from_add(a6, step_to(p, from, r + 1, f), from);
            let a7 = a6 + step_to(p, from, r + 1, f);
            lemma_moves_from_add(a7, step_to(p, from, r + 1, f + 1), from);
            let s = p.side as int;
            let r0 = if s == 1 { 0int } else { 7int };
            let ks: Seq<Mv> = seq![move_of(from, r0 * 8 + 6, 0)];
            let qs: Seq<Mv> = seq![move_of(from, r0 * 8 + 2, 0)];
            lemma_moves_from_add(ks, qs, from);
            lemma_moves_from_add(ks, seq![], from);
            lemma_moves_from_add(seq![], qs, from);
            lemma_moves_from_add(seq![], seq![], from);
            assert(moves_from(castle_moves(p, from), from));
            lemma_moves_from_add(king_steps(p, from), castle_moves(p, from), from);
        }
    } else {
        lemma_ray_from(p, from, r + 1, f + 1, 1, 1, 8);
        lemma_ray_from(p, from, r + 1, f - 1, 1, -1, 8);
        lemma_ray_from(p, from, r - 1, f + 1, -1, 1, 8);
        lemma_ray_from(p, from, r - 1, f - 1, -1, -1, 8);
        lemma_ray_from(p, from, r + 1, f, 1, 0, 8);
        lemma_ray_from(p, from, r - 1, f, -1, 0, 8);
        lemma_ray_from(p, from, r, f + 1, 0, 1, 8);
        lemma_ray_from(p, from, r, f - 1, 0, -1, 8);
        let d1 = ray_from(p, from, 1, 1);
        let d2 = ray_from(p, from, 1, -1);
        let d3 = ray_from(p, from, -1, 1);
        let d4 = ray_from(p, from, -1, -1);
        lemma_moves_from_add(d1, d2, from);
        lemma_moves_from_add(d1 + d2, d3, from);
        lemma_moves_from_add(d1 + d2 + d3, d4, from);
        let o1 = ray_from(p, from, 1, 0);
        let o2 = ray_from(p, from, -1, 0);
        let o3 = ray_from(p, from, 0, 1);
        let o4 = ray_from(p, from, 0, -1);
        lemma_moves_from_add(o1, o2, from);
        lemma_moves_from_add(o1 + o2, o3, from);
        lemma_moves_from_add(o1 + o2 + o3, o4, from);
        lemma_moves_from_add(bishop_moves(p, from), rook_moves(p, from), from);
    }
}

/// Every pseudo-legal move is valid and starts on a square below `n`.
pub proof fn lemma_pseudo_upto_valid(p: Pos, n: int)
    requires
        p.wf(),
        0 <= n <= 64,
    ensures
        all_valid(pseudo_upto(p, n)),
        forall|i: int| 0 <= i < pseudo_upto(p, n).len() ==> (#[trigger] pseudo_upto(p, n)[i]).from < n,
    decreases n,
{
    if n > 0 {
        lemma_pseudo_upto_valid(p, n - 1);
        lemma_piece_moves_from(p, n - 1);
        let a = pseudo_upto(p, n - 1);
        let b = piece_moves(p, n - 1);
        assert forall|i: int| 0 <= i < (a + b).len() implies valid_mv(#[trigger] (a + b)[i]) && (a
            + b)[i].from < n by {
            if i < a.len() {
                assert((a + b)[i] == a[i]);
            } else {
                assert((a + b)[i] == b[i - a.len()]);
            }
        }
    }
}


proof fn lemma_assoc(x: Seq<Mv>, a: Seq<Mv>, b: Seq<Mv>)
    ensures
        (x + a) + b == x + (a + b),
{
    assert((x + a) + b =~= x + (a + b));
}

/// Append the pawn moves from `from` to `to`: the four promotions when
/// `promote`, else the plain move.
pub fn push_pawn(mv: &mut Vec<Mv>, from: i8, to: i8, promote: bool)
    requires
        0 <= from < 64,
        0 <= to < 64,
    ensures
        final(mv)@ == old(mv)@ + pawn_to(from as int, to as int, promote),
{
    if promote {
        mv.push(Mv { from, to, promo: Q });
        mv.push(Mv { from, to, promo: R });
        mv.push(Mv { from, to, promo: B });
        mv.push(Mv { from, to, promo: N });
    } else {
        mv.push(Mv { from, to, promo: 0 });
    }
    assert(mv@ =~= old(mv)@ + pawn_to(from as int, to as int, promote));
}

impl Board {
    fn gen_pawn_capture(&self, from: i8, r1: i8, f1: i8, promo_rank: i8, mv: &mut Vec<Mv>)
        requires
            self@.wf(),
            0 <= from < 64,
            -1 <= r1 <= 8,
            -1 <= f1 <= 8,
        ensures
            final(mv)@ == old(mv)@ + pawn_capture(self@, from as int, r1 as int, f1 as int, promo_rank as int),
    {
        if !is_on_board(r1, f1) {
            assert(mv@ =~= old(mv)@ + pawn_capture(self@, from as int, r1 as int, f1 as int, promo_rank as int));
            return;
        }
        let to = r1 * 8 + f1;
        let target = self.sq[to as usize];
        if target != 0 && signum(target) == -self.side {
            push_pawn(mv, from, to, r1 == promo_rank);
        } else if to == self.ep {
            mv.push(Mv { from, to, promo: 0 });
        }
        assert(mv@ =~= old(mv)@ + pawn_capture(self@, from as int, r1 as int, f1 as int, promo_rank as int));
    }

    fn gen_pawn_pushes(&self, from: i8, mv: &mut Vec<Mv>)
        requires
            self@.wf(),
            0 <= from < 64,
        ensures
            final(mv)@ == old(mv)@ + pawn_pushes(self@, from as int),
    {
        let s = self.side;
        let r0 = rank(from);
        let f0 = file(from);
        let start_rank: i8 = if s == 1 { 1 } else { 6 };
        let promo_rank: i8 = if s == 1 { 7 } else { 0 };
        let r1 = r0 + s;
        if is_on_board(r1, f0) && self.sq[(r1 * 8 + f0) as usize] == 0 {
            push_pawn(mv, from, r1 * 8 + f0, r1 == promo_rank);
            if r0 == start_rank {
                let r2 = r0 + 2 * s;
                if self.sq[(r2 * 8 + f0) as usize] == 0 {
                    mv.push(Mv { from, to: r2 * 8 + f0, promo: 0 });
                }
            }
            assert(mv@ =~= old(mv)@ + pawn_pushes(self@, from as int));
        } else {
            assert(mv@ =~= old(mv)@ + pawn_pushes(self@, from as int));
        }
    }

    fn gen_pawn(&self, from: i8, mv: &mut Vec<Mv>)
        requires
            self@.wf(),
            0 <= from < 64,
        ensures
            final(mv)@ == old(mv)@ + pawn_moves(self@, from as int),
    {
        let s = self.side;
        let promo_rank: i8 = if s == 1 { 7 } else { 0 };
        let r1 = rank(from) + s;
        let f0 = file(from);
        let ghost p = self@;
        let ghost m0 = mv@;
        self.gen_pawn_pushes(from, mv);
        self.gen_pawn_capture(from, r1, f0 - 1, promo_rank, mv);
        proof {
            lemma_assoc(m0, pawn_pushes(p, from as int), pawn_capture(p, from as int, r1 as int, f0 - 1, promo_rank as int));
        }
        self.gen_pawn_capture(from, r1, f0 + 1, promo_rank, mv);
        proof {
            lemma_assoc(m0, pawn_pushes(p, from as int) + pawn_capture(p, from as int, r1 as int, f0 - 1, promo_rank as int),
                pawn_capture(p, from as int, r1 as int, f0 + 1, promo_rank as int));
        }
    }

    fn gen_step(&self, from: i8, r: i8, f: i8, mv: &mut Vec<Mv>)
        requires
            self@.wf(),
            0 <= from < 64,
            -2 <= r <= 9,
            -2 <= f <= 9,
        ensures
            final(mv)@ == old(mv)@ + step_to(self@, from as int, r as int, f as int),
    {
        if is_on_board(r, f) {
            let t = self.sq[(r * 8 + f) as usize];
            if signum(t) != self.side {
                mv.push(Mv { from, to: r * 8 + f, promo: 0 });
            }
        }
        assert(mv@ =~= old(mv)@ + step_to(self@, from as int, r as int, f as int));
    }

    fn gen_knight(&self, from: i8, mv: &mut Vec<Mv>)
        requires
            self@.wf(),
            0 <= from < 64,
        ensures
            final(mv)@ == old(mv)@ + knight_moves(self@, from as int),
    {
        let ghost p = self@;
        let ghost x = from as int;
        let ghost m0 = mv@;
        let r0 = rank(from);
        let f0 = file(from);
        self.gen_step(from, r0 + 1, f0 + 2, mv);
        let ghost a1 = step_to(p, x, r0 + 1, f0 + 2);
        self.gen_step(from, r0 + 2, f0 + 1, mv);
        let ghost a2 = a1 + step_to(p, x, r0 + 2, f0 + 1);
        proof { lemma_assoc(m0, a1, step_to(p, x, r0 + 2, f0 + 1)); }
        self.gen_step(from, r0 - 1, f0 + 2, mv);
        let ghost a3 = a2 + step_to(p, x, r0 - 1, f0 + 2);
        proof { lemma_assoc(m0, a2, step_to(p, x, r0 - 1, f0 + 2)); }
        self.gen_step(from, r0 - 2, f0 + 1, mv);
        let ghost a4 = a3 + step_to(p, x, r0 - 2, f0 + 1);
        proof { lemma_assoc(m0, a3, step_to(p, x, r0 - 2, f0 + 1)); }
        self.gen_step(from, r0 + 1, f0 - 2, mv);
        let ghost a5 = a4 + step_to(p, x, r0 + 1, f0 - 2);
        proof { lemma_assoc(m0, a4, step_to(p, x, r0 + 1, f0 - 2)); }
        self.gen_step(from, r0 + 2, f0 - 1, mv);
        let ghost a6 = a5 + step_to(p, x, r0 + 2, f0 - 1);
        proof { lemma_assoc(m0, a5, step_to(p, x, r0 + 2, f0 - 1)); }
        self.gen_step(from, r0 - 1, f0 - 2, mv);
        let ghost a7 = a6 + step_to(p, x, r0 - 1, f0 - 2);
        proof { lemma_assoc(m0, a6, step_to(p, x, r0 - 1, f0 - 2)); }
        self.gen_step(from, r0 - 2, f0 - 1, mv);
        proof { lemma_assoc(m0, a7, step_to(p, x, r0 - 2, f0 - 1)); }
    }

    fn gen_king(&self, from: i8, mv: &mut Vec<Mv>)
        requires
            self@.wf(),
            0 <= from < 64,
            self.sq[from as int] == self.side * K,
        ensures
            final(mv)@ == old(mv)@ + king_steps(self@, from as int) + castle_moves(self@, from as int),
    {
        let r0 = rank(from);
        let f0 = file(from);
        let ghost p = self@;
        let ghost x = from as int;
        let ghost m0 = mv@;
        self.gen_step(from, r0 - 1, f0 - 1, mv);
        let ghost a1 = step_to(p, x, r0 - 1, f0 - 1);
        self.gen_step(from, r0 - 1, f0, mv);
        let ghost a2 = a1 + step_to(p, x, r0 - 1, f0 as int);
        proof { lemma_assoc(m0, a1, step_to(p, x, r0 - 1, f0 as int)); }
        self.gen_step(from, r0 - 1, f0 + 1, mv);
        let ghost a3 = a2 + step_to(p, x, r0 - 1, f0 + 1);
        proof { lemma_assoc(m0, a2, step_to(p, x, r0 - 1, f0 + 1)); }
        self.gen_step(from, r0, f0 - 1, mv);
        let ghost a4 = a3 + step_to(p, x, r0 as int, f0 - 1);
        proof { lemma_assoc(m0, a3, step_to(p, x, r0 as int, f0 - 1)); }
        self.gen_step(from, r0, f0 + 1, mv);
        let ghost a5 = a4 + step_to(p, x, r0 as int, f0 + 1);
        proof { lemma_assoc(m0, a4, step_to(p, x, r0 as int, f0 + 1)); }
        self.gen_step(from, r0 + 1, f0 - 1, mv);
        let ghost a6 = a5 + step_to(p, x, r0 + 1, f0 - 1);
        proof { lemma_assoc(m0, a5, step_to(p, x, r0 + 1, f0 - 1)); }
        self.gen_step(from, r0 + 1, f0, mv);
        let ghost a7 = a6 + step_to(p, x, r0 + 1, f0 as int);
        proof { lemma_assoc(m0, a6, step_to(p, x, r0 + 1, f0 as int)); }
        self.gen_step(from, r0 + 1, f0 + 1, mv);
        proof { lemma_assoc(m0, a7, step_to(p, x, r0 + 1, f0 + 1)); }
        let ghost m1 = mv@;
        assert(m1 == old(mv)@ + king_steps(self@, from as int));
        self.gen_castle(from, mv);
        proof { lemma_assoc(old(mv)@, king_steps(self@, from as int), castle_moves(self@, from as int)); }
    }

    fn gen_castle(&self, from: i8, mv: &mut Vec<Mv>)
        requires
            self@.wf(),
            0 <= from < 64,
            self.sq[from as int] == self.side * K,
        ensures
            final(mv)@ == old(mv)@ + castle_moves(self@, from as int),
    {
        let s = self.side;
        let kfrom: i8 = if s == 1 { 4 } else { 60 };
        let kbit: u8 = if s == 1 { 1 } else { 4 };
        let qbit: u8 = if s == 1 { 2 } else { 8 };
        let rank0: i8 = if s == 1 { 0 } else { 7 };
        proof {
            lemma_first_index_found(self.sq@, (s * K) as int, 0, from as int);
        }
        if from == kfrom && !self.in_check(s) {
            if self.castle & kbit != 0 && self.sq[(rank0 * 8 + 5) as usize] == 0 && self.sq[(rank0
                * 8 + 6) as usize] == 0 && !self.attacked(rank0 * 8 + 5, -s) && !self.attacked(
                rank0 * 8 + 6,
                -s,
            ) {
                mv.push(Mv { from, to: rank0 * 8 + 6, promo: 0 });
            }
            if self.castle & qbit != 0 && self.sq[(rank0 * 8 + 1) as usize] == 0 && self.sq[(rank0
                * 8 + 2) as usize] == 0 && self.sq[(rank0 * 8 + 3) as usize] == 0 && !self.attacked(
                rank0 * 8 + 3,
                -s,
            ) && !self.attacked(rank0 * 8 + 2, -s) {
                mv.push(Mv { from, to: rank0 * 8 + 2, promo: 0 });
            }
        }
        assert(mv@ =~= old(mv)@ + castle_moves(self@, from as int));
    }

    fn gen_ray(&self, from: i8, dr: i8, df: i8, mv: &mut Vec<Mv>)
        requires
            self@.wf(),
            0 <= from < 64,
            -1 <= dr <= 1,
            -1 <= df <= 1,
        ensures
            final(mv)@ == old(mv)@ + ray_from(self@, from as int, dr as int, df as int),
    {
        let ghost p = self@;
        let r0 = rank(from);
        let f0 = file(from);
        let mut r = r0 + dr;
        let mut f = f0 + df;
        let mut n: u8 = 8;
        while n > 0 && is_on_board(r, f)
            invariant
                -1 <= r <= 8,
                -1 <= f <= 8,
                -1 <= dr <= 1,
                -1 <= df <= 1,
                0 <= from < 64,
                n <= 8,
                p == self@,
                p.wf(),
                old(mv)@ + ray_from(p, from as int, dr as int, df as int) == mv@ + ray_moves(
                    p,
                    from as int,
                    r as int,
                    f as int,
                    dr as int,
                    df as int,
                    n as nat,
                ),
            decreases n,
        {
            let ghost before = mv@;
            let t = self.sq[(r * 8 + f) as usize];
            if t == 0 {
                mv.push(Mv { from, to: r * 8 + f, promo: 0 });
                assert(before + ray_moves(p, from as int, r as int, f as int, dr as int, df as int, n as nat)
                    =~= mv@ + ray_moves(p, from as int, r + dr, f + df, dr as int, df as int, (n - 1) as nat));
            } else {
                if signum(t) != self.side {
                    mv.push(Mv { from, to: r * 8 + f, promo: 0 });
                }
                assert(before + ray_moves(p, from as int, r as int, f as int, dr as int, df as int, n as nat)
                    =~= mv@);
                return;
            }
            r = r + dr;
            f = f + df;
            n = n - 1;
        }
        assert(mv@ + ray_moves(p, from as int, r as int, f as int, dr as int, df as int, n as nat) =~= mv@);
    }

    fn gen_bishop(&self, from: i8, mv: &mut Vec<Mv>)
        requires
            self@.wf(),
            0 <= from < 64,
        ensures
            final(mv)@ == old(mv)@ + bishop_moves(self@, from as int),
    {
        self.gen_ray(from, 1, 1, mv);
        self.gen_ray(from, 1, -1, mv);
        self.gen_ray(from, -1, 1, mv);
        self.gen_ray(from, -1, -1, mv);
        assert(mv@ =~= old(mv)@ + bishop_moves(self@, from as int));
    }

    fn gen_rook(&self, from: i8, mv: &mut Vec<Mv>)
        requires
            self@.wf(),
            0 <= from < 64,
        ensures
            final(mv)@ == old(mv)@ + rook_moves(self@, from as int),
    {
        self.gen_ray(from, 1, 0, mv);
        self.gen_ray(from, -1, 0, mv);
        self.gen_ray(from, 0, 1, mv);
        self.gen_ray(from, 0, -1, mv);
        assert(mv@ =~= old(mv)@ + rook_moves(self@, from as int));
    }

    fn gen_piece(&self, from: i8, mv: &mut Vec<Mv>)
        requires
            self@.wf(),
            0 <= from < 64,
        ensures
            final(mv)@ == old(mv)@ + piece_moves(self@, from as int),
    {
        let p = self.sq[from as usize];
        if p == 0 || signum(p) != self.side {
            assert(mv@ =~= old(mv)@ + piece_moves(self@, from as int));
            return;
        }
        let pt = piece_type(p);
        if pt == P {
            self.gen_pawn(from, mv);
        } else if pt == N {
            self.gen_knight(from, mv);
        } else if pt == K {
            self.gen_king(from, mv);
            assert(mv@ =~= old(mv)@ + piece_moves(self@, from as int));
        } else if pt == B {
            self.gen_bishop(from, mv);
        } else if pt == R {
            self.gen_rook(from, mv);
        } else {
            let ghost m0 = mv@;
            self.gen_bishop(from, mv);
            self.gen_rook(from, mv);
            assert(mv@ =~= m0 + piece_moves(self@, from as int));
        }
    }

    /// All pseudo-legal moves of the side to move, ordered by origin square.
    pub fn pseudo_moves(&self) -> (mv: Vec<Mv>)
        requires
            self@.wf(),
        ensures
            mv@ == pseudo_moves(self@),
            all_valid(mv@),
    {
        let mut mv: Vec<Mv> = Vec::with_capacity(48);
        let mut from: i8 = 0;
        while from < 64
            invariant
                0 <= from <= 64,
                self@.wf(),
                mv@ == pseudo_upto(self@, from as int),
            decreases 64 - from,
        {
            self.gen_piece(from, &mut mv);
            from += 1;
        }
        proof {
            lemma_pseudo_upto_valid(self@, 64);
        }
        mv
    }
}


impl Board {
    fn make_squares(&self, m: &Mv) -> (sq: [i8; 64])
        requires
            self@.wf(),
            valid_mv(*m),
        ensures
            sq@ == make_squares(self@, *m),
            forall|i: int| 0 <= i < 64 ==> -6 <= #[trigger] sq@[i] <= 6,
    {
        let mut sq = self.sq;
        let s = self.side;
        let piece = sq[m.from as usize];
        let pt = piece_type(piece);
        let ghost p = self@;
        if pt == P && m.to == self.ep && file(m.to) != file(m.from) {
            sq[(rank(m.from) * 8 + file(m.to)) as usize] = 0;
        }
        let d = m.to - m.from;
        if pt == K && (d == 2 || d == -2) {
            let rank0 = rank(m.from);
            if m.to > m.from {
                sq[(rank0 * 8 + 5) as usize] = sq[(rank0 * 8 + 7) as usize];
                sq[(rank0 * 8 + 7) as usize] = 0;
            } else {
                sq[(rank0 * 8 + 3) as usize] = sq[(rank0 * 8) as usize];
                sq[(rank0 * 8) as usize] = 0;
            }
        }
        sq[m.to as usize] = if m.promo != 0 { m.promo * s } else { piece };
        sq[m.from as usize] = 0;
        assert(sq@ =~= make_squares(p, *m));
        sq
    }

    /// The position after `m`, which the caller has generated: no legality check.
    pub fn make(&self, m: &Mv) -> (nb: Board)
        requires
            self@.wf(),
            valid_mv(*m),
            make_ok(self@, *m),
        ensures
            nb@ == make_pos(self@, *m),
            nb@.wf(),
    {
        let sq = self.make_squares(m);
        let s = self.side;
        let piece = self.sq[m.from as usize];
        let pt = piece_type(piece);
        let capture = self.sq[m.to as usize] != 0;
        let d = m.to - m.from;
        let ghost p = self@;
        let mut castle = self.castle;
        if m.from == 0 || m.to == 0 {
            castle = castle & !2u8;
        }
        if m.from == 7 || m.to == 7 {
            castle = castle & !1u8;
        }
        if m.from == 56 || m.to == 56 {
            castle = castle & !8u8;
        }
        if m.from == 63 || m.to == 63 {
            castle = castle & !4u8;
        }
        if pt == K {
            castle = castle & (if s == 1 { !3u8 } else { !12u8 });
        }
        let ep: i8 = if pt == P && (d == 16 || d == -16) { (m.from + m.to) / 2 } else { -1 };
        let half: u16 = if pt == P || capture { 0 } else { self.half + 1 };
        let mut hist: Vec<Snapshot> = Vec::new();
        let mut i: usize = 0;
        while i < self.hist.len()
            invariant
                0 <= i <= self.hist.len(),
                hist@ == self.hist@.take(i as int),
            decreases self.hist.len() - i,
        {
            hist.push(self.hist[i]);
            i += 1;
        }
        assert(hist@ =~= self.hist@);
        let mut nb = Board { sq, side: -s, castle, ep, half, hist };
        let snap = nb.snapshot();
        nb.hist.push(snap);
        assert(nb@.sq =~= make_pos(p, *m).sq);
        assert(nb@.hist =~= make_pos(p, *m).hist);
        nb
    }

    /// The legal moves: the pseudo-legal moves, in order, after which the
    /// mover's king is not attacked.
    pub fn legal_moves(&self) -> (ms: Vec<Mv>)
        requires
            self@.wf(),
            legal_ok(self@),
        ensures
            ms@ == legal_moves(self@),
            all_valid(ms@),
    {
        let s = self.side;
        let pseudo = self.pseudo_moves();
        let ghost p = self@;
        let ghost pred = |m: Mv| leaves_king_safe(p, m);
        let mut out: Vec<Mv> = Vec::new();
        let mut i: usize = 0;
        while i < pseudo.len()
            invariant
                0 <= i <= pseudo.len(),
                p == self@,
                p.wf(),
                s == p.side,
                legal_ok(p),
                pseudo@ == pseudo_moves(p),
                all_valid(pseudo@),
                pred == (|m: Mv| leaves_king_safe(p, m)),
                out@ == pseudo@.take(i as int).filter(pred),
            decreases pseudo.len() - i,
        {
            let m = pseudo[i];
            let nb = self.make(&m);
            let safe = !nb.in_check(s);
            if safe {
                out.push(m);
            }
            proof {
                reveal(Seq::filter);
                assert(pseudo@.take(i + 1).drop_last() =~= pseudo@.take(i as int));
                assert(pseudo@.take(i + 1).last() == m);
            }
            i += 1;
        }
        proof {
            assert(pseudo@.take(pseudo@.len() as int) =~= pseudo@);
            pseudo@.lemma_filter_len(pred);
            assert forall|j: int| 0 <= j < out@.len() implies valid_mv(#[trigger] out@[j]) by {
                pseudo@.lemma_filter_pred(pred, j);
                assert(pseudo@.filter(pred).contains(out@[j])) by {
                    assert(out@[j] == pseudo@.filter(pred)[j]);
                }
                lemma_filter_subset(pseudo@, pred, j);
            }
        }
        out
    }
}

impl Board {
    /// Whether every pseudo-legal move can be made and testing it for check
    /// finds the mover's king (`legal_ok`), which listing the legal moves needs.
    pub fn can_list_moves(&self) -> (b: bool)
        requires
            self@.wf(),
        ensures
            b == legal_ok(self@),
    {
        let ghost p = self@;
        let pseudo = self.pseudo_moves();
        let mut i: usize = 0;
        while i < pseudo.len()
            invariant
                0 <= i <= pseudo.len(),
                p == self@,
                p.wf(),
                pseudo@ == pseudo_moves(p),
                all_valid(pseudo@),
                forall|j: int|
                    0 <= j < i ==> make_ok(p, #[trigger] pseudo@[j]) && has_king(
                        make_pos(p, pseudo@[j]),
                        p.side as int,
                    ),
            decreases pseudo.len() - i,
        {
            let m = pseudo[i];
            assert(valid_mv(pseudo@[i as int]));
            let piece = self.sq[m.from as usize];
            if !(self.half < 65535 || piece == P || piece == -P || self.sq[m.to as usize] != 0) {
                return false;
            }
            let nb = self.make(&m);
            if nb.king_index_of(self.side) == 64 {
                return false;
            }
            i += 1;
        }
        true
    }
}

/// An element of a filtered sequence is an element of the sequence.
pub proof fn lemma_filter_subset(s: Seq<Mv>, pred: spec_fn(Mv) -> bool, j: int)
    requires
        0 <= j < s.filter(pred).len(),
    ensures
        s.contains(s.filter(pred)[j]),
    decreases s.len(),
{
    reveal(Seq::filter);
    if s.len() > 0 {
        let sub = s.drop_last().filter(pred);
        if j < sub.len() {
            lemma_filter_subset(s.drop_last(), pred, j);
            let k = choose|k: int| 0 <= k < s.drop_last().len() && s.drop_last()[k] == sub[j];
            assert(s[k] == s.filter(pred)[j]);
        } else {
            assert(s[s.len() - 1] == s.filter(pred)[j]);
        }
    }
}


/// The legal moves are exactly the pseudo-legal moves that leave the
/// mover's king safe: each legal move is pseudo-legal and safe, and each
/// safe pseudo-legal move is legal.
pub proof fn lemma_legal_filter(p: Pos)
    ensures
        forall|i: int|
            0 <= i < legal_moves(p).len() ==> pseudo_moves(p).contains(#[trigger] legal_moves(p)[i])
                && leaves_king_safe(p, legal_moves(p)[i]),
        forall|i: int|
            0 <= i < pseudo_moves(p).len() && leaves_king_safe(p, #[trigger] pseudo_moves(p)[i])
                ==> legal_moves(p).contains(pseudo_moves(p)[i]),
{
    let pred = |m: Mv| leaves_king_safe(p, m);
    assert forall|i: int| 0 <= i < legal_moves(p).len() implies pseudo_moves(p).contains(
        #[trigger] legal_moves(p)[i],
    ) && leaves_king_safe(p, legal_moves(p)[i]) by {
        lemma_filter_subset(pseudo_moves(p), pred, i);
        pseudo_moves(p).lemma_filter_pred(pred, i);
    }
    assert forall|i: int|
        0 <= i < pseudo_moves(p).len() && leaves_king_safe(p, #[trigger] pseudo_moves(p)[i])
            implies legal_moves(p).contains(pseudo_moves(p)[i]) by {
        pseudo_moves(p).lemma_filter_contains(pred, i);
    }
}

} // verus!
