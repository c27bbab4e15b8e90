//! Sane positions: each side has exactly one king, the side that just
//! moved is not in check, the en passant square and the castling rights
//! agree with the board. Legal moves keep positions sane, and in a sane
//! position move generation, counting and searching never fail.
use vstd::prelude::*;
use crate::board::{abs, start_pos, start_squares, move_of, on_board, sign, Board, Mv, Pos, B, K, N, P, Q, R};
use crate::attack::{
    attacked, first_index, has_king, in_check, king_attack, king_index, knight_attack,
    lemma_first_index_bounds, lemma_first_index_found, ray_first, slider_attack,
};
use crate::search::{ab_ok, moves_ok, negamax_value, nm_ok, perft_ok, root_ok, search_ok, lemma_legal_facts};
use crate::movegen::{
    bishop_moves, castle_moves, king_steps, knight_moves, leaves_king_safe, legal_moves,
    legal_ok, make_ok, make_pos, make_squares, pawn_capture,
    pawn_moves, pawn_pushes, pawn_to, piece_moves, pseudo_moves, pseudo_upto, ray_from,
    ray_moves, rook_moves, step_to, valid_mv,
};

verus! {

/// Side `s` has exactly one king.
pub open spec fn unique_king(p: Pos, s: int) -> bool {
    &&& has_king(p, s)
    &&& forall|j: int| 0 <= j < 64 && j != king_index(p, s) ==> p.sq[j] != s * K
}

/// The en passant square is unset, or it is the empty square just passed
/// by an enemy pawn's double push.
pub open spec fn ep_sane(p: Pos) -> bool {
    let s = p.side as int;
    let e = p.ep as int;
    e == -1 || (0 <= e < 64 && e / 8 == (if s == 1 { 5int } else { 2int }) && p.sq[e] == 0
        && p.sq[e - 8 * s] == -s * P)
}

/// Each castling right still held has its rook on its corner.
pub open spec fn castle_sane(p: Pos) -> bool {
    &&& (p.castle & 1u8 != 0 ==> p.sq[7] == R)
    &&& (p.castle & 2u8 != 0 ==> p.sq[0] == R)
    &&& (p.castle & 4u8 != 0 ==> p.sq[63] == -R)
    &&& (p.castle & 8u8 != 0 ==> p.sq[56] == -R)
}

/// A sane position: well formed, one king per side, the side not to move
/// not in check, consistent en passant square and castling rights.
pub open spec fn sane(p: Pos) -> bool {
    &&& p.wf()
    &&& unique_king(p, p.side as int)
    &&& unique_king(p, -p.side)
    &&& !in_check(p, -p.side)
    &&& ep_sane(p)
    &&& castle_sane(p)
}

/// How a pawn may move: one square forward onto an empty square, two
/// squares from its start rank across an empty square, or one square
/// diagonally forward onto a piece or the en passant square.
pub open spec fn pawn_shape(p: Pos, m: Mv) -> bool {
    let s = p.side as int;
    let from = m.from as int;
    let to = m.to as int;
    let t = p.sq[to] as int;
    ||| (t == 0 && to == from + 8 * s)
    ||| (t == 0 && to == from + 16 * s && p.sq[from + 8 * s] == 0 && m.promo == 0 && from / 8 == (
    if s == 1 {
        1int
    } else {
        6int
    }))
    ||| (to / 8 == from / 8 + s && (to % 8 == from % 8 + 1 || to % 8 == from % 8 - 1) && (t != 0
        || to == p.ep))
}

/// How a king castles: from its home square, not in check, two squares
/// sideways across a square that is not attacked onto one that is not
/// attacked, with the right held and the squares between empty.
pub open spec fn castle_shape(p: Pos, m: Mv) -> bool {
    let s = p.side as int;
    let from = m.from as int;
    let to = m.to as int;
    let kbit: u8 = if s == 1 { 1 } else { 4 };
    let qbit: u8 = if s == 1 { 2 } else { 8 };
    &&& from == (if s == 1 { 4int } else { 60int })
    &&& !in_check(p, s)
    &&& !attacked(p, (from + to) / 2, -s)
    &&& !attacked(p, to, -s)
    &&& ((to == from + 2 && p.castle & kbit != 0 && p.sq[from + 1] == 0 && p.sq[from + 2] == 0)
        || (to == from - 2 && p.castle & qbit != 0 && p.sq[from - 1] == 0 && p.sq[from - 2] == 0
        && p.sq[from - 3] == 0))
}

/// What every pseudo-legal move satisfies: it moves a piece of the side
/// to move, it does not land on its own piece, it captures a king only
/// when it attacks it, promotions are pawn moves, a pawn move promotes
/// exactly when it reaches the last rank, and pawns and castling kings
/// move as `pawn_shape` and `castle_shape` say.
pub open spec fn move_shape(p: Pos, m: Mv) -> bool {
    let s = p.side as int;
    let from = m.from as int;
    let to = m.to as int;
    let x = p.sq[from] as int;
    let t = p.sq[to] as int;
    &&& valid_mv(m)
    &&& sign(x) == s
    &&& sign(t) != s
    &&& (t == -s * 6 ==> attacked(p, to, s))
    &&& (m.promo != 0 ==> abs(x) == 1)
    &&& (abs(x) == 1 ==> (m.promo != 0 <==> to / 8 == (if s == 1 { 7int } else { 0int })))
    &&& (abs(x) == 1 ==> pawn_shape(p, m))
    &&& (abs(x) == 6 && abs(to - from) == 2 ==> castle_shape(p, m))
}

pub open spec fn shaped(p: Pos, ms: Seq<Mv>) -> bool {
    forall|i: int| 0 <= i < ms.len() ==> move_shape(p, #[trigger] ms[i])
}

proof fn lemma_shaped_add(p: Pos, a: Seq<Mv>, b: Seq<Mv>)
    requires
        shaped(p, a),
        shaped(p, b),
    ensures
        shaped(p, a + b),
{
    assert forall|i: int| 0 <= i < (a + b).len() implies move_shape(p, #[trigger] (a + b)[i]) by {
        if i < a.len() {
            assert((a + b)[i] == a[i]);
        } else {
            assert((a + b)[i] == b[i - a.len()]);
        }
    }
}

/// A ray walk that finds a piece within `a` squares finds it within any
/// longer walk too.
proof fn lemma_ray_fuel(p: Pos, r: int, f: int, dr: int, df: int, a: nat, b: nat)
    requires
        a <= b,
        ray_first(p, r, f, dr, df, a) != 0,
    ensures
        ray_first(p, r, f, dr, df, b) == ray_first(p, r, f, dr, df, a),
    decreases a,
{
    if a > 0 && on_board(r, f) && p.sq[r * 8 + f] == 0 {
        lemma_ray_fuel(p, r + dr, f + df, dr, df, (a - 1) as nat, (b - 1) as nat);
    }
}

proof fn lemma_square_coords(r: int, f: int)
    requires
        on_board(r, f),
    ensures
        (r * 8 + f) / 8 == r,
        (r * 8 + f) % 8 == f,
        0 <= r * 8 + f < 64,
{
}

proof fn lemma_ray_shape(p: Pos, from: int, r: int, f: int, dr: int, df: int, n: nat)
    requires
        p.wf(),
        0 <= from < 64,
        sign(p.sq[from] as int) == p.side,
        -1 <= dr <= 1,
        -1 <= df <= 1,
        dr != 0 || df != 0,
        dr != 0 && df != 0 ==> abs(p.sq[from] as int) == 3 || abs(p.sq[from] as int) == 5,
        dr == 0 || df == 0 ==> abs(p.sq[from] as int) == 4 || abs(p.sq[from] as int) == 5,
        1 <= n <= 8,
        ray_first(p, r - dr, f - df, -dr, -df, (9 - n) as nat) == p.sq[from] as int,
    ensures
        shaped(p, ray_moves(p, from, r, f, dr, df, n)),
    decreases n,
{
    if on_board(r, f) {
        let s = p.side as int;
        let x = p.sq[from] as int;
        let to = r * 8 + f;
        let t = p.sq[to] as int;
        let m = move_of(from, to, 0);
        lemma_square_coords(r, f);
        if t == -s * 6 {
            lemma_ray_fuel(p, r - dr, f - df, -dr, -df, (9 - n) as nat, 8);
            assert(slider_attack(p, r, f, -dr, -df, s * B, s * Q) || slider_attack(
                p,
                r,
                f,
                -dr,
                -df,
                s * R,
                s * Q,
            ));
            assert(attacked(p, to, s));
        }
        if t == 0 || sign(t) != s {
            assert(move_shape(p, m));
        }
        if t == 0 {
            if n > 1 {
                assert(ray_first(p, r, f, -dr, -df, (9 - (n - 1)) as nat) == x);
                lemma_ray_shape(p, from, r + dr, f + df, dr, df, (n - 1) as nat);
            }
            lemma_shaped_add(p, seq![m], ray_moves(p, from, r + dr, f + df, dr, df, (n - 1) as nat));
        }
    }
}

proof fn lemma_ray_from_shape(p: Pos, from: int, dr: int, df: int)
    requires
        p.wf(),
        0 <= from < 64,
        sign(p.sq[from] as int) == p.side,
        -1 <= dr <= 1,
        -1 <= df <= 1,
        dr != 0 || df != 0,
        dr != 0 && df != 0 ==> abs(p.sq[from] as int) == 3 || abs(p.sq[from] as int) == 5,
        dr == 0 || df == 0 ==> abs(p.sq[from] as int) == 4 || abs(p.sq[from] as int) == 5,
    ensures
        shaped(p, ray_from(p, from, dr, df)),
{
    let r = from / 8 + dr;
    let f = from % 8 + df;
    assert(from / 8 * 8 + from % 8 == from);
    assert(ray_first(p, r - dr, f - df, -dr, -df, 1) == p.sq[from] as int);
    lemma_ray_shape(p, from, r, f, dr, df, 8);
}

proof fn lemma_step_shape(p: Pos, from: int, a: int, b: int)
    requires
        p.wf(),
        0 <= from < 64,
        sign(p.sq[from] as int) == p.side,
        abs(p.sq[from] as int) == 2 ==> knight_offset(a, b),
        abs(p.sq[from] as int) == 6 ==> king_offset(a, b),
        abs(p.sq[from] as int) == 2 || abs(p.sq[from] as int) == 6,
    ensures
        shaped(p, step_to(p, from, from / 8 + a, from % 8 + b)),
{
    let r = from / 8 + a;
    let f = from % 8 + b;
    if on_board(r, f) {
        let s = p.side as int;
        let to = r * 8 + f;
        lemma_square_coords(r, f);
        assert(from / 8 * 8 + from % 8 == from);
        assert(r - a == from / 8);
        if p.sq[to] as int == -s * 6 {
            if abs(p.sq[from] as int) == 2 {
                assert(p.holds(r - a, f - b, s * N));
                assert(knight_attack(p, r, f, s * N));
            } else {
                assert(p.holds(r - a, f - b, s * K));
                assert(king_attack(p, r, f, s * K));
            }
        }
    }
}

pub open spec fn knight_offset(a: int, b: int) -> bool {
    (abs(a) == 1 && abs(b) == 2) || (abs(a) == 2 && abs(b) == 1)
}

pub open spec fn king_offset(a: int, b: int) -> bool {
    -1 <= a <= 1 && -1 <= b <= 1 && (a != 0 || b != 0)
}


proof fn lemma_steps8_shape(p: Pos, from: int, o: Seq<(int, int)>)
    requires
        p.wf(),
        0 <= from < 64,
        sign(p.sq[from] as int) == p.side,
        abs(p.sq[from] as int) == 2 || abs(p.sq[from] as int) == 6,
        o.len() == 8,
        forall|i: int|
            0 <= i < 8 ==> (abs(p.sq[from] as int) == 2 ==> knight_offset(#[trigger] o[i].0, o[i].1))
                && (abs(p.sq[from] as int) == 6 ==> king_offset(o[i].0, o[i].1)),
    ensures
        shaped(
            p,
            step_to(p, from, from / 8 + o[0].0, from % 8 + o[0].1) + step_to(p, from, from / 8 + o[1].0, from % 8 + o[1].1)
                + step_to(p, from, from / 8 + o[2].0, from % 8 + o[2].1) + step_to(p, from, from / 8 + o[3].0, from % 8 + o[3].1)
                + step_to(p, from, from / 8 + o[4].0, from % 8 + o[4].1) + step_to(p, from, from / 8 + o[5].0, from % 8 + o[5].1)
                + step_to(p, from, from / 8 + o[6].0, from % 8 + o[6].1) + step_to(p, from, from / 8 + o[7].0, from % 8 + o[7].1),
        ),
{
    let st = |i: int| step_to(p, from, from / 8 + o[i].0, from % 8 + o[i].1);
    assert forall|i: int| 0 <= i < 8 implies shaped(p, #[trigger] st(i)) by {
        lemma_step_shape(p, from, o[i].0, o[i].1);
    }
    assert(shaped(p, st(0)));
    assert(shaped(p, st(1)));
    lemma_shaped_add(p, st(0), st(1));
    assert(shaped(p, st(2)));
    lemma_shaped_add(p, st(0) + st(1), st(2));
    assert(shaped(p, st(3)));
    lemma_shaped_add(p, st(0) + st(1) + st(2), st(3));
    assert(shaped(p, st(4)));
    lemma_shaped_add(p, st(0) + st(1) + st(2) + st(3), st(4));
    assert(shaped(p, st(5)));
    lemma_shaped_add(p, st(0) + st(1) + st(2) + st(3) + st(4), st(5));
    assert(shaped(p, st(6)));
    lemma_shaped_add(p, st(0) + st(1) + st(2) + st(3) + st(4) + st(5), st(6));
    assert(shaped(p, st(7)));
    lemma_shaped_add(p, st(0) + st(1) + st(2) + st(3) + st(4) + st(5) + st(6), st(7));
}

proof fn lemma_pawn_shape(p: Pos, from: int)
    requires
        p.wf(),
        ep_sane(p),
        0 <= from < 64,
        p.sq[from] == p.side * P,
    ensures
        shaped(p, pawn_moves(p, from)),
{
    let s = p.side as int;
    let r0 = from / 8;
    let f0 = from % 8;
    let promo_rank = if s == 1 { 7int } else { 0int };
    let start_rank = if s == 1 { 1int } else { 6int };
    let r1 = r0 + s;
    assert(r0 * 8 + f0 == from);
    if on_board(r1, f0) && p.sq[r1 * 8 + f0] == 0 {
        lemma_square_coords(r1, f0);
        let a = pawn_to(from, r1 * 8 + f0, r1 == promo_rank);
        assert(shaped(p, a));
        if r0 == start_rank && p.sq[(r0 + 2 * s) * 8 + f0] == 0 {
            lemma_square_coords(r0 + 2 * s, f0);
            let d = seq![move_of(from, (r0 + 2 * s) * 8 + f0, 0)];
            assert(shaped(p, d));
            lemma_shaped_add(p, a, d);
        } else {
            lemma_shaped_add(p, a, seq![]);
        }
    }
    let pushes = pawn_pushes(p, from);
    assert(shaped(p, pushes));
    assert forall|df: int| df == -1 || df == 1 implies shaped(
        p,
        #[trigger] pawn_capture(p, from, r1, f0 + df, promo_rank),
    ) by {
        let f1 = f0 + df;
        if on_board(r1, f1) {
            lemma_square_coords(r1, f1);
            let to = r1 * 8 + f1;
            let t = p.sq[to] as int;
            if t != 0 && sign(t) == -s {
                if t == -s * 6 {
                    assert(p.holds(r1 - s, f1 - df, s * P));
                    assert(attacked(p, to, s));
                }
                assert(shaped(p, pawn_to(from, to, r1 == promo_rank)));
            } else if to == p.ep {
                assert(shaped(p, seq![move_of(from, to, 0)]));
            }
        }
    }
    let c1 = pawn_capture(p, from, r1, f0 + -1, promo_rank);
    let c2 = pawn_capture(p, from, r1, f0 + 1, promo_rank);
    assert(shaped(p, c1));
    assert(shaped(p, c2));
    lemma_shaped_add(p, pushes, c1);
    lemma_shaped_add(p, pushes + c1, c2);
    assert(pawn_moves(p, from) == pushes + c1 + c2);
}

proof fn lemma_castle_shape(p: Pos, from: int)
    requires
        p.wf(),
        0 <= from < 64,
        p.sq[from] == p.side * K,
    ensures
        shaped(p, castle_moves(p, from)),
{
    let s = p.side as int;
    let r0 = if s == 1 { 0int } else { 7int };
    let ks: Seq<Mv> = seq![move_of(from, r0 * 8 + 6, 0)];
    let qs: Seq<Mv> = seq![move_of(from, r0 * 8 + 2, 0)];
    if from == (if s == 1 { 4int } else { 60int }) {
        let kbit: u8 = if s == 1 { 1 } else { 4 };
        let qbit: u8 = if s == 1 { 2 } else { 8 };
        let kc = !in_check(p, s) && p.castle & kbit != 0 && p.sq[r0 * 8 + 5] == 0 && p.sq[r0 * 8 + 6] == 0 && !attacked(
            p, r0 * 8 + 5, -s) && !attacked(p, r0 * 8 + 6, -s);
        let qc = !in_check(p, s) && p.castle & qbit != 0 && p.sq[r0 * 8 + 1] == 0 && p.sq[r0 * 8 + 2] == 0 && p.sq[r0
            * 8 + 3] == 0 && !attacked(p, r0 * 8 + 3, -s) && !attacked(p, r0 * 8 + 2, -s);
        let ka: Seq<Mv> = if kc { ks } else { seq![] };
        let qa: Seq<Mv> = if qc { qs } else { seq![] };
        if kc {
            lemma_square_coords(r0, 6);
            assert((from + (r0 * 8 + 6)) / 2 == r0 * 8 + 5);
            assert(move_shape(p, ks[0]));
        }
        if qc {
            lemma_square_coords(r0, 2);
            assert((from + (r0 * 8 + 2)) / 2 == r0 * 8 + 3);
            assert(move_shape(p, qs[0]));
        }
        assert(shaped(p, ka));
        assert(shaped(p, qa));
        lemma_shaped_add(p, ka, qa);
        assert(castle_moves(p, from) == if !in_check(p, s) { ka + qa } else { seq![] });
    }
}

/// Every pseudo-legal move of the piece on `from` is shaped.
pub proof fn lemma_piece_shape(p: Pos, from: int)
    requires
        p.wf(),
        ep_sane(p),
        0 <= from < 64,
    ensures
        shaped(p, piece_moves(p, from)),
{
    let x = p.sq[from] as int;
    let s = p.side as int;
    if x == 0 || sign(x) != s {
    } else if abs(x) == 1 {
        lemma_pawn_shape(p, from);
    } else if abs(x) == 2 {
        let o = seq![(1int, 2int), (2, 1), (-1, 2), (-2, 1), (1, -2), (2, -1), (-1, -2), (-2, -1)];
        lemma_steps8_shape(p, from, o);
        assert(knight_moves(p, from) =~= step_to(p, from, from / 8 + o[0].0, from % 8 + o[0].1) + step_to(p, from, from / 8 + o[1].0, from % 8 + o[1].1)
                + step_to(p, from, from / 8 + o[2].0, from % 8 + o[2].1) + step_to(p, from, from / 8 + o[3].0, from % 8 + o[3].1)
                + step_to(p, from, from / 8 + o[4].0, from % 8 + o[4].1) + step_to(p, from, from / 8 + o[5].0, from % 8 + o[5].1)
                + step_to(p, from, from / 8 + o[6].0, from % 8 + o[6].1) + step_to(p, from, from / 8 + o[7].0, from % 8 + o[7].1));
    } else if abs(x) == 6 {
        let o = seq![(-1int, -1int), (-1, 0), (-1, 1), (0, -1), (0, 1), (1, -1), (1, 0), (1, 1)];
        lemma_steps8_shape(p, from, o);
        assert(king_steps(p, from) =~= step_to(p, from, from / 8 + o[0].0, from % 8 + o[0].1) + step_to(p, from, from / 8 + o[1].0, from % 8 + o[1].1)
                + step_to(p, from, from / 8 + o[2].0, from % 8 + o[2].1) + step_to(p, from, from / 8 + o[3].0, from % 8 + o[3].1)
                + step_to(p, from, from / 8 + o[4].0, from % 8 + o[4].1) + step_to(p, from, from / 8 + o[5].0, from % 8 + o[5].1)
                + step_to(p, from, from / 8 + o[6].0, from % 8 + o[6].1) + step_to(p, from, from / 8 + o[7].0, from % 8 + o[7].1));
        lemma_castle_shape(p, from);
        lemma_shaped_add(p, king_steps(p, from), castle_moves(p, from));
    } else {
        if abs(x) == 3 || abs(x) == 5 {
            lemma_ray_from_shape(p, from, 1, 1);
            lemma_ray_from_shape(p, from, 1, -1);
            lemma_ray_from_shape(p, from, -1, 1);
            lemma_ray_from_shape(p, from, -1, -1);
            let d1 = ray_from(p, from, 1, 1);
            let d2 = ray_from(p, from, 1, -1);
            let d3 = ray_from(p, from, -1, 1);
            let d4 = ray_from(p, from, -1, -1);
            lemma_shaped_add(p, d1, d2);
            lemma_shaped_add(p, d1 + d2, d3);
            lemma_shaped_add(p, d1 + d2 + d3, d4);
        }
        if abs(x) == 4 || abs(x) == 5 {
            lemma_ray_from_shape(p, from, 1, 0);
            lemma_ray_from_shape(p, from, -1, 0);
            lemma_ray_from_shape(p, from, 0, 1);
            lemma_ray_from_shape(p, from, 0, -1);
            let o1 = ray_from(p, from, 1, 0);
            let o2 = ray_from(p, from, -1, 0);
            let o3 = ray_from(p, from, 0, 1);
            let o4 = ray_from(p, from, 0, -1);
            lemma_shaped_add(p, o1, o2);
            lemma_shaped_add(p, o1 + o2, o3);
            lemma_shaped_add(p, o1 + o2 + o3, o4);
        }
        if abs(x) == 5 {
            lemma_shaped_add(p, bishop_moves(p, from), rook_moves(p, from));
        }
    }
}

/// Every pseudo-legal move is shaped.
pub proof fn lemma_pseudo_shape(p: Pos, n: int)
    requires
        p.wf(),
        ep_sane(p),
        0 <= n <= 64,
    ensures
        shaped(p, pseudo_upto(p, n)),
    decreases n,
{
    if n > 0 {
        lemma_pseudo_shape(p, n - 1);
        lemma_piece_shape(p, n - 1);
        lemma_shaped_add(p, pseudo_upto(p, n - 1), piece_moves(p, n - 1));
    }
}


/// The first index holding `v` is `k` when `k` is the only square holding it.
pub proof fn lemma_first_index_unique(sq: Seq<i8>, v: int, k: int)
    requires
        0 <= k < 64,
        sq[k] == v,
        forall|j: int| 0 <= j < 64 && j != k ==> sq[j] != v,
    ensures
        first_index(sq, v, 0) == k,
{
    lemma_first_index_found(sq, v, 0, k);
    lemma_first_index_bounds(sq, v, 0);
}

proof fn lemma_castle_bits(c0: u8, a0: bool, a7: bool, a56: bool, a63: bool, king: bool, white: bool)
    ensures
        ({
            let c1 = if a0 { c0 & !2u8 } else { c0 };
            let c2 = if a7 { c1 & !1u8 } else { c1 };
            let c3 = if a56 { c2 & !8u8 } else { c2 };
            let c4 = if a63 { c3 & !4u8 } else { c3 };
            let q = if king { c4 & (if white { !3u8 } else { !12u8 }) } else { c4 };
            &&& (q & 1u8 != 0 ==> c0 & 1u8 != 0 && !a7 && !(king && white))
            &&& (q & 2u8 != 0 ==> c0 & 2u8 != 0 && !a0 && !(king && white))
            &&& (q & 4u8 != 0 ==> c0 & 4u8 != 0 && !a63 && !(king && !white))
            &&& (q & 8u8 != 0 ==> c0 & 8u8 != 0 && !a56 && !(king && !white))
        }),
{
    assert({
        let c1 = if a0 { c0 & !2u8 } else { c0 };
        let c2 = if a7 { c1 & !1u8 } else { c1 };
        let c3 = if a56 { c2 & !8u8 } else { c2 };
        let c4 = if a63 { c3 & !4u8 } else { c3 };
        let q = if king { c4 & (if white { !3u8 } else { !12u8 }) } else { c4 };
        &&& (q & 1u8 != 0 ==> c0 & 1u8 != 0 && !a7 && !(king && white))
        &&& (q & 2u8 != 0 ==> c0 & 2u8 != 0 && !a0 && !(king && white))
        &&& (q & 4u8 != 0 ==> c0 & 4u8 != 0 && !a63 && !(king && !white))
        &&& (q & 8u8 != 0 ==> c0 & 8u8 != 0 && !a56 && !(king && !white))
    }) by (bit_vector);
}

/// Making a shaped move from a sane position leaves a well-formed position
/// whose squares differ from the old ones only where the move says.
pub proof fn lemma_make_wf(p: Pos, m: Mv)
    requires
        p.wf(),
        valid_mv(m),
    ensures
        make_pos(p, m).wf(),
{
    let q = make_pos(p, m);
    let s = p.side as int;
    let v = if m.promo != 0 { (m.promo * s) as i8 } else { p.sq[m.from as int] };
    assert(-6 <= v <= 6) by {
        if s == 1 {
            assert(m.promo * s == m.promo);
        } else {
            assert(m.promo * s == -m.promo);
        }
    }
    assert forall|i: int| 0 <= i < 64 implies -6 <= #[trigger] q.sq[i] <= 6 by {
        assert(make_squares(p, m).len() == 64);
    }
}

/// The side that moves keeps exactly one king.
pub proof fn lemma_make_keeps_own_king(p: Pos, m: Mv)
    requires
        sane(p),
        move_shape(p, m),
    ensures
        unique_king(make_pos(p, m), p.side as int),
        king_index(make_pos(p, m), p.side as int) == if p.sq[m.from as int] == p.side * K {
            m.to as int
        } else {
            king_index(p, p.side as int)
        },
{
    let s = p.side as int;
    let q = make_pos(p, m);
    let from = m.from as int;
    let to = m.to as int;
    let x = p.sq[from] as int;
    let k = king_index(p, s);
    lemma_first_index_bounds(p.sq, s * K, 0);
    assert(q.sq.len() == 64);
    if x == s * K {
        assert(from == k);
        assert(q.sq[to] == s * K);
        assert forall|j: int| 0 <= j < 64 && j != to implies q.sq[j] != s * K by {
            if s == 1 {
                assert(p.castle & 1u8 != 0 ==> p.sq[7] == R);
            }
        }
        lemma_first_index_unique(q.sq, s * K, to);
    } else {
        assert(k != from);
        assert(q.sq[k] == s * K);
        assert forall|j: int| 0 <= j < 64 && j != k implies q.sq[j] != s * K by {
        }
        lemma_first_index_unique(q.sq, s * K, k);
    }
}

/// The side that does not move keeps its one king where it stands.
pub proof fn lemma_make_keeps_enemy_king(p: Pos, m: Mv)
    requires
        sane(p),
        move_shape(p, m),
    ensures
        unique_king(make_pos(p, m), -p.side),
        king_index(make_pos(p, m), -p.side) == king_index(p, -p.side),
{
    let s = p.side as int;
    let q = make_pos(p, m);
    let to = m.to as int;
    let k = king_index(p, -s);
    lemma_first_index_bounds(p.sq, -s * K, 0);
    assert(q.sq.len() == 64);
    assert(to != k);
    assert(q.sq[k] == -s * K);
    assert forall|j: int| 0 <= j < 64 && j != k implies q.sq[j] != -s * K by {
    }
    lemma_first_index_unique(q.sq, -s * K, k);
}

/// A legal move from a sane position leads to a sane position.
pub proof fn lemma_make_keeps_sane(p: Pos, m: Mv)
    requires
        sane(p),
        move_shape(p, m),
        leaves_king_safe(p, m),
    ensures
        sane(make_pos(p, m)),
{
    let s = p.side as int;
    let q = make_pos(p, m);
    let from = m.from as int;
    let to = m.to as int;
    lemma_make_wf(p, m);
    lemma_make_keeps_own_king(p, m);
    lemma_make_keeps_enemy_king(p, m);
    assert(q.side as int == -s);
    assert(-(q.side as int) == s);
    // en passant square
    if abs(p.sq[from] as int) == 1 && abs(to - from) == 16 {
        assert(to == from + 16 * s);
        assert(q.ep == from + 8 * s);
        assert(q.sq[from + 8 * s] == 0);
        assert(q.sq[to] == s * P);
    }
    assert(ep_sane(q));
    // castling rights
    lemma_castle_bits(
        p.castle,
        m.from == 0 || m.to == 0,
        m.from == 7 || m.to == 7,
        m.from == 56 || m.to == 56,
        m.from == 63 || m.to == 63,
        abs(p.sq[from] as int) == 6,
        s == 1,
    );
    assert(castle_sane(q));
}

/// In a sane position every pseudo-legal move is shaped.
pub proof fn lemma_sane_shapes(p: Pos)
    requires
        sane(p),
    ensures
        shaped(p, pseudo_moves(p)),
{
    lemma_pseudo_shape(p, 64);
}


/// In a sane position whose half-move clock can still count up, every
/// pseudo-legal move can be made and keeps the mover's king.
pub proof fn lemma_sane_legal_ok(p: Pos)
    requires
        sane(p),
        p.half < 65535,
    ensures
        legal_ok(p),
        moves_ok(p),
{
    lemma_sane_shapes(p);
    assert forall|i: int| 0 <= i < pseudo_moves(p).len() implies make_ok(
        p,
        #[trigger] pseudo_moves(p)[i],
    ) && has_king(make_pos(p, pseudo_moves(p)[i]), p.side as int) by {
        lemma_make_keeps_own_king(p, pseudo_moves(p)[i]);
    }
}

/// Each legal move of a sane position leads to a sane position.
pub proof fn lemma_legal_children_sane(p: Pos)
    requires
        sane(p),
        legal_ok(p),
    ensures
        forall|i: int|
            0 <= i < legal_moves(p).len() ==> sane(#[trigger] make_pos(p, legal_moves(p)[i])),
{
    lemma_sane_shapes(p);
    lemma_legal_facts(p);
    assert forall|i: int| 0 <= i < legal_moves(p).len() implies sane(
        #[trigger] make_pos(p, legal_moves(p)[i]),
    ) by {
        let m = legal_moves(p)[i];
        assert(pseudo_moves(p).contains(m));
        let k = choose|k: int| 0 <= k < pseudo_moves(p).len() && pseudo_moves(p)[k] == m;
        assert(move_shape(p, pseudo_moves(p)[k]));
        lemma_make_keeps_sane(p, m);
    }
}

/// A search from a sane position never fails, at any depth and window.
pub proof fn lemma_sane_nm_ok(p: Pos, depth: nat, alpha: int, beta: int)
    requires
        sane(p),
    ensures
        nm_ok(p, depth, alpha, beta),
    decreases depth, 1int, 0int,
{
    if p.half < 100 {
        lemma_sane_legal_ok(p);
        if depth > 0 {
            lemma_legal_children_sane(p);
            lemma_sane_ab_ok(p, 0, depth, i32::MIN + 1, alpha, beta);
        }
    }
}

proof fn lemma_sane_ab_ok(p: Pos, i: int, depth: nat, best: int, alpha: int, beta: int)
    requires
        sane(p),
        0 <= i,
        depth > 0,
        forall|j: int|
            0 <= j < legal_moves(p).len() ==> sane(#[trigger] make_pos(p, legal_moves(p)[j])),
    ensures
        ab_ok(p, legal_moves(p), i, depth, best, alpha, beta),
    decreases depth, 0int, legal_moves(p).len() - i,
{
    let ms = legal_moves(p);
    if i < ms.len() {
        let child = make_pos(p, ms[i]);
        assert(sane(child));
        lemma_sane_nm_ok(child, (depth - 1) as nat, -beta, -alpha);
        let score = -negamax_value(child, (depth - 1) as nat, -beta, -alpha);
        let best2 = if score > best {
            score
        } else {
            best
        };
        let alpha2 = if best2 > alpha {
            best2
        } else {
            alpha
        };
        lemma_sane_ab_ok(p, i + 1, depth, best2, alpha2, beta);
    }
}

proof fn lemma_sane_root_ok(p: Pos, i: int, depth: nat, best_s: int, alpha: int)
    requires
        sane(p),
        0 <= i,
        forall|j: int|
            0 <= j < legal_moves(p).len() ==> sane(#[trigger] make_pos(p, legal_moves(p)[j])),
    ensures
        root_ok(p, legal_moves(p), i, depth, best_s, alpha),
    decreases legal_moves(p).len() - i,
{
    let ms = legal_moves(p);
    if i < ms.len() {
        let child = make_pos(p, ms[i]);
        assert(sane(child));
        lemma_sane_nm_ok(child, (depth - 1) as nat, -(i32::MAX - 1), -alpha);
        let score = -negamax_value(child, (depth - 1) as nat, -(i32::MAX - 1), -alpha);
        let bs = if score > best_s {
            score
        } else {
            best_s
        };
        let alpha2 = if bs > alpha {
            bs
        } else {
            alpha
        };
        lemma_sane_root_ok(p, i + 1, depth, bs, alpha2);
    }
}

/// The root search from a sane position never fails.
pub proof fn lemma_sane_search_ok(p: Pos, depth: nat)
    requires
        sane(p),
        p.half < 65535,
    ensures
        search_ok(p, depth),
{
    lemma_sane_legal_ok(p);
    lemma_legal_children_sane(p);
    lemma_sane_root_ok(p, 0, depth, i32::MIN + 1, i32::MIN + 1);
}

/// Counting move paths from a sane position never fails while the
/// half-move clock cannot overflow.
pub proof fn lemma_sane_perft_ok(p: Pos, depth: nat)
    requires
        sane(p),
        p.half + depth <= 65535,
    ensures
        perft_ok(p, depth),
    decreases depth,
{
    if depth > 0 {
        lemma_sane_legal_ok(p);
        if depth > 1 {
            lemma_legal_children_sane(p);
            lemma_legal_facts(p);
            assert forall|i: int| 0 <= i < legal_moves(p).len() implies perft_ok(
                #[trigger] make_pos(p, legal_moves(p)[i]),
                (depth - 1) as nat,
            ) by {
                let c = make_pos(p, legal_moves(p)[i]);
                assert(c.half <= p.half + 1);
                lemma_sane_perft_ok(c, (depth - 1) as nat);
            }
        }
    }
}


impl Board {
    fn has_unique_king(&self, s: i8) -> (r: bool)
        requires
            self@.wf(),
            s == 1 || s == -1,
        ensures
            r == unique_king(self@, s as int),
    {
        let v = s * K;
        let mut k: usize = 0;
        proof {
            lemma_first_index_bounds(self.sq@, v as int, 0);
        }
        while k < 64 && self.sq[k] != v
            invariant
                0 <= k <= 64,
                v == s * K,
                first_index(self.sq@, v as int, 0) == first_index(self.sq@, v as int, k as int),
            decreases 64 - k,
        {
            k += 1;
        }
        if k == 64 {
            return false;
        }
        let mut j: usize = 0;
        while j < 64
            invariant
                0 <= j <= 64,
                k < 64,
                v == s * K,
                k == king_index(self@, s as int),
                forall|i: int| 0 <= i < j && i != k ==> self.sq@[i] != v,
            decreases 64 - j,
        {
            if j != k && self.sq[j] == v {
                return false;
            }
            j += 1;
        }
        true
    }

    /// Whether the position is sane: one king per side, the side not to
    /// move not in check, en passant square and castling rights consistent.
    pub fn is_sane(&self) -> (r: bool)
        requires
            self@.wf(),
        ensures
            r == sane(self@),
    {
        let s = self.side;
        if !self.has_unique_king(s) || !self.has_unique_king(-s) {
            return false;
        }
        if self.in_check(-s) {
            return false;
        }
        let e = self.ep;
        if e != -1 {
            if e < 0 || e >= 64 {
                return false;
            }
            let want: i8 = if s == 1 { 5 } else { 2 };
            if e / 8 != want || self.sq[e as usize] != 0 || self.sq[(e - 8 * s) as usize] != -s * P {
                return false;
            }
        }
        let c = self.castle;
        if c & 1 != 0 && self.sq[7] != R {
            return false;
        }
        if c & 2 != 0 && self.sq[0] != R {
            return false;
        }
        if c & 4 != 0 && self.sq[63] != -R {
            return false;
        }
        if c & 8 != 0 && self.sq[56] != -R {
            return false;
        }
        true
    }
}


/// The starting position is sane.
pub proof fn lemma_start_sane()
    ensures
        sane(start_pos()),
{
    let p = start_pos();
    let sq = start_squares();
    assert(sq.len() == 64);
    assert forall|i: int| 0 <= i < 64 implies -6 <= #[trigger] sq[i] <= 6 by {}
    reveal_with_fuel(first_index, 6);
    assert(first_index(sq, 6, 0) == 4);
    assert(first_index(sq, -6, 60) == 60);
    lemma_first_index_unique(sq, -6, 60);
    assert(king_index(p, 1) == 4);
    assert(king_index(p, -1) == 60);
    reveal_with_fuel(ray_first, 3);
    assert(!attacked(p, 60, 1));
}

} // verus!
