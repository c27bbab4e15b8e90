//! The rules of chess stated move by move, and the proof that every move
//! the engine lists as legal obeys them.
use vstd::prelude::*;
use crate::board::{abs, on_board, sign, Mv, Pos};
use crate::attack::in_check;
use crate::attackers::{between, clear_between, empty_at, empty_steps, step, step_sq};
use crate::movegen::{
    bishop_moves, king_steps, knight_moves, lemma_legal_filter, legal_moves, make_pos, pawn_capture,
    pawn_moves, pawn_pushes, pawn_to, piece_moves,
    pseudo_moves, pseudo_upto, ray_from, ray_moves, rook_moves, step_to, valid_mv,
};
use crate::sanity::{castle_shape, lemma_pseudo_shape, move_shape, pawn_shape, sane};
use crate::distinct::joined;

verus! {

/// How the piece on `m.from` moves to `m.to`: a knight by a knight's
/// jump, a king by one step or by castling, a bishop along a diagonal, a
/// rook along a rank or file, a queen along either, each over empty
/// squares only, and a pawn as `pawn_shape` says.
pub open spec fn moves_by_rule(p: Pos, m: Mv) -> bool {
    let from = m.from as int;
    let to = m.to as int;
    let x = abs(p.sq[from] as int);
    let dr = to / 8 - from / 8;
    let df = to % 8 - from % 8;
    let diagonal = abs(dr) == abs(df) && dr != 0;
    let straight = (dr == 0) != (df == 0);
    if x == 1 {
        pawn_shape(p, m)
    } else if x == 2 {
        (abs(dr) == 1 && abs(df) == 2) || (abs(dr) == 2 && abs(df) == 1)
    } else if x == 3 {
        diagonal && clear_between(p, from, to)
    } else if x == 4 {
        straight && clear_between(p, from, to)
    } else if x == 5 {
        (diagonal || straight) && clear_between(p, from, to)
    } else if x == 6 {
        (abs(dr) <= 1 && abs(df) <= 1 && (dr != 0 || df != 0)) || castle_shape(p, m)
    } else {
        false
    }
}

/// A move that the rules of chess allow: it moves a piece of the side to
/// move as that piece moves, does not land on a piece of its own side,
/// promotes to a knight, bishop, rook or queen exactly when a pawn
/// reaches the last rank, and does not leave its own king attacked.
pub open spec fn rule_legal(p: Pos, m: Mv) -> bool {
    let s = p.side as int;
    let from = m.from as int;
    let to = m.to as int;
    let x = p.sq[from] as int;
    &&& valid_mv(m)
    &&& sign(x) == s
    &&& sign(p.sq[to] as int) != s
    &&& (m.promo != 0 <==> (abs(x) == 1 && to / 8 == (if s == 1 { 7int } else { 0int })))
    &&& moves_by_rule(p, m)
    &&& !in_check(make_pos(p, m), s)
}

/// The geometry of a move, pawns and castling aside.
pub open spec fn step_geometry(p: Pos, m: Mv) -> bool {
    let from = m.from as int;
    let to = m.to as int;
    let x = abs(p.sq[from] as int);
    let dr = to / 8 - from / 8;
    let df = to % 8 - from % 8;
    let diagonal = abs(dr) == abs(df) && dr != 0;
    let straight = (dr == 0) != (df == 0);
    &&& (x == 2 ==> (abs(dr) == 1 && abs(df) == 2) || (abs(dr) == 2 && abs(df) == 1))
    &&& (x == 3 ==> diagonal && clear_between(p, from, to))
    &&& (x == 4 ==> straight && clear_between(p, from, to))
    &&& (x == 5 ==> (diagonal || straight) && clear_between(p, from, to))
    &&& (x == 6 && abs(to - from) != 2 ==> abs(dr) <= 1 && abs(df) <= 1 && (dr != 0 || df != 0))
}

pub open spec fn all_step_geometry(p: Pos, ms: Seq<Mv>) -> bool {
    forall|i: int| 0 <= i < ms.len() ==> step_geometry(p, #[trigger] ms[i])
}

proof fn lemma_coords(r: int, f: int)
    requires
        on_board(r, f),
    ensures
        (r * 8 + f) / 8 == r,
        (r * 8 + f) % 8 == f,
        0 <= r * 8 + f < 64,
{
}

proof fn lemma_geometry_add(p: Pos, a: Seq<Mv>, b: Seq<Mv>)
    requires
        all_step_geometry(p, a),
        all_step_geometry(p, b),
    ensures
        all_step_geometry(p, a + b),
{
    assert forall|i: int| 0 <= i < (a + b).len() implies step_geometry(p, #[trigger] (a + b)[i]) by {
        if i < a.len() {
            assert((a + b)[i] == a[i]);
        } else {
            assert((a + b)[i] == b[i - a.len()]);
        }
    }
}

proof fn lemma_joined_geometry(p: Pos, parts: Seq<Seq<Mv>>)
    requires
        forall|k: int| 0 <= k < parts.len() ==> all_step_geometry(p, #[trigger] parts[k]),
    ensures
        all_step_geometry(p, joined(parts)),
    decreases parts.len(),
{
    if parts.len() > 0 {
        let init = parts.drop_last();
        assert forall|k: int| 0 <= k < init.len() implies all_step_geometry(p, #[trigger] init[k]) by {
            assert(init[k] == parts[k]);
        }
        lemma_joined_geometry(p, init);
        assert(all_step_geometry(p, parts[parts.len() - 1]));
        lemma_geometry_add(p, joined(init), parts.last());
    }
}

/// A ray walk from `from`, resumed at step `k` after empty squares, lands
/// its moves on its line with only empty squares between.
proof fn lemma_ray_geometry(p: Pos, from: int, dr: int, df: int, k: int, n: nat)
    requires
        0 <= from < 64,
        -1 <= dr <= 1,
        -1 <= df <= 1,
        dr != 0 || df != 0,
        k >= 1,
        empty_steps(p, from / 8, from % 8, dr, df, k),
        abs(p.sq[from] as int) == 3 ==> dr != 0 && df != 0,
        abs(p.sq[from] as int) == 4 ==> dr == 0 || df == 0,
        3 <= abs(p.sq[from] as int) <= 5,
    ensures
        all_step_geometry(
            p,
            ray_moves(p, from, step(from / 8, dr, k), step(from % 8, df, k), dr, df, n),
        ),
    decreases n,
{
    let r0 = from / 8;
    let f0 = from % 8;
    let r = step(r0, dr, k);
    let f = step(f0, df, k);
    if n > 0 && on_board(r, f) {
        lemma_coords(r, f);
        let to = r * 8 + f;
        let m = crate::board::move_of(from, to, 0);
        assert(r0 * 8 + f0 == from);
        assert forall|u: int| 0 <= u < 64 && #[trigger] between(from, to, u) implies p.sq[u] == 0 by {
            let ur = u / 8;
            let uf = u % 8;
            let i = if dr != 0 { abs(ur - r0) } else { abs(uf - f0) };
            assert(step(r0, dr, i) == ur && step(f0, df, i) == uf);
            assert(1 <= i < k);
            assert(ur * 8 + uf == u);
            assert(step_sq(r0, f0, dr, df, i) == u);
            assert(empty_at(p, r0, f0, dr, df, i));
        }
        assert(step_geometry(p, m));
        if p.sq[to] == 0 {
            assert(step(r0, dr, k + 1) == r + dr && step(f0, df, k + 1) == f + df);
            assert forall|i: int| 1 <= i < k + 1 implies #[trigger] empty_at(p, r0, f0, dr, df, i) by {
                if i == k {
                    assert(step_sq(r0, f0, dr, df, k) == to);
                }
            }
            lemma_ray_geometry(p, from, dr, df, k + 1, (n - 1) as nat);
            lemma_geometry_add(p, seq![m], ray_moves(p, from, r + dr, f + df, dr, df, (n - 1) as nat));
        }
    }
}

proof fn lemma_ray_from_geometry(p: Pos, from: int, dr: int, df: int)
    requires
        0 <= from < 64,
        -1 <= dr <= 1,
        -1 <= df <= 1,
        dr != 0 || df != 0,
        abs(p.sq[from] as int) == 3 ==> dr != 0 && df != 0,
        abs(p.sq[from] as int) == 4 ==> dr == 0 || df == 0,
        3 <= abs(p.sq[from] as int) <= 5,
    ensures
        all_step_geometry(p, ray_from(p, from, dr, df)),
{
    lemma_ray_geometry(p, from, dr, df, 1, 8);
}

proof fn lemma_steps_geometry(p: Pos, from: int, o: Seq<(int, int)>)
    requires
        0 <= from < 64,
        o.len() == 8,
        abs(p.sq[from] as int) == 2 || abs(p.sq[from] as int) == 6,
        forall|k: int|
            0 <= k < 8 ==> {
                let a = (#[trigger] o[k]).0;
                let b = o[k].1;
                &&& abs(p.sq[from] as int) == 2 ==> (abs(a) == 1 && abs(b) == 2) || (abs(a) == 2 && abs(b)
                    == 1)
                &&& abs(p.sq[from] as int) == 6 ==> abs(a) <= 1 && abs(b) <= 1 && (a != 0 || b != 0)
            },
    ensures
        all_step_geometry(p, joined(Seq::new(8, |k: int| step_to(p, from, from / 8 + o[k].0, from % 8 + o[k].1)))),
{
    let r = from / 8;
    let f = from % 8;
    let parts = Seq::new(8, |k: int| step_to(p, from, r + o[k].0, f + o[k].1));
    assert forall|k: int| 0 <= k < parts.len() implies all_step_geometry(p, #[trigger] parts[k]) by {
        let a = o[k].0;
        let b = o[k].1;
        if on_board(r + a, f + b) {
            lemma_coords(r + a, f + b);
            assert(r * 8 + f == from);
        }
    }
    lemma_joined_geometry(p, parts);
}

proof fn lemma_knight_geometry(p: Pos, from: int)
    requires
        0 <= from < 64,
        abs(p.sq[from] as int) == 2,
    ensures
        all_step_geometry(p, knight_moves(p, from)),
{
    reveal_with_fuel(joined, 9);
    let o = seq![(1int, 2int), (2, 1), (-1, 2), (-2, 1), (1, -2), (2, -1), (-1, -2), (-2, -1)];
    lemma_steps_geometry(p, from, o);
    assert(knight_moves(p, from) =~= joined(
        Seq::new(8, |k: int| step_to(p, from, from / 8 + o[k].0, from % 8 + o[k].1)),
    ));
}

proof fn lemma_king_geometry(p: Pos, from: int)
    requires
        0 <= from < 64,
        abs(p.sq[from] as int) == 6,
    ensures
        all_step_geometry(p, king_steps(p, from) + crate::movegen::castle_moves(p, from)),
{
    reveal_with_fuel(joined, 9);
    let o = seq![(-1int, -1int), (-1, 0), (-1, 1), (0, -1), (0, 1), (1, -1), (1, 0), (1, 1)];
    lemma_steps_geometry(p, from, o);
    assert(king_steps(p, from) =~= joined(
        Seq::new(8, |k: int| step_to(p, from, from / 8 + o[k].0, from % 8 + o[k].1)),
    ));
    let c = crate::movegen::castle_moves(p, from);
    assert forall|i: int| 0 <= i < c.len() implies step_geometry(p, #[trigger] c[i]) by {
        assert(abs(c[i].to - c[i].from) == 2);
    }
    lemma_geometry_add(p, king_steps(p, from), c);
}

proof fn lemma_slider_geometry(p: Pos, from: int)
    requires
        0 <= from < 64,
        3 <= abs(p.sq[from] as int) <= 5,
    ensures
        abs(p.sq[from] as int) != 4 ==> all_step_geometry(p, bishop_moves(p, from)),
        abs(p.sq[from] as int) != 3 ==> all_step_geometry(p, rook_moves(p, from)),
{
    let x = p.sq[from] as int;
    if abs(x) == 3 || abs(x) == 5 {
        lemma_ray_from_geometry(p, from, 1, 1);
        lemma_ray_from_geometry(p, from, 1, -1);
        lemma_ray_from_geometry(p, from, -1, 1);
        lemma_ray_from_geometry(p, from, -1, -1);
        let d1 = ray_from(p, from, 1, 1);
        let d2 = ray_from(p, from, 1, -1);
        let d3 = ray_from(p, from, -1, 1);
        let d4 = ray_from(p, from, -1, -1);
        lemma_geometry_add(p, d1, d2);
        lemma_geometry_add(p, d1 + d2, d3);
        lemma_geometry_add(p, d1 + d2 + d3, d4);
    }
    if abs(x) == 4 || abs(x) == 5 {
        lemma_ray_from_geometry(p, from, 1, 0);
        lemma_ray_from_geometry(p, from, -1, 0);
        lemma_ray_from_geometry(p, from, 0, 1);
        lemma_ray_from_geometry(p, from, 0, -1);
        let o1 = ray_from(p, from, 1, 0);
        let o2 = ray_from(p, from, -1, 0);
        let o3 = ray_from(p, from, 0, 1);
        let o4 = ray_from(p, from, 0, -1);
        lemma_geometry_add(p, o1, o2);
        lemma_geometry_add(p, o1 + o2, o3);
        lemma_geometry_add(p, o1 + o2 + o3, o4);
    }
}

/// The moves of a knight, king, bishop, rook or queen follow its geometry.
proof fn lemma_piece_geometry(p: Pos, from: int)
    requires
        p.wf(),
        0 <= from < 64,
    ensures
        all_step_geometry(p, piece_moves(p, from)),
{
    let x = p.sq[from] as int;
    let s = p.side as int;
    assert(-6 <= x <= 6);
    if x == 0 || sign(x) != s {
    } else if abs(x) == 1 {
        assert(all_step_geometry(p, piece_moves(p, from)));
    } else if abs(x) == 2 {
        lemma_knight_geometry(p, from);
    } else if abs(x) == 6 {
        lemma_king_geometry(p, from);
    } else {
        lemma_slider_geometry(p, from);
        if abs(x) == 5 {
            lemma_geometry_add(p, bishop_moves(p, from), rook_moves(p, from));
        }
    }
}

proof fn lemma_pseudo_geometry(p: Pos, n: int)
    requires
        p.wf(),
        0 <= n <= 64,
    ensures
        all_step_geometry(p, pseudo_upto(p, n)),
    decreases n,
{
    if n > 0 {
        lemma_pseudo_geometry(p, n - 1);
        lemma_piece_geometry(p, n - 1);
        lemma_geometry_add(p, pseudo_upto(p, n - 1), piece_moves(p, n - 1));
    }
}

/// In a sane position every move the engine lists as legal is allowed by
/// the rules of chess as `rule_legal` states them, piece by piece.
pub proof fn law_legal_moves_obey_the_rules(p: Pos)
    requires
        sane(p),
    ensures
        forall|i: int| 0 <= i < legal_moves(p).len() ==> rule_legal(p, #[trigger] legal_moves(p)[i]),
{
    lemma_legal_filter(p);
    lemma_pseudo_shape(p, 64);
    lemma_pseudo_geometry(p, 64);
    assert forall|i: int| 0 <= i < legal_moves(p).len() implies rule_legal(p, #[trigger] legal_moves(p)[i]) by {
        let m = legal_moves(p)[i];
        let k = choose|k: int| 0 <= k < pseudo_moves(p).len() && pseudo_moves(p)[k] == m;
        assert(move_shape(p, pseudo_moves(p)[k]));
        assert(step_geometry(p, pseudo_moves(p)[k]));
    }
}

proof fn lemma_add_contains(a: Seq<Mv>, b: Seq<Mv>, m: Mv)
    requires
        a.contains(m) || b.contains(m),
    ensures
        (a + b).contains(m),
{
    if a.contains(m) {
        let i = choose|i: int| 0 <= i < a.len() && a[i] == m;
        assert((a + b)[i] == m);
    } else {
        let i = choose|i: int| 0 <= i < b.len() && b[i] == m;
        assert((a + b)[a.len() + i] == m);
    }
}

proof fn lemma_four_contains(a: Seq<Mv>, b: Seq<Mv>, c: Seq<Mv>, d: Seq<Mv>, m: Mv)
    requires
        a.contains(m) || b.contains(m) || c.contains(m) || d.contains(m),
    ensures
        (a + b + c + d).contains(m),
{
    if a.contains(m) || b.contains(m) {
        lemma_add_contains(a, b, m);
    }
    if a.contains(m) || b.contains(m) || c.contains(m) {
        lemma_add_contains(a + b, c, m);
    }
    lemma_add_contains(a + b + c, d, m);
}

proof fn lemma_joined_contains(parts: Seq<Seq<Mv>>, k: int, m: Mv)
    requires
        0 <= k < parts.len(),
        parts[k].contains(m),
    ensures
        joined(parts).contains(m),
    decreases parts.len(),
{
    let init = parts.drop_last();
    if k < parts.len() - 1 {
        assert(init[k] == parts[k]);
        lemma_joined_contains(init, k, m);
        lemma_add_contains(joined(init), parts.last(), m);
    } else {
        assert(parts.last() == parts[k]);
        lemma_add_contains(joined(init), parts.last(), m);
    }
}

proof fn lemma_pseudo_contains(p: Pos, n: int, from: int, m: Mv)
    requires
        0 <= from < n <= 64,
        piece_moves(p, from).contains(m),
    ensures
        pseudo_upto(p, n).contains(m),
    decreases n,
{
    if from == n - 1 {
        lemma_add_contains(pseudo_upto(p, n - 1), piece_moves(p, n - 1), m);
    } else {
        lemma_pseudo_contains(p, n - 1, from, m);
        lemma_add_contains(pseudo_upto(p, n - 1), piece_moves(p, n - 1), m);
    }
}

/// The index of offset (a, b) in `o`.
spec fn offset_index(o: Seq<(int, int)>, a: int, b: int) -> int {
    choose|k: int| 0 <= k < o.len() && o[k] == (a, b)
}

proof fn lemma_step_contains(p: Pos, m: Mv, o: Seq<(int, int)>)
    requires
        valid_mv(m),
        m.promo == 0,
        sign(p.sq[m.to as int] as int) != p.side,
        o.len() == 8,
        exists|k: int| 0 <= k < 8 && o[k] == (m.to / 8 - m.from / 8, m.to % 8 - m.from % 8),
    ensures
        joined(
            Seq::new(
                8,
                |k: int| step_to(p, m.from as int, m.from / 8 + o[k].0, m.from % 8 + o[k].1),
            ),
        ).contains(m),
{
    let from = m.from as int;
    let to = m.to as int;
    let parts = Seq::new(8, |k: int| step_to(p, from, from / 8 + o[k].0, from % 8 + o[k].1));
    let k = choose|k: int| 0 <= k < 8 && o[k] == (m.to / 8 - m.from / 8, m.to % 8 - m.from % 8);
    assert(from / 8 + o[k].0 == to / 8 && from % 8 + o[k].1 == to % 8);
    assert((to / 8) * 8 + to % 8 == to);
    assert(parts[k] == seq![crate::board::move_of(from, to, 0)]);
    assert(parts[k][0] == m);
    lemma_joined_contains(parts, k, m);
}

proof fn lemma_knight_contains(p: Pos, m: Mv)
    requires
        valid_mv(m),
        m.promo == 0,
        sign(p.sq[m.to as int] as int) != p.side,
        moves_by_rule(p, m),
        abs(p.sq[m.from as int] as int) == 2,
    ensures
        knight_moves(p, m.from as int).contains(m),
{
    reveal_with_fuel(joined, 9);
    let from = m.from as int;
    let o = seq![(1int, 2int), (2, 1), (-1, 2), (-2, 1), (1, -2), (2, -1), (-1, -2), (-2, -1)];
    let d = (m.to / 8 - m.from / 8, m.to % 8 - m.from % 8);
    assert(exists|k: int| 0 <= k < 8 && o[k] == d) by {
        if d == o[0] {
            assert(o[0] == d);
        } else if d == o[1] {
            assert(o[1] == d);
        } else if d == o[2] {
            assert(o[2] == d);
        } else if d == o[3] {
            assert(o[3] == d);
        } else if d == o[4] {
            assert(o[4] == d);
        } else if d == o[5] {
            assert(o[5] == d);
        } else if d == o[6] {
            assert(o[6] == d);
        } else {
            assert(o[7] == d);
        }
    }
    lemma_step_contains(p, m, o);
    assert(knight_moves(p, from) =~= joined(
        Seq::new(8, |k: int| step_to(p, from, from / 8 + o[k].0, from % 8 + o[k].1)),
    ));
}

proof fn lemma_king_contains(p: Pos, m: Mv)
    requires
        valid_mv(m),
        m.promo == 0,
        sign(p.sq[m.to as int] as int) != p.side,
        moves_by_rule(p, m),
        abs(p.sq[m.from as int] as int) == 6,
        p.side == 1 || p.side == -1,
    ensures
        (king_steps(p, m.from as int) + crate::movegen::castle_moves(p, m.from as int)).contains(m),
{
    reveal_with_fuel(joined, 9);
    let from = m.from as int;
    let to = m.to as int;
    let dr = to / 8 - from / 8;
    let df = to % 8 - from % 8;
    let c = crate::movegen::castle_moves(p, from);
    if abs(dr) <= 1 && abs(df) <= 1 && (dr != 0 || df != 0) {
        let o = seq![(-1int, -1int), (-1, 0), (-1, 1), (0, -1), (0, 1), (1, -1), (1, 0), (1, 1)];
        let d = (dr, df);
        assert(exists|k: int| 0 <= k < 8 && o[k] == d) by {
            if d == o[0] {
                assert(o[0] == d);
            } else if d == o[1] {
                assert(o[1] == d);
            } else if d == o[2] {
                assert(o[2] == d);
            } else if d == o[3] {
                assert(o[3] == d);
            } else if d == o[4] {
                assert(o[4] == d);
            } else if d == o[5] {
                assert(o[5] == d);
            } else if d == o[6] {
                assert(o[6] == d);
            } else {
                assert(o[7] == d);
            }
        }
        lemma_step_contains(p, m, o);
        assert(king_steps(p, from) =~= joined(
            Seq::new(8, |k: int| step_to(p, from, from / 8 + o[k].0, from % 8 + o[k].1)),
        ));
        lemma_add_contains(king_steps(p, from), c, m);
    } else {
        assert(castle_shape(p, m));
        let s = p.side as int;
        let r0 = if s == 1 { 0int } else { 7int };
        assert(from == r0 * 8 + 4);
        if to == from + 2 {
            assert(c[0] == m);
        } else {
            assert(to == from - 2);
            assert(c.len() >= 1);
            assert(c[c.len() - 1] == m);
        }
        assert(c.contains(m));
        lemma_add_contains(king_steps(p, from), c, m);
    }
}

/// A ray walk from step `k` over empty squares reaches the move onto
/// step `j` when that square holds no piece of the mover's side.
proof fn lemma_ray_contains(p: Pos, from: int, dr: int, df: int, k: int, j: int, n: nat)
    requires
        0 <= from < 64,
        -1 <= dr <= 1,
        -1 <= df <= 1,
        dr != 0 || df != 0,
        1 <= k <= j,
        n >= j - k + 1,
        empty_steps(p, from / 8, from % 8, dr, df, j),
        on_board(step(from / 8, dr, j), step(from % 8, df, j)),
        sign(p.sq[step_sq(from / 8, from % 8, dr, df, j)] as int) != p.side,
    ensures
        ray_moves(p, from, step(from / 8, dr, k), step(from % 8, df, k), dr, df, n).contains(
            crate::board::move_of(from, step_sq(from / 8, from % 8, dr, df, j), 0),
        ),
    decreases j - k,
{
    let r0 = from / 8;
    let f0 = from % 8;
    let r = step(r0, dr, k);
    let f = step(f0, df, k);
    let target = crate::board::move_of(from, step_sq(r0, f0, dr, df, j), 0);
    let head = seq![crate::board::move_of(from, r * 8 + f, 0)];
    assert(step(r0, dr, k + 1) == r + dr && step(f0, df, k + 1) == f + df);
    if k == j {
        assert(head[0] == target);
        let tail = ray_moves(p, from, r + dr, f + df, dr, df, (n - 1) as nat);
        if p.sq[r * 8 + f] == 0 {
            lemma_add_contains(head, tail, target);
        } else {
            assert(head.contains(target));
        }
    } else {
        assert(empty_at(p, r0, f0, dr, df, k));
        lemma_ray_contains(p, from, dr, df, k + 1, j, (n - 1) as nat);
        lemma_add_contains(head, ray_moves(p, from, r + dr, f + df, dr, df, (n - 1) as nat), target);
    }
}

/// A slider move along a clear line is among the moves of its ray.
proof fn lemma_line_contains(p: Pos, m: Mv)
    requires
        valid_mv(m),
        m.promo == 0,
        sign(p.sq[m.to as int] as int) != p.side,
        m.from != m.to,
        (m.to / 8 - m.from / 8 == 0) || (m.to % 8 - m.from % 8 == 0) || abs(m.to / 8 - m.from / 8) == abs(
            m.to % 8 - m.from % 8,
        ),
        clear_between(p, m.from as int, m.to as int),
    ensures
        ray_from(p, m.from as int, sign(m.to / 8 - m.from / 8), sign(m.to % 8 - m.from % 8)).contains(m),
{
    let from = m.from as int;
    let to = m.to as int;
    let r0 = from / 8;
    let f0 = from % 8;
    let tr = to / 8;
    let tf = to % 8;
    let dr = sign(tr - r0);
    let df = sign(tf - f0);
    let j = if tr != r0 { abs(tr - r0) } else { abs(tf - f0) };
    assert(tr * 8 + tf == to);
    assert(r0 * 8 + f0 == from);
    assert(step(r0, dr, j) == tr && step(f0, df, j) == tf);
    assert(step_sq(r0, f0, dr, df, j) == to);
    assert forall|i: int| 1 <= i < j implies #[trigger] empty_at(p, r0, f0, dr, df, i) by {
        let ur = step(r0, dr, i);
        let uf = step(f0, df, i);
        lemma_coords(ur, uf);
        assert(between(from, to, step_sq(r0, f0, dr, df, i)));
    }
    lemma_ray_contains(p, from, dr, df, 1, j, 8);
    assert(step(r0, dr, 1) == r0 + dr && step(f0, df, 1) == f0 + df);
    assert(crate::board::move_of(from, to, 0) == m);
}

proof fn lemma_slider_contains(p: Pos, m: Mv)
    requires
        valid_mv(m),
        m.promo == 0,
        sign(p.sq[m.to as int] as int) != p.side,
        moves_by_rule(p, m),
        3 <= abs(p.sq[m.from as int] as int) <= 5,
    ensures
        piece_moves(p, m.from as int).contains(m) || sign(p.sq[m.from as int] as int) != p.side,
{
    let from = m.from as int;
    let x = abs(p.sq[from] as int);
    let dr = m.to / 8 - m.from / 8;
    let df = m.to % 8 - m.from % 8;
    assert(m.from != m.to);
    lemma_line_contains(p, m);
    let d1 = ray_from(p, from, 1, 1);
    let d2 = ray_from(p, from, 1, -1);
    let d3 = ray_from(p, from, -1, 1);
    let d4 = ray_from(p, from, -1, -1);
    let o1 = ray_from(p, from, 1, 0);
    let o2 = ray_from(p, from, -1, 0);
    let o3 = ray_from(p, from, 0, 1);
    let o4 = ray_from(p, from, 0, -1);
    if dr != 0 && df != 0 {
        if x != 4 {
            lemma_four_contains(d1, d2, d3, d4, m);
            assert(bishop_moves(p, from).contains(m));
            if x == 5 {
                lemma_add_contains(bishop_moves(p, from), rook_moves(p, from), m);
            }
        }
    } else {
        if x != 3 {
            lemma_four_contains(o1, o2, o3, o4, m);
            assert(rook_moves(p, from).contains(m));
            if x == 5 {
                lemma_add_contains(bishop_moves(p, from), rook_moves(p, from), m);
            }
        }
    }
}

proof fn lemma_pawn_to_contains(m: Mv, promote: bool)
    requires
        valid_mv(m),
        promote <==> m.promo != 0,
    ensures
        pawn_to(m.from as int, m.to as int, promote).contains(m),
{
    let ms = pawn_to(m.from as int, m.to as int, promote);
    if promote {
        assert(ms[5 - m.promo] == m);
    } else {
        assert(ms[0] == m);
    }
}

/// A pawn move that the rules allow is among the pawn's moves.
proof fn lemma_pawn_contains(p: Pos, m: Mv)
    requires
        sane(p),
        valid_mv(m),
        p.sq[m.from as int] == p.side * 1,
        sign(p.sq[m.to as int] as int) != p.side,
        pawn_shape(p, m),
        m.promo != 0 <==> m.to / 8 == (if p.side == 1 { 7int } else { 0int }),
    ensures
        pawn_moves(p, m.from as int).contains(m),
{
    let s = p.side as int;
    let from = m.from as int;
    let to = m.to as int;
    let t = p.sq[to] as int;
    let r0 = from / 8;
    let f0 = from % 8;
    let promo_rank = if s == 1 { 7int } else { 0int };
    let start_rank = if s == 1 { 1int } else { 6int };
    let r1 = r0 + s;
    let pushes = pawn_pushes(p, from);
    let c1 = pawn_capture(p, from, r1, f0 + -1, promo_rank);
    let c2 = pawn_capture(p, from, r1, f0 + 1, promo_rank);
    assert(pawn_moves(p, from) == pushes + c1 + c2);
    assert(r0 * 8 + f0 == from);
    if t == 0 && to == from + 8 * s {
        assert(to / 8 == r1 && to % 8 == f0);
        assert(on_board(r1, f0));
        lemma_pawn_to_contains(m, r1 == promo_rank);
        let a = pawn_to(from, r1 * 8 + f0, r1 == promo_rank);
        let d: Seq<Mv> = if r0 == start_rank && p.sq[(r0 + 2 * s) * 8 + f0] == 0 {
            seq![crate::board::move_of(from, (r0 + 2 * s) * 8 + f0, 0)]
        } else {
            seq![]
        };
        assert(pushes == a + d);
        lemma_add_contains(a, d, m);
        lemma_add_contains(pushes, c1, m);
        lemma_add_contains(pushes + c1, c2, m);
    } else if t == 0 && to == from + 16 * s && p.sq[from + 8 * s] == 0 && m.promo == 0 && r0 == start_rank {
        assert(to / 8 == r0 + 2 * s && to % 8 == f0);
        assert(on_board(r1, f0));
        assert(r1 * 8 + f0 == from + 8 * s);
        let a = pawn_to(from, r1 * 8 + f0, r1 == promo_rank);
        let d = seq![crate::board::move_of(from, (r0 + 2 * s) * 8 + f0, 0)];
        assert(pushes == a + d);
        assert(d[0] == m);
        lemma_add_contains(a, d, m);
        lemma_add_contains(pushes, c1, m);
        lemma_add_contains(pushes + c1, c2, m);
    } else {
        assert(to / 8 == r1);
        let df = to % 8 - f0;
        assert(df == 1 || df == -1);
        assert(on_board(r1, f0 + df));
        assert(r1 * 8 + (f0 + df) == to);
        let c = pawn_capture(p, from, r1, f0 + df, promo_rank);
        if t != 0 && sign(t) == -s {
            lemma_pawn_to_contains(m, r1 == promo_rank);
            assert(c == pawn_to(from, to, r1 == promo_rank));
        } else {
            assert(to == p.ep);
            assert(m.promo == 0);
            assert(c[0] == m);
        }
        assert(c.contains(m));
        if df == -1 {
            lemma_add_contains(pushes, c1, m);
            lemma_add_contains(pushes + c1, c2, m);
        } else {
            lemma_add_contains(pushes + c1, c2, m);
        }
    }
}

/// In a sane position every move that the rules allow is listed as legal.
proof fn lemma_rule_legal_listed(p: Pos, m: Mv)
    requires
        sane(p),
        rule_legal(p, m),
    ensures
        legal_moves(p).contains(m),
{
    let from = m.from as int;
    let x = p.sq[from] as int;
    assert(-6 <= x <= 6);
    assert(x != 0);
    if abs(x) == 1 {
        assert(x == p.side * 1);
        lemma_pawn_contains(p, m);
    } else if abs(x) == 2 {
        lemma_knight_contains(p, m);
    } else if abs(x) == 6 {
        lemma_king_contains(p, m);
    } else {
        lemma_slider_contains(p, m);
    }
    assert(piece_moves(p, from).contains(m));
    lemma_pseudo_contains(p, 64, from, m);
    lemma_legal_filter(p);
    let i = choose|i: int| 0 <= i < pseudo_moves(p).len() && pseudo_moves(p)[i] == m;
    assert(crate::movegen::leaves_king_safe(p, pseudo_moves(p)[i]));
}

/// In a sane position the legal moves are exactly the moves that the rules
/// of chess allow, as `rule_legal` states them piece by piece: each piece
/// moving as it moves (castling neither out of, through nor into an
/// attacked square, with the right held and the squares between empty; en
/// passant onto the square just passed), promoting exactly on the last
/// rank, and not leaving its own king attacked.
pub proof fn law_legal_moves_are_the_rule_legal_moves(p: Pos, m: Mv)
    requires
        sane(p),
    ensures
        legal_moves(p).contains(m) <==> rule_legal(p, m),
{
    law_legal_moves_obey_the_rules(p);
    if legal_moves(p).contains(m) {
        let i = choose|i: int| 0 <= i < legal_moves(p).len() && legal_moves(p)[i] == m;
        assert(rule_legal(p, legal_moves(p)[i]));
    }
    if rule_legal(p, m) {
        lemma_rule_legal_listed(p, m);
    }
}

} // verus!
