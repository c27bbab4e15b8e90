//! Attacks stated square by square: a square is attacked by a side exactly
//! when some piece of that side attacks it, by its move geometry and, for
//! bishops, rooks and queens, with every square in between empty.
use vstd::prelude::*;
use crate::board::{abs, on_board, sign, Pos, B, K, N, P, Q, R};
use crate::attack::{attacked, king_attack, knight_attack, ray_first, slider_attack};

verus! {

/// `x` lies strictly between `a` and `b`.
pub open spec fn strictly_between(a: int, b: int, x: int) -> bool {
    (a < x && x < b) || (b < x && x < a)
}

/// Square `u` lies strictly between squares `t` and `s` on the rank, file
/// or diagonal that joins them.
pub open spec fn between(t: int, s: int, u: int) -> bool {
    let tr = t / 8;
    let tf = t % 8;
    let sr = s / 8;
    let sf = s % 8;
    let ur = u / 8;
    let uf = u % 8;
    if tr == sr {
        ur == tr && strictly_between(tf, sf, uf)
    } else if tf == sf {
        uf == tf && strictly_between(tr, sr, ur)
    } else {
        strictly_between(tr, sr, ur) && strictly_between(tf, sf, uf) && abs(ur - tr) == abs(uf - tf)
    }
}

/// Every square strictly between `t` and `s` is empty.
pub open spec fn clear_between(p: Pos, t: int, s: int) -> bool {
    forall|u: int| 0 <= u < 64 && #[trigger] between(t, s, u) ==> p.sq[u] == 0
}

/// The piece on square `t` belongs to side `by` and attacks square `s`: a
/// knight a knight's jump away, a king one step away, a pawn one rank
/// forward (for its side) and one file aside, a bishop or queen on a
/// diagonal, a rook or queen on a rank or file, with the squares between
/// empty.
pub open spec fn attacks_from(p: Pos, t: int, s: int, by: int) -> bool {
    let x = p.sq[t] as int;
    let dr = s / 8 - t / 8;
    let df = s % 8 - t % 8;
    &&& sign(x) == by
    &&& {
        ||| (abs(x) == 2 && ((abs(dr) == 1 && abs(df) == 2) || (abs(dr) == 2 && abs(df) == 1)))
        ||| (abs(x) == 6 && abs(dr) <= 1 && abs(df) <= 1 && (dr != 0 || df != 0))
        ||| (abs(x) == 1 && dr == by && abs(df) == 1)
        ||| ((abs(x) == 3 || abs(x) == 5) && abs(dr) == abs(df) && dr != 0 && clear_between(p, t, s))
        ||| ((abs(x) == 4 || abs(x) == 5) && (dr == 0) != (df == 0) && clear_between(p, t, s))
    }
}

/// The coordinate `k` steps from `r` in direction `d` (-1, 0 or 1).
pub open spec fn step(r: int, d: int, k: int) -> int {
    if d == 1 {
        r + k
    } else if d == -1 {
        r - k
    } else {
        r
    }
}

/// The square `k` steps from (r, f) in direction (dr, df).
pub open spec fn step_sq(r: int, f: int, dr: int, df: int, k: int) -> int {
    step(r, dr, k) * 8 + step(f, df, k)
}

/// The squares 1 to `k - 1` steps from (r, f) in direction (dr, df) are on
/// the board and empty.
pub open spec fn empty_steps(p: Pos, r: int, f: int, dr: int, df: int, k: int) -> bool {
    forall|i: int| 1 <= i < k ==> #[trigger] empty_at(p, r, f, dr, df, i)
}

/// The square `i` steps from (r, f) in direction (dr, df) is on the board and empty.
pub open spec fn empty_at(p: Pos, r: int, f: int, dr: int, df: int, i: int) -> bool {
    on_board(step(r, dr, i), step(f, df, i)) && p.sq[step_sq(r, f, dr, df, i)] == 0
}

pub open spec fn unit(dr: int, df: int) -> bool {
    -1 <= dr <= 1 && -1 <= df <= 1 && (dr != 0 || df != 0)
}

proof fn lemma_coords(r: int, f: int)
    requires
        on_board(r, f),
    ensures
        (r * 8 + f) / 8 == r,
        (r * 8 + f) % 8 == f,
        0 <= r * 8 + f < 64,
{
}

/// The walk that `ray_first` makes from step `k` meets its piece at some
/// step `j`, after empty squares only.
proof fn lemma_walk_found(p: Pos, r: int, f: int, dr: int, df: int, k: int, n: nat) -> (j: int)
    requires
        unit(dr, df),
        k >= 1,
        empty_steps(p, r, f, dr, df, k),
        ray_first(p, step(r, dr, k), step(f, df, k), dr, df, n) != 0,
    ensures
        k <= j < k + n,
        on_board(step(r, dr, j), step(f, df, j)),
        p.sq[step_sq(r, f, dr, df, j)] == ray_first(p, step(r, dr, k), step(f, df, k), dr, df, n),
        empty_steps(p, r, f, dr, df, j),
    decreases n,
{
    let cr = step(r, dr, k);
    let cf = step(f, df, k);
    if p.sq[cr * 8 + cf] != 0 {
        k
    } else {
        assert(n > 0 && on_board(cr, cf));
        assert(step_sq(r, f, dr, df, k) == cr * 8 + cf);
        assert(step(r, dr, k + 1) == cr + dr);
        assert(step(f, df, k + 1) == cf + df);
        assert forall|i: int| 1 <= i < k + 1 implies #[trigger] empty_at(p, r, f, dr, df, i) by {
            if i == k {
                assert(empty_at(p, r, f, dr, df, k));
            }
        }
        lemma_walk_found(p, r, f, dr, df, k + 1, (n - 1) as nat)
    }
}

/// A walk from step `k` over empty squares to a piece at step `j` finds it.
proof fn lemma_walk_reach(p: Pos, r: int, f: int, dr: int, df: int, k: int, j: int, n: nat)
    requires
        unit(dr, df),
        1 <= k <= j,
        n >= j - k + 1,
        empty_steps(p, r, f, dr, df, j),
        on_board(step(r, dr, j), step(f, df, j)),
        p.sq[step_sq(r, f, dr, df, j)] != 0,
    ensures
        ray_first(p, step(r, dr, k), step(f, df, k), dr, df, n) == p.sq[step_sq(r, f, dr, df, j)],
    decreases j - k,
{
    let cr = step(r, dr, k);
    let cf = step(f, df, k);
    assert(step(r, dr, k + 1) == cr + dr);
    assert(step(f, df, k + 1) == cf + df);
    if k < j {
        assert(empty_at(p, r, f, dr, df, k));
        lemma_walk_reach(p, r, f, dr, df, k + 1, j, (n - 1) as nat);
    }
}

/// A slider seen from `s` in direction (dr, df) attacks `s` from its square.
proof fn lemma_slider_to_attacker(p: Pos, s: int, by: int, dr: int, df: int, v1: int, v2: int) -> (t: int)
    requires
        p.wf(),
        0 <= s < 64,
        by == 1 || by == -1,
        unit(dr, df),
        (dr != 0 && df != 0 && v1 == by * B) || ((dr == 0 || df == 0) && v1 == by * R),
        v2 == by * Q,
        slider_attack(p, s / 8, s % 8, dr, df, v1, v2),
    ensures
        0 <= t < 64,
        attacks_from(p, t, s, by),
{
    let r = s / 8;
    let f = s % 8;
    let j = lemma_walk_found(p, r, f, dr, df, 1, 8);
    let tr = step(r, dr, j);
    let tf = step(f, df, j);
    let t = tr * 8 + tf;
    lemma_coords(tr, tf);
    assert(t == step_sq(r, f, dr, df, j));
    assert forall|u: int| 0 <= u < 64 && #[trigger] between(t, s, u) implies p.sq[u] == 0 by {
        let ur = u / 8;
        let uf = u % 8;
        let i = if dr != 0 { abs(ur - r) } else { abs(uf - f) };
        assert(step(r, dr, i) == ur && step(f, df, i) == uf);
        assert(1 <= i < j);
        assert(ur * 8 + uf == u);
        assert(step_sq(r, f, dr, df, i) == u);
        assert(empty_at(p, r, f, dr, df, i));
    }
    t
}

/// An attacker on a rank, file or diagonal is what `ray_first` meets
/// looking from `s` towards it.
proof fn lemma_attacker_to_slider(p: Pos, s: int, t: int, by: int)
    requires
        p.wf(),
        0 <= s < 64,
        0 <= t < 64,
        by == 1 || by == -1,
        attacks_from(p, t, s, by),
        abs(p.sq[t] as int) >= 3,
        abs(p.sq[t] as int) <= 5,
    ensures
        attacked(p, s, by),
{
    let r = s / 8;
    let f = s % 8;
    let tr = t / 8;
    let tf = t % 8;
    let dr = sign(tr - r);
    let df = sign(tf - f);
    let j = if tr != r { abs(tr - r) } else { abs(tf - f) };
    let x = p.sq[t] as int;
    assert(tr * 8 + tf == t);
    assert(step(r, dr, j) == tr && step(f, df, j) == tf);
    assert(step_sq(r, f, dr, df, j) == t);
    assert forall|i: int| 1 <= i < j implies #[trigger] empty_at(p, r, f, dr, df, i) by {
        let ur = step(r, dr, i);
        let uf = step(f, df, i);
        lemma_coords(ur, uf);
        assert(between(t, s, step_sq(r, f, dr, df, i)));
    }
    lemma_walk_reach(p, r, f, dr, df, 1, j, 8);
    assert(step(r, dr, 1) == r + dr && step(f, df, 1) == f + df);
    assert(slider_attack(p, r, f, dr, df, by * B, by * Q) || slider_attack(p, r, f, dr, df, by * R, by * Q));
}

/// A knight, king or pawn on the square offset by (a, b) from `s` attacks `s`.
proof fn lemma_stepper_attacks(p: Pos, s: int, by: int, a: int, b: int, v: int)
    requires
        p.wf(),
        0 <= s < 64,
        by == 1 || by == -1,
        p.holds(s / 8 + a, s % 8 + b, v),
        (v == by * N && ((abs(a) == 1 && abs(b) == 2) || (abs(a) == 2 && abs(b) == 1))) || (v == by * K
            && abs(a) <= 1 && abs(b) <= 1 && (a != 0 || b != 0)) || (v == by * P && a == -by && abs(b)
            == 1),
    ensures
        0 <= (s / 8 + a) * 8 + (s % 8 + b) < 64,
        attacks_from(p, (s / 8 + a) * 8 + (s % 8 + b), s, by),
{
    lemma_coords(s / 8 + a, s % 8 + b);
}

/// A square is attacked by side `by` exactly when some piece of `by`
/// attacks it: a knight a knight's jump away, a king one step away, a
/// pawn diagonally behind it (from `by`'s side), or a bishop, rook or
/// queen along a diagonal, rank or file with every square between empty.
pub proof fn law_attacked_by_some_piece(p: Pos, s: int, by: int)
    requires
        p.wf(),
        0 <= s < 64,
        by == 1 || by == -1,
    ensures
        attacked(p, s, by) <==> exists|t: int| 0 <= t < 64 && #[trigger] attacks_from(p, t, s, by),
{
    let r = s / 8;
    let f = s % 8;
    if attacked(p, s, by) {
        if knight_attack(p, r, f, by * N) {
            if p.holds(r + 1, f + 2, by * N) {
                lemma_stepper_attacks(p, s, by, 1, 2, by * N);
            } else if p.holds(r + 2, f + 1, by * N) {
                lemma_stepper_attacks(p, s, by, 2, 1, by * N);
            } else if p.holds(r - 1, f + 2, by * N) {
                lemma_stepper_attacks(p, s, by, -1, 2, by * N);
            } else if p.holds(r - 2, f + 1, by * N) {
                lemma_stepper_attacks(p, s, by, -2, 1, by * N);
            } else if p.holds(r + 1, f - 2, by * N) {
                lemma_stepper_attacks(p, s, by, 1, -2, by * N);
            } else if p.holds(r + 2, f - 1, by * N) {
                lemma_stepper_attacks(p, s, by, 2, -1, by * N);
            } else if p.holds(r - 1, f - 2, by * N) {
                lemma_stepper_attacks(p, s, by, -1, -2, by * N);
            } else {
                lemma_stepper_attacks(p, s, by, -2, -1, by * N);
            }
        } else if king_attack(p, r, f, by * K) {
            if p.holds(r - 1, f - 1, by * K) {
                lemma_stepper_attacks(p, s, by, -1, -1, by * K);
            } else if p.holds(r - 1, f, by * K) {
                lemma_stepper_attacks(p, s, by, -1, 0, by * K);
            } else if p.holds(r - 1, f + 1, by * K) {
                lemma_stepper_attacks(p, s, by, -1, 1, by * K);
            } else if p.holds(r, f - 1, by * K) {
                lemma_stepper_attacks(p, s, by, 0, -1, by * K);
            } else if p.holds(r, f + 1, by * K) {
                lemma_stepper_attacks(p, s, by, 0, 1, by * K);
            } else if p.holds(r + 1, f - 1, by * K) {
                lemma_stepper_attacks(p, s, by, 1, -1, by * K);
            } else if p.holds(r + 1, f, by * K) {
                lemma_stepper_attacks(p, s, by, 1, 0, by * K);
            } else {
                lemma_stepper_attacks(p, s, by, 1, 1, by * K);
            }
        } else if p.holds(r - by, f - 1, by * P) {
            lemma_stepper_attacks(p, s, by, -by, -1, by * P);
        } else if p.holds(r - by, f + 1, by * P) {
            lemma_stepper_attacks(p, s, by, -by, 1, by * P);
        } else if slider_attack(p, r, f, 1, 1, by * B, by * Q) {
            let t = lemma_slider_to_attacker(p, s, by, 1, 1, by * B, by * Q);
        } else if slider_attack(p, r, f, 1, -1, by * B, by * Q) {
            let t = lemma_slider_to_attacker(p, s, by, 1, -1, by * B, by * Q);
        } else if slider_attack(p, r, f, -1, 1, by * B, by * Q) {
            let t = lemma_slider_to_attacker(p, s, by, -1, 1, by * B, by * Q);
        } else if slider_attack(p, r, f, -1, -1, by * B, by * Q) {
            let t = lemma_slider_to_attacker(p, s, by, -1, -1, by * B, by * Q);
        } else if slider_attack(p, r, f, 1, 0, by * R, by * Q) {
            let t = lemma_slider_to_attacker(p, s, by, 1, 0, by * R, by * Q);
        } else if slider_attack(p, r, f, -1, 0, by * R, by * Q) {
            let t = lemma_slider_to_attacker(p, s, by, -1, 0, by * R, by * Q);
        } else if slider_attack(p, r, f, 0, 1, by * R, by * Q) {
            let t = lemma_slider_to_attacker(p, s, by, 0, 1, by * R, by * Q);
        } else {
            let t = lemma_slider_to_attacker(p, s, by, 0, -1, by * R, by * Q);
        }
    }
    if exists|t: int| 0 <= t < 64 && #[trigger] attacks_from(p, t, s, by) {
        let t = choose|t: int| 0 <= t < 64 && #[trigger] attacks_from(p, t, s, by);
        let x = p.sq[t] as int;
        let tr = t / 8;
        let tf = t % 8;
        assert(tr * 8 + tf == t);
        assert(-6 <= x <= 6);
        if abs(x) >= 3 && abs(x) <= 5 {
            lemma_attacker_to_slider(p, s, t, by);
        } else {
            assert(p.holds(r + (tr - r), f + (tf - f), x));
            if abs(x) == 2 {
                assert(x == by * N);
                assert(knight_attack(p, r, f, by * N));
            } else if abs(x) == 6 {
                assert(x == by * K);
                assert(king_attack(p, r, f, by * K));
            } else {
                assert(x == by * P);
            }
        }
    }
}

} // verus!
