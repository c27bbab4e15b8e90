//! Square attacks, king location and check detection.
use vstd::prelude::*;
use crate::board::{on_board, is_on_board, rank, file, Board, Pos, B, K, N, P, Q, R};

verus! {

/// Some knight square (relative to (r, f)) holds `v`.
pub open spec fn knight_attack(p: Pos, r: int, f: int, v: int) -> bool {
    ||| p.holds(r + 1, f + 2, v)
    ||| p.holds(r + 2, f + 1, v)
    ||| p.holds(r - 1, f + 2, v)
    ||| p.holds(r - 2, f + 1, v)
    ||| p.holds(r + 1, f - 2, v)
    ||| p.holds(r + 2, f - 1, v)
    ||| p.holds(r - 1, f - 2, v)
    ||| p.holds(r - 2, f - 1, v)
}

/// Some square adjacent to (r, f) holds `v`.
pub open spec fn king_attack(p: Pos, r: int, f: int, v: int) -> bool {
    ||| p.holds(r - 1, f - 1, v)
    ||| p.holds(r - 1, f, v)
    ||| p.holds(r - 1, f + 1, v)
    ||| p.holds(r, f - 1, v)
    ||| p.holds(r, f + 1, v)
    ||| p.holds(r + 1, f - 1, v)
    ||| p.holds(r + 1, f, v)
    ||| p.holds(r + 1, f + 1, v)
}

/// The first non-empty square met walking from (r, f) in direction
/// (dr, df), at most `n` squares; 0 when none is met.
pub open spec fn ray_first(p: Pos, r: int, f: int, dr: int, df: int, n: nat) -> int
    decreases n,
{
    if n == 0 || !on_board(r, f) {
        0
    } else if p.sq[r * 8 + f] != 0 {
        p.sq[r * 8 + f] as int
    } else {
        ray_first(p, r + dr, f + df, dr, df, (n - 1) as nat)
    }
}

/// The first piece seen from (r, f) looking in direction (dr, df) is `v1` or `v2`.
pub open spec fn slider_attack(p: Pos, r: int, f: int, dr: int, df: int, v1: int, v2: int) -> bool {
    let x = ray_first(p, r + dr, f + df, dr, df, 8);
    x == v1 || x == v2
}

/// Square `s` is attacked by a piece of side `by`.
pub open spec fn attacked(p: Pos, s: int, by: int) -> bool {
    let r = s / 8;
    let f = s % 8;
    ||| knight_attack(p, r, f, by * N)
    ||| king_attack(p, r, f, by * K)
    ||| p.holds(r - by, f - 1, by * P)
    ||| p.holds(r - by, f + 1, by * P)
    ||| slider_attack(p, r, f, 1, 1, by * B, by * Q)
    ||| slider_attack(p, r, f, 1, -1, by * B, by * Q)
    ||| slider_attack(p, r, f, -1, 1, by * B, by * Q)
    ||| slider_attack(p, r, f, -1, -1, by * B, by * Q)
    ||| slider_attack(p, r, f, 1, 0, by * R, by * Q)
    ||| slider_attack(p, r, f, -1, 0, by * R, by * Q)
    ||| slider_attack(p, r, f, 0, 1, by * R, by * Q)
    ||| slider_attack(p, r, f, 0, -1, by * R, by * Q)
}

/// The first index at or after `i` whose square holds `v`, or 64.
pub open spec fn first_index(sq: Seq<i8>, v: int, i: int) -> int
    decreases 64 - i,
{
    if i >= 64 || i < 0 {
        64
    } else if sq[i] == v {
        i
    } else {
        first_index(sq, v, i + 1)
    }
}

/// The square of the (first) king of side `s`, or 64 when it has none.
pub open spec fn king_index(p: Pos, s: int) -> int {
    first_index(p.sq, s * K, 0)
}

pub open spec fn has_king(p: Pos, s: int) -> bool {
    king_index(p, s) < 64
}

/// Side `s` is in check: its king's square is attacked by the other side.
pub open spec fn in_check(p: Pos, s: int) -> bool {
    attacked(p, king_index(p, s), -s)
}

pub proof fn lemma_first_index_bounds(sq: Seq<i8>, v: int, i: int)
    requires
        0 <= i <= 64,
    ensures
        i <= first_index(sq, v, i) <= 64,
        first_index(sq, v, i) < 64 ==> sq[first_index(sq, v, i)] == v,
        forall|j: int| i <= j < first_index(sq, v, i) ==> sq[j] != v,
    decreases 64 - i,
{
    if i < 64 && sq[i] != v {
        lemma_first_index_bounds(sq, v, i + 1);
    }
}

/// If square `j` holds `v` then the first such index is at most `j`.
pub proof fn lemma_first_index_found(sq: Seq<i8>, v: int, i: int, j: int)
    requires
        0 <= i <= j < 64,
        sq[j] == v,
    ensures
        first_index(sq, v, i) <= j,
    decreases j - i,
{
    if sq[i] != v {
        lemma_first_index_found(sq, v, i + 1, j);
    }
}

impl Board {
    fn holds_at(&self, r: i8, f: i8, v: i8) -> (b: bool)
        requires
            -3 <= r <= 10,
            -3 <= f <= 10,
        ensures
            b == self@.holds(r as int, f as int, v as int),
    {
        if is_on_board(r, f) {
            self.sq[(r * 8 + f) as usize] == v
        } else {
            false
        }
    }

    fn slider_hits(&self, r0: i8, f0: i8, dr: i8, df: i8, v1: i8, v2: i8) -> (b: bool)
        requires
            0 <= r0 < 8,
            0 <= f0 < 8,
            -1 <= dr <= 1,
            -1 <= df <= 1,
            v1 != 0,
            v2 != 0,
        ensures
            b == slider_attack(self@, r0 as int, f0 as int, dr as int, df as int, v1 as int, v2 as int),
    {
        let ghost p = self@;
        let mut r = r0 + dr;
        let mut f = f0 + df;
        let mut n: u8 = 8;
        while n > 0 && is_on_board(r, f)
            invariant
                -1 <= r <= 8,
                -1 <= f <= 8,
                -1 <= dr <= 1,
                -1 <= df <= 1,
                n <= 8,
                p == self@,
                ray_first(p, r0 + dr, f0 + df, dr as int, df as int, 8) == ray_first(
                    p,
                    r as int,
                    f as int,
                    dr as int,
                    df as int,
                    n as nat,
                ),
            decreases n,
        {
            let x = self.sq[(r * 8 + f) as usize];
            if x != 0 {
                return x == v1 || x == v2;
            }
            r = r + dr;
            f = f + df;
            n = n - 1;
        }
        false
    }

    /// Whether square `s` is attacked by side `by`.
    pub fn attacked(&self, s: i8, by: i8) -> (b: bool)
        requires
            0 <= s < 64,
            by == 1 || by == -1,
        ensures
            b == attacked(self@, s as int, by as int),
    {
        let r0 = rank(s);
        let f0 = file(s);
        if self.holds_at(r0 + 1, f0 + 2, by * N) || self.holds_at(r0 + 2, f0 + 1, by * N)
            || self.holds_at(r0 - 1, f0 + 2, by * N) || self.holds_at(r0 - 2, f0 + 1, by * N)
            || self.holds_at(r0 + 1, f0 - 2, by * N) || self.holds_at(r0 + 2, f0 - 1, by * N)
            || self.holds_at(r0 - 1, f0 - 2, by * N) || self.holds_at(r0 - 2, f0 - 1, by * N) {
            return true;
        }
        if self.holds_at(r0 - 1, f0 - 1, by * K) || self.holds_at(r0 - 1, f0, by * K)
            || self.holds_at(r0 - 1, f0 + 1, by * K) || self.holds_at(r0, f0 - 1, by * K)
            || self.holds_at(r0, f0 + 1, by * K) || self.holds_at(r0 + 1, f0 - 1, by * K)
            || self.holds_at(r0 + 1, f0, by * K) || self.holds_at(r0 + 1, f0 + 1, by * K) {
            return true;
        }
        let pr = r0 - by;
        if self.holds_at(pr, f0 - 1, by * P) || self.holds_at(pr, f0 + 1, by * P) {
            return true;
        }
        if self.slider_hits(r0, f0, 1, 1, by * B, by * Q) || self.slider_hits(r0, f0, 1, -1, by * B, by * Q)
            || self.slider_hits(r0, f0, -1, 1, by * B, by * Q) || self.slider_hits(r0, f0, -1, -1, by * B, by * Q) {
            return true;
        }
        self.slider_hits(r0, f0, 1, 0, by * R, by * Q) || self.slider_hits(r0, f0, -1, 0, by * R, by * Q)
            || self.slider_hits(r0, f0, 0, 1, by * R, by * Q) || self.slider_hits(r0, f0, 0, -1, by * R, by * Q)
    }

    /// The square of the king of `side` (the first one, scanning from a1).
    pub fn king_sq(&self, side: i8) -> (k: i8)
        requires
            side == 1 || side == -1,
            has_king(self@, side as int),
        ensures
            k == king_index(self@, side as int),
            0 <= k < 64,
    {
        let v = side * K;
        let mut i: usize = 0;
        proof {
            lemma_first_index_bounds(self.sq@, v as int, 0);
        }
        while i < 64
            invariant
                0 <= i <= 64,
                v == side * K,
                first_index(self.sq@, v as int, 0) == first_index(self.sq@, v as int, i as int),
                first_index(self.sq@, v as int, 0) < 64,
            decreases 64 - i,
        {
            if self.sq[i] == v {
                return i as i8;
            }
            i += 1;
        }
        0
    }

    /// Whether `side` is in check.
    pub fn in_check(&self, side: i8) -> (b: bool)
        requires
            side == 1 || side == -1,
            has_king(self@, side as int),
        ensures
            b == in_check(self@, side as int),
    {
        let k = self.king_sq(side);
        self.attacked(k, -side)
    }
}

} // verus!
