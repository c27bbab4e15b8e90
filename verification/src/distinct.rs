//! The move lists repeat no move.
use vstd::prelude::*;
use vstd::seq_lib::lemma_no_dup_in_concat;
use crate::board::{abs, move_of, on_board, sign, Mv, Pos};
use crate::uci::{lemma_mv_chars_bytes, mv_chars};
use crate::movegen::{
    bishop_moves, castle_moves, king_steps, knight_moves, lemma_filter_subset, lemma_piece_moves_from,
    lemma_legal_filter, lemma_pseudo_upto_valid, leaves_king_safe, legal_moves, valid_mv, pawn_capture, pawn_moves, pawn_pushes,
    pawn_to, piece_moves, pseudo_moves, pseudo_upto, ray_from, ray_moves, rook_moves, step_to,
};

verus! {

/// The parts joined in order.
pub open spec fn joined(parts: Seq<Seq<Mv>>) -> Seq<Mv>
    decreases parts.len(),
{
    if parts.len() == 0 {
        seq![]
    } else {
        joined(parts.drop_last()) + parts.last()
    }
}

/// Parts of at most one move each, no two landing on the same square,
/// join into a list without repeats, each of whose moves is one of them.
proof fn lemma_joined_singletons(parts: Seq<Seq<Mv>>)
    requires
        forall|k: int| 0 <= k < parts.len() ==> (#[trigger] parts[k]).len() <= 1,
        forall|k1: int, k2: int|
            0 <= k1 < parts.len() && 0 <= k2 < parts.len() && k1 != k2 && (#[trigger] parts[k1]).len()
                == 1 && (#[trigger] parts[k2]).len() == 1 ==> parts[k1][0].to != parts[k2][0].to,
    ensures
        joined(parts).no_duplicates(),
        forall|i: int|
            0 <= i < joined(parts).len() ==> exists|k: int|
                0 <= k < parts.len() && parts[k].len() == 1 && #[trigger] joined(parts)[i] == parts[k][0],
    decreases parts.len(),
{
    if parts.len() > 0 {
        let init = parts.drop_last();
        assert forall|k: int| 0 <= k < init.len() implies (#[trigger] init[k]).len() <= 1 by {
            assert(init[k] == parts[k]);
        }
        assert forall|k1: int, k2: int|
            0 <= k1 < init.len() && 0 <= k2 < init.len() && k1 != k2 && (#[trigger] init[k1]).len() == 1
                && (#[trigger] init[k2]).len() == 1 implies init[k1][0].to != init[k2][0].to by {
            assert(init[k1] == parts[k1] && init[k2] == parts[k2]);
        }
        lemma_joined_singletons(init);
        let a = joined(init);
        let b = parts.last();
        let n = parts.len() - 1;
        assert(b == parts[n]);
        assert forall|i: int, j: int| 0 <= i < a.len() && 0 <= j < b.len() implies a[i] != b[j] by {
            let k = choose|k: int| 0 <= k < init.len() && init[k].len() == 1 && #[trigger] a[i] == init[k][0];
            assert(init[k] == parts[k]);
            assert(parts[k][0].to != parts[n][0].to);
        }
        lemma_no_dup_in_concat(a, b);
        assert forall|i: int| 0 <= i < joined(parts).len() implies exists|k: int|
            0 <= k < parts.len() && parts[k].len() == 1 && #[trigger] joined(parts)[i] == parts[k][0] by {
            if i < a.len() {
                assert(joined(parts)[i] == a[i]);
                let k = choose|k: int| 0 <= k < init.len() && init[k].len() == 1 && #[trigger] a[i] == init[k][0];
                assert(init[k] == parts[k]);
            } else {
                assert(joined(parts)[i] == b[i - a.len()]);
            }
        }
    }
}

proof fn lemma_coords(r: int, f: int)
    requires
        on_board(r, f),
    ensures
        (r * 8 + f) / 8 == r,
        (r * 8 + f) % 8 == f,
        0 <= r * 8 + f < 64,
{
}

/// The step moves to eight different offsets repeat no move.
proof fn lemma_steps_distinct(p: Pos, from: int, o: Seq<(int, int)>)
    requires
        0 <= from < 64,
        o.len() == 8,
        forall|k1: int, k2: int| 0 <= k1 < 8 && 0 <= k2 < 8 && k1 != k2 ==> #[trigger] o[k1] != #[trigger] o[k2],
        forall|k: int| 0 <= k < 8 ==> -2 <= (#[trigger] o[k]).0 <= 2 && -2 <= o[k].1 <= 2,
    ensures
        joined(Seq::new(8, |k: int| step_to(p, from, from / 8 + o[k].0, from % 8 + o[k].1))).no_duplicates(),
{
    let r = from / 8;
    let f = from % 8;
    let parts = Seq::new(8, |k: int| step_to(p, from, r + o[k].0, f + o[k].1));
    assert forall|k1: int, k2: int|
        0 <= k1 < parts.len() && 0 <= k2 < parts.len() && k1 != k2 && (#[trigger] parts[k1]).len() == 1
            && (#[trigger] parts[k2]).len() == 1 implies parts[k1][0].to != parts[k2][0].to by {
        let (a1, b1) = o[k1];
        let (a2, b2) = o[k2];
        lemma_coords(r + a1, f + b1);
        lemma_coords(r + a2, f + b2);
        assert(o[k1] != o[k2]);
    }
    lemma_joined_singletons(parts);
}

/// A knight's moves repeat no move.
proof fn lemma_knight_distinct(p: Pos, from: int)
    requires
        0 <= from < 64,
    ensures
        knight_moves(p, from).no_duplicates(),
{
    let o = seq![(1int, 2int), (2, 1), (-1, 2), (-2, 1), (1, -2), (2, -1), (-1, -2), (-2, -1)];
    lemma_steps_distinct(p, from, o);
    let parts = Seq::new(8, |k: int| step_to(p, from, from / 8 + o[k].0, from % 8 + o[k].1));
    reveal_with_fuel(joined, 9);
    assert(parts.drop_last().drop_last().drop_last().drop_last().drop_last().drop_last().drop_last().drop_last()
        =~= Seq::<Seq<Mv>>::empty());
    assert(knight_moves(p, from) =~= joined(parts));
}

/// A king's steps and castling moves repeat no move.
proof fn lemma_king_distinct(p: Pos, from: int)
    requires
        0 <= from < 64,
    ensures
        (king_steps(p, from) + castle_moves(p, from)).no_duplicates(),
{
    let r = from / 8;
    let f = from % 8;
    let o = seq![(-1int, -1int), (-1, 0), (-1, 1), (0, -1), (0, 1), (1, -1), (1, 0), (1, 1)];
    let steps = Seq::new(8, |k: int| step_to(p, from, r + o[k].0, f + o[k].1));
    let s = p.side as int;
    let r0 = if s == 1 { 0int } else { 7int };
    let kbit: u8 = if s == 1 { 1 } else { 4 };
    let qbit: u8 = if s == 1 { 2 } else { 8 };
    let ka: Seq<Mv> = if p.castle & kbit != 0 && p.sq[r0 * 8 + 5] == 0 && p.sq[r0 * 8 + 6] == 0 && !crate::attack::attacked(
        p,
        r0 * 8 + 5,
        -s,
    ) && !crate::attack::attacked(p, r0 * 8 + 6, -s) {
        seq![move_of(from, r0 * 8 + 6, 0)]
    } else {
        seq![]
    };
    let qa: Seq<Mv> = if p.castle & qbit != 0 && p.sq[r0 * 8 + 1] == 0 && p.sq[r0 * 8 + 2] == 0 && p.sq[r0 * 8
        + 3] == 0 && !crate::attack::attacked(p, r0 * 8 + 3, -s) && !crate::attack::attacked(p, r0 * 8 + 2, -s) {
        seq![move_of(from, r0 * 8 + 2, 0)]
    } else {
        seq![]
    };
    reveal_with_fuel(joined, 11);
    assert(king_steps(p, from) =~= joined(steps));
    if castle_moves(p, from).len() > 0 {
        let parts = steps.push(ka).push(qa);
        assert(from == r0 * 8 + 4);
        assert(castle_moves(p, from) == ka + qa);
        assert forall|k1: int, k2: int|
            0 <= k1 < parts.len() && 0 <= k2 < parts.len() && k1 != k2 && (#[trigger] parts[k1]).len() == 1
                && (#[trigger] parts[k2]).len() == 1 implies parts[k1][0].to != parts[k2][0].to by {
            if k1 < 8 {
                lemma_coords(r + o[k1].0, f + o[k1].1);
            }
            if k2 < 8 {
                lemma_coords(r + o[k2].0, f + o[k2].1);
            }
        }
        lemma_joined_singletons(parts);
        assert(parts.drop_last().drop_last() =~= steps);
        assert(joined(parts) =~= joined(steps) + ka + qa);
        assert(king_steps(p, from) + castle_moves(p, from) =~= joined(parts));
    } else {
        lemma_steps_distinct(p, from, o);
        assert(king_steps(p, from) + castle_moves(p, from) =~= joined(steps));
    }
}

/// The moves of `ms` all land on file `f`.
pub open spec fn on_file(ms: Seq<Mv>, f: int) -> bool {
    forall|i: int| 0 <= i < ms.len() ==> (#[trigger] ms[i]).to % 8 == f
}

proof fn lemma_pawn_to_distinct(from: int, r: int, f: int, promote: bool)
    requires
        0 <= from < 64,
        on_board(r, f),
    ensures
        pawn_to(from, r * 8 + f, promote).no_duplicates(),
        on_file(pawn_to(from, r * 8 + f, promote), f),
{
    lemma_coords(r, f);
}

proof fn lemma_capture_distinct(p: Pos, from: int, r1: int, f1: int, promo_rank: int)
    requires
        0 <= from < 64,
    ensures
        pawn_capture(p, from, r1, f1, promo_rank).no_duplicates(),
        on_file(pawn_capture(p, from, r1, f1, promo_rank), f1),
{
    if on_board(r1, f1) {
        lemma_pawn_to_distinct(from, r1, f1, r1 == promo_rank);
        lemma_coords(r1, f1);
    }
}

proof fn lemma_disjoint_files(a: Seq<Mv>, b: Seq<Mv>, fa: int, fb: int)
    requires
        a.no_duplicates(),
        b.no_duplicates(),
        on_file(a, fa),
        on_file(b, fb),
        fa != fb,
    ensures
        (a + b).no_duplicates(),
{
    assert forall|i: int, j: int| 0 <= i < a.len() && 0 <= j < b.len() implies a[i] != b[j] by {
        assert(a[i].to % 8 == fa && b[j].to % 8 == fb);
    }
    lemma_no_dup_in_concat(a, b);
}

/// A pawn's moves repeat no move.
proof fn lemma_pawn_distinct(p: Pos, from: int)
    requires
        0 <= from < 64,
        p.side == 1 || p.side == -1,
    ensures
        pawn_moves(p, from).no_duplicates(),
{
    let s = p.side as int;
    let r0 = from / 8;
    let f0 = from % 8;
    let promo_rank = if s == 1 { 7int } else { 0int };
    let start_rank = if s == 1 { 1int } else { 6int };
    let r1 = r0 + s;
    let pushes = pawn_pushes(p, from);
    if on_board(r1, f0) && p.sq[r1 * 8 + f0] == 0 {
        let a = pawn_to(from, r1 * 8 + f0, r1 == promo_rank);
        lemma_pawn_to_distinct(from, r1, f0, r1 == promo_rank);
        if r0 == start_rank && p.sq[(r0 + 2 * s) * 8 + f0] == 0 {
            let d = seq![move_of(from, (r0 + 2 * s) * 8 + f0, 0)];
            lemma_coords(r0 + 2 * s, f0);
            lemma_coords(r1, f0);
            assert forall|i: int, j: int| 0 <= i < a.len() && 0 <= j < d.len() implies a[i] != d[j] by {
                assert(a[i].to == r1 * 8 + f0);
            }
            lemma_no_dup_in_concat(a, d);
            assert(on_file(a + d, f0)) by {
                assert forall|i: int| 0 <= i < (a + d).len() implies (#[trigger] (a + d)[i]).to % 8 == f0 by {
                    if i < a.len() {
                        assert((a + d)[i] == a[i]);
                    } else {
                        assert((a + d)[i] == d[i - a.len()]);
                    }
                }
            }
            assert(pushes == a + d);
        } else {
            assert(pushes =~= a);
        }
    } else {
        assert(pushes =~= Seq::<Mv>::empty());
    }
    assert(pushes.no_duplicates() && on_file(pushes, f0));
    let c1 = pawn_capture(p, from, r1, f0 + -1, promo_rank);
    let c2 = pawn_capture(p, from, r1, f0 + 1, promo_rank);
    lemma_capture_distinct(p, from, r1, f0 + -1, promo_rank);
    lemma_capture_distinct(p, from, r1, f0 + 1, promo_rank);
    lemma_disjoint_files(pushes, c1, f0, f0 - 1);
    assert forall|i: int, j: int| 0 <= i < (pushes + c1).len() && 0 <= j < c2.len() implies (pushes
        + c1)[i] != c2[j] by {
        if i < pushes.len() {
            assert((pushes + c1)[i] == pushes[i]);
            assert(pushes[i].to % 8 == f0);
        } else {
            assert((pushes + c1)[i] == c1[i - pushes.len()]);
            assert(c1[i - pushes.len()].to % 8 == f0 - 1);
        }
        assert(c2[j].to % 8 == f0 + 1);
    }
    lemma_no_dup_in_concat(pushes + c1, c2);
    assert(pawn_moves(p, from) == pushes + c1 + c2);
}

/// The direction from square `from` to the square a move lands on.
pub open spec fn dir(from: int, m: Mv) -> (int, int) {
    (sign(m.to / 8 - from / 8), sign(m.to % 8 - from % 8))
}

/// Every move of `ms` leads from `from` in one of the directions `ds`.
pub open spec fn dirs_in(ms: Seq<Mv>, from: int, ds: Set<(int, int)>) -> bool {
    forall|i: int| 0 <= i < ms.len() ==> ds.contains(dir(from, #[trigger] ms[i]))
}

/// The moves of `ms` land on (r, f) or beyond it in direction (dr, df).
pub open spec fn ahead(ms: Seq<Mv>, r: int, f: int, dr: int, df: int) -> bool {
    forall|i: int|
        0 <= i < ms.len() ==> {
            let tr = (#[trigger] ms[i]).to / 8;
            let tf = ms[i].to % 8;
            &&& (dr == 0 ==> tr == r)
            &&& (dr == 1 ==> tr >= r)
            &&& (dr == -1 ==> tr <= r)
            &&& (df == 0 ==> tf == f)
            &&& (df == 1 ==> tf >= f)
            &&& (df == -1 ==> tf <= f)
        }
}

proof fn lemma_ray_distinct(p: Pos, from: int, r: int, f: int, dr: int, df: int, n: nat)
    requires
        0 <= from < 64,
        -1 <= dr <= 1,
        -1 <= df <= 1,
        dr != 0 || df != 0,
    ensures
        ray_moves(p, from, r, f, dr, df, n).no_duplicates(),
        ahead(ray_moves(p, from, r, f, dr, df, n), r, f, dr, df),
    decreases n,
{
    if n > 0 && on_board(r, f) {
        lemma_coords(r, f);
        let head = seq![move_of(from, r * 8 + f, 0)];
        if p.sq[r * 8 + f] == 0 {
            let tail = ray_moves(p, from, r + dr, f + df, dr, df, (n - 1) as nat);
            lemma_ray_distinct(p, from, r + dr, f + df, dr, df, (n - 1) as nat);
            assert forall|i: int, j: int| 0 <= i < head.len() && 0 <= j < tail.len() implies head[i]
                != tail[j] by {
                assert(tail[j].to / 8 != r || tail[j].to % 8 != f);
            }
            lemma_no_dup_in_concat(head, tail);
            let all = head + tail;
            assert forall|i: int| 0 <= i < all.len() implies {
                let tr = (#[trigger] all[i]).to / 8;
                let tf = all[i].to % 8;
                &&& (dr == 0 ==> tr == r)
                &&& (dr == 1 ==> tr >= r)
                &&& (dr == -1 ==> tr <= r)
                &&& (df == 0 ==> tf == f)
                &&& (df == 1 ==> tf >= f)
                &&& (df == -1 ==> tf <= f)
            } by {
                if i > 0 {
                    assert(all[i] == tail[i - 1]);
                }
            }
        }
    }
}

proof fn lemma_ray_from_distinct(p: Pos, from: int, dr: int, df: int)
    requires
        0 <= from < 64,
        -1 <= dr <= 1,
        -1 <= df <= 1,
        dr != 0 || df != 0,
    ensures
        ray_from(p, from, dr, df).no_duplicates(),
        dirs_in(ray_from(p, from, dr, df), from, set![(dr, df)]),
{
    lemma_ray_distinct(p, from, from / 8 + dr, from % 8 + df, dr, df, 8);
}

proof fn lemma_dirs_concat(a: Seq<Mv>, b: Seq<Mv>, from: int, da: Set<(int, int)>, db: Set<(int, int)>)
    requires
        a.no_duplicates(),
        b.no_duplicates(),
        dirs_in(a, from, da),
        dirs_in(b, from, db),
        forall|x: (int, int)| !(da.contains(x) && db.contains(x)),
    ensures
        (a + b).no_duplicates(),
        dirs_in(a + b, from, da.union(db)),
{
    assert forall|i: int, j: int| 0 <= i < a.len() && 0 <= j < b.len() implies a[i] != b[j] by {
        assert(da.contains(dir(from, a[i])) && db.contains(dir(from, b[j])));
    }
    lemma_no_dup_in_concat(a, b);
    assert forall|i: int| 0 <= i < (a + b).len() implies da.union(db).contains(dir(from, #[trigger] (a + b)[i])) by {
        if i < a.len() {
            assert((a + b)[i] == a[i]);
        } else {
            assert((a + b)[i] == b[i - a.len()]);
        }
    }
}

pub open spec fn diagonals() -> Set<(int, int)> {
    set![(1int, 1int), (1int, -1int), (-1int, 1int), (-1int, -1int)]
}

pub open spec fn orthogonals() -> Set<(int, int)> {
    set![(1int, 0int), (-1int, 0int), (0int, 1int), (0int, -1int)]
}

/// A bishop's and a rook's moves repeat no move; they lead along diagonals
/// and along ranks and files.
proof fn lemma_slider_distinct(p: Pos, from: int)
    requires
        0 <= from < 64,
    ensures
        bishop_moves(p, from).no_duplicates(),
        dirs_in(bishop_moves(p, from), from, diagonals()),
        rook_moves(p, from).no_duplicates(),
        dirs_in(rook_moves(p, from), from, orthogonals()),
{
    lemma_ray_from_distinct(p, from, 1, 1);
    lemma_ray_from_distinct(p, from, 1, -1);
    lemma_ray_from_distinct(p, from, -1, 1);
    lemma_ray_from_distinct(p, from, -1, -1);
    let d1 = ray_from(p, from, 1, 1);
    let d2 = ray_from(p, from, 1, -1);
    let d3 = ray_from(p, from, -1, 1);
    let d4 = ray_from(p, from, -1, -1);
    lemma_dirs_concat(d1, d2, from, set![(1int, 1int)], set![(1int, -1int)]);
    let s12 = set![(1int, 1int)].union(set![(1int, -1int)]);
    lemma_dirs_concat(d1 + d2, d3, from, s12, set![(-1int, 1int)]);
    let s123 = s12.union(set![(-1int, 1int)]);
    lemma_dirs_concat(d1 + d2 + d3, d4, from, s123, set![(-1int, -1int)]);
    assert(s123.union(set![(-1int, -1int)]) =~= diagonals());
    lemma_ray_from_distinct(p, from, 1, 0);
    lemma_ray_from_distinct(p, from, -1, 0);
    lemma_ray_from_distinct(p, from, 0, 1);
    lemma_ray_from_distinct(p, from, 0, -1);
    let o1 = ray_from(p, from, 1, 0);
    let o2 = ray_from(p, from, -1, 0);
    let o3 = ray_from(p, from, 0, 1);
    let o4 = ray_from(p, from, 0, -1);
    lemma_dirs_concat(o1, o2, from, set![(1int, 0int)], set![(-1int, 0int)]);
    let t12 = set![(1int, 0int)].union(set![(-1int, 0int)]);
    lemma_dirs_concat(o1 + o2, o3, from, t12, set![(0int, 1int)]);
    let t123 = t12.union(set![(0int, 1int)]);
    lemma_dirs_concat(o1 + o2 + o3, o4, from, t123, set![(0int, -1int)]);
    assert(t123.union(set![(0int, -1int)]) =~= orthogonals());
}

/// The moves of the piece on `from` repeat no move.
proof fn lemma_piece_distinct(p: Pos, from: int)
    requires
        0 <= from < 64,
        p.side == 1 || p.side == -1,
    ensures
        piece_moves(p, from).no_duplicates(),
{
    let x = p.sq[from] as int;
    if x == 0 || sign(x) != p.side {
    } else if abs(x) == 1 {
        lemma_pawn_distinct(p, from);
    } else if abs(x) == 2 {
        lemma_knight_distinct(p, from);
    } else if abs(x) == 6 {
        lemma_king_distinct(p, from);
    } else {
        lemma_slider_distinct(p, from);
        if abs(x) != 3 && abs(x) != 4 {
            lemma_dirs_concat(bishop_moves(p, from), rook_moves(p, from), from, diagonals(), orthogonals());
        }
    }
}

proof fn lemma_pseudo_upto_distinct(p: Pos, n: int)
    requires
        p.wf(),
        0 <= n <= 64,
    ensures
        pseudo_upto(p, n).no_duplicates(),
    decreases n,
{
    if n > 0 {
        let a = pseudo_upto(p, n - 1);
        let b = piece_moves(p, n - 1);
        lemma_pseudo_upto_distinct(p, n - 1);
        lemma_piece_distinct(p, n - 1);
        lemma_pseudo_upto_valid(p, n - 1);
        lemma_piece_moves_from(p, n - 1);
        assert forall|i: int, j: int| 0 <= i < a.len() && 0 <= j < b.len() implies a[i] != b[j] by {
            assert(a[i].from < n - 1);
            assert(b[j].from == n - 1);
        }
        lemma_no_dup_in_concat(a, b);
    }
}

/// Filtering a list without repeats leaves a list without repeats.
proof fn lemma_filter_distinct(s: Seq<Mv>, pred: spec_fn(Mv) -> bool)
    requires
        s.no_duplicates(),
    ensures
        s.filter(pred).no_duplicates(),
    decreases s.len(),
{
    reveal(Seq::filter);
    if s.len() > 0 {
        let init = s.drop_last();
        assert(init.no_duplicates());
        lemma_filter_distinct(init, pred);
        let a = init.filter(pred);
        let b: Seq<Mv> = if pred(s.last()) { seq![s.last()] } else { seq![] };
        assert forall|i: int, j: int| 0 <= i < a.len() && 0 <= j < b.len() implies a[i] != b[j] by {
            lemma_filter_subset(init, pred, i);
            let k = choose|k: int| 0 <= k < init.len() && init[k] == a[i];
            assert(s[k] == init[k]);
            assert(s[s.len() - 1] == s.last());
        }
        lemma_no_dup_in_concat(a, b);
        assert(s.filter(pred) == a + b);
    }
}

/// No move occurs twice in the list of pseudo-legal moves, nor in the list
/// of legal moves.
pub proof fn law_move_lists_repeat_no_move(p: Pos)
    requires
        p.wf(),
    ensures
        pseudo_moves(p).no_duplicates(),
        legal_moves(p).no_duplicates(),
{
    lemma_pseudo_upto_distinct(p, 64);
    lemma_filter_distinct(pseudo_moves(p), |m: Mv| leaves_king_safe(p, m));
}

/// The UCI names of the legal moves are pairwise different, so the list
/// of legal moves as text names no move twice.
pub proof fn law_legal_move_names_distinct(p: Pos)
    requires
        p.wf(),
    ensures
        forall|i: int, j: int|
            0 <= i < legal_moves(p).len() && 0 <= j < legal_moves(p).len() && i != j ==> mv_chars(
                #[trigger] legal_moves(p)[i],
            ) != mv_chars(#[trigger] legal_moves(p)[j]),
{
    law_move_lists_repeat_no_move(p);
    lemma_legal_filter(p);
    lemma_pseudo_upto_valid(p, 64);
    assert forall|i: int, j: int|
        0 <= i < legal_moves(p).len() && 0 <= j < legal_moves(p).len() && i != j implies mv_chars(
        #[trigger] legal_moves(p)[i],
    ) != mv_chars(#[trigger] legal_moves(p)[j]) by {
        let a = legal_moves(p)[i];
        let b = legal_moves(p)[j];
        let ka = choose|k: int| 0 <= k < pseudo_moves(p).len() && pseudo_moves(p)[k] == a;
        let kb = choose|k: int| 0 <= k < pseudo_moves(p).len() && pseudo_moves(p)[k] == b;
        assert(valid_mv(pseudo_moves(p)[ka]) && valid_mv(pseudo_moves(p)[kb]));
        lemma_mv_chars_bytes(a);
        lemma_mv_chars_bytes(b);
    }
}

} // verus!
