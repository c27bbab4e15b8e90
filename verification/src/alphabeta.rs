//! Plain negamax without pruning, and the proof that alpha-beta pruning
//! does not change what the search finds.
use vstd::prelude::*;
use crate::board::{Mv, Pos};
use crate::attack::in_check;
use crate::movegen::{lemma_legal_filter, lemma_pseudo_upto_valid, legal_moves, make_pos, pseudo_moves, valid_mv};
use crate::search::{ab_loop, eval, material, mated_score, negamax_value, piece_value, repetition, root_loop};
use crate::sanity::lemma_make_wf;

verus! {

/// Negamax without pruning: the same leaves as `negamax_value`, and at an
/// inner node the best of the negated scores of the legal moves.
pub open spec fn minimax(p: Pos, depth: nat) -> int
    decreases depth, 1int, 0int,
{
    if p.half >= 100 || repetition(p) {
        0
    } else if legal_moves(p).len() == 0 {
        if in_check(p, p.side as int) {
            mated_score(depth as int)
        } else {
            0
        }
    } else if depth == 0 {
        eval(p)
    } else {
        mm_loop(p, legal_moves(p), 0, depth, i32::MIN + 1)
    }
}

/// The best of `best` and the negated scores of the moves from index `i` on.
pub open spec fn mm_loop(p: Pos, ms: Seq<Mv>, i: int, depth: nat, best: int) -> int
    decreases depth, 0int, ms.len() - i,
{
    if i < 0 || i >= ms.len() || depth == 0 {
        best
    } else {
        let score = -minimax(make_pos(p, ms[i]), (depth - 1) as nat);
        mm_loop(p, ms, i + 1, depth, if score > best { score } else { best })
    }
}

/// The first move, from index `i` on, whose negated score beats `bs`, and
/// so on: the index of the first best move and its score.
pub open spec fn root_mm(p: Pos, ms: Seq<Mv>, i: int, depth: nat, bi: int, bs: int) -> (int, int)
    decreases ms.len() - i,
{
    if i < 0 || i >= ms.len() {
        (bi, bs)
    } else {
        let score = -minimax(make_pos(p, ms[i]), (depth - 1) as nat);
        if score > bs {
            root_mm(p, ms, i + 1, depth, i, score)
        } else {
            root_mm(p, ms, i + 1, depth, bi, bs)
        }
    }
}

proof fn lemma_mm_loop_grows(p: Pos, ms: Seq<Mv>, i: int, depth: nat, best: int)
    requires
        0 <= i,
    ensures
        mm_loop(p, ms, i, depth, best) >= best,
    decreases ms.len() - i,
{
    if i < ms.len() && depth > 0 {
        let score = -minimax(make_pos(p, ms[i]), (depth - 1) as nat);
        lemma_mm_loop_grows(p, ms, i + 1, depth, if score > best { score } else { best });
    }
}

/// Fail-soft alpha-beta: inside the window the pruned search gives the
/// plain negamax value; at or below alpha it gives a value between that
/// value and alpha; at or above beta a value between beta and that value.
pub proof fn lemma_alpha_beta(p: Pos, depth: nat, alpha: int, beta: int)
    requires
        i32::MIN + 1 <= alpha < beta <= i32::MAX,
    ensures
        ({
            let v = minimax(p, depth);
            let r = negamax_value(p, depth, alpha, beta);
            &&& (alpha < v < beta ==> r == v)
            &&& (v <= alpha ==> v <= r <= alpha)
            &&& (v >= beta ==> beta <= r <= v)
        }),
    decreases depth, 1int, 0int,
{
    if !(p.half >= 100 || repetition(p)) && legal_moves(p).len() > 0 && depth > 0 {
        lemma_ab_loop(p, legal_moves(p), 0, depth, i32::MIN + 1, alpha, beta, i32::MIN + 1, alpha);
    }
}

proof fn lemma_ab_loop(
    p: Pos,
    ms: Seq<Mv>,
    i: int,
    depth: nat,
    best: int,
    a: int,
    beta: int,
    m: int,
    alpha0: int,
)
    requires
        depth > 0,
        0 <= i <= ms.len(),
        i32::MIN + 1 <= alpha0 <= a,
        beta <= i32::MAX,
        m <= best <= a < beta,
        a == alpha0 || (a == best && best == m),
    ensures
        ({
            let v = mm_loop(p, ms, i, depth, m);
            let r = ab_loop(p, ms, i, depth, best, a, beta);
            &&& (alpha0 < v < beta ==> r == v)
            &&& (v <= alpha0 ==> v <= r <= alpha0)
            &&& (v >= beta ==> beta <= r <= v)
        }),
    decreases depth, 0int, ms.len() - i,
{
    if i < ms.len() {
        let c = make_pos(p, ms[i]);
        let d1 = (depth - 1) as nat;
        lemma_alpha_beta(c, d1, -beta, -a);
        let s = -minimax(c, d1);
        let score = -negamax_value(c, d1, -beta, -a);
        let best2 = if score > best {
            score
        } else {
            best
        };
        let a2 = if best2 > a {
            best2
        } else {
            a
        };
        let m2 = if s > m {
            s
        } else {
            m
        };
        if a2 >= beta {
            lemma_mm_loop_grows(p, ms, i + 1, depth, m2);
        } else {
            lemma_ab_loop(p, ms, i + 1, depth, best2, a2, beta, m2, alpha0);
        }
    }
}

proof fn lemma_material_bound(sq: Seq<i8>, n: int)
    requires
        0 <= n <= 64,
        sq.len() == 64,
        forall|i: int| 0 <= i < 64 ==> -6 <= #[trigger] sq[i] <= 6,
    ensures
        -900 * n <= material(sq, n) <= 900 * n,
    decreases n,
{
    if n > 0 {
        lemma_material_bound(sq, n - 1);
        let x = sq[n - 1] as int;
        assert(-900 <= piece_value(x) * crate::board::sign(x) <= 900);
    }
}

proof fn lemma_mm_loop_bound(p: Pos, ms: Seq<Mv>, i: int, depth: nat, best: int)
    requires
        0 <= i <= ms.len(),
        depth > 0,
        -57600 <= best <= 57600 || (best == i32::MIN + 1 && i < ms.len()),
        forall|j: int|
            0 <= j < ms.len() ==> -57600 <= #[trigger] minimax(make_pos(p, ms[j]), (depth - 1) as nat)
                <= 57600,
    ensures
        -57600 <= mm_loop(p, ms, i, depth, best) <= 57600,
    decreases ms.len() - i,
{
    if i < ms.len() {
        let score = -minimax(make_pos(p, ms[i]), (depth - 1) as nat);
        lemma_mm_loop_bound(p, ms, i + 1, depth, if score > best { score } else { best });
    }
}

/// Every legal move is valid.
proof fn lemma_legal_valid(p: Pos)
    requires
        p.wf(),
    ensures
        forall|j: int| 0 <= j < legal_moves(p).len() ==> valid_mv(#[trigger] legal_moves(p)[j]),
{
    lemma_legal_filter(p);
    lemma_pseudo_upto_valid(p, 64);
    assert forall|j: int| 0 <= j < legal_moves(p).len() implies valid_mv(#[trigger] legal_moves(p)[j]) by {
        let k = choose|k: int| 0 <= k < pseudo_moves(p).len() && pseudo_moves(p)[k] == legal_moves(p)[j];
        assert(valid_mv(pseudo_moves(p)[k]));
    }
}

/// Scores stay within the material of a full board.
pub proof fn lemma_minimax_bound(p: Pos, depth: nat)
    requires
        p.wf(),
    ensures
        -57600 <= minimax(p, depth) <= 57600,
    decreases depth,
{
    if p.half >= 100 || repetition(p) {
    } else if legal_moves(p).len() == 0 {
    } else if depth == 0 {
        lemma_material_bound(p.sq, 64);
        let mat = material(p.sq, 64);
        assert(mat * p.side == if p.side == 1 { mat } else { -mat }) by (nonlinear_arith)
            requires
                p.side == 1 || p.side == -1,
        ;
    } else {
        let ms = legal_moves(p);
        lemma_legal_valid(p);
        assert forall|j: int| 0 <= j < ms.len() implies -57600 <= #[trigger] minimax(
            make_pos(p, ms[j]),
            (depth - 1) as nat,
        ) <= 57600 by {
            lemma_make_wf(p, ms[j]);
            lemma_minimax_bound(make_pos(p, ms[j]), (depth - 1) as nat);
        }
        lemma_mm_loop_bound(p, ms, 0, depth, i32::MIN + 1);
    }
}

proof fn lemma_root_same(p: Pos, ms: Seq<Mv>, i: int, depth: nat, bi: int, bs: int)
    requires
        0 <= i <= ms.len(),
        depth >= 1,
        -57600 <= bs <= 57600 || bs == i32::MIN + 1,
        forall|j: int|
            0 <= j < ms.len() ==> -57600 <= #[trigger] minimax(make_pos(p, ms[j]), (depth - 1) as nat)
                <= 57600,
    ensures
        root_loop(p, ms, i, depth, bi, bs, bs) == root_mm(p, ms, i, depth, bi, bs),
    decreases ms.len() - i,
{
    if i < ms.len() {
        let c = make_pos(p, ms[i]);
        let d1 = (depth - 1) as nat;
        lemma_alpha_beta(c, d1, -(i32::MAX - 1), -bs);
        let s = -minimax(c, d1);
        if s > bs {
            lemma_root_same(p, ms, i + 1, depth, i, s);
        } else {
            lemma_root_same(p, ms, i + 1, depth, bi, bs);
        }
    }
}

/// The negated plain negamax score of move `j`.
pub open spec fn child_score(p: Pos, ms: Seq<Mv>, j: int, depth: nat) -> int {
    -minimax(make_pos(p, ms[j]), (depth - 1) as nat)
}

proof fn lemma_root_mm_best(p: Pos, ms: Seq<Mv>, i: int, depth: nat, bi: int, bs: int)
    requires
        1 <= i <= ms.len(),
        0 <= bi < i,
        bs == child_score(p, ms, bi, depth),
        forall|j: int| 0 <= j < i ==> #[trigger] child_score(p, ms, j, depth) <= bs,
        forall|j: int| 0 <= j < bi ==> #[trigger] child_score(p, ms, j, depth) < bs,
    ensures
        ({
            let r = root_mm(p, ms, i, depth, bi, bs);
            &&& 0 <= r.0 < ms.len()
            &&& r.1 == child_score(p, ms, r.0, depth)
            &&& forall|j: int| 0 <= j < ms.len() ==> #[trigger] child_score(p, ms, j, depth) <= r.1
            &&& forall|j: int| 0 <= j < r.0 ==> #[trigger] child_score(p, ms, j, depth) < r.1
        }),
    decreases ms.len() - i,
{
    if i < ms.len() {
        let s = child_score(p, ms, i, depth);
        if s > bs {
            lemma_root_mm_best(p, ms, i + 1, depth, i, s);
        } else {
            lemma_root_mm_best(p, ms, i + 1, depth, bi, bs);
        }
    }
}

/// Pruning does not change the root search: the score is the best negated
/// plain negamax score over the legal moves, and the move is the first
/// legal move with that score.
pub proof fn lemma_search_is_plain_negamax(p: Pos, depth: nat)
    requires
        p.wf(),
        depth >= 1,
        legal_moves(p).len() > 0,
    ensures
        ({
            let ms = legal_moves(p);
            let r = root_loop(p, ms, 0, depth, 0, i32::MIN + 1, i32::MIN + 1);
            &&& 0 <= r.0 < ms.len()
            &&& r.1 == child_score(p, ms, r.0, depth)
            &&& forall|j: int| 0 <= j < ms.len() ==> #[trigger] child_score(p, ms, j, depth) <= r.1
            &&& forall|j: int| 0 <= j < r.0 ==> #[trigger] child_score(p, ms, j, depth) < r.1
        }),
{
    let ms = legal_moves(p);
    lemma_legal_valid(p);
    assert forall|j: int| 0 <= j < ms.len() implies -57600 <= #[trigger] minimax(
        make_pos(p, ms[j]),
        (depth - 1) as nat,
    ) <= 57600 by {
        lemma_make_wf(p, ms[j]);
        lemma_minimax_bound(make_pos(p, ms[j]), (depth - 1) as nat);
    }
    lemma_root_same(p, ms, 0, depth, 0, i32::MIN + 1);
    let s0 = child_score(p, ms, 0, depth);
    assert(s0 > i32::MIN + 1);
    assert(root_mm(p, ms, 0, depth, 0, i32::MIN + 1) == root_mm(p, ms, 1, depth, 0, s0));
    lemma_root_mm_best(p, ms, 1, depth, 0, s0);
}

} // verus!
