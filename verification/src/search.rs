//! Evaluation, draw detection, move-path enumeration (perft) and the
//! negamax alpha-beta search.
use vstd::prelude::*;
use crate::board::{abs, piece_type, sign, signum, Board, Mv, Pos, Snap, Snapshot, B, N, P, Q, R};
use crate::attack::{has_king, in_check};
use crate::movegen::{
    lemma_filter_subset, lemma_pseudo_upto_valid, leaves_king_safe, legal_moves,
    legal_ok, make_ok, make_pos, pseudo_moves, valid_mv,
};

verus! {

/// Material value of a piece code (kings count 0).
pub open spec fn piece_value(x: int) -> int {
    let t = abs(x);
    if t == 1 {
        100
    } else if t == 2 {
        320
    } else if t == 3 {
        330
    } else if t == 4 {
        500
    } else if t == 5 {
        900
    } else {
        0
    }
}

/// White's material minus black's material over the first `n` squares.
pub open spec fn material(sq: Seq<i8>, n: int) -> int
    decreases n,
{
    if n <= 0 {
        0
    } else {
        material(sq, n - 1) + piece_value(sq[n - 1] as int) * sign(sq[n - 1] as int)
    }
}

/// The static evaluation from the side to move's point of view.
pub open spec fn eval(p: Pos) -> int {
    material(p.sq, 64) * p.side
}

/// The number of times the position `s` occurs in `h`.
pub open spec fn occurrences(h: Seq<Snap>, s: Snap) -> nat
    decreases h.len(),
{
    if h.len() == 0 {
        0
    } else {
        occurrences(h.drop_last(), s) + if h.last() == s {
            1nat
        } else {
            0nat
        }
    }
}

/// The current position has occurred at least three times in the game:
/// the same squares, side to move, castling rights and en passant capture
/// possibilities.
pub open spec fn repetition(p: Pos) -> bool {
    occurrences(p.hist, p.hist.last()) >= 3
}

/// Every pseudo-legal move can be made, and the king of the side to move
/// exists whenever it has no legal move.
pub open spec fn moves_ok(p: Pos) -> bool {
    &&& p.wf()
    &&& legal_ok(p)
    &&& (legal_moves(p).len() == 0 ==> has_king(p, p.side as int))
}

/// The number of move paths of length `depth` from `p`.
pub open spec fn perft_count(p: Pos, depth: nat) -> nat
    decreases depth, 0int,
{
    if depth == 0 {
        1
    } else if depth == 1 {
        legal_moves(p).len()
    } else {
        perft_sum(p, legal_moves(p), (depth - 1) as nat)
    }
}

/// The sum of `perft_count(make_pos(p, m), d)` over the moves `m` of `ms`.
pub open spec fn perft_sum(p: Pos, ms: Seq<Mv>, d: nat) -> nat
    decreases d, ms.len(),
{
    if ms.len() == 0 {
        0
    } else {
        perft_sum(p, ms.drop_last(), d) + perft_count(make_pos(p, ms.last()), d)
    }
}

/// Counting to `depth` generates legal moves only where that cannot fail.
pub open spec fn perft_ok(p: Pos, depth: nat) -> bool
    decreases depth,
{
    depth == 0 || (p.wf() && legal_ok(p) && (depth == 1 || forall|i: int|
        0 <= i < legal_moves(p).len() ==> perft_ok(
            #[trigger] make_pos(p, legal_moves(p)[i]),
            (depth - 1) as nat,
        )))
}

/// The score of a side to move that has no legal move and is in check.
pub open spec fn mated_score(depth: int) -> int {
    -30000 + if 5 - depth > 0 {
        5 - depth
    } else {
        0
    }
}

/// Negamax with fail-soft alpha-beta pruning. A draw by the fifty-move
/// rule or by repetition scores 0; no legal move scores the mate score in
/// check and 0 (stalemate) otherwise; depth 0 scores the evaluation.
pub open spec fn negamax_value(p: Pos, depth: nat, alpha: int, beta: int) -> int
    decreases depth, 1int, 0int,
{
    if p.half >= 100 || repetition(p) {
        0
    } else if legal_moves(p).len() == 0 {
        if in_check(p, p.side as int) {
            mated_score(depth as int)
        } else {
            0
        }
    } else if depth == 0 {
        eval(p)
    } else {
        ab_loop(p, legal_moves(p), 0, depth, i32::MIN + 1, alpha, beta)
    }
}

/// The alpha-beta loop over the moves `ms` from index `i`, with the best
/// score so far and the current window; it stops at a cutoff.
pub open spec fn ab_loop(p: Pos, ms: Seq<Mv>, i: int, depth: nat, best: int, alpha: int, beta: int) -> int
    decreases depth, 0int, ms.len() - i,
{
    if i < 0 || i >= ms.len() || depth == 0 {
        best
    } else {
        let score = -negamax_value(make_pos(p, ms[i]), (depth - 1) as nat, -beta, -alpha);
        let best2 = if score > best {
            score
        } else {
            best
        };
        let alpha2 = if best2 > alpha {
            best2
        } else {
            alpha
        };
        if alpha2 >= beta {
            best2
        } else {
            ab_loop(p, ms, i + 1, depth, best2, alpha2, beta)
        }
    }
}

/// The search of `p` to `depth` with the window (alpha, beta) only
/// generates legal moves where that cannot fail, along the moves that the
/// alpha-beta loop visits.
pub open spec fn nm_ok(p: Pos, depth: nat, alpha: int, beta: int) -> bool
    decreases depth, 1int, 0int,
{
    p.wf() && (p.half >= 100 || repetition(p) || (moves_ok(p) && (legal_moves(p).len() == 0
        || depth == 0 || ab_ok(p, legal_moves(p), 0, depth, i32::MIN + 1, alpha, beta))))
}

/// The alpha-beta loop from index `i` only searches moves whose search
/// cannot fail.
pub open spec fn ab_ok(p: Pos, ms: Seq<Mv>, i: int, depth: nat, best: int, alpha: int, beta: int) -> bool
    decreases depth, 0int, ms.len() - i,
{
    if i < 0 || i >= ms.len() || depth == 0 {
        true
    } else {
        let child = make_pos(p, ms[i]);
        let score = -negamax_value(child, (depth - 1) as nat, -beta, -alpha);
        let best2 = if score > best {
            score
        } else {
            best
        };
        let alpha2 = if best2 > alpha {
            best2
        } else {
            alpha
        };
        nm_ok(child, (depth - 1) as nat, -beta, -alpha) && (alpha2 >= beta || ab_ok(
            p,
            ms,
            i + 1,
            depth,
            best2,
            alpha2,
            beta,
        ))
    }
}

/// The root loop: the index and score of the first move with the highest
/// score, each move searched with the window (alpha, i32::MAX - 1).
pub open spec fn root_loop(p: Pos, ms: Seq<Mv>, i: int, depth: nat, best_i: int, best_s: int, alpha: int) -> (int, int)
    decreases ms.len() - i,
{
    if i < 0 || i >= ms.len() {
        (best_i, best_s)
    } else {
        let score = -negamax_value(make_pos(p, ms[i]), (depth - 1) as nat, -(i32::MAX - 1), -alpha);
        let bi = if score > best_s {
            i
        } else {
            best_i
        };
        let bs = if score > best_s {
            score
        } else {
            best_s
        };
        let alpha2 = if bs > alpha {
            bs
        } else {
            alpha
        };
        root_loop(p, ms, i + 1, depth, bi, bs, alpha2)
    }
}

/// The best move and its score; no move when there is no legal move, with
/// the mate score -30000 in check and 0 otherwise.
pub open spec fn search_result(p: Pos, depth: nat) -> (Option<Mv>, int) {
    let ms = legal_moves(p);
    if ms.len() == 0 {
        (None, if in_check(p, p.side as int) { -30000 } else { 0 })
    } else {
        let r = root_loop(p, ms, 0, depth, 0, i32::MIN + 1, i32::MIN + 1);
        (Some(ms[r.0]), r.1)
    }
}

/// The root search only generates legal moves where that cannot fail.
pub open spec fn search_ok(p: Pos, depth: nat) -> bool {
    moves_ok(p) && root_ok(p, legal_moves(p), 0, depth, i32::MIN + 1, i32::MIN + 1)
}

/// The root loop from index `i` only searches moves whose search cannot fail.
pub open spec fn root_ok(p: Pos, ms: Seq<Mv>, i: int, depth: nat, best_s: int, alpha: int) -> bool
    decreases ms.len() - i,
{
    if i < 0 || i >= ms.len() {
        true
    } else {
        let child = make_pos(p, ms[i]);
        let score = -negamax_value(child, (depth - 1) as nat, -(i32::MAX - 1), -alpha);
        let bs = if score > best_s {
            score
        } else {
            best_s
        };
        let alpha2 = if bs > alpha {
            bs
        } else {
            alpha
        };
        nm_ok(child, (depth - 1) as nat, -(i32::MAX - 1), -alpha) && root_ok(
            p,
            ms,
            i + 1,
            depth,
            bs,
            alpha2,
        )
    }
}

/// Facts about each legal move: it is a valid pseudo-legal move that can
/// be made, and it leaves the mover's king present and safe.
pub proof fn lemma_legal_facts(p: Pos)
    requires
        p.wf(),
        legal_ok(p),
    ensures
        forall|j: int|
            0 <= j < legal_moves(p).len() ==> {
                let m = #[trigger] legal_moves(p)[j];
                &&& valid_mv(m)
                &&& make_ok(p, m)
                &&& has_king(make_pos(p, m), p.side as int)
                &&& leaves_king_safe(p, m)
                &&& pseudo_moves(p).contains(m)
            },
{
    let pred = |m: Mv| leaves_king_safe(p, m);
    lemma_pseudo_upto_valid(p, 64);
    assert forall|j: int| 0 <= j < legal_moves(p).len() implies {
        let m = #[trigger] legal_moves(p)[j];
        &&& valid_mv(m)
        &&& make_ok(p, m)
        &&& has_king(make_pos(p, m), p.side as int)
        &&& leaves_king_safe(p, m)
        &&& pseudo_moves(p).contains(m)
    } by {
        lemma_filter_subset(pseudo_moves(p), pred, j);
        pseudo_moves(p).lemma_filter_pred(pred, j);
        let m = legal_moves(p)[j];
        let k = choose|k: int| 0 <= k < pseudo_moves(p).len() && pseudo_moves(p)[k] == m;
        assert(valid_mv(pseudo_moves(p)[k]));
    }
}

proof fn lemma_perft_sum_prefix(p: Pos, ms: Seq<Mv>, i: int, d: nat)
    requires
        0 <= i <= ms.len(),
    ensures
        perft_sum(p, ms.take(i), d) <= perft_sum(p, ms, d),
    decreases ms.len() - i,
{
    if i < ms.len() {
        lemma_perft_sum_prefix(p, ms, i + 1, d);
        assert(ms.take(i + 1).drop_last() =~= ms.take(i));
    } else {
        assert(ms.take(i) =~= ms);
    }
}

impl Board {
    /// Material balance from the side to move's point of view.
    pub fn eval(&self) -> (v: i32)
        requires
            self@.wf(),
        ensures
            v == eval(self@),
            -57600 <= v <= 57600,
    {
        let mut score: i32 = 0;
        let mut i: usize = 0;
        while i < 64
            invariant
                0 <= i <= 64,
                self@.wf(),
                score == material(self.sq@, i as int),
                -900 * i <= score <= 900 * i,
            decreases 64 - i,
        {
            let p = self.sq[i];
            if p != 0 {
                let t = piece_type(p);
                let val: i32 = if t == P {
                    100
                } else if t == N {
                    320
                } else if t == B {
                    330
                } else if t == R {
                    500
                } else if t == Q {
                    900
                } else {
                    0
                };
                score = score + val * (signum(p) as i32);
            }
            i += 1;
        }
        let side = self.side as i32;
        assert(score * side == if side == 1 { score as int } else { -score }) by (nonlinear_arith)
            requires
                side == 1 || side == -1,
        ;
        score * side
    }

    /// Whether the current position has occurred at least three times in the game.
    pub fn is_repetition(&self) -> (r: bool)
        requires
            self@.wf(),
        ensures
            r == repetition(self@),
    {
        let ghost h = self@.hist;
        let n = self.hist.len();
        let last = self.hist[n - 1];
        let mut count: usize = 0;
        let mut i: usize = 0;
        while i < n
            invariant
                0 <= i <= n,
                n == self.hist.len(),
                count <= i,
                h == self@.hist,
                last@ == h.last(),
                count == occurrences(h.take(i as int), last@),
            decreases n - i,
        {
            if same_snapshot(&self.hist[i], &last) {
                count += 1;
            }
            proof {
                assert(h.take(i + 1).drop_last() =~= h.take(i as int));
            }
            i += 1;
        }
        assert(h.take(n as int) =~= h);
        count >= 3
    }
}

/// Whether two records are of the same position.
pub fn same_snapshot(a: &Snapshot, b: &Snapshot) -> (r: bool)
    ensures
        r == (a@ == b@),
{
    if a.side != b.side || a.castle != b.castle || a.ep != b.ep {
        return false;
    }
    let mut i: usize = 0;
    while i < 64
        invariant
            0 <= i <= 64,
            forall|j: int| 0 <= j < i ==> a.sq@[j] == b.sq@[j],
        decreases 64 - i,
    {
        if a.sq[i] != b.sq[i] {
            return false;
        }
        i += 1;
    }
    assert(a.sq@ =~= b.sq@);
    true
}

/// The number of move paths of length `depth` from `b`.
pub fn perft(b: &Board, depth: u32) -> (n: u64)
    requires
        perft_ok(b@, depth as nat),
        b@.wf(),
        perft_count(b@, depth as nat) <= u64::MAX,
    ensures
        n == perft_count(b@, depth as nat),
    decreases depth,
{
    if depth == 0 {
        return 1;
    }
    let moves = b.legal_moves();
    if depth == 1 {
        return moves.len() as u64;
    }
    let ghost p = b@;
    let ghost d = (depth - 1) as nat;
    proof {
        lemma_legal_facts(p);
        lemma_perft_sum_prefix(p, moves@, moves@.len() as int, d);
    }
    let mut total: u64 = 0;
    let mut i: usize = 0;
    while i < moves.len()
        invariant
            0 <= i <= moves.len(),
            p == b@,
            p.wf(),
            legal_ok(p),
            depth >= 2,
            d == depth - 1,
            moves@ == legal_moves(p),
            perft_ok(p, depth as nat),
            perft_count(p, depth as nat) == perft_sum(p, moves@, d),
            perft_sum(p, moves@, d) <= u64::MAX,
            total == perft_sum(p, moves@.take(i as int), d),
            forall|j: int|
                0 <= j < legal_moves(p).len() ==> {
                    let m = #[trigger] legal_moves(p)[j];
                    &&& valid_mv(m)
                    &&& make_ok(p, m)
                },
        decreases moves.len() - i,
    {
        let m = moves[i];
        let nb = b.make(&m);
        proof {
            assert(moves@.take(i + 1).drop_last() =~= moves@.take(i as int));
            assert(moves@.take(i + 1).last() == m);
            lemma_perft_sum_prefix(p, moves@, i + 1, d);
            assert(perft_ok(make_pos(p, legal_moves(p)[i as int]), d));
        }
        let c = perft(&nb, depth - 1);
        total = total + c;
        i += 1;
    }
    assert(moves@.take(moves@.len() as int) =~= moves@);
    total
}


/// The number of move paths of length `depth` from `b`, or none when
/// counting them would fail (`perft_ok` does not hold) or the count does
/// not fit in a `u64`.
pub fn perft_checked(b: &Board, depth: u32) -> (r: Option<u64>)
    requires
        b@.wf(),
    ensures
        match r {
            Some(n) => perft_ok(b@, depth as nat) && n == perft_count(b@, depth as nat),
            None => !(perft_ok(b@, depth as nat) && perft_count(b@, depth as nat) <= u64::MAX),
        },
    decreases depth,
{
    if depth == 0 {
        return Some(1);
    }
    if !b.can_list_moves() {
        return None;
    }
    let moves = b.legal_moves();
    if depth == 1 {
        return Some(moves.len() as u64);
    }
    let ghost p = b@;
    let ghost d = (depth - 1) as nat;
    proof {
        lemma_legal_facts(p);
    }
    let mut total: u64 = 0;
    let mut i: usize = 0;
    while i < moves.len()
        invariant
            0 <= i <= moves.len(),
            p == b@,
            p.wf(),
            legal_ok(p),
            depth >= 2,
            d == depth - 1,
            moves@ == legal_moves(p),
            perft_count(p, depth as nat) == perft_sum(p, moves@, d),
            total == perft_sum(p, moves@.take(i as int), d),
            forall|j: int| 0 <= j < i ==> perft_ok(#[trigger] make_pos(p, legal_moves(p)[j]), d),
            forall|j: int|
                0 <= j < legal_moves(p).len() ==> {
                    let m = #[trigger] legal_moves(p)[j];
                    &&& valid_mv(m)
                    &&& make_ok(p, m)
                },
        decreases moves.len() - i,
    {
        let m = moves[i];
        let nb = b.make(&m);
        proof {
            assert(moves@.take(i + 1).drop_last() =~= moves@.take(i as int));
            assert(moves@.take(i + 1).last() == m);
            lemma_perft_sum_prefix(p, moves@, i + 1, d);
        }
        match perft_checked(&nb, depth - 1) {
            None => {
                return None;
            },
            Some(c) => {
                match total.checked_add(c) {
                    None => {
                        return None;
                    },
                    Some(t) => {
                        total = t;
                    },
                }
            },
        }
        i += 1;
    }
    assert(moves@.take(moves@.len() as int) =~= moves@);
    Some(total)
}

/// Negamax alpha-beta score of `b` searched to `depth`, within the window
/// (alpha, beta).
pub fn negamax(b: &Board, depth: i32, alpha: i32, beta: i32) -> (v: i32)
    requires
        b@.wf(),
        depth >= 0,
        alpha > i32::MIN,
        beta > i32::MIN,
        nm_ok(b@, depth as nat, alpha as int, beta as int),
    ensures
        v == negamax_value(b@, depth as nat, alpha as int, beta as int),
        -57600 <= v <= 57600,
    decreases depth,
{
    if b.half >= 100 || b.is_repetition() {
        return 0;
    }
    let moves = b.legal_moves();
    if moves.len() == 0 {
        return if b.in_check(b.side) {
            -30000 + (if 5 - depth > 0 { 5 - depth } else { 0 })
        } else {
            0
        };
    }
    if depth == 0 {
        return b.eval();
    }
    let ghost p = b@;
    let ghost d = (depth - 1) as nat;
    proof {
        lemma_legal_facts(p);
    }
    let ghost alpha0 = alpha as int;
    let mut best: i32 = i32::MIN + 1;
    let mut a = alpha;
    let mut i: usize = 0;
    while i < moves.len()
        invariant
            0 <= i <= moves.len(),
            p == b@,
            p.wf(),
            depth >= 1,
            d == depth - 1,
            moves@ == legal_moves(p),
            moves@.len() > 0,
            ab_ok(p, moves@, i as int, depth as nat, best as int, a as int, beta as int),
            !(p.half >= 100 || repetition(p)),
            a > i32::MIN,
            alpha0 == alpha as int,
            beta > i32::MIN,
            i > 0 ==> -57600 <= best <= 57600,
            i == 0 ==> best == i32::MIN + 1,
            negamax_value(p, depth as nat, alpha0, beta as int) == ab_loop(
                p,
                moves@,
                i as int,
                depth as nat,
                best as int,
                a as int,
                beta as int,
            ),
            forall|j: int|
                0 <= j < legal_moves(p).len() ==> {
                    let m = #[trigger] legal_moves(p)[j];
                    &&& valid_mv(m)
                    &&& make_ok(p, m)
                },
        decreases moves.len() - i,
    {
        let m = moves[i];
        let nb = b.make(&m);
        let score = -negamax(&nb, depth - 1, -beta, -a);
        let ghost old_best = best as int;
        let ghost old_alpha = a as int;
        if score > best {
            best = score;
        }
        if best > a {
            a = best;
        }
        proof {
            assert(ab_loop(p, moves@, i as int, depth as nat, old_best, old_alpha, beta as int) == if a
                >= beta {
                best as int
            } else {
                ab_loop(p, moves@, i + 1, depth as nat, best as int, a as int, beta as int)
            });
        }
        if a >= beta {
            return best;
        }
        i += 1;
    }
    best
}


/// Negamax as `negamax` computes it, or none when that search would fail
/// (`nm_ok` does not hold).
pub fn negamax_checked(b: &Board, depth: i32, alpha: i32, beta: i32) -> (r: Option<i32>)
    requires
        b@.wf(),
        depth >= 0,
        alpha > i32::MIN,
        beta > i32::MIN,
    ensures
        match r {
            Some(v) => nm_ok(b@, depth as nat, alpha as int, beta as int) && v == negamax_value(
                b@,
                depth as nat,
                alpha as int,
                beta as int,
            ) && -57600 <= v <= 57600,
            None => !nm_ok(b@, depth as nat, alpha as int, beta as int),
        },
    decreases depth,
{
    if b.half >= 100 || b.is_repetition() {
        return Some(0);
    }
    if !b.can_list_moves() {
        return None;
    }
    let moves = b.legal_moves();
    if moves.len() == 0 {
        if b.king_index_of(b.side) == 64 {
            return None;
        }
        return Some(
            if b.in_check(b.side) {
                -30000 + (if 5 - depth > 0 { 5 - depth } else { 0 })
            } else {
                0
            },
        );
    }
    if depth == 0 {
        return Some(b.eval());
    }
    let ghost p = b@;
    let ghost d = (depth - 1) as nat;
    proof {
        lemma_legal_facts(p);
    }
    let ghost alpha0 = alpha as int;
    let mut best: i32 = i32::MIN + 1;
    let mut a = alpha;
    let mut i: usize = 0;
    while i < moves.len()
        invariant
            0 <= i <= moves.len(),
            p == b@,
            p.wf(),
            moves_ok(p),
            depth >= 1,
            d == depth - 1,
            moves@ == legal_moves(p),
            moves@.len() > 0,
            nm_ok(p, depth as nat, alpha0, beta as int) <==> ab_ok(
                p,
                moves@,
                i as int,
                depth as nat,
                best as int,
                a as int,
                beta as int,
            ),
            !(p.half >= 100 || repetition(p)),
            a > i32::MIN,
            alpha0 == alpha as int,
            beta > i32::MIN,
            i > 0 ==> -57600 <= best <= 57600,
            i == 0 ==> best == i32::MIN + 1,
            negamax_value(p, depth as nat, alpha0, beta as int) == ab_loop(
                p,
                moves@,
                i as int,
                depth as nat,
                best as int,
                a as int,
                beta as int,
            ),
            forall|j: int|
                0 <= j < legal_moves(p).len() ==> {
                    let m = #[trigger] legal_moves(p)[j];
                    &&& valid_mv(m)
                    &&& make_ok(p, m)
                },
        decreases moves.len() - i,
    {
        let m = moves[i];
        let nb = b.make(&m);
        let child = negamax_checked(&nb, depth - 1, -beta, -a);
        let score = match child {
            Some(v) => -v,
            None => {
                return None;
            },
        };
        let ghost old_best = best as int;
        let ghost old_alpha = a as int;
        if score > best {
            best = score;
        }
        if best > a {
            a = best;
        }
        proof {
            assert(ab_loop(p, moves@, i as int, depth as nat, old_best, old_alpha, beta as int) == if a
                >= beta {
                best as int
            } else {
                ab_loop(p, moves@, i + 1, depth as nat, best as int, a as int, beta as int)
            });
        }
        if a >= beta {
            return Some(best);
        }
        i += 1;
    }
    Some(best)
}

/// The best move of `b` searched to `depth` plies (the first one with the
/// highest score) with its score; no move when there is none.
pub fn search(b: &Board, depth: i32) -> (r: (Option<Mv>, i32))
    requires
        depth >= 1,
        search_ok(b@, depth as nat),
    ensures
        r.0 == search_result(b@, depth as nat).0,
        r.1 == search_result(b@, depth as nat).1,
        r.0 is None <==> legal_moves(b@).len() == 0,
        r.0 matches Some(m) ==> legal_moves(b@).contains(m),
{
    let moves = b.legal_moves();
    if moves.len() == 0 {
        return (None, if b.in_check(b.side) { -30000 } else { 0 });
    }
    let ghost p = b@;
    let ghost d = (depth - 1) as nat;
    proof {
        lemma_legal_facts(p);
    }
    let mut best_m = moves[0];
    let ghost mut best_i: int = 0;
    let mut best_s: i32 = i32::MIN + 1;
    let mut alpha: i32 = i32::MIN + 1;
    let beta: i32 = i32::MAX - 1;
    let mut i: usize = 0;
    while i < moves.len()
        invariant
            0 <= i <= moves.len(),
            p == b@,
            p.wf(),
            depth >= 1,
            d == depth - 1,
            beta == i32::MAX - 1,
            moves@ == legal_moves(p),
            moves@.len() > 0,
            root_ok(p, moves@, i as int, depth as nat, best_s as int, alpha as int),
            i32::MIN < alpha <= 57600,
            best_s <= 57600,
            0 <= best_i < moves@.len(),
            best_m == moves@[best_i],
            root_loop(p, moves@, 0, depth as nat, 0, i32::MIN + 1, i32::MIN + 1) == root_loop(
                p,
                moves@,
                i as int,
                depth as nat,
                best_i,
                best_s as int,
                alpha as int,
            ),
            forall|j: int|
                0 <= j < legal_moves(p).len() ==> {
                    let m = #[trigger] legal_moves(p)[j];
                    &&& valid_mv(m)
                    &&& make_ok(p, m)
                },
        decreases moves.len() - i,
    {
        let m = moves[i];
        let nb = b.make(&m);
        let score = -negamax(&nb, depth - 1, -beta, -alpha);
        if score > best_s {
            best_s = score;
            best_m = m;
            proof {
                best_i = i as int;
            }
        }
        if best_s > alpha {
            alpha = best_s;
        }
        i += 1;
    }
    proof {
        assert(moves@[best_i] == legal_moves(p)[best_i]);
    }
    (Some(best_m), best_s)
}

/// The search as `search` does it, or none when that search would fail
/// (`search_ok` does not hold).
pub fn search_checked(b: &Board, depth: i32) -> (r: Option<(Option<Mv>, i32)>)
    requires
        b@.wf(),
        depth >= 1,
    ensures
        match r {
            Some(x) => search_ok(b@, depth as nat) && x.0 == search_result(b@, depth as nat).0 && x.1
                == search_result(b@, depth as nat).1 && (x.0 matches Some(m) ==> legal_moves(
                b@,
            ).contains(m)),
            None => !search_ok(b@, depth as nat),
        },
{
    if !b.can_list_moves() {
        return None;
    }
    let moves = b.legal_moves();
    if moves.len() == 0 {
        if b.king_index_of(b.side) == 64 {
            return None;
        }
        return Some((None, if b.in_check(b.side) { -30000 } else { 0 }));
    }
    let ghost p = b@;
    let ghost d = (depth - 1) as nat;
    proof {
        lemma_legal_facts(p);
    }
    let mut best_m = moves[0];
    let ghost mut best_i: int = 0;
    let mut best_s: i32 = i32::MIN + 1;
    let mut alpha: i32 = i32::MIN + 1;
    let beta: i32 = i32::MAX - 1;
    let mut i: usize = 0;
    while i < moves.len()
        invariant
            0 <= i <= moves.len(),
            p == b@,
            p.wf(),
            moves_ok(p),
            depth >= 1,
            d == depth - 1,
            beta == i32::MAX - 1,
            moves@ == legal_moves(p),
            moves@.len() > 0,
            search_ok(p, depth as nat) <==> root_ok(p, moves@, i as int, depth as nat, best_s as int, alpha as int),
            i32::MIN < alpha <= 57600,
            best_s <= 57600,
            0 <= best_i < moves@.len(),
            best_m == moves@[best_i],
            root_loop(p, moves@, 0, depth as nat, 0, i32::MIN + 1, i32::MIN + 1) == root_loop(
                p,
                moves@,
                i as int,
                depth as nat,
                best_i,
                best_s as int,
                alpha as int,
            ),
            forall|j: int|
                0 <= j < legal_moves(p).len() ==> {
                    let m = #[trigger] legal_moves(p)[j];
                    &&& valid_mv(m)
                    &&& make_ok(p, m)
                },
        decreases moves.len() - i,
    {
        let m = moves[i];
        let nb = b.make(&m);
        let score = match negamax_checked(&nb, depth - 1, -beta, -alpha) {
            Some(v) => -v,
            None => {
                return None;
            },
        };
        if score > best_s {
            best_s = score;
            best_m = m;
            proof {
                best_i = i as int;
            }
        }
        if best_s > alpha {
            alpha = best_s;
        }
        i += 1;
    }
    proof {
        assert(moves@[best_i] == legal_moves(p)[best_i]);
    }
    Some((Some(best_m), best_s))
}

} // verus!
