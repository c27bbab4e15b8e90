//! The laws of the library: properties that span several operations.
use vstd::prelude::*;
use vstd::utf8::encode_utf8;
use crate::board::{abs, start_pos, Mv, Pos};
use crate::attack::{attacked, in_check};
use crate::movegen::{
    lemma_legal_filter, legal_moves, legal_ok, make_pos, pseudo_moves, valid_mv,
};
use crate::search::{
    nm_ok, perft_count, perft_ok, perft_sum, root_loop, search_ok, search_result,
};
use crate::sanity::{
    lemma_pseudo_shape, lemma_sane_legal_ok, lemma_sane_nm_ok,
    lemma_sane_perft_ok, lemma_sane_search_ok, lemma_start_sane, move_shape, sane,
};
use crate::alphabeta::{child_score, lemma_alpha_beta, lemma_minimax_bound, lemma_search_is_plain_negamax, minimax};
use crate::search::negamax_value;
use crate::uci::{mv_chars, sq_bytes_ok, sq_bytes_value, sq_chars, uci_move};
use crate::fen::{
    castle_str, ep_field_ok, fen_ok, fen_pos, fen_string, lemma_castle_round_trip, lemma_placement_reads,
    lemma_square_text_reads, placement_text, square_text,
    lemma_placement_round_trip, lemma_ranks_str_text, ranks_str,
};
use crate::engine::moves_str;
use crate::fide::rule_legal;
use crate::text::{lemma_split_single, lemma_split_space_then, no_space, split_at_spaces};
use crate::text::{dec_str, is_ws, lemma_dec_round_trip, lemma_words_cons, lemma_words_single, no_ws, parse_u16, words};
use crate::enpassant::snap_of;
use vstd::utf8::{is_ascii_chars, is_ascii_chars_encode_utf8};

verus! {

/// The legal moves are exactly the pseudo-legal moves after which the side
/// that moved is not in check.
pub proof fn law_legal_moves_exact(p: Pos)
    ensures
        forall|i: int|
            0 <= i < legal_moves(p).len() ==> pseudo_moves(p).contains(#[trigger] legal_moves(p)[i])
                && !in_check(make_pos(p, legal_moves(p)[i]), p.side as int),
        forall|i: int|
            0 <= i < pseudo_moves(p).len() && !in_check(
                make_pos(p, #[trigger] pseudo_moves(p)[i]),
                p.side as int,
            ) ==> legal_moves(p).contains(pseudo_moves(p)[i]),
{
    lemma_legal_filter(p);
}

/// The starting position is sane.
pub proof fn law_start_is_sane()
    ensures
        sane(start_pos()),
{
    lemma_start_sane();
}

/// Every legal move of a sane position leads to a sane position.
pub proof fn law_legal_moves_keep_sanity(p: Pos)
    requires
        sane(p),
    ensures
        forall|i: int|
            0 <= i < legal_moves(p).len() ==> sane(#[trigger] make_pos(p, legal_moves(p)[i])),
{
    lemma_legal_filter(p);
    lemma_pseudo_shape(p, 64);
    assert forall|i: int| 0 <= i < legal_moves(p).len() implies sane(
        #[trigger] make_pos(p, legal_moves(p)[i]),
    ) by {
        let m = legal_moves(p)[i];
        let k = choose|k: int| 0 <= k < pseudo_moves(p).len() && pseudo_moves(p)[k] == m;
        assert(move_shape(p, pseudo_moves(p)[k]));
        crate::sanity::lemma_make_keeps_sane(p, m);
    }
}

/// In a sane position nothing fails: move generation (while the half-move
/// clock can count one more), the search at any depth, the root search,
/// and counting move paths while the clock cannot overflow.
pub proof fn law_sane_positions_never_fail(p: Pos, depth: nat, alpha: int, beta: int)
    requires
        sane(p),
    ensures
        p.half < 65535 ==> legal_ok(p) && search_ok(p, depth),
        nm_ok(p, depth, alpha, beta),
        p.half + depth <= 65535 ==> perft_ok(p, depth),
{
    lemma_sane_nm_ok(p, depth, alpha, beta);
    if p.half < 65535 {
        lemma_sane_legal_ok(p);
        lemma_sane_search_ok(p, depth);
    }
    if p.half + depth <= 65535 {
        lemma_sane_perft_ok(p, depth);
    }
}

/// Making a move hands the turn to the other side, appends the new
/// position to the history, never regains a castling right, and
/// resets the half-move clock on a pawn move or a capture, else counts one more.
pub proof fn law_make_effects(p: Pos, m: Mv)
    requires
        p.wf(),
        valid_mv(m),
    ensures
        make_pos(p, m).side == -p.side,
        make_pos(p, m).hist.len() == p.hist.len() + 1,
        make_pos(p, m).hist.drop_last() == p.hist,
        make_pos(p, m).hist.last() == snap_of(
            make_pos(p, m).sq,
            make_pos(p, m).side,
            make_pos(p, m).castle,
            make_pos(p, m).ep,
        ),
        make_pos(p, m).castle & !p.castle == 0,
        make_pos(p, m).half == if abs(p.sq[m.from as int] as int) == 1 || p.sq[m.to as int] != 0 {
            0
        } else {
            (p.half + 1) as u16
        },
{
    let q = make_pos(p, m);
    assert(q.hist.drop_last() =~= p.hist);
    let c0 = p.castle;
    let a0 = m.from == 0 || m.to == 0;
    let a7 = m.from == 7 || m.to == 7;
    let a56 = m.from == 56 || m.to == 56;
    let a63 = m.from == 63 || m.to == 63;
    let king = abs(p.sq[m.from as int] as int) == 6;
    let white = p.side == 1;
    assert({
        let c1 = if a0 { c0 & !2u8 } else { c0 };
        let c2 = if a7 { c1 & !1u8 } else { c1 };
        let c3 = if a56 { c2 & !8u8 } else { c2 };
        let c4 = if a63 { c3 & !4u8 } else { c3 };
        let c = if king { c4 & (if white { !3u8 } else { !12u8 }) } else { c4 };
        c & !c0 == 0
    }) by (bit_vector);
}

/// Castling is never out of check, through an attacked square, or into
/// check: a legal king move of two squares from a sane position starts
/// with the king not in check, crosses a square the opponent does not
/// attack, and ends with the king not in check.
pub proof fn law_castling_rules(p: Pos, i: int)
    requires
        sane(p),
        0 <= i < legal_moves(p).len(),
        abs(p.sq[legal_moves(p)[i].from as int] as int) == 6,
        abs(legal_moves(p)[i].to - legal_moves(p)[i].from) == 2,
    ensures
        !in_check(p, p.side as int),
        !attacked(p, (legal_moves(p)[i].from + legal_moves(p)[i].to) / 2, -p.side),
        !in_check(make_pos(p, legal_moves(p)[i]), p.side as int),
{
    lemma_legal_filter(p);
    lemma_pseudo_shape(p, 64);
    let m = legal_moves(p)[i];
    let k = choose|k: int| 0 <= k < pseudo_moves(p).len() && pseudo_moves(p)[k] == m;
    assert(move_shape(p, pseudo_moves(p)[k]));
}

/// Counting move paths one ply deeper sums the counts after each legal move.
pub proof fn law_perft_step(p: Pos, depth: nat)
    ensures
        perft_count(p, depth + 1) == perft_sum(p, legal_moves(p), depth),
{
    if depth == 0 {
        lemma_perft_sum_ones(p, legal_moves(p));
    }
}

proof fn lemma_perft_sum_ones(p: Pos, ms: Seq<Mv>)
    ensures
        perft_sum(p, ms, 0) == ms.len(),
    decreases ms.len(),
{
    if ms.len() > 0 {
        lemma_perft_sum_ones(p, ms.drop_last());
        assert(perft_count(make_pos(p, ms.last()), 0) == 1);
    }
}

proof fn lemma_root_loop_index(p: Pos, ms: Seq<Mv>, i: int, depth: nat, bi: int, bs: int, alpha: int)
    requires
        0 <= i <= ms.len(),
        0 <= bi < ms.len(),
    ensures
        0 <= root_loop(p, ms, i, depth, bi, bs, alpha).0 < ms.len(),
    decreases ms.len() - i,
{
    if i < ms.len() {
        let score = -crate::search::negamax_value(
            make_pos(p, ms[i]),
            (depth - 1) as nat,
            -(i32::MAX - 1),
            -alpha,
        );
        let nbi = if score > bs {
            i
        } else {
            bi
        };
        let nbs = if score > bs {
            score
        } else {
            bs
        };
        let na = if nbs > alpha {
            nbs
        } else {
            alpha
        };
        lemma_root_loop_index(p, ms, i + 1, depth, nbi, nbs, na);
    }
}

/// The search proposes a move exactly when there is a legal move, and the
/// move it proposes is legal.
pub proof fn law_search_move_is_legal(p: Pos, depth: nat)
    ensures
        search_result(p, depth).0 is None <==> legal_moves(p).len() == 0,
        search_result(p, depth).0 matches Some(m) ==> legal_moves(p).contains(m),
{
    let ms = legal_moves(p);
    if ms.len() > 0 {
        lemma_root_loop_index(p, ms, 0, depth, 0, i32::MIN + 1, i32::MIN + 1);
        let r = root_loop(p, ms, 0, depth, 0, i32::MIN + 1, i32::MIN + 1);
        assert(ms[r.0] == search_result(p, depth).0->Some_0);
    }
}

/// A move text names a legal move exactly when it is the UCI name of one of
/// the legal moves: a text that reads as a move in UCI notation is that
/// move's name, so the texts that making a move accepts are the names that
/// the list of legal moves holds.
pub proof fn law_move_text_is_legal_name(p: Pos, u: Seq<char>)
    requires
        p.wf(),
    ensures
        (uci_move(encode_utf8(u)) matches Some(m) && legal_moves(p).contains(m)) <==> exists|i: int|
            0 <= i < legal_moves(p).len() && u == mv_chars(#[trigger] legal_moves(p)[i]),
{
    lemma_legal_filter(p);
    crate::movegen::lemma_pseudo_upto_valid(p, 64);
    if let Some(m) = uci_move(encode_utf8(u)) {
        crate::uci::lemma_uci_text_unique(u, m);
        if legal_moves(p).contains(m) {
            let i = choose|i: int| 0 <= i < legal_moves(p).len() && legal_moves(p)[i] == m;
            assert(u == mv_chars(legal_moves(p)[i]));
        }
    }
    if exists|i: int| 0 <= i < legal_moves(p).len() && u == mv_chars(#[trigger] legal_moves(p)[i]) {
        let i = choose|i: int| 0 <= i < legal_moves(p).len() && u == mv_chars(#[trigger] legal_moves(p)[i]);
        let m = legal_moves(p)[i];
        assert(pseudo_moves(p).contains(m));
        let k = choose|k: int| 0 <= k < pseudo_moves(p).len() && pseudo_moves(p)[k] == m;
        assert(valid_mv(pseudo_moves(p)[k]));
        crate::uci::lemma_mv_chars_bytes(m);
        assert(legal_moves(p).contains(m));
    }
}

/// The promotion of a move: a knight, bishop, rook or queen exactly when
/// a pawn reaches the last rank, else none.
pub open spec fn promotes_right(p: Pos, m: Mv) -> bool {
    &&& (m.promo == 0 || 2 <= m.promo <= 5)
    &&& (m.promo != 0 <==> (abs(p.sq[m.from as int] as int) == 1 && m.to / 8 == (if p.side == 1 {
        7int
    } else {
        0int
    })))
}

/// In a sane position only pawns promote, and a pawn move promotes exactly
/// when it reaches the last rank, to a knight, bishop, rook or queen: so
/// of the pseudo-legal moves and of the legal moves.
pub proof fn law_promotion_on_last_rank(p: Pos)
    requires
        sane(p),
    ensures
        forall|i: int| 0 <= i < pseudo_moves(p).len() ==> promotes_right(p, #[trigger] pseudo_moves(p)[i]),
        forall|i: int| 0 <= i < legal_moves(p).len() ==> promotes_right(p, #[trigger] legal_moves(p)[i]),
{
    lemma_pseudo_shape(p, 64);
    lemma_legal_filter(p);
    assert forall|i: int| 0 <= i < pseudo_moves(p).len() implies promotes_right(
        p,
        #[trigger] pseudo_moves(p)[i],
    ) by {
        assert(move_shape(p, pseudo_moves(p)[i]));
    }
    assert forall|i: int| 0 <= i < legal_moves(p).len() implies promotes_right(
        p,
        #[trigger] legal_moves(p)[i],
    ) by {
        let k = choose|k: int| 0 <= k < pseudo_moves(p).len() && pseudo_moves(p)[k] == legal_moves(p)[i];
        assert(promotes_right(p, pseudo_moves(p)[k]));
    }
}

/// The UCI name of a valid move has four or five characters, none a space.
proof fn lemma_mv_chars_word(m: Mv)
    requires
        valid_mv(m),
    ensures
        mv_chars(m).len() >= 4,
        no_space(mv_chars(m)),
{
    let c = mv_chars(m);
    crate::uci::lemma_mv_chars_bytes(m);
    assert(is_ascii_chars(c));
    is_ascii_chars_encode_utf8(c);
    let b = encode_utf8(c);
    assert forall|i: int| 0 <= i < c.len() implies #[trigger] c[i] != ' ' by {
        assert(b[i] == c[i] as u8);
        assert(b[i] >= 49);
    }
}

/// Splitting a list of moves written as text at its single spaces gives
/// the moves' UCI names in order, and the text is empty exactly when there
/// is no move.
pub proof fn law_moves_text_words(ms: Seq<Mv>)
    requires
        forall|i: int| 0 <= i < ms.len() ==> valid_mv(#[trigger] ms[i]),
    ensures
        moves_str(ms).len() == 0 <==> ms.len() == 0,
        ms.len() > 0 ==> split_at_spaces(moves_str(ms)) == ms.map_values(|m: Mv| mv_chars(m)),
    decreases ms.len(),
{
    let f = |m: Mv| mv_chars(m);
    if ms.len() == 1 {
        lemma_mv_chars_word(ms[0]);
        lemma_split_single(mv_chars(ms[0]));
        assert(ms.map_values(f) =~= seq![mv_chars(ms[0])]);
    } else if ms.len() > 1 {
        let init = ms.drop_last();
        assert forall|i: int| 0 <= i < init.len() implies valid_mv(#[trigger] init[i]) by {
            assert(init[i] == ms[i]);
        }
        law_moves_text_words(init);
        assert(valid_mv(ms[ms.len() - 1]));
        lemma_mv_chars_word(ms.last());
        lemma_split_space_then(moves_str(init), mv_chars(ms.last()));
        assert(ms.map_values(f) =~= init.map_values(f).push(mv_chars(ms.last())));
    }
}

/// In a sane position the text of the legal moves is empty exactly when
/// there is no legal move; otherwise its pieces between single spaces are
/// non-empty, pairwise different, and are exactly the UCI names of the
/// moves that the rules of chess allow.
pub proof fn law_legal_moves_text(p: Pos)
    requires
        sane(p),
    ensures
        moves_str(legal_moves(p)).len() == 0 <==> legal_moves(p).len() == 0,
        legal_moves(p).len() > 0 ==> {
            let t = split_at_spaces(moves_str(legal_moves(p)));
            &&& forall|i: int| 0 <= i < t.len() ==> (#[trigger] t[i]).len() > 0
            &&& forall|i: int, j: int| 0 <= i < t.len() && 0 <= j < t.len() && i != j ==> #[trigger] t[i] != #[trigger] t[j]
            &&& forall|u: Seq<char>| t.contains(u) <==> exists|m: Mv| rule_legal(p, m) && u == mv_chars(m)
        },
{
    let ms = legal_moves(p);
    lemma_legal_filter(p);
    crate::movegen::lemma_pseudo_upto_valid(p, 64);
    assert forall|i: int| 0 <= i < ms.len() implies valid_mv(#[trigger] ms[i]) by {
        let k = choose|k: int| 0 <= k < pseudo_moves(p).len() && pseudo_moves(p)[k] == ms[i];
        assert(valid_mv(pseudo_moves(p)[k]));
    }
    law_moves_text_words(ms);
    if ms.len() > 0 {
        let t = split_at_spaces(moves_str(ms));
        assert(t == ms.map_values(|m: Mv| mv_chars(m)));
        crate::distinct::law_legal_move_names_distinct(p);
        assert forall|i: int| 0 <= i < t.len() implies (#[trigger] t[i]).len() > 0 by {
            lemma_mv_chars_word(ms[i]);
        }
        assert forall|i: int, j: int| 0 <= i < t.len() && 0 <= j < t.len() && i != j implies #[trigger] t[i]
            != #[trigger] t[j] by {
            assert(t[i] == mv_chars(ms[i]) && t[j] == mv_chars(ms[j]));
        }
        assert forall|u: Seq<char>| t.contains(u) <==> exists|m: Mv| rule_legal(p, m) && u == mv_chars(m) by {
            if t.contains(u) {
                let i = choose|i: int| 0 <= i < t.len() && t[i] == u;
                crate::fide::law_legal_moves_are_the_rule_legal_moves(p, ms[i]);
                assert(ms.contains(ms[i]));
                assert(rule_legal(p, ms[i]) && u == mv_chars(ms[i]));
            }
            if exists|m: Mv| rule_legal(p, m) && u == mv_chars(m) {
                let m = choose|m: Mv| rule_legal(p, m) && u == mv_chars(m);
                crate::fide::law_legal_moves_are_the_rule_legal_moves(p, m);
                let i = choose|i: int| 0 <= i < ms.len() && ms[i] == m;
                assert(t[i] == u);
            }
        }
    }
}

/// Writing a valid move in UCI notation and reading it back gives the move.
pub proof fn law_uci_round_trip(m: Mv)
    requires
        valid_mv(m),
    ensures
        uci_move(encode_utf8(mv_chars(m))) == Some(m),
{
    crate::uci::lemma_mv_chars_bytes(m);
}


proof fn lemma_ep_field(ep: i8)
    requires
        ep >= -1,
    ensures
        ({
            let e = if ep >= 0 { sq_chars(ep as int) } else { seq!['-'] };
            &&& e.len() > 0
            &&& no_ws(e)
            &&& ep_field_ok(e)
            &&& (e == seq!['-'] <==> ep == -1)
            &&& ep >= 0 ==> sq_bytes_value(encode_utf8(e)[0], encode_utf8(e)[1]) == ep
        }),
{
    if ep >= 0 {
        let e = sq_chars(ep as int);
        assert(is_ascii_chars(e));
        is_ascii_chars_encode_utf8(e);
        let b = encode_utf8(e);
        assert(b[0] == 97 + ep % 8);
        assert(b[1] == 49 + ep / 8);
        assert(sq_bytes_ok(b[0], b[1]));
        assert(e[0] != '-');
        assert(e != seq!['-']);
    }
}

/// The words of five words and "1", separated by single spaces.
proof fn lemma_six_words(a: Seq<char>, sd: Seq<char>, c: Seq<char>, e: Seq<char>, d: Seq<char>)
    requires
        a.len() > 0 && no_ws(a),
        sd.len() > 0 && no_ws(sd),
        c.len() > 0 && no_ws(c),
        e.len() > 0 && no_ws(e),
        d.len() > 0 && no_ws(d),
    ensures
        words(a + seq![' '] + (sd + seq![' '] + (c + seq![' '] + (e + seq![' '] + (d + seq![' '] + seq!['1'])))))
            == seq![a, sd, c, e, d, seq!['1']],
{
    let one: Seq<char> = seq!['1'];
    assert(!is_ws('1'));
    let r4 = d + seq![' '] + one;
    let r3 = e + seq![' '] + r4;
    let r2 = c + seq![' '] + r3;
    let r1 = sd + seq![' '] + r2;
    lemma_words_single(one);
    lemma_words_cons(d, one);
    lemma_words_cons(e, r4);
    lemma_words_cons(c, r3);
    lemma_words_cons(sd, r2);
    lemma_words_cons(a, r1);
    assert(words(a + seq![' '] + r1) =~= seq![a, sd, c, e, d, one]);
}

/// The words of a position's FEN: placement, side, castling, en passant,
/// half-move clock, full-move number.
#[verifier::spinoff_prover]
#[verifier::rlimit(40)]
proof fn lemma_fen_words(p: Pos)
    requires
        p.wf(),
        p.ep >= -1,
    ensures
        words(fen_string(p)) == seq![
            ranks_str(p.sq, 7),
            seq![if p.side == 1 { 'w' } else { 'b' }],
            castle_str(p.castle),
            if p.ep >= 0 { sq_chars(p.ep as int) } else { seq!['-'] },
            dec_str(p.half as nat),
            seq!['1'],
        ],
{
    let a = ranks_str(p.sq, 7);
    let sd: Seq<char> = seq![if p.side == 1 { 'w' } else { 'b' }];
    let c = castle_str(p.castle);
    let e = if p.ep >= 0 { sq_chars(p.ep as int) } else { seq!['-'] };
    let d = dec_str(p.half as nat);
    lemma_ranks_str_text(p.sq, 7);
    lemma_castle_round_trip(p.castle);
    lemma_ep_field(p.ep);
    lemma_dec_round_trip(p.half as nat);
    assert(!is_ws(sd[0]));
    lemma_six_words(a, sd, c, e, d);
    assert(fen_string(p) =~= a + seq![' '] + (sd + seq![' '] + (c + seq![' '] + (e + seq![' '] + (d
        + seq![' '] + seq!['1'])))));
}

/// Writing a position as FEN and reading it back gives the position: its
/// squares, side to move, castling rights (the four that FEN names), en
/// passant square and half-move clock, with a history of just that position.
pub proof fn law_fen_round_trip(p: Pos)
    requires
        p.wf(),
        p.ep >= -1,
    ensures
        fen_ok(fen_string(p)),
        fen_pos(fen_string(p)).sq == p.sq,
        fen_pos(fen_string(p)).side == p.side,
        fen_pos(fen_string(p)).castle == p.castle & 15u8,
        fen_pos(fen_string(p)).ep == p.ep,
        fen_pos(fen_string(p)).half == p.half,
        fen_pos(fen_string(p)).hist == seq![snap_of(p.sq, p.side, p.castle & 15u8, p.ep)],
{
    let ws = words(fen_string(p));
    lemma_fen_words(p);
    lemma_castle_round_trip(p.castle);
    lemma_ep_field(p.ep);
    lemma_dec_round_trip(p.half as nat);
    lemma_placement_round_trip(p.sq);
    let d = dec_str(p.half as nat);
    assert(ws[1] == seq!['b'] <==> p.side == -1) by {
        if p.side == 1 {
            assert(ws[1][0] != seq!['b'][0]);
        }
    }
    assert(d =~= (if d.len() > 0 && d[0] == '+' { d.drop_first() } else { d }));
    assert(parse_u16(d) == Some(p.half));
    assert(ws[4] == d);
}

/// Every well-formed FEN reads without failing: a first field of eight
/// ranks of piece letters and digits '1' to '8' covering eight squares
/// each, joined by '/', and an en passant field, if any, that is "-" or a
/// square name.
pub proof fn law_well_formed_fen_reads(f: Seq<char>)
    requires
        words(f).len() >= 1,
        placement_text(words(f)[0]),
        words(f).len() > 3 ==> (words(f)[3] == seq!['-'] || square_text(words(f)[3])),
    ensures
        fen_ok(f),
{
    lemma_placement_reads(words(f)[0]);
    if words(f).len() > 3 && words(f)[3] != seq!['-'] {
        lemma_square_text_reads(words(f)[3]);
    }
}

/// Alpha-beta pruning is exact inside its window: the pruned search scores
/// a position as plain negamax does when that score lies strictly inside
/// (alpha, beta); otherwise it fails soft, between that score and the
/// window edge it crossed.
pub proof fn law_alpha_beta(p: Pos, depth: nat, alpha: int, beta: int)
    requires
        i32::MIN + 1 <= alpha < beta <= i32::MAX,
    ensures
        alpha < minimax(p, depth) < beta ==> negamax_value(p, depth, alpha, beta) == minimax(p, depth),
        minimax(p, depth) <= alpha ==> minimax(p, depth) <= negamax_value(p, depth, alpha, beta) <= alpha,
        minimax(p, depth) >= beta ==> beta <= negamax_value(p, depth, alpha, beta) <= minimax(p, depth),
{
    lemma_alpha_beta(p, depth, alpha, beta);
}

/// With the full window the pruned search scores every well-formed
/// position exactly as plain negamax does.
pub proof fn law_full_window_is_exact(p: Pos, depth: nat)
    requires
        p.wf(),
    ensures
        negamax_value(p, depth, i32::MIN + 1, i32::MAX - 1) == minimax(p, depth),
{
    lemma_minimax_bound(p, depth);
    lemma_alpha_beta(p, depth, i32::MIN + 1, i32::MAX - 1);
}

/// The root search finds what plain negamax finds: its score is the best
/// negated score over the legal moves, and its move is the first legal
/// move with that score.
pub proof fn law_search_is_plain_negamax(p: Pos, depth: nat)
    requires
        p.wf(),
        depth >= 1,
        legal_moves(p).len() > 0,
    ensures
        exists|k: int|
            0 <= k < legal_moves(p).len() && search_result(p, depth).0 == Some(legal_moves(p)[k])
                && search_result(p, depth).1 == child_score(p, legal_moves(p), k, depth) && (forall|
                j: int,
            |
                0 <= j < legal_moves(p).len() ==> #[trigger] child_score(p, legal_moves(p), j, depth)
                    <= search_result(p, depth).1) && (forall|j: int|
                0 <= j < k ==> #[trigger] child_score(p, legal_moves(p), j, depth) < search_result(
                    p,
                    depth,
                ).1),
{
    lemma_search_is_plain_negamax(p, depth);
    let r = root_loop(p, legal_moves(p), 0, depth, 0, i32::MIN + 1, i32::MIN + 1);
    assert(0 <= r.0 < legal_moves(p).len());
}

/// Emptying square `i` changes the material balance of the first `n`
/// squares by the value of the piece that stood there, if `i < n`.
proof fn lemma_material_without(sq: Seq<i8>, i: int, n: int)
    requires
        0 <= i < 64,
        sq.len() == 64,
        n <= 64,
    ensures
        crate::search::material(sq.update(i, 0), n) == crate::search::material(sq, n) - if i < n {
            crate::search::piece_value(sq[i] as int) * crate::board::sign(sq[i] as int)
        } else {
            0
        },
    decreases n,
{
    if n > 0 {
        lemma_material_without(sq, i, n - 1);
        assert(sq.update(i, 0)[n - 1] == if n - 1 == i { 0i8 } else { sq[n - 1] });
    }
}

/// Capturing gains material: emptying a square that holds a piece other
/// than the king of the side not to move raises the evaluation for the
/// side to move by that piece's value, 100 for a pawn, 320 for a knight,
/// 330 for a bishop, 500 for a rook and 900 for a queen.
pub proof fn law_capture_gains_material(p: Pos, i: int)
    requires
        p.wf(),
        0 <= i < 64,
        crate::board::sign(p.sq[i] as int) == -p.side,
        abs(p.sq[i] as int) != 6,
    ensures
        ({
            let q = Pos { sq: p.sq.update(i, 0), ..p };
            let x = abs(p.sq[i] as int);
            &&& crate::search::eval(q) > crate::search::eval(p)
            &&& x == 1 ==> crate::search::eval(q) == crate::search::eval(p) + 100
            &&& x == 2 ==> crate::search::eval(q) == crate::search::eval(p) + 320
            &&& x == 3 ==> crate::search::eval(q) == crate::search::eval(p) + 330
            &&& x == 4 ==> crate::search::eval(q) == crate::search::eval(p) + 500
            &&& x == 5 ==> crate::search::eval(q) == crate::search::eval(p) + 900
        }),
{
    lemma_material_without(p.sq, i, 64);
    let m = crate::search::material(p.sq, 64);
    let v = crate::search::piece_value(p.sq[i] as int);
    let sg = crate::board::sign(p.sq[i] as int);
    assert(-6 <= p.sq[i] <= 6);
    if p.side == 1 {
        assert(sg == -1);
        assert((m - v * sg) * 1 == m * 1 + v);
    } else {
        assert(sg == 1);
        assert((m - v * sg) * -1 == m * -1 + v);
    }
}

/// A king move gives up both castling rights of the side that moves it.
pub proof fn law_king_move_drops_castling(p: Pos, m: Mv)
    requires
        p.side == 1 || p.side == -1,
        abs(p.sq[m.from as int] as int) == 6,
    ensures
        make_pos(p, m).castle & (if p.side == 1 { 3u8 } else { 12u8 }) == 0,
{
    let c = make_pos(p, m).castle;
    let mask: u8 = if p.side == 1 { 3u8 } else { 12u8 };
    let c4 = {
        let c0 = p.castle;
        let c1 = if m.from == 0 || m.to == 0 { c0 & !2u8 } else { c0 };
        let c2 = if m.from == 7 || m.to == 7 { c1 & !1u8 } else { c1 };
        let c3 = if m.from == 56 || m.to == 56 { c2 & !8u8 } else { c2 };
        if m.from == 63 || m.to == 63 { c3 & !4u8 } else { c3 }
    };
    assert(c4 & !3u8 & 3u8 == 0) by (bit_vector);
    assert(c4 & !12u8 & 12u8 == 0) by (bit_vector);
}

/// A move from or onto a rook's home corner gives up the castling right
/// that rook stands for: a1 the white queen side (2), h1 the white king
/// side (1), a8 the black queen side (8), h8 the black king side (4).
pub proof fn law_corner_move_drops_castling(p: Pos, m: Mv)
    ensures
        (m.from == 0 || m.to == 0) ==> make_pos(p, m).castle & 2u8 == 0,
        (m.from == 7 || m.to == 7) ==> make_pos(p, m).castle & 1u8 == 0,
        (m.from == 56 || m.to == 56) ==> make_pos(p, m).castle & 8u8 == 0,
        (m.from == 63 || m.to == 63) ==> make_pos(p, m).castle & 4u8 == 0,
{
    let c0 = p.castle;
    let a = m.from == 0 || m.to == 0;
    let b = m.from == 7 || m.to == 7;
    let c = m.from == 56 || m.to == 56;
    let d = m.from == 63 || m.to == 63;
    let k = abs(p.sq[m.from as int] as int) == 6;
    let w = p.side == 1;
    assert({
        let c1 = if a { c0 & !2u8 } else { c0 };
        let c2 = if b { c1 & !1u8 } else { c1 };
        let c3 = if c { c2 & !8u8 } else { c2 };
        let c4 = if d { c3 & !4u8 } else { c3 };
        let r = if k { c4 & (if w { !3u8 } else { !12u8 }) } else { c4 };
        &&& (a ==> r & 2u8 == 0)
        &&& (b ==> r & 1u8 == 0)
        &&& (c ==> r & 8u8 == 0)
        &&& (d ==> r & 4u8 == 0)
    }) by (bit_vector);
}

/// UCI move text names its squares by file letter and rank digit and its
/// promotion by letter: for any squares, reading file, rank, file, rank
/// gives the origin `(rank - '1') * 8 + (file - 'a')` and likewise the
/// destination, and a fifth letter q, r, b, n promotes to a queen (5), rook
/// (4), bishop (3) or knight (2).
pub proof fn law_uci_text_meaning(b: Seq<u8>)
    requires
        b.len() == 4 || b.len() == 5,
        97 <= b[0] <= 104,
        49 <= b[1] <= 56,
        97 <= b[2] <= 104,
        49 <= b[3] <= 56,
    ensures
        b.len() == 4 ==> uci_move(b) == Some(
            Mv { from: ((b[1] - 49) * 8 + (b[0] - 97)) as i8, to: ((b[3] - 49) * 8 + (b[2] - 97)) as i8, promo: 0 },
        ),
        b.len() == 5 ==> uci_move(b) == if b[4] == 113 {
            Some(Mv { from: ((b[1] - 49) * 8 + (b[0] - 97)) as i8, to: ((b[3] - 49) * 8 + (b[2] - 97)) as i8, promo: 5 })
        } else if b[4] == 114 {
            Some(Mv { from: ((b[1] - 49) * 8 + (b[0] - 97)) as i8, to: ((b[3] - 49) * 8 + (b[2] - 97)) as i8, promo: 4 })
        } else if b[4] == 98 {
            Some(Mv { from: ((b[1] - 49) * 8 + (b[0] - 97)) as i8, to: ((b[3] - 49) * 8 + (b[2] - 97)) as i8, promo: 3 })
        } else if b[4] == 110 {
            Some(Mv { from: ((b[1] - 49) * 8 + (b[0] - 97)) as i8, to: ((b[3] - 49) * 8 + (b[2] - 97)) as i8, promo: 2 })
        } else {
            None
        },
{
}

/// A move written in UCI notation ends with the letter of its promotion:
/// q for a queen (5), r for a rook (4), b for a bishop (3), n for a knight
/// (2), and has no fifth letter without one.
pub proof fn law_uci_promotion_letter(m: Mv)
    requires
        valid_mv(m),
    ensures
        m.promo == 0 ==> mv_chars(m).len() == 4,
        m.promo == 5 ==> mv_chars(m).len() == 5 && mv_chars(m)[4] == 'q',
        m.promo == 4 ==> mv_chars(m).len() == 5 && mv_chars(m)[4] == 'r',
        m.promo == 3 ==> mv_chars(m).len() == 5 && mv_chars(m)[4] == 'b',
        m.promo == 2 ==> mv_chars(m).len() == 5 && mv_chars(m)[4] == 'n',
{
}

/// What a move does to the board: the piece (or the piece it promotes to,
/// of the mover's colour) stands on the destination, the origin is empty,
/// castling from the e-file brings the rook from its corner beside the
/// king on the other side, an en passant capture removes the pawn passed
/// by, and every other square is unchanged.
pub proof fn law_make_squares(p: Pos, m: Mv)
    requires
        p.wf(),
        valid_mv(m),
        m.from != m.to,
    ensures
        ({
            let q = make_pos(p, m).sq;
            let from = m.from as int;
            let to = m.to as int;
            let x = p.sq[from];
            let r0 = from / 8;
            let castles = abs(x as int) == 6 && abs(to - from) == 2;
            let ep_capture = abs(x as int) == 1 && to == p.ep && to % 8 != from % 8;
            let passed = r0 * 8 + to % 8;
            &&& q.len() == 64
            &&& q[to] == if m.promo != 0 { (m.promo * p.side) as i8 } else { x }
            &&& q[from] == 0
            &&& (castles && to > from && from % 8 == 4 ==> q[r0 * 8 + 5] == p.sq[r0 * 8 + 7] && q[r0 * 8
                + 7] == 0)
            &&& (castles && to < from && from % 8 == 4 ==> q[r0 * 8 + 3] == p.sq[r0 * 8] && q[r0 * 8] == 0)
            &&& (ep_capture && passed != to ==> q[passed] == 0)
            &&& forall|k: int|
                0 <= k < 64 && k != from && k != to && !(castles && (k == r0 * 8 || k == r0 * 8 + 3 || k
                    == r0 * 8 + 5 || k == r0 * 8 + 7)) && !(ep_capture && k == passed) ==> q[k] == p.sq[k]
        }),
{
}

/// FEN names pieces by the usual letters, upper case for white and lower
/// case for black: P pawn (1), N knight (2), B bishop (3), R rook (4),
/// Q queen (5), K king (6); reading a letter gives that piece and writing
/// the piece gives that letter back.
pub proof fn law_fen_letters()
    ensures
        crate::fen::piece_code('P') == 1 && crate::fen::fen_char(1) == 'P',
        crate::fen::piece_code('p') == -1 && crate::fen::fen_char(-1) == 'p',
        crate::fen::piece_code('N') == 2 && crate::fen::fen_char(2) == 'N',
        crate::fen::piece_code('n') == -2 && crate::fen::fen_char(-2) == 'n',
        crate::fen::piece_code('B') == 3 && crate::fen::fen_char(3) == 'B',
        crate::fen::piece_code('b') == -3 && crate::fen::fen_char(-3) == 'b',
        crate::fen::piece_code('R') == 4 && crate::fen::fen_char(4) == 'R',
        crate::fen::piece_code('r') == -4 && crate::fen::fen_char(-4) == 'r',
        crate::fen::piece_code('Q') == 5 && crate::fen::fen_char(5) == 'Q',
        crate::fen::piece_code('q') == -5 && crate::fen::fen_char(-5) == 'q',
        crate::fen::piece_code('K') == 6 && crate::fen::fen_char(6) == 'K',
        crate::fen::piece_code('k') == -6 && crate::fen::fen_char(-6) == 'k',
{
}

/// The en passant square after a move: the square a pawn passed over when
/// it advanced two squares, and none after any other move.
pub proof fn law_make_en_passant_square(p: Pos, m: Mv)
    requires
        valid_mv(m),
    ensures
        abs(p.sq[m.from as int] as int) == 1 && (m.to == m.from + 16 || m.to == m.from - 16) ==> make_pos(
            p,
            m,
        ).ep == (m.from + m.to) / 2 && make_pos(p, m).ep / 8 == (if m.to > m.from { m.from / 8 + 1 } else {
            m.from / 8 - 1
        }) && make_pos(p, m).ep % 8 == m.from % 8,
        !(abs(p.sq[m.from as int] as int) == 1 && (m.to == m.from + 16 || m.to == m.from - 16)) ==> make_pos(
            p,
            m,
        ).ep == -1,
{
}

/// The evaluation is from the side to move's point of view: the same
/// board with the other side to move scores the opposite.
pub proof fn law_eval_side_to_move(p: Pos)
    requires
        p.side == 1 || p.side == -1,
    ensures
        crate::search::eval(Pos { side: (-p.side) as i8, ..p }) == -crate::search::eval(p),
{
    let q = Pos { side: (-p.side) as i8, ..p };
    let m = crate::search::material(p.sq, 64);
    let a = crate::search::eval(q);
    let b = crate::search::eval(p);
    let sp = p.side as int;
    let sq = q.side as int;
    assert(a == m * sq && b == m * sp && sq == -sp);
    assert(a == -b) by (nonlinear_arith)
        requires
            a == m * sq,
            b == m * sp,
            sq == -sp,
    ;
}

} // verus!
