//! A game as the sequence of its positions, and the repetition rule over it.
use vstd::prelude::*;
use crate::board::{start_pos, Mv, Pos, Snap};
use crate::enpassant::snap_of;
use crate::fen::fen_pos;
use crate::movegen::make_pos;
use crate::search::{occurrences, repetition};

verus! {

/// What the repetition rule compares of a position: its squares, side to
/// move, castling rights and the en passant square where a capture onto
/// it is possible (see `law_same_position`).
pub open spec fn record(p: Pos) -> Snap {
    snap_of(p.sq, p.side, p.castle, p.ep)
}

/// The positions of a game: `start`, then the position after each move of
/// `ms` in turn.
pub open spec fn game(start: Pos, ms: Seq<Mv>) -> Seq<Pos>
    decreases ms.len(),
{
    if ms.len() == 0 {
        seq![start]
    } else {
        let g = game(start, ms.drop_last());
        g.push(make_pos(g.last(), ms.last()))
    }
}

/// The number of positions of `ps` that are the same position as `q`.
pub open spec fn times_seen(ps: Seq<Pos>, q: Pos) -> nat
    decreases ps.len(),
{
    if ps.len() == 0 {
        0
    } else {
        times_seen(ps.drop_last(), q) + if record(ps.last()) == record(q) {
            1nat
        } else {
            0nat
        }
    }
}

/// The history of a game's last position records every position of the game.
proof fn lemma_game_history(start: Pos, ms: Seq<Mv>)
    requires
        start.hist == seq![record(start)],
    ensures
        game(start, ms).len() == ms.len() + 1,
        game(start, ms).last().hist == game(start, ms).map_values(|q: Pos| record(q)),
    decreases ms.len(),
{
    let f = |q: Pos| record(q);
    if ms.len() > 0 {
        lemma_game_history(start, ms.drop_last());
        let g = game(start, ms.drop_last());
        let q = make_pos(g.last(), ms.last());
        assert(q.hist == g.last().hist.push(record(q)));
        assert(g.push(q).map_values(f) =~= g.map_values(f).push(record(q)));
    } else {
        assert(seq![start].map_values(f) =~= seq![record(start)]);
    }
}

proof fn lemma_occurrences_times_seen(ps: Seq<Pos>, q: Pos)
    ensures
        occurrences(ps.map_values(|x: Pos| record(x)), record(q)) == times_seen(ps, q),
    decreases ps.len(),
{
    let f = |x: Pos| record(x);
    if ps.len() > 0 {
        lemma_occurrences_times_seen(ps.drop_last(), q);
        assert(ps.map_values(f).drop_last() =~= ps.drop_last().map_values(f));
    }
}

/// Over a game that starts from a FEN (or from the starting position) and
/// goes on by any moves, the last position is a draw by repetition exactly
/// when at least three positions of the game, counting the last, are the
/// same position as it: the same placement, side to move, castling rights
/// and possible en passant captures.
pub proof fn law_repetition_over_a_game(f: Seq<char>, ms: Seq<Mv>)
    ensures
        repetition(game(fen_pos(f), ms).last()) <==> times_seen(
            game(fen_pos(f), ms),
            game(fen_pos(f), ms).last(),
        ) >= 3,
        repetition(game(start_pos(), ms).last()) <==> times_seen(
            game(start_pos(), ms),
            game(start_pos(), ms).last(),
        ) >= 3,
{
    let a = game(fen_pos(f), ms);
    lemma_game_history(fen_pos(f), ms);
    lemma_occurrences_times_seen(a, a.last());
    let b = game(start_pos(), ms);
    lemma_game_history(start_pos(), ms);
    lemma_occurrences_times_seen(b, b.last());
}

} // verus!
