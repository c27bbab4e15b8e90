//! The engine: a game position with the operations a user interface needs.
use vstd::prelude::*;
use vstd::string::StringSliceAdditionalSpecFns;
use crate::board::{start_pos, Board, Mv, Pos};
use crate::attack::{has_king, in_check};
use crate::movegen::{legal_moves, legal_ok, make_pos, valid_mv};
use crate::search::{
    lemma_legal_facts, perft, perft_checked, perft_count, perft_ok, repetition, search, search_checked, search_ok,
    search_result,
};
use crate::fen::{fen_ok, fen_pos, fen_string};
use crate::uci::{mv_chars, parse_uci, push_mv, uci_move};
use crate::text::{dec_str, push_char, push_decimal};
use crate::sanity::{lemma_legal_children_sane, lemma_start_sane, sane};

verus! {

/// The moves in UCI notation, separated by single spaces.
pub open spec fn moves_str(ms: Seq<Mv>) -> Seq<char>
    decreases ms.len(),
{
    if ms.len() == 0 {
        seq![]
    } else if ms.len() == 1 {
        mv_chars(ms[0])
    } else {
        moves_str(ms.drop_last()) + seq![' '] + mv_chars(ms.last())
    }
}

/// A game in progress.
pub struct Engine {
    board: Board,
}

impl Engine {
    #[verifier::type_invariant]
    spec fn inv(self) -> bool {
        self.board@.wf()
    }
}

impl View for Engine {
    type V = Pos;

    closed spec fn view(&self) -> Pos {
        self.board@
    }
}

impl Engine {
    /// A new engine at the standard starting position.
    pub fn new() -> (e: Engine)
        ensures
            e@ == start_pos(),
            sane(e@),
    {
        proof {
            lemma_start_sane();
        }
        Engine { board: Board::start() }
    }

    /// Reset to the standard starting position.
    pub fn reset(&mut self)
        ensures
            final(self)@ == start_pos(),
            sane(final(self)@),
    {
        proof {
            lemma_start_sane();
        }
        self.board = Board::start();
    }

    /// Load a position from FEN.
    pub fn set_fen(&mut self, fen: &str)
        requires
            fen_ok(fen@),
        ensures
            final(self)@ == fen_pos(fen@),
    {
        self.board = Board::from_fen(fen);
    }

    /// Current position as FEN.
    pub fn fen(&self) -> (s: String)
        ensures
            s@ == fen_string(self@),
    {
        proof {
            use_type_invariant(self);
        }
        self.board.to_fen()
    }

    /// 1 if White to move, -1 if Black to move.
    pub fn side_to_move(&self) -> (s: i32)
        ensures
            s == self@.side,
    {
        self.board.side as i32
    }

    /// Whether the side to move is currently in check.
    pub fn is_check(&self) -> (b: bool)
        requires
            has_king(self@, self@.side as int),
        ensures
            b == in_check(self@, self@.side as int),
    {
        proof {
            use_type_invariant(self);
        }
        self.board.in_check(self.board.side)
    }

    /// Whether the current position is a draw by the 50-move rule.
    pub fn is_fifty_move_draw(&self) -> (b: bool)
        ensures
            b == (self@.half >= 100),
    {
        self.board.half >= 100
    }

    /// Whether the current position has occurred three times.
    pub fn is_repetition(&self) -> (b: bool)
        ensures
            b == repetition(self@),
    {
        proof {
            use_type_invariant(self);
        }
        self.board.is_repetition()
    }

    /// The half-move clock (moves since the last capture or pawn move).
    pub fn half_move_clock(&self) -> (h: u16)
        ensures
            h == self@.half,
    {
        self.board.half
    }

    /// Whether the current position is sane (see `sane`).
    pub fn is_sane(&self) -> (b: bool)
        ensures
            b == sane(self@),
    {
        proof {
            use_type_invariant(self);
        }
        self.board.is_sane()
    }

    /// All legal moves from the current position, as a space-separated
    /// string of UCI move strings (e.g. "e2e4 g1f3 e7e8q").
    pub fn legal_moves(&self) -> (s: String)
        requires
            legal_ok(self@),
        ensures
            s@ == moves_str(legal_moves(self@)),
    {
        proof {
            use_type_invariant(self);
        }
        let moves = self.board.legal_moves();
        let mut s = String::new();
        let mut i: usize = 0;
        while i < moves.len()
            invariant
                0 <= i <= moves.len(),
                crate::movegen::all_valid(moves@),
                s@ == moves_str(moves@.take(i as int)),
            decreases moves.len() - i,
        {
            if i > 0 {
                push_char(&mut s, ' ');
            }
            let m = moves[i];
            assert(valid_mv(moves@[i as int]));
            push_mv(&mut s, &m);
            proof {
                assert(moves@.take(i + 1).drop_last() =~= moves@.take(i as int));
                assert(moves@.take(i + 1).last() == m);
                if i == 0 {
                    assert(moves@.take(1) =~= seq![m]);
                }
            }
            i += 1;
        }
        assert(moves@.take(moves@.len() as int) =~= moves@);
        s
    }

    /// Apply a move given in UCI notation (e.g. "e2e4", "e7e8q").
    /// Returns true if the move was legal and was applied; any text that is
    /// not a legal move in UCI notation leaves the game unchanged.
    pub fn make_move(&mut self, uci: &str) -> (ok: bool)
        requires
            uci_move(uci.spec_bytes()) is Some ==> legal_ok(old(self)@),
        ensures
            ok == (uci_move(uci.spec_bytes()) matches Some(m) && legal_moves(old(self)@).contains(m)),
            ok ==> final(self)@ == make_pos(old(self)@, uci_move(uci.spec_bytes())->Some_0),
            !ok ==> final(self)@ == old(self)@,
            sane(old(self)@) ==> sane(final(self)@),
    {
        proof {
            use_type_invariant(&*self);
        }
        let mv = match parse_uci(uci) {
            Some(m) => m,
            None => return false,
        };
        let legal = self.board.legal_moves();
        let mut i: usize = 0;
        while i < legal.len()
            invariant
                0 <= i <= legal.len(),
                forall|j: int| 0 <= j < i ==> legal@[j] != mv,
                self.board@ == old(self).board@,
                self.board@.wf(),
                legal_ok(self.board@),
                legal@ == legal_moves(self.board@),
                uci_move(uci.spec_bytes()) == Some(mv),
            decreases legal.len() - i,
        {
            let m = legal[i];
            if m.from == mv.from && m.to == mv.to && m.promo == mv.promo {
                proof {
                    lemma_legal_facts(self.board@);
                    assert(legal@[i as int] == mv);
                    assert(legal@.contains(mv));
                    if sane(self.board@) {
                        lemma_legal_children_sane(self.board@);
                    }
                }
                let nb = self.board.make(&mv);
                self.board = nb;
                return true;
            }
            i += 1;
        }
        assert(!legal@.contains(mv));
        false
    }

    /// Search to `depth` plies (at least one) and return the best move in
    /// UCI notation, or an empty string if there are no legal moves.
    pub fn best_move(&self, depth: i32) -> (s: String)
        requires
            search_ok(self@, (if depth >= 1 { depth } else { 1 }) as nat),
        ensures
            s@ == match search_result(self@, (if depth >= 1 { depth } else { 1 }) as nat).0 {
                Some(m) => mv_chars(m),
                None => Seq::<char>::empty(),
            },
    {
        proof {
            use_type_invariant(self);
        }
        let d = if depth >= 1 { depth } else { 1 };
        let (m, _) = search(&self.board, d);
        match m {
            Some(m) => {
                proof {
                    lemma_legal_facts(self.board@);
                    let k = choose|k: int| 0 <= k < legal_moves(self@).len() && legal_moves(self@)[k] == m;
                    assert(valid_mv(legal_moves(self@)[k]));
                }
                let mut s = String::new();
                push_mv(&mut s, &m);
                s
            },
            None => String::new(),
        }
    }

    /// The best move as `best_move` finds it, or none when that search
    /// would fail (`search_ok` does not hold).
    pub fn try_best_move(&self, depth: i32) -> (r: Option<String>)
        ensures
            match r {
                Some(s) => search_ok(self@, (if depth >= 1 { depth } else { 1 }) as nat) && s@ == match search_result(
                    self@,
                    (if depth >= 1 { depth } else { 1 }) as nat,
                ).0 {
                    Some(m) => mv_chars(m),
                    None => Seq::<char>::empty(),
                },
                None => !search_ok(self@, (if depth >= 1 { depth } else { 1 }) as nat),
            },
    {
        proof {
            use_type_invariant(self);
        }
        let d = if depth >= 1 { depth } else { 1 };
        match search_checked(&self.board, d) {
            Some((Some(m), _)) => {
                proof {
                    lemma_legal_facts(self.board@);
                    let k = choose|k: int| 0 <= k < legal_moves(self@).len() && legal_moves(self@)[k] == m;
                    assert(valid_mv(legal_moves(self@)[k]));
                }
                let mut s = String::new();
                push_mv(&mut s, &m);
                Some(s)
            },
            Some((None, _)) => Some(String::new()),
            None => None,
        }
    }

    /// Whether the side to move has a king, which `is_check` needs.
    pub fn has_king_to_move(&self) -> (b: bool)
        ensures
            b == has_king(self@, self@.side as int),
    {
        proof {
            use_type_invariant(self);
        }
        self.board.king_index_of(self.board.side) < 64
    }

    /// Whether the legal moves can be listed (`legal_ok`), which
    /// `legal_moves` and `make_move` need.
    pub fn can_list_moves(&self) -> (b: bool)
        ensures
            b == legal_ok(self@),
    {
        proof {
            use_type_invariant(self);
        }
        self.board.can_list_moves()
    }

    /// perft(depth) node count as a decimal string, or none when counting
    /// would fail (`perft_ok` does not hold) or the count does not fit in a `u64`.
    pub fn try_perft(&self, depth: u32) -> (r: Option<String>)
        ensures
            match r {
                Some(s) => perft_ok(self@, depth as nat) && perft_count(self@, depth as nat) <= u64::MAX
                    && s@ == dec_str(perft_count(self@, depth as nat)),
                None => !(perft_ok(self@, depth as nat) && perft_count(self@, depth as nat) <= u64::MAX),
            },
    {
        proof {
            use_type_invariant(self);
        }
        match perft_checked(&self.board, depth) {
            Some(n) => {
                let mut s = String::new();
                push_decimal(&mut s, n);
                Some(s)
            },
            None => None,
        }
    }

    /// perft(depth) node count, as a decimal string.
    pub fn perft(&self, depth: u32) -> (s: String)
        requires
            perft_ok(self@, depth as nat),
            perft_count(self@, depth as nat) <= u64::MAX,
        ensures
            s@ == dec_str(perft_count(self@, depth as nat)),
    {
        proof {
            use_type_invariant(self);
        }
        let n = perft(&self.board, depth);
        let mut s = String::new();
        push_decimal(&mut s, n);
        s
    }
}

impl Default for Engine {
    fn default() -> (e: Self)
        ensures
            e@ == start_pos(),
    {
        Engine::new()
    }
}

} // verus!
