//! Forsyth-Edwards Notation: reading a position from FEN and writing it back.
use vstd::prelude::*;
use vstd::string::{StrSliceExecFns, StringSliceAdditionalSpecFns};
use vstd::utf8::encode_utf8;
use crate::enpassant::snap_of;
use crate::board::{start_pos, start_squares, Board, Pos, B, K, N, P, Q, R};
use crate::text::{
    char_of, dec_str, is_digit, is_ws, no_ws, parse_u16, parse_u16_at, push_char, push_decimal, split_words,
    str_chars, words,
};
use crate::uci::{sq_readable, push_sq, sq_bytes_ok, sq_bytes_value, sq_chars, sq_from_str};

verus! {

/// The piece code of a FEN letter: upper case white, lower case black,
/// 0 for any other character.
pub open spec fn piece_code(c: char) -> i8 {
    if c == 'P' {
        1i8
    } else if c == 'N' {
        2
    } else if c == 'B' {
        3
    } else if c == 'R' {
        4
    } else if c == 'Q' {
        5
    } else if c == 'K' {
        6
    } else if c == 'p' {
        -1i8
    } else if c == 'n' {
        -2i8
    } else if c == 'b' {
        -3i8
    } else if c == 'r' {
        -4i8
    } else if c == 'q' {
        -5i8
    } else if c == 'k' {
        -6i8
    } else {
        0
    }
}

/// The board with every square empty.
pub open spec fn empty_squares() -> Seq<i8> {
    Seq::new(64, |i: int| 0i8)
}

/// Reads the piece placement `w` from index `i` on, with the cursor on
/// square `idx`: '/' moves the cursor down a rank, a digit skips that many
/// squares, any other character sets the square under the cursor and
/// advances it. `None` when a character lands off the board or the cursor
/// leaves the `i32` range.
pub open spec fn place(w: Seq<char>, i: int, idx: int, sq: Seq<i8>) -> Option<Seq<i8>>
    decreases w.len() - i,
{
    if i < 0 || i >= w.len() {
        Some(sq)
    } else {
        let c = w[i];
        if c == '/' {
            if idx - 16 < i32::MIN {
                None
            } else {
                place(w, i + 1, idx - 16, sq)
            }
        } else if is_digit(c) {
            let d = (c as u32) - 48;
            if idx + d > i32::MAX {
                None
            } else {
                place(w, i + 1, idx + d, sq)
            }
        } else if 0 <= idx < 64 {
            place(w, i + 1, idx + 1, sq.update(idx, piece_code(c)))
        } else {
            None
        }
    }
}

/// The castling rights that the FEN field `t` names (K, Q, k, q).
pub open spec fn castle_bits(t: Seq<char>) -> u8 {
    let c1 = if t.contains('K') { 0u8 | 1u8 } else { 0u8 };
    let c2 = if t.contains('Q') { c1 | 2u8 } else { c1 };
    let c3 = if t.contains('k') { c2 | 4u8 } else { c2 };
    if t.contains('q') { c3 | 8u8 } else { c3 }
}

/// Reading the en passant field `t` does not fail: it is "-", or its
/// UTF-8 encoding has two bytes naming a square without overflow.
pub open spec fn ep_field_ok(t: Seq<char>) -> bool {
    t == seq!['-'] || {
        let b = encode_utf8(t);
        b.len() >= 2 && sq_bytes_ok(b[0], b[1])
    }
}

/// Reading the FEN `f` does not fail: it has a placement field that
/// reads without failing, and an en passant field, if any, that reads.
pub open spec fn fen_ok(f: Seq<char>) -> bool {
    let ws = words(f);
    &&& ws.len() >= 1
    &&& place(ws[0], 0, 56, empty_squares()) is Some
    &&& (ws.len() > 3 ==> ep_field_ok(ws[3]))
}

/// The position that the FEN `f` describes: placement, side ("b" for
/// black, anything else white), castling rights, en passant square ("-"
/// for none), half-move clock (0 when absent or unreadable); the history
/// holds this position. The full-move number is ignored.
pub open spec fn fen_pos(f: Seq<char>) -> Pos {
    let ws = words(f);
    let sq = place(ws[0], 0, 56, empty_squares())->Some_0;
    let side: i8 = if ws.len() > 1 && ws[1] == seq!['b'] { -1i8 } else { 1i8 };
    let castle = if ws.len() > 2 { castle_bits(ws[2]) } else { 0u8 };
    let ep: i8 = if ws.len() > 3 && ws[3] != seq!['-'] {
        sq_bytes_value(encode_utf8(ws[3])[0], encode_utf8(ws[3])[1]) as i8
    } else {
        -1i8
    };
    let half: u16 = if ws.len() > 4 {
        match parse_u16(ws[4]) {
            Some(v) => v,
            None => 0,
        }
    } else {
        0
    };
    Pos { sq, side, castle, ep, half, hist: seq![snap_of(sq, side, castle, ep)] }
}

/// The FEN letter of piece code `x`.
pub open spec fn fen_char(x: int) -> char {
    if x == 1 {
        'P'
    } else if x == 2 {
        'N'
    } else if x == 3 {
        'B'
    } else if x == 4 {
        'R'
    } else if x == 5 {
        'Q'
    } else if x == 6 {
        'K'
    } else if x == -1 {
        'p'
    } else if x == -2 {
        'n'
    } else if x == -3 {
        'b'
    } else if x == -4 {
        'r'
    } else if x == -5 {
        'q'
    } else if x == -6 {
        'k'
    } else {
        '?'
    }
}

/// A run of `n` empty squares: its digit, or nothing when `n` is 0.
pub open spec fn empties(n: int) -> Seq<char> {
    if n > 0 {
        dec_str(n as nat)
    } else {
        seq![]
    }
}

/// Rank `r` from file `f` on, with `empty` empty squares pending.
pub open spec fn rank_str(sq: Seq<i8>, r: int, f: int, empty: int) -> Seq<char>
    decreases 8 - f,
{
    if f >= 8 {
        empties(empty)
    } else {
        let x = sq[r * 8 + f] as int;
        if x == 0 {
            rank_str(sq, r, f + 1, empty + 1)
        } else {
            empties(empty) + seq![fen_char(x)] + rank_str(sq, r, f + 1, 0)
        }
    }
}

/// Ranks `r` down to the first, separated by '/'.
pub open spec fn ranks_str(sq: Seq<i8>, r: int) -> Seq<char>
    decreases r,
{
    if r <= 0 {
        rank_str(sq, 0, 0, 0)
    } else {
        rank_str(sq, r, 0, 0) + seq!['/'] + ranks_str(sq, r - 1)
    }
}

/// The castling field: the letters of the rights held, or "-".
pub open spec fn castle_str(c: u8) -> Seq<char> {
    let s = (if c & 1u8 != 0 { seq!['K'] } else { seq![] }) + (if c & 2u8 != 0 {
        seq!['Q']
    } else {
        seq![]
    }) + (if c & 4u8 != 0 { seq!['k'] } else { seq![] }) + (if c & 8u8 != 0 {
        seq!['q']
    } else {
        seq![]
    });
    if s.len() == 0 {
        seq!['-']
    } else {
        s
    }
}

/// The FEN of `p`: placement, side, castling, en passant square,
/// half-move clock, and full-move number 1.
pub open spec fn fen_string(p: Pos) -> Seq<char> {
    ranks_str(p.sq, 7) + seq![' ', if p.side == 1 { 'w' } else { 'b' }, ' '] + castle_str(p.castle)
        + seq![' '] + (if p.ep >= 0 { sq_chars(p.ep as int) } else { seq!['-'] }) + seq![' ']
        + dec_str(p.half as nat) + seq![' ', '1']
}

/// The letter of a piece type (p, n, b, r, q, k), '?' for anything else.
pub fn piece_char(p: i8) -> (c: char)
    ensures
        c == if 1 <= p <= 6 {
            fen_char(-(p as int))
        } else {
            '?'
        },
{
    if p == 1 {
        'p'
    } else if p == 2 {
        'n'
    } else if p == 3 {
        'b'
    } else if p == 4 {
        'r'
    } else if p == 5 {
        'q'
    } else if p == 6 {
        'k'
    } else {
        '?'
    }
}

fn ascii_upper(c: char) -> (u: char)
    ensures
        u == (if 'a' <= c <= 'z' { ((c as u32) - 32) as char } else { c }),
{
    if 'a' <= c && c <= 'z' {
        char_of(c as u32 - 32)
    } else {
        c
    }
}

fn piece_of(c: char) -> (x: i8)
    ensures
        x == piece_code(c),
{
    let p: i8 = if c == 'p' || c == 'P' {
        P
    } else if c == 'n' || c == 'N' {
        N
    } else if c == 'b' || c == 'B' {
        B
    } else if c == 'r' || c == 'R' {
        R
    } else if c == 'q' || c == 'Q' {
        Q
    } else if c == 'k' || c == 'K' {
        K
    } else {
        0
    };
    if 'A' <= c && c <= 'Z' {
        p
    } else {
        -p
    }
}

fn word_is(s: &Vec<char>, a: usize, b: usize, c: char) -> (r: bool)
    requires
        a <= b <= s@.len(),
    ensures
        r == (s@.subrange(a as int, b as int) == seq![c]),
{
    if b - a == 1 && s[a] == c {
        assert(s@.subrange(a as int, b as int) =~= seq![c]);
        true
    } else {
        proof {
            if b - a == 1 {
                assert(s@.subrange(a as int, b as int)[0] == s@[a as int]);
            } else {
                assert(s@.subrange(a as int, b as int).len() != seq![c].len());
            }
        }
        false
    }
}

fn word_contains(s: &Vec<char>, a: usize, b: usize, c: char) -> (r: bool)
    requires
        a <= b <= s@.len(),
    ensures
        r == s@.subrange(a as int, b as int).contains(c),
{
    let mut i = a;
    while i < b
        invariant
            a <= i <= b <= s@.len(),
            forall|j: int| a <= j < i ==> s@[j] != c,
        decreases b - i,
    {
        if s[i] == c {
            assert(s@.subrange(a as int, b as int)[i - a] == c);
            return true;
        }
        i += 1;
    }
    false
}

/// Whether the FEN `fen` can be read without failing.
pub fn fen_readable(fen: &str) -> (r: bool)
    ensures
        r == fen_ok(fen@),
{
    let chars = str_chars(fen);
    let w = split_words(&chars);
    if w.len() == 0 {
        return false;
    }
    let (a0, b0) = w[0];
    let mut idx: i32 = 56;
    let mut i = a0;
    let ghost word = chars@.subrange(a0 as int, b0 as int);
    let ghost sq0 = empty_squares();
    let ghost mut sq = empty_squares();
    while i < b0
        invariant
            a0 <= i <= b0 <= chars@.len(),
            word == chars@.subrange(a0 as int, b0 as int),
            chars@ == fen@,
            w@.len() >= 1,
            words(chars@)[0] == word,
            sq0 == empty_squares(),
            place(word, 0, 56, sq0) == place(word, i - a0, idx as int, sq),
            sq.len() == 64,
        decreases b0 - i,
    {
        let c = chars[i];
        assert(word[i - a0] == c);
        if c == '/' {
            if idx < i32::MIN + 16 {
                return false;
            }
            idx = idx - 16;
        } else if '0' <= c && c <= '9' {
            let d = (c as u32 - 48) as i32;
            if idx > i32::MAX - d {
                return false;
            }
            idx = idx + d;
        } else {
            if idx < 0 || idx >= 64 {
                return false;
            }
            proof {
                sq = sq.update(idx as int, piece_code(c));
            }
            idx = idx + 1;
        }
        i += 1;
    }
    if w.len() > 3 {
        let (a3, b3) = w[3];
        if !word_is(&chars, a3, b3, '-') {
            let t = fen.substring_char(a3, b3);
            let bytes = t.as_bytes();
            if bytes.len() < 2 {
                return false;
            }
            return sq_readable(bytes[0], bytes[1]);
        }
    }
    true
}

impl Board {
    /// The standard starting position, read from its FEN.
    pub fn start() -> (b: Board)
        ensures
            b@ == start_pos(),
            b@.wf(),
    {
        let fen = "rnbqkbnr/pppppppp/8/8/8/8/PPPPPPPP/RNBQKBNR w KQkq - 0 1";
        proof {
            reveal_strlit("rnbqkbnr/pppppppp/8/8/8/8/PPPPPPPP/RNBQKBNR w KQkq - 0 1");
            assert(fen@ =~= start_fen_chars());
            lemma_start_fen();
        }
        Board::from_fen(fen)
    }

    /// Reads a position from FEN.
    pub fn from_fen(fen: &str) -> (b: Board)
        requires
            fen_ok(fen@),
        ensures
            b@ == fen_pos(fen@),
            b@.wf(),
    {
        let chars = str_chars(fen);
        let w = split_words(&chars);
        let (a0, b0) = w[0];
        let mut sq = [0i8; 64];
        let mut idx: i32 = 56;
        let mut i = a0;
        let ghost word = chars@.subrange(a0 as int, b0 as int);
        assert(sq@ =~= empty_squares());
        while i < b0
            invariant
                a0 <= i <= b0 <= chars@.len(),
                word == chars@.subrange(a0 as int, b0 as int),
                place(word, 0, 56, empty_squares()) == place(word, i - a0, idx as int, sq@),
                place(word, 0, 56, empty_squares()) is Some,
                forall|j: int| 0 <= j < 64 ==> -6 <= #[trigger] sq@[j] <= 6,
            decreases b0 - i,
        {
            let c = chars[i];
            assert(word[i - a0] == c);
            if c == '/' {
                idx = idx - 16;
            } else if '0' <= c && c <= '9' {
                let d = (c as u32 - 48) as i32;
                idx = idx + d;
            } else {
                let p = piece_of(c);
                sq[idx as usize] = p;
                idx = idx + 1;
            }
            i += 1;
        }
        let side: i8 = if w.len() > 1 && word_is(&chars, w[1].0, w[1].1, 'b') {
            -1
        } else {
            1
        };
        let mut castle: u8 = 0;
        if w.len() > 2 {
            let (a2, b2) = w[2];
            if word_contains(&chars, a2, b2, 'K') {
                castle = castle | 1;
            }
            if word_contains(&chars, a2, b2, 'Q') {
                castle = castle | 2;
            }
            if word_contains(&chars, a2, b2, 'k') {
                castle = castle | 4;
            }
            if word_contains(&chars, a2, b2, 'q') {
                castle = castle | 8;
            }
        }
        let mut ep: i8 = -1;
        if w.len() > 3 {
            let (a3, b3) = w[3];
            if !word_is(&chars, a3, b3, '-') {
                let t = fen.substring_char(a3, b3);
                ep = sq_from_str(t);
            }
        }
        let mut half: u16 = 0;
        if w.len() > 4 {
            let (a4, b4) = w[4];
            match parse_u16_at(&chars, a4, b4) {
                Some(v) => {
                    half = v;
                },
                None => {},
            }
        }
        let mut b = Board { sq, side, castle, ep, half, hist: Vec::new() };
        let snap = b.snapshot();
        b.hist.push(snap);
        assert(b@.hist =~= fen_pos(fen@).hist);
        b
    }

    fn push_rank(&self, s: &mut String, r: i8)
        requires
            0 <= r <= 7,
            self@.wf(),
        ensures
            final(s)@ == old(s)@ + rank_str(self.sq@, r as int, 0, 0),
    {
        let ghost s0 = s@;
        let mut empty: i32 = 0;
        let mut f: i8 = 0;
        while f < 8
            invariant
                0 <= f <= 8,
                0 <= r <= 7,
                0 <= empty <= f,
                self@.wf(),
                s@ + rank_str(self.sq@, r as int, f as int, empty as int) == s0 + rank_str(
                    self.sq@,
                    r as int,
                    0,
                    0,
                ),
            decreases 8 - f,
        {
            let p = self.sq[(r * 8 + f) as usize];
            if p == 0 {
                empty += 1;
            } else {
                let ghost before = s@;
                let ghost e0 = empty as int;
                if empty > 0 {
                    push_decimal(s, empty as u64);
                    empty = 0;
                }
                assert(s@ == before + empties(e0));
                let c = piece_char(if p < 0 { -p } else { p });
                let ch = if p > 0 { ascii_upper(c) } else { c };
                assert(ch == fen_char(p as int));
                push_char(s, ch);
                assert(s@ + rank_str(self.sq@, r as int, f + 1, 0) =~= before + rank_str(
                    self.sq@,
                    r as int,
                    f as int,
                    e0,
                ));
            }
            f += 1;
        }
        let ghost e0 = empty as int;
        if empty > 0 {
            push_decimal(s, empty as u64);
        }
        assert(s@ =~= s0 + rank_str(self.sq@, r as int, 0, 0)) by {
            assert(rank_str(self.sq@, r as int, 8, e0) == empties(e0));
        }
    }

    fn push_placement(&self, s: &mut String)
        requires
            self@.wf(),
        ensures
            final(s)@ == old(s)@ + ranks_str(self.sq@, 7),
    {
        let ghost s0 = s@;
        let mut r: i8 = 7;
        loop
            invariant_except_break
                0 <= r <= 7,
                self@.wf(),
                s@ + ranks_str(self.sq@, r as int) == s0 + ranks_str(self.sq@, 7),
            ensures
                s@ == s0 + ranks_str(self.sq@, 7),
            decreases r,
        {
            let ghost s1 = s@;
            self.push_rank(s, r);
            if r == 0 {
                assert(s@ =~= s0 + ranks_str(self.sq@, 7));
                break;
            }
            push_char(s, '/');
            assert(s@ + ranks_str(self.sq@, r - 1) =~= s1 + ranks_str(self.sq@, r as int));
            r -= 1;
        }
    }

    /// The position in FEN.
    #[verifier::spinoff_prover]
    pub fn to_fen(&self) -> (s: String)
        requires
            self@.wf(),
        ensures
            s@ == fen_string(self@),
    {
        let mut s = String::new();
        self.push_placement(&mut s);
        let ghost a = s@;
        push_char(&mut s, ' ');
        push_char(&mut s, if self.side == 1 { 'w' } else { 'b' });
        push_char(&mut s, ' ');
        let ghost b = s@;
        assert(b =~= a + seq![' ', if self.side == 1 { 'w' } else { 'b' }, ' ']);
        push_castle(&mut s, self.castle);
        push_char(&mut s, ' ');
        let ghost c = s@;
        assert(c =~= b + castle_str(self.castle) + seq![' ']);
        if self.ep >= 0 {
            push_sq(&mut s, self.ep);
        } else {
            push_char(&mut s, '-');
        }
        push_char(&mut s, ' ');
        let ghost d = s@;
        assert(d =~= c + (if self.ep >= 0 { sq_chars(self.ep as int) } else { seq!['-'] }) + seq![' ']);
        push_decimal(&mut s, self.half as u64);
        push_char(&mut s, ' ');
        push_char(&mut s, '1');
        assert(s@ =~= d + dec_str(self.half as nat) + seq![' ', '1']);
        assert(s@ =~= fen_string(self@));
        s
    }
}

fn push_castle(s: &mut String, castle: u8)
    ensures
        final(s)@ == old(s)@ + castle_str(castle),
{
    let ghost before_castle = s@;
    let mut any = false;
    if castle & 1 != 0 {
        push_char(s, 'K');
        any = true;
    }
    if castle & 2 != 0 {
        push_char(s, 'Q');
        any = true;
    }
    if castle & 4 != 0 {
        push_char(s, 'k');
        any = true;
    }
    if castle & 8 != 0 {
        push_char(s, 'q');
        any = true;
    }
    if !any {
        push_char(s, '-');
    }
    assert(s@ =~= before_castle + castle_str(castle));
}


/// Reading the placement `w` from index `i`: the cursor and the squares
/// at the end, as `place` reads them.
pub open spec fn run_place(w: Seq<char>, i: int, idx: int, sq: Seq<i8>) -> Option<(int, Seq<i8>)>
    decreases w.len() - i,
{
    if i < 0 || i >= w.len() {
        Some((idx, sq))
    } else {
        let c = w[i];
        if c == '/' {
            if idx - 16 < i32::MIN {
                None
            } else {
                run_place(w, i + 1, idx - 16, sq)
            }
        } else if is_digit(c) {
            let d = (c as u32) - 48;
            if idx + d > i32::MAX {
                None
            } else {
                run_place(w, i + 1, idx + d, sq)
            }
        } else if 0 <= idx < 64 {
            run_place(w, i + 1, idx + 1, sq.update(idx, piece_code(c)))
        } else {
            None
        }
    }
}

proof fn lemma_place_run(w: Seq<char>, i: int, idx: int, sq: Seq<i8>)
    requires
        0 <= i <= w.len(),
    ensures
        place(w, i, idx, sq) == match run_place(w, i, idx, sq) {
            Some(r) => Some(r.1),
            None => None,
        },
    decreases w.len() - i,
{
    if i < w.len() {
        let c = w[i];
        if c == '/' {
            lemma_place_run(w, i + 1, idx - 16, sq);
        } else if is_digit(c) {
            lemma_place_run(w, i + 1, idx + ((c as u32) - 48), sq);
        } else if 0 <= idx < 64 {
            lemma_place_run(w, i + 1, idx + 1, sq.update(idx, piece_code(c)));
        }
    }
}

proof fn lemma_run_shift(a: Seq<char>, b: Seq<char>, j: int, idx: int, sq: Seq<i8>)
    requires
        0 <= j <= b.len(),
    ensures
        run_place(a + b, a.len() + j, idx, sq) == run_place(b, j, idx, sq),
    decreases b.len() - j,
{
    if j < b.len() {
        assert((a + b)[a.len() + j] == b[j]);
        let c = b[j];
        if c == '/' {
            lemma_run_shift(a, b, j + 1, idx - 16, sq);
        } else if is_digit(c) {
            lemma_run_shift(a, b, j + 1, idx + ((c as u32) - 48), sq);
        } else if 0 <= idx < 64 {
            lemma_run_shift(a, b, j + 1, idx + 1, sq.update(idx, piece_code(c)));
        }
    }
}

/// Reading `a + b` is reading `a`, then reading `b` from where `a` ended.
proof fn lemma_run_concat(a: Seq<char>, b: Seq<char>, i: int, idx: int, sq: Seq<i8>)
    requires
        0 <= i <= a.len(),
    ensures
        run_place(a + b, i, idx, sq) == match run_place(a, i, idx, sq) {
            Some(r) => run_place(b, 0, r.0, r.1),
            None => None,
        },
    decreases a.len() - i,
{
    if i < a.len() {
        assert((a + b)[i] == a[i]);
        let c = a[i];
        if c == '/' {
            lemma_run_concat(a, b, i + 1, idx - 16, sq);
        } else if is_digit(c) {
            lemma_run_concat(a, b, i + 1, idx + ((c as u32) - 48), sq);
        } else if 0 <= idx < 64 {
            lemma_run_concat(a, b, i + 1, idx + 1, sq.update(idx, piece_code(c)));
        }
    } else {
        lemma_run_shift(a, b, 0, idx, sq);
    }
}

/// `acc` with the pieces of `sq` on the squares `lo..hi` written in.
pub open spec fn with_pieces(acc: Seq<i8>, sq: Seq<i8>, lo: int, hi: int) -> Seq<i8> {
    Seq::new(64, |i: int| if lo <= i < hi && sq[i] != 0 { sq[i] } else { acc[i] })
}

proof fn lemma_piece_code_fen_char(x: int)
    requires
        -6 <= x <= 6,
        x != 0,
    ensures
        piece_code(fen_char(x)) == x,
        fen_char(x) != '/',
        !is_digit(fen_char(x)),
{
}

/// Reading back rank `r` from file `f` on, with `empty` empty squares
/// pending, writes the pieces of that part of the rank and ends on the
/// first square of the next rank up.
proof fn lemma_rank_read(sq: Seq<i8>, r: int, f: int, empty: int, acc: Seq<i8>)
    requires
        0 <= r < 8,
        0 <= empty <= f <= 8,
        sq.len() == 64,
        acc.len() == 64,
        forall|i: int| 0 <= i < 64 ==> -6 <= #[trigger] sq[i] <= 6,
    ensures
        run_place(rank_str(sq, r, f, empty), 0, r * 8 + f - empty, acc) == Some(
            (r * 8 + 8, with_pieces(acc, sq, r * 8 + f, r * 8 + 8)),
        ),
    decreases 8 - f,
{
    if f >= 8 {
        assert(with_pieces(acc, sq, r * 8 + f, r * 8 + 8) =~= acc);
        reveal_with_fuel(run_place, 2);
        if empty > 0 {
            assert(empties(empty) == seq![((empty + 48) as u32) as char]);
        }
    } else {
        let x = sq[r * 8 + f] as int;
        if x == 0 {
            lemma_rank_read(sq, r, f + 1, empty + 1, acc);
            assert(with_pieces(acc, sq, r * 8 + f + 1, r * 8 + 8) =~= with_pieces(acc, sq, r * 8 + f, r * 8 + 8));
        } else {
            let e = empties(empty);
            let c = seq![fen_char(x)];
            let rest = rank_str(sq, r, f + 1, 0);
            lemma_piece_code_fen_char(x);
            let acc2 = acc.update(r * 8 + f, sq[r * 8 + f]);
            assert(run_place(e, 0, r * 8 + f - empty, acc) == Some((r * 8 + f, acc))) by {
                reveal_with_fuel(run_place, 2);
                if empty > 0 {
                    assert(e == seq![((empty + 48) as u32) as char]);
                }
            }
            assert(run_place(c, 0, r * 8 + f, acc) == Some((r * 8 + f + 1, acc2))) by {
                reveal_with_fuel(run_place, 2);
            }
            lemma_rank_read(sq, r, f + 1, 0, acc2);
            lemma_run_concat(e + c, rest, 0, r * 8 + f - empty, acc);
            lemma_run_concat(e, c, 0, r * 8 + f - empty, acc);
            assert(with_pieces(acc2, sq, r * 8 + f + 1, r * 8 + 8) =~= with_pieces(acc, sq, r * 8 + f, r * 8 + 8));
        }
    }
}

/// Reading back ranks `r` down to the first writes all their pieces.
proof fn lemma_ranks_read(sq: Seq<i8>, r: int, acc: Seq<i8>)
    requires
        0 <= r < 8,
        sq.len() == 64,
        acc.len() == 64,
        forall|i: int| 0 <= i < 64 ==> -6 <= #[trigger] sq[i] <= 6,
    ensures
        run_place(ranks_str(sq, r), 0, r * 8, acc) == Some((8int, with_pieces(acc, sq, 0, r * 8 + 8))),
    decreases r,
{
    lemma_rank_read(sq, r, 0, 0, acc);
    let acc1 = with_pieces(acc, sq, r * 8, r * 8 + 8);
    if r > 0 {
        let a = rank_str(sq, r, 0, 0);
        let sl: Seq<char> = seq!['/'];
        lemma_ranks_read(sq, r - 1, acc1);
        assert(run_place(sl, 0, r * 8 + 8, acc1) == Some(((r - 1) * 8, acc1))) by {
            reveal_with_fuel(run_place, 2);
        }
        lemma_run_concat(a + sl, ranks_str(sq, r - 1), 0, r * 8, acc);
        lemma_run_concat(a, sl, 0, r * 8, acc);
        assert(with_pieces(acc1, sq, 0, (r - 1) * 8 + 8) =~= with_pieces(acc, sq, 0, r * 8 + 8));
    }
}

/// Reading back the placement of a well-formed board gives its squares.
pub proof fn lemma_placement_round_trip(sq: Seq<i8>)
    requires
        sq.len() == 64,
        forall|i: int| 0 <= i < 64 ==> -6 <= #[trigger] sq[i] <= 6,
    ensures
        place(ranks_str(sq, 7), 0, 56, empty_squares()) == Some(sq),
{
    lemma_ranks_read(sq, 7, empty_squares());
    lemma_place_run(ranks_str(sq, 7), 0, 56, empty_squares());
    assert(with_pieces(empty_squares(), sq, 0, 64) =~= sq);
}


proof fn lemma_contains_add(a: Seq<char>, b: Seq<char>, x: char)
    ensures
        (a + b).contains(x) <==> a.contains(x) || b.contains(x),
{
    if a.contains(x) {
        let i = choose|i: int| 0 <= i < a.len() && a[i] == x;
        assert((a + b)[i] == x);
    }
    if b.contains(x) {
        let i = choose|i: int| 0 <= i < b.len() && b[i] == x;
        assert((a + b)[a.len() + i] == x);
    }
    if (a + b).contains(x) {
        let i = choose|i: int| 0 <= i < (a + b).len() && (a + b)[i] == x;
        if i < a.len() {
            assert(a[i] == x);
        } else {
            assert(b[i - a.len()] == x);
        }
    }
}

proof fn lemma_opt_contains(b: bool, c: char, x: char)
    ensures
        (if b { seq![c] } else { Seq::<char>::empty() }).contains(x) <==> b && c == x,
{
    if b {
        assert(seq![c][0] == c);
    }
}

/// Reading back the castling field of `c` gives the four rights of `c`.
pub proof fn lemma_castle_round_trip(c: u8)
    ensures
        castle_bits(castle_str(c)) == c & 15u8,
        castle_str(c).len() > 0,
        no_ws(castle_str(c)),
{
    let k1 = c & 1u8 != 0;
    let q1 = c & 2u8 != 0;
    let k2 = c & 4u8 != 0;
    let q2 = c & 8u8 != 0;
    let a = if k1 { seq!['K'] } else { Seq::<char>::empty() };
    let b = if q1 { seq!['Q'] } else { Seq::<char>::empty() };
    let d = if k2 { seq!['k'] } else { Seq::<char>::empty() };
    let e = if q2 { seq!['q'] } else { Seq::<char>::empty() };
    let s = a + b + d + e;
    assert forall|x: char| s.contains(x) <==> (k1 && x == 'K') || (q1 && x == 'Q') || (k2 && x == 'k') || (q2 && x == 'q') by {
        lemma_contains_add(a + b + d, e, x);
        lemma_contains_add(a + b, d, x);
        lemma_contains_add(a, b, x);
        lemma_opt_contains(k1, 'K', x);
        lemma_opt_contains(q1, 'Q', x);
        lemma_opt_contains(k2, 'k', x);
        lemma_opt_contains(q2, 'q', x);
    }
    if s.len() == 0 {
        assert(!k1 && !q1 && !k2 && !q2);
        assert(castle_str(c) == seq!['-']);
        assert(!seq!['-'].contains('K'));
        assert(!seq!['-'].contains('Q'));
        assert(!seq!['-'].contains('k'));
        assert(!seq!['-'].contains('q'));
    }
    assert(castle_str(c).contains('K') == k1);
    assert(castle_str(c).contains('Q') == q1);
    assert(castle_str(c).contains('k') == k2);
    assert(castle_str(c).contains('q') == q2);
    assert({
        let c1 = if c & 1u8 != 0 { 0u8 | 1u8 } else { 0u8 };
        let c2 = if c & 2u8 != 0 { c1 | 2u8 } else { c1 };
        let c3 = if c & 4u8 != 0 { c2 | 4u8 } else { c2 };
        (if c & 8u8 != 0 { c3 | 8u8 } else { c3 }) == c & 15u8
    }) by (bit_vector);
    assert forall|i: int| 0 <= i < castle_str(c).len() implies !is_ws(#[trigger] castle_str(c)[i]) by {
        let x = castle_str(c)[i];
        if s.len() > 0 {
            assert(s.contains(x));
        }
    }
}

proof fn lemma_rank_str_text(sq: Seq<i8>, r: int, f: int, empty: int)
    requires
        0 <= r < 8,
        0 <= empty <= f <= 8,
        empty + (8 - f) >= 1,
        empty <= 8,
    ensures
        rank_str(sq, r, f, empty).len() > 0,
        no_ws(rank_str(sq, r, f, empty)),
    decreases 8 - f,
{
    if f < 8 {
        let x = sq[r * 8 + f] as int;
        if x == 0 {
            lemma_rank_str_text(sq, r, f + 1, empty + 1);
        } else {
            if f + 1 <= 8 && 8 - (f + 1) >= 1 {
                lemma_rank_str_text(sq, r, f + 1, 0);
            }
            let e = empties(empty);
            let t = e + seq![fen_char(x)] + rank_str(sq, r, f + 1, 0);
            assert(rank_str(sq, r, f, empty) == t);
            assert forall|i: int| 0 <= i < t.len() implies !is_ws(#[trigger] t[i]) by {
                if i < e.len() {
                } else if i == e.len() {
                } else {
                    assert(t[i] == rank_str(sq, r, f + 1, 0)[i - e.len() - 1]);
                }
            }
        }
    }
}

/// The placement field is a non-empty word.
pub proof fn lemma_ranks_str_text(sq: Seq<i8>, r: int)
    requires
        0 <= r < 8,
    ensures
        ranks_str(sq, r).len() > 0,
        no_ws(ranks_str(sq, r)),
    decreases r,
{
    lemma_rank_str_text(sq, r, 0, 0);
    if r > 0 {
        lemma_ranks_str_text(sq, r - 1);
        let a = rank_str(sq, r, 0, 0);
        let t = a + seq!['/'] + ranks_str(sq, r - 1);
        assert forall|i: int| 0 <= i < t.len() implies !is_ws(#[trigger] t[i]) by {
            if i < a.len() {
            } else if i == a.len() {
            } else {
                assert(t[i] == ranks_str(sq, r - 1)[i - a.len() - 1]);
            }
        }
    }
}


/// The FEN of the starting position.
pub open spec fn start_fen_chars() -> Seq<char> {
    seq![
            'r', 'n', 'b', 'q', 'k', 'b', 'n', 'r', '/',
            'p', 'p', 'p', 'p', 'p', 'p', 'p', 'p', '/',
            '8', '/', '8', '/', '8', '/', '8', '/',
            'P', 'P', 'P', 'P', 'P', 'P', 'P', 'P', '/',
            'R', 'N', 'B', 'Q', 'K', 'B', 'N', 'R',
            ' ', 'w', ' ', 'K', 'Q', 'k', 'q', ' ', '-', ' ', '0', ' ', '1'
        ]
}

/// Reading the starting position's FEN gives the starting position.
proof fn lemma_start_fen()
    ensures
        fen_ok(start_fen_chars()),
        fen_pos(start_fen_chars()) == start_pos(),
{
    lemma_start_fen_string();
    crate::laws::law_fen_round_trip(start_pos());
    assert(fen_pos(start_fen_chars()).sq =~= start_pos().sq);
    assert(15u8 & 15u8 == 15u8) by (bit_vector);
    assert(fen_pos(start_fen_chars()).hist =~= start_pos().hist);
}

proof fn lemma_start_fen_string()
    ensures
        fen_string(start_pos()) =~= start_fen_chars(),
{
    let sq = start_squares();
    reveal_with_fuel(rank_str, 9);
    assert(rank_str(sq, 7, 0, 0) =~= seq!['r', 'n', 'b', 'q', 'k', 'b', 'n', 'r']);
    assert(rank_str(sq, 6, 0, 0) =~= seq!['p', 'p', 'p', 'p', 'p', 'p', 'p', 'p']);
    assert(dec_str(8) =~= seq!['8']);
    assert(rank_str(sq, 5, 0, 0) =~= seq!['8']);
    assert(rank_str(sq, 4, 0, 0) =~= seq!['8']);
    assert(rank_str(sq, 3, 0, 0) =~= seq!['8']);
    assert(rank_str(sq, 2, 0, 0) =~= seq!['8']);
    assert(rank_str(sq, 1, 0, 0) =~= seq!['P', 'P', 'P', 'P', 'P', 'P', 'P', 'P']);
    assert(rank_str(sq, 0, 0, 0) =~= seq!['R', 'N', 'B', 'Q', 'K', 'B', 'N', 'R']);
    reveal_with_fuel(ranks_str, 8);
    assert(15u8 & 1u8 != 0 && 15u8 & 2u8 != 0 && 15u8 & 4u8 != 0 && 15u8 & 8u8 != 0) by (bit_vector);
    assert(castle_str(15) =~= seq!['K', 'Q', 'k', 'q']);
    assert(dec_str(0) =~= seq!['0']);
}

/// A FEN piece letter.
pub open spec fn piece_letter(c: char) -> bool {
    c == 'p' || c == 'n' || c == 'b' || c == 'r' || c == 'q' || c == 'k' || c == 'P' || c == 'N'
        || c == 'B' || c == 'R' || c == 'Q' || c == 'K'
}

/// A digit that counts empty squares in a FEN rank, '1' to '8'.
pub open spec fn skip_digit(c: char) -> bool {
    '1' <= c <= '8'
}

/// The number of squares that the FEN rank text `w` covers.
pub open spec fn rank_width(w: Seq<char>) -> int
    decreases w.len(),
{
    if w.len() == 0 {
        0
    } else {
        rank_width(w.drop_last()) + if skip_digit(w.last()) {
            (w.last() as u32) - 48
        } else {
            1
        }
    }
}

/// A well-formed FEN rank: piece letters and digits '1' to '8' that cover
/// exactly eight squares.
pub open spec fn rank_text(w: Seq<char>) -> bool {
    &&& forall|i: int| 0 <= i < w.len() ==> piece_letter(#[trigger] w[i]) || skip_digit(w[i])
    &&& rank_width(w) == 8
}

/// The ranks `rs` joined by '/'.
pub open spec fn joined_ranks(rs: Seq<Seq<char>>) -> Seq<char>
    decreases rs.len(),
{
    if rs.len() <= 1 {
        if rs.len() == 1 {
            rs[0]
        } else {
            seq![]
        }
    } else {
        joined_ranks(rs.drop_last()) + seq!['/'] + rs.last()
    }
}

/// A FEN placement: eight well-formed ranks, the eighth rank first, joined by '/'.
pub open spec fn placement_text(w: Seq<char>) -> bool {
    exists|rs: Seq<Seq<char>>|
        rs.len() == 8 && (forall|i: int| 0 <= i < 8 ==> rank_text(#[trigger] rs[i])) && w
            == joined_ranks(rs)
}

/// A square name, "a1" to "h8".
pub open spec fn square_text(t: Seq<char>) -> bool {
    t.len() == 2 && 'a' <= t[0] <= 'h' && '1' <= t[1] <= '8'
}

proof fn lemma_rank_width_grows(w: Seq<char>)
    requires
        forall|i: int| 0 <= i < w.len() ==> piece_letter(#[trigger] w[i]) || skip_digit(w[i]),
    ensures
        w.len() > 0 ==> rank_width(w.drop_last()) < rank_width(w),
        rank_width(w) >= 0,
    decreases w.len(),
{
    if w.len() > 0 {
        lemma_rank_width_grows(w.drop_last());
    }
}

/// Reading a rank that covers at most eight squares, from a cursor with
/// eight squares of room, moves the cursor by its width and does not fail.
proof fn lemma_rank_reads(w: Seq<char>, idx: int, sq: Seq<i8>)
    requires
        forall|i: int| 0 <= i < w.len() ==> piece_letter(#[trigger] w[i]) || skip_digit(w[i]),
        rank_width(w) <= 8,
        0 <= idx,
        idx + 8 <= 64,
    ensures
        run_place(w, 0, idx, sq) matches Some(r) && r.0 == idx + rank_width(w),
    decreases w.len(),
{
    if w.len() > 0 {
        let a = w.drop_last();
        let c = w.last();
        lemma_rank_width_grows(w);
        assert forall|i: int| 0 <= i < a.len() implies piece_letter(#[trigger] a[i]) || skip_digit(a[i]) by {
            assert(a[i] == w[i]);
        }
        lemma_rank_width_grows(a);
        lemma_rank_reads(a, idx, sq);
        assert(w =~= a + seq![c]);
        lemma_run_concat(a, seq![c], 0, idx, sq);
        assert(piece_letter(w[w.len() - 1]) || skip_digit(w[w.len() - 1]));
        let r = run_place(a, 0, idx, sq)->Some_0;
        assert(r.0 == idx + rank_width(a));
        assert(rank_width(w) == rank_width(a) + if skip_digit(c) {
            (c as u32) - 48
        } else {
            1
        });
        if skip_digit(c) {
            assert(is_digit(c));
            let d = (c as u32) - 48;
            assert(seq![c][0] == c);
            assert(run_place(seq![c], 0, r.0, r.1) == run_place(seq![c], 1, r.0 + d, r.1));
        } else {
            assert(!is_digit(c));
            assert(c != '/');
            assert(0 <= r.0 < 64);
            assert(seq![c][0] == c);
            assert(run_place(seq![c], 0, r.0, r.1) == run_place(
                seq![c],
                1,
                r.0 + 1,
                r.1.update(r.0, piece_code(c)),
            ));
        }
    } else {
        assert(run_place(w, 0, idx, sq) == Some((idx, sq)));
    }
}

/// Reading the first `k` of eight well-formed ranks from the top-left
/// corner leaves the cursor at the end of rank `k`.
proof fn lemma_joined_ranks_read(rs: Seq<Seq<char>>, k: int, sq: Seq<i8>)
    requires
        rs.len() == 8,
        forall|i: int| 0 <= i < 8 ==> rank_text(#[trigger] rs[i]),
        1 <= k <= 8,
    ensures
        run_place(joined_ranks(rs.take(k)), 0, 56, sq) matches Some(r) && r.0 == 72 - 8 * k,
    decreases k,
{
    assert(rank_text(rs[k - 1]));
    if k == 1 {
        assert(rs.take(1).len() == 1);
        assert(joined_ranks(rs.take(1)) == rs.take(1)[0]);
        lemma_rank_reads(rs[0], 56, sq);
    } else {
        lemma_joined_ranks_read(rs, k - 1, sq);
        let head = joined_ranks(rs.take(k - 1));
        assert(rs.take(k).drop_last() =~= rs.take(k - 1));
        assert(rs.take(k).last() == rs[k - 1]);
        assert(joined_ranks(rs.take(k)) == head + seq!['/'] + rs[k - 1]);
        lemma_run_concat(head + seq!['/'], rs[k - 1], 0, 56, sq);
        lemma_run_concat(head, seq!['/'], 0, 56, sq);
        let r = run_place(head, 0, 56, sq)->Some_0;
        assert(run_place(seq!['/'], 0, r.0, r.1) == run_place(seq!['/'], 1, r.0 - 16, r.1));
        lemma_rank_reads(rs[k - 1], r.0 - 16, r.1);
    }
}

/// A FEN placement reads without failing.
pub proof fn lemma_placement_reads(w: Seq<char>)
    requires
        placement_text(w),
    ensures
        place(w, 0, 56, empty_squares()) is Some,
{
    let rs = choose|rs: Seq<Seq<char>>|
        rs.len() == 8 && (forall|i: int| 0 <= i < 8 ==> rank_text(#[trigger] rs[i])) && w == joined_ranks(rs);
    lemma_joined_ranks_read(rs, 8, empty_squares());
    assert(rs.take(8) =~= rs);
    lemma_place_run(w, 0, 56, empty_squares());
}

/// A square name is a readable en passant field.
pub proof fn lemma_square_text_reads(t: Seq<char>)
    requires
        square_text(t),
    ensures
        ep_field_ok(t),
{
    assert(vstd::utf8::is_ascii_chars(t));
    vstd::utf8::is_ascii_chars_encode_utf8(t);
    let b = encode_utf8(t);
    assert(b[0] == t[0] as u8 && b[1] == t[1] as u8);
    assert(t != seq!['-']) by {
        assert(t.len() != 1);
    }
    assert(sq_bytes_ok(b[0], b[1]));
}

} // verus!
