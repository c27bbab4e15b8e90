//! Square and move notation: "e2", "e2e4", "e7e8q".
use vstd::prelude::*;
use vstd::string::{StrSliceExecFns, StringSliceAdditionalSpecFns};
use vstd::utf8::{encode_utf8, encode_utf8_decode_utf8, is_ascii_chars, is_ascii_chars_encode_utf8};
use crate::board::{file, rank, Mv, B, N, Q, R};
use crate::text::{char_of, push_char};

verus! {

/// A byte difference read as an `i8` (two's complement).
pub open spec fn to_i8(v: int) -> int {
    if v < 128 {
        v
    } else {
        v - 256
    }
}

/// The square named by the two bytes `b0` (file letter) and `b1` (rank
/// digit) can be computed without overflow.
pub open spec fn sq_bytes_ok(b0: u8, b1: u8) -> bool {
    let x = to_i8(b1 - 49);
    let y = to_i8(b0 - 97);
    &&& b1 >= 49
    &&& b0 >= 97
    &&& -128 <= x * 8 <= 127
    &&& -128 <= x * 8 + y <= 127
}

/// The square named by the bytes `b0` `b1`: `(b1 - '1') * 8 + (b0 - 'a')`.
pub open spec fn sq_bytes_value(b0: u8, b1: u8) -> int {
    to_i8(b1 - 49) * 8 + to_i8(b0 - 97)
}

/// The square named by the first two bytes of `s`, such as "e4".
pub fn sq_from_str(s: &str) -> (sq: i8)
    requires
        s.spec_bytes().len() >= 2,
        sq_bytes_ok(s.spec_bytes()[0], s.spec_bytes()[1]),
    ensures
        sq == sq_bytes_value(s.spec_bytes()[0], s.spec_bytes()[1]),
{
    let b = s.as_bytes();
    let u = b[1] - 49u8;
    let v = b[0] - 97u8;
    let x = u as i8;
    let y = v as i8;
    assert(x == to_i8(u as int)) by (bit_vector)
        requires
            x == u as i8,
    ;
    assert(y == to_i8(v as int)) by (bit_vector)
        requires
            y == v as i8,
    ;
    x * 8 + y
}

/// The name of square `s`: its file letter then its rank digit.
pub open spec fn sq_chars(s: int) -> Seq<char> {
    seq![((97 + s % 8) as u32) as char, ((49 + s / 8) as u32) as char]
}

/// Appends the name of square `s` to `out`.
pub fn push_sq(out: &mut String, s: i8)
    requires
        0 <= s,
    ensures
        final(out)@ == old(out)@ + sq_chars(s as int),
{
    let f = file_of(s);
    let r = s / 8;
    push_char(out, char_of(97 + f as u32));
    push_char(out, char_of(49 + r as u32));
    assert(out@ =~= old(out)@ + sq_chars(s as int));
}

fn file_of(s: i8) -> (f: i8)
    requires
        0 <= s,
    ensures
        f == s % 8,
        0 <= f < 8,
{
    s % 8
}

/// The name of square `s`.
pub fn sq_to_str(s: i8) -> (out: String)
    requires
        0 <= s,
    ensures
        out@ == sq_chars(s as int),
{
    let mut out = String::new();
    push_sq(&mut out, s);
    out
}

/// The lower-case letter of a promotion piece type, or nothing.
pub open spec fn promo_chars(promo: int) -> Seq<char> {
    if promo == 5 {
        seq!['q']
    } else if promo == 4 {
        seq!['r']
    } else if promo == 3 {
        seq!['b']
    } else if promo == 2 {
        seq!['n']
    } else {
        seq![]
    }
}

/// A move in UCI notation: origin, destination, promotion letter.
pub open spec fn mv_chars(m: Mv) -> Seq<char> {
    sq_chars(m.from as int) + sq_chars(m.to as int) + promo_chars(m.promo as int)
}

/// Appends `m` in UCI notation to `out`.
pub fn push_mv(out: &mut String, m: &Mv)
    requires
        0 <= m.from,
        0 <= m.to,
    ensures
        final(out)@ == old(out)@ + mv_chars(*m),
{
    push_sq(out, m.from);
    push_sq(out, m.to);
    if m.promo == Q {
        push_char(out, 'q');
    } else if m.promo == R {
        push_char(out, 'r');
    } else if m.promo == B {
        push_char(out, 'b');
    } else if m.promo == N {
        push_char(out, 'n');
    }
    assert(out@ =~= old(out)@ + mv_chars(*m));
}

/// `m` in UCI notation.
pub fn mv_to_str(m: &Mv) -> (out: String)
    requires
        0 <= m.from,
        0 <= m.to,
    ensures
        out@ == mv_chars(*m),
{
    let mut out = String::new();
    push_mv(&mut out, m);
    out
}

/// The promotion piece named by a byte: q, r, b, n, else none.
pub open spec fn promo_of_byte(c: u8) -> i8 {
    if c == 113 {
        Q
    } else if c == 114 {
        R
    } else if c == 98 {
        B
    } else if c == 110 {
        N
    } else {
        0
    }
}

/// A file letter, 'a' to 'h'.
pub open spec fn file_byte(c: u8) -> bool {
    97 <= c <= 104
}

/// A rank digit, '1' to '8'.
pub open spec fn rank_byte(c: u8) -> bool {
    49 <= c <= 56
}

/// A promotion letter: q, r, b or n.
pub open spec fn promo_byte(c: u8) -> bool {
    c == 113 || c == 114 || c == 98 || c == 110
}

/// The move named by the bytes `b` in UCI notation: exactly a file letter,
/// a rank digit, a file letter, a rank digit and an optional promotion
/// letter; any other text names no move.
pub open spec fn uci_move(b: Seq<u8>) -> Option<Mv> {
    if (b.len() == 4 || (b.len() == 5 && promo_byte(b[4]))) && file_byte(b[0]) && rank_byte(b[1])
        && file_byte(b[2]) && rank_byte(b[3]) {
        Some(
            Mv {
                from: sq_bytes_value(b[0], b[1]) as i8,
                to: sq_bytes_value(b[2], b[3]) as i8,
                promo: if b.len() == 5 {
                    promo_of_byte(b[4])
                } else {
                    0
                },
            },
        )
    } else {
        None
    }
}

/// Whether the square named by `b0` `b1` can be computed without overflow.
pub fn sq_readable(b0: u8, b1: u8) -> (r: bool)
    ensures
        r == sq_bytes_ok(b0, b1),
{
    if b1 < 49 || b0 < 97 {
        return false;
    }
    let u: i32 = (b1 - 49) as i32;
    let v: i32 = (b0 - 97) as i32;
    let x: i32 = if u < 128 { u } else { u - 256 };
    let y: i32 = if v < 128 { v } else { v - 256 };
    -128 <= x * 8 && x * 8 <= 127 && -128 <= x * 8 + y && x * 8 + y <= 127
}

/// The square named by a file letter and a rank digit.
fn square_of(b0: u8, b1: u8) -> (s: i8)
    requires
        file_byte(b0),
        rank_byte(b1),
    ensures
        s == sq_bytes_value(b0, b1),
        0 <= s < 64,
{
    ((b1 - 49u8) * 8u8 + (b0 - 97u8)) as i8
}

/// Parses a move in UCI notation ("e2e4", "e7e8q"); any other text gives none.
pub fn parse_uci(s: &str) -> (r: Option<Mv>)
    ensures
        r == uci_move(s.spec_bytes()),
{
    let b = s.as_bytes();
    let n = b.len();
    if n != 4 && n != 5 {
        return None;
    }
    if !(97u8 <= b[0] && b[0] <= 104u8 && 49u8 <= b[1] && b[1] <= 56u8 && 97u8 <= b[2] && b[2] <= 104u8
        && 49u8 <= b[3] && b[3] <= 56u8) {
        return None;
    }
    let promo = if n == 5 {
        let c = b[4];
        if c == 113u8 {
            Q
        } else if c == 114u8 {
            R
        } else if c == 98u8 {
            B
        } else if c == 110u8 {
            N
        } else {
            return None;
        }
    } else {
        0
    };
    let from = square_of(b[0], b[1]);
    let to = square_of(b[2], b[3]);
    Some(Mv { from, to, promo })
}

/// The UTF-8 bytes of a move's UCI name read back as that move.
pub proof fn lemma_mv_chars_bytes(m: Mv)
    requires
        0 <= m.from < 64,
        0 <= m.to < 64,
        m.promo == 0 || 2 <= m.promo <= 5,
    ensures
        uci_move(encode_utf8(mv_chars(m))) == Some(m),
{
    let c = mv_chars(m);
    let f = m.from as int;
    let t = m.to as int;
    assert(c[0] == ((97 + f % 8) as u32) as char);
    assert(is_ascii_chars(c));
    is_ascii_chars_encode_utf8(c);
    let b = encode_utf8(c);
    assert(b[0] == 97 + f % 8);
    assert(b[1] == 49 + f / 8);
    assert(b[2] == 97 + t % 8);
    assert(b[3] == 49 + t / 8);
    assert(sq_bytes_value(b[0], b[1]) == f);
    assert(sq_bytes_value(b[2], b[3]) == t);
    if m.promo != 0 {
        assert(b.len() == 5);
        assert(promo_of_byte(b[4]) == m.promo);
    } else {
        assert(b.len() == 4);
    }
}

/// A text that names a move in UCI notation is that move's UCI name: no
/// other text parses to the same move.
pub proof fn lemma_uci_text_unique(u: Seq<char>, m: Mv)
    requires
        uci_move(encode_utf8(u)) == Some(m),
    ensures
        u == mv_chars(m),
        0 <= m.from < 64,
        0 <= m.to < 64,
        m.promo == 0 || 2 <= m.promo <= 5,
{
    let b = encode_utf8(u);
    let f = m.from as int;
    let t = m.to as int;
    assert(sq_bytes_value(b[0], b[1]) == (b[1] - 49) * 8 + (b[0] - 97));
    assert(sq_bytes_value(b[2], b[3]) == (b[3] - 49) * 8 + (b[2] - 97));
    assert(0 <= f < 64 && 0 <= t < 64);
    assert(b[0] == 97 + f % 8 && b[1] == 49 + f / 8);
    assert(b[2] == 97 + t % 8 && b[3] == 49 + t / 8);
    lemma_mv_chars_bytes(m);
    let c = mv_chars(m);
    assert(is_ascii_chars(c));
    is_ascii_chars_encode_utf8(c);
    let e = encode_utf8(c);
    assert(e.len() == b.len());
    assert(e =~= b);
    encode_utf8_decode_utf8(u);
    encode_utf8_decode_utf8(c);
}

} // verus!
