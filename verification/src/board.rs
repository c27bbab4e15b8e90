//! The board representation: a 64-square mailbox, its mathematical model
//! `Pos`, moves, the record of a position kept for repetition detection,
//! and the position key.
use vstd::prelude::*;
use crate::enpassant::{ep_id, ep_identity, snap_of};

verus! {

/// Piece type codes. A square holds `side * type`, with white `+1` and black `-1`.
pub const P: i8 = 1;
pub const N: i8 = 2;
pub const B: i8 = 3;
pub const R: i8 = 4;
pub const Q: i8 = 5;
pub const K: i8 = 6;

/// A move: origin square, destination square and promotion piece type (0 for none).
#[derive(Clone, Copy, PartialEq, Eq, Debug, Structural)]
pub struct Mv {
    pub from: i8,
    pub to: i8,
    pub promo: i8,
}

/// What makes two positions the same for the repetition rule: the
/// squares, the side to move, the castling rights and the en passant
/// square where an en passant capture is possible (else -1).
#[verifier::ext_equal]
pub struct Snap {
    pub sq: Seq<i8>,
    pub side: i8,
    pub castle: u8,
    pub ep: i8,
}

/// A position as the game history records it (see `Snap`).
#[derive(Clone, Copy, PartialEq, Eq, Debug)]
pub struct Snapshot {
    pub sq: [i8; 64],
    pub side: i8,
    pub castle: u8,
    pub ep: i8,
}

impl View for Snapshot {
    type V = Snap;

    open spec fn view(&self) -> Snap {
        Snap { sq: self.sq@, side: self.side, castle: self.castle, ep: self.ep }
    }
}

/// The mathematical model of a position.
#[verifier::ext_equal]
pub struct Pos {
    pub sq: Seq<i8>,
    pub side: i8,
    pub castle: u8,
    pub ep: i8,
    pub half: u16,
    pub hist: Seq<Snap>,
}

/// A chess position: squares indexed `rank * 8 + file` (a1 = 0, h8 = 63),
/// side to move (`1` white, `-1` black), castling rights as bits
/// (1 = white king side, 2 = white queen side, 4 = black king side,
/// 8 = black queen side), the en passant target square (or -1), the
/// half-move clock and the record of every position of the game so far.
pub struct Board {
    pub sq: [i8; 64],
    pub side: i8,
    pub castle: u8,
    pub ep: i8,
    pub half: u16,
    pub hist: Vec<Snapshot>,
}

impl View for Board {
    type V = Pos;

    open spec fn view(&self) -> Pos {
        Pos {
            sq: self.sq@,
            side: self.side,
            castle: self.castle,
            ep: self.ep,
            half: self.half,
            hist: self.hist@.map_values(|s: Snapshot| s@),
        }
    }
}

pub open spec fn on_board(r: int, f: int) -> bool {
    0 <= r < 8 && 0 <= f < 8
}

pub open spec fn sign(x: int) -> int {
    if x > 0 {
        1
    } else if x < 0 {
        -1
    } else {
        0
    }
}

pub open spec fn abs(x: int) -> int {
    if x < 0 {
        -x
    } else {
        x
    }
}

/// The move with the given fields.
pub open spec fn move_of(from: int, to: int, promo: int) -> Mv {
    Mv { from: from as i8, to: to as i8, promo: promo as i8 }
}

impl Pos {
    /// Every square holds a piece code in `-6..=6`, the side to move is
    /// `1` or `-1`, and the history holds at least the current position.
    pub open spec fn wf(self) -> bool {
        &&& self.sq.len() == 64
        &&& forall|i: int| 0 <= i < 64 ==> -6 <= #[trigger] self.sq[i] <= 6
        &&& (self.side == 1 || self.side == -1)
        &&& self.hist.len() > 0
    }

    /// Whether square (r, f) is on the board and holds `v`.
    pub open spec fn holds(self, r: int, f: int, v: int) -> bool {
        on_board(r, f) && self.sq[r * 8 + f] == v
    }
}

/// One step of the position hash: xor the byte in, then multiply by the
/// 64-bit FNV prime with wrap-around.
pub open spec fn fnv_mix(h: u64, x: u64) -> u64 {
    (h ^ x).wrapping_mul(1099511628211)
}

/// The hash after mixing in the first `n` squares.
pub open spec fn key_squares(sq: Seq<i8>, n: int) -> u64
    decreases n,
{
    if n <= 0 {
        1469598103934665603
    } else {
        fnv_mix(key_squares(sq, n - 1), sq[n - 1] as u8 as u64)
    }
}

/// A hash of squares, side to move, castling rights and en passant square.
pub open spec fn key_of(sq: Seq<i8>, side: i8, castle: u8, ep: i8) -> u64 {
    let h0 = key_squares(sq, 64);
    let h1 = fnv_mix(h0, (side as i64) as u64);
    let h2 = fnv_mix(h1, castle as u64);
    h2 ^ (ep as u8 as u64)
}

pub fn is_on_board(r: i8, f: i8) -> (b: bool)
    ensures
        b == on_board(r as int, f as int),
{
    0 <= r && r < 8 && 0 <= f && f < 8
}

/// The sign of a piece code: 1 for white, -1 for black, 0 for empty.
pub fn signum(x: i8) -> (s: i8)
    ensures
        s == sign(x as int),
{
    if x > 0 {
        1
    } else if x < 0 {
        -1
    } else {
        0
    }
}

/// The piece type of a piece code.
pub fn piece_type(x: i8) -> (t: i8)
    requires
        -6 <= x <= 6,
    ensures
        t == abs(x as int),
{
    if x < 0 {
        -x
    } else {
        x
    }
}

/// File (column) of a square, 0 for the a-file: the remainder of `s` by 8,
/// which for a negative `s` takes its sign.
pub fn file(s: i8) -> (f: i8)
    ensures
        s >= 0 ==> f == s % 8,
        s < 0 ==> f == -((-s) % 8),
{
    s % 8
}

/// Rank (row) of a square, 0 for the first rank: `s` divided by 8, rounded
/// towards zero.
pub fn rank(s: i8) -> (r: i8)
    ensures
        s >= 0 ==> r == s / 8,
        s < 0 ==> r == -((-s) / 8),
{
    s / 8
}

impl Board {
    /// The position key: the hash `key_of` of the squares, the side to
    /// move, the castling rights and the en passant square where an en
    /// passant capture is possible (not the clocks), so that positions that
    /// are the same for the repetition rule have the same key.
    pub fn key(&self) -> (k: u64)
        ensures
            k == key_of(self.sq@, self.side, self.castle, ep_id(self.sq@, self.side, self.ep)),
    {
        let ep = ep_identity(&self.sq, self.side, self.ep);
        let mut h: u64 = 1469598103934665603;
        let mut i: usize = 0;
        while i < 64
            invariant
                0 <= i <= 64,
                h == key_squares(self.sq@, i as int),
            decreases 64 - i,
        {
            let p = self.sq[i];
            h = h ^ (p as u8 as u64);
            h = h.wrapping_mul(1099511628211);
            i += 1;
        }
        h = h ^ ((self.side as i64) as u64);
        h = h.wrapping_mul(1099511628211);
        h = h ^ (self.castle as u64);
        h = h.wrapping_mul(1099511628211);
        h = h ^ (ep as u8 as u64);
        h
    }

    /// The record of this position for the game history.
    pub fn snapshot(&self) -> (s: Snapshot)
        ensures
            s@ == snap_of(self.sq@, self.side, self.castle, self.ep),
    {
        let ep = ep_identity(&self.sq, self.side, self.ep);
        Snapshot { sq: self.sq, side: self.side, castle: self.castle, ep }
    }
}


/// The squares of the standard starting position.
pub open spec fn start_squares() -> Seq<i8> {
    seq![
        4i8, 2, 3, 5, 6, 3, 2, 4,
        1, 1, 1, 1, 1, 1, 1, 1,
        0, 0, 0, 0, 0, 0, 0, 0,
        0, 0, 0, 0, 0, 0, 0, 0,
        0, 0, 0, 0, 0, 0, 0, 0,
        0, 0, 0, 0, 0, 0, 0, 0,
        -1i8, -1i8, -1i8, -1i8, -1i8, -1i8, -1i8, -1i8,
        -4i8, -2i8, -3i8, -5i8, -6i8, -3i8, -2i8, -4i8
    ]
}

/// The standard starting position: white to move, all castling rights.
pub open spec fn start_pos() -> Pos {
    let sq = start_squares();
    Pos { sq, side: 1, castle: 15, ep: -1i8, half: 0, hist: seq![snap_of(sq, 1, 15, -1i8)] }
}

} // verus!
