//! When an en passant capture is possible, which decides whether two
//! positions with different en passant squares are the same position.
use vstd::prelude::*;
use crate::board::{is_on_board, on_board, Board, Pos, Snap, P};
use crate::attack::{first_index, has_king, in_check, king_index, lemma_first_index_bounds};

verus! {

/// The squares after the pawn of `side` on file `ep % 8 + df` captures en
/// passant onto `ep`: the passed pawn and the capturing pawn's square are
/// emptied and the pawn lands on `ep`.
pub open spec fn ep_after(sq: Seq<i8>, side: int, ep: int, df: int) -> Seq<i8> {
    let r = ep / 8 - side;
    sq.update(r * 8 + ep % 8, 0).update(ep, (side * P) as i8).update(r * 8 + ep % 8 + df, 0)
}

/// The position with the squares after that capture, `side` to move.
pub open spec fn ep_pos(sq: Seq<i8>, side: int, ep: int, df: int) -> Pos {
    Pos { sq: ep_after(sq, side, ep, df), side: side as i8, castle: 0, ep: -1i8, half: 0, hist: seq![] }
}

/// `side` can capture en passant onto `ep` with its pawn on file
/// `ep % 8 + df`: that pawn stands beside an enemy pawn that passed `ep`,
/// `ep` is empty, and the capture does not leave `side`'s king attacked.
pub open spec fn ep_capture(sq: Seq<i8>, side: int, ep: int, df: int) -> bool {
    let r = ep / 8 - side;
    let f = ep % 8 + df;
    let q = ep_pos(sq, side, ep, df);
    &&& side == 1 || side == -1
    &&& df == 1 || df == -1
    &&& 0 <= ep < 64
    &&& on_board(r, f)
    &&& sq[r * 8 + f] == side * P
    &&& sq[r * 8 + ep % 8] == -side * P
    &&& sq[ep] == 0
    &&& (has_king(q, side) ==> !in_check(q, side))
}

/// The en passant square as far as the repetition rule sees it: `ep` when
/// an en passant capture onto it is possible, else -1.
pub open spec fn ep_id(sq: Seq<i8>, side: i8, ep: i8) -> i8 {
    if ep_capture(sq, side as int, ep as int, -1) || ep_capture(sq, side as int, ep as int, 1) {
        ep
    } else {
        -1i8
    }
}

/// The record of a position for the game history.
pub open spec fn snap_of(sq: Seq<i8>, side: i8, castle: u8, ep: i8) -> Snap {
    Snap { sq, side, castle, ep: ep_id(sq, side, ep) }
}

/// Two positions are recorded as the same position exactly when they have
/// the same squares, side to move and castling rights, and the same en
/// passant captures are possible in them (as target square and the file
/// offset of the capturing pawn).
pub proof fn law_same_position(a: Pos, b: Pos)
    ensures
        snap_of(a.sq, a.side, a.castle, a.ep) == snap_of(b.sq, b.side, b.castle, b.ep) <==> {
            &&& a.sq == b.sq
            &&& a.side == b.side
            &&& a.castle == b.castle
            &&& forall|t: int, df: int|
                (t == a.ep && #[trigger] ep_capture(a.sq, a.side as int, t, df)) <==> (t == b.ep
                    && #[trigger] ep_capture(b.sq, b.side as int, t, df))
        },
{
    let ea = ep_id(a.sq, a.side, a.ep);
    let eb = ep_id(b.sq, b.side, b.ep);
    if a.sq == b.sq && a.side == b.side && a.castle == b.castle {
        if ea == eb {
            assert forall|t: int, df: int|
                (t == a.ep && #[trigger] ep_capture(a.sq, a.side as int, t, df)) implies (t == b.ep
                    && #[trigger] ep_capture(b.sq, b.side as int, t, df)) by {
                assert(ea == a.ep);
            }
            assert forall|t: int, df: int|
                (t == b.ep && #[trigger] ep_capture(b.sq, b.side as int, t, df)) implies (t == a.ep
                    && #[trigger] ep_capture(a.sq, a.side as int, t, df)) by {
                assert(eb == b.ep);
            }
        } else {
            if ea == a.ep && ea != -1 {
                let df: int = if ep_capture(a.sq, a.side as int, a.ep as int, -1) { -1 } else { 1 };
                assert(ep_capture(a.sq, a.side as int, a.ep as int, df));
                if b.ep as int == a.ep as int {
                    assert(ep_capture(b.sq, b.side as int, b.ep as int, df));
                    assert(eb == b.ep);
                }
            } else {
                let df: int = if ep_capture(b.sq, b.side as int, b.ep as int, -1) { -1 } else { 1 };
                assert(ep_capture(b.sq, b.side as int, b.ep as int, df));
                if b.ep as int == a.ep as int {
                    assert(ep_capture(a.sq, a.side as int, a.ep as int, df));
                }
            }
        }
    }
}

impl Board {
    /// The square of the first king of `side`, scanning from a1, or 64 when
    /// it has none.
    pub fn king_index_of(&self, side: i8) -> (k: i8)
        requires
            side == 1 || side == -1,
        ensures
            k == king_index(self@, side as int),
            0 <= k <= 64,
    {
        let v = side * 6;
        let mut i: usize = 0;
        proof {
            lemma_first_index_bounds(self.sq@, v as int, 0);
        }
        while i < 64
            invariant
                0 <= i <= 64,
                v == side * 6,
                first_index(self.sq@, v as int, 0) == first_index(self.sq@, v as int, i as int),
                0 <= first_index(self.sq@, v as int, 0) <= 64,
            decreases 64 - i,
        {
            if self.sq[i] == v {
                return i as i8;
            }
            i += 1;
        }
        64
    }
}

fn ep_capture_at(sq: &[i8; 64], side: i8, ep: i8, df: i8) -> (b: bool)
    requires
        side == 1 || side == -1,
        0 <= ep < 64,
        df == 1 || df == -1,
    ensures
        b == ep_capture(sq@, side as int, ep as int, df as int),
{
    let r = ep / 8 - side;
    let f = ep % 8 + df;
    if !is_on_board(r, f) {
        return false;
    }
    let from = (r * 8 + f) as usize;
    let cap = (r * 8 + ep % 8) as usize;
    if sq[from] != side * P || sq[cap] != -side * P || sq[ep as usize] != 0 {
        return false;
    }
    let mut after = *sq;
    after[cap] = 0;
    after[ep as usize] = side * P;
    after[from] = 0;
    let q = Board { sq: after, side, castle: 0, ep: -1, half: 0, hist: Vec::new() };
    assert(q@ =~= ep_pos(sq@, side as int, ep as int, df as int));
    let k = q.king_index_of(side);
    if k == 64 {
        true
    } else {
        !q.attacked(k, -side)
    }
}

/// The en passant square as `ep_id` states it.
pub fn ep_identity(sq: &[i8; 64], side: i8, ep: i8) -> (e: i8)
    ensures
        e == ep_id(sq@, side, ep),
{
    if (side != 1 && side != -1) || ep < 0 || ep >= 64 {
        return -1;
    }
    if ep_capture_at(sq, side, ep, -1) || ep_capture_at(sq, side, ep, 1) {
        ep
    } else {
        -1
    }
}

} // verus!
