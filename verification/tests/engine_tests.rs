use rusty_dragon::board::{Board, Mv};
use rusty_dragon::engine::Engine;
use rusty_dragon::fen::fen_readable;
use rusty_dragon::search::{negamax, perft, search};
use rusty_dragon::uci::{mv_to_str, parse_uci, sq_from_str, sq_to_str};

#[test]
fn perft_startpos() {
    let b = Board::start();
    assert_eq!(perft(&b, 1), 20);
    assert_eq!(perft(&b, 2), 400);
    assert_eq!(perft(&b, 3), 8902);
    assert_eq!(perft(&b, 4), 197281);
}

#[test]
fn perft_kiwipete() {
    let b = Board::from_fen("r3k2r/p1ppqpb1/bn2pnp1/3PN3/1p2P3/2N2Q1p/PPPBBPPP/R3K2R w KQkq - 0 1");
    assert_eq!(perft(&b, 1), 48);
    assert_eq!(perft(&b, 2), 2039);
    assert_eq!(perft(&b, 3), 97862);
}

#[test]
fn perft_position3_en_passant_pin() {
    let b = Board::from_fen("8/2p5/3p4/KP5r/1R3p1k/8/4P1P1/8 w - - 0 1");
    assert_eq!(perft(&b, 1), 14);
    assert_eq!(perft(&b, 2), 191);
    assert_eq!(perft(&b, 3), 2812);
    assert_eq!(perft(&b, 4), 43238);
}

#[test]
fn perft_position4_promotion_castling() {
    let b = Board::from_fen("r3k2r/Pppp1ppp/1b3nbN/nP6/BBP1P3/q4N2/Pp1P2PP/R2Q1RK1 w kq - 0 1");
    assert_eq!(perft(&b, 1), 6);
    assert_eq!(perft(&b, 2), 264);
    assert_eq!(perft(&b, 3), 9467);
    assert_eq!(perft(&b, 4), 422333);
}

#[test]
fn fen_round_trip() {
    let fen = "r3k2r/p1ppqpb1/bn2pnp1/3PN3/1p2P3/2N2Q1p/PPPBBPPP/R3K2R w KQkq - 0 1";
    assert_eq!(Board::from_fen(fen).to_fen(), fen);
}

#[test]
fn en_passant_square_recorded_in_fen() {
    let mut eng = Engine::new();
    assert!(eng.make_move("e2e4"));
    assert!(eng.make_move("e7e5"));
    assert!(eng.fen().contains(" e6 "));
}

#[test]
fn engine_rejects_illegal_move() {
    let mut eng = Engine::new();
    assert!(!eng.make_move("e2e5")); // pawns can't jump three squares
    assert!(eng.make_move("e2e4"));
    assert!(!eng.make_move("e2e4")); // already moved, no longer legal from e2
}

#[test]
fn checkmate_detected_via_engine_api() {
    let mut eng = Engine::new();
    eng.set_fen("rnb1kbnr/pppp1ppp/8/4p3/6Pq/5P2/PPPPP2P/RNBQKBNR w KQkq - 1 3");
    assert!(eng.is_check());
    assert!(eng.legal_moves().is_empty());
}

#[test]
fn best_move_returns_a_legal_move() {
    let eng = Engine::new();
    let bm = eng.best_move(3);
    assert!(eng.legal_moves().split(' ').any(|m| m == bm));
}

#[test]
fn start_position_fen() {
    let eng = Engine::new();
    assert_eq!(eng.fen(), "rnbqkbnr/pppppppp/8/8/8/8/PPPPPPPP/RNBQKBNR w KQkq - 0 1");
    assert_eq!(eng.side_to_move(), 1);
    assert!(eng.is_sane());
    assert_eq!(eng.half_move_clock(), 0);
    let d = Engine::default();
    assert_eq!(d.fen(), eng.fen());
}

#[test]
fn start_position_legal_moves_in_order() {
    let eng = Engine::new();
    assert_eq!(
        eng.legal_moves(),
        "b1c3 b1a3 g1h3 g1f3 a2a3 a2a4 b2b3 b2b4 c2c3 c2c4 d2d3 d2d4 e2e3 e2e4 f2f3 f2f4 g2g3 g2g4 h2h3 h2h4"
    );
}

#[test]
fn start_equals_start_fen() {
    let a = Board::start();
    let b = Board::from_fen("rnbqkbnr/pppppppp/8/8/8/8/PPPPPPPP/RNBQKBNR w KQkq - 0 1");
    assert_eq!(a.sq, b.sq);
    assert_eq!(a.side, b.side);
    assert_eq!(a.castle, b.castle);
    assert_eq!(a.ep, b.ep);
    assert_eq!(a.half, b.half);
    assert_eq!(a.hist, b.hist);
}

#[test]
fn fen_fields_read() {
    let b = Board::from_fen("4k3/8/8/3pP3/8/8/8/4K3 w - d6 17 40");
    assert_eq!(b.side, 1);
    assert_eq!(b.castle, 0);
    assert_eq!(b.ep, 43);
    assert_eq!(b.half, 17);
    assert_eq!(b.to_fen(), "4k3/8/8/3pP3/8/8/8/4K3 w - d6 17 1");
}

#[test]
fn fen_half_move_clock_unreadable_is_zero() {
    let b = Board::from_fen("4k3/8/8/8/8/8/8/4K3 b Kq - x 1");
    assert_eq!(b.half, 0);
    assert_eq!(b.side, -1);
    assert_eq!(b.castle, 9);
    let c = Board::from_fen("4k3/8/8/8/8/8/8/4K3 w - - +12 1");
    assert_eq!(c.half, 12);
    let d = Board::from_fen("4k3/8/8/8/8/8/8/4K3 w - - 70000 1");
    assert_eq!(d.half, 0);
    let e = Board::from_fen("4k3/8/8/8/8/8/8/4K3");
    assert_eq!(e.side, 1);
    assert_eq!(e.half, 0);
    assert_eq!(e.ep, -1);
}

#[test]
fn fen_readability_check() {
    assert!(fen_readable("rnbqkbnr/pppppppp/8/8/8/8/PPPPPPPP/RNBQKBNR w KQkq - 0 1"));
    assert!(!fen_readable(""));
    assert!(!fen_readable("   "));
    assert!(!fen_readable("9k/8/8/8/8/8/8/8 w - - 0 1"));
    assert!(!fen_readable("4k3/8/8/8/8/8/8/4K3 w - e 0 1"));
    assert!(fen_readable("4k3/8/8/8/8/8/8/4K3 w - e3 0 1"));
}

#[test]
fn castling_moves_rook_and_drops_rights() {
    let mut eng = Engine::new();
    eng.set_fen("r3k2r/8/8/8/8/8/8/R3K2R w KQkq - 0 1");
    assert!(eng.make_move("e1g1"));
    assert_eq!(eng.fen(), "r3k2r/8/8/8/8/8/8/R4RK1 b kq - 1 1");
    assert!(eng.make_move("e8c8"));
    assert_eq!(eng.fen(), "2kr3r/8/8/8/8/8/8/R4RK1 w - - 2 1");
}

#[test]
fn castling_through_check_is_illegal() {
    let mut eng = Engine::new();
    eng.set_fen("4k3/8/8/8/8/8/5r2/R3K2R w KQ - 0 1");
    assert!(!eng.make_move("e1g1"));
    assert!(eng.make_move("e1c1"));
}

#[test]
fn en_passant_capture_removes_pawn() {
    let mut eng = Engine::new();
    eng.set_fen("4k3/8/8/3pP3/8/8/8/4K3 w - d6 0 1");
    assert!(eng.make_move("e5d6"));
    assert_eq!(eng.fen(), "4k3/8/3P4/8/8/8/8/4K3 b - - 0 1");
}

#[test]
fn en_passant_discovered_check_is_illegal() {
    let mut eng = Engine::new();
    eng.set_fen("8/8/8/KPp4r/8/8/8/7k w - c6 0 1");
    assert!(!eng.make_move("b5c6"));
}

#[test]
fn promotion_and_underpromotion() {
    let mut eng = Engine::new();
    eng.set_fen("8/P6k/8/8/8/8/8/K7 w - - 0 1");
    let moves = eng.legal_moves();
    assert!(moves.contains("a7a8q"));
    assert!(moves.contains("a7a8r"));
    assert!(moves.contains("a7a8b"));
    assert!(moves.contains("a7a8n"));
    assert!(!eng.make_move("a7a8"));
    assert!(eng.make_move("a7a8n"));
    assert_eq!(eng.fen(), "N7/7k/8/8/8/8/8/K7 b - - 0 1");
}

#[test]
fn fifty_move_rule() {
    let mut eng = Engine::new();
    eng.set_fen("4k3/8/8/8/8/8/8/4K2R w - - 99 1");
    assert!(!eng.is_fifty_move_draw());
    assert!(eng.make_move("h1h2"));
    assert!(eng.is_fifty_move_draw());
}

#[test]
fn threefold_repetition() {
    let mut eng = Engine::new();
    assert!(!eng.is_repetition());
    for _ in 0..2 {
        assert!(eng.make_move("g1f3"));
        assert!(eng.make_move("g8f6"));
        assert!(eng.make_move("f3g1"));
        assert!(eng.make_move("f6g8"));
    }
    assert!(eng.is_repetition());
}

#[test]
fn threefold_repetition_ignores_unusable_en_passant_square() {
    let moves = ["e2e4", "g8f6", "g1f3", "f6g8", "f3g1", "g8f6", "g1f3", "f6g8", "f3g1"];
    let mut eng = Engine::new();
    let mut b = Board::start();
    for (i, u) in moves.iter().enumerate() {
        assert!(!eng.is_repetition());
        assert!(!b.is_repetition());
        assert!(eng.make_move(u));
        b = b.make(&parse_uci(u).unwrap());
        if i == 0 {
            assert_eq!(b.ep, 20);
        }
    }
    assert!(eng.is_repetition());
    assert!(b.is_repetition());
}

#[test]
fn threefold_repetition_counts_a_possible_en_passant_capture() {
    let mut eng = Engine::new();
    eng.set_fen("4k3/8/8/8/3p4/8/4P3/4K3 w - - 0 1");
    assert!(eng.make_move("e2e4"));
    let shuffle = ["e8f8", "e1f1", "f8e8", "f1e1"];
    for _ in 0..2 {
        for u in shuffle {
            assert!(!eng.is_repetition());
            assert!(eng.make_move(u));
        }
    }
    assert!(!eng.is_repetition());
    for u in shuffle {
        assert!(eng.make_move(u));
    }
    assert!(eng.is_repetition());
}

#[test]
fn position_key_sees_en_passant_only_when_capture_is_possible() {
    let open = Board::from_fen("4K3/8/8/8/k2pP3/8/8/8 b - e3 0 1");
    let open_none = Board::from_fen("4K3/8/8/8/k2pP3/8/8/8 b - - 0 1");
    assert_ne!(open.key(), open_none.key());
    assert_eq!(open.snapshot().ep, 20);
    let pinned = Board::from_fen("4K3/8/8/8/k2pP2R/8/8/8 b - e3 0 1");
    let pinned_none = Board::from_fen("4K3/8/8/8/k2pP2R/8/8/8 b - - 0 1");
    assert_eq!(pinned.key(), pinned_none.key());
    assert_eq!(pinned.snapshot(), pinned_none.snapshot());
    assert_eq!(pinned.snapshot().ep, -1);
    let no_pawn = Board::from_fen("4K3/8/8/8/k3P3/8/8/8 b - e3 0 1");
    let no_pawn_none = Board::from_fen("4K3/8/8/8/k3P3/8/8/8 b - - 0 1");
    assert_eq!(no_pawn.key(), no_pawn_none.key());
    assert_eq!(Board::start().key(), Board::start().key());
}

#[test]
fn checks_before_engine_calls() {
    let eng = Engine::new();
    assert!(eng.has_king_to_move());
    assert!(eng.can_list_moves());
    assert_eq!(eng.try_perft(2), Some("400".to_string()));
    assert_eq!(eng.try_best_move(2).map(|s| s.len()), Some(4));
    let mut lone = Engine::new();
    lone.set_fen("8/8/8/8/8/8/8/4k3 w - - 0 1");
    assert!(!lone.has_king_to_move());
    assert!(lone.can_list_moves());
    assert_eq!(lone.try_perft(1), Some("0".to_string()));
    assert_eq!(lone.try_best_move(1), None);
    let mut kingless = Engine::new();
    kingless.set_fen("4k3/8/8/8/8/8/8/R7 w - - 0 1");
    assert!(!kingless.has_king_to_move());
    assert!(!kingless.can_list_moves());
    assert_eq!(kingless.try_perft(1), None);
    assert_eq!(kingless.try_perft(0), Some("1".to_string()));
    assert_eq!(kingless.try_best_move(3), None);
    let mut rook_gone = Engine::new();
    rook_gone.set_fen("4k3/8/8/8/8/8/8/4K3 w K - 0 1");
    assert!(!rook_gone.is_sane());
    assert!(rook_gone.can_list_moves());
    assert_eq!(rook_gone.try_perft(1), Some("6".to_string()));
    assert!(rook_gone.try_best_move(2).is_some());
}

#[test]
fn stalemate_has_no_moves_and_no_check() {
    let mut eng = Engine::new();
    eng.set_fen("7k/5Q2/6K1/8/8/8/8/8 b - - 0 1");
    assert!(!eng.is_check());
    assert!(eng.legal_moves().is_empty());
    assert_eq!(eng.best_move(2), "");
}

#[test]
fn search_finds_mate_in_one() {
    let eng = {
        let mut e = Engine::new();
        e.set_fen("6k1/5ppp/8/8/8/8/8/R5K1 w - - 0 1");
        e
    };
    assert_eq!(eng.best_move(2), "a1a8");
}

#[test]
fn search_scores() {
    let mated = Board::from_fen("rnb1kbnr/pppp1ppp/8/4p3/6Pq/5P2/PPPPP2P/RNBQKBNR w KQkq - 1 3");
    assert_eq!(search(&mated, 1), (None, -30000));
    assert_eq!(negamax(&mated, 2, i32::MIN + 1, i32::MAX - 1), -29997);
    let stale = Board::from_fen("7k/5Q2/6K1/8/8/8/8/8 b - - 0 1");
    assert_eq!(search(&stale, 3), (None, 0));
    let up_a_queen = Board::from_fen("4k3/8/8/8/8/8/8/3QK3 w - - 0 1");
    assert_eq!(up_a_queen.eval(), 900);
    let drawn = Board::from_fen("4k3/8/8/8/8/8/8/3QK3 w - - 100 1");
    assert_eq!(negamax(&drawn, 3, i32::MIN + 1, i32::MAX - 1), 0);
}

#[test]
fn eval_from_both_sides() {
    let w = Board::from_fen("4k3/8/8/8/8/8/8/R3K3 w - - 0 1");
    let b = Board::from_fen("4k3/8/8/8/8/8/8/R3K3 b - - 0 1");
    assert_eq!(w.eval(), 500);
    assert_eq!(b.eval(), -500);
    assert_eq!(Board::start().eval(), 0);
}

#[test]
fn perft_depth_zero_is_one() {
    let b = Board::start();
    assert_eq!(perft(&b, 0), 1);
    let eng = Engine::new();
    assert_eq!(eng.perft(3), "8902");
}

#[test]
fn square_and_move_notation() {
    assert_eq!(sq_to_str(0), "a1");
    assert_eq!(sq_to_str(63), "h8");
    assert_eq!(sq_to_str(44), "e6");
    assert_eq!(sq_from_str("e6"), 44);
    assert_eq!(sq_from_str("h8x"), 63);
    assert_eq!(mv_to_str(&Mv { from: 52, to: 60, promo: 5 }), "e7e8q");
    assert_eq!(parse_uci("e7e8q"), Some(Mv { from: 52, to: 60, promo: 5 }));
    assert_eq!(parse_uci("e7e8n"), Some(Mv { from: 52, to: 60, promo: 2 }));
    assert_eq!(parse_uci("e2e4"), Some(Mv { from: 12, to: 28, promo: 0 }));
    assert_eq!(parse_uci("a1h8"), Some(Mv { from: 0, to: 63, promo: 0 }));
    assert_eq!(parse_uci("e2"), None);
}

#[test]
fn uci_text_must_be_exact() {
    for text in ["e7e8x", "e2e4x", "e2e4 ", " e2e4", "i1a3", "a0a1", "a9a1", "e2E4", "E2e4", "e\u{e9}e4", "a\u{e9}12", "", "e2e4qq", "e7e8k", "e7e8Q"] {
        assert_eq!(parse_uci(text), None, "{:?}", text);
    }
}

#[test]
fn make_move_refuses_text_that_is_not_a_move() {
    let mut eng = Engine::new();
    let start = eng.fen();
    for text in ["i1a3", "e2e4x", "e2e4 ", "a0a1", "a\u{e9}12", "", "e2", "e2e5", "e2e4q"] {
        assert!(!eng.make_move(text), "{:?}", text);
        assert_eq!(eng.fen(), start);
    }
    assert!(!eng.is_repetition());
    assert!(eng.make_move("e2e4"));
    assert_eq!(eng.fen(), "rnbqkbnr/pppppppp/8/8/4P3/8/PPPP1PPP/RNBQKBNR b KQkq e3 0 1");
}

#[test]
fn sanity_of_positions() {
    assert!(Board::start().is_sane());
    assert!(!Board::from_fen("8/8/8/8/8/8/8/4K3 w - - 0 1").is_sane());
    assert!(!Board::from_fen("4k3/8/8/8/8/8/4R3/4K3 w - - 0 1").is_sane());
    assert!(!Board::from_fen("4k3/8/8/8/8/8/8/4K3 w K - 0 1").is_sane());
    assert!(Board::from_fen("4k3/8/8/3pP3/8/8/8/4K3 w - d6 0 1").is_sane());
}

#[test]
fn make_records_history() {
    let b = Board::start();
    let m = Mv { from: 12, to: 28, promo: 0 };
    let nb = b.make(&m);
    assert_eq!(nb.hist.len(), 2);
    assert_eq!(nb.hist[1], nb.snapshot());
    assert_eq!(nb.hist[0], b.snapshot());
    assert_eq!(nb.hist[1].ep, -1);
    assert_eq!(nb.ep, 20);
    assert_eq!(nb.side, -1);
    assert_eq!(perft(&nb, 1), 20);
}

#[test]
fn uci_round_trip_of_legal_moves() {
    let b = Board::from_fen("r3k2r/Pppp1ppp/1b3nbN/nP6/BBP1P3/q4N2/Pp1P2PP/R2Q1RK1 b kq - 0 1");
    for m in b.legal_moves() {
        assert_eq!(parse_uci(&mv_to_str(&m)), Some(m));
    }
}

#[test]
fn legal_moves_keep_positions_sane() {
    let b = Board::from_fen("r3k2r/p1ppqpb1/bn2pnp1/3PN3/1p2P3/2N2Q1p/PPPBBPPP/R3K2R w KQkq - 0 1");
    assert!(b.is_sane());
    for m in b.legal_moves() {
        let nb = b.make(&m);
        assert!(nb.is_sane());
        assert!(!nb.in_check(b.side));
        for m2 in nb.legal_moves() {
            assert!(nb.make(&m2).is_sane());
        }
    }
}

#[test]
fn fen_round_trip_after_moves() {
    let mut eng = Engine::new();
    for uci in ["e2e4", "c7c5", "g1f3", "d7d6", "f1b5", "c8d7", "e1g1"] {
        assert!(eng.make_move(uci));
    }
    let fen = eng.fen();
    assert_eq!(fen, "rn1qkbnr/pp1bpppp/3p4/1Bp5/4P3/5N2/PPPP1PPP/RNBQ1RK1 b kq - 3 1");
    let b = Board::from_fen(&fen);
    assert_eq!(b.to_fen(), fen);
}

fn plain_negamax(b: &Board, depth: i32) -> i32 {
    if b.half >= 100 || b.is_repetition() {
        return 0;
    }
    let ms = b.legal_moves();
    if ms.is_empty() {
        return if b.in_check(b.side) { -30000 + (5 - depth).max(0) } else { 0 };
    }
    if depth == 0 {
        return b.eval();
    }
    let mut best = i32::MIN + 1;
    for m in ms {
        let s = -plain_negamax(&b.make(&m), depth - 1);
        if s > best {
            best = s;
        }
    }
    best
}

#[test]
fn alpha_beta_matches_plain_negamax() {
    for fen in [
        "r3k2r/p1ppqpb1/bn2pnp1/3PN3/1p2P3/2N2Q1p/PPPBBPPP/R3K2R w KQkq - 0 1",
        "8/2p5/3p4/KP5r/1R3p1k/8/4P1P1/8 w - - 0 1",
        "6k1/5ppp/8/8/8/8/8/R5K1 w - - 0 1",
    ] {
        let b = Board::from_fen(fen);
        for depth in 1..3 {
            let v = plain_negamax(&b, depth);
            assert_eq!(negamax(&b, depth, i32::MIN + 1, i32::MAX - 1), v);
            let (m, score) = search(&b, depth);
            assert_eq!(score, v);
            let m = m.unwrap();
            let first_best = b
                .legal_moves()
                .into_iter()
                .find(|c| -plain_negamax(&b.make(c), depth - 1) == v)
                .unwrap();
            assert_eq!(m, first_best);
        }
    }
}

#[test]
fn legal_move_names_are_distinct() {
    for fen in [
        "rnbqkbnr/pppppppp/8/8/8/8/PPPPPPPP/RNBQKBNR w KQkq - 0 1",
        "r3k2r/p1ppqpb1/bn2pnp1/3PN3/1p2P3/2N2Q1p/PPPBBPPP/R3K2R w KQkq - 0 1",
        "r3k2r/Pppp1ppp/1b3nbN/nP6/BBP1P3/q4N2/Pp1P2PP/R2Q1RK1 w kq - 0 1",
    ] {
        let mut eng = Engine::new();
        eng.set_fen(fen);
        let text = eng.legal_moves();
        let mut names: Vec<&str> = text.split(' ').collect();
        let n = names.len();
        names.sort();
        names.dedup();
        assert_eq!(names.len(), n);
    }
}

fn attacker_on(b: &Board, t: i8, s: i8, by: i8) -> bool {
    let x = b.sq[t as usize];
    if x == 0 || x.signum() != by {
        return false;
    }
    let (tr, tf, sr, sf) = (t / 8, t % 8, s / 8, s % 8);
    let (dr, df) = (sr - tr, sf - tf);
    let clear = || {
        let (ur, uf) = (dr.signum(), df.signum());
        let mut r = tr + ur;
        let mut f = tf + uf;
        while (r, f) != (sr, sf) {
            if b.sq[(r * 8 + f) as usize] != 0 {
                return false;
            }
            r += ur;
            f += uf;
        }
        true
    };
    match x.abs() {
        2 => (dr.abs() == 1 && df.abs() == 2) || (dr.abs() == 2 && df.abs() == 1),
        6 => dr.abs() <= 1 && df.abs() <= 1 && (dr, df) != (0, 0),
        1 => dr == by && df.abs() == 1,
        3 => dr.abs() == df.abs() && dr != 0 && clear(),
        4 => (dr == 0) != (df == 0) && clear(),
        _ => ((dr.abs() == df.abs() && dr != 0) || ((dr == 0) != (df == 0))) && clear(),
    }
}

#[test]
fn attacked_means_some_piece_attacks() {
    for fen in [
        "r3k2r/p1ppqpb1/bn2pnp1/3PN3/1p2P3/2N2Q1p/PPPBBPPP/R3K2R w KQkq - 0 1",
        "8/2p5/3p4/KP5r/1R3p1k/8/4P1P1/8 w - - 0 1",
        "rnbqkbnr/pppppppp/8/8/8/8/PPPPPPPP/RNBQKBNR w KQkq - 0 1",
    ] {
        let b = Board::from_fen(fen);
        for s in 0..64i8 {
            for by in [1i8, -1] {
                let some = (0..64i8).any(|t| attacker_on(&b, t, s, by));
                assert_eq!(b.attacked(s, by), some, "{} {} {}", fen, s, by);
            }
        }
    }
}

#[test]
fn well_formed_fens_are_readable() {
    for fen in [
        "rnbqkbnr/pppppppp/8/8/4P3/8/PPPP1PPP/RNBQKBNR b KQkq e3 0 1",
        "8/8/8/8/8/8/8/8 w - h8",
        "8/8/8/8/8/8/8/8",
        "1p1p1p1p/8/8/8/8/8/8/P6P w - a1 7 9",
    ] {
        assert!(fen_readable(fen), "{}", fen);
    }
}

fn clear_line(b: &Board, from: i8, to: i8) -> bool {
    let (dr, df) = ((to / 8 - from / 8).signum(), (to % 8 - from % 8).signum());
    let (mut r, mut f) = (from / 8 + dr, from % 8 + df);
    while (r, f) != (to / 8, to % 8) {
        if b.sq[(r * 8 + f) as usize] != 0 {
            return false;
        }
        r += dr;
        f += df;
    }
    true
}

fn allowed_by_rules(b: &Board, m: Mv) -> bool {
    let s = b.side;
    let (from, to) = (m.from, m.to);
    let x = b.sq[from as usize];
    let t = b.sq[to as usize];
    if x == 0 || x.signum() != s || t.signum() == s || from == to {
        return false;
    }
    let last = if s == 1 { 7 } else { 0 };
    let (dr, df) = (to / 8 - from / 8, to % 8 - from % 8);
    let promo_ok = if x.abs() == 1 && to / 8 == last { [2, 3, 4, 5].contains(&m.promo) } else { m.promo == 0 };
    if !promo_ok {
        return false;
    }
    let diagonal = dr.abs() == df.abs() && dr != 0;
    let straight = (dr == 0) != (df == 0);
    let castle = || {
        let home = if s == 1 { 4 } else { 60 };
        if from != home || dr != 0 || df.abs() != 2 || b.in_check(s) || b.attacked(to, -s) {
            return false;
        }
        if df == 2 {
            b.castle & (if s == 1 { 1 } else { 4 }) != 0
                && b.sq[(from + 1) as usize] == 0
                && b.sq[(from + 2) as usize] == 0
                && !b.attacked(from + 1, -s)
        } else {
            b.castle & (if s == 1 { 2 } else { 8 }) != 0
                && b.sq[(from - 1) as usize] == 0
                && b.sq[(from - 2) as usize] == 0
                && b.sq[(from - 3) as usize] == 0
                && !b.attacked(from - 1, -s)
        }
    };
    let by_rule = match x.abs() {
        1 => {
            (t == 0 && dr == s && df == 0)
                || (t == 0
                    && dr == 2 * s
                    && df == 0
                    && from / 8 == (if s == 1 { 1 } else { 6 })
                    && b.sq[(from + 8 * s) as usize] == 0)
                || (dr == s && df.abs() == 1 && (t != 0 || to == b.ep))
        }
        2 => (dr.abs() == 1 && df.abs() == 2) || (dr.abs() == 2 && df.abs() == 1),
        3 => diagonal && clear_line(b, from, to),
        4 => straight && clear_line(b, from, to),
        5 => (diagonal || straight) && clear_line(b, from, to),
        6 => (dr.abs() <= 1 && df.abs() <= 1) || castle(),
        _ => false,
    };
    by_rule && !b.make(&m).in_check(s)
}

#[test]
fn legal_moves_are_exactly_the_moves_the_rules_allow() {
    for fen in [
        "rnbqkbnr/pppppppp/8/8/8/8/PPPPPPPP/RNBQKBNR w KQkq - 0 1",
        "r3k2r/p1ppqpb1/bn2pnp1/3PN3/1p2P3/2N2Q1p/PPPBBPPP/R3K2R w KQkq - 0 1",
        "r3k2r/p1ppqpb1/bn2pnp1/3PN3/1p2P3/2N2Q1p/PPPBBPPP/R3K2R b KQkq - 0 1",
        "8/2p5/3p4/KP5r/1R3p1k/8/4P1P1/8 w - - 0 1",
        "r3k2r/Pppp1ppp/1b3nbN/nP6/BBP1P3/q4N2/Pp1P2PP/R2Q1RK1 w kq - 0 1",
        "8/8/8/K2pP2q/8/8/8/7k w - d6 0 1",
        "4k3/8/8/3pP3/8/8/8/4K3 w - d6 0 1",
        "r3k2r/8/8/8/8/8/8/R3K2R b KQkq - 0 1",
    ] {
        let b = Board::from_fen(fen);
        assert!(b.is_sane(), "{}", fen);
        let legal = b.legal_moves();
        for from in 0..64i8 {
            for to in 0..64i8 {
                for promo in [0i8, 2, 3, 4, 5] {
                    let m = Mv { from, to, promo };
                    assert_eq!(legal.contains(&m), allowed_by_rules(&b, m), "{} {:?}", fen, m);
                }
            }
        }
    }
}

#[test]
fn file_and_rank_of_any_number() {
    assert_eq!(rusty_dragon::board::file(13), 5);
    assert_eq!(rusty_dragon::board::rank(13), 1);
    assert_eq!(rusty_dragon::board::file(63), 7);
    assert_eq!(rusty_dragon::board::rank(63), 7);
    assert_eq!(rusty_dragon::board::file(-9), -1);
    assert_eq!(rusty_dragon::board::rank(-9), -1);
    assert_eq!(rusty_dragon::board::file(-8), 0);
    assert_eq!(rusty_dragon::board::rank(-7), 0);
    assert_eq!(rusty_dragon::board::file(127), 7);
    assert_eq!(rusty_dragon::board::rank(-128), -16);
}

#[test]
fn repetition_counts_the_positions_of_the_game() {
    let mut b = Board::from_fen("4k3/8/8/8/3p4/8/4P3/4K3 w - - 0 1");
    let mut seen = vec![b.snapshot()];
    let moves = [
        "e2e4", "e8f8", "e1f1", "f8e8", "f1e1", "e8f8", "e1f1", "f8e8", "f1e1", "e8f8", "e1f1", "f8e8",
        "f1e1",
    ];
    for u in moves {
        b = b.make(&parse_uci(u).unwrap());
        let now = b.snapshot();
        seen.push(now);
        let times = seen.iter().filter(|s| **s == now).count();
        assert_eq!(b.is_repetition(), times >= 3, "{}", u);
    }
    assert!(b.is_repetition());
}

#[test]
fn legal_moves_text_splits_into_the_move_names() {
    for fen in [
        "rnbqkbnr/pppppppp/8/8/8/8/PPPPPPPP/RNBQKBNR w KQkq - 0 1",
        "r3k2r/Pppp1ppp/1b3nbN/nP6/BBP1P3/q4N2/Pp1P2PP/R2Q1RK1 w kq - 0 1",
        "7k/5Q2/6K1/8/8/8/8/8 b - - 0 1",
    ] {
        let mut eng = Engine::new();
        eng.set_fen(fen);
        let text = eng.legal_moves();
        let names: Vec<String> = Board::from_fen(fen).legal_moves().iter().map(mv_to_str).collect();
        if names.is_empty() {
            assert_eq!(text, "");
        } else {
            let pieces: Vec<&str> = text.split(' ').collect();
            assert_eq!(pieces, names);
        }
    }
}
