use chess_movegen::bitboard::BitBoard;
use chess_movegen::board::Board;
use chess_movegen::color::Color;
use chess_movegen::fen::FENParseError;
use chess_movegen::moves::{Move, MoveFlags, PieceMoves};
use chess_movegen::piece::{Piece, PromotionPiece};
use chess_movegen::square::Square;
use chess_movegen::tables::AttackTables;

fn tables() -> AttackTables {
    AttackTables::new().expect("the built-in multipliers work")
}

fn all_moves(board: &Board, tables: &AttackTables) -> Vec<Move> {
    let mut out = Vec::new();
    for group in board.moves(tables) {
        out.extend(group.convert(board.turn));
    }
    out
}

fn texts(board: &Board, tables: &AttackTables) -> Vec<String> {
    let mut out: Vec<String> = all_moves(board, tables).iter().map(|m| m.to_string()).collect();
    out.sort();
    out
}

#[test]
fn starting_position_has_twenty_moves() {
    let t = tables();
    let board = Board::from_str("rnbqkbnr/pppppppp/8/8/8/8/PPPPPPPP/RNBQKBNR w KQkq - 0 1").unwrap();
    let moves = all_moves(&board, &t);
    assert_eq!(moves.len(), 20);
    let pawns = moves.iter().filter(|m| m.piece == Piece::Pawn).count();
    let knights = moves.iter().filter(|m| m.piece == Piece::Knight).count();
    assert_eq!(pawns, 16);
    assert_eq!(knights, 4);
    let single = moves.iter().filter(|m| m.piece == Piece::Pawn && m.to.0 == m.from.0 + 8).count();
    let double = moves.iter().filter(|m| m.piece == Piece::Pawn && m.to.0 == m.from.0 + 16).count();
    assert_eq!(single, 8);
    assert_eq!(double, 8);
    let total: u32 = board.moves(&t).iter().map(|g| g.len()).sum();
    assert_eq!(total, 20);
}

#[test]
fn default_board_is_the_starting_position() {
    let t = tables();
    let parsed = Board::from_str("rnbqkbnr/pppppppp/8/8/8/8/PPPPPPPP/RNBQKBNR w KQkq - 0 1").unwrap();
    let board = Board::default();
    assert_eq!(board.pieces, parsed.pieces);
    assert_eq!(board.all, parsed.all);
    assert_eq!(board.squares, parsed.squares);
    assert_eq!(board.turn, Color::White);
    assert_eq!(board.castling, [(true, true), (true, true)]);
    assert_eq!(board.enpassant, None);
    assert_eq!(board.halfmoves, 0);
    assert_eq!(board.fullmoves, 1);
    assert_eq!(texts(&board, &t), texts(&parsed, &t));
}

#[test]
fn castling_through_attack_is_forbidden() {
    let t = tables();
    let board = Board::from_str("r3k2r/8/8/8/8/8/6r1/R3K2R w KQkq - 0 1").unwrap();
    let moves = texts(&board, &t);
    assert!(!moves.contains(&String::from("e1g1")));
    assert!(moves.contains(&String::from("e1c1")));
}

#[test]
fn castling_both_sides_when_free() {
    let t = tables();
    let board = Board::from_str("r3k2r/8/8/8/8/8/8/R3K2R w KQkq - 0 1").unwrap();
    let moves = texts(&board, &t);
    assert!(moves.contains(&String::from("e1g1")));
    assert!(moves.contains(&String::from("e1c1")));
}

#[test]
fn castling_queenside_rook_path_may_be_attacked() {
    let t = tables();
    let board = Board::from_str("1r2k3/8/8/8/8/8/8/R3K3 w Q - 0 1").unwrap();
    let moves = texts(&board, &t);
    assert!(moves.contains(&String::from("e1c1")));
}

#[test]
fn en_passant_that_exposes_the_king_is_forbidden() {
    let t = tables();
    let board = Board::from_str("8/8/8/K2pP2r/8/8/8/7k w - d6 0 1").unwrap();
    let moves = texts(&board, &t);
    assert!(!moves.contains(&String::from("e5d6")));
    assert!(moves.contains(&String::from("e5e6")));
}

#[test]
fn en_passant_is_offered_when_safe() {
    let t = tables();
    let board = Board::from_str("4k3/8/8/3pP3/8/8/8/4K3 w - d6 0 1").unwrap();
    let moves = texts(&board, &t);
    assert!(moves.contains(&String::from("e5d6")));
}

#[test]
fn en_passant_takes_a_checking_pawn() {
    let t = tables();
    let board = Board::from_str("8/8/8/2k5/3Pp3/8/8/4K3 b - d3 0 1").unwrap();
    let moves = texts(&board, &t);
    assert!(moves.contains(&String::from("e4d3")));
}

#[test]
fn promotion_counts_four() {
    let t = tables();
    let board = Board::from_str("4k3/P7/8/8/8/8/8/4K3 w - - 0 1").unwrap();
    let moves = texts(&board, &t);
    assert_eq!(moves.len(), 9);
    for text in ["a7a8Q", "a7a8R", "a7a8B", "a7a8N", "e1d1", "e1d2", "e1e2", "e1f1", "e1f2"] {
        assert!(moves.contains(&String::from(text)), "{}", text);
    }
    let groups = board.moves(&t);
    let pawn: Vec<&PieceMoves> = groups.iter().filter(|g| g.piece == Piece::Pawn).collect();
    assert_eq!(pawn.len(), 1);
    assert_eq!(pawn[0].len(), 4);
    assert_eq!(pawn[0].moves, BitBoard(1u64 << 56));
    let king: Vec<&PieceMoves> = groups.iter().filter(|g| g.piece == Piece::King).collect();
    assert_eq!(king[0].len(), 5);
}

#[test]
fn double_check_leaves_king_moves_only() {
    let t = tables();
    let mut board = Board::from_str("4k3/8/8/8/3n4/2b5/8/4K3 b - - 0 1").unwrap();
    let mv = Move { piece: Piece::Knight, from: Square(27), to: Square(21), flags: None };
    board.apply_move(&mv);
    assert_eq!(board.turn, Color::White);
    let groups = board.moves(&t);
    assert_eq!(groups.len(), 1);
    assert_eq!(groups[0].piece, Piece::King);
    let moves = all_moves(&board, &t);
    assert!(moves.iter().all(|m| m.piece == Piece::King));
    assert!(!moves.is_empty());
}

#[test]
fn pinned_pieces_move_along_the_pin_only() {
    let t = tables();
    let board = Board::from_str("4k3/8/8/8/4r3/8/4R3/4K3 w - - 0 1").unwrap();
    let moves = texts(&board, &t);
    let rook: Vec<&String> = moves.iter().filter(|m| m.starts_with("e2")).collect();
    assert_eq!(rook, vec!["e2e3", "e2e4"]);
    let knight = Board::from_str("4k3/8/8/8/4r3/8/4N3/4K3 w - - 0 1").unwrap();
    assert!(texts(&knight, &t).iter().all(|m| !m.starts_with("e2")));
}

#[test]
fn pinned_pawns_push_or_capture_along_the_pin() {
    let t = tables();
    let file = Board::from_str("4k3/8/8/4r3/8/8/4P3/4K3 w - - 0 1").unwrap();
    let moves = texts(&file, &t);
    assert!(moves.contains(&String::from("e2e3")));
    assert!(moves.contains(&String::from("e2e4")));
    let diagonal = Board::from_str("4k3/8/8/8/7b/8/5P2/4K3 w - - 0 1").unwrap();
    let moves = texts(&diagonal, &t);
    assert!(moves.iter().all(|m| !m.starts_with("f2")));
    let capture = Board::from_str("4k3/8/8/8/8/6b1/5P2/4K3 w - - 0 1").unwrap();
    let moves = texts(&capture, &t);
    let pawn: Vec<&String> = moves.iter().filter(|m| m.starts_with("f2")).collect();
    assert_eq!(pawn, vec!["f2g3"]);
}

#[test]
fn moves_never_leave_the_king_attacked() {
    let t = tables();
    for fen in [
        "r3k2r/p1ppqpb1/bn2pnp1/3PN3/1p2P3/2N2Q1p/PPPBBPPP/R3K2R w KQkq - 0 1",
        "8/2p5/3p4/KP5r/1R3p1k/8/4P1P1/8 w - - 0 1",
        "r3k2r/Pppp1ppp/1b3nbN/nP6/BBP1P3/q4N2/Pp1P2PP/R2Q1RK1 w kq - 0 1",
    ] {
        let board = Board::from_str(fen).unwrap();
        for mv in all_moves(&board, &t) {
            let mut next = board;
            next.apply_move(&mv);
            let mover = board.turn;
            let occ = next.occupied();
            let reach = next.attacked_set(Some(&t), next.turn, occ);
            let king = next.pieces[mover.index()][0];
            assert_eq!(reach.0 & king.0, 0, "{} in {}", mv.to_string(), fen);
        }
    }
}

#[test]
fn king_never_steps_onto_an_attacked_square() {
    let t = tables();
    let board = Board::from_str("4k3/8/8/8/8/8/3r4/4K3 w - - 0 1").unwrap();
    let danger = board.danger(&t);
    let groups = board.moves(&t);
    assert_eq!(groups[0].piece, Piece::King);
    assert_eq!(groups[0].moves.0 & danger.0, 0);
    let moves = texts(&board, &t);
    assert_eq!(moves, vec!["e1d2", "e1f1"]);
}

#[test]
fn danger_reckons_without_the_king() {
    let t = tables();
    let board = Board::from_str("4k3/8/8/8/8/8/8/r3K3 w - - 0 1").unwrap();
    let danger = board.danger(&t);
    assert_ne!(danger.0 & (1 << 5), 0);
    assert_ne!(danger.0 & (1 << 4), 0);
    assert_eq!(danger.0 & (1 << 12), 0);
    let slow = board.attacked_set(None, Color::Black, BitBoard(board.occupied().0 & !(1 << 4)));
    assert_eq!(danger, slow);
}

#[test]
fn apply_then_undo_restores_every_field() {
    let t = tables();
    for fen in [
        "rnbqkbnr/pppppppp/8/8/8/8/PPPPPPPP/RNBQKBNR w KQkq - 0 1",
        "r3k2r/p1ppqpb1/bn2pnp1/3PN3/1p2P3/2N2Q1p/PPPBBPPP/R3K2R w KQkq - 3 7",
        "r3k2r/Pppp1ppp/1b3nbN/nP6/BBP1P3/q4N2/Pp1P2PP/R2Q1RK1 b kq - 0 1",
        "4k3/8/8/3pP3/8/8/8/4K3 w - d6 0 1",
    ] {
        let board = Board::from_str(fen).unwrap();
        for mv in all_moves(&board, &t) {
            let mut next = board;
            let rec = next.apply_move(&mv);
            next.undo_move(&mv, &rec);
            assert_eq!(next.pieces, board.pieces, "{}", mv.to_string());
            assert_eq!(next.all, board.all);
            assert_eq!(next.squares, board.squares);
            assert_eq!(next.turn, board.turn);
            assert_eq!(next.castling, board.castling);
            assert_eq!(next.enpassant, board.enpassant);
            assert_eq!(next.halfmoves, board.halfmoves);
            assert_eq!(next.fullmoves, board.fullmoves);
        }
    }
}

#[test]
fn apply_updates_clocks_rights_and_en_passant() {
    let mut board = Board::from_str("r3k2r/8/8/8/8/8/4P3/R3K2R w KQkq - 5 9").unwrap();
    let push = Move { piece: Piece::Pawn, from: Square(12), to: Square(28), flags: None };
    let rec = board.apply_move(&push);
    assert_eq!(rec.halfmoves, 5);
    assert_eq!(rec.captured, None);
    assert_eq!(board.enpassant, Some(Square(20)));
    assert_eq!(board.halfmoves, 0);
    assert_eq!(board.fullmoves, 9);
    assert_eq!(board.turn, Color::Black);
    let rook = Move { piece: Piece::Rook, from: Square(63), to: Square(7), flags: None };
    let rec = board.apply_move(&rook);
    assert_eq!(rec.captured, Some(Piece::Rook));
    assert_eq!(board.enpassant, None);
    assert_eq!(board.fullmoves, 10);
    assert_eq!(board.halfmoves, 0);
    assert_eq!(board.castling, [(false, true), (false, true)]);
    let castle = Move { piece: Piece::King, from: Square(4), to: Square(2), flags: None };
    board.apply_move(&castle);
    assert_eq!(board.squares[3], Some(Piece::Rook));
    assert_eq!(board.squares[2], Some(Piece::King));
    assert_eq!(board.squares[0], None);
    assert_eq!(board.squares[4], None);
    assert_eq!(board.castling[0], (false, false));
    assert_eq!(board.halfmoves, 1);
}

#[test]
fn apply_promotes_and_captures_en_passant() {
    let mut board = Board::from_str("1n2k3/P7/8/3pP3/8/8/8/4K3 w - d6 0 1").unwrap();
    let ep = Move { piece: Piece::Pawn, from: Square(36), to: Square(43), flags: None };
    let mut after = board;
    let rec = after.apply_move(&ep);
    assert_eq!(rec.captured, Some(Piece::Pawn));
    assert_eq!(after.squares[35], None);
    assert_eq!(after.squares[43], Some(Piece::Pawn));
    assert_eq!(after.pieces[1][5].0, 0);
    let promo = Move {
        piece: Piece::Pawn,
        from: Square(48),
        to: Square(57),
        flags: Some(MoveFlags::Promotion(PromotionPiece::Knight)),
    };
    let rec = board.apply_move(&promo);
    assert_eq!(rec.captured, Some(Piece::Knight));
    assert_eq!(board.squares[57], Some(Piece::Knight));
    assert_eq!(board.pieces[0][4].0, 1u64 << 57);
    assert_eq!(board.pieces[0][5].0, 1u64 << 36);
    assert_eq!(board.pieces[1][4].0, 0);
}

#[test]
fn fen_faults() {
    let kind = |fen: &str| match Board::from_str(fen) {
        Ok(_) => String::from("ok"),
        Err(FENParseError::EnPassantError(_)) => String::from("en passant"),
        Err(FENParseError::SpacingError) => String::from("spacing"),
        Err(FENParseError::RowError) => String::from("row"),
        Err(FENParseError::SymbolError(_)) => String::from("symbol"),
        Err(FENParseError::ColorError) => String::from("color"),
        Err(FENParseError::CounterError) => String::from("counter"),
        Err(FENParseError::KingError) => String::from("king"),
    };
    assert_eq!(kind("rnbqkbnr/pppppppp/8/8/8/8/PPPPPPPP/RNBQKBNR w KQkq - 0 1"), "ok");
    assert_eq!(kind("  rnbqkbnr/pppppppp/8/8/8/8/PPPPPPPP/RNBQKBNR\tw  KQkq - 0 1 extra"), "ok");
    assert_eq!(kind("rnbqkbnr/pppppppp/8/8/8/8/PPPPPPPP/RNBQKBNR w KQkq - 0"), "spacing");
    assert_eq!(kind(""), "spacing");
    assert_eq!(kind("rnbqkbnr/pppppppp/8/8/8/8/PPPPPPPP/RNBQKBN w KQkq - 0 1"), "row");
    assert_eq!(kind("rnbqkbnr/pppppppp/9/8/8/8/PPPPPPPP/RNBQKBNR w KQkq - 0 1"), "symbol");
    assert_eq!(kind("rnbqkbnr/pppppppp/8/8/8/8/PPPPPPPP w KQkq - 0 1"), "row");
    assert_eq!(kind("rnbqkbnr/pppppppp/8/8/8/8/PPPPPPPPP/RNBQKBNR w KQkq - 0 1"), "row");
    assert_eq!(kind("rnbqkbnr/pppppppp/8/8/8/8/PPPPPPPP/RNBQKBNX w KQkq - 0 1"), "symbol");
    assert_eq!(kind("rnbqkbnr/pppppppp/8/8/8/8/PPPPPPPP/RNBQKBN\u{e9} w KQkq - 0 1"), "symbol");
    assert_eq!(kind("rnbqkbnr/pppppppp/8/8/8/8/PPPPPPPP/RNBQKBNR x KQkq - 0 1"), "color");
    assert_eq!(kind("rnbqkbnr/pppppppp/8/8/8/8/PPPPPPPP/RNBQKBNR w KQkq e9 0 1"), "en passant");
    assert_eq!(kind("rnbqkbnr/pppppppp/8/8/8/8/PPPPPPPP/RNBQKBNR w KQkq e6 0 1"), "en passant");
    assert_eq!(kind("rnbqkbnr/pppppppp/8/8/8/8/PPPPPPPP/RNBQKBNR w KQkq e3 0 1"), "en passant");
    assert_eq!(kind("rnbqkbnr/pppppppp/8/8/8/8/PPPPPPPP/RNBQKBNR w KQkq - x 1"), "counter");
    assert_eq!(kind("rnbqkbnr/pppppppp/8/8/8/8/PPPPPPPP/RNBQKBNR w KQkq - 256 1"), "counter");
    assert_eq!(kind("rnbqkbnr/pppppppp/8/8/8/8/PPPPPPPP/RNBQKBNR w KQkq - 0 65536"), "counter");
    assert_eq!(kind("rnbqkbnr/pppppppp/8/8/8/8/PPPPPPPP/RNBQKBNR w KQkq - 0 0"), "counter");
    assert_eq!(kind("rnbq1bnr/pppppppp/8/8/8/8/PPPPPPPP/RNBQKBNR w KQkq - 0 1"), "king");
    assert_eq!(kind("rnbqkbnr/pppppppp/8/8/8/4K3/PPPPPPPP/RNBQKBNR w KQkq - 0 1"), "king");
    assert_eq!(kind("4k3/8/8/8/8/8/8/4K2R b - - 0 1"), "ok");
}

#[test]
fn a_position_is_rested_when_the_mover_cannot_take_the_king() {
    assert!(Board::default().is_rested());
    assert!(Board::from_str("4k3/8/8/8/8/8/8/4K2R b - - 0 1").unwrap().is_rested());
    assert!(!Board::from_str("4k3/8/8/8/8/8/8/4RK2 w - - 0 1").unwrap().is_rested());
    assert!(Board::from_str("4k3/8/8/8/8/8/8/4RK2 b - - 0 1").unwrap().is_rested());
    assert!(!Board::from_str("4k3/8/8/8/3n4/2b5/8/4K3 b - - 0 1").unwrap().is_rested());
}

#[test]
fn fen_fields_are_read() {
    let board = Board::from_str("r3k2r/8/8/3pP3/8/8/8/R3K2R w Kq d6 17 42").unwrap();
    assert_eq!(board.turn, Color::White);
    assert_eq!(board.castling, [(true, false), (false, true)]);
    assert_eq!(board.enpassant, Some(Square(43)));
    assert_eq!(board.halfmoves, 17);
    assert_eq!(board.fullmoves, 42);
    assert_eq!(board.squares[0], Some(Piece::Rook));
    assert_eq!(board.squares[4], Some(Piece::King));
    assert_eq!(board.squares[35], Some(Piece::Pawn));
    assert_eq!(board.squares[36], Some(Piece::Pawn));
    assert_eq!(board.pieces[0][5].0, 1u64 << 36);
    assert_eq!(board.pieces[1][5].0, 1u64 << 35);
    assert_eq!(board.all[0].0, (1 << 0) | (1 << 4) | (1 << 7) | (1u64 << 36));
    assert_eq!(board.occupied().0, board.all[0].0 | board.all[1].0);
    assert_eq!(board.us(), board.all[0]);
    assert_eq!(board.them(), board.all[1]);
    assert_eq!(board.piece_at(Square(60)), Some((Color::Black, Piece::King)));
    assert_eq!(board.piece_at(Square(20)), None);
    let black = Board::from_str("4k3/8/8/8/3pP3/8/8/4K3 b - e3 0 1").unwrap();
    assert_eq!(black.enpassant, Some(Square(20)));
    assert_eq!(black.us(), black.all[1]);
}

#[test]
fn castling_rights_need_king_and_rook_at_home() {
    let board = Board::from_str("4k2r/8/8/8/8/8/8/R4K1R w KQkq - 0 1").unwrap();
    assert_eq!(board.castling, [(false, false), (true, false)]);
}

#[test]
fn empty_board() {
    let board = Board::new();
    assert_eq!(board.occupied().0, 0);
    assert_eq!(board.turn, Color::White);
    assert_eq!(board.castling, [(false, false), (false, false)]);
    assert_eq!(board.enpassant, None);
    assert_eq!(board.halfmoves, 0);
    assert_eq!(board.fullmoves, 0);
    assert!(board.squares.iter().all(|s| s.is_none()));
}
