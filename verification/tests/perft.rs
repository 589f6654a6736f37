use chess_movegen::board::Board;
use chess_movegen::tables::AttackTables;

fn perft(board: &mut Board, tables: &AttackTables, depth: u32) -> u64 {
    if depth == 0 {
        return 1;
    }
    let groups = board.moves(tables);
    if depth == 1 {
        return groups.iter().map(|g| g.len() as u64).sum();
    }
    let mut nodes = 0;
    for group in groups {
        for mv in group.convert(board.turn) {
            let rec = board.apply_move(&mv);
            nodes += perft(board, tables, depth - 1);
            board.undo_move(&mv, &rec);
        }
    }
    nodes
}

fn count(fen: &str, depth: u32) -> u64 {
    let tables = AttackTables::new().expect("the built-in multipliers work");
    let mut board = Board::from_str(fen).expect("a position");
    perft(&mut board, &tables, depth)
}

const START: &str = "rnbqkbnr/pppppppp/8/8/8/8/PPPPPPPP/RNBQKBNR w KQkq - 0 1";
const KIWIPETE: &str = "r3k2r/p1ppqpb1/bn2pnp1/3PN3/1p2P3/2N2Q1p/PPPBBPPP/R3K2R w KQkq - 0 1";
const ENDGAME: &str = "8/2p5/3p4/KP5r/1R3p1k/8/4P1P1/8 w - - 0 1";
const TANGLE: &str = "r3k2r/Pppp1ppp/1b3nbN/nP6/BBP1P3/q4N2/Pp1P2PP/R2Q1RK1 w kq - 0 1";
const TALKCHESS: &str = "rnbq1k1r/pp1Pbppp/2p5/8/2B5/8/PPP1NnPP/RNBQK2R w KQ - 1 8";
const SYMMETRIC: &str = "r4rk1/1pp1qppp/p1np1n2/2b1p1B1/2B1P1b1/P1NP1N2/1PP1QPPP/R4RK1 w - - 0 10";

#[test]
fn perft_start_depth_1() {
    assert_eq!(count(START, 1), 20);
}

#[test]
fn perft_start_depth_2() {
    assert_eq!(count(START, 2), 400);
}

#[test]
fn perft_start_depth_3() {
    assert_eq!(count(START, 3), 8902);
}

#[test]
fn perft_start_depth_4() {
    assert_eq!(count(START, 4), 197281);
}

#[test]
fn perft_start_depth_5() {
    assert_eq!(count(START, 5), 4865609);
}

#[test]
fn counting_in_the_library_agrees() {
    let tables = AttackTables::new().expect("the built-in multipliers work");
    let board = Board::from_str(START).unwrap();
    assert_eq!(chess_movegen::perft::perft(&board, &tables, 0), 1);
    assert_eq!(chess_movegen::perft::perft(&board, &tables, 1), 20);
    assert_eq!(chess_movegen::perft::perft(&board, &tables, 3), 8902);
    let kiwipete = Board::from_str(KIWIPETE).unwrap();
    assert_eq!(chess_movegen::perft::perft(&kiwipete, &tables, 2), 2039);
    let endgame = Board::from_str(ENDGAME).unwrap();
    assert_eq!(chess_movegen::perft::perft(&endgame, &tables, 3), 2812);
}

#[test]
fn perft_start_depth_0() {
    assert_eq!(count(START, 0), 1);
}

#[test]
fn perft_is_repeatable() {
    assert_eq!(count(KIWIPETE, 2), count(KIWIPETE, 2));
}

#[test]
fn perft_kiwipete() {
    assert_eq!(count(KIWIPETE, 1), 48);
    assert_eq!(count(KIWIPETE, 2), 2039);
    assert_eq!(count(KIWIPETE, 3), 97862);
}

#[test]
fn perft_kiwipete_depth_4() {
    assert_eq!(count(KIWIPETE, 4), 4085603);
}

#[test]
fn perft_endgame() {
    assert_eq!(count(ENDGAME, 1), 14);
    assert_eq!(count(ENDGAME, 2), 191);
    assert_eq!(count(ENDGAME, 3), 2812);
    assert_eq!(count(ENDGAME, 4), 43238);
}

#[test]
fn perft_endgame_depth_5() {
    assert_eq!(count(ENDGAME, 5), 674624);
}

#[test]
fn perft_tangle() {
    assert_eq!(count(TANGLE, 1), 6);
    assert_eq!(count(TANGLE, 2), 264);
    assert_eq!(count(TANGLE, 3), 9467);
}

#[test]
fn perft_tangle_depth_4() {
    assert_eq!(count(TANGLE, 4), 422333);
}

#[test]
fn perft_talkchess() {
    assert_eq!(count(TALKCHESS, 1), 44);
    assert_eq!(count(TALKCHESS, 2), 1486);
    assert_eq!(count(TALKCHESS, 3), 62379);
}

#[test]
fn perft_talkchess_depth_4() {
    assert_eq!(count(TALKCHESS, 4), 2103487);
}

#[test]
fn perft_symmetric() {
    assert_eq!(count(SYMMETRIC, 1), 46);
    assert_eq!(count(SYMMETRIC, 2), 2079);
    assert_eq!(count(SYMMETRIC, 3), 89890);
}

#[test]
fn perft_symmetric_depth_4() {
    assert_eq!(count(SYMMETRIC, 4), 3894594);
}
