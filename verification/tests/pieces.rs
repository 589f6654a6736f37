use chess_movegen::bitboard::BitBoard;
use chess_movegen::bits::count_squares;
use chess_movegen::color::{Color, ColorParseError};
use chess_movegen::dumb7fill::{
    bishop_moves, east_attacks, noea_attacks, nort_attacks, nowe_attacks, rook_moves, soea_attacks,
    sout_attacks, sowe_attacks, west_attacks,
};
use chess_movegen::helpers::squares_between;
use chess_movegen::magic::{magic_index, subsets, try_fill_table, HashCollision, Magic};
use chess_movegen::moves::{Move, MoveFlags, PieceMoves};
use chess_movegen::nonsliders::{king_attacks, knight_attacks, pawn_attacks};
use chess_movegen::piece::{Piece, PromotionPiece};
use chess_movegen::search::{find_magic, low_of, try_magic};
use chess_movegen::slider::{populate_bishop_blockers, populate_rook_blockers, Slider};
use chess_movegen::square::Square;
use chess_movegen::tables::{AttackTables, SliderTable, BISHOP_MAGICS, ROOK_MAGICS};
use chess_movegen::text::{piece_idx, square_idx};

fn set(squares: &[usize]) -> u64 {
    squares.iter().fold(0, |acc, s| acc | (1u64 << s))
}

#[test]
fn bitboard_len_and_empty() {
    assert_eq!(BitBoard(0).len(), 0);
    assert!(BitBoard(0).is_empty());
    assert_eq!(BitBoard(0xff00).len(), 8);
    assert!(!BitBoard(1).is_empty());
    assert_eq!(BitBoard(u64::MAX).len(), 64);
    assert_eq!(count_squares(0x8000_0000_0000_0001), 2);
    assert_eq!(BitBoard::empty(), BitBoard(0));
    assert_eq!(BitBoard::full(), BitBoard(u64::MAX));
    assert_eq!(BitBoard::not_a(), BitBoard(0xfefefefefefefefe));
    assert_eq!(BitBoard::not_h(), BitBoard(0x7f7f7f7f7f7f7f7f));
}

#[test]
fn bitboard_display() {
    assert_eq!(BitBoard(0).display(), "0");
    assert_eq!(BitBoard(255).display(), "0xff");
    assert_eq!(BitBoard(0x10).display(), "0x10");
    assert_eq!(BitBoard(u64::MAX).display(), "0xffffffffffffffff");
    assert_eq!(BitBoard(0x8000000000000000).display(), "0x8000000000000000");
    assert_eq!(BitBoard(0xabcdef0123456789).display(), "0xabcdef0123456789");
}

#[test]
fn bitboard_picture() {
    let text = BitBoard(1 | (1 << 63)).to_string();
    let rows: Vec<&str> = text.split('\n').collect();
    assert_eq!(rows.len(), 9);
    assert_eq!(rows[0], ".......x");
    assert_eq!(rows[7], "x.......");
    assert_eq!(rows[3], "........");
    assert_eq!(rows[8], "");
}

#[test]
fn bitboard_shifts() {
    assert_eq!(BitBoard(1).shl(8), BitBoard(256));
    assert_eq!(BitBoard(256).shr(8), BitBoard(1));
    assert_eq!(BitBoard(1 << 63).shl(1), BitBoard(0));
    assert_eq!(BitBoard(0xff00).shift_color(8, Color::White), BitBoard(0xff0000));
    assert_eq!(BitBoard(0xff00).shift_color(8, Color::Black), BitBoard(0xff));
}

#[test]
fn bitboard_steps_do_not_wrap() {
    let h4 = BitBoard(1 << 31);
    assert_eq!(h4.step(1, 0), BitBoard(0));
    assert_eq!(h4.step(-1, 0), BitBoard(1 << 30));
    assert_eq!(h4.step(1, 1), BitBoard(0));
    assert_eq!(h4.step(-1, 1), BitBoard(1 << 38));
    assert_eq!(h4.step(0, 1), BitBoard(1 << 39));
    assert_eq!(h4.step(0, -1), BitBoard(1 << 23));
    assert_eq!(h4.step(1, -1), BitBoard(0));
    assert_eq!(h4.step(-1, -1), BitBoard(1 << 22));
    assert_eq!(BitBoard(0xff).step(0, -1), BitBoard(0));
    assert_eq!(BitBoard(0xff).step(1, 0), BitBoard(0xfe));
    assert_eq!(BitBoard(0xff).step(-1, 0), BitBoard(0x7f));
}

#[test]
fn bitboard_signum() {
    assert_eq!(BitBoard(0).signum(), 0);
    assert_eq!(BitBoard(1).signum(), 1);
    assert_eq!(BitBoard(0x8000_0000_0000_0000).signum(), 1);
    assert_eq!(BitBoard(0x8000_0000_0000_0001).signum(), 0);
    assert_eq!(BitBoard(u64::MAX).signum(), 0);
    assert_eq!(BitBoard(0x7fff_ffff_ffff_ffff).signum(), 1);
}

#[test]
fn bitboard_operators() {
    let a = BitBoard(0b1100);
    let b = BitBoard(0b1010);
    assert_eq!(a & b, BitBoard(0b1000));
    assert_eq!(a | b, BitBoard(0b1110));
    assert_eq!(a ^ b, BitBoard(0b0110));
    assert_eq!(!a, BitBoard(!0b1100u64));
    assert!(a.test(Square(2)));
    assert!(!a.test(Square(1)));
    assert_eq!(a.with(Square(0)), BitBoard(0b1101));
    assert_eq!(a.without(Square(2)), BitBoard(0b1000));
    assert_eq!(a.lsb(), Some(Square(2)));
    assert_eq!(a.msb(), Some(Square(3)));
    assert_eq!(BitBoard(0).lsb(), None);
    assert_eq!(BitBoard(0).msb(), None);
    assert_eq!(BitBoard(u64::MAX).msb(), Some(Square(63)));
}

#[test]
fn bitboard_walk_is_ascending() {
    let mut it = BitBoard(set(&[63, 0, 17, 42])).iter();
    assert_eq!(it.next(), Some(Square(0)));
    assert_eq!(it.next(), Some(Square(17)));
    assert_eq!(it.next(), Some(Square(42)));
    assert_eq!(it.next(), Some(Square(63)));
    assert_eq!(it.next(), None);
    assert_eq!(it.next(), None);
    assert_eq!(
        BitBoard(set(&[63, 0, 17, 42])).squares(),
        vec![Square(0), Square(17), Square(42), Square(63)]
    );
    assert_eq!(BitBoard(0).squares(), vec![]);
}

#[test]
fn colors() {
    assert_eq!(!Color::White, Color::Black);
    assert_eq!(Color::Black.other(), Color::White);
    assert_eq!(Color::White.index(), 0);
    assert_eq!(Color::Black.index(), 1);
    assert_eq!(Color::default(), Color::White);
    for text in ["w", "W", "White", "white", "WHITE"] {
        assert_eq!(Color::from_str(text), Ok(Color::White));
    }
    for text in ["b", "B", "Black", "black", "BLACK"] {
        assert_eq!(Color::from_str(text), Ok(Color::Black));
    }
    for text in ["", "x", "wh", "whitE", "blacks", "-"] {
        assert_eq!(Color::from_str(text), Err(ColorParseError));
    }
}

#[test]
fn pieces() {
    let kinds =
        [Piece::King, Piece::Queen, Piece::Rook, Piece::Bishop, Piece::Knight, Piece::Pawn];
    for (i, k) in kinds.iter().enumerate() {
        assert_eq!(k.index(), i);
        assert_eq!(Piece::from_index(i), *k);
    }
    assert_eq!(PromotionPiece::Queen.letter(), 'Q');
    assert_eq!(PromotionPiece::Rook.letter(), 'R');
    assert_eq!(PromotionPiece::Bishop.letter(), 'B');
    assert_eq!(PromotionPiece::Knight.letter(), 'N');
    assert_eq!(PromotionPiece::Knight.piece(), Piece::Knight);
    assert_eq!(piece_idx('k'), 0);
    assert_eq!(piece_idx('Q'), 1);
    assert_eq!(piece_idx('r'), 2);
    assert_eq!(piece_idx('B'), 3);
    assert_eq!(piece_idx('n'), 4);
    assert_eq!(piece_idx('P'), 5);
    assert_eq!(square_idx("a1"), 0);
    assert_eq!(square_idx("e4"), 28);
    assert_eq!(square_idx("h8"), 63);
}

#[test]
fn squares_between_lines() {
    assert_eq!(squares_between(Square(0), Square(7)).0, set(&[1, 2, 3, 4, 5, 6]));
    assert_eq!(squares_between(Square(7), Square(0)).0, set(&[1, 2, 3, 4, 5, 6]));
    assert_eq!(squares_between(Square(0), Square(63)).0, set(&[9, 18, 27, 36, 45, 54]));
    assert_eq!(squares_between(Square(56), Square(7)).0, set(&[49, 42, 35, 28, 21, 14]));
    assert_eq!(squares_between(Square(4), Square(60)).0, set(&[12, 20, 28, 36, 44, 52]));
    assert_eq!(squares_between(Square(0), Square(1)).0, 0);
    assert_eq!(squares_between(Square(0), Square(0)).0, 0);
    assert_eq!(squares_between(Square(0), Square(10)).0, 0);
    assert_eq!(squares_between(Square(0), Square(17)).0, 0);
}

#[test]
fn non_slider_attacks() {
    assert_eq!(knight_attacks(Square(0)), set(&[10, 17]));
    assert_eq!(knight_attacks(Square(27)), set(&[10, 12, 17, 21, 33, 37, 42, 44]));
    assert_eq!(king_attacks(Square(0)), set(&[1, 8, 9]));
    assert_eq!(king_attacks(Square(63)), set(&[54, 55, 62]));
    assert_eq!(king_attacks(Square(27)), set(&[18, 19, 20, 26, 28, 34, 35, 36]));
    assert_eq!(pawn_attacks(Color::White, Square(8)), set(&[17]));
    assert_eq!(pawn_attacks(Color::White, Square(12)), set(&[19, 21]));
    assert_eq!(pawn_attacks(Color::Black, Square(12)), set(&[3, 5]));
    assert_eq!(pawn_attacks(Color::Black, Square(55)), set(&[46]));
    assert_eq!(pawn_attacks(Color::White, Square(60)), 0);
}

#[test]
fn flood_fill_rays() {
    let e4 = 1u64 << 28;
    assert_eq!(nort_attacks(e4, !0, 6), set(&[36, 44, 52, 60]));
    assert_eq!(sout_attacks(e4, !0, 6), set(&[20, 12, 4]));
    assert_eq!(east_attacks(e4, !0, 6), set(&[29, 30, 31]));
    assert_eq!(west_attacks(e4, !0, 6), set(&[27, 26, 25, 24]));
    assert_eq!(noea_attacks(e4, !0), set(&[37, 46, 55]));
    assert_eq!(nowe_attacks(e4, !0), set(&[35, 42, 49, 56]));
    assert_eq!(soea_attacks(e4, !0), set(&[21, 14, 7]));
    assert_eq!(sowe_attacks(e4, !0), set(&[19, 10, 1]));
    assert_eq!(nort_attacks(e4, !(1u64 << 44), 6), set(&[36, 44]));
    assert_eq!(nort_attacks(e4, !0, 0), set(&[36]));
    assert_eq!(nort_attacks(e4, !0, 1), set(&[36, 44]));
    assert_eq!(nort_attacks(e4 | 1, !0, 0), set(&[36, 8]));
}

#[test]
fn reference_slider_attacks() {
    let e4 = 1u64 << 28;
    assert_eq!(rook_moves(e4, 0), set(&[36, 44, 52, 60, 20, 12, 4, 29, 30, 31, 27, 26, 25, 24]));
    assert_eq!(rook_moves(e4, set(&[44, 26])), set(&[36, 44, 20, 12, 4, 29, 30, 31, 27, 26]));
    assert_eq!(bishop_moves(e4, 0), set(&[37, 46, 55, 35, 42, 49, 56, 21, 14, 7, 19, 10, 1]));
    assert_eq!(bishop_moves(e4, set(&[46, 19])), set(&[37, 46, 35, 42, 49, 56, 21, 14, 7, 19]));
    assert_eq!(
        Slider::Rook.pseudo_moves(Square(28), BitBoard(set(&[44, 26]))).0,
        rook_moves(e4, set(&[44, 26]))
    );
    assert_eq!(Slider::Bishop.pseudo_moves(Square(0), BitBoard(0)).0, set(&[9, 18, 27, 36, 45, 54, 63]));
    assert_eq!(Slider::Rook.shift_count(), 12);
    assert_eq!(Slider::Bishop.shift_count(), 9);
}

#[test]
fn blocker_masks() {
    assert_eq!(Slider::Rook.blockers(Square(0)).0, set(&[1, 2, 3, 4, 5, 6, 8, 16, 24, 32, 40, 48]));
    assert_eq!(Slider::Rook.blockers(Square(28)).0, set(&[25, 26, 27, 29, 30, 12, 20, 36, 44, 52]));
    assert_eq!(Slider::Bishop.blockers(Square(0)).0, set(&[9, 18, 27, 36, 45, 54]));
    assert_eq!(Slider::Bishop.blockers(Square(28)).0, set(&[37, 46, 35, 42, 49, 21, 14, 19, 10]));
    let rooks = populate_rook_blockers();
    let bishops = populate_bishop_blockers();
    for sq in 0..64 {
        assert_eq!(rooks[sq], Slider::Rook.blockers(Square(sq)));
        assert_eq!(bishops[sq], Slider::Bishop.blockers(Square(sq)));
    }
    assert_eq!(rooks[0].len(), 12);
    assert_eq!(rooks[27].len(), 10);
    assert_eq!(bishops[27].len(), 9);
    assert_eq!(bishops[0].len(), 6);
}

#[test]
fn subsets_count_up() {
    assert_eq!(subsets(BitBoard(0)), vec![BitBoard(0)]);
    assert_eq!(
        subsets(BitBoard(0b101)),
        vec![BitBoard(0), BitBoard(1), BitBoard(0b100), BitBoard(0b101)]
    );
    let all = subsets(Slider::Rook.blockers(Square(0)));
    assert_eq!(all.len(), 4096);
    assert!(all.windows(2).all(|w| w[0].0 < w[1].0));
    assert_eq!(subsets(BitBoard(u64::MAX << 60)).len(), 16);
}

#[test]
fn magic_index_is_the_shifted_product() {
    assert_eq!(magic_index(BitBoard(3), 1 << 62, 62), 3);
    assert_eq!(magic_index(BitBoard(0), 0xdead_beef, 52), 0);
    assert_eq!(magic_index(BitBoard(u64::MAX), u64::MAX, 63), 0);
    assert_eq!(magic_index(BitBoard(1 << 63), 1, 63), 1);
    let magic = Magic { hash: 1 << 62, index_bits: 62 };
    assert_eq!(magic.index(BitBoard(3)), 3);
    assert_eq!(magic.table_size(), 4);
}

#[test]
fn lookup_agrees_with_the_flood_fill() {
    let t = AttackTables::new().expect("the built-in multipliers work");
    for slider in [Slider::Bishop, Slider::Rook] {
        for sq in 0..64 {
            let square = Square(sq);
            for blockers in subsets(slider.blockers(square)) {
                let looked_up = match slider {
                    Slider::Bishop => t.bishop_attacks(square, blockers),
                    Slider::Rook => t.rook_attacks(square, blockers),
                };
                assert_eq!(looked_up, slider.pseudo_moves(square, blockers));
            }
        }
    }
    let occ = BitBoard(0x00ff_00ff_00ff_00ff);
    for sq in 0..64 {
        assert_eq!(t.rook_attacks(Square(sq), occ), Slider::Rook.pseudo_moves(Square(sq), occ));
        assert_eq!(t.bishop_attacks(Square(sq), occ), Slider::Bishop.pseudo_moves(Square(sq), occ));
        assert_eq!(t.knight_from(Square(sq)).0, knight_attacks(Square(sq)));
        assert_eq!(t.king_from(Square(sq)).0, king_attacks(Square(sq)));
        assert_eq!(t.pawn_from(Color::White, Square(sq)).0, pawn_attacks(Color::White, Square(sq)));
        assert_eq!(t.pawn_from(Color::Black, Square(sq)).0, pawn_attacks(Color::Black, Square(sq)));
        assert_eq!(t.between(Square(sq), Square(63 - sq)), squares_between(Square(sq), Square(63 - sq)));
    }
}

#[test]
fn tables_are_dense() {
    let bishop = SliderTable::build(Slider::Bishop, &BISHOP_MAGICS).expect("no collision");
    let rook = SliderTable::build(Slider::Rook, &ROOK_MAGICS).expect("no collision");
    assert_eq!(bishop.attacks.len(), 5248);
    assert_eq!(rook.attacks.len(), 102400);
    assert_eq!(rook.magics[0].index_bits, 52);
    assert_eq!(bishop.magics[0].index_bits, 58);
    assert_eq!(rook.offsets[0], 0);
    assert_eq!(rook.offsets[1], 4096);
}

#[test]
fn a_bad_multiplier_collides() {
    let magic = Magic { hash: 0, index_bits: 52 };
    assert_eq!(try_fill_table(magic, Square(0), Slider::Rook), Err(HashCollision));
    assert!(SliderTable::build(Slider::Rook, &[0; 64]).is_err());
    assert_eq!(try_magic(0, Square(0), Slider::Rook, 52), None);
}

#[test]
fn a_good_multiplier_fills_the_table() {
    let magic = Magic { hash: ROOK_MAGICS[0], index_bits: 52 };
    let table = try_fill_table(magic, Square(0), Slider::Rook).expect("no collision");
    assert_eq!(table.len(), 4096);
    for blockers in subsets(Slider::Rook.blockers(Square(0))) {
        assert_eq!(table[magic.index(blockers)], Slider::Rook.pseudo_moves(Square(0), blockers));
    }
    assert_eq!(try_magic(ROOK_MAGICS[0], Square(0), Slider::Rook, 52), Some(magic));
}

#[test]
fn search_finds_multipliers_that_work() {
    assert_eq!(low_of(0b1110, 0b0111, 0b1101), 0b0100);
    assert_eq!(find_magic(Square(0), Slider::Bishop, 58, 0), None);
    let magic = find_magic(Square(0), Slider::Bishop, 58, 10_000_000).expect("a multiplier");
    assert_eq!(magic.index_bits, 58);
    assert!(try_fill_table(magic, Square(0), Slider::Bishop).is_ok());
    let wide = find_magic(Square(27), Slider::Rook, 52, 10_000_000).expect("a multiplier");
    assert!(try_fill_table(wide, Square(27), Slider::Rook).is_ok());
}

#[test]
fn group_lengths() {
    let knight = PieceMoves { piece: Piece::Knight, from: Square(1), moves: BitBoard(set(&[16, 18])) };
    assert_eq!(knight.len(), 2);
    assert!(!knight.is_empty());
    let pawn = PieceMoves { piece: Piece::Pawn, from: Square(48), moves: BitBoard(set(&[56, 57])) };
    assert_eq!(pawn.len(), 8);
    let mixed = PieceMoves { piece: Piece::Pawn, from: Square(8), moves: BitBoard(set(&[16, 24])) };
    assert_eq!(mixed.len(), 2);
    let black = PieceMoves { piece: Piece::Pawn, from: Square(8), moves: BitBoard(set(&[0, 1])) };
    assert_eq!(black.len(), 8);
    let none = PieceMoves { piece: Piece::Queen, from: Square(8), moves: BitBoard(0) };
    assert_eq!(none.len(), 0);
    assert!(none.is_empty());
    let rook = PieceMoves { piece: Piece::Rook, from: Square(8), moves: BitBoard(set(&[0, 56])) };
    assert_eq!(rook.len(), 2);
}

#[test]
fn groups_expand_in_order() {
    let knight = PieceMoves { piece: Piece::Knight, from: Square(1), moves: BitBoard(set(&[18, 16])) };
    assert_eq!(
        knight.convert(Color::White),
        vec![
            Move { piece: Piece::Knight, from: Square(1), to: Square(16), flags: None },
            Move { piece: Piece::Knight, from: Square(1), to: Square(18), flags: None },
        ]
    );
    let pawn = PieceMoves { piece: Piece::Pawn, from: Square(48), moves: BitBoard(set(&[56])) };
    let promo = |p| Move {
        piece: Piece::Pawn,
        from: Square(48),
        to: Square(56),
        flags: Some(MoveFlags::Promotion(p)),
    };
    assert_eq!(
        pawn.convert(Color::White),
        vec![
            promo(PromotionPiece::Queen),
            promo(PromotionPiece::Rook),
            promo(PromotionPiece::Bishop),
            promo(PromotionPiece::Knight),
        ]
    );
    assert_eq!(pawn.convert(Color::White).len() as u32, pawn.len());
    assert_eq!(pawn.convert(Color::Black).len(), 1);
    let rook = PieceMoves { piece: Piece::Rook, from: Square(48), moves: BitBoard(set(&[56])) };
    assert_eq!(rook.convert(Color::White).len(), 1);
    let none = PieceMoves { piece: Piece::Rook, from: Square(48), moves: BitBoard(0) };
    assert!(none.convert(Color::Black).is_empty());
}

#[test]
fn move_text() {
    let mv = Move {
        piece: Piece::Pawn,
        from: Square(52),
        to: Square(60),
        flags: Some(MoveFlags::Promotion(PromotionPiece::Queen)),
    };
    assert_eq!(mv.to_string(), "e7e8Q");
    let mv = Move { piece: Piece::Knight, from: Square(6), to: Square(21), flags: None };
    assert_eq!(mv.to_string(), "g1f3");
}
