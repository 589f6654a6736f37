use chess_movegen::square::Square;
use chess_movegen::text::SquareParseError;

#[test]
fn test_square() {
    assert_eq!(Square(42).to_string(), String::from("c6"));
}

#[test]
fn square_names_corners() {
    assert_eq!(Square(0).to_string(), "a1");
    assert_eq!(Square(7).to_string(), "h1");
    assert_eq!(Square(56).to_string(), "a8");
    assert_eq!(Square(63).to_string(), "h8");
}

#[test]
fn square_file_and_rank() {
    assert_eq!(Square(42).file(), 2);
    assert_eq!(Square(42).rank(), 5);
}

#[test]
fn square_offset_inside_and_outside() {
    assert_eq!(Square(0).offset(1, 1), Square(9));
    assert_eq!(Square(0).offset(-1, 0), Square(0));
    assert_eq!(Square(63).offset(0, 1), Square(63));
    assert_eq!(Square(28).offset(-2, 3), Square(50));
}

#[test]
fn square_bitboard_is_one_bit() {
    assert_eq!(Square(5).bitboard().0, 32);
    assert_eq!(Square(63).bitboard().0, 1u64 << 63);
}

#[test]
fn square_from_text() {
    assert_eq!(Square::from_str("c6"), Ok(Square(42)));
    assert_eq!(Square::from_str("a1"), Ok(Square(0)));
    assert_eq!(Square::from_str("h8"), Ok(Square(63)));
}

#[test]
fn square_from_text_errors() {
    assert_eq!(Square::from_str("c"), Err(SquareParseError::CharLenError(1)));
    assert_eq!(Square::from_str("c66"), Err(SquareParseError::CharLenError(3)));
    assert_eq!(Square::from_str("i6"), Err(SquareParseError::FileError));
    assert_eq!(Square::from_str("c9"), Err(SquareParseError::RankError));
    assert_eq!(Square::from_str("z0"), Err(SquareParseError::FileError));
}
