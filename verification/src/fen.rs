//! Reading a position from its description in Forsyth-Edwards notation:
//! six fields parted by white space, for the pieces, the side to move, the
//! rights to castle, the en-passant square and the two clocks.
use vstd::prelude::*;
use vstd::string::StringExecFns;
use vstd::string::StrSliceExecFns;
use vstd::string::StringSliceAdditionalSpecFns;
use crate::bits::holds;
use crate::board::{Board, Position};
use crate::color::{Color, read_side, side_of};
use crate::geometry::{file_of, rank_of};
use crate::nonsliders::forward;
use crate::piece::Piece;
use crate::position::{king_home, pawn_rank, rook_home_k, rook_home_q};
use crate::view::lemma_kings_view;
use crate::square::Square;

verus! {

/// Why a text does not describe a position.
#[derive(Debug)]
pub enum FENParseError {
    /// The text, whose en-passant field names no square or one that does
    /// not go with the pawns.
    EnPassantError(String),
    /// Fewer than six fields.
    SpacingError,
    /// A row of other than eight squares, or other than eight rows.
    RowError,
    /// The text, which holds a symbol that stands for no piece.
    SymbolError(String),
    /// The side to move is neither white nor black.
    ColorError,
    /// A clock is no number, or too great, or the move number is zero.
    CounterError,
    /// A side has no king or more than one.
    KingError,
}

/// The kind of a `FENParseError`, without the text it carries.
#[derive(Clone, Copy, Debug, PartialEq, Eq, Structural)]
pub enum FenFault {
    EnPassant,
    Spacing,
    Row,
    Symbol,
    Color,
    Counter,
    King,
}

impl FENParseError {
    /// The kind of the fault.
    pub open spec fn fault(self) -> FenFault {
        match self {
            FENParseError::EnPassantError(_) => FenFault::EnPassant,
            FENParseError::SpacingError => FenFault::Spacing,
            FENParseError::RowError => FenFault::Row,
            FENParseError::SymbolError(_) => FenFault::Symbol,
            FENParseError::ColorError => FenFault::Color,
            FENParseError::CounterError => FenFault::Counter,
            FENParseError::KingError => FenFault::King,
        }
    }
}

/// Space, tab, line feed, vertical tab, form feed or carriage return.
pub open spec fn is_space(b: u8) -> bool {
    b == 32 || (9 <= b && b <= 13)
}

/// The first place from `i` on that holds no white space.
pub open spec fn skip(bytes: Seq<u8>, i: int) -> int
    decreases bytes.len() - i,
{
    if 0 <= i < bytes.len() && is_space(bytes[i]) {
        skip(bytes, i + 1)
    } else {
        i
    }
}

/// The first place from `i` on that holds white space, or the end.
pub open spec fn stop(bytes: Seq<u8>, i: int) -> int
    decreases bytes.len() - i,
{
    if 0 <= i < bytes.len() && !is_space(bytes[i]) {
        stop(bytes, i + 1)
    } else {
        i
    }
}

/// Where field `n` starts; the length of the text where there is no such field.
pub open spec fn field_start(bytes: Seq<u8>, n: nat) -> int
    decreases n,
{
    if n == 0 {
        skip(bytes, 0)
    } else {
        skip(bytes, stop(bytes, field_start(bytes, (n - 1) as nat)))
    }
}

/// Field `n` of the text.
pub open spec fn field(bytes: Seq<u8>, n: nat) -> Seq<u8> {
    bytes.subrange(field_start(bytes, n), stop(bytes, field_start(bytes, n)))
}

/// Skipping and stopping move forward and stay inside the text.
pub proof fn lemma_skip_stop(bytes: Seq<u8>, i: int)
    requires
        0 <= i <= bytes.len(),
    ensures
        i <= skip(bytes, i) <= bytes.len(),
        i <= stop(bytes, i) <= bytes.len(),
        i < bytes.len() && !is_space(bytes[i]) ==> stop(bytes, i) > i,
    decreases bytes.len() - i,
{
    if i < bytes.len() {
        lemma_skip_stop(bytes, i + 1);
    }
}

/// The next field at or after `from`: where it starts and where it stops.
fn next_field(b: &[u8], from: usize) -> (r: (usize, usize))
    requires
        from <= b@.len(),
    ensures
        r.0 == skip(b@, from as int),
        r.1 == stop(b@, r.0 as int),
        from <= r.0 <= r.1 <= b@.len(),
        r.0 < b@.len() ==> r.0 < r.1,
{
    let mut i: usize = from;
    while i < b.len() && (b[i] == 32 || (9 <= b[i] && b[i] <= 13))
        invariant
            from <= i <= b@.len(),
            skip(b@, from as int) == skip(b@, i as int),
        decreases b@.len() - i,
    {
        i = i + 1;
    }
    let start = i;
    while i < b.len() && !(b[i] == 32 || (9 <= b[i] && b[i] <= 13))
        invariant
            start <= i <= b@.len(),
            stop(b@, start as int) == stop(b@, i as int),
        decreases b@.len() - i,
    {
        i = i + 1;
    }
    proof {
        lemma_skip_stop(b@, start as int);
    }
    (start, i)
}

/// The piece that a letter stands for: upper case for White, lower for Black.
pub open spec fn symbol_piece(b: u8) -> Option<(Color, Piece)> {
    if b == 75 {
        Some((Color::White, Piece::King))
    } else if b == 81 {
        Some((Color::White, Piece::Queen))
    } else if b == 82 {
        Some((Color::White, Piece::Rook))
    } else if b == 66 {
        Some((Color::White, Piece::Bishop))
    } else if b == 78 {
        Some((Color::White, Piece::Knight))
    } else if b == 80 {
        Some((Color::White, Piece::Pawn))
    } else if b == 107 {
        Some((Color::Black, Piece::King))
    } else if b == 113 {
        Some((Color::Black, Piece::Queen))
    } else if b == 114 {
        Some((Color::Black, Piece::Rook))
    } else if b == 98 {
        Some((Color::Black, Piece::Bishop))
    } else if b == 110 {
        Some((Color::Black, Piece::Knight))
    } else if b == 112 {
        Some((Color::Black, Piece::Pawn))
    } else {
        None
    }
}

fn piece_of(b: u8) -> (r: Option<(Color, Piece)>)
    ensures
        r == symbol_piece(b),
{
    if b == 75 {
        Some((Color::White, Piece::King))
    } else if b == 81 {
        Some((Color::White, Piece::Queen))
    } else if b == 82 {
        Some((Color::White, Piece::Rook))
    } else if b == 66 {
        Some((Color::White, Piece::Bishop))
    } else if b == 78 {
        Some((Color::White, Piece::Knight))
    } else if b == 80 {
        Some((Color::White, Piece::Pawn))
    } else if b == 107 {
        Some((Color::Black, Piece::King))
    } else if b == 113 {
        Some((Color::Black, Piece::Queen))
    } else if b == 114 {
        Some((Color::Black, Piece::Rook))
    } else if b == 98 {
        Some((Color::Black, Piece::Bishop))
    } else if b == 110 {
        Some((Color::Black, Piece::Knight))
    } else if b == 112 {
        Some((Color::Black, Piece::Pawn))
    } else {
        None
    }
}

/// How far the reading of the rows has come: the pieces read, and the
/// rank and file of the next square.
pub struct Scan {
    pub squares: Seq<Option<(Color, Piece)>>,
    pub rank: int,
    pub file: int,
}

/// The state before the first symbol: no piece, at the first file of the eighth rank.
pub open spec fn scan_start() -> Scan {
    Scan { squares: Seq::new(64, |s: int| None), rank: 7, file: 0 }
}

/// What one symbol makes of the state: a stroke ends a full row, a digit
/// skips that many squares, a letter puts its piece.
pub open spec fn scan_step(st: Scan, b: u8) -> Result<Scan, FenFault> {
    if b == 47 {
        if st.file == 8 && st.rank > 0 {
            Ok(Scan { squares: st.squares, rank: st.rank - 1, file: 0 })
        } else {
            Err(FenFault::Row)
        }
    } else if 49 <= b && b <= 56 {
        if st.file + (b - 48) <= 8 {
            Ok(Scan { squares: st.squares, rank: st.rank, file: st.file + (b - 48) })
        } else {
            Err(FenFault::Row)
        }
    } else if symbol_piece(b).is_some() {
        if st.file < 8 {
            Ok(
                Scan {
                    squares: st.squares.update(8 * st.rank + st.file, symbol_piece(b)),
                    rank: st.rank,
                    file: st.file + 1,
                },
            )
        } else {
            Err(FenFault::Row)
        }
    } else {
        Err(FenFault::Symbol)
    }
}

/// The state after the symbols from place `i` on.
pub open spec fn scan(f: Seq<u8>, i: int, st: Scan) -> Result<Scan, FenFault>
    decreases f.len() - i,
{
    if i < 0 || i >= f.len() {
        Ok(st)
    } else {
        match scan_step(st, f[i]) {
            Ok(next) => scan(f, i + 1, next),
            Err(e) => Err(e),
        }
    }
}

/// The pieces that the first field describes.
pub open spec fn placement(f: Seq<u8>) -> Result<Seq<Option<(Color, Piece)>>, FenFault> {
    match scan(f, 0, scan_start()) {
        Ok(st) => if st.rank == 0 && st.file == 8 {
            Ok(st.squares)
        } else {
            Err(FenFault::Row)
        },
        Err(e) => Err(e),
    }
}

/// The number that a field of digits stands for, where it is at most `max`.
pub open spec fn number(f: Seq<u8>, max: int) -> Option<int> {
    if f.len() == 0 {
        None
    } else {
        digits(f, f.len() as int, max)
    }
}

/// The number that the first `n` digits stand for, where it is at most `max`.
pub open spec fn digits(f: Seq<u8>, n: int, max: int) -> Option<int>
    decreases n,
{
    if n <= 0 {
        Some(0)
    } else {
        match digits(f, n - 1, max) {
            Some(v) => if 48 <= f[n - 1] && f[n - 1] <= 57 && 10 * v + (f[n - 1] - 48) <= max {
                Some(10 * v + (f[n - 1] - 48))
            } else {
                None
            },
            None => None,
        }
    }
}

/// The en-passant square that the fourth field names: none for a dash,
/// else a square on the sixth rank as the side to move counts, empty, with
/// the pawn that skipped it right before it.
pub open spec fn enpassant_of(f: Seq<u8>, squares: Seq<Option<(Color, Piece)>>, turn: Color) -> Result<
    Option<int>,
    FenFault,
> {
    if f == seq![45u8] {
        Ok(None)
    } else if f.len() == 2 && 97 <= f[0] && f[0] <= 104 && 49 <= f[1] && f[1] <= 56 {
        let e = 8 * (f[1] - 49) + (f[0] - 97);
        if (f[1] - 49) == pawn_rank(turn.opposite()) - forward(turn) && squares[e].is_none() && squares[e
            - 8 * forward(turn)] == Some((turn.opposite(), Piece::Pawn)) {
            Ok(Some(e))
        } else {
            Err(FenFault::EnPassant)
        }
    } else {
        Err(FenFault::EnPassant)
    }
}

/// Field `f` holds the symbol `b`.
pub open spec fn mentions(f: Seq<u8>, b: u8) -> bool {
    exists|i: int| 0 <= i < f.len() && f[i] == b
}

/// The rights to castle of colour `c`: those that the third field names
/// and for which king and rook stand on their first squares.
pub open spec fn rights_of(f: Seq<u8>, squares: Seq<Option<(Color, Piece)>>, c: Color) -> (bool, bool) {
    let king = squares[king_home(c)] == Some((c, Piece::King));
    let k = match c {
        Color::White => 75u8,
        Color::Black => 107u8,
    };
    let q = match c {
        Color::White => 81u8,
        Color::Black => 113u8,
    };
    (
        king && mentions(f, k) && squares[rook_home_k(c)] == Some((c, Piece::Rook)),
        king && mentions(f, q) && squares[rook_home_q(c)] == Some((c, Piece::Rook)),
    )
}

/// What a text describes: the position, or the first fault in the order
/// fields, rows, side, en-passant square, clocks, kings.
pub open spec fn fen_position(bytes: Seq<u8>) -> Result<Position, FenFault> {
    if field_start(bytes, 5) >= bytes.len() {
        Err(FenFault::Spacing)
    } else {
        match placement(field(bytes, 0)) {
            Err(e) => Err(e),
            Ok(squares) => match side_of(field(bytes, 1)) {
                None => Err(FenFault::Color),
                Some(turn) => match enpassant_of(field(bytes, 3), squares, turn) {
                    Err(e) => Err(e),
                    Ok(enpassant) => match (number(field(bytes, 4), 255), number(field(bytes, 5), 65535)) {
                        (Some(halfmoves), Some(fullmoves)) => {
                            let p = Position {
                                squares,
                                turn,
                                white_castling: rights_of(field(bytes, 2), squares, Color::White),
                                black_castling: rights_of(field(bytes, 2), squares, Color::Black),
                                enpassant,
                                halfmoves,
                                fullmoves,
                            };
                            if fullmoves == 0 {
                                Err(FenFault::Counter)
                            } else if !(exists|ks: int| p.king_on(Color::White, ks)) || !(exists|ks: int|
                                p.king_on(Color::Black, ks)) {
                                Err(FenFault::King)
                            } else {
                                Ok(p)
                            }
                        },
                        _ => Err(FenFault::Counter),
                    },
                },
            },
        }
    }
}

/// Reads the rows of pieces between `start` and `stop`.
fn read_placement(b: &[u8], start: usize, stop: usize) -> (r: Result<Board, FenFault>)
    requires
        start <= stop <= b@.len(),
    ensures
        match r {
            Ok(board) => {
                &&& placement(b@.subrange(start as int, stop as int)) == Ok::<_, FenFault>(board@.squares)
                &&& board.placed()
                &&& board.enpassant.is_none()
            },
            Err(e) => placement(b@.subrange(start as int, stop as int)) == Err::<
                Seq<Option<(Color, Piece)>>,
                _,
            >(e) && (e == FenFault::Row || e == FenFault::Symbol),
        },
{
    let mut board = Board::new();
    let mut rank: usize = 7;
    let mut file: usize = 0;
    let mut i: usize = start;
    let ghost f = b@.subrange(start as int, stop as int);
    proof {
        assert(board@.squares =~= scan_start().squares);
    }
    while i < stop
        invariant
            start <= i <= stop <= b@.len(),
            f == b@.subrange(start as int, stop as int),
            rank <= 7,
            file <= 8,
            board.placed(),
            board.enpassant.is_none(),
            forall|s: int|
                0 <= s < 8 * rank || 8 * rank + file <= s < 8 * rank + 8 ==> board.piece_on(s).is_none(),
            scan(f, 0, scan_start()) == scan(
                f,
                i - start,
                Scan { squares: board@.squares, rank: rank as int, file: file as int },
            ),
        decreases stop - i,
    {
        let sym = b[i];
        let ghost st = Scan { squares: board@.squares, rank: rank as int, file: file as int };
        assert(f[i - start] == sym);
        if sym == 47 {
            if file == 8 && rank > 0 {
                rank = rank - 1;
                file = 0;
            } else {
                return Err(FenFault::Row);
            }
        } else if 49 <= sym && sym <= 56 {
            let run = (sym - 48) as usize;
            if file + run <= 8 {
                file = file + run;
            } else {
                return Err(FenFault::Row);
            }
        } else {
            match piece_of(sym) {
                Some((c, k)) => {
                    if file < 8 {
                        let ghost before = board;
                        let sq = Square(8 * rank + file);
                        board.put_piece(c, k, sq);
                        file = file + 1;
                        proof {
                            assert(board@.squares =~= st.squares.update(sq.0 as int, Some((c, k))));
                        }
                    } else {
                        return Err(FenFault::Row);
                    }
                },
                None => {
                    return Err(FenFault::Symbol);
                },
            }
        }
        i = i + 1;
    }
    if rank == 0 && file == 8 {
        Ok(board)
    } else {
        Err(FenFault::Row)
    }
}

/// Reads a number of at most `max` between `start` and `stop`.
fn read_number(b: &[u8], start: usize, stop: usize, max: u32) -> (r: Option<u32>)
    requires
        start <= stop <= b@.len(),
        max <= 100_000,
    ensures
        match r {
            Some(v) => number(b@.subrange(start as int, stop as int), max as int) == Some(v as int),
            None => number(b@.subrange(start as int, stop as int), max as int).is_none(),
        },
{
    let ghost f = b@.subrange(start as int, stop as int);
    if start == stop {
        return None;
    }
    let mut v: u32 = 0;
    let mut i: usize = start;
    while i < stop
        invariant
            start <= i <= stop <= b@.len(),
            f == b@.subrange(start as int, stop as int),
            v <= max <= 100_000,
            digits(f, i - start, max as int) == Some(v as int),
        decreases stop - i,
    {
        let d = b[i];
        assert(f[i - start] == d);
        if !(48 <= d && d <= 57) || 10 * v + (d - 48) as u32 > max {
            proof {
                lemma_digits_none(f, i - start + 1, f.len() as int, max as int);
            }
            return None;
        }
        v = 10 * v + (d - 48) as u32;
        i = i + 1;
    }
    Some(v)
}

/// Once the digits up to some place stand for no number, no more digits mend it.
proof fn lemma_digits_none(f: Seq<u8>, n: int, m: int, max: int)
    requires
        0 <= n <= m,
        digits(f, n, max).is_none(),
    ensures
        digits(f, m, max).is_none(),
    decreases m - n,
{
    if n < m {
        lemma_digits_none(f, n, m - 1, max);
    }
}

/// Whether the symbol `sym` occurs between `start` and `stop`.
fn has_symbol(b: &[u8], start: usize, stop: usize, sym: u8) -> (r: bool)
    requires
        start <= stop <= b@.len(),
    ensures
        r == mentions(b@.subrange(start as int, stop as int), sym),
{
    let ghost f = b@.subrange(start as int, stop as int);
    let mut i: usize = start;
    while i < stop
        invariant
            start <= i <= stop <= b@.len(),
            f == b@.subrange(start as int, stop as int),
            forall|j: int| 0 <= j < i - start ==> f[j] != sym,
        decreases stop - i,
    {
        if b[i] == sym {
            assert(f[i - start] == sym);
            return true;
        }
        i = i + 1;
    }
    false
}

/// Reads the en-passant square between `start` and `stop`.
fn read_enpassant(b: &[u8], start: usize, stop: usize, board: &Board, turn: Color) -> (r: Result<
    Option<Square>,
    FenFault,
>)
    requires
        start <= stop <= b@.len(),
    ensures
        match r {
            Ok(Some(sq)) => enpassant_of(b@.subrange(start as int, stop as int), board@.squares, turn)
                == Ok::<_, FenFault>(Some(sq.0 as int)) && sq.valid(),
            Ok(None) => enpassant_of(b@.subrange(start as int, stop as int), board@.squares, turn)
                == Ok::<Option<int>, FenFault>(None),
            Err(e) => enpassant_of(b@.subrange(start as int, stop as int), board@.squares, turn)
                == Err::<Option<int>, _>(e),
        },
{
    let ghost f = b@.subrange(start as int, stop as int);
    proof {
        assert(seq![45u8].len() == 1 && seq![45u8][0] == 45);
    }
    if stop - start == 1 && b[start] == 45 {
        assert(f =~= seq![45u8]);
        return Ok(None);
    }
    if stop - start != 2 {
        assert(f.len() != 1 || f[0] != 45);
        return Err(FenFault::EnPassant);
    }
    let x = b[start];
    let y = b[start + 1];
    assert(f[0] == x && f[1] == y);
    if !(97 <= x && x <= 104 && 49 <= y && y <= 56) {
        return Err(FenFault::EnPassant);
    }
    let rank = (y - 49) as usize;
    let e = 8 * rank + (x - 97) as usize;
    let (wanted, behind): (usize, usize) = match turn {
        Color::White => (5, e - 8 * (if rank == 5 {
            1
        } else {
            0
        })),
        Color::Black => (2, e + 8 * (if rank == 2 {
            1
        } else {
            0
        })),
    };
    if rank != wanted {
        return Err(FenFault::EnPassant);
    }
    let empty = board.piece_at(Square(e)).is_none();
    let pawn = board.holds_piece(behind, turn.other(), Piece::Pawn);
    proof {
        assert(board@.squares[e as int] == board.piece_on(e as int));
        assert(board@.squares[behind as int] == board.piece_on(behind as int));
    }
    if empty && pawn {
        Ok(Some(Square(e)))
    } else {
        Err(FenFault::EnPassant)
    }
}

impl Board {
    /// Reads a position from its description in Forsyth-Edwards notation.
    /// A text that holds a symbol beyond the plain ones describes none.
    pub fn from_str(s: &str) -> (r: Result<Board, FENParseError>)
        ensures
            match r {
                Ok(b) => {
                    &&& s.is_ascii()
                    &&& fen_position(s.spec_bytes()) == Ok::<_, FenFault>(b@)
                    &&& b.wf()
                },
                Err(e) => {
                    &&& if s.is_ascii() {
                        fen_position(s.spec_bytes()) == Err::<Position, _>(e.fault())
                    } else {
                        e.fault() == FenFault::Symbol
                    }
                    &&& match e {
                        FENParseError::SymbolError(text) => text@ == s@,
                        FENParseError::EnPassantError(text) => text@ == s@,
                        _ => true,
                    }
                },
            },
    {
        if !s.is_ascii() {
            return Err(FENParseError::SymbolError(String::from_str(s)));
        }
        let b = s.as_bytes();
        let ghost bytes = b@;
        let (s0, e0) = next_field(b, 0);
        let (s1, e1) = next_field(b, e0);
        let (s2, e2) = next_field(b, e1);
        let (s3, e3) = next_field(b, e2);
        let (s4, e4) = next_field(b, e3);
        let (s5, e5) = next_field(b, e4);
        proof {
            assert(field_start(bytes, 0) == s0);
            assert(field_start(bytes, 1) == s1);
            assert(field_start(bytes, 2) == s2);
            assert(field_start(bytes, 3) == s3);
            assert(field_start(bytes, 4) == s4);
            assert(field_start(bytes, 5) == s5);
        }
        if s5 >= b.len() {
            return Err(FENParseError::SpacingError);
        }
        let mut board = match read_placement(b, s0, e0) {
            Ok(board) => board,
            Err(FenFault::Symbol) => {
                return Err(FENParseError::SymbolError(String::from_str(s)));
            },
            Err(_) => {
                return Err(FENParseError::RowError);
            },
        };
        let turn = match read_side(b, s1, e1) {
            Some(c) => c,
            None => {
                return Err(FENParseError::ColorError);
            },
        };
        let enpassant = match read_enpassant(b, s3, e3, &board, turn) {
            Ok(e) => e,
            Err(_) => {
                return Err(FENParseError::EnPassantError(String::from_str(s)));
            },
        };
        let halfmoves = match read_number(b, s4, e4, 255) {
            Some(v) => v,
            None => {
                return Err(FENParseError::CounterError);
            },
        };
        let fullmoves = match read_number(b, s5, e5, 65535) {
            Some(v) => v,
            None => {
                return Err(FENParseError::CounterError);
            },
        };
        let white_king = board.holds_piece(4, Color::White, Piece::King);
        let black_king = board.holds_piece(60, Color::Black, Piece::King);
        let white = (
            white_king && has_symbol(b, s2, e2, 75) && board.holds_piece(7, Color::White, Piece::Rook),
            white_king && has_symbol(b, s2, e2, 81) && board.holds_piece(0, Color::White, Piece::Rook),
        );
        let black = (
            black_king && has_symbol(b, s2, e2, 107) && board.holds_piece(
                63,
                Color::Black,
                Piece::Rook,
            ),
            black_king && has_symbol(b, s2, e2, 113) && board.holds_piece(
                56,
                Color::Black,
                Piece::Rook,
            ),
        );
        let ghost mid = board;
        proof {
            assert forall|s: int| 0 <= s < 64 implies mid@.squares[s] == mid.piece_on(s) by {}
        }
        board.turn = turn;
        board.castling = [white, black];
        board.enpassant = enpassant;
        board.halfmoves = halfmoves as u8;
        board.fullmoves = fullmoves as u16;
        proof {
            assert(board.squares == mid.squares);
            assert(board.all == mid.all);
            assert(board.pieces == mid.pieces);
            assert forall|s: int| board.piece_on(s) == mid.piece_on(s) by {}
            assert(board.placed()) by {
                assert forall|c2: Color, k2: Piece, s: int| 0 <= s < 64 implies #[trigger] holds(
                    board.bb(c2, k2),
                    s,
                ) == (board.piece_on(s) == Some((c2, k2))) by {
                    assert(board.bb(c2, k2) == mid.bb(c2, k2));
                    assert(board.piece_on(s) == mid.piece_on(s));
                }
                assert forall|c2: Color, s: int| 0 <= s < 64 implies #[trigger] holds(board.side(c2), s)
                    == (board.piece_on(s).is_some() && board.piece_on(s).unwrap().0 == c2) by {
                    assert(board.side(c2) == mid.side(c2));
                    assert(board.piece_on(s) == mid.piece_on(s));
                }
            }
            assert(board@.squares =~= mid@.squares);
            assert(board@.white_castling == rights_of(field(bytes, 2), board@.squares, Color::White));
            assert(board@.black_castling == rights_of(field(bytes, 2), board@.squares, Color::Black));
            lemma_kings_view(board, Color::White);
            lemma_kings_view(board, Color::Black);
        }
        if fullmoves == 0 {
            return Err(FENParseError::CounterError);
        }
        if board.pieces[0][0].len() != 1 || board.pieces[1][0].len() != 1 {
            return Err(FENParseError::KingError);
        }
        proof {
            reveal(rank_of);
            reveal(file_of);
            assert(board@.rights_stand(Color::White));
            assert(board@.rights_stand(Color::Black));
            assert(board@.enpassant_stands());
            assert(board@.wf());
        }
        Ok(board)
    }
}

} // verus!
