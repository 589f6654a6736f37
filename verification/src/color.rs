//! The two sides.
use vstd::prelude::*;
use vstd::string::StringSliceAdditionalSpecFns;

verus! {

/// One of the two sides.
#[derive(Clone, Copy, Debug, PartialEq, Eq, Structural)]
pub enum Color {
    White,
    Black,
}

impl Color {
    /// White is side 0, Black is side 1.
    pub open spec fn idx(self) -> int {
        match self {
            Color::White => 0,
            Color::Black => 1,
        }
    }

    /// The opposing side.
    pub open spec fn opposite(self) -> Color {
        match self {
            Color::White => Color::Black,
            Color::Black => Color::White,
        }
    }

    /// 0 for White, 1 for Black.
    pub fn index(self) -> (i: usize)
        ensures
            i == self.idx(),
            i < 2,
    {
        match self {
            Color::White => 0,
            Color::Black => 1,
        }
    }

    /// The opposing side.
    pub fn other(self) -> (c: Color)
        ensures
            c == self.opposite(),
            c.idx() == 1 - self.idx(),
    {
        match self {
            Color::White => Color::Black,
            Color::Black => Color::White,
        }
    }
}

impl Default for Color {
    fn default() -> (c: Color)
        ensures
            c == Color::White,
    {
        Color::White
    }
}

impl std::ops::Not for Color {
    type Output = Color;

    fn not(self) -> (c: Color) {
        match self {
            Color::White => Color::Black,
            Color::Black => Color::White,
        }
    }
}

impl vstd::std_specs::ops::NotSpecImpl for Color {
    open spec fn obeys_not_spec() -> bool {
        true
    }

    open spec fn not_req(self) -> bool {
        true
    }

    open spec fn not_spec(self) -> Color {
        self.opposite()
    }
}

/// The side that the second field names.
pub open spec fn side_of(f: Seq<u8>) -> Option<Color> {
    if f == seq![119u8] || f == seq![87u8] || f == seq![87u8, 104, 105, 116, 101] || f == seq![
        119u8,
        104,
        105,
        116,
        101,
    ] || f == seq![87u8, 72, 73, 84, 69] {
        Some(Color::White)
    } else if f == seq![98u8] || f == seq![66u8] || f == seq![66u8, 108, 97, 99, 107] || f == seq![
        98u8,
        108,
        97,
        99,
        107,
    ] || f == seq![66u8, 76, 65, 67, 75] {
        Some(Color::Black)
    } else {
        None
    }
}

/// Reads the side to move between `start` and `stop`.
pub(crate) fn read_side(b: &[u8], start: usize, stop: usize) -> (r: Option<Color>)
    requires
        start <= stop <= b@.len(),
    ensures
        r == side_of(b@.subrange(start as int, stop as int)),
{
    let ghost f = b@.subrange(start as int, stop as int);
    proof {
        lemma_side_words();
    }
    if stop - start == 1 {
        let x = b[start];
        assert(f[0] == x);
        if x == 119 || x == 87 {
            assert(f =~= seq![x]);
            Some(Color::White)
        } else if x == 98 || x == 66 {
            assert(f =~= seq![x]);
            Some(Color::Black)
        } else {
            None
        }
    } else if stop - start == 5 {
        let v = b[start];
        let w = b[start + 1];
        let x = b[start + 2];
        let y = b[start + 3];
        let z = b[start + 4];
        assert(f[0] == v && f[1] == w && f[2] == x && f[3] == y && f[4] == z);
        assert(f =~= seq![v, w, x, y, z]);
        if (v == 87 && w == 104 && x == 105 && y == 116 && z == 101) || (v == 119 && w == 104 && x == 105
            && y == 116 && z == 101) || (v == 87 && w == 72 && x == 73 && y == 84 && z == 69) {
            Some(Color::White)
        } else if (v == 66 && w == 108 && x == 97 && y == 99 && z == 107) || (v == 98 && w == 108 && x
            == 97 && y == 99 && z == 107) || (v == 66 && w == 76 && x == 65 && y == 67 && z == 75) {
            Some(Color::Black)
        } else {
            None
        }
    } else {
        None
    }
}

/// The words for the two sides, letter by letter.
proof fn lemma_side_words()
    ensures
        seq![119u8].len() == 1 && seq![119u8][0] == 119,
        seq![87u8].len() == 1 && seq![87u8][0] == 87,
        seq![98u8].len() == 1 && seq![98u8][0] == 98,
        seq![66u8].len() == 1 && seq![66u8][0] == 66,
        ({
            let w = seq![87u8, 104, 105, 116, 101];
            w.len() == 5 && w[0] == 87 && w[1] == 104 && w[2] == 105 && w[3] == 116 && w[4] == 101
        }),
        ({
            let w = seq![119u8, 104, 105, 116, 101];
            w.len() == 5 && w[0] == 119 && w[1] == 104 && w[2] == 105 && w[3] == 116 && w[4] == 101
        }),
        ({
            let w = seq![87u8, 72, 73, 84, 69];
            w.len() == 5 && w[0] == 87 && w[1] == 72 && w[2] == 73 && w[3] == 84 && w[4] == 69
        }),
        ({
            let w = seq![66u8, 108, 97, 99, 107];
            w.len() == 5 && w[0] == 66 && w[1] == 108 && w[2] == 97 && w[3] == 99 && w[4] == 107
        }),
        ({
            let w = seq![98u8, 108, 97, 99, 107];
            w.len() == 5 && w[0] == 98 && w[1] == 108 && w[2] == 97 && w[3] == 99 && w[4] == 107
        }),
        ({
            let w = seq![66u8, 76, 65, 67, 75];
            w.len() == 5 && w[0] == 66 && w[1] == 76 && w[2] == 65 && w[3] == 67 && w[4] == 75
        }),
{
}

/// The text names neither side.
#[derive(Clone, Copy, Debug, PartialEq, Eq, Structural)]
pub struct ColorParseError;

impl Color {
    /// The side that a text names: `w`, `W`, `White`, `white` or `WHITE`
    /// for White, and so with `b` for Black.
    pub fn from_str(s: &str) -> (r: Result<Color, ColorParseError>)
        ensures
            match r {
                Ok(c) => side_of(s.spec_bytes()) == Some(c),
                Err(_) => side_of(s.spec_bytes()).is_none(),
            },
    {
        let b = s.as_bytes();
        proof {
            assert(b@.subrange(0, b@.len() as int) =~= b@);
        }
        match read_side(b, 0, b.len()) {
            Some(c) => Ok(c),
            None => Err(ColorParseError),
        }
    }
}

} // verus!
