use std::str::FromStr;

use vstd::prelude::*;

use crate::reduce::{Rejected, Rejection};
use crate::text::chars_of;

verus! {

/// A square on the board: file a–h, rank 1–8.
#[derive(Copy, Clone, PartialEq, Eq, Structural, Hash, Debug)]
pub enum Square {
    A1,
    B1,
    C1,
    D1,
    E1,
    F1,
    G1,
    H1,
    A2,
    B2,
    C2,
    D2,
    E2,
    F2,
    G2,
    H2,
    A3,
    B3,
    C3,
    D3,
    E3,
    F3,
    G3,
    H3,
    A4,
    B4,
    C4,
    D4,
    E4,
    F4,
    G4,
    H4,
    A5,
    B5,
    C5,
    D5,
    E5,
    F5,
    G5,
    H5,
    A6,
    B6,
    C6,
    D6,
    E6,
    F6,
    G6,
    H6,
    A7,
    B7,
    C7,
    D7,
    E7,
    F7,
    G7,
    H7,
    A8,
    B8,
    C8,
    D8,
    E8,
    F8,
    G8,
    H8,
}

/// The square with board index `i` (a1 = 0, b1 = 1, …, h8 = 63); h8 past the end.
spec fn indexed(i: int) -> Square {
    if i == 0 {
        Square::A1
    } else if i == 1 {
        Square::B1
    } else if i == 2 {
        Square::C1
    } else if i == 3 {
        Square::D1
    } else if i == 4 {
        Square::E1
    } else if i == 5 {
        Square::F1
    } else if i == 6 {
        Square::G1
    } else if i == 7 {
        Square::H1
    } else if i == 8 {
        Square::A2
    } else if i == 9 {
        Square::B2
    } else if i == 10 {
        Square::C2
    } else if i == 11 {
        Square::D2
    } else if i == 12 {
        Square::E2
    } else if i == 13 {
        Square::F2
    } else if i == 14 {
        Square::G2
    } else if i == 15 {
        Square::H2
    } else if i == 16 {
        Square::A3
    } else if i == 17 {
        Square::B3
    } else if i == 18 {
        Square::C3
    } else if i == 19 {
        Square::D3
    } else if i == 20 {
        Square::E3
    } else if i == 21 {
        Square::F3
    } else if i == 22 {
        Square::G3
    } else if i == 23 {
        Square::H3
    } else if i == 24 {
        Square::A4
    } else if i == 25 {
        Square::B4
    } else if i == 26 {
        Square::C4
    } else if i == 27 {
        Square::D4
    } else if i == 28 {
        Square::E4
    } else if i == 29 {
        Square::F4
    } else if i == 30 {
        Square::G4
    } else if i == 31 {
        Square::H4
    } else if i == 32 {
        Square::A5
    } else if i == 33 {
        Square::B5
    } else if i == 34 {
        Square::C5
    } else if i == 35 {
        Square::D5
    } else if i == 36 {
        Square::E5
    } else if i == 37 {
        Square::F5
    } else if i == 38 {
        Square::G5
    } else if i == 39 {
        Square::H5
    } else if i == 40 {
        Square::A6
    } else if i == 41 {
        Square::B6
    } else if i == 42 {
        Square::C6
    } else if i == 43 {
        Square::D6
    } else if i == 44 {
        Square::E6
    } else if i == 45 {
        Square::F6
    } else if i == 46 {
        Square::G6
    } else if i == 47 {
        Square::H6
    } else if i == 48 {
        Square::A7
    } else if i == 49 {
        Square::B7
    } else if i == 50 {
        Square::C7
    } else if i == 51 {
        Square::D7
    } else if i == 52 {
        Square::E7
    } else if i == 53 {
        Square::F7
    } else if i == 54 {
        Square::G7
    } else if i == 55 {
        Square::H7
    } else if i == 56 {
        Square::A8
    } else if i == 57 {
        Square::B8
    } else if i == 58 {
        Square::C8
    } else if i == 59 {
        Square::D8
    } else if i == 60 {
        Square::E8
    } else if i == 61 {
        Square::F8
    } else if i == 62 {
        Square::G8
    } else {
        Square::H8
    }
}

/// The square on `file` (0 = a) and `rank` (0 = rank 1).
pub closed spec fn square_at(file: int, rank: int) -> Square {
    indexed(rank * 8 + file)
}

/// The square with board index `i` (a1 = 0, b1 = 1, …, h8 = 63).
pub open spec fn square_of(i: int) -> Square {
    square_at(i % 8, i / 8)
}

/// Whether a file/rank pair lies on the board.
pub open spec fn on_board(file: int, rank: int) -> bool {
    0 <= file < 8 && 0 <= rank < 8
}

impl Square {
    /// The board index of the square: a1 = 0, b1 = 1, …, h8 = 63.
    pub open spec fn code(self) -> int {
        match self {
            Square::A1 => 0,
            Square::B1 => 1,
            Square::C1 => 2,
            Square::D1 => 3,
            Square::E1 => 4,
            Square::F1 => 5,
            Square::G1 => 6,
            Square::H1 => 7,
            Square::A2 => 8,
            Square::B2 => 9,
            Square::C2 => 10,
            Square::D2 => 11,
            Square::E2 => 12,
            Square::F2 => 13,
            Square::G2 => 14,
            Square::H2 => 15,
            Square::A3 => 16,
            Square::B3 => 17,
            Square::C3 => 18,
            Square::D3 => 19,
            Square::E3 => 20,
            Square::F3 => 21,
            Square::G3 => 22,
            Square::H3 => 23,
            Square::A4 => 24,
            Square::B4 => 25,
            Square::C4 => 26,
            Square::D4 => 27,
            Square::E4 => 28,
            Square::F4 => 29,
            Square::G4 => 30,
            Square::H4 => 31,
            Square::A5 => 32,
            Square::B5 => 33,
            Square::C5 => 34,
            Square::D5 => 35,
            Square::E5 => 36,
            Square::F5 => 37,
            Square::G5 => 38,
            Square::H5 => 39,
            Square::A6 => 40,
            Square::B6 => 41,
            Square::C6 => 42,
            Square::D6 => 43,
            Square::E6 => 44,
            Square::F6 => 45,
            Square::G6 => 46,
            Square::H6 => 47,
            Square::A7 => 48,
            Square::B7 => 49,
            Square::C7 => 50,
            Square::D7 => 51,
            Square::E7 => 52,
            Square::F7 => 53,
            Square::G7 => 54,
            Square::H7 => 55,
            Square::A8 => 56,
            Square::B8 => 57,
            Square::C8 => 58,
            Square::D8 => 59,
            Square::E8 => 60,
            Square::F8 => 61,
            Square::G8 => 62,
            Square::H8 => 63,
        }
    }

    /// Every square lies on the board.
    pub open spec fn valid(self) -> bool {
        on_board(self.file_of(), self.rank_of())
    }

    /// The file, 0 for the a-file.
    pub closed spec fn file_of(self) -> int {
        self.code() % 8
    }

    /// The rank, 0 for the first rank.
    pub closed spec fn rank_of(self) -> int {
        self.code() / 8
    }

    /// The board index: `rank * 8 + file`.
    pub open spec fn idx(self) -> int {
        self.rank_of() * 8 + self.file_of()
    }
}

/// Each index names its square, and each square has its index.
proof fn lemma_code(s: Square, i: int)
    ensures
        0 <= s.code() < 64,
        indexed(s.code()) == s,
        0 <= i < 64 ==> indexed(i).code() == i,
{
}

/// Every square lies on the board.
pub proof fn lemma_square_valid(s: Square)
    ensures
        s.valid(),
{
    lemma_code(s, 0);
}

/// A square built from an on-board file and rank has that file and rank.
pub broadcast proof fn lemma_square_at(file: int, rank: int)
    requires
        on_board(file, rank),
    ensures
        #[trigger] square_at(file, rank).file_of() == file,
        square_at(file, rank).rank_of() == rank,
{
    lemma_code(square_at(file, rank), rank * 8 + file);
}

/// Two squares are equal exactly when their files and ranks are.
pub proof fn lemma_square_eq(a: Square, b: Square)
    ensures
        (a == b) <==> (a.file_of() == b.file_of() && a.rank_of() == b.rank_of()),
{
    lemma_code(a, 0);
    lemma_code(b, 0);
    if a.file_of() == b.file_of() && a.rank_of() == b.rank_of() {
        assert(a.code() == b.code());
    }
}

/// A named square's index, file and rank, read off its place in board
/// order (a1 = 0, b1 = 1, …, h8 = 63).
pub proof fn lemma_square_code(s: Square)
    ensures
        0 <= s.code() < 64,
        s.idx() == s.code(),
        s.file_of() == s.code() % 8,
        s.rank_of() == s.code() / 8,
        square_of(s.code()) == s,
        square_at(s.code() % 8, s.code() / 8) == s,
{
    lemma_code(s, 0);
    lemma_square_of_idx(s);
}

/// A valid square is the square of its own index.
pub proof fn lemma_square_of_idx(s: Square)
    requires
        s.valid(),
    ensures
        square_of(s.idx()) == s,
        0 <= s.idx() < 64,
{
    lemma_code(s, 0);
    assert(s.idx() == s.code());
    assert(s.idx() % 8 == s.file_of());
    assert(s.idx() / 8 == s.rank_of());
}

/// The square of an index in range is valid, with that index.
pub broadcast proof fn lemma_square_of(i: int)
    requires
        0 <= i < 64,
    ensures
        #[trigger] square_of(i).valid(),
        square_of(i).idx() == i,
        square_of(i).file_of() == i % 8,
        square_of(i).rank_of() == i / 8,
{
    lemma_code(square_of(i), i);
    assert((i / 8) * 8 + i % 8 == i);
}

/// The character of a file: 'a' for file 0.
pub open spec fn file_char(file: int) -> char {
    (file + 97) as char
}

/// The character of a rank: '1' for rank 0.
pub open spec fn rank_char(rank: int) -> char {
    (rank + 49) as char
}

/// A square's name, such as `e4`.
pub open spec fn square_name(s: Square) -> Seq<char> {
    seq![file_char(s.file_of()), rank_char(s.rank_of())]
}

/// The file named by a character, if it names one.
pub open spec fn file_from_char(c: char) -> Option<int> {
    if 'a' <= c <= 'h' {
        Some(c as int - 97)
    } else {
        None
    }
}

/// The rank named by a character, if it names one.
pub open spec fn rank_from_char(c: char) -> Option<int> {
    if '1' <= c <= '8' {
        Some(c as int - 49)
    } else {
        None
    }
}

/// The square a two-character name such as `e4` denotes.
pub open spec fn spec_parse_square(text: Seq<char>) -> Option<Square> {
    if text.len() == 2 && file_from_char(text[0]) is Some && rank_from_char(text[1]) is Some {
        Some(square_at(file_from_char(text[0])->0, rank_from_char(text[1])->0))
    } else {
        None
    }
}

/// A square's name reads back as the square, and is two letters and
/// digits: `a`–`h`, then `1`–`8`.
pub proof fn lemma_name_reads(s: Square)
    ensures
        spec_parse_square(square_name(s)) == Some(s),
        square_name(s).len() == 2,
        'a' <= square_name(s)[0] <= 'h',
        '1' <= square_name(s)[1] <= '8',
{
    lemma_square_valid(s);
    lemma_square_at(s.file_of(), s.rank_of());
    lemma_square_eq(s, square_at(s.file_of(), s.rank_of()));
}

impl Square {
    /// The square on `file` and `rank`, if both are below 8.
    pub fn new(file: u8, rank: u8) -> (square: Option<Square>)
        ensures
            square == (if file < 8 && rank < 8 {
                Some(square_at(file as int, rank as int))
            } else {
                None
            }),
    {
        if file < 8 && rank < 8 {
            Some(Square::at(file, rank))
        } else {
            None
        }
    }

    /// The square on an on-board `file` and `rank`.
    pub(crate) fn at(file: u8, rank: u8) -> (square: Square)
        requires
            file < 8,
            rank < 8,
        ensures
            square == square_at(file as int, rank as int),
            square.file_of() == file,
            square.rank_of() == rank,
    {
        proof {
            lemma_square_at(file as int, rank as int);
        }
        Square::from_index((rank * 8 + file) as usize)
    }

    /// The square with board index `index`.
    pub(crate) fn from_index(index: usize) -> (square: Square)
        requires
            index < 64,
        ensures
            square == square_of(index as int),
            square.idx() == index,
    {
        proof {
            lemma_square_of(index as int);
            assert((index as int / 8) * 8 + index as int % 8 == index);
        }
        match index {
            0 => Square::A1,
            1 => Square::B1,
            2 => Square::C1,
            3 => Square::D1,
            4 => Square::E1,
            5 => Square::F1,
            6 => Square::G1,
            7 => Square::H1,
            8 => Square::A2,
            9 => Square::B2,
            10 => Square::C2,
            11 => Square::D2,
            12 => Square::E2,
            13 => Square::F2,
            14 => Square::G2,
            15 => Square::H2,
            16 => Square::A3,
            17 => Square::B3,
            18 => Square::C3,
            19 => Square::D3,
            20 => Square::E3,
            21 => Square::F3,
            22 => Square::G3,
            23 => Square::H3,
            24 => Square::A4,
            25 => Square::B4,
            26 => Square::C4,
            27 => Square::D4,
            28 => Square::E4,
            29 => Square::F4,
            30 => Square::G4,
            31 => Square::H4,
            32 => Square::A5,
            33 => Square::B5,
            34 => Square::C5,
            35 => Square::D5,
            36 => Square::E5,
            37 => Square::F5,
            38 => Square::G5,
            39 => Square::H5,
            40 => Square::A6,
            41 => Square::B6,
            42 => Square::C6,
            43 => Square::D6,
            44 => Square::E6,
            45 => Square::F6,
            46 => Square::G6,
            47 => Square::H6,
            48 => Square::A7,
            49 => Square::B7,
            50 => Square::C7,
            51 => Square::D7,
            52 => Square::E7,
            53 => Square::F7,
            54 => Square::G7,
            55 => Square::H7,
            56 => Square::A8,
            57 => Square::B8,
            58 => Square::C8,
            59 => Square::D8,
            60 => Square::E8,
            61 => Square::F8,
            62 => Square::G8,
            _ => Square::H8,
        }
    }

    /// Every square on the board, a1 through h8.
    pub fn all() -> (squares: Vec<Square>)
        ensures
            squares@.len() == 64,
            forall|i: int| 0 <= i < 64 ==> #[trigger] squares@[i] == square_of(i),
    {
        let mut squares: Vec<Square> = Vec::new();
        let mut index: usize = 0;
        while index < 64
            invariant
                index <= 64,
                squares@.len() == index,
                forall|i: int| 0 <= i < index ==> #[trigger] squares@[i] == square_of(i),
            decreases 64 - index,
        {
            squares.push(Square::from_index(index));
            index = index + 1;
        }
        squares
    }

    /// The board index, `rank * 8 + file`.
    pub(crate) fn index(self) -> (index: usize)
        ensures
            index == self.idx(),
            index < 64,
            square_of(index as int) == self,
    {
        proof {
            lemma_code(self, 0);
            lemma_square_of_idx(self);
        }
        let index: usize = match self {
            Square::A1 => 0,
            Square::B1 => 1,
            Square::C1 => 2,
            Square::D1 => 3,
            Square::E1 => 4,
            Square::F1 => 5,
            Square::G1 => 6,
            Square::H1 => 7,
            Square::A2 => 8,
            Square::B2 => 9,
            Square::C2 => 10,
            Square::D2 => 11,
            Square::E2 => 12,
            Square::F2 => 13,
            Square::G2 => 14,
            Square::H2 => 15,
            Square::A3 => 16,
            Square::B3 => 17,
            Square::C3 => 18,
            Square::D3 => 19,
            Square::E3 => 20,
            Square::F3 => 21,
            Square::G3 => 22,
            Square::H3 => 23,
            Square::A4 => 24,
            Square::B4 => 25,
            Square::C4 => 26,
            Square::D4 => 27,
            Square::E4 => 28,
            Square::F4 => 29,
            Square::G4 => 30,
            Square::H4 => 31,
            Square::A5 => 32,
            Square::B5 => 33,
            Square::C5 => 34,
            Square::D5 => 35,
            Square::E5 => 36,
            Square::F5 => 37,
            Square::G5 => 38,
            Square::H5 => 39,
            Square::A6 => 40,
            Square::B6 => 41,
            Square::C6 => 42,
            Square::D6 => 43,
            Square::E6 => 44,
            Square::F6 => 45,
            Square::G6 => 46,
            Square::H6 => 47,
            Square::A7 => 48,
            Square::B7 => 49,
            Square::C7 => 50,
            Square::D7 => 51,
            Square::E7 => 52,
            Square::F7 => 53,
            Square::G7 => 54,
            Square::H7 => 55,
            Square::A8 => 56,
            Square::B8 => 57,
            Square::C8 => 58,
            Square::D8 => 59,
            Square::E8 => 60,
            Square::F8 => 61,
            Square::G8 => 62,
            Square::H8 => 63,
        };
        assert(index == self.code());
        index
    }

    /// The file, 0 for the a-file.
    pub fn file(self) -> (file: u8)
        ensures
            file == self.file_of(),
            file < 8,
    {
        (self.index() % 8) as u8
    }

    /// The rank, 0 for the first rank.
    pub fn rank(self) -> (rank: u8)
        ensures
            rank == self.rank_of(),
            rank < 8,
    {
        (self.index() / 8) as u8
    }

    /// The square `dx` files and `dy` ranks away, if it is on the board.
    pub(crate) fn offset(self, dx: i8, dy: i8) -> (square: Option<Square>)
        requires
            -8 <= dx <= 8,
            -8 <= dy <= 8,
        ensures
            square == (if on_board(self.file_of() + dx, self.rank_of() + dy) {
                Some(square_at(self.file_of() + dx, self.rank_of() + dy))
            } else {
                None
            }),
    {
        let file = self.file() as i8 + dx;
        let rank = self.rank() as i8 + dy;
        if 0 <= file && file < 8 && 0 <= rank && rank < 8 {
            Some(Square::at(file as u8, rank as u8))
        } else {
            None
        }
    }

    /// The square named by `text`, such as `"e4"`.
    pub fn parse(text: &str) -> (square: Option<Square>)
        ensures
            square == spec_parse_square(text@),
    {
        let chars = chars_of(text);
        if chars.len() != 2 {
            return None;
        }
        Square::from_chars(chars[0], chars[1])
    }

    /// The square named by a file character and a rank character.
    pub(crate) fn from_chars(file: char, rank: char) -> (square: Option<Square>)
        ensures
            square == spec_parse_square(seq![file, rank]),
    {
        if 'a' <= file && file <= 'h' && '1' <= rank && rank <= '8' {
            Some(Square::at((file as u32 - 97) as u8, (rank as u32 - 49) as u8))
        } else {
            None
        }
    }

    /// Appends this square's name, such as `e4`, to `out`.
    pub(crate) fn write_name(self, out: &mut Vec<char>)
        ensures
            final(out)@ == old(out)@ + square_name(self),
    {
        let file = (self.file() + 97) as char;
        let rank = (self.rank() + 49) as char;
        out.push(file);
        out.push(rank);
        assert(out@ =~= old(out)@ + square_name(self));
    }
}

impl FromStr for Square {
    type Err = Rejected;

    fn from_str(text: &str) -> (parsed: Result<Square, Rejected>)
        ensures
            crate::reduce::res(parsed) == match spec_parse_square(text@) {
                Some(value) => Ok::<Square, Rejection>(value),
                None => Err(Rejection::Unparseable(text@)),
            },
    {
        match Square::parse(text) {
            Some(square) => Ok(square),
            None => Err(Rejected::Unparseable(text.to_string())),
        }
    }
}

} // verus!
