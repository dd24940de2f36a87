//! FEN — the six-field text form of a position — and the board drawing.

use vstd::prelude::*;

use crate::piece::{Color, Piece, Role};
use crate::position::{lemma_board_len, Position};
use crate::reduce::{Rejected, Rejection};
use crate::rules::{PositionModel, Rights};
use crate::san::{glyph, glyph_exec};
use crate::square::{file_char, lemma_name_reads, rank_char, spec_parse_square, square_name, Square};
use crate::text::{
    chars_of, decimal, digit_char, is_space, lemma_decimal_digits, lemma_scan_space,
    lemma_scan_word, lemma_split_piece, lemma_split_sep, no_space, push_decimal, split_chars,
    split_on, split_words, string_of, word_scan, words,
};

verus! {

/// The FEN letter of a piece: upper case for White.
pub open spec fn fen_letter(piece: Piece) -> char {
    match (piece.color, piece.role) {
        (Color::White, Role::Pawn) => 'P',
        (Color::White, Role::Knight) => 'N',
        (Color::White, Role::Bishop) => 'B',
        (Color::White, Role::Rook) => 'R',
        (Color::White, Role::Queen) => 'Q',
        (Color::White, Role::King) => 'K',
        (Color::Black, Role::Pawn) => 'p',
        (Color::Black, Role::Knight) => 'n',
        (Color::Black, Role::Bishop) => 'b',
        (Color::Black, Role::Rook) => 'r',
        (Color::Black, Role::Queen) => 'q',
        (Color::Black, Role::King) => 'k',
    }
}

/// The piece a FEN letter names.
pub open spec fn fen_piece(c: char) -> Option<Piece> {
    if c == 'P' {
        Some(Piece { color: Color::White, role: Role::Pawn })
    } else if c == 'N' {
        Some(Piece { color: Color::White, role: Role::Knight })
    } else if c == 'B' {
        Some(Piece { color: Color::White, role: Role::Bishop })
    } else if c == 'R' {
        Some(Piece { color: Color::White, role: Role::Rook })
    } else if c == 'Q' {
        Some(Piece { color: Color::White, role: Role::Queen })
    } else if c == 'K' {
        Some(Piece { color: Color::White, role: Role::King })
    } else if c == 'p' {
        Some(Piece { color: Color::Black, role: Role::Pawn })
    } else if c == 'n' {
        Some(Piece { color: Color::Black, role: Role::Knight })
    } else if c == 'b' {
        Some(Piece { color: Color::Black, role: Role::Bishop })
    } else if c == 'r' {
        Some(Piece { color: Color::Black, role: Role::Rook })
    } else if c == 'q' {
        Some(Piece { color: Color::Black, role: Role::Queen })
    } else if c == 'k' {
        Some(Piece { color: Color::Black, role: Role::King })
    } else {
        None
    }
}

/// One rank of the FEN board field from `file` on, with `run` empty squares
/// pending: pieces by letter, runs of empty squares by their count.
pub open spec fn fen_rank_from(m: PositionModel, rank: int, file: int, run: int) -> Seq<char>
    decreases 8 - file,
{
    if file >= 8 {
        if run > 0 {
            seq![digit_char(run)]
        } else {
            Seq::<char>::empty()
        }
    } else {
        match m.board[rank * 8 + file] {
            None => fen_rank_from(m, rank, file + 1, run + 1),
            Some(p) => (if run > 0 {
                seq![digit_char(run)]
            } else {
                Seq::<char>::empty()
            }) + seq![fen_letter(p)] + fen_rank_from(m, rank, file + 1, 0),
        }
    }
}

/// The first `k` ranks of the board field, from rank 8 down, joined by `/`.
pub open spec fn fen_ranks(m: PositionModel, k: int) -> Seq<char>
    decreases k,
{
    if k <= 1 {
        fen_rank_from(m, 7, 0, 0)
    } else {
        fen_ranks(m, k - 1) + seq!['/'] + fen_rank_from(m, 8 - k, 0, 0)
    }
}

/// The castling field: `KQkq` for the rights that remain, `-` for none.
pub open spec fn castling_field(rights: Rights) -> Seq<char> {
    let field = (if rights.white_king {
        seq!['K']
    } else {
        Seq::<char>::empty()
    }) + (if rights.white_queen {
        seq!['Q']
    } else {
        Seq::<char>::empty()
    }) + (if rights.black_king {
        seq!['k']
    } else {
        Seq::<char>::empty()
    }) + (if rights.black_queen {
        seq!['q']
    } else {
        Seq::<char>::empty()
    });
    if field.len() == 0 {
        seq!['-']
    } else {
        field
    }
}

/// A position as FEN with the given halfmove clock and fullmove number.
pub open spec fn fen_spec(m: PositionModel, halfmove: nat, fullmove: nat) -> Seq<char> {
    fen_ranks(m, 8) + seq![' ', if m.turn == Color::White {
        'w'
    } else {
        'b'
    }, ' '] + castling_field(m.rights) + seq![' '] + match m.passant {
        Some(square) => square_name(square),
        None => seq!['-'],
    } + seq![' '] + decimal(halfmove) + seq![' '] + decimal(fullmove)
}

/// The eight squares of one FEN rank, read from `i` on with `file` squares
/// already filled: a digit skips that many squares, a letter places a
/// piece; the rank must come to exactly eight squares.
pub open spec fn rank_cells_from(
    text: Seq<char>,
    i: int,
    file: int,
    cells: Seq<Option<Piece>>,
) -> Option<Seq<Option<Piece>>>
    decreases text.len() - i,
{
    if i >= text.len() {
        if file == 8 {
            Some(cells)
        } else {
            None
        }
    } else if '0' <= text[i] <= '9' {
        rank_cells_from(text, i + 1, file + (text[i] as int - 48), cells)
    } else if file >= 8 {
        None
    } else {
        match fen_piece(text[i]) {
            Some(p) => rank_cells_from(text, i + 1, file + 1, cells.update(file, Some(p))),
            None => None,
        }
    }
}

/// The eight squares a FEN rank describes.
pub open spec fn rank_cells(text: Seq<char>) -> Option<Seq<Option<Piece>>> {
    rank_cells_from(text, 0, 0, Seq::new(8, |i: int| None))
}

/// Castling rights a FEN field grants: `-`, or any of `KQkq`.
pub open spec fn rights_from(text: Seq<char>) -> Option<Rights>
    decreases text.len(),
{
    if text.len() == 0 {
        Some(Rights { white_king: false, white_queen: false, black_king: false, black_queen: false })
    } else {
        match rights_from(text.drop_last()) {
            None => None,
            Some(r) => {
                let c = text.last();
                if c == 'K' {
                    Some(Rights { white_king: true, ..r })
                } else if c == 'Q' {
                    Some(Rights { white_queen: true, ..r })
                } else if c == 'k' {
                    Some(Rights { black_king: true, ..r })
                } else if c == 'q' {
                    Some(Rights { black_queen: true, ..r })
                } else {
                    None
                }
            },
        }
    }
}

/// The castling field read: `-` is none.
pub open spec fn castling_from(text: Seq<char>) -> Option<Rights> {
    if text == seq!['-'] {
        Some(Rights { white_king: false, white_queen: false, black_king: false, black_queen: false })
    } else {
        rights_from(text)
    }
}

/// Whether all eight FEN ranks describe eight squares.
pub open spec fn ranks_readable(ranks: Seq<Seq<char>>) -> bool {
    ranks.len() == 8 && forall|r: int| 0 <= r < 8 ==> #[trigger] rank_cells(ranks[r]) is Some
}

/// The board eight readable FEN ranks describe (the first is rank 8).
pub open spec fn board_of(ranks: Seq<Seq<char>>) -> Seq<Option<Piece>> {
    Seq::new(64, |i: int| rank_cells(ranks[7 - i / 8])->0[i % 8])
}

/// A position read from FEN: at least four whitespace-separated fields
/// (board, side to move, castling, en passant); the two counters are
/// accepted but not kept — they are history, and a position is state.
pub open spec fn spec_from_fen(text: Seq<char>) -> Option<PositionModel> {
    let fields = words(text);
    if fields.len() < 4 {
        None
    } else {
        let ranks = split_on(fields[0], '/');
        let turn = if fields[1] == seq!['w'] {
            Some(Color::White)
        } else if fields[1] == seq!['b'] {
            Some(Color::Black)
        } else {
            None
        };
        let passant = if fields[3] == seq!['-'] {
            Some(None::<Square>)
        } else {
            match spec_parse_square(fields[3]) {
                Some(s) => Some(Some(s)),
                None => None,
            }
        };
        if !ranks_readable(ranks) || turn is None || castling_from(fields[2]) is None
            || passant is None {
            None
        } else {
            Some(
                PositionModel {
                    board: board_of(ranks),
                    turn: turn->0,
                    rights: castling_from(fields[2])->0,
                    passant: passant->0,
                },
            )
        }
    }
}

/// One rank as drawn: each square's figure (`·` when empty), spaced.
pub open spec fn drawn_cells(m: PositionModel, rank: int, file: int) -> Seq<char>
    decreases 8 - file,
{
    if file >= 8 {
        Seq::<char>::empty()
    } else {
        seq![
            match m.board[rank * 8 + file] {
                Some(p) => glyph(p),
                None => '·',
            },
        ] + (if file < 7 {
            seq![' ']
        } else {
            Seq::<char>::empty()
        }) + drawn_cells(m, rank, file + 1)
    }
}

/// The top `k` ranks as drawn, each labelled with its number and ended by
/// a newline.
pub open spec fn drawn_ranks(m: PositionModel, k: int) -> Seq<char>
    decreases k,
{
    if k <= 0 {
        Seq::<char>::empty()
    } else {
        drawn_ranks(m, k - 1) + seq![rank_char(8 - k), ' '] + drawn_cells(m, 8 - k, 0) + seq!['\n']
    }
}

/// The board as you'd draw it: rank 8 at the top, files lettered along the
/// bottom, Unicode pieces, `·` for empty squares.
pub open spec fn drawing(m: PositionModel) -> Seq<char> {
    drawn_ranks(m, 8) + seq![' ', ' ', 'a', ' ', 'b', ' ', 'c', ' ', 'd', ' ', 'e', ' ', 'f', ' ', 'g', ' ', 'h']
}

fn fen_letter_exec(piece: Piece) -> (c: char)
    ensures
        c == fen_letter(piece),
{
    match (piece.color, piece.role) {
        (Color::White, Role::Pawn) => 'P',
        (Color::White, Role::Knight) => 'N',
        (Color::White, Role::Bishop) => 'B',
        (Color::White, Role::Rook) => 'R',
        (Color::White, Role::Queen) => 'Q',
        (Color::White, Role::King) => 'K',
        (Color::Black, Role::Pawn) => 'p',
        (Color::Black, Role::Knight) => 'n',
        (Color::Black, Role::Bishop) => 'b',
        (Color::Black, Role::Rook) => 'r',
        (Color::Black, Role::Queen) => 'q',
        (Color::Black, Role::King) => 'k',
    }
}

fn fen_piece_exec(c: char) -> (piece: Option<Piece>)
    ensures
        piece == fen_piece(c),
{
    let (color, lower) = if 'A' <= c && c <= 'Z' {
        (Color::White, ((c as u32) + 32) as u8)
    } else if 'a' <= c && c <= 'z' {
        (Color::Black, c as u32 as u8)
    } else {
        return None;
    };
    let role = if lower == 112 {
        Role::Pawn
    } else if lower == 110 {
        Role::Knight
    } else if lower == 98 {
        Role::Bishop
    } else if lower == 114 {
        Role::Rook
    } else if lower == 113 {
        Role::Queen
    } else if lower == 107 {
        Role::King
    } else {
        return None;
    };
    Some(Piece { color, role })
}

/// Appends one FEN rank to `out`.
fn push_fen_rank(position: &Position, rank: usize, out: &mut Vec<char>)
    requires
        rank < 8,
    ensures
        final(out)@ == old(out)@ + fen_rank_from(position@, rank as int, 0, 0),
{
    let mut run: usize = 0;
    let mut file: usize = 0;
    while file < 8
        invariant
            file <= 8,
            run <= file,
            rank < 8,
            out@ + fen_rank_from(position@, rank as int, file as int, run as int) == old(out)@
                + fen_rank_from(position@, rank as int, 0, 0),
        decreases 8 - file,
    {
        let ghost before = out@;
        match position.at_index(rank * 8 + file) {
            Some(piece) => {
                if run > 0 {
                    out.push(((run + 48) as u8) as char);
                }
                out.push(fen_letter_exec(piece));
                assert(out@ + fen_rank_from(position@, rank as int, file + 1, 0) =~= before
                    + fen_rank_from(position@, rank as int, file as int, run as int));
                run = 0;
            },
            None => {
                run = run + 1;
            },
        }
        file = file + 1;
    }
    if run > 0 {
        out.push(((run + 48) as u8) as char);
    }
    assert(out@ =~= old(out)@ + fen_rank_from(position@, rank as int, 0, 0));
}

/// Appends the castling field to `out`.
fn push_castling(position: &Position, out: &mut Vec<char>)
    ensures
        final(out)@ == old(out)@ + castling_field(position@.rights),
{
    let mut any = false;
    if position.may_castle(Color::White, crate::piece::Wing::King) {
        out.push('K');
        any = true;
    }
    if position.may_castle(Color::White, crate::piece::Wing::Queen) {
        out.push('Q');
        any = true;
    }
    if position.may_castle(Color::Black, crate::piece::Wing::King) {
        out.push('k');
        any = true;
    }
    if position.may_castle(Color::Black, crate::piece::Wing::Queen) {
        out.push('q');
        any = true;
    }
    if !any {
        out.push('-');
    }
    assert(out@ =~= old(out)@ + castling_field(position@.rights));
}

/// Appends the board drawing of one rank's squares to `out`.
fn push_drawn_cells(position: &Position, rank: usize, out: &mut Vec<char>)
    requires
        rank < 8,
    ensures
        final(out)@ == old(out)@ + drawn_cells(position@, rank as int, 0),
{
    let mut file: usize = 0;
    while file < 8
        invariant
            file <= 8,
            rank < 8,
            out@ + drawn_cells(position@, rank as int, file as int) == old(out)@ + drawn_cells(
                position@,
                rank as int,
                0,
            ),
        decreases 8 - file,
    {
        let ghost before = out@;
        let figure = match position.at_index(rank * 8 + file) {
            Some(piece) => glyph_exec(piece),
            None => '·',
        };
        out.push(figure);
        if file < 7 {
            out.push(' ');
        }
        assert(out@ + drawn_cells(position@, rank as int, file + 1) =~= before + drawn_cells(
            position@,
            rank as int,
            file as int,
        ));
        file = file + 1;
    }
    assert(out@ =~= old(out)@ + drawn_cells(position@, rank as int, 0));
}

impl Position {
    /// This position as FEN. A bare position cannot know the two counters
    /// (they are history, not state), so they default to `0 1`.
    pub fn fen(self) -> (text: String)
        ensures
            text@ == fen_spec(self@, 0, 1),
    {
        self.fen_with(0, 1)
    }

    /// This position as FEN with the given counters.
    pub(crate) fn fen_with(self, halfmove: usize, fullmove: usize) -> (text: String)
        ensures
            text@ == fen_spec(self@, halfmove as nat, fullmove as nat),
    {
        let mut out: Vec<char> = Vec::new();
        let mut k: usize = 1;
        push_fen_rank(&self, 7, &mut out);
        while k < 8
            invariant
                1 <= k <= 8,
                out@ == fen_ranks(self@, k as int),
            decreases 8 - k,
        {
            out.push('/');
            push_fen_rank(&self, 7 - k, &mut out);
            k = k + 1;
            assert(out@ =~= fen_ranks(self@, k as int));
        }
        let ghost board = out@;
        out.push(' ');
        out.push(
            match self.turn() {
                Color::White => 'w',
                Color::Black => 'b',
            },
        );
        out.push(' ');
        push_castling(&self, &mut out);
        out.push(' ');
        match self.passant() {
            Some(square) => square.write_name(&mut out),
            None => out.push('-'),
        }
        let ghost head = out@;
        out.push(' ');
        push_decimal(&mut out, halfmove);
        out.push(' ');
        push_decimal(&mut out, fullmove);
        assert(out@ =~= head + seq![' '] + decimal(halfmove as nat) + seq![' '] + decimal(fullmove as nat));
        assert(out@ =~= fen_spec(self@, halfmove as nat, fullmove as nat));
        string_of(out)
    }

    /// The board as you'd draw it: rank 8 at the top, files lettered along
    /// the bottom, Unicode pieces, `·` for empty squares.
    pub fn render(self) -> (text: String)
        ensures
            text@ == drawing(self@),
    {
        let mut out: Vec<char> = Vec::new();
        let mut k: usize = 0;
        while k < 8
            invariant
                k <= 8,
                out@ == drawn_ranks(self@, k as int),
            decreases 8 - k,
        {
            let ghost before = out@;
            let rank = 7 - k;
            out.push(((rank + 49) as u8) as char);
            out.push(' ');
            push_drawn_cells(&self, rank, &mut out);
            out.push('\n');
            k = k + 1;
            assert(out@ =~= drawn_ranks(self@, k as int));
        }
        let footer = chars_of("  a b c d e f g h");
        proof {
            reveal_strlit("  a b c d e f g h");
        }
        crate::text::push_all(&mut out, &footer);
        assert(out@ =~= drawing(self@));
        string_of(out)
    }
}


/// A rank that has already run past eight squares can never be read.
proof fn lemma_rank_overfull(text: Seq<char>, i: int, file: int, cells: Seq<Option<Piece>>)
    requires
        file > 8,
        0 <= i,
    ensures
        rank_cells_from(text, i, file, cells) is None,
    decreases text.len() - i,
{
    if i < text.len() {
        if '0' <= text[i] <= '9' {
            lemma_rank_overfull(text, i + 1, file + (text[i] as int - 48), cells);
        }
    }
}

/// The eight squares a FEN rank describes.
fn read_rank(text: &Vec<char>) -> (cells: Option<Vec<Option<Piece>>>)
    ensures
        match cells {
            Some(v) => rank_cells(text@) == Some(v@) && v@.len() == 8,
            None => rank_cells(text@) is None,
        },
{
    let mut cells: Vec<Option<Piece>> = vec![None, None, None, None, None, None, None, None];
    assert(cells@ =~= Seq::new(8, |i: int| None::<Piece>));
    let mut file: usize = 0;
    let mut i: usize = 0;
    while i < text.len()
        invariant
            i <= text.len(),
            file <= 8,
            cells@.len() == 8,
            rank_cells(text@) == rank_cells_from(text@, i as int, file as int, cells@),
        decreases text.len() - i,
    {
        let c = text[i];
        if '0' <= c && c <= '9' {
            let run = (c as u32 - 48) as usize;
            if file + run > 8 {
                proof {
                    lemma_rank_overfull(text@, i + 1, file + run, cells@);
                }
                return None;
            }
            file = file + run;
        } else {
            if file >= 8 {
                return None;
            }
            match fen_piece_exec(c) {
                Some(piece) => {
                    cells.set(file, Some(piece));
                    file = file + 1;
                },
                None => {
                    return None;
                },
            }
        }
        i = i + 1;
    }
    if file != 8 {
        return None;
    }
    Some(cells)
}

/// Castling rights a FEN field grants.
fn read_castling(text: &Vec<char>) -> (rights: Option<Rights>)
    ensures
        rights == castling_from(text@),
{
    proof {
        reveal_strlit("-");
    }
    assert("-"@ =~= seq!['-']);
    let none = Rights { white_king: false, white_queen: false, black_king: false, black_queen: false };
    if crate::text::spells(text, "-") {
        return Some(none);
    }
    let mut rights = none;
    let mut i: usize = 0;
    assert(text@.take(0) =~= Seq::<char>::empty());
    while i < text.len()
        invariant
            i <= text.len(),
            text@ != seq!['-'],
            rights_from(text@.take(i as int)) == Some(rights),
        decreases text.len() - i,
    {
        assert(text@.take(i + 1).drop_last() =~= text@.take(i as int));
        let c = text[i];
        if c == 'K' {
            rights = Rights { white_king: true, ..rights };
        } else if c == 'Q' {
            rights = Rights { white_queen: true, ..rights };
        } else if c == 'k' {
            rights = Rights { black_king: true, ..rights };
        } else if c == 'q' {
            rights = Rights { black_queen: true, ..rights };
        } else {
            proof {
                lemma_rights_stuck(text@, i + 1);
            }
            return None;
        }
        i = i + 1;
    }
    assert(text@.take(text.len() as int) =~= text@);
    Some(rights)
}

/// A castling field that fails on a prefix fails as a whole.
proof fn lemma_rights_stuck(text: Seq<char>, n: int)
    requires
        0 <= n <= text.len(),
        rights_from(text.take(n)) is None,
    ensures
        rights_from(text) is None,
    decreases text.len() - n,
{
    if n < text.len() {
        assert(text.take(n + 1).drop_last() =~= text.take(n));
        lemma_rights_stuck(text, n + 1);
    } else {
        assert(text.take(n) =~= text);
    }
}

/// The result of reading FEN text: the position, or the text as unparseable.
pub open spec fn fen_result(text: Seq<char>) -> Result<PositionModel, Rejection> {
    match spec_from_fen(text) {
        Some(m) => Ok(m),
        None => Err(Rejection::Unparseable(text)),
    }
}

impl Position {
    /// A position read from FEN. The two counters are accepted but not
    /// kept — they are history, and a position is state.
    pub fn from_fen(fen: &str) -> (position: Result<Position, Rejected>)
        ensures
            crate::reduce::position_result(position) == fen_result(fen@),
    {
        match read_fen(fen) {
            Some(position) => Ok(position),
            None => Err(Rejected::Unparseable(fen.to_string())),
        }
    }
}

fn read_fen(fen: &str) -> (position: Option<Position>)
    ensures
        match position {
            Some(p) => spec_from_fen(fen@) == Some(p@),
            None => spec_from_fen(fen@) is None,
        },
{
    proof {
        reveal_strlit("w");
        reveal_strlit("b");
        reveal_strlit("-");
    }
    assert("w"@ =~= seq!['w']);
    assert("b"@ =~= seq!['b']);
    assert("-"@ =~= seq!['-']);
    let chars = chars_of(fen);
    let fields = split_words(&chars);
    if fields.len() < 4 {
        return None;
    }
    let ranks = split_chars(&fields[0], '/');
    let ghost rank_texts = split_on(fields@[0]@, '/');
    assert(fields@[0]@ == words(fen@)[0]);
    if ranks.len() != 8 {
        return None;
    }
    let mut board: [Option<Piece>; 64] = [None; 64];
    let mut row: usize = 0;
    while row < 8
        invariant
            row <= 8,
            words(fen@).len() >= 4,
            rank_texts == split_on(words(fen@)[0], '/'),
            ranks@.len() == 8,
            rank_texts.len() == 8,
            forall|r: int| 0 <= r < 8 ==> #[trigger] ranks@[r]@ == rank_texts[r],
            forall|r: int| 0 <= r < row ==> #[trigger] rank_cells(rank_texts[r]) is Some,
            forall|i: int|
                0 <= i < 64 && 7 - i / 8 < row ==> #[trigger] board@[i] == rank_cells(
                    rank_texts[7 - i / 8],
                )->0[i % 8],
        decreases 8 - row,
    {
        let cells = match read_rank(&ranks[row]) {
            Some(cells) => cells,
            None => {
                assert(rank_cells(rank_texts[row as int]) is None);
                assert(!ranks_readable(rank_texts));
                return None;
            },
        };
        let base = (7 - row) * 8;
        let mut file: usize = 0;
        while file < 8
            invariant
                file <= 8,
                row < 8,
                base == (7 - row) * 8,
                cells@.len() == 8,
                rank_cells(rank_texts[row as int]) == Some(cells@),
                ranks@.len() == 8,
                rank_texts.len() == 8,
                forall|r: int| 0 <= r < 8 ==> #[trigger] ranks@[r]@ == rank_texts[r],
                forall|r: int| 0 <= r < row ==> #[trigger] rank_cells(rank_texts[r]) is Some,
                forall|i: int|
                    0 <= i < 64 && (7 - i / 8 < row || (7 - i / 8 == row && i % 8 < file))
                        ==> #[trigger] board@[i] == rank_cells(rank_texts[7 - i / 8])->0[i % 8],
            decreases 8 - file,
        {
            board[base + file] = cells[file];
            file = file + 1;
        }
        row = row + 1;
    }
    let ghost model_board = board_of(rank_texts);
    assert(board@ =~= model_board);
    assert(ranks_readable(rank_texts));
    assert(fields@[1]@ == words(fen@)[1]);
    assert(fields@[2]@ == words(fen@)[2]);
    assert(fields@[3]@ == words(fen@)[3]);
    let turn = if crate::text::spells(&fields[1], "w") {
        Color::White
    } else if crate::text::spells(&fields[1], "b") {
        Color::Black
    } else {
        return None;
    };
    let rights = match read_castling(&fields[2]) {
        Some(rights) => rights,
        None => {
            return None;
        },
    };
    let passant = if crate::text::spells(&fields[3], "-") {
        None
    } else {
        if fields[3].len() != 2 {
            return None;
        }
        match Square::from_chars(fields[3][0], fields[3][1]) {
            Some(square) => {
                assert(fields@[3]@ =~= seq![fields@[3]@[0], fields@[3]@[1]]);
                Some(square)
            },
            None => {
                assert(fields@[3]@ =~= seq![fields@[3]@[0], fields@[3]@[1]]);
                return None;
            },
        }
    };
    Some(Position::from_parts(board, turn, rights, passant))
}


/// The squares of one rank, a-file first.
pub open spec fn board_row(m: PositionModel, rank: int) -> Seq<Option<Piece>> {
    Seq::new(8, |f: int| m.board[rank * 8 + f])
}

/// Whether `c` may stand in a FEN board field's rank: a digit or a piece letter.
pub open spec fn rank_char_ok(c: char) -> bool {
    ('0' <= c <= '9') || fen_piece(c) is Some
}

/// A piece's letter reads back as the piece, and is no digit.
proof fn lemma_letter_reads(p: Piece)
    ensures
        fen_piece(fen_letter(p)) == Some(p),
        !('0' <= fen_letter(p) <= '9'),
{
}

/// Reading resumes where the text after a prefix begins.
proof fn lemma_cells_shift(
    pre: Seq<char>,
    rest: Seq<char>,
    j: int,
    file: int,
    cells: Seq<Option<Piece>>,
)
    requires
        0 <= j,
    ensures
        rank_cells_from(pre + rest, pre.len() + j, file, cells) == rank_cells_from(
            rest,
            j,
            file,
            cells,
        ),
    decreases rest.len() - j,
{
    let text = pre + rest;
    if j < rest.len() {
        assert(text[pre.len() + j] == rest[j]);
        let c = rest[j];
        if '0' <= c <= '9' {
            lemma_cells_shift(pre, rest, j + 1, file + (c as int - 48), cells);
        } else if file < 8 {
            match fen_piece(c) {
                Some(p) => lemma_cells_shift(pre, rest, j + 1, file + 1, cells.update(file, Some(p))),
                None => {},
            }
        }
    }
}

/// A rank's FEN text is made of digits and piece letters.
proof fn lemma_rank_text(m: PositionModel, rank: int, file: int, run: int)
    requires
        0 <= run <= file <= 8,
    ensures
        forall|i: int|
            0 <= i < fen_rank_from(m, rank, file, run).len() ==> rank_char_ok(
                #[trigger] fen_rank_from(m, rank, file, run)[i],
            ),
    decreases 8 - file,
{
    if run > 0 {
        assert('0' <= digit_char(run) <= '9');
    }
    if file >= 8 && run > 0 {
        assert(fen_rank_from(m, rank, file, run) == seq![digit_char(run)]);
        assert(rank_char_ok(fen_rank_from(m, rank, file, run)[0]));
    }
    if file < 8 {
        match m.board[rank * 8 + file] {
            None => {
                lemma_rank_text(m, rank, file + 1, run + 1);
                assert(fen_rank_from(m, rank, file, run) == fen_rank_from(m, rank, file + 1, run + 1));
            },
            Some(p) => {
                lemma_rank_text(m, rank, file + 1, 0);
                lemma_letter_reads(p);
                let head = if run > 0 {
                    seq![digit_char(run)]
                } else {
                    Seq::<char>::empty()
                };
                let rest = fen_rank_from(m, rank, file + 1, 0);
                let text = fen_rank_from(m, rank, file, run);
                assert(text == head + seq![fen_letter(p)] + rest);
                assert forall|i: int| 0 <= i < text.len() implies rank_char_ok(#[trigger] text[i]) by {
                    if i >= head.len() + 1 {
                        assert(text[i] == rest[i - head.len() - 1]);
                    } else if i < head.len() {
                        assert(text[i] == digit_char(run));
                    }
                }
            },
        }
    }
}

/// A rank's FEN text reads back as the rank: with `file` squares written
/// and the last `run` of them a pending empty stretch, the reader that has
/// filled the squares before the stretch finishes with the whole row.
proof fn lemma_rank_reads(m: PositionModel, rank: int, file: int, run: int, cells: Seq<Option<Piece>>)
    requires
        0 <= rank < 8,
        0 <= run <= file <= 8,
        cells.len() == 8,
        forall|f: int| 0 <= f < file - run ==> cells[f] == #[trigger] board_row(m, rank)[f],
        forall|f: int| file - run <= f < 8 ==> cells[f] is None,
        forall|f: int| file - run <= f < file ==> #[trigger] board_row(m, rank)[f] is None,
    ensures
        rank_cells_from(fen_rank_from(m, rank, file, run), 0, file - run, cells) == Some(
            board_row(m, rank),
        ),
    decreases 8 - file,
{
    let text = fen_rank_from(m, rank, file, run);
    if file >= 8 {
        if run > 0 {
            assert(text == seq![digit_char(run)]);
            assert(rank_cells_from(text, 1, 8, cells) == Some(cells));
        }
        assert(cells =~= board_row(m, rank));
    } else {
        match m.board[rank * 8 + file] {
            None => {
                lemma_rank_reads(m, rank, file + 1, run + 1, cells);
            },
            Some(p) => {
                lemma_letter_reads(p);
                let head = if run > 0 {
                    seq![digit_char(run)]
                } else {
                    Seq::<char>::empty()
                };
                let lead = head + seq![fen_letter(p)];
                let rest = fen_rank_from(m, rank, file + 1, 0);
                let cells2 = cells.update(file, Some(p));
                assert(text == lead + rest);
                lemma_rank_reads(m, rank, file + 1, 0, cells2);
                lemma_cells_shift(lead, rest, 0, file + 1, cells2);
                assert(text[head.len() as int] == fen_letter(p));
                assert(rank_cells_from(text, head.len() as int, file, cells) == rank_cells_from(
                    text,
                    lead.len() as int,
                    file + 1,
                    cells2,
                ));
                if run > 0 {
                    assert(text[0] == digit_char(run));
                    assert(rank_cells_from(text, 0, file - run, cells) == rank_cells_from(
                        text,
                        1,
                        file,
                        cells,
                    ));
                }
            },
        }
    }
}

/// The board field splits at `/` into its ranks, rank 8 first.
proof fn lemma_ranks_split(m: PositionModel, k: int)
    requires
        1 <= k <= 8,
    ensures
        split_on(fen_ranks(m, k), '/') == Seq::new(k as nat, |r: int| fen_rank_from(m, 7 - r, 0, 0)),
    decreases k,
{
    let last = fen_rank_from(m, 8 - k, 0, 0);
    lemma_rank_text(m, 8 - k, 0, 0);
    assert(!last.contains('/')) by {
        if last.contains('/') {
            let i = choose|i: int| 0 <= i < last.len() && last[i] == '/';
            assert(rank_char_ok(last[i]));
        }
    }
    if k == 1 {
        lemma_split_piece(Seq::<char>::empty(), last, '/');
        assert(Seq::<char>::empty() + last =~= last);
        assert(Seq::<char>::empty() + last =~= last);
    } else {
        lemma_ranks_split(m, k - 1);
        let before = fen_ranks(m, k - 1);
        lemma_split_sep(before, '/');
        lemma_split_piece(before.push('/'), last, '/');
        assert(fen_ranks(m, k) == before.push('/') + last);
        assert(Seq::<char>::empty() + last =~= last);
    }
    assert(split_on(fen_ranks(m, k), '/') =~= Seq::new(
        k as nat,
        |r: int| fen_rank_from(m, 7 - r, 0, 0),
    ));
}

/// The castling field reads back as the rights.
proof fn lemma_castling_reads(r: Rights)
    ensures
        castling_from(castling_field(r)) == Some(r),
        castling_field(r).len() > 0,
        no_space(castling_field(r)),
{
    let none = Rights { white_king: false, white_queen: false, black_king: false, black_queen: false };
    let f1 = if r.white_king {
        seq!['K']
    } else {
        Seq::<char>::empty()
    };
    let f2 = f1 + if r.white_queen {
        seq!['Q']
    } else {
        Seq::<char>::empty()
    };
    let f3 = f2 + if r.black_king {
        seq!['k']
    } else {
        Seq::<char>::empty()
    };
    let f4 = f3 + if r.black_queen {
        seq!['q']
    } else {
        Seq::<char>::empty()
    };
    assert(rights_from(Seq::<char>::empty()) == Some(none));
    if r.white_king {
        assert(f1.drop_last() =~= Seq::<char>::empty());
    }
    assert(rights_from(f1) == Some(Rights { white_king: r.white_king, ..none }));
    if r.white_queen {
        assert(f2.drop_last() =~= f1);
    } else {
        assert(f2 =~= f1);
    }
    assert(rights_from(f2) == Some(
        Rights { white_king: r.white_king, white_queen: r.white_queen, ..none },
    ));
    if r.black_king {
        assert(f3.drop_last() =~= f2);
    } else {
        assert(f3 =~= f2);
    }
    assert(rights_from(f3) == Some(
        Rights { white_king: r.white_king, white_queen: r.white_queen, black_king: r.black_king, ..none },
    ));
    if r.black_queen {
        assert(f4.drop_last() =~= f3);
    } else {
        assert(f4 =~= f3);
    }
    assert(rights_from(f4) == Some(r));
    assert(castling_field(r) == if f4.len() == 0 {
        seq!['-']
    } else {
        f4
    });
    if f4.len() > 0 {
        assert(f4 != seq!['-']) by {
            assert(f4.last() != '-');
        }
    } else {
        assert(r == none);
    }
    assert forall|i: int| 0 <= i < castling_field(r).len() implies !is_space(
        #[trigger] castling_field(r)[i],
    ) by {
        if f4.len() > 0 {
            let c = f4[i];
            assert(c == 'K' || c == 'Q' || c == 'k' || c == 'q') by {
                if i < f1.len() {
                    assert(c == f1[i]);
                } else if i < f2.len() {
                    assert(c == f2[i]);
                } else if i < f3.len() {
                    assert(c == f3[i]);
                }
            }
        }
    }
}

/// The passant field of FEN: the square's name, or `-`.
pub open spec fn passant_field(m: PositionModel) -> Seq<char> {
    match m.passant {
        Some(square) => square_name(square),
        None => seq!['-'],
    }
}

/// The side-to-move field of FEN.
pub open spec fn turn_field(m: PositionModel) -> Seq<char> {
    seq![if m.turn == Color::White { 'w' } else { 'b' }]
}

/// FEN text is its six fields, a space between each.
proof fn lemma_fen_text(m: PositionModel, halfmove: nat, fullmove: nat)
    ensures
        fen_spec(m, halfmove, fullmove) == fen_ranks(m, 8).push(' ') + turn_field(m) + seq![' ']
            + castling_field(m.rights) + seq![' '] + passant_field(m) + seq![' '] + decimal(halfmove)
            + seq![' '] + decimal(fullmove),
{
    assert(fen_spec(m, halfmove, fullmove) =~= fen_ranks(m, 8).push(' ') + turn_field(m) + seq![' ']
        + castling_field(m.rights) + seq![' '] + passant_field(m) + seq![' '] + decimal(halfmove)
        + seq![' '] + decimal(fullmove));
}

/// The board field is a word.
proof fn lemma_board_word(m: PositionModel)
    ensures
        fen_ranks(m, 8).len() > 0,
        no_space(fen_ranks(m, 8)),
{
    let board = fen_ranks(m, 8);
    lemma_board_chars(m, 8);
    assert forall|i: int| 0 <= i < board.len() implies !is_space(#[trigger] board[i]) by {
        assert(rank_char_ok(board[i]) || board[i] == '/');
    }
}

/// The passant field is a word.
proof fn lemma_passant_word(m: PositionModel)
    ensures
        passant_field(m).len() > 0,
        no_space(passant_field(m)),
{
    match m.passant {
        Some(square) => {
            lemma_name_reads(square);
        },
        None => {},
    }
}

/// The six fields of a FEN text are its words.
proof fn lemma_fen_fields(m: PositionModel, halfmove: nat, fullmove: nat)
    ensures
        words(fen_spec(m, halfmove, fullmove)) == seq![
            fen_ranks(m, 8),
            turn_field(m),
            castling_field(m.rights),
            passant_field(m),
            decimal(halfmove),
            decimal(fullmove),
        ],
{
    lemma_board_word(m);
    assert(turn_field(m).len() > 0 && no_space(turn_field(m)));
    lemma_castling_reads(m.rights);
    lemma_passant_word(m);
    lemma_decimal_digits(halfmove);
    lemma_decimal_digits(fullmove);
    assert(no_space(decimal(halfmove)));
    assert(no_space(decimal(fullmove)));
    lemma_six_words(
        fen_ranks(m, 8),
        turn_field(m),
        castling_field(m.rights),
        passant_field(m),
        decimal(halfmove),
        decimal(fullmove),
    );
    lemma_fen_text(m, halfmove, fullmove);
}

/// Six words written with a space between each are read back as those six.
proof fn lemma_six_words(
    a: Seq<char>,
    b: Seq<char>,
    c: Seq<char>,
    d: Seq<char>,
    e: Seq<char>,
    f: Seq<char>,
)
    requires
        a.len() > 0 && no_space(a),
        b.len() > 0 && no_space(b),
        c.len() > 0 && no_space(c),
        d.len() > 0 && no_space(d),
        e.len() > 0 && no_space(e),
        f.len() > 0 && no_space(f),
    ensures
        words(a.push(' ') + b + seq![' '] + c + seq![' '] + d + seq![' '] + e + seq![' '] + f) == seq![
            a,
            b,
            c,
            d,
            e,
            f,
        ],
{
    let t2 = a.push(' ') + b;
    let t3 = t2.push(' ') + c;
    let t4 = t3.push(' ') + d;
    let t5 = t4.push(' ') + e;
    let t6 = t5.push(' ') + f;
    assert(a.push(' ') + b + seq![' '] + c + seq![' '] + d + seq![' '] + e + seq![' '] + f =~= t6);
    let empty = Seq::<char>::empty();
    assert(empty + a =~= a);
    lemma_scan_word(empty, a);
    lemma_scan_space(a, ' ');
    lemma_scan_word(a.push(' '), b);
    lemma_scan_space(t2, ' ');
    lemma_scan_word(t2.push(' '), c);
    lemma_scan_space(t3, ' ');
    lemma_scan_word(t3.push(' '), d);
    lemma_scan_space(t4, ' ');
    lemma_scan_word(t4.push(' '), e);
    lemma_scan_space(t5, ' ');
    lemma_scan_word(t5.push(' '), f);
    assert(words(t6) =~= seq![a, b, c, d, e, f]);
}

/// The board field reads back as the board.
proof fn lemma_board_reads(m: PositionModel)
    requires
        m.board.len() == 64,
    ensures
        ranks_readable(split_on(fen_ranks(m, 8), '/')),
        board_of(split_on(fen_ranks(m, 8), '/')) == m.board,
{
    lemma_ranks_split(m, 8);
    let ranks = split_on(fen_ranks(m, 8), '/');
    let blank = Seq::new(8, |j: int| None::<Piece>);
    assert forall|r: int| 0 <= r < 8 implies #[trigger] rank_cells(ranks[r]) == Some(
        board_row(m, 7 - r),
    ) by {
        lemma_rank_reads(m, 7 - r, 0, 0, blank);
        assert(ranks[r] == fen_rank_from(m, 7 - r, 0, 0));
    }
    assert forall|i: int| 0 <= i < 64 implies #[trigger] board_of(ranks)[i] == m.board[i] by {
        let r = 7 - i / 8;
        assert(rank_cells(ranks[r]) == Some(board_row(m, i / 8)));
        assert((i / 8) * 8 + i % 8 == i);
    }
    assert(board_of(ranks) =~= m.board);
}

/// FEN in reads FEN out: a position written as FEN, with any counters,
/// reads back as the same position.
pub proof fn lemma_fen_round_trip(p: Position, halfmove: nat, fullmove: nat)
    ensures
        spec_from_fen(fen_spec(p@, halfmove, fullmove)) == Some(p@),
{
    let m = p@;
    lemma_board_len(p);
    lemma_fen_fields(m, halfmove, fullmove);
    lemma_board_reads(m);
    lemma_castling_reads(m.rights);
    let fields = words(fen_spec(m, halfmove, fullmove));
    if m.turn == Color::Black {
        assert(fields[1][0] == 'b');
    }
    assert(fields[0] == fen_ranks(m, 8));
    assert(fields[1] == turn_field(m));
    assert(fields[2] == castling_field(m.rights));
    assert(fields[3] == passant_field(m));
    assert(fields.len() == 6);
    match m.passant {
        Some(square) => {
            lemma_name_reads(square);
            assert(square_name(square) != seq!['-']);
        },
        None => {},
    }
}

/// The board field's text: nonempty, made of rank characters and `/`.
proof fn lemma_board_chars(m: PositionModel, k: int)
    requires
        1 <= k <= 8,
    ensures
        fen_ranks(m, k).len() > 0,
        forall|i: int| 0 <= i < fen_ranks(m, k).len() ==> rank_char_ok(#[trigger] fen_ranks(m, k)[i]) || fen_ranks(m, k)[i] == '/',
    decreases k,
{
    lemma_rank_text(m, 8 - k, 0, 0);
    assert(fen_rank_from(m, 8 - k, 0, 0).len() > 0) by {
        reveal_with_fuel(fen_rank_from, 2);
        lemma_rank_nonempty(m, 8 - k, 0, 0);
    }
    if k > 1 {
        lemma_board_chars(m, k - 1);
        let before = fen_ranks(m, k - 1);
        let last = fen_rank_from(m, 8 - k, 0, 0);
        assert forall|i: int| 0 <= i < fen_ranks(m, k).len() implies rank_char_ok(#[trigger] fen_ranks(m, k)[i]) || fen_ranks(m, k)[i] == '/' by {
            if i > before.len() {
                assert(fen_ranks(m, k)[i] == last[i - before.len() - 1]);
            } else if i < before.len() {
                assert(fen_ranks(m, k)[i] == before[i]);
            }
        }
    }
}

/// Every rank writes at least one character.
proof fn lemma_rank_nonempty(m: PositionModel, rank: int, file: int, run: int)
    requires
        0 <= run <= file <= 8,
        file < 8 || run > 0,
    ensures
        fen_rank_from(m, rank, file, run).len() > 0,
    decreases 8 - file,
{
    if file < 8 {
        match m.board[rank * 8 + file] {
            None => lemma_rank_nonempty(m, rank, file + 1, run + 1),
            Some(p) => {},
        }
    }
}

} // verus!
