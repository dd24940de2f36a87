//! SAN — Standard Algebraic Notation, resolved rather than interpreted.
//!
//! "Nf3" is a *description*, not an instruction: parsing yields a [`San`],
//! and resolution filters the legal actions down to the one action the
//! description admits. SAN therefore inherits every legality rule the
//! reducer enforces — disambiguation included.

use std::str::FromStr;

use vstd::prelude::*;

use crate::action::Action;
use crate::piece::{Color, Piece, Role, Wing};
use crate::position::Position;
use crate::reduce::{has_legal_action, legal_actions, reduce, res, threatened_king_exec, Rejected, Rejection};
use crate::rules::{
    castle_king_file, castle_wing, home_rank, is_in_check, king_home, legal_actions_spec, piece_on,
    reduce_spec, PositionModel,
};
use crate::square::{
    file_char, file_from_char, rank_char, rank_from_char, spec_parse_square, square_at, square_name,
    Square,
};
use crate::text::{
    chars_of, find_char, index_of, push_all, remove_char, slice_chars, string_of, trim_end_chars,
    trim_end_set, without_char,
};

verus! {

/// What a SAN string asserts about the move it names. The variants mirror
/// `Action`'s — `Move` and `Promote` — plus `Castle`, which desugars to
/// the king's two-square move.
#[derive(Copy, Clone, PartialEq, Eq, Structural, Debug)]
pub enum San {
    /// `O-O`, `O-O-O`
    Castle(Wing),
    /// `e4`, `Nf3`, `Nbd2`, `Rxe5`
    Move { role: Role, origin: Origin, to: Square },
    /// `e8=Q`, `exd8=N`
    Promote { origin: Origin, to: Square, into: Role },
}

/// Where the mover comes from — as much as the text cares to say.
#[derive(Copy, Clone, PartialEq, Eq, Structural, Debug)]
pub enum Origin {
    /// `Nf3`
    Anywhere,
    /// `Nbd2` — the b-knight
    File(u8),
    /// `R1e2` — the first-rank rook
    Rank(u8),
    /// `Qh4e1` — fully spelled out
    Square(Square),
}

/// Whether `origin` admits a mover standing on `from`.
pub open spec fn admits(origin: Origin, from: Square) -> bool {
    match origin {
        Origin::Anywhere => true,
        Origin::File(file) => from.file_of() == file,
        Origin::Rank(rank) => from.rank_of() == rank,
        Origin::Square(square) => from == square,
    }
}

/// The characters check, mate and annotations may end a SAN with.
pub open spec fn san_suffixes() -> Seq<char> {
    seq!['+', '#', '!', '?']
}

/// The role a piece letter names (`K`, `Q`, `R`, `B`, `N`).
pub open spec fn role_of_letter(c: char) -> Option<Role> {
    if c == 'K' {
        Some(Role::King)
    } else if c == 'Q' {
        Some(Role::Queen)
    } else if c == 'R' {
        Some(Role::Rook)
    } else if c == 'B' {
        Some(Role::Bishop)
    } else if c == 'N' {
        Some(Role::Knight)
    } else {
        None
    }
}

/// The role a promotion suffix names: exactly one of `Q`, `R`, `B`, `N`.
pub open spec fn promotion_of(text: Seq<char>) -> Option<Role> {
    if text.len() == 1 && text[0] != 'K' {
        role_of_letter(text[0])
    } else {
        None
    }
}

/// The origin the characters before the target square describe.
pub open spec fn origin_of(text: Seq<char>) -> Option<Origin> {
    if text.len() == 0 {
        Some(Origin::Anywhere)
    } else if text.len() == 1 {
        if file_from_char(text[0]) is Some {
            Some(Origin::File(file_from_char(text[0])->0 as u8))
        } else if rank_from_char(text[0]) is Some {
            Some(Origin::Rank(rank_from_char(text[0])->0 as u8))
        } else {
            None
        }
    } else if text.len() == 2 && file_from_char(text[0]) is Some && rank_from_char(text[1]) is Some {
        Some(Origin::Square(square_at(file_from_char(text[0])->0, rank_from_char(text[1])->0)))
    } else {
        None
    }
}

/// `O-O` (or `0-0`).
pub open spec fn is_short_castle(text: Seq<char>) -> bool {
    text == seq!['O', '-', 'O'] || text == seq!['0', '-', '0']
}

/// `O-O-O` (or `0-0-0`).
pub open spec fn is_long_castle(text: Seq<char>) -> bool {
    text == seq!['O', '-', 'O', '-', 'O'] || text == seq!['0', '-', '0', '-', '0']
}

/// The move part of a SAN body (after the piece letter): captures marks
/// dropped, the last two characters name the target, what precedes them
/// the origin.
pub open spec fn san_move_part(body: Seq<char>) -> Option<(Origin, Square)> {
    let rest = without_char(body, 'x');
    if rest.len() < 2 {
        None
    } else {
        match (spec_parse_square(rest.subrange(rest.len() - 2, rest.len() as int)), origin_of(
            rest.subrange(0, rest.len() - 2),
        )) {
            (Some(to), Some(origin)) => Some((origin, to)),
            _ => None,
        }
    }
}

/// SAN as read: check, mate and annotation marks are tolerated (the writer's
/// claims, not needed to resolve); `O-O`/`O-O-O` castle; a leading piece
/// letter names the role (none is a pawn); `x` marks are ignored; the last
/// two characters are the target; what is left is the origin; `=Q` (R, B, N)
/// makes a pawn move a promotion.
pub open spec fn spec_parse_san(text: Seq<char>) -> Option<San> {
    let bare = trim_end_set(text, san_suffixes());
    if is_short_castle(bare) {
        Some(San::Castle(Wing::King))
    } else if is_long_castle(bare) {
        Some(San::Castle(Wing::Queen))
    } else {
        let (body, promotion) = match index_of(bare, '=') {
            Some(i) => (bare.subrange(0, i), Some(bare.subrange(i + 1, bare.len() as int))),
            None => (bare, None),
        };
        if promotion matches Some(suffix) && promotion_of(suffix) is None {
            None
        } else {
            let (role, rest) = if body.len() > 0 && role_of_letter(body[0]) is Some {
                (role_of_letter(body[0])->0, body.subrange(1, body.len() as int))
            } else {
                (Role::Pawn, body)
            };
            match san_move_part(rest) {
                None => None,
                Some((origin, to)) => match promotion {
                    Some(suffix) => if role == Role::Pawn {
                        Some(San::Promote { origin, to, into: promotion_of(suffix)->0 })
                    } else {
                        None
                    },
                    None => Some(San::Move { role, origin, to }),
                },
            }
        }
    }
}

/// Whether `action` is one the description `san` admits in `m`.
pub open spec fn san_admits(m: PositionModel, san: San, action: Action) -> bool {
    match san {
        San::Castle(_) => false,
        San::Move { role, origin, to } => match action {
            Action::Move { from, to: target } => target == to && admits(origin, from) && (piece_on(
                m,
                from,
            ) matches Some(p) && p.role == role),
            Action::Promote { .. } => false,
        },
        San::Promote { origin, to, into } => match action {
            Action::Promote { from, to: target, into: role } => target == to && role == into
                && admits(origin, from),
            Action::Move { .. } => false,
        },
    }
}

/// The actions of `actions` the description admits, in order.
pub open spec fn admitted(m: PositionModel, san: San, actions: Seq<Action>) -> Seq<Action>
    decreases actions.len(),
{
    if actions.len() == 0 {
        actions
    } else {
        let rest = admitted(m, san, actions.drop_last());
        if san_admits(m, san, actions.last()) {
            rest.push(actions.last())
        } else {
            rest
        }
    }
}

/// Resolution: castling desugars to the king's two-square move for the side
/// to move (legality is the reducer's business); any other description must
/// admit exactly one legal action — none is `NoMatch`, several are
/// `AmbiguousSan` with the candidates in legal-action order.
pub open spec fn spec_resolve(san: San, m: PositionModel) -> Result<Action, Rejection> {
    match san {
        San::Castle(wing) => Ok(
            Action::Move {
                from: square_at(4, home_rank(m.turn)),
                to: square_at(castle_king_file(wing), home_rank(m.turn)),
            },
        ),
        _ => {
            let found = admitted(m, san, legal_actions_spec(m));
            if found.len() == 1 {
                Ok(found[0])
            } else if found.len() == 0 {
                Err(Rejection::NoMatch { san })
            } else {
                Err(Rejection::AmbiguousSan { candidates: found })
            }
        },
    }
}

impl San {
    /// Reads SAN text such as `"Nbd2"`, `"exd8=Q+"` or `"O-O"`.
    pub fn parse(text: &str) -> (san: Option<San>)
        ensures
            san == spec_parse_san(text@),
    {
        let chars = chars_of(text);
        San::parse_chars(&chars)
    }

    pub(crate) fn parse_chars(chars: &Vec<char>) -> (san: Option<San>)
        ensures
            san == spec_parse_san(chars@),
    {
        let suffixes = vec!['+', '#', '!', '?'];
        assert(suffixes@ =~= san_suffixes());
        let bare = trim_end_chars(chars, &suffixes);
        let short1 = vec!['O', '-', 'O'];
        let short2 = vec!['0', '-', '0'];
        let long1 = vec!['O', '-', 'O', '-', 'O'];
        let long2 = vec!['0', '-', '0', '-', '0'];
        assert(short1@ =~= seq!['O', '-', 'O']);
        assert(short2@ =~= seq!['0', '-', '0']);
        assert(long1@ =~= seq!['O', '-', 'O', '-', 'O']);
        assert(long2@ =~= seq!['0', '-', '0', '-', '0']);
        if crate::text::chars_equal(&bare, &short1) || crate::text::chars_equal(&bare, &short2) {
            return Some(San::Castle(Wing::King));
        }
        if crate::text::chars_equal(&bare, &long1) || crate::text::chars_equal(&bare, &long2) {
            return Some(San::Castle(Wing::Queen));
        }
        let (body, promotion) = match find_char(&bare, '=') {
            Some(i) => {
                let suffix = slice_chars(&bare, i + 1, bare.len());
                let into = promotion_exec(&suffix);
                if into.is_none() {
                    return None;
                }
                (slice_chars(&bare, 0, i), into)
            },
            None => (bare, None),
        };
        let letter = if body.len() > 0 {
            role_of_letter_exec(body[0])
        } else {
            None
        };
        let (role, rest) = match letter {
            Some(role) => (role, slice_chars(&body, 1, body.len())),
            None => {
                assert(body@.len() > 0 ==> role_of_letter(body@[0]) is None);
                (Role::Pawn, body)
            },
        };
        let (origin, to) = match move_part(&rest) {
            Some(part) => part,
            None => {
                return None;
            },
        };
        match promotion {
            Some(into) => if role == Role::Pawn {
                Some(San::Promote { origin, to, into })
            } else {
                None
            },
            None => Some(San::Move { role, origin, to }),
        }
    }

    /// The unique legal action this notation names in `position`.
    pub fn resolve(self, position: Position) -> (action: Result<Action, Rejected>)
        ensures
            res(action) == spec_resolve(self, position@),
    {
        broadcast use crate::square::lemma_square_at;
        match self {
            San::Castle(wing) => {
                // Desugars directly: the king's two-square move for the
                // side to move. Legality is the reducer's business.
                let rank: u8 = match position.turn() {
                    Color::White => 0,
                    Color::Black => 7,
                };
                let file: u8 = match wing {
                    Wing::King => 6,
                    Wing::Queen => 2,
                };
                return Ok(Action::Move { from: Square::at(4, rank), to: Square::at(file, rank) });
            },
            _ => {},
        }
        let legal = legal_actions(position);
        let mut found: Vec<Action> = Vec::new();
        let mut i: usize = 0;
        while i < legal.len()
            invariant
                i <= legal.len(),
                found@ == admitted(position@, self, legal@.take(i as int)),
                !(self is Castle),
            decreases legal.len() - i,
        {
            assert(legal@.take(i + 1).drop_last() =~= legal@.take(i as int));
            if san_admits_exec(&position, self, legal[i]) {
                found.push(legal[i]);
            }
            i = i + 1;
        }
        assert(legal@.take(legal.len() as int) =~= legal@);
        if found.len() == 1 {
            Ok(found[0])
        } else if found.len() == 0 {
            Err(Rejected::NoMatch { san: self })
        } else {
            Err(Rejected::AmbiguousSan { candidates: found })
        }
    }
}

fn role_of_letter_exec(c: char) -> (role: Option<Role>)
    ensures
        role == role_of_letter(c),
{
    if c == 'K' {
        Some(Role::King)
    } else if c == 'Q' {
        Some(Role::Queen)
    } else if c == 'R' {
        Some(Role::Rook)
    } else if c == 'B' {
        Some(Role::Bishop)
    } else if c == 'N' {
        Some(Role::Knight)
    } else {
        None
    }
}

fn promotion_exec(text: &Vec<char>) -> (role: Option<Role>)
    ensures
        role == promotion_of(text@),
{
    if text.len() == 1 && text[0] != 'K' {
        role_of_letter_exec(text[0])
    } else {
        None
    }
}

fn origin_exec(text: &Vec<char>) -> (origin: Option<Origin>)
    ensures
        origin == origin_of(text@),
{
    if text.len() == 0 {
        Some(Origin::Anywhere)
    } else if text.len() == 1 {
        let c = text[0];
        if 'a' <= c && c <= 'h' {
            Some(Origin::File((c as u32 - 97) as u8))
        } else if '1' <= c && c <= '8' {
            Some(Origin::Rank((c as u32 - 49) as u8))
        } else {
            None
        }
    } else if text.len() == 2 {
        match Square::from_chars(text[0], text[1]) {
            Some(square) => Some(Origin::Square(square)),
            None => None,
        }
    } else {
        None
    }
}

fn move_part(body: &Vec<char>) -> (part: Option<(Origin, Square)>)
    ensures
        part == san_move_part(body@),
{
    let rest = remove_char(body, 'x');
    if rest.len() < 2 {
        return None;
    }
    let n = rest.len();
    let to = Square::from_chars(rest[n - 2], rest[n - 1]);
    assert(rest@.subrange(n - 2, n as int) =~= seq![rest@[n - 2], rest@[n - 1]]);
    let head = slice_chars(&rest, 0, n - 2);
    let origin = origin_exec(&head);
    match (to, origin) {
        (Some(to), Some(origin)) => Some((origin, to)),
        _ => None,
    }
}

fn san_admits_exec(position: &Position, san: San, action: Action) -> (ok: bool)
    ensures
        ok == san_admits(position@, san, action),
{
    match san {
        San::Castle(_) => false,
        San::Move { role, origin, to } => match action {
            Action::Move { from, to: target } => target == to && admits_exec(origin, from) && match position.at(
                from,
            ) {
                Some(piece) => piece.role == role,
                None => false,
            },
            Action::Promote { .. } => false,
        },
        San::Promote { origin, to, into } => match action {
            Action::Promote { from, to: target, into: role } => target == to && role == into
                && admits_exec(origin, from),
            Action::Move { .. } => false,
        },
    }
}

fn admits_exec(origin: Origin, from: Square) -> (ok: bool)
    ensures
        ok == admits(origin, from),
{
    match origin {
        Origin::Anywhere => true,
        Origin::File(file) => from.file() == file,
        Origin::Rank(rank) => from.rank() == rank,
        Origin::Square(square) => from == square,
    }
}

impl FromStr for San {
    type Err = Rejected;

    fn from_str(text: &str) -> (parsed: Result<San, Rejected>)
        ensures
            crate::reduce::res(parsed) == match spec_parse_san(text@) {
                Some(value) => Ok::<San, Rejection>(value),
                None => Err(Rejection::Unparseable(text@)),
            },
    {
        match San::parse(text) {
            Some(san) => Ok(san),
            None => Err(Rejected::Unparseable(text.to_string())),
        }
    }
}

} // verus!

verus! {

/// The letter SAN writes for a role.
pub open spec fn role_letter(role: Role) -> char {
    match role {
        Role::Pawn => 'P',
        Role::Knight => 'N',
        Role::Bishop => 'B',
        Role::Rook => 'R',
        Role::Queen => 'Q',
        Role::King => 'K',
    }
}

/// The Unicode figure of a piece.
pub open spec fn glyph(piece: Piece) -> char {
    match (piece.color, piece.role) {
        (Color::White, Role::King) => '♔',
        (Color::White, Role::Queen) => '♕',
        (Color::White, Role::Rook) => '♖',
        (Color::White, Role::Bishop) => '♗',
        (Color::White, Role::Knight) => '♘',
        (Color::White, Role::Pawn) => '♙',
        (Color::Black, Role::King) => '♚',
        (Color::Black, Role::Queen) => '♛',
        (Color::Black, Role::Rook) => '♜',
        (Color::Black, Role::Bishop) => '♝',
        (Color::Black, Role::Knight) => '♞',
        (Color::Black, Role::Pawn) => '♟',
    }
}

/// How a piece is marked in a score: its letter, or its figure.
pub open spec fn piece_mark(piece: Piece, figurine: bool) -> char {
    if figurine {
        glyph(piece)
    } else {
        role_letter(piece.role)
    }
}

/// Whether `a` is another piece of `role` moving to `to` — a rival the
/// notation must tell apart from the mover on `from`.
pub open spec fn is_rival(m: PositionModel, a: Action, from: Square, to: Square, role: Role) -> bool {
    a is Move && a.to_sq() == to && a.from_sq() != from && (piece_on(m, a.from_sq()) matches Some(
        p,
    ) && p.role == role)
}

/// The rivals among `actions`, in order.
pub open spec fn rivals(m: PositionModel, actions: Seq<Action>, from: Square, to: Square, role: Role) -> Seq<Action>
    decreases actions.len(),
{
    if actions.len() == 0 {
        actions
    } else {
        let rest = rivals(m, actions.drop_last(), from, to, role);
        if is_rival(m, actions.last(), from, to, role) {
            rest.push(actions.last())
        } else {
            rest
        }
    }
}

/// Minimal disambiguation: nothing when no other piece of the role can
/// reach the target; else the file when it tells them apart; else the
/// rank; else both.
pub open spec fn disambiguation(m: PositionModel, from: Square, to: Square, role: Role) -> Seq<char> {
    let found = rivals(m, legal_actions_spec(m), from, to, role);
    if found.len() == 0 {
        Seq::<char>::empty()
    } else if !(exists|i: int| 0 <= i < found.len() && #[trigger] found[i].from_sq().file_of() == from.file_of()) {
        seq![file_char(from.file_of())]
    } else if !(exists|i: int| 0 <= i < found.len() && #[trigger] found[i].from_sq().rank_of() == from.rank_of()) {
        seq![rank_char(from.rank_of())]
    } else {
        seq![file_char(from.file_of()), rank_char(from.rank_of())]
    }
}

/// The notation of an accepted action, before its check or mate mark:
/// castles as `O-O`/`O-O-O`; pawn moves as the target (a capture prefixed
/// by the pawn's file and `x`, a promotion followed by `=` and the new
/// piece); other moves as the piece, its disambiguation, `x` for a capture,
/// and the target.
pub open spec fn san_body(m: PositionModel, action: Action, figurine: bool) -> Seq<char> {
    let from = action.from_sq();
    let to = action.to_sq();
    let piece = piece_on(m, from)->0;
    if piece.role == Role::King && from == king_home(piece.color) && castle_wing(piece.color, to)
        is Some {
        if castle_wing(piece.color, to) == Some(Wing::King) {
            seq!['O', '-', 'O']
        } else {
            seq!['O', '-', 'O', '-', 'O']
        }
    } else if piece.role == Role::Pawn {
        let capture = if from.file_of() != to.file_of() {
            seq![file_char(from.file_of()), 'x']
        } else {
            Seq::<char>::empty()
        };
        let promotion = match action {
            Action::Promote { into, .. } => seq![
                '=',
                piece_mark(Piece { color: piece.color, role: into }, figurine),
            ],
            Action::Move { .. } => Seq::<char>::empty(),
        };
        capture + square_name(to) + promotion
    } else {
        let capture = if piece_on(m, to) is Some {
            seq!['x']
        } else {
            Seq::<char>::empty()
        };
        seq![piece_mark(piece, figurine)] + disambiguation(m, from, to, piece.role) + capture
            + square_name(to)
    }
}

/// `#` when the move mates, `+` when it checks, nothing otherwise.
pub open spec fn check_mark(after: PositionModel) -> Seq<char> {
    if is_in_check(after, after.turn) {
        if legal_actions_spec(after).len() == 0 {
            seq!['#']
        } else {
            seq!['+']
        }
    } else {
        Seq::<char>::empty()
    }
}

/// The SAN (or figurine notation) of `action` in `m`, with the check or
/// mate mark the reducer supplies; the reducer's rejection if it is not legal.
pub open spec fn spec_to_san(m: PositionModel, action: Action, figurine: bool) -> Result<Seq<char>, Rejection> {
    match reduce_spec(m, action) {
        Ok(after) => Ok(san_body(m, action, figurine) + check_mark(after)),
        Err(e) => Err(e),
    }
}

/// A text result, its string viewed as characters.
pub open spec fn text_result(r: Result<String, Rejected>) -> Result<Seq<char>, Rejection> {
    match r {
        Ok(text) => Ok(text@),
        Err(e) => Err(e@),
    }
}

/// A characters result, viewed as a sequence.
pub open spec fn chars_result(r: Result<Vec<char>, Rejected>) -> Result<Seq<char>, Rejection> {
    match r {
        Ok(chars) => Ok(chars@),
        Err(e) => Err(e@),
    }
}

fn role_letter_exec(role: Role) -> (c: char)
    ensures
        c == role_letter(role),
{
    match role {
        Role::Pawn => 'P',
        Role::Knight => 'N',
        Role::Bishop => 'B',
        Role::Rook => 'R',
        Role::Queen => 'Q',
        Role::King => 'K',
    }
}

/// The Unicode figure of a piece.
pub(crate) fn glyph_exec(piece: Piece) -> (c: char)
    ensures
        c == glyph(piece),
{
    match (piece.color, piece.role) {
        (Color::White, Role::King) => '♔',
        (Color::White, Role::Queen) => '♕',
        (Color::White, Role::Rook) => '♖',
        (Color::White, Role::Bishop) => '♗',
        (Color::White, Role::Knight) => '♘',
        (Color::White, Role::Pawn) => '♙',
        (Color::Black, Role::King) => '♚',
        (Color::Black, Role::Queen) => '♛',
        (Color::Black, Role::Rook) => '♜',
        (Color::Black, Role::Bishop) => '♝',
        (Color::Black, Role::Knight) => '♞',
        (Color::Black, Role::Pawn) => '♟',
    }
}

fn piece_mark_exec(piece: Piece, figurine: bool) -> (c: char)
    ensures
        c == piece_mark(piece, figurine),
{
    if figurine {
        glyph_exec(piece)
    } else {
        role_letter_exec(piece.role)
    }
}

fn disambiguation_exec(position: &Position, from: Square, to: Square, role: Role) -> (marks: Vec<char>)
    ensures
        marks@ == disambiguation(position@, from, to, role),
{
    let legal = legal_actions(*position);
    let mut found: Vec<Action> = Vec::new();
    let mut i: usize = 0;
    while i < legal.len()
        invariant
            i <= legal.len(),
            found@ == rivals(position@, legal@.take(i as int), from, to, role),
        decreases legal.len() - i,
    {
        assert(legal@.take(i + 1).drop_last() =~= legal@.take(i as int));
        let a = legal[i];
        let rival = match a {
            Action::Move { from: other, to: target } => target == to && other != from && match position.at(other) {
                Some(p) => p.role == role,
                None => false,
            },
            Action::Promote { .. } => false,
        };
        if rival {
            found.push(a);
        }
        i = i + 1;
    }
    assert(legal@.take(legal.len() as int) =~= legal@);
    let mut marks: Vec<char> = Vec::new();
    if found.len() == 0 {
        return marks;
    }
    let mut same_file = false;
    let mut same_rank = false;
    let mut j: usize = 0;
    while j < found.len()
        invariant
            j <= found.len(),
            same_file == exists|k: int| 0 <= k < j && #[trigger] found@[k].from_sq().file_of() == from.file_of(),
            same_rank == exists|k: int| 0 <= k < j && #[trigger] found@[k].from_sq().rank_of() == from.rank_of(),
        decreases found.len() - j,
    {
        let other = match found[j] {
            Action::Move { from, .. } => from,
            Action::Promote { from, .. } => from,
        };
        assert(found@[j as int].from_sq() == other);
        if other.file() == from.file() {
            same_file = true;
        }
        if other.rank() == from.rank() {
            same_rank = true;
        }
        j = j + 1;
    }
    proof {
        crate::square::lemma_square_valid(from);
    }
    let file = (from.file() + 97) as char;
    let rank = (from.rank() + 49) as char;
    if !same_file {
        marks.push(file);
    } else if !same_rank {
        marks.push(rank);
    } else {
        marks.push(file);
        marks.push(rank);
    }
    assert(marks@ =~= disambiguation(position@, from, to, role));
    marks
}

/// The notation of `action` in `position`, as characters.
pub(crate) fn san_chars(position: Position, action: Action, figurine: bool) -> (text: Result<Vec<char>, Rejected>)
    ensures
        chars_result(text) == spec_to_san(position@, action, figurine),
{
    broadcast use crate::square::lemma_square_at;
    let after = match reduce(position, action) {
        Ok(after) => after,
        Err(e) => {
            return Err(e);
        },
    };
    let (from, to) = match action {
        Action::Move { from, to } => (from, to),
        Action::Promote { from, to, .. } => (from, to),
    };
    let piece = match position.at(from) {
        Some(piece) => piece,
        None => {
            // Unreachable: the reducer accepted a move from this square.
            return Err(Rejected::EmptySquare { from });
        },
    };
    let mut out: Vec<char> = Vec::new();
    let home = Square::at(4, if piece.color == Color::White {
        0
    } else {
        7
    });
    let castle = if piece.role == Role::King && from == home {
        castle_wing_of(piece.color, to)
    } else {
        None
    };
    if let Some(wing) = castle {
        out.push('O');
        out.push('-');
        out.push('O');
        if wing == Wing::Queen {
            out.push('-');
            out.push('O');
        }
    } else if piece.role == Role::Pawn {
        if from.file() != to.file() {
            out.push((from.file() + 97) as char);
            out.push('x');
        }
        to.write_name(&mut out);
        if let Action::Promote { into, .. } = action {
            out.push('=');
            out.push(piece_mark_exec(Piece { color: piece.color, role: into }, figurine));
        }
    } else {
        out.push(piece_mark_exec(piece, figurine));
        let marks = disambiguation_exec(&position, from, to, piece.role);
        push_all(&mut out, &marks);
        if position.at(to).is_some() {
            out.push('x');
        }
        to.write_name(&mut out);
    }
    assert(out@ =~= san_body(position@, action, figurine));
    let ghost body = out@;
    if threatened_king_exec(&after, after.turn()).is_some() {
        if has_legal_action(&after) {
            out.push('+');
        } else {
            out.push('#');
        }
    }
    assert(out@ =~= body + check_mark(after@));
    Ok(out)
}

fn castle_wing_of(color: Color, to: Square) -> (wing: Option<Wing>)
    ensures
        wing == castle_wing(color, to),
{
    let rank: u8 = match color {
        Color::White => 0,
        Color::Black => 7,
    };
    if to == Square::at(6, rank) {
        Some(Wing::King)
    } else if to == Square::at(2, rank) {
        Some(Wing::Queen)
    } else {
        None
    }
}

/// Standard Algebraic Notation for `action` in `position`, minimally
/// disambiguated, with `+` for check and `#` for mate; the reducer's
/// rejection when the action is not legal there.
pub fn to_san(position: Position, action: Action) -> (text: Result<String, Rejected>)
    ensures
        text_result(text) == spec_to_san(position@, action, false),
{
    match san_chars(position, action, false) {
        Ok(chars) => Ok(string_of(chars)),
        Err(e) => Err(e),
    }
}

/// Figurine algebraic notation: SAN with each piece letter replaced by the
/// mover's figure (`♘f3`, `♞xb8`).
pub fn to_figurine(position: Position, action: Action) -> (text: Result<String, Rejected>)
    ensures
        text_result(text) == spec_to_san(position@, action, true),
{
    match san_chars(position, action, true) {
        Ok(chars) => Ok(string_of(chars)),
        Err(e) => Err(e),
    }
}

} // verus!
