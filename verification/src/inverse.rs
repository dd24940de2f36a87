//! Emission is resolution's inverse: the SAN written for a legal action
//! reads back as a description that resolves to that very action.

use vstd::prelude::*;

use crate::action::Action;
use crate::piece::{Piece, Role, Wing};
use crate::reduce::Rejection;
use crate::reduce::{lemma_legal_accepted, lemma_legal_distinct, well_listed};
use crate::action::{spec_parse_uci, spec_text_action};
use crate::rules::{
    candidates, castle_wing, expand_spec, is_in_check, keep_legal, king_home, legal_actions_spec,
    legal_at, legal_upto, pawn_reaches, piece_on, reduce_spec, PositionModel,
};
use crate::san::{
    admits, disambiguation, is_long_castle, is_short_castle, origin_of, promotion_of, rivals,
    role_letter, role_of_letter, san_body, san_move_part, san_suffixes, spec_parse_san,
    spec_to_san, check_mark, piece_mark, San, Origin, admitted, is_rival, san_admits, spec_resolve,
};
use crate::square::{
    file_char, file_from_char, lemma_name_reads, lemma_square_at, lemma_square_eq,
    lemma_square_valid, rank_char, rank_from_char, spec_parse_square, square_at, square_name,
    Square,
};
use crate::text::{all_chars, index_of, lemma_all_chars_join, trim_end_set, without_char};

verus! {

/// The characters naming files and ranks read back as the file and rank.
proof fn lemma_name_chars(file: int, rank: int)
    requires
        0 <= file < 8,
        0 <= rank < 8,
    ensures
        file_from_char(file_char(file)) == Some(file),
        rank_from_char(rank_char(rank)) == Some(rank),
        file_from_char(rank_char(rank)) is None,
        rank_from_char(file_char(file)) is None,
        role_of_letter(file_char(file)) is None,
        file_char(file) != 'x' && file_char(file) != '=' && file_char(file) != 'O' && file_char(file)
            != '0',
        rank_char(rank) != 'x' && rank_char(rank) != '=',
        !san_suffixes().contains(rank_char(rank)),
{
    assert(!san_suffixes().contains(rank_char(rank))) by {
        if san_suffixes().contains(rank_char(rank)) {
            let i = choose|i: int| 0 <= i < 4 && san_suffixes()[i] == rank_char(rank);
        }
    }
}

/// A square's name reads back as the square, and holds no `x` or `=`.
proof fn lemma_name_parses(s: Square)
    ensures
        spec_parse_square(square_name(s)) == Some(s),
        square_name(s).len() == 2,
        !square_name(s).contains('x'),
        !square_name(s).contains('='),
{
    lemma_name_reads(s);
    let n = square_name(s);
    assert(!n.contains('x')) by {
        if n.contains('x') {
            let i = choose|i: int| 0 <= i < n.len() && n[i] == 'x';
        }
    }
    assert(!n.contains('=')) by {
        if n.contains('=') {
            let i = choose|i: int| 0 <= i < n.len() && n[i] == '=';
        }
    }
}

/// Dropping a character that does not occur changes nothing.
proof fn lemma_without_absent(text: Seq<char>, c: char)
    requires
        !text.contains(c),
    ensures
        without_char(text, c) == text,
    decreases text.len(),
{
    if text.len() > 0 {
        assert(!text.drop_last().contains(c)) by {
            if text.drop_last().contains(c) {
                let i = choose|i: int| 0 <= i < text.drop_last().len() && text.drop_last()[i] == c;
                assert(text[i] == c);
            }
        }
        lemma_without_absent(text.drop_last(), c);
        assert(text.drop_last().push(text.last()) =~= text);
    }
}

/// Dropping a character from a concatenation drops it from both parts.
proof fn lemma_without_concat(a: Seq<char>, b: Seq<char>, c: char)
    ensures
        without_char(a + b, c) == without_char(a, c) + without_char(b, c),
    decreases b.len(),
{
    if b.len() == 0 {
        assert(a + b =~= a);
        assert(without_char(a, c) + without_char(b, c) =~= without_char(a, c));
    } else {
        lemma_without_concat(a, b.drop_last(), c);
        assert((a + b).drop_last() =~= a + b.drop_last());
        assert((a + b).last() == b.last());
        if b.last() != c {
            assert(without_char(a, c) + without_char(b.drop_last(), c).push(b.last()) =~= (
            without_char(a, c) + without_char(b.drop_last(), c)).push(b.last()));
        }
    }
}

/// The first occurrence of a character after a stretch that lacks it.
pub(crate) proof fn lemma_index_after(a: Seq<char>, b: Seq<char>, c: char)
    requires
        !a.contains(c),
        b.len() > 0,
        b[0] == c,
    ensures
        index_of(a + b, c) == Some(a.len() as int),
    decreases b.len(),
{
    if b.len() == 1 {
        assert((a + b).drop_last() =~= a);
        lemma_index_absent(a, c);
    } else {
        lemma_index_after(a, b.drop_last(), c);
        assert((a + b).drop_last() =~= a + b.drop_last());
    }
}

/// A character that does not occur has no index.
proof fn lemma_index_absent(a: Seq<char>, c: char)
    requires
        !a.contains(c),
    ensures
        index_of(a, c) is None,
    decreases a.len(),
{
    if a.len() > 0 {
        assert(!a.drop_last().contains(c)) by {
            if a.drop_last().contains(c) {
                let i = choose|i: int| 0 <= i < a.drop_last().len() && a.drop_last()[i] == c;
                assert(a[i] == c);
            }
        }
        lemma_index_absent(a.drop_last(), c);
    }
}

/// Trailing check and mate marks come off, and nothing more.
proof fn lemma_trim_mark(body: Seq<char>, mark: Seq<char>)
    requires
        body.len() > 0,
        !san_suffixes().contains(body.last()),
        mark == Seq::<char>::empty() || mark == seq!['+'] || mark == seq!['#'],
    ensures
        trim_end_set(body + mark, san_suffixes()) == body,
{
    assert(trim_end_set(body, san_suffixes()) == body);
    if mark.len() == 0 {
        assert(body + mark =~= body);
    } else {
        assert((body + mark).drop_last() =~= body);
        assert((body + mark).last() == mark[0]);
        assert(san_suffixes().contains(mark[0])) by {
            if mark[0] == '+' {
                assert(san_suffixes()[0] == '+');
            } else {
                assert(san_suffixes()[1] == '#');
            }
        }
    }
}


/// The origin SAN writes for a piece of `role` going from `from` to `to`:
/// nothing when no rival can reach the target; else the file when it tells
/// them apart; else the rank; else the whole square.
pub open spec fn written_origin(m: PositionModel, from: Square, to: Square, role: Role) -> Origin {
    let found = rivals(m, legal_actions_spec(m), from, to, role);
    if found.len() == 0 {
        Origin::Anywhere
    } else if !(exists|i: int| 0 <= i < found.len() && #[trigger] found[i].from_sq().file_of() == from.file_of()) {
        Origin::File(from.file_of() as u8)
    } else if !(exists|i: int| 0 <= i < found.len() && #[trigger] found[i].from_sq().rank_of() == from.rank_of()) {
        Origin::Rank(from.rank_of() as u8)
    } else {
        Origin::Square(from)
    }
}

/// Whether `a` is a castle: the king's two-square move from home.
pub open spec fn is_castle(m: PositionModel, a: Action) -> bool {
    let piece = piece_on(m, a.from_sq())->0;
    piece.role == Role::King && a.from_sq() == king_home(piece.color) && castle_wing(
        piece.color,
        a.to_sq(),
    ) is Some
}

/// The description SAN writes for action `a` in `m`.
pub open spec fn written_san(m: PositionModel, a: Action) -> San {
    let from = a.from_sq();
    let to = a.to_sq();
    let piece = piece_on(m, from)->0;
    if is_castle(m, a) {
        San::Castle(castle_wing(piece.color, to)->0)
    } else if piece.role == Role::Pawn {
        let origin = if from.file_of() != to.file_of() {
            Origin::File(from.file_of() as u8)
        } else {
            Origin::Anywhere
        };
        match a {
            Action::Promote { into, .. } => San::Promote { origin, to, into },
            Action::Move { .. } => San::Move { role: Role::Pawn, origin, to },
        }
    } else {
        San::Move { role: piece.role, origin: written_origin(m, from, to, piece.role), to }
    }
}

/// The characters before a target square never hold `x` once captures are
/// dropped, nor `=`; a file or rank character reads as its origin.
proof fn lemma_origin_text(m: PositionModel, from: Square, to: Square, role: Role)
    ensures
        !disambiguation(m, from, to, role).contains('x'),
        !disambiguation(m, from, to, role).contains('='),
        origin_of(disambiguation(m, from, to, role)) == Some(written_origin(m, from, to, role)),
{
    lemma_square_valid(from);
    lemma_name_chars(from.file_of(), from.rank_of());
    lemma_square_at(from.file_of(), from.rank_of());
    lemma_square_eq(from, square_at(from.file_of(), from.rank_of()));
    let d = disambiguation(m, from, to, role);
    assert(!d.contains('x')) by {
        if d.contains('x') {
            let i = choose|i: int| 0 <= i < d.len() && d[i] == 'x';
        }
    }
    assert(!d.contains('=')) by {
        if d.contains('=') {
            let i = choose|i: int| 0 <= i < d.len() && d[i] == '=';
        }
    }
}

/// A role's letter names the role again — for every role but the pawn.
proof fn lemma_letter_role(role: Role)
    requires
        role != Role::Pawn,
    ensures
        role_of_letter(role_letter(role)) == Some(role),
        role_letter(role) != 'O' && role_letter(role) != '0' && role_letter(role) != '='
            && role_letter(role) != 'x',
        role != Role::King ==> promotion_of(seq![role_letter(role)]) == Some(role),
        !san_suffixes().contains(role_letter(role)),
{
    assert(!san_suffixes().contains(role_letter(role))) by {
        if san_suffixes().contains(role_letter(role)) {
            let i = choose|i: int| 0 <= i < 4 && san_suffixes()[i] == role_letter(role);
        }
    }
}


/// A check or mate mark, or none.
pub open spec fn is_mark(mark: Seq<char>) -> bool {
    mark == Seq::<char>::empty() || mark == seq!['+'] || mark == seq!['#']
}

proof fn lemma_check_mark(after: PositionModel)
    ensures
        is_mark(check_mark(after)),
{
}

/// What a pawn's SAN reads back as.
proof fn lemma_parse_pawn(m: PositionModel, a: Action, mark: Seq<char>)
    requires
        !is_castle(m, a),
        piece_on(m, a.from_sq()) matches Some(p) && p.role == Role::Pawn,
        a matches Action::Promote { into, .. } ==> into != Role::Pawn && into != Role::King,
        is_mark(mark),
    ensures
        spec_parse_san(san_body(m, a, false) + mark) == Some(written_san(m, a)),
{
    let from = a.from_sq();
    let to = a.to_sq();
    let piece = piece_on(m, from)->0;
    lemma_square_valid(from);
    lemma_square_valid(to);
    lemma_name_chars(from.file_of(), from.rank_of());
    lemma_name_chars(to.file_of(), to.rank_of());
    lemma_name_parses(to);
    let name = square_name(to);
    let capture = if from.file_of() != to.file_of() {
        seq![file_char(from.file_of()), 'x']
    } else {
        Seq::<char>::empty()
    };
    let x = capture + name;
    let promotion = match a {
        Action::Promote { into, .. } => seq!['=', piece_mark(Piece { color: piece.color, role: into }, false)],
        Action::Move { .. } => Seq::<char>::empty(),
    };
    let body = san_body(m, a, false);
    assert(body == x + promotion);
    assert(!capture.contains('=')) by {
        if capture.contains('=') {
            let i = choose|i: int| 0 <= i < capture.len() && capture[i] == '=';
        }
    }
    assert(!x.contains('=')) by {
        if x.contains('=') {
            let i = choose|i: int| 0 <= i < x.len() && x[i] == '=';
            if i < capture.len() {
                assert(capture[i] == '=');
            } else {
                assert(name[i - capture.len()] == '=');
            }
        }
    }
    assert(x[0] == file_char(from.file_of()) || x[0] == file_char(to.file_of()));
    // the move part, captures dropped
    let stripped = if from.file_of() != to.file_of() {
        seq![file_char(from.file_of())]
    } else {
        Seq::<char>::empty()
    };
    lemma_without_concat(capture, name, 'x');
    lemma_without_absent(name, 'x');
    if from.file_of() != to.file_of() {
        lemma_without_concat(seq![file_char(from.file_of())], seq!['x'], 'x');
        assert(seq![file_char(from.file_of())] + seq!['x'] =~= capture);
        lemma_without_absent(seq![file_char(from.file_of())], 'x');
        assert(seq!['x'].drop_last() =~= Seq::<char>::empty());
        assert(seq!['x'].last() == 'x');
        assert(without_char(Seq::<char>::empty(), 'x') =~= Seq::<char>::empty());
        assert(without_char(seq!['x'], 'x') =~= Seq::<char>::empty());
        assert(without_char(Seq::<char>::empty(), 'x') =~= Seq::<char>::empty());
        assert(seq![file_char(from.file_of())] + Seq::<char>::empty() =~= seq![file_char(from.file_of())]);
    } else {
        assert(without_char(Seq::<char>::empty(), 'x') =~= Seq::<char>::empty());
    }
    let rest = without_char(x, 'x');
    assert(rest == stripped + name);
    assert(rest.subrange(rest.len() - 2, rest.len() as int) =~= name);
    assert(rest.subrange(0, rest.len() - 2) =~= stripped);
    assert(san_move_part(x) == Some((written_san_origin_pawn(from, to), to)));
    match a {
        Action::Promote { into, .. } => {
            lemma_letter_role(into);
            let letter = role_letter(into);
            assert(promotion == seq!['=', letter]);
            assert(body.last() == letter);
            lemma_trim_mark(body, mark);
            lemma_index_after(x, promotion, '=');
            assert(body.subrange(0, x.len() as int) =~= x);
            assert(body.subrange(x.len() as int + 1, body.len() as int) =~= seq![letter]);
            assert(!is_short_castle(body) && !is_long_castle(body)) by {
                assert(body.len() == 4 || body.len() == 6);
            }
        },
        Action::Move { .. } => {
            assert(promotion =~= Seq::<char>::empty());
            assert(body =~= x);
            lemma_trim_mark(body, mark);
            lemma_index_absent(x, '=');
            assert(!is_short_castle(body) && !is_long_castle(body)) by {
                assert(body.len() == 2 || body.len() == 4);
            }
        },
    }
}

/// The origin a pawn's SAN names: its file for a capture, else nothing.
pub open spec fn written_san_origin_pawn(from: Square, to: Square) -> Origin {
    if from.file_of() != to.file_of() {
        Origin::File(from.file_of() as u8)
    } else {
        Origin::Anywhere
    }
}


/// What a piece's SAN reads back as.
proof fn lemma_parse_piece(m: PositionModel, a: Action, mark: Seq<char>)
    requires
        !is_castle(m, a),
        piece_on(m, a.from_sq()) matches Some(p) && p.role != Role::Pawn,
        is_mark(mark),
    ensures
        spec_parse_san(san_body(m, a, false) + mark) == Some(written_san(m, a)),
{
    let from = a.from_sq();
    let to = a.to_sq();
    let piece = piece_on(m, from)->0;
    let role = piece.role;
    lemma_square_valid(to);
    lemma_name_chars(to.file_of(), to.rank_of());
    lemma_name_parses(to);
    lemma_letter_role(role);
    lemma_origin_text(m, from, to, role);
    let name = square_name(to);
    let dis = disambiguation(m, from, to, role);
    let capture = if piece_on(m, to) is Some {
        seq!['x']
    } else {
        Seq::<char>::empty()
    };
    let letter = role_letter(role);
    let body = san_body(m, a, false);
    assert(body == seq![letter] + dis + capture + name);
    assert(body.last() == name[1]);
    lemma_trim_mark(body, mark);
    assert(!body.contains('=')) by {
        if body.contains('=') {
            let i = choose|i: int| 0 <= i < body.len() && body[i] == '=';
            if i == 0 {
            } else if i < 1 + dis.len() {
                assert(dis[i - 1] == '=');
            } else if i < 1 + dis.len() + capture.len() {
                assert(capture[i - 1 - dis.len()] == '=');
            } else {
                assert(name[i - 1 - dis.len() - capture.len()] == '=');
            }
        }
    }
    lemma_index_absent(body, '=');
    assert(!is_short_castle(body) && !is_long_castle(body)) by {
        assert(body[0] == letter);
        if is_short_castle(body) {
            assert(body[0] == 'O' || body[0] == '0');
        }
        if is_long_castle(body) {
            assert(body[0] == 'O' || body[0] == '0');
        }
    }
    let rest = body.subrange(1, body.len() as int);
    assert(rest =~= dis + capture + name);
    lemma_without_concat(dis + capture, name, 'x');
    lemma_without_concat(dis, capture, 'x');
    lemma_without_absent(dis, 'x');
    lemma_without_absent(name, 'x');
    if capture.len() > 0 {
        assert(seq!['x'].drop_last() =~= Seq::<char>::empty());
        assert(seq!['x'].last() == 'x');
        assert(without_char(Seq::<char>::empty(), 'x') =~= Seq::<char>::empty());
        assert(without_char(seq!['x'], 'x') =~= Seq::<char>::empty());
    } else {
        assert(without_char(Seq::<char>::empty(), 'x') =~= Seq::<char>::empty());
    }
    let stripped = without_char(rest, 'x');
    assert(stripped =~= dis + name);
    assert(stripped.subrange(stripped.len() - 2, stripped.len() as int) =~= name);
    assert(stripped.subrange(0, stripped.len() - 2) =~= dis);
}

/// What a castle's SAN reads back as.
proof fn lemma_parse_castle(m: PositionModel, a: Action, mark: Seq<char>)
    requires
        is_castle(m, a),
        is_mark(mark),
    ensures
        spec_parse_san(san_body(m, a, false) + mark) == Some(written_san(m, a)),
{
    let piece = piece_on(m, a.from_sq())->0;
    let body = san_body(m, a, false);
    if castle_wing(piece.color, a.to_sq()) == Some(Wing::King) {
        assert(body == seq!['O', '-', 'O']);
    } else {
        assert(body == seq!['O', '-', 'O', '-', 'O']);
        assert(!is_short_castle(body));
    }
    assert(!san_suffixes().contains('O')) by {
        if san_suffixes().contains('O') {
            let i = choose|i: int| 0 <= i < 4 && san_suffixes()[i] == 'O';
        }
    }
    lemma_trim_mark(body, mark);
}

/// The SAN written for an accepted action reads back as its description.
pub proof fn lemma_written_parses(m: PositionModel, a: Action)
    requires
        reduce_spec(m, a) is Ok,
    ensures
        spec_parse_san(spec_to_san(m, a, false)->Ok_0) == Some(written_san(m, a)),
{
    let after = reduce_spec(m, a)->Ok_0;
    lemma_check_mark(after);
    let mark = check_mark(after);
    let from = a.from_sq();
    if is_castle(m, a) {
        lemma_parse_castle(m, a, mark);
    } else if piece_on(m, from)->0.role == Role::Pawn {
        lemma_parse_pawn(m, a, mark);
    } else {
        lemma_parse_piece(m, a, mark);
    }
}



/// Two actions of one kind: both moves, or both promotions into one role.
pub open spec fn same_kind(b: Action, a: Action) -> bool {
    match (b, a) {
        (Action::Move { .. }, Action::Move { .. }) => true,
        (Action::Promote { into: x, .. }, Action::Promote { into: y, .. }) => x == y,
        _ => false,
    }
}

/// The one spelling SAN cannot tell apart: a pawn's straight push onto
/// the en-passant square, when a pawn from another file may also take
/// there (as a move of the same kind). The square alone then names both.
pub open spec fn passant_rival(m: PositionModel, a: Action) -> bool {
    let legal = legal_actions_spec(m);
    &&& piece_on(m, a.from_sq()) matches Some(p) && p.role == Role::Pawn
    &&& a.from_sq().file_of() == a.to_sq().file_of()
    &&& m.passant == Some(a.to_sq())
    &&& exists|j: int|
        0 <= j < legal.len() && (#[trigger] legal[j]).to_sq() == a.to_sq()
            && legal[j].from_sq().file_of() != a.from_sq().file_of() && (piece_on(
            m,
            legal[j].from_sq(),
        ) matches Some(q) && q.role == Role::Pawn) && same_kind(legal[j], a)
}

/// What an accepted action says of its mover: it belongs to the side to
/// move, and a pawn goes where pawns go.
pub(crate) proof fn lemma_accepted_mover(m: PositionModel, b: Action)
    requires
        expand_spec(m, b) is Ok,
    ensures
        piece_on(m, b.from_sq()) is Some,
        piece_on(m, b.from_sq())->0.color == m.turn,
        piece_on(m, b.from_sq())->0.role == Role::Pawn ==> pawn_reaches(
            m,
            m.turn,
            b.from_sq(),
            b.to_sq(),
        ),
{
}

/// Nothing admitted, nothing found.
proof fn lemma_admitted_none(m: PositionModel, san: San, s: Seq<Action>)
    requires
        forall|j: int| 0 <= j < s.len() ==> !san_admits(m, san, #[trigger] s[j]),
    ensures
        admitted(m, san, s) == Seq::<Action>::empty(),
    decreases s.len(),
{
    if s.len() > 0 {
        lemma_admitted_none(m, san, s.drop_last());
        assert(s.last() == s[s.len() - 1]);
    }
}

/// When the description admits only `a`, listed once, `a` alone is found.
proof fn lemma_admitted_single(m: PositionModel, san: San, s: Seq<Action>, i: int)
    requires
        s.no_duplicates(),
        0 <= i < s.len(),
        san_admits(m, san, s[i]),
        forall|j: int| 0 <= j < s.len() && san_admits(m, san, #[trigger] s[j]) ==> s[j] == s[i],
    ensures
        admitted(m, san, s) == seq![s[i]],
    decreases s.len(),
{
    let rest = s.drop_last();
    if i == s.len() - 1 {
        assert forall|j: int| 0 <= j < rest.len() implies !san_admits(m, san, #[trigger] rest[j]) by {
            assert(rest[j] == s[j]);
        }
        lemma_admitted_none(m, san, rest);
        assert(Seq::<Action>::empty().push(s[i]) =~= seq![s[i]]);
    } else {
        assert(s.last() == s[s.len() - 1]);
        assert(!san_admits(m, san, s.last()));
        assert forall|j: int| 0 <= j < rest.len() && san_admits(m, san, #[trigger] rest[j]) implies rest[j]
            == rest[i] by {
            assert(rest[j] == s[j]);
        }
        lemma_admitted_single(m, san, rest, i);
    }
}

/// Each rival among `actions` is among the rivals found.
proof fn lemma_rival_found(m: PositionModel, s: Seq<Action>, from: Square, to: Square, role: Role, j: int)
    requires
        0 <= j < s.len(),
        is_rival(m, s[j], from, to, role),
    ensures
        exists|i: int| 0 <= i < rivals(m, s, from, to, role).len() && rivals(m, s, from, to, role)[i] == s[j],
    decreases s.len(),
{
    let rest = s.drop_last();
    let found = rivals(m, s, from, to, role);
    if j == s.len() - 1 {
        assert(found[found.len() - 1] == s[j]);
    } else {
        assert(rest[j] == s[j]);
        lemma_rival_found(m, rest, from, to, role, j);
        let i = choose|i: int| 0 <= i < rivals(m, rest, from, to, role).len() && rivals(m, rest, from, to, role)[i] == s[j];
        assert(found[i] == s[j]);
    }
}

/// Of the legal actions, the description written for `a` admits `a` alone
/// (castles aside, and the en-passant spelling SAN cannot tell apart).
proof fn lemma_only_written(m: PositionModel, i: int, j: int)
    requires
        0 <= i < legal_actions_spec(m).len(),
        0 <= j < legal_actions_spec(m).len(),
        !is_castle(m, legal_actions_spec(m)[i]),
        !passant_rival(m, legal_actions_spec(m)[i]),
        san_admits(m, written_san(m, legal_actions_spec(m)[i]), legal_actions_spec(m)[j]),
    ensures
        legal_actions_spec(m)[j] == legal_actions_spec(m)[i],
{
    let legal = legal_actions_spec(m);
    lemma_legal_distinct(m);
    let a = legal[i];
    let b = legal[j];
    assert(well_listed(m, a));
    assert(well_listed(m, b));
    lemma_accepted_mover(m, a);
    lemma_accepted_mover(m, b);
    let f = a.from_sq();
    let t = a.to_sq();
    let g = b.from_sq();
    lemma_square_valid(f);
    lemma_square_valid(t);
    lemma_square_valid(g);
    lemma_square_eq(g, f);
    let piece = piece_on(m, f)->0;
    assert(b.to_sq() == t);
    if piece.role == Role::Pawn {
        let q = piece_on(m, g)->0;
        assert(q.role == Role::Pawn);
        if f.file_of() != t.file_of() {
            assert(g.file_of() == f.file_of());
            assert(g.rank_of() == f.rank_of());
        } else {
            assert(piece_on(m, t) is None);
            if g.file_of() != t.file_of() {
                assert(m.passant == Some(t));
                assert(same_kind(b, a));
                assert(passant_rival(m, a));
            }
            let dir = crate::rules::pawn_dir(m.turn);
            if t.rank_of() - f.rank_of() == dir && t.rank_of() - g.rank_of() == 2 * dir {
                assert(g.idx() + 8 * dir == f.idx());
            }
            if t.rank_of() - g.rank_of() == dir && t.rank_of() - f.rank_of() == 2 * dir {
                assert(f.idx() + 8 * dir == g.idx());
            }
            assert(g.rank_of() == f.rank_of());
        }
        assert(g == f);
    } else {
        assert(a is Move);
        assert(b is Move);
        if g != f {
            assert(is_rival(m, b, f, t, piece.role));
            lemma_rival_found(m, legal, f, t, piece.role, j);
        }
        assert(g == f);
    }
}

/// Emission is resolution's inverse: the SAN written for a legal action
/// reads back as a description that resolves to that very action — all but
/// a pawn's push onto the en-passant square that another pawn may also
/// take, which SAN spells alike.
pub proof fn lemma_san_round_trip(m: PositionModel, i: int)
    requires
        0 <= i < legal_actions_spec(m).len(),
        !passant_rival(m, legal_actions_spec(m)[i]),
    ensures
        spec_to_san(m, legal_actions_spec(m)[i], false) is Ok,
        spec_parse_san(spec_to_san(m, legal_actions_spec(m)[i], false)->Ok_0) == Some(
            written_san(m, legal_actions_spec(m)[i]),
        ),
        spec_resolve(written_san(m, legal_actions_spec(m)[i]), m) == Ok::<Action, Rejection>(
            legal_actions_spec(m)[i],
        ),
{
    let legal = legal_actions_spec(m);
    let a = legal[i];
    lemma_legal_accepted(m, i);
    lemma_written_parses(m, a);
    lemma_legal_distinct(m);
    assert(well_listed(m, a));
    lemma_accepted_mover(m, a);
    let san = written_san(m, a);
    if is_castle(m, a) {
        assert(a is Move);
        let piece = piece_on(m, a.from_sq())->0;
        lemma_square_valid(a.to_sq());
        if castle_wing(piece.color, a.to_sq()) == Some(Wing::King) {
            assert(a.to_sq() == square_at(6, crate::rules::home_rank(m.turn)));
        } else {
            assert(a.to_sq() == square_at(2, crate::rules::home_rank(m.turn)));
        }
    } else {
        assert forall|j: int| 0 <= j < legal.len() && san_admits(m, san, #[trigger] legal[j]) implies legal[j]
            == legal[i] by {
            lemma_only_written(m, i, j);
        }
        assert(san_admits(m, san, a)) by {
            let f = a.from_sq();
            let t = a.to_sq();
            lemma_square_valid(f);
            lemma_square_valid(t);
        }
        lemma_admitted_single(m, san, legal, i);
    }
}

/// A kept action stays kept: the reducer's filter keeps what it accepts.
proof fn lemma_keep_legal_keeps(m: PositionModel, s: Seq<Action>, x: Action)
    requires
        s.contains(x),
        expand_spec(m, x) is Ok,
    ensures
        keep_legal(m, s).contains(x),
    decreases s.len(),
{
    let rest = s.drop_last();
    if s.last() == x {
        assert(keep_legal(m, s) == keep_legal(m, rest).push(x));
        assert(keep_legal(m, s)[keep_legal(m, rest).len() as int] == x);
    } else {
        let j = choose|j: int| 0 <= j < s.len() && s[j] == x;
        assert(j != s.len() - 1);
        assert(rest[j] == x);
        lemma_keep_legal_keeps(m, rest, x);
        let i = choose|i: int| 0 <= i < keep_legal(m, rest).len() && keep_legal(m, rest)[i] == x;
        assert(keep_legal(m, s)[i] == x);
    }
}

/// What one from–to pair lists is listed in full.
proof fn lemma_upto_holds(m: PositionModel, j: int, k: int, x: Action)
    requires
        0 <= j < k,
        legal_at(m, j).contains(x),
    ensures
        legal_upto(m, k).contains(x),
    decreases k,
{
    let before = legal_upto(m, k - 1);
    let more = legal_at(m, k - 1);
    assert(legal_upto(m, k) == before + more);
    if j == k - 1 {
        let i = choose|i: int| 0 <= i < more.len() && more[i] == x;
        assert(legal_upto(m, k)[before.len() + i] == x);
    } else {
        lemma_upto_holds(m, j, k - 1, x);
        let i = choose|i: int| 0 <= i < before.len() && before[i] == x;
        assert(legal_upto(m, k)[i] == x);
    }
}

/// The legal actions are exactly what the reducer accepts: every accepted
/// action is listed.
pub proof fn lemma_accepted_listed(m: PositionModel, a: Action)
    requires
        reduce_spec(m, a) is Ok,
    ensures
        legal_actions_spec(m).contains(a),
{
    let from = a.from_sq();
    let to = a.to_sq();
    lemma_square_valid(from);
    lemma_square_valid(to);
    crate::square::lemma_square_of_idx(from);
    crate::square::lemma_square_of_idx(to);
    let key = from.idx() * 64 + to.idx();
    assert(key / 64 == from.idx() && key % 64 == to.idx());
    let c = candidates(m, from, to);
    assert(c.contains(a)) by {
        match a {
            Action::Move { .. } => {
                assert(c[0] == a);
            },
            Action::Promote { into, .. } => {
                if into == Role::Queen {
                    assert(c[0] == a);
                } else if into == Role::Rook {
                    assert(c[1] == a);
                } else if into == Role::Bishop {
                    assert(c[2] == a);
                } else {
                    assert(c[3] == a);
                }
            },
        }
    }
    lemma_keep_legal_keeps(m, c, a);
    assert(legal_at(m, key) == keep_legal(m, c));
    lemma_upto_holds(m, key, 4096, a);
}

/// An accepted castle is the king's plain move, and its SAN resolves to it.
proof fn lemma_castle_resolves(m: PositionModel, a: Action)
    requires
        reduce_spec(m, a) is Ok,
        is_castle(m, a),
    ensures
        a == (Action::Move { from: a.from_sq(), to: a.to_sq() }),
        spec_resolve(written_san(m, a), m) == Ok::<Action, Rejection>(a),
{
    let piece = piece_on(m, a.from_sq())->0;
    lemma_accepted_mover(m, a);
    lemma_square_valid(a.to_sq());
    if castle_wing(piece.color, a.to_sq()) == Some(Wing::King) {
        assert(a.to_sq() == square_at(6, crate::rules::home_rank(m.turn)));
    } else {
        assert(a.to_sq() == square_at(2, crate::rules::home_rank(m.turn)));
    }
}

/// Written SAN is never mistaken for UCI.
proof fn lemma_san_not_uci(m: PositionModel, a: Action)
    requires
        reduce_spec(m, a) is Ok,
    ensures
        spec_parse_uci(spec_to_san(m, a, false)->Ok_0) is None,
{
    let after = reduce_spec(m, a)->Ok_0;
    lemma_check_mark(after);
    let mark = check_mark(after);
    let body = san_body(m, a, false);
    let text = body + mark;
    let from = a.from_sq();
    let to = a.to_sq();
    let piece = piece_on(m, from)->0;
    lemma_square_valid(from);
    lemma_square_valid(to);
    lemma_name_chars(from.file_of(), from.rank_of());
    lemma_name_chars(to.file_of(), to.rank_of());
    if text.len() == 4 || text.len() == 5 {
        if is_castle(m, a) {
            assert(text[0] == 'O');
            assert(spec_parse_square(text.subrange(0, 2)) is None);
        } else if piece.role == Role::Pawn {
            if from.file_of() != to.file_of() {
                assert(text[1] == 'x');
                assert(spec_parse_square(text.subrange(0, 2)) is None);
            } else {
                assert(a is Promote);
                assert(text[2] == '=');
                assert(spec_parse_square(text.subrange(2, 4)) is None);
            }
        } else {
            lemma_letter_role(piece.role);
            assert(text[0] == role_letter(piece.role));
            assert(spec_parse_square(text.subrange(0, 2)) is None);
        }
    }
}

/// The SAN written for an accepted action, read back as game input in the
/// same position, names that very action.
pub proof fn lemma_san_reads_back(m: PositionModel, a: Action)
    requires
        reduce_spec(m, a) is Ok,
        !passant_rival(m, a),
    ensures
        spec_to_san(m, a, false) is Ok,
        spec_text_action(spec_to_san(m, a, false)->Ok_0, m) == Ok::<Action, Rejection>(a),
{
    lemma_san_not_uci(m, a);
    lemma_written_parses(m, a);
    if is_castle(m, a) {
        lemma_castle_resolves(m, a);
    } else {
        lemma_accepted_listed(m, a);
        let legal = legal_actions_spec(m);
        let i = choose|i: int| 0 <= i < legal.len() && legal[i] == a;
        lemma_san_round_trip(m, i);
    }
}

/// The characters SAN is written in.
pub open spec fn san_char(c: char) -> bool {
    ('a' <= c <= 'h') || ('1' <= c <= '8') || c == 'x' || c == '=' || c == '+' || c == '#' || c
        == 'O' || c == '-' || c == 'K' || c == 'Q' || c == 'R' || c == 'B' || c == 'N'
}

/// The characters SAN begins with: a file, a piece letter, or castling's `O`.
pub open spec fn san_lead(c: char) -> bool {
    ('a' <= c <= 'h') || c == 'O' || c == 'K' || c == 'Q' || c == 'R' || c == 'B' || c == 'N'
}

/// The SAN written for an accepted action is a nonempty word of SAN
/// characters that begins with a file, a piece letter or `O`.
pub proof fn lemma_san_chars(m: PositionModel, a: Action)
    requires
        reduce_spec(m, a) is Ok,
    ensures
        spec_to_san(m, a, false) is Ok,
        spec_to_san(m, a, false)->Ok_0.len() > 0,
        san_lead(spec_to_san(m, a, false)->Ok_0[0]),
        all_chars(spec_to_san(m, a, false)->Ok_0, |c: char| san_char(c)),
{
    let p = |c: char| san_char(c);
    let after = reduce_spec(m, a)->Ok_0;
    lemma_check_mark(after);
    let mark = check_mark(after);
    let body = san_body(m, a, false);
    let from = a.from_sq();
    let to = a.to_sq();
    let piece = piece_on(m, from)->0;
    lemma_square_valid(from);
    lemma_square_valid(to);
    lemma_name_chars(from.file_of(), from.rank_of());
    lemma_name_chars(to.file_of(), to.rank_of());
    let name = square_name(to);
    assert(all_chars(name, p));
    assert(all_chars(mark, p));
    if is_castle(m, a) {
        assert(all_chars(body, p));
    } else if piece.role == Role::Pawn {
        let capture = if from.file_of() != to.file_of() {
            seq![file_char(from.file_of()), 'x']
        } else {
            Seq::<char>::empty()
        };
        let promotion = match a {
            Action::Promote { into, .. } => seq!['=', piece_mark(Piece { color: piece.color, role: into }, false)],
            Action::Move { .. } => Seq::<char>::empty(),
        };
        assert(body == capture + name + promotion);
        assert(all_chars(capture, p));
        assert(all_chars(promotion, p)) by {
            match a {
                Action::Promote { into, .. } => {
                    assert(into != Role::Pawn && into != Role::King);
                },
                Action::Move { .. } => {},
            }
        }
        lemma_all_chars_join(capture, name, p);
        lemma_all_chars_join(capture + name, promotion, p);
    } else {
        lemma_origin_text(m, from, to, piece.role);
        let dis = disambiguation(m, from, to, piece.role);
        let capture = if piece_on(m, to) is Some {
            seq!['x']
        } else {
            Seq::<char>::empty()
        };
        let lead = seq![piece_mark(piece, false)];
        assert(body == lead + dis + capture + name);
        assert(all_chars(lead, p));
        assert(all_chars(dis, p)) by {
            assert forall|i: int| 0 <= i < dis.len() implies p(#[trigger] dis[i]) by {
                if dis.len() == 2 && i == 1 {
                    assert(dis[1] == rank_char(from.rank_of()));
                }
            }
        }
        assert(all_chars(capture, p));
        lemma_all_chars_join(lead, dis, p);
        lemma_all_chars_join(lead + dis, capture, p);
        lemma_all_chars_join(lead + dis + capture, name, p);
    }
    lemma_all_chars_join(body, mark, p);
}

/// What a description admits is drawn from the actions it was given.
proof fn lemma_admitted_from(m: PositionModel, san: San, s: Seq<Action>)
    ensures
        forall|i: int| 0 <= i < admitted(m, san, s).len() ==> s.contains(#[trigger] admitted(m, san, s)[i]),
    decreases s.len(),
{
    if s.len() > 0 {
        let rest = s.drop_last();
        lemma_admitted_from(m, san, rest);
        assert forall|i: int| 0 <= i < admitted(m, san, s).len() implies s.contains(#[trigger] admitted(m, san, s)[i]) by {
            let found = admitted(m, san, rest);
            if i < found.len() {
                assert(admitted(m, san, s)[i] == found[i]);
                let j = choose|j: int| 0 <= j < rest.len() && rest[j] == found[i];
                assert(s[j] == rest[j]);
            } else {
                assert(admitted(m, san, s)[i] == s.last());
                assert(s[s.len() - 1] == s.last());
            }
        }
    }
}

/// SAN inherits every rule the reducer enforces: a description other than
/// a castle resolves only to an action the reducer accepts.
pub proof fn lemma_resolved_accepted(san: San, m: PositionModel)
    requires
        !(san is Castle),
        spec_resolve(san, m) is Ok,
    ensures
        reduce_spec(m, spec_resolve(san, m)->Ok_0) is Ok,
{
    let legal = legal_actions_spec(m);
    lemma_admitted_from(m, san, legal);
    let found = admitted(m, san, legal);
    assert(found.len() == 1);
    assert(legal.contains(found[0]));
    let i = choose|i: int| 0 <= i < legal.len() && legal[i] == found[0];
    lemma_legal_accepted(m, i);
}
} // verus!
