//! The rules of chess as mathematics: what a position is, how edits change
//! it, which actions the reducer accepts and what they compile to.

use vstd::prelude::*;

use crate::action::Action;
use crate::piece::{spec_opponent, Color, Piece, Role, Wing};
use crate::reduce::{DrawReason, Edit, Ending, Mode, Rejection};
use crate::square::{on_board, square_at, square_of, Square};

verus! {

/// Which castles remain available.
#[derive(Copy, Clone, PartialEq, Eq, Structural, Hash, Debug)]
pub struct Rights {
    pub white_king: bool,
    pub white_queen: bool,
    pub black_king: bool,
    pub black_queen: bool,
}

/// A position as a mathematical value: 64 squares (a1 = 0 … h8 = 63),
/// the side to move, the castling rights, and the en-passant square.
pub struct PositionModel {
    pub board: Seq<Option<Piece>>,
    pub turn: Color,
    pub rights: Rights,
    pub passant: Option<Square>,
}

/// What stands on `s`.
pub open spec fn piece_on(m: PositionModel, s: Square) -> Option<Piece> {
    m.board[s.idx()]
}

/// Whether `rights` still allow `color` to castle on `wing`.
pub open spec fn allows(rights: Rights, color: Color, wing: Wing) -> bool {
    match (color, wing) {
        (Color::White, Wing::King) => rights.white_king,
        (Color::White, Wing::Queen) => rights.white_queen,
        (Color::Black, Wing::King) => rights.black_king,
        (Color::Black, Wing::Queen) => rights.black_queen,
    }
}

/// `rights` with `color`'s castle on `wing` forfeited.
pub open spec fn without(rights: Rights, color: Color, wing: Wing) -> Rights {
    match (color, wing) {
        (Color::White, Wing::King) => Rights { white_king: false, ..rights },
        (Color::White, Wing::Queen) => Rights { white_queen: false, ..rights },
        (Color::Black, Wing::King) => Rights { black_king: false, ..rights },
        (Color::Black, Wing::Queen) => Rights { black_queen: false, ..rights },
    }
}

/// Every castle still available.
pub open spec fn all_rights() -> Rights {
    Rights { white_king: true, white_queen: true, black_king: true, black_queen: true }
}

/// The rank a side's pieces start on: 0 for White, 7 for Black.
pub open spec fn home_rank(color: Color) -> int {
    match color {
        Color::White => 0,
        Color::Black => 7,
    }
}

/// The rank a side's pawns promote on.
pub open spec fn last_rank(color: Color) -> int {
    match color {
        Color::White => 7,
        Color::Black => 0,
    }
}

/// The direction a side's pawns advance in.
pub open spec fn pawn_dir(color: Color) -> int {
    match color {
        Color::White => 1,
        Color::Black => -1,
    }
}

/// The rank a side's pawns start on.
pub open spec fn pawn_start(color: Color) -> int {
    match color {
        Color::White => 1,
        Color::Black => 6,
    }
}

pub open spec fn abs(x: int) -> int {
    if x < 0 {
        -x
    } else {
        x
    }
}

pub open spec fn sign(x: int) -> int {
    if x > 0 {
        1
    } else if x < 0 {
        -1
    } else {
        0
    }
}

pub open spec fn max(x: int, y: int) -> int {
    if x < y {
        y
    } else {
        x
    }
}

/// `k` steps of length one in direction `s` (−1, 0 or 1).
pub open spec fn steps(k: int, s: int) -> int {
    if s > 0 {
        k
    } else if s < 0 {
        -k
    } else {
        0
    }
}

/// Every square strictly between `from` and `to` along their line is empty.
pub open spec fn between_clear(m: PositionModel, from: Square, to: Square) -> bool {
    let dx = to.file_of() - from.file_of();
    let dy = to.rank_of() - from.rank_of();
    let n = max(abs(dx), abs(dy));
    forall|k: int| 1 <= k < n ==> #[trigger] step_empty(m, from, sign(dx), sign(dy), k)
}

/// The square `k` steps from `from` in direction (`sx`, `sy`) is empty.
pub open spec fn step_empty(m: PositionModel, from: Square, sx: int, sy: int, k: int) -> bool {
    m.board[(from.rank_of() + steps(k, sy)) * 8 + from.file_of() + steps(k, sx)] is None
}

/// `from` and `to` share a file, a rank or a diagonal.
pub open spec fn aligned(from: Square, to: Square) -> bool {
    let dx = to.file_of() - from.file_of();
    let dy = to.rank_of() - from.rank_of();
    dx == 0 || dy == 0 || abs(dx) == abs(dy)
}

/// Whether a pawn of `color` on `from` can move to `to`: a push, a double
/// push from its start rank, or a diagonal capture (en passant included).
pub open spec fn pawn_reaches(m: PositionModel, color: Color, from: Square, to: Square) -> bool {
    let dx = to.file_of() - from.file_of();
    let dy = to.rank_of() - from.rank_of();
    let dir = pawn_dir(color);
    let en_passant = m.passant == Some(to);
    let push = dx == 0 && dy == dir && piece_on(m, to) is None;
    let double = dx == 0 && dy == 2 * dir && from.rank_of() == pawn_start(color)
        && m.board[from.idx() + 8 * dir] is None && piece_on(m, to) is None;
    let capture = abs(dx) == 1 && dy == dir && (piece_on(m, to) is Some || en_passant);
    push || double || capture
}

/// Whether `piece` on `from` moves to `to` by its own pattern,
/// ignoring what that does to its king.
pub open spec fn reaches(m: PositionModel, piece: Piece, from: Square, to: Square) -> bool {
    let dx = to.file_of() - from.file_of();
    let dy = to.rank_of() - from.rank_of();
    match piece.role {
        Role::Pawn => pawn_reaches(m, piece.color, from, to),
        Role::Knight => (abs(dx) == 1 && abs(dy) == 2) || (abs(dx) == 2 && abs(dy) == 1),
        Role::Bishop => abs(dx) == abs(dy) && between_clear(m, from, to),
        Role::Rook => (dx == 0 || dy == 0) && between_clear(m, from, to),
        Role::Queen => (abs(dx) == abs(dy) || dx == 0 || dy == 0) && between_clear(m, from, to),
        Role::King => max(abs(dx), abs(dy)) == 1,
    }
}

/// Whether `piece` on `from` attacks `to`: a pawn covers the two squares
/// diagonally ahead of it, whatever stands there; every other piece
/// attacks where it moves.
pub open spec fn covers(m: PositionModel, piece: Piece, from: Square, to: Square) -> bool {
    match piece.role {
        Role::Pawn => abs(to.file_of() - from.file_of()) == 1 && to.rank_of() - from.rank_of()
            == pawn_dir(piece.color),
        _ => reaches(m, piece, from, to),
    }
}

/// The piece on board index `i` belongs to `by` and attacks `target`.
pub open spec fn attacks_from(m: PositionModel, i: int, target: Square, by: Color) -> bool {
    match m.board[i] {
        Some(piece) => piece.color == by && covers(m, piece, square_of(i), target),
        None => false,
    }
}

/// Whether some piece of `by` attacks `target`.
pub open spec fn attacked(m: PositionModel, target: Square, by: Color) -> bool {
    exists|i: int| 0 <= i < 64 && #[trigger] attacks_from(m, i, target, by)
}

/// The first board index at or after `i` holding `color`'s king, or 64.
pub open spec fn king_from(m: PositionModel, color: Color, i: int) -> int
    decreases 64 - i,
{
    if i >= 64 {
        64
    } else if m.board[i] == Some(Piece { color, role: Role::King }) {
        i
    } else {
        king_from(m, color, i + 1)
    }
}

/// The square of `color`'s king if it is currently attacked (the first
/// king in board order, for composed boards with several).
pub open spec fn threatened_king(m: PositionModel, color: Color) -> Option<Square> {
    let k = king_from(m, color, 0);
    if k < 64 && attacked(m, square_of(k), spec_opponent(color)) {
        Some(square_of(k))
    } else {
        None
    }
}

/// Whether `color`'s king is attacked. A board with no king is never in check.
pub open spec fn is_in_check(m: PositionModel, color: Color) -> bool {
    threatened_king(m, color) is Some
}

/// The castling rights left after lifting whatever stands on `s`: a king
/// forfeits both its wings, a corner forfeits its own.
pub open spec fn lift_rights(rights: Rights, board: Seq<Option<Piece>>, s: Square) -> Rights {
    let r0 = match board[s.idx()] {
        Some(p) => if p.role == Role::King {
            without(without(rights, p.color, Wing::King), p.color, Wing::Queen)
        } else {
            rights
        },
        None => rights,
    };
    let r1 = if s == square_at(7, 0) {
        without(r0, Color::White, Wing::King)
    } else {
        r0
    };
    let r2 = if s == square_at(0, 0) {
        without(r1, Color::White, Wing::Queen)
    } else {
        r1
    };
    let r3 = if s == square_at(7, 7) {
        without(r2, Color::Black, Wing::King)
    } else {
        r2
    };
    if s == square_at(0, 7) {
        without(r3, Color::Black, Wing::Queen)
    } else {
        r3
    }
}

/// One edit applied to a position (the side to move is untouched).
pub open spec fn apply_edit(m: PositionModel, edit: Edit) -> PositionModel {
    match edit {
        Edit::Lift(s) => PositionModel {
            board: m.board.update(s.idx(), None),
            rights: lift_rights(m.rights, m.board, s),
            ..m
        },
        Edit::Place(s, p) => PositionModel { board: m.board.update(s.idx(), Some(p)), ..m },
        Edit::Skip(s) => PositionModel { passant: Some(s), ..m },
    }
}

/// The edits applied in order.
pub open spec fn apply_edits(m: PositionModel, edits: Seq<Edit>) -> PositionModel
    decreases edits.len(),
{
    if edits.len() == 0 {
        m
    } else {
        apply_edit(apply_edits(m, edits.drop_last()), edits.last())
    }
}

/// The total evaluator: the en-passant window closes, the edits are
/// applied in order (a `Skip` reopens it), and the turn passes.
pub open spec fn apply_spec(m: PositionModel, edits: Seq<Edit>) -> PositionModel {
    let done = apply_edits(PositionModel { passant: None, ..m }, edits);
    PositionModel { turn: spec_opponent(m.turn), ..done }
}

/// The square a side's king starts on.
pub open spec fn king_home(color: Color) -> Square {
    square_at(4, home_rank(color))
}

/// The wing a king's move from its home square to `to` castles on, if any.
pub open spec fn castle_wing(color: Color, to: Square) -> Option<Wing> {
    if to == square_at(6, home_rank(color)) {
        Some(Wing::King)
    } else if to == square_at(2, home_rank(color)) {
        Some(Wing::Queen)
    } else {
        None
    }
}

/// The file the king lands on when castling on `wing`.
pub open spec fn castle_king_file(wing: Wing) -> int {
    match wing {
        Wing::King => 6,
        Wing::Queen => 2,
    }
}

/// The file the rook starts on when castling on `wing`.
pub open spec fn castle_rook_from_file(wing: Wing) -> int {
    match wing {
        Wing::King => 7,
        Wing::Queen => 0,
    }
}

/// The file the rook lands on when castling on `wing` — also the square
/// the king passes through.
pub open spec fn castle_rook_to_file(wing: Wing) -> int {
    match wing {
        Wing::King => 5,
        Wing::Queen => 3,
    }
}

/// The squares between king and rook, which must be empty to castle.
pub open spec fn castle_between_empty(m: PositionModel, color: Color, wing: Wing) -> bool {
    let rank = home_rank(color);
    match wing {
        Wing::King => piece_on(m, square_at(5, rank)) is None && piece_on(m, square_at(6, rank)) is None,
        Wing::Queen => piece_on(m, square_at(1, rank)) is None && piece_on(m, square_at(2, rank))
            is None && piece_on(m, square_at(3, rank)) is None,
    }
}

/// Castling: the rights must remain, the rook must stand at home with the
/// squares between empty, and the king may not start on, pass through or
/// land on an attacked square (the first such square is reported). The
/// prototype is four edits.
pub open spec fn castle_spec(m: PositionModel, color: Color, wing: Wing) -> Result<Seq<Edit>, Rejection> {
    let rank = home_rank(color);
    let king_from = square_at(4, rank);
    let king_to = square_at(castle_king_file(wing), rank);
    let rook_from = square_at(castle_rook_from_file(wing), rank);
    let rook_to = square_at(castle_rook_to_file(wing), rank);
    let enemy = spec_opponent(color);
    if !allows(m.rights, color, wing) {
        Err(Rejection::CastlingForfeited { wing })
    } else if piece_on(m, rook_from) != Some(Piece { color, role: Role::Rook })
        || !castle_between_empty(m, color, wing) {
        Err(Rejection::CannotReach { from: king_from, to: king_to })
    } else if attacked(m, king_from, enemy) {
        Err(Rejection::IntoCheck { king: king_from })
    } else if attacked(m, rook_to, enemy) {
        Err(Rejection::IntoCheck { king: rook_to })
    } else if attacked(m, king_to, enemy) {
        Err(Rejection::IntoCheck { king: king_to })
    } else {
        Ok(
            seq![
                Edit::Lift(king_from),
                Edit::Lift(rook_from),
                Edit::Place(king_to, Piece { color, role: Role::King }),
                Edit::Place(rook_to, Piece { color, role: Role::Rook }),
            ],
        )
    }
}

/// The role the mover has after the move, or why the promotion part of
/// the action is wrong.
pub open spec fn promoted_role(
    piece: Piece,
    from: Square,
    to: Square,
    promotion: Option<Role>,
) -> Result<Role, Rejection> {
    let promotes = piece.role == Role::Pawn && to.rank_of() == last_rank(piece.color);
    match promotion {
        None => if promotes {
            Err(Rejection::NeedsPromotion { from, to })
        } else {
            Ok(piece.role)
        },
        Some(into) => if !promotes {
            Err(Rejection::NotAPromotion { from, to })
        } else if into == Role::Pawn || into == Role::King {
            Err(Rejection::InvalidPromotion { into })
        } else {
            Ok(into)
        },
    }
}

/// The edits of an ordinary (non-castling) move: a capture lifts the victim
/// first, en passant lifts the pawn that passed, then the mover is lifted and
/// placed (as `role`), and a double push records the skipped square.
pub open spec fn move_edits(m: PositionModel, piece: Piece, from: Square, to: Square, role: Role) -> Seq<Edit> {
    let capture = if piece_on(m, to) is Some {
        seq![Edit::Lift(to)]
    } else {
        Seq::<Edit>::empty()
    };
    let en_passant = if piece.role == Role::Pawn && from.file_of() != to.file_of() && m.passant
        == Some(to) {
        seq![Edit::Lift(square_at(to.file_of(), from.rank_of()))]
    } else {
        Seq::<Edit>::empty()
    };
    let skip = if piece.role == Role::Pawn && abs(from.rank_of() - to.rank_of()) == 2 {
        seq![Edit::Skip(square_at(from.file_of(), (from.rank_of() + to.rank_of()) / 2))]
    } else {
        Seq::<Edit>::empty()
    };
    capture + en_passant + seq![Edit::Lift(from), Edit::Place(to, Piece { color: piece.color, role })]
        + skip
}

/// The interpreter's front half: validate `action` against the position and
/// expand it from its prototype into primitive edits.
pub open spec fn expand_spec(m: PositionModel, action: Action) -> Result<Seq<Edit>, Rejection> {
    let from = action.from_sq();
    let to = action.to_sq();
    let promotion = match action {
        Action::Move { .. } => None,
        Action::Promote { into, .. } => Some(into),
    };
    match piece_on(m, from) {
        None => Err(Rejection::EmptySquare { from }),
        Some(piece) => {
            if piece.color != m.turn {
                Err(Rejection::NotYourTurn { piece })
            } else if from == to {
                Err(Rejection::CannotReach { from, to })
            } else if piece.role == Role::King && from == king_home(piece.color) && castle_wing(
                piece.color,
                to,
            ) is Some {
                if promotion is Some {
                    Err(Rejection::NotAPromotion { from, to })
                } else {
                    castle_spec(m, piece.color, castle_wing(piece.color, to)->0)
                }
            } else if (piece_on(m, to) matches Some(target) && target.color == piece.color) {
                Err(Rejection::OwnPieceAt { to })
            } else if !reaches(m, piece, from, to) {
                Err(Rejection::CannotReach { from, to })
            } else {
                match promoted_role(piece, from, to, promotion) {
                    Err(e) => Err(e),
                    Ok(role) => {
                        let edits = move_edits(m, piece, from, to, role);
                        match threatened_king(apply_spec(m, edits), piece.color) {
                            Some(king) => Err(Rejection::IntoCheck { king }),
                            None => Ok(edits),
                        }
                    },
                }
            }
        },
    }
}

/// The reducer: the position after `action`, or why it was rejected.
pub open spec fn reduce_spec(m: PositionModel, action: Action) -> Result<PositionModel, Rejection> {
    match expand_spec(m, action) {
        Ok(edits) => Ok(apply_spec(m, edits)),
        Err(e) => Err(e),
    }
}

/// The actions tried for a from–to pair: four promotions when a pawn
/// reaches the side to move's last rank, otherwise the plain move.
pub open spec fn candidates(m: PositionModel, from: Square, to: Square) -> Seq<Action> {
    let promoting = to.rank_of() == last_rank(m.turn) && (piece_on(m, from) matches Some(p) && p.role
        == Role::Pawn);
    if promoting {
        seq![
            Action::Promote { from, to, into: Role::Queen },
            Action::Promote { from, to, into: Role::Rook },
            Action::Promote { from, to, into: Role::Bishop },
            Action::Promote { from, to, into: Role::Knight },
        ]
    } else {
        seq![Action::Move { from, to }]
    }
}

/// The actions of `actions` the reducer accepts, in order.
pub open spec fn keep_legal(m: PositionModel, actions: Seq<Action>) -> Seq<Action>
    decreases actions.len(),
{
    if actions.len() == 0 {
        actions
    } else {
        let rest = keep_legal(m, actions.drop_last());
        if expand_spec(m, actions.last()) is Ok {
            rest.push(actions.last())
        } else {
            rest
        }
    }
}

/// The legal actions for pair number `k` (from = k / 64, to = k % 64).
pub open spec fn legal_at(m: PositionModel, k: int) -> Seq<Action> {
    let from = k / 64;
    if (m.board[from] matches Some(p) && p.color == m.turn) {
        keep_legal(m, candidates(m, square_of(from), square_of(k % 64)))
    } else {
        Seq::<Action>::empty()
    }
}

/// The legal actions of the first `k` from–to pairs, in board order.
pub open spec fn legal_upto(m: PositionModel, k: int) -> Seq<Action>
    decreases k,
{
    if k <= 0 {
        Seq::<Action>::empty()
    } else {
        legal_upto(m, k - 1) + legal_at(m, k - 1)
    }
}

/// All actions the side to move can legally take, from-square major in
/// board order (a1 first), then to-square, promotions queen first.
pub open spec fn legal_actions_spec(m: PositionModel) -> Seq<Action> {
    legal_upto(m, 4096)
}

/// What the material on the first `i` squares amounts to: the kings of
/// each side; pawns, rooks and queens together; knights; bishops of each
/// side and the shade (0 or 1) of the last one seen.
pub struct Material {
    pub white_kings: int,
    pub black_kings: int,
    pub heavy: int,
    pub knights: int,
    pub white_bishops: int,
    pub black_bishops: int,
    pub white_shade: int,
    pub black_shade: int,
}

pub open spec fn material_upto(m: PositionModel, i: int) -> Material
    decreases i,
{
    if i <= 0 {
        Material {
            white_kings: 0,
            black_kings: 0,
            heavy: 0,
            knights: 0,
            white_bishops: 0,
            black_bishops: 0,
            white_shade: 0,
            black_shade: 0,
        }
    } else {
        let before = material_upto(m, i - 1);
        let shade = ((i - 1) / 8 + (i - 1) % 8) % 2;
        match m.board[i - 1] {
            None => before,
            Some(p) => match p.role {
                Role::King => if p.color == Color::White {
                    Material { white_kings: before.white_kings + 1, ..before }
                } else {
                    Material { black_kings: before.black_kings + 1, ..before }
                },
                Role::Knight => Material { knights: before.knights + 1, ..before },
                Role::Bishop => if p.color == Color::White {
                    Material { white_bishops: before.white_bishops + 1, white_shade: shade, ..before }
                } else {
                    Material { black_bishops: before.black_bishops + 1, black_shade: shade, ..before }
                },
                _ => Material { heavy: before.heavy + 1, ..before },
            },
        }
    }
}

/// FIDE's dead position by the material table: K vs K, K+B vs K, K+N vs K,
/// and K+B vs K+B with the bishops on same-coloured squares — one king on
/// each side.
pub open spec fn insufficient_material(m: PositionModel) -> bool {
    let t = material_upto(m, 64);
    t.white_kings == 1 && t.black_kings == 1 && t.heavy == 0 && (t.knights + t.white_bishops + t.black_bishops <= 1 || (t.knights == 0
        && t.white_bishops == 1 && t.black_bishops == 1 && t.white_shade == t.black_shade))
}

/// A position's mode: with no legal action the side to move is mated (in
/// check) or stalemated; otherwise a dead position is drawn, and anything
/// else is still being played.
pub open spec fn mode_spec(m: PositionModel) -> Mode {
    if legal_actions_spec(m).len() == 0 {
        if is_in_check(m, m.turn) {
            Mode::Played(Ending::Checkmate { winner: spec_opponent(m.turn) })
        } else {
            Mode::Played(Ending::Stalemate)
        }
    } else if insufficient_material(m) {
        Mode::Played(Ending::Draw(DrawReason::InsufficientMaterial))
    } else {
        Mode::Playing
    }
}

} // verus!

verus! {

/// Every castle `a` allows, `b` allows too.
pub open spec fn rights_within(a: Rights, b: Rights) -> bool {
    (a.white_king ==> b.white_king) && (a.white_queen ==> b.white_queen) && (a.black_king
        ==> b.black_king) && (a.black_queen ==> b.black_queen)
}

proof fn lemma_edits_shrink_rights(m: PositionModel, edits: Seq<Edit>)
    ensures
        rights_within(apply_edits(m, edits).rights, m.rights),
    decreases edits.len(),
{
    if edits.len() > 0 {
        lemma_edits_shrink_rights(m, edits.drop_last());
    }
}

/// Castling rights never come back: whatever a move does, the rights after
/// it are among the rights before it.
pub proof fn lemma_rights_only_shrink(m: PositionModel, action: Action)
    requires
        reduce_spec(m, action) is Ok,
    ensures
        rights_within(reduce_spec(m, action)->Ok_0.rights, m.rights),
{
    let edits = expand_spec(m, action)->Ok_0;
    lemma_edits_shrink_rights(PositionModel { passant: None, ..m }, edits);
}

} // verus!

verus! {

/// How many of the first `n` squares hold a pawn, a rook or a queen.
pub open spec fn heavy_count(board: Seq<Option<Piece>>, n: int) -> nat
    decreases n,
{
    if n <= 0 {
        0
    } else {
        heavy_count(board, n - 1) + match board[n - 1] {
            Some(p) => if p.role == Role::Pawn || p.role == Role::Rook || p.role == Role::Queen {
                1nat
            } else {
                0nat
            },
            None => 0nat,
        }
    }
}

/// How many of the first `n` squares hold a knight or a bishop.
pub open spec fn minor_count(board: Seq<Option<Piece>>, n: int) -> nat
    decreases n,
{
    if n <= 0 {
        0
    } else {
        minor_count(board, n - 1) + match board[n - 1] {
            Some(p) => if p.role == Role::Knight || p.role == Role::Bishop {
                1nat
            } else {
                0nat
            },
            None => 0nat,
        }
    }
}

/// How many of the first `n` squares hold exactly `piece`.
pub open spec fn piece_count(board: Seq<Option<Piece>>, n: int, piece: Piece) -> nat
    decreases n,
{
    if n <= 0 {
        0
    } else {
        piece_count(board, n - 1, piece) + if board[n - 1] == Some(piece) {
            1nat
        } else {
            0nat
        }
    }
}

/// The material table's tallies are the board's counts.
proof fn lemma_material_counts(m: PositionModel, n: int)
    requires
        0 <= n <= m.board.len(),
    ensures
        material_upto(m, n).heavy == heavy_count(m.board, n),
        material_upto(m, n).knights + material_upto(m, n).white_bishops + material_upto(
            m,
            n,
        ).black_bishops == minor_count(m.board, n),
        material_upto(m, n).white_bishops == piece_count(
            m.board,
            n,
            Piece { color: Color::White, role: Role::Bishop },
        ),
        material_upto(m, n).black_bishops == piece_count(
            m.board,
            n,
            Piece { color: Color::Black, role: Role::Bishop },
        ),
        material_upto(m, n).white_kings == piece_count(
            m.board,
            n,
            Piece { color: Color::White, role: Role::King },
        ),
        material_upto(m, n).black_kings == piece_count(
            m.board,
            n,
            Piece { color: Color::Black, role: Role::King },
        ),
    decreases n,
{
    if n > 0 {
        lemma_material_counts(m, n - 1);
    }
}

/// Counted squares hold what was counted: a count of nothing found means
/// none of the squares holds it.
proof fn lemma_no_heavy(board: Seq<Option<Piece>>, n: int, i: int)
    requires
        0 <= i < n,
        heavy_count(board, n) == 0,
    ensures
        !(board[i] matches Some(p) && (p.role == Role::Pawn || p.role == Role::Rook || p.role
            == Role::Queen)),
    decreases n,
{
    if i < n - 1 {
        lemma_no_heavy(board, n - 1, i);
    }
}

/// The shade of board index `i`: 0 for dark (a1), 1 for light.
pub open spec fn shade(i: int) -> int {
    (i / 8 + i % 8) % 2
}

/// A piece found on a square is counted.
proof fn lemma_count_found(board: Seq<Option<Piece>>, n: int, i: int, piece: Piece)
    requires
        0 <= i < n,
        board[i] == Some(piece),
    ensures
        piece_count(board, n, piece) >= 1,
    decreases n,
{
    if i < n - 1 {
        lemma_count_found(board, n - 1, i, piece);
    }
}

/// With one bishop of a side on the board, the material table records the
/// shade of its square.
proof fn lemma_bishop_shade(m: PositionModel, n: int, i: int, color: Color)
    requires
        0 <= i < n <= m.board.len(),
        m.board[i] == Some(Piece { color, role: Role::Bishop }),
        piece_count(m.board, n, Piece { color, role: Role::Bishop }) == 1,
    ensures
        (match color {
            Color::White => material_upto(m, n).white_shade,
            Color::Black => material_upto(m, n).black_shade,
        }) == shade(i),
    decreases n,
{
    let bishop = Piece { color, role: Role::Bishop };
    if i < n - 1 {
        lemma_count_found(m.board, n - 1, i, bishop);
        assert(m.board[n - 1] != Some(bishop));
        lemma_bishop_shade(m, n - 1, i, color);
    }
}

/// A position drawn for want of material holds one king a side and no
/// pawn, rook or queen anywhere — at most two knights and bishops beside
/// the kings, and when two, one bishop of each side, on squares of one
/// shade.
pub proof fn lemma_dead_material(m: PositionModel)
    requires
        m.board.len() == 64,
        mode_spec(m) == Mode::Played(Ending::Draw(DrawReason::InsufficientMaterial)),
    ensures
        forall|i: int|
            0 <= i < 64 ==> !((#[trigger] m.board[i]) matches Some(p) && (p.role == Role::Pawn
                || p.role == Role::Rook || p.role == Role::Queen)),
        heavy_count(m.board, 64) == 0,
        minor_count(m.board, 64) <= 2,
        minor_count(m.board, 64) == 2 ==> piece_count(
            m.board,
            64,
            Piece { color: Color::White, role: Role::Bishop },
        ) == 1 && piece_count(m.board, 64, Piece { color: Color::Black, role: Role::Bishop })
            == 1,
        forall|i: int, j: int|
            0 <= i < 64 && 0 <= j < 64 && minor_count(m.board, 64) == 2 && #[trigger] m.board[i]
                == Some(Piece { color: Color::White, role: Role::Bishop }) && #[trigger] m.board[j]
                == Some(Piece { color: Color::Black, role: Role::Bishop }) ==> shade(i) == shade(j),
        piece_count(m.board, 64, Piece { color: Color::White, role: Role::King }) == 1,
        piece_count(m.board, 64, Piece { color: Color::Black, role: Role::King }) == 1,
{
    lemma_material_counts(m, 64);
    assert forall|i: int| 0 <= i < 64 implies !((#[trigger] m.board[i]) matches Some(p) && (p.role
        == Role::Pawn || p.role == Role::Rook || p.role == Role::Queen)) by {
        lemma_no_heavy(m.board, 64, i);
    }
    assert forall|i: int, j: int|
        0 <= i < 64 && 0 <= j < 64 && minor_count(m.board, 64) == 2 && #[trigger] m.board[i]
            == Some(Piece { color: Color::White, role: Role::Bishop }) && #[trigger] m.board[j]
            == Some(Piece { color: Color::Black, role: Role::Bishop }) implies shade(i) == shade(j) by {
        lemma_bishop_shade(m, 64, i, Color::White);
        lemma_bishop_shade(m, 64, j, Color::Black);
    }
}

/// And the converse: a position with a legal move, one king a side, no
/// pawn, rook or queen, and at most one knight or bishop beside the kings
/// — or one bishop a side on squares of one shade — is drawn.
pub proof fn lemma_dead_material_drawn(m: PositionModel)
    requires
        m.board.len() == 64,
        legal_actions_spec(m).len() > 0,
        piece_count(m.board, 64, Piece { color: Color::White, role: Role::King }) == 1,
        piece_count(m.board, 64, Piece { color: Color::Black, role: Role::King }) == 1,
        heavy_count(m.board, 64) == 0,
        minor_count(m.board, 64) <= 1 || (piece_count(
            m.board,
            64,
            Piece { color: Color::White, role: Role::Bishop },
        ) == 1 && piece_count(m.board, 64, Piece { color: Color::Black, role: Role::Bishop }) == 1
            && minor_count(m.board, 64) == 2 && forall|i: int, j: int|
            0 <= i < 64 && 0 <= j < 64 && #[trigger] m.board[i] == Some(
                Piece { color: Color::White, role: Role::Bishop },
            ) && #[trigger] m.board[j] == Some(Piece { color: Color::Black, role: Role::Bishop })
                ==> shade(i) == shade(j)),
    ensures
        mode_spec(m) == Mode::Played(Ending::Draw(DrawReason::InsufficientMaterial)),
{
    lemma_material_counts(m, 64);
    if minor_count(m.board, 64) > 1 {
        let wb = Piece { color: Color::White, role: Role::Bishop };
        let bb = Piece { color: Color::Black, role: Role::Bishop };
        let i = lemma_find(m.board, 64, wb);
        let j = lemma_find(m.board, 64, bb);
        lemma_bishop_shade(m, 64, i, Color::White);
        lemma_bishop_shade(m, 64, j, Color::Black);
    }
}

/// A counted piece stands somewhere.
proof fn lemma_find(board: Seq<Option<Piece>>, n: int, piece: Piece) -> (i: int)
    requires
        0 <= n <= board.len(),
        piece_count(board, n, piece) >= 1,
    ensures
        0 <= i < n,
        board[i] == Some(piece),
    decreases n,
{
    if board[n - 1] == Some(piece) {
        n - 1
    } else {
        lemma_find(board, n - 1, piece)
    }
}

} // verus!
