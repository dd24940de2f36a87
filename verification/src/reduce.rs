use vstd::prelude::*;

use crate::action::Action;
use crate::piece::{Color, Piece, Role, Wing};
use crate::position::Position;
use crate::progress::{lemma_apply_concat, lemma_apply_one};
use crate::rules::{
    abs, aligned, apply_edit, apply_spec, attacked, attacks_from, between_clear, candidates,
    castle_king_file, castle_rook_from_file, castle_rook_to_file, castle_spec, castle_wing, covers,
    expand_spec, home_rank, insufficient_material, is_in_check, keep_legal, king_from,
    legal_actions_spec, legal_at, legal_upto, material_upto, max, mode_spec, move_edits,
    pawn_reaches, piece_on, promoted_role, reaches, reduce_spec, sign, step_empty, steps,
    threatened_king, PositionModel,
};
use crate::san::San;
use crate::square::{square_at, square_of, Square};

verus! {

/// Why an action was not accepted. Errors are data: each variant carries
/// enough to tell the caller exactly what to do instead.
#[derive(Clone, PartialEq, Eq, Debug)]
pub enum Rejected {
    Unparseable(String),
    EmptySquare { from: Square },
    NotYourTurn { piece: Piece },
    OwnPieceAt { to: Square },
    CannotReach { from: Square, to: Square },
    /// A pawn reached the last rank via `Action::Move`; resend as
    /// `Action::Promote` saying what it becomes.
    NeedsPromotion { from: Square, to: Square },
    /// `Action::Promote` for a move that is not a pawn reaching the last rank.
    NotAPromotion { from: Square, to: Square },
    /// Pawns promote to queen, rook, bishop, or knight — nothing else.
    InvalidPromotion { into: Role },
    /// The move would leave the mover's own king attacked — covers moving
    /// into check, moving a pinned piece, failing to resolve check, and
    /// castling out of or through check.
    IntoCheck { king: Square },
    /// The right to castle on this wing was forfeited — the king or that
    /// rook has moved. Rights never come back.
    CastlingForfeited { wing: Wing },
    /// The game already ended; no action can follow the final position.
    GameOver { ending: Ending },
    /// A timeline record stamped earlier than the previous one.
    OutOfOrder,
    /// A clocked move stamped after its player's budget ran dry.
    OutOfTime,
    /// A flag claim while the mover still has time on the clock.
    StillOnTime,
    /// A draw claim when neither threefold repetition nor the fifty-move
    /// rule has armed one.
    NoDrawToClaim,
    /// A SAN that no legal action matches.
    NoMatch { san: San },
    /// A SAN that several legal actions satisfy — needs disambiguation.
    AmbiguousSan { candidates: Vec<Action> },
}

/// A rejection as a mathematical value: what `Rejected` says, with its
/// text and candidate list as sequences.
pub enum Rejection {
    Unparseable(Seq<char>),
    EmptySquare { from: Square },
    NotYourTurn { piece: Piece },
    OwnPieceAt { to: Square },
    CannotReach { from: Square, to: Square },
    NeedsPromotion { from: Square, to: Square },
    NotAPromotion { from: Square, to: Square },
    InvalidPromotion { into: Role },
    IntoCheck { king: Square },
    CastlingForfeited { wing: Wing },
    GameOver { ending: Ending },
    OutOfOrder,
    OutOfTime,
    StillOnTime,
    NoDrawToClaim,
    NoMatch { san: San },
    AmbiguousSan { candidates: Seq<Action> },
}

impl View for Rejected {
    type V = Rejection;

    open spec fn view(&self) -> Rejection {
        match self {
            Rejected::Unparseable(text) => Rejection::Unparseable(text@),
            Rejected::EmptySquare { from } => Rejection::EmptySquare { from: *from },
            Rejected::NotYourTurn { piece } => Rejection::NotYourTurn { piece: *piece },
            Rejected::OwnPieceAt { to } => Rejection::OwnPieceAt { to: *to },
            Rejected::CannotReach { from, to } => Rejection::CannotReach { from: *from, to: *to },
            Rejected::NeedsPromotion { from, to } => Rejection::NeedsPromotion { from: *from, to: *to },
            Rejected::NotAPromotion { from, to } => Rejection::NotAPromotion { from: *from, to: *to },
            Rejected::InvalidPromotion { into } => Rejection::InvalidPromotion { into: *into },
            Rejected::IntoCheck { king } => Rejection::IntoCheck { king: *king },
            Rejected::CastlingForfeited { wing } => Rejection::CastlingForfeited { wing: *wing },
            Rejected::GameOver { ending } => Rejection::GameOver { ending: *ending },
            Rejected::OutOfOrder => Rejection::OutOfOrder,
            Rejected::OutOfTime => Rejection::OutOfTime,
            Rejected::StillOnTime => Rejection::StillOnTime,
            Rejected::NoDrawToClaim => Rejection::NoDrawToClaim,
            Rejected::NoMatch { san } => Rejection::NoMatch { san: *san },
            Rejected::AmbiguousSan { candidates } => Rejection::AmbiguousSan { candidates: candidates@ },
        }
    }
}

/// A result with its rejection viewed as a `Rejection`.
pub open spec fn res<T>(r: Result<T, Rejected>) -> Result<T, Rejection> {
    match r {
        Ok(value) => Ok(value),
        Err(e) => Err(e@),
    }
}

/// Whether a game is still being played, or has been.
#[derive(Copy, Clone, PartialEq, Eq, Structural, Debug)]
pub enum Mode {
    Playing,
    Played(Ending),
}

/// How a played game ended.
#[derive(Copy, Clone, PartialEq, Eq, Structural, Debug)]
pub enum Ending {
    Checkmate { winner: Color },
    Stalemate,
    Flagged { winner: Color },
    Draw(DrawReason),
}

/// Why a game was drawn.
#[derive(Copy, Clone, PartialEq, Eq, Structural, Debug)]
pub enum DrawReason {
    /// Claimed: the same position occurred three times.
    Threefold,
    /// Claimed: fifty moves by each side without a capture or pawn move.
    FiftyMoves,
    /// Automatic: the same position occurred five times.
    Fivefold,
    /// Automatic: seventy-five moves by each side without a capture or pawn move.
    SeventyFiveMoves,
    /// Automatic: neither side has the material to mate.
    InsufficientMaterial,
}

/// A primitive board edit — the instruction set actions compile down to.
#[derive(Copy, Clone, PartialEq, Eq, Structural, Debug)]
pub enum Edit {
    /// Empty the square (forfeiting castling rights a king or corner carries).
    Lift(Square),
    /// Put the piece on the square.
    Place(Square, Piece),
    /// Record the square a double-pushed pawn skipped.
    Skip(Square),
}


/// The edits of a result, as a sequence.
pub open spec fn edits_result(r: Result<Vec<Edit>, Rejected>) -> Result<Seq<Edit>, Rejection> {
    match r {
        Ok(edits) => Ok(edits@),
        Err(e) => Err(e@),
    }
}

/// The position of a result, as a model.
pub open spec fn position_result(r: Result<Position, Rejected>) -> Result<PositionModel, Rejection> {
    match r {
        Ok(position) => Ok(position@),
        Err(e) => Err(e@),
    }
}

fn abs_i8(x: i8) -> (r: i8)
    requires
        -100 <= x <= 100,
    ensures
        r == abs(x as int),
{
    if x < 0 {
        -x
    } else {
        x
    }
}

fn sign_i8(x: i8) -> (r: i8)
    ensures
        r == sign(x as int),
{
    if x > 0 {
        1
    } else if x < 0 {
        -1
    } else {
        0
    }
}

/// Every square strictly between two aligned squares is empty.
fn path_clear(position: &Position, from: Square, to: Square) -> (clear: bool)
    requires
        aligned(from, to),
    ensures
        clear == between_clear(position@, from, to),
{
    proof {
        crate::square::lemma_square_valid(from);
        crate::square::lemma_square_valid(to);
    }
    let ff = from.file() as i8;
    let fr = from.rank() as i8;
    let dx = to.file() as i8 - ff;
    let dy = to.rank() as i8 - fr;
    let sx = sign_i8(dx);
    let sy = sign_i8(dy);
    let ax = abs_i8(dx);
    let ay = abs_i8(dy);
    let n = if ax < ay {
        ay
    } else {
        ax
    };
    let mut k: i8 = 1;
    while k < n
        invariant
            1 <= k,
            k <= n || n < 1,
            n == max(abs(dx as int), abs(dy as int)),
            sx == sign(dx as int),
            sy == sign(dy as int),
            ff == from.file_of(),
            fr == from.rank_of(),
            dx == to.file_of() - from.file_of(),
            dy == to.rank_of() - from.rank_of(),
            aligned(from, to),
            from.valid(),
            to.valid(),
            forall|j: int| 1 <= j < k ==> #[trigger] step_empty(position@, from, sx as int, sy as int, j),
        decreases n - k,
    {
        let f = if sx > 0 {
            ff + k
        } else if sx < 0 {
            ff - k
        } else {
            ff
        };
        let r = if sy > 0 {
            fr + k
        } else if sy < 0 {
            fr - k
        } else {
            fr
        };
        let index = (r * 8 + f) as usize;
        assert(step_empty(position@, from, sx as int, sy as int, k as int) <==> position@.board[index as int] is None);
        if position.at_index(index).is_some() {
            return false;
        }
        k = k + 1;
    }
    true
}

/// Whether a pawn of `color` on `from` can move to `to`.
fn pawn_reaches_exec(position: &Position, color: Color, from: Square, to: Square) -> (r: bool)
    ensures
        r == pawn_reaches(position@, color, from, to),
{
    proof {
        crate::square::lemma_square_valid(from);
        crate::square::lemma_square_valid(to);
    }
    broadcast use crate::position::lemma_board_len;
    let dx = to.file() as i8 - from.file() as i8;
    let dy = to.rank() as i8 - from.rank() as i8;
    let dir: i8 = match color {
        Color::White => 1,
        Color::Black => -1,
    };
    let start_rank: u8 = match color {
        Color::White => 1,
        Color::Black => 6,
    };
    let en_passant = position.passant() == Some(to);
    let empty_to = position.at(to).is_none();
    let push = dx == 0 && dy == dir && empty_to;
    let double = if dx == 0 && dy == 2 * dir && from.rank() == start_rank && empty_to {
        let mid = match color {
            Color::White => from.index() + 8,
            Color::Black => from.index() - 8,
        };
        position.at_index(mid).is_none()
    } else {
        false
    };
    let capture = (dx == 1 || dx == -1) && dy == dir && (position.at(to).is_some() || en_passant);
    push || double || capture
}

/// Whether `piece` on `from` moves to `to` by its own pattern.
fn reaches_exec(position: &Position, piece: Piece, from: Square, to: Square) -> (r: bool)
    ensures
        r == reaches(position@, piece, from, to),
{
    proof {
        crate::square::lemma_square_valid(from);
        crate::square::lemma_square_valid(to);
    }
    let dx = to.file() as i8 - from.file() as i8;
    let dy = to.rank() as i8 - from.rank() as i8;
    let ax = abs_i8(dx);
    let ay = abs_i8(dy);
    match piece.role {
        Role::Pawn => pawn_reaches_exec(position, piece.color, from, to),
        Role::Knight => (ax == 1 && ay == 2) || (ax == 2 && ay == 1),
        Role::Bishop => ax == ay && path_clear(position, from, to),
        Role::Rook => (dx == 0 || dy == 0) && path_clear(position, from, to),
        Role::Queen => (ax == ay || dx == 0 || dy == 0) && path_clear(position, from, to),
        Role::King => (if ax < ay {
            ay
        } else {
            ax
        }) == 1,
    }
}

/// Whether `piece` on `from` attacks `to`.
fn covers_exec(position: &Position, piece: Piece, from: Square, to: Square) -> (r: bool)
    ensures
        r == covers(position@, piece, from, to),
{
    proof {
        crate::square::lemma_square_valid(from);
        crate::square::lemma_square_valid(to);
    }
    match piece.role {
        Role::Pawn => {
            let dx = to.file() as i8 - from.file() as i8;
            let dy = to.rank() as i8 - from.rank() as i8;
            let dir: i8 = match piece.color {
                Color::White => 1,
                Color::Black => -1,
            };
            (dx == 1 || dx == -1) && dy == dir
        },
        _ => reaches_exec(position, piece, from, to),
    }
}

/// Whether some piece of `by` attacks `target`.
fn attacked_exec(position: &Position, target: Square, by: Color) -> (hit: bool)
    ensures
        hit == attacked(position@, target, by),
{
    let mut i: usize = 0;
    while i < 64
        invariant
            i <= 64,
            forall|j: int| 0 <= j < i ==> !#[trigger] attacks_from(position@, j, target, by),
        decreases 64 - i,
    {
        if let Some(piece) = position.at_index(i) {
            if piece.color == by && covers_exec(position, piece, Square::from_index(i), target) {
                assert(attacks_from(position@, i as int, target, by));
                return true;
            }
        }
        i = i + 1;
    }
    false
}

/// The square of `color`'s king if it is currently attacked.
pub(crate) fn threatened_king_exec(position: &Position, color: Color) -> (king: Option<Square>)
    ensures
        king == threatened_king(position@, color),
{
    let ghost m = position@;
    let mut i: usize = 0;
    while i < 64
        invariant_except_break
            i <= 64,
            m == position@,
            king_from(m, color, 0) == king_from(m, color, i as int),
        ensures
            i <= 64,
            king_from(m, color, 0) == i,
        decreases 64 - i,
    {
        let is_king = match position.at_index(i) {
            Some(piece) => piece.color == color && piece.role == Role::King,
            None => false,
        };
        if is_king {
            break;
        }
        i = i + 1;
    }
    if i == 64 {
        return None;
    }
    let king = Square::from_index(i);
    if attacked_exec(position, king, color.opponent()) {
        Some(king)
    } else {
        None
    }
}

/// Whether `color`'s king is attacked. A board with no king (a composed
/// test position) is never in check.
pub fn in_check(position: Position, color: Color) -> (check: bool)
    ensures
        check == is_in_check(position@, color),
{
    threatened_king_exec(&position, color).is_some()
}


/// Castling for `color` on `wing`, validated and expanded.
fn castle(position: &Position, color: Color, wing: Wing) -> (change: Result<Vec<Edit>, Rejected>)
    ensures
        edits_result(change) == castle_spec(position@, color, wing),
{
    broadcast use crate::square::lemma_square_at;
    let rank: u8 = match color {
        Color::White => 0,
        Color::Black => 7,
    };
    let king_from = Square::at(4, rank);
    let (king_to, rook_from, rook_to) = match wing {
        Wing::King => (Square::at(6, rank), Square::at(7, rank), Square::at(5, rank)),
        Wing::Queen => (Square::at(2, rank), Square::at(0, rank), Square::at(3, rank)),
    };
    if !position.may_castle(color, wing) {
        return Err(Rejected::CastlingForfeited { wing });
    }
    let between_empty = match wing {
        Wing::King => position.at(Square::at(5, rank)).is_none() && position.at(
            Square::at(6, rank),
        ).is_none(),
        Wing::Queen => position.at(Square::at(1, rank)).is_none() && position.at(
            Square::at(2, rank),
        ).is_none() && position.at(Square::at(3, rank)).is_none(),
    };
    let rook_present = match position.at(rook_from) {
        Some(piece) => piece.color == color && piece.role == Role::Rook,
        None => false,
    };
    if !rook_present || !between_empty {
        return Err(Rejected::CannotReach { from: king_from, to: king_to });
    }
    // The king may not castle out of, through, or into an attacked square.
    // The square he passes through is exactly where the rook lands.
    let enemy = color.opponent();
    if attacked_exec(position, king_from, enemy) {
        return Err(Rejected::IntoCheck { king: king_from });
    }
    if attacked_exec(position, rook_to, enemy) {
        return Err(Rejected::IntoCheck { king: rook_to });
    }
    if attacked_exec(position, king_to, enemy) {
        return Err(Rejected::IntoCheck { king: king_to });
    }
    let edits = vec![
        Edit::Lift(king_from),
        Edit::Lift(rook_from),
        Edit::Place(king_to, Piece { color, role: Role::King }),
        Edit::Place(rook_to, Piece { color, role: Role::Rook }),
    ];
    assert(edits@ =~= castle_spec(position@, color, wing)->Ok_0);
    Ok(edits)
}

/// The king's home square, if `to` is one of its castling targets.
fn castle_wing_exec(color: Color, to: Square) -> (wing: Option<Wing>)
    ensures
        wing == castle_wing(color, to),
{
    let rank: u8 = match color {
        Color::White => 0,
        Color::Black => 7,
    };
    if to == Square::at(6, rank) {
        Some(Wing::King)
    } else if to == Square::at(2, rank) {
        Some(Wing::Queen)
    } else {
        None
    }
}

/// The role the mover has after the move, or why the promotion part of
/// the action is wrong.
fn promoted_role_exec(piece: Piece, from: Square, to: Square, promotion: Option<Role>) -> (role: Result<Role, Rejected>)
    ensures
        res(role) == promoted_role(piece, from, to, promotion),
{
    let last: u8 = match piece.color {
        Color::White => 7,
        Color::Black => 0,
    };
    let promotes = piece.role == Role::Pawn && to.rank() == last;
    match promotion {
        None => if promotes {
            Err(Rejected::NeedsPromotion { from, to })
        } else {
            Ok(piece.role)
        },
        Some(into) => if !promotes {
            Err(Rejected::NotAPromotion { from, to })
        } else if into == Role::Pawn || into == Role::King {
            Err(Rejected::InvalidPromotion { into })
        } else {
            Ok(into)
        },
    }
}

/// The edits of an ordinary move.
fn move_edits_exec(position: &Position, piece: Piece, from: Square, to: Square, role: Role) -> (edits: Vec<Edit>)
    ensures
        edits@ == move_edits(position@, piece, from, to, role),
{
    proof {
        crate::square::lemma_square_valid(from);
        crate::square::lemma_square_valid(to);
    }
    broadcast use crate::square::lemma_square_at;
    let mut edits: Vec<Edit> = Vec::new();
    if position.at(to).is_some() {
        edits.push(Edit::Lift(to));  // the captured piece leaves first
    }
    let en_passant = piece.role == Role::Pawn && from.file() != to.file() && position.passant()
        == Some(to);
    if en_passant {
        edits.push(Edit::Lift(Square::at(to.file(), from.rank())));
    }
    edits.push(Edit::Lift(from));
    edits.push(Edit::Place(to, Piece { color: piece.color, role }));
    let gap = if from.rank() < to.rank() {
        to.rank() - from.rank()
    } else {
        from.rank() - to.rank()
    };
    if piece.role == Role::Pawn && gap == 2 {
        edits.push(Edit::Skip(Square::at(from.file(), (from.rank() + to.rank()) / 2)));
    }
    assert(edits@ =~= move_edits(position@, piece, from, to, role));
    edits
}

/// The interpreter's front half: validate the action against the position
/// and expand it from its prototype into primitive edits. A quiet move is
/// two edits, a capture three, castling four; a double push adds a `Skip`.
pub fn expand(position: Position, action: Action) -> (edits: Result<Vec<Edit>, Rejected>)
    ensures
        edits_result(edits) == expand_spec(position@, action),
{
    let (from, to, promotion) = match action {
        Action::Move { from, to } => (from, to, None),
        Action::Promote { from, to, into } => (from, to, Some(into)),
    };
    let piece = match position.at(from) {
        Some(piece) => piece,
        None => {
            return Err(Rejected::EmptySquare { from });
        },
    };
    if piece.color != position.turn() {
        return Err(Rejected::NotYourTurn { piece });
    }
    if from == to {
        return Err(Rejected::CannotReach { from, to });
    }
    // Castling needs no notation of its own: it is the king's two-square
    // move. A king can never legally travel two squares any other way.
    if piece.role == Role::King && from == Square::at(4, if piece.color == Color::White {
        0
    } else {
        7
    }) {
        if let Some(wing) = castle_wing_exec(piece.color, to) {
            // Only a pawn promotes: a promotion spelled as a castle is refused.
            if promotion.is_some() {
                return Err(Rejected::NotAPromotion { from, to });
            }
            return castle(&position, piece.color, wing);
        }
    }
    if let Some(target) = position.at(to) {
        if target.color == piece.color {
            return Err(Rejected::OwnPieceAt { to });
        }
    }
    if !reaches_exec(&position, piece, from, to) {
        return Err(Rejected::CannotReach { from, to });
    }
    let role = match promoted_role_exec(piece, from, to, promotion) {
        Ok(role) => role,
        Err(e) => {
            return Err(e);
        },
    };
    let edits = move_edits_exec(&position, piece, from, to, role);
    let after = position.apply(&edits);
    if let Some(king) = threatened_king_exec(&after, piece.color) {
        return Err(Rejected::IntoCheck { king });
    }
    Ok(edits)
}

/// The reducer: a pure transition from one position to the next —
/// `expand` to validate and compile the action, then apply the edits.
pub fn reduce(position: Position, action: Action) -> (next: Result<Position, Rejected>)
    ensures
        position_result(next) == reduce_spec(position@, action),
{
    match expand(position, action) {
        Ok(edits) => Ok(position.apply(&edits)),
        Err(e) => Err(e),
    }
}

/// The actions tried for a from–to pair.
fn candidates_exec(position: &Position, from: Square, to: Square) -> (actions: Vec<Action>)
    ensures
        actions@ == candidates(position@, from, to),
{
    let last: u8 = match position.turn() {
        Color::White => 7,
        Color::Black => 0,
    };
    let promoting = to.rank() == last && match position.at(from) {
        Some(piece) => piece.role == Role::Pawn,
        None => false,
    };
    if promoting {
        let actions = vec![
            Action::Promote { from, to, into: Role::Queen },
            Action::Promote { from, to, into: Role::Rook },
            Action::Promote { from, to, into: Role::Bishop },
            Action::Promote { from, to, into: Role::Knight },
        ];
        assert(actions@ =~= candidates(position@, from, to));
        actions
    } else {
        let actions = vec![Action::Move { from, to }];
        assert(actions@ =~= candidates(position@, from, to));
        actions
    }
}

/// The legal actions for pair number `k`.
fn legal_at_exec(position: &Position, k: usize) -> (actions: Vec<Action>)
    requires
        k < 4096,
    ensures
        actions@ == legal_at(position@, k as int),
{
    broadcast use crate::square::lemma_square_of;
    let from = k / 64;
    let own = match position.at_index(from) {
        Some(piece) => piece.color == position.turn(),
        None => false,
    };
    let mut legal: Vec<Action> = Vec::new();
    if !own {
        return legal;
    }
    let candidates = candidates_exec(position, Square::from_index(from), Square::from_index(k % 64));
    let mut j: usize = 0;
    while j < candidates.len()
        invariant
            j <= candidates.len(),
            legal@ == keep_legal(position@, candidates@.take(j as int)),
        decreases candidates.len() - j,
    {
        assert(candidates@.take(j + 1).drop_last() =~= candidates@.take(j as int));
        if expand(*position, candidates[j]).is_ok() {
            legal.push(candidates[j]);
        }
        j = j + 1;
    }
    assert(candidates@.take(candidates.len() as int) =~= candidates@);
    legal
}

/// All actions the side to move can legally take, from-square major in
/// board order. Pawn moves onto the last rank appear as four `Promote`
/// actions, never as a bare `Move`.
pub fn legal_actions(position: Position) -> (actions: Vec<Action>)
    ensures
        actions@ == legal_actions_spec(position@),
{
    let mut actions: Vec<Action> = Vec::new();
    let mut k: usize = 0;
    while k < 4096
        invariant
            k <= 4096,
            actions@ == legal_upto(position@, k as int),
        decreases 4096 - k,
    {
        let more = legal_at_exec(&position, k);
        let mut j: usize = 0;
        let ghost before = actions@;
        while j < more.len()
            invariant
                j <= more.len(),
                actions@ == before + more@.take(j as int),
            decreases more.len() - j,
        {
            actions.push(more[j]);
            assert(actions@ =~= before + more@.take(j + 1));
            j = j + 1;
        }
        assert(more@.take(more.len() as int) =~= more@);
        k = k + 1;
    }
    actions
}

/// The legal prefixes only grow.
proof fn lemma_legal_upto_grows(m: PositionModel, a: int, b: int)
    requires
        0 <= a <= b,
    ensures
        legal_upto(m, a).len() <= legal_upto(m, b).len(),
    decreases b - a,
{
    if a < b {
        lemma_legal_upto_grows(m, a, b - 1);
    }
}

/// Whether the side to move has any legal action; stops at the first.
pub(crate) fn has_legal_action(position: &Position) -> (any: bool)
    ensures
        any == (legal_actions_spec(position@).len() > 0),
{
    let mut k: usize = 0;
    while k < 4096
        invariant
            k <= 4096,
            legal_upto(position@, k as int).len() == 0,
        decreases 4096 - k,
    {
        let here = legal_at_exec(position, k);
        if here.len() > 0 {
            proof {
                lemma_legal_upto_grows(position@, k + 1, 4096);
            }
            return true;
        }
        k = k + 1;
    }
    false
}

/// Whether the material on the board is FIDE's dead material table.
fn insufficient_material_exec(position: &Position) -> (dead: bool)
    ensures
        dead == insufficient_material(position@),
{
    let mut white_kings: u32 = 0;
    let mut black_kings: u32 = 0;
    let mut heavy: u32 = 0;
    let mut knights: u32 = 0;
    let mut white_bishops: u32 = 0;
    let mut black_bishops: u32 = 0;
    let mut white_shade: u32 = 0;
    let mut black_shade: u32 = 0;
    let mut i: usize = 0;
    while i < 64
        invariant
            i <= 64,
            white_kings <= i,
            black_kings <= i,
            heavy <= i,
            knights <= i,
            white_bishops <= i,
            black_bishops <= i,
            ({
                let t = material_upto(position@, i as int);
                &&& t.white_kings == white_kings
                &&& t.black_kings == black_kings
                &&& t.heavy == heavy
                &&& t.knights == knights
                &&& t.white_bishops == white_bishops
                &&& t.black_bishops == black_bishops
                &&& t.white_shade == white_shade
                &&& t.black_shade == black_shade
            }),
        decreases 64 - i,
    {
        let shade = ((i / 8 + i % 8) % 2) as u32;
        if let Some(piece) = position.at_index(i) {
            match piece.role {
                Role::King => {
                    if piece.color == Color::White {
                        white_kings = white_kings + 1;
                    } else {
                        black_kings = black_kings + 1;
                    }
                },
                Role::Knight => {
                    knights = knights + 1;
                },
                Role::Bishop => {
                    if piece.color == Color::White {
                        white_bishops = white_bishops + 1;
                        white_shade = shade;
                    } else {
                        black_bishops = black_bishops + 1;
                        black_shade = shade;
                    }
                },
                _ => {
                    heavy = heavy + 1;
                },
            }
        }
        i = i + 1;
    }
    white_kings == 1 && black_kings == 1 && heavy == 0 && (knights + white_bishops + black_bishops <= 1 || (knights == 0 && white_bishops
        == 1 && black_bishops == 1 && white_shade == black_shade))
}

/// Derive a position's mode: the side to move either has a legal action,
/// or the game has been played (checkmate or stalemate); a playable board
/// with dead material is drawn. Costs a pass over the legal actions —
/// carry the result rather than recomputing it per action.
pub fn mode(position: Position) -> (mode: Mode)
    ensures
        mode == mode_spec(position@),
{
    if !has_legal_action(&position) {
        if threatened_king_exec(&position, position.turn()).is_some() {
            Mode::Played(Ending::Checkmate { winner: position.turn().opponent() })
        } else {
            Mode::Played(Ending::Stalemate)
        }
    } else if insufficient_material_exec(&position) {
        Mode::Played(Ending::Draw(DrawReason::InsufficientMaterial))
    } else {
        Mode::Playing
    }
}


proof fn lemma_keep_legal_accepted(m: PositionModel, actions: Seq<Action>)
    ensures
        forall|i: int|
            0 <= i < keep_legal(m, actions).len() ==> #[trigger] reduce_spec(
                m,
                keep_legal(m, actions)[i],
            ) is Ok,
    decreases actions.len(),
{
    if actions.len() > 0 {
        lemma_keep_legal_accepted(m, actions.drop_last());
    }
}

proof fn lemma_legal_upto_accepted(m: PositionModel, k: int)
    ensures
        forall|i: int|
            0 <= i < legal_upto(m, k).len() ==> #[trigger] reduce_spec(m, legal_upto(m, k)[i]) is Ok,
    decreases k,
{
    if k > 0 {
        lemma_legal_upto_accepted(m, k - 1);
        let from = (k - 1) / 64;
        if (m.board[from] matches Some(p) && p.color == m.turn) {
            lemma_keep_legal_accepted(
                m,
                crate::rules::candidates(m, crate::square::square_of(from), crate::square::square_of((k - 1) % 64)),
            );
        }
        let before = legal_upto(m, k - 1);
        let more = legal_at(m, k - 1);
        assert forall|i: int| 0 <= i < legal_upto(m, k).len() implies #[trigger] reduce_spec(
            m,
            legal_upto(m, k)[i],
        ) is Ok by {
            if i >= before.len() {
                assert(legal_upto(m, k)[i] == more[i - before.len()]);
            }
        }
    }
}

/// Every legal action is one the reducer accepts.
pub proof fn lemma_legal_accepted(m: PositionModel, i: int)
    requires
        0 <= i < legal_actions_spec(m).len(),
    ensures
        reduce_spec(m, legal_actions_spec(m)[i]) is Ok,
{
    lemma_legal_upto_accepted(m, 4096);
}


/// The board-order number of an action's from–to pair.
pub open spec fn action_key(b: Action) -> int {
    b.from_sq().idx() * 64 + b.to_sq().idx()
}

/// A promotion is only ever offered for a pawn.
pub open spec fn promotes_pawn(m: PositionModel, b: Action) -> bool {
    b is Promote ==> (piece_on(m, b.from_sq()) matches Some(p) && p.role == Role::Pawn)
}

/// What every listed action satisfies: the reducer takes it, and it is a
/// promotion only for a pawn.
pub open spec fn well_listed(m: PositionModel, b: Action) -> bool {
    expand_spec(m, b) is Ok && promotes_pawn(m, b)
}

proof fn lemma_keep_legal_shape(m: PositionModel, s: Seq<Action>, from: Square, to: Square)
    requires
        forall|j: int|
            0 <= j < s.len() ==> (#[trigger] s[j]).from_sq() == from && s[j].to_sq() == to
                && promotes_pawn(m, s[j]),
    ensures
        forall|i: int|
            0 <= i < keep_legal(m, s).len() ==> (#[trigger] keep_legal(m, s)[i]).from_sq() == from
                && keep_legal(m, s)[i].to_sq() == to && well_listed(m, keep_legal(m, s)[i]),
        forall|i: int|
            0 <= i < keep_legal(m, s).len() ==> s.contains(#[trigger] keep_legal(m, s)[i]),
        s.no_duplicates() ==> keep_legal(m, s).no_duplicates(),
    decreases s.len(),
{
    if s.len() > 0 {
        let rest = s.drop_last();
        lemma_keep_legal_shape(m, rest, from, to);
        let kept = keep_legal(m, rest);
        assert forall|i: int| 0 <= i < keep_legal(m, s).len() implies s.contains(
            #[trigger] keep_legal(m, s)[i],
        ) by {
            if i < kept.len() {
                let x = kept[i];
                assert(rest.contains(x));
                let j = choose|j: int| 0 <= j < rest.len() && rest[j] == x;
                assert(s[j] == x);
            } else {
                assert(s[s.len() - 1] == s.last());
            }
        }
        if s.no_duplicates() && expand_spec(m, s.last()) is Ok {
            assert(!rest.contains(s.last())) by {
                if rest.contains(s.last()) {
                    let j = choose|j: int| 0 <= j < rest.len() && rest[j] == s.last();
                    assert(s[j] == s[s.len() - 1]);
                }
            }
            assert forall|i: int, k: int|
                0 <= i < keep_legal(m, s).len() && 0 <= k < keep_legal(m, s).len() && i != k
                    implies keep_legal(m, s)[i] != keep_legal(m, s)[k] by {
                if i == kept.len() {
                    assert(rest.contains(kept[k]));
                } else if k == kept.len() {
                    assert(rest.contains(kept[i]));
                }
            }
        }
    }
}

proof fn lemma_legal_at_shape(m: PositionModel, j: int)
    requires
        0 <= j < 4096,
    ensures
        forall|i: int|
            0 <= i < legal_at(m, j).len() ==> action_key(#[trigger] legal_at(m, j)[i]) == j
                && well_listed(m, legal_at(m, j)[i]),
        legal_at(m, j).no_duplicates(),
{
    let from = square_of(j / 64);
    let to = square_of(j % 64);
    crate::square::lemma_square_of(j / 64);
    crate::square::lemma_square_of(j % 64);
    assert((j / 64) * 64 + j % 64 == j);
    if (m.board[j / 64] matches Some(p) && p.color == m.turn) {
        let c = candidates(m, from, to);
        assert(c.no_duplicates());
        lemma_keep_legal_shape(m, c, from, to);
    }
}

proof fn lemma_legal_upto_shape(m: PositionModel, k: int)
    requires
        0 <= k <= 4096,
    ensures
        forall|i: int|
            0 <= i < legal_upto(m, k).len() ==> 0 <= action_key(#[trigger] legal_upto(m, k)[i]) < k
                && well_listed(m, legal_upto(m, k)[i]),
        legal_upto(m, k).no_duplicates(),
    decreases k,
{
    if k > 0 {
        lemma_legal_upto_shape(m, k - 1);
        lemma_legal_at_shape(m, k - 1);
        let before = legal_upto(m, k - 1);
        let more = legal_at(m, k - 1);
        let all = legal_upto(m, k);
        assert(all == before + more);
        assert forall|i: int| 0 <= i < all.len() implies 0 <= action_key(#[trigger] all[i]) < k
            && well_listed(m, all[i]) by {
            if i >= before.len() {
                assert(all[i] == more[i - before.len()]);
            }
        }
        assert forall|i: int, l: int| 0 <= i < all.len() && 0 <= l < all.len() && i != l implies all[i]
            != all[l] by {
            if i < before.len() && l >= before.len() {
                assert(all[l] == more[l - before.len()]);
                assert(action_key(all[i]) < k - 1);
            } else if l < before.len() && i >= before.len() {
                assert(all[i] == more[i - before.len()]);
                assert(action_key(all[l]) < k - 1);
            } else if i >= before.len() && l >= before.len() {
                assert(all[i] == more[i - before.len()]);
                assert(all[l] == more[l - before.len()]);
            }
        }
    }
}

/// No action is listed twice, and each listed action is one the reducer
/// accepts, a promotion only for a pawn.
pub proof fn lemma_legal_distinct(m: PositionModel)
    ensures
        legal_actions_spec(m).no_duplicates(),
        forall|i: int|
            0 <= i < legal_actions_spec(m).len() ==> well_listed(
                m,
                #[trigger] legal_actions_spec(m)[i],
            ),
{
    lemma_legal_upto_shape(m, 4096);
}


/// One rule covers pins, moving into check, ignoring check and castling
/// out of, through or into check: an accepted move never leaves the
/// mover's own king attacked — for a castle, unless the castling king is a
/// second king of its side and the first was attacked already (castling
/// checks only the castling king's squares) — and a castle's king squares
/// (start, passage, landing) were none of them attacked before the move.
pub proof fn lemma_no_self_check(m: PositionModel, a: Action)
    requires
        m.board.len() == 64,
        reduce_spec(m, a) is Ok,
    ensures
        !(piece_on(m, a.from_sq()) matches Some(p) && p.role == Role::King && a.from_sq()
            == crate::rules::king_home(p.color) && castle_wing(p.color, a.to_sq()) is Some)
            || king_from(m, m.turn, 0) == a.from_sq().idx() || !is_in_check(m, m.turn)
            ==> !is_in_check(
            reduce_spec(m, a)->Ok_0,
            m.turn,
        ),
        (piece_on(m, a.from_sq()) matches Some(p) && p.role == Role::King && a.from_sq()
            == crate::rules::king_home(p.color) && castle_wing(p.color, a.to_sq()) is Some) ==> {
            let rank = crate::rules::home_rank(m.turn);
            let wing = castle_wing(m.turn, a.to_sq())->0;
            let enemy = crate::piece::spec_opponent(m.turn);
            &&& !attacked(m, a.from_sq(), enemy)
            &&& !attacked(m, crate::square::square_at(crate::rules::castle_rook_to_file(wing), rank), enemy)
            &&& !attacked(m, a.to_sq(), enemy)
        },
{
    let piece = piece_on(m, a.from_sq());
    if (piece matches Some(p) && p.role == Role::King && a.from_sq() == crate::rules::king_home(p.color)
        && castle_wing(p.color, a.to_sq()) is Some) {
        let p = piece->0;
        assert(p.color == m.turn);
        crate::square::lemma_square_at(4, crate::rules::home_rank(m.turn));
        crate::square::lemma_square_at(6, crate::rules::home_rank(m.turn));
        crate::square::lemma_square_at(2, crate::rules::home_rank(m.turn));
        crate::square::lemma_square_valid(a.to_sq());
        crate::square::lemma_square_eq(a.to_sq(), crate::square::square_at(6, crate::rules::home_rank(m.turn)));
        crate::square::lemma_square_eq(a.to_sq(), crate::square::square_at(2, crate::rules::home_rank(m.turn)));
        let wing = castle_wing(m.turn, a.to_sq())->0;
        assert(a is Move);
        assert(reduce_spec(m, a) == Ok::<PositionModel, Rejection>(
            apply_spec(m, castle_spec(m, m.turn, wing)->Ok_0),
        ));
        if king_from(m, m.turn, 0) == a.from_sq().idx() || !is_in_check(m, m.turn) {
            lemma_castle_out_of_check(m, m.turn, wing);
        }
    }
}

} // verus!

verus! {

/// The first of `color`'s kings from index `i` on: none stands before it,
/// and it is one.
proof fn lemma_king_from_scan(m: PositionModel, color: Color, i: int)
    requires
        0 <= i <= 64,
    ensures
        i <= king_from(m, color, i) <= 64,
        forall|j: int|
            i <= j < king_from(m, color, i) ==> m.board[j] != Some(
                Piece { color, role: Role::King },
            ),
        king_from(m, color, i) < 64 ==> m.board[king_from(m, color, i)] == Some(
            Piece { color, role: Role::King },
        ),
    decreases 64 - i,
{
    if i < 64 && m.board[i] != Some(Piece { color, role: Role::King }) {
        lemma_king_from_scan(m, color, i + 1);
    }
}

/// A king with none of its side's kings before it is the first one.
proof fn lemma_king_from_found(m: PositionModel, color: Color, i: int, k: int)
    requires
        0 <= i <= k < 64,
        forall|j: int| i <= j < k ==> m.board[j] != Some(Piece { color, role: Role::King }),
        m.board[k] == Some(Piece { color, role: Role::King }),
    ensures
        king_from(m, color, i) == k,
    decreases k - i,
{
    if i < k {
        lemma_king_from_found(m, color, i + 1, k);
    }
}

/// The board castling leaves: king and rook lifted from home and placed
/// on their squares.
pub open spec fn castled_board(m: PositionModel, color: Color, wing: Wing) -> Seq<Option<Piece>> {
    let rank = home_rank(color);
    m.board.update(square_at(4, rank).idx(), None).update(
        square_at(castle_rook_from_file(wing), rank).idx(),
        None,
    ).update(square_at(castle_king_file(wing), rank).idx(), Some(Piece { color, role: Role::King })).update(
        square_at(castle_rook_to_file(wing), rank).idx(),
        Some(Piece { color, role: Role::Rook }),
    )
}

/// Castling leaves its board.
pub(crate) proof fn lemma_castle_board(m: PositionModel, color: Color, wing: Wing)
    requires
        castle_spec(m, color, wing) is Ok,
    ensures
        apply_spec(m, castle_spec(m, color, wing)->Ok_0).board == castled_board(m, color, wing),
{
    let rank = home_rank(color);
    let kf = square_at(4, rank);
    let kt = square_at(castle_king_file(wing), rank);
    let rf = square_at(castle_rook_from_file(wing), rank);
    let rt = square_at(castle_rook_to_file(wing), rank);
    let e0 = Edit::Lift(kf);
    let e1 = Edit::Lift(rf);
    let e2 = Edit::Place(kt, Piece { color, role: Role::King });
    let e3 = Edit::Place(rt, Piece { color, role: Role::Rook });
    let edits = castle_spec(m, color, wing)->Ok_0;
    assert(edits == seq![e0, e1, e2, e3]);
    let m0 = PositionModel { passant: None, ..m };
    lemma_apply_concat(m0, seq![e0, e1, e2], seq![e3]);
    lemma_apply_concat(m0, seq![e0, e1], seq![e2]);
    lemma_apply_concat(m0, seq![e0], seq![e1]);
    assert(seq![e0, e1, e2] + seq![e3] =~= edits);
    assert(seq![e0, e1] + seq![e2] =~= seq![e0, e1, e2]);
    assert(seq![e0] + seq![e1] =~= seq![e0, e1]);
    lemma_apply_one(m0, e0);
    let m1 = apply_edit(m0, e0);
    lemma_apply_one(m1, e1);
    let m2 = apply_edit(m1, e1);
    lemma_apply_one(m2, e2);
    let m3 = apply_edit(m2, e2);
    lemma_apply_one(m3, e3);
}


/// A line onto the castled king's square that is clear after castling was
/// clear before: of the squares castling empties, the king's home lies on
/// such a line only behind the rook's new square, which castling fills,
/// and the rook's home only off the board's edge.
proof fn lemma_castle_line(m: PositionModel, q: PositionModel, color: Color, wing: Wing, from: Square)
    requires
        m.board.len() == 64,
        q.board == castled_board(m, color, wing),
        aligned(from, square_at(castle_king_file(wing), home_rank(color))),
        between_clear(q, from, square_at(castle_king_file(wing), home_rank(color))),
    ensures
        between_clear(m, from, square_at(castle_king_file(wing), home_rank(color))),
{
    let rank = home_rank(color);
    let kt = square_at(castle_king_file(wing), rank);
    crate::square::lemma_square_valid(from);
    crate::square::lemma_square_at(4, rank);
    crate::square::lemma_square_at(castle_king_file(wing), rank);
    crate::square::lemma_square_at(castle_rook_from_file(wing), rank);
    crate::square::lemma_square_at(castle_rook_to_file(wing), rank);
    let f0 = from.file_of();
    let r0 = from.rank_of();
    let dx = kt.file_of() - f0;
    let dy = kt.rank_of() - r0;
    let n = max(abs(dx), abs(dy));
    let sx = sign(dx);
    let sy = sign(dy);
    assert forall|k: int| 1 <= k < n implies #[trigger] step_empty(m, from, sx, sy, k) by {
        assert(step_empty(q, from, sx, sy, k));
        if k + 1 < n {
            assert(step_empty(q, from, sx, sy, k + 1));
        }
        let f = f0 + steps(k, sx);
        let r = r0 + steps(k, sy);
        assert(0 <= f < 8 && 0 <= r < 8);
        assert(0 <= r * 8 + f < 64);
    }
}


/// No enemy piece attacks the castled king's square after castling if none
/// did before: the enemy's pieces stand where they stood, and a line that
/// reaches that square afterwards reached it before.
proof fn lemma_castle_unattacked(m: PositionModel, q: PositionModel, color: Color, wing: Wing)
    requires
        m.board.len() == 64,
        q.board == castled_board(m, color, wing),
        !attacked(m, square_at(castle_king_file(wing), home_rank(color)), crate::piece::spec_opponent(color)),
    ensures
        !attacked(q, square_at(castle_king_file(wing), home_rank(color)), crate::piece::spec_opponent(color)),
{
    let rank = home_rank(color);
    let kt = square_at(castle_king_file(wing), rank);
    let enemy = crate::piece::spec_opponent(color);
    crate::square::lemma_square_at(4, rank);
    crate::square::lemma_square_at(castle_king_file(wing), rank);
    crate::square::lemma_square_at(castle_rook_from_file(wing), rank);
    crate::square::lemma_square_at(castle_rook_to_file(wing), rank);
    assert forall|i: int| 0 <= i < 64 implies !#[trigger] attacks_from(q, i, kt, enemy) by {
        if attacks_from(q, i, kt, enemy) {
            let p = q.board[i]->0;
            assert(p.color == enemy);
            assert(q.board[i] == m.board[i]);
            let from = square_of(i);
            match p.role {
                Role::Bishop | Role::Rook | Role::Queen => {
                    lemma_castle_line(m, q, color, wing, from);
                },
                _ => {},
            }
            assert(attacks_from(m, i, kt, enemy));
        }
    }
}

/// A line from an enemy piece onto one of the mover's kings standing before
/// the castling king's home, in board order, that is clear after castling
/// was clear before: the king's home lies on such a line only behind the
/// rook's new square (or on the enemy piece's own square, which castling
/// fills), and the rook's home only off the board's edge.
proof fn lemma_castle_line_before(
    m: PositionModel,
    q: PositionModel,
    color: Color,
    wing: Wing,
    from: Square,
    target: Square,
)
    requires
        m.board.len() == 64,
        q.board == castled_board(m, color, wing),
        crate::rules::castle_between_empty(m, color, wing),
        m.board[square_at(castle_rook_from_file(wing), home_rank(color)).idx()] == Some(
            Piece { color, role: Role::Rook },
        ),
        m.board[target.idx()] == Some(Piece { color, role: Role::King }),
        target.idx() < square_at(4, home_rank(color)).idx(),
        q.board[from.idx()] matches Some(p) && p.color != color,
        aligned(from, target),
        between_clear(q, from, target),
    ensures
        between_clear(m, from, target),
{
    let rank = home_rank(color);
    crate::square::lemma_square_valid(from);
    crate::square::lemma_square_valid(target);
    crate::square::lemma_square_at(1, rank);
    crate::square::lemma_square_at(4, rank);
    crate::square::lemma_square_at(castle_king_file(wing), rank);
    crate::square::lemma_square_at(castle_rook_from_file(wing), rank);
    crate::square::lemma_square_at(castle_rook_to_file(wing), rank);
    crate::square::lemma_square_at(2, rank);
    crate::square::lemma_square_at(3, rank);
    let f0 = from.file_of();
    let r0 = from.rank_of();
    let dx = target.file_of() - f0;
    let dy = target.rank_of() - r0;
    let n = max(abs(dx), abs(dy));
    let sx = sign(dx);
    let sy = sign(dy);
    assert forall|k: int| 1 <= k < n implies #[trigger] step_empty(m, from, sx, sy, k) by {
        assert(step_empty(q, from, sx, sy, k));
        if k > 1 {
            assert(step_empty(q, from, sx, sy, k - 1));
        }
        let f = f0 + steps(k, sx);
        let r = r0 + steps(k, sy);
        assert(0 <= f < 8 && 0 <= r < 8);
        assert(0 <= r * 8 + f < 64);
    }
}

/// No enemy piece attacks a king of the mover standing before the castling
/// king's home after castling, if none did before.
proof fn lemma_castle_unattacked_before(
    m: PositionModel,
    q: PositionModel,
    color: Color,
    wing: Wing,
    target: Square,
)
    requires
        m.board.len() == 64,
        q.board == castled_board(m, color, wing),
        crate::rules::castle_between_empty(m, color, wing),
        m.board[square_at(castle_rook_from_file(wing), home_rank(color)).idx()] == Some(
            Piece { color, role: Role::Rook },
        ),
        m.board[target.idx()] == Some(Piece { color, role: Role::King }),
        target.idx() < square_at(4, home_rank(color)).idx(),
        !attacked(m, target, crate::piece::spec_opponent(color)),
    ensures
        !attacked(q, target, crate::piece::spec_opponent(color)),
{
    let rank = home_rank(color);
    let enemy = crate::piece::spec_opponent(color);
    crate::square::lemma_square_at(4, rank);
    crate::square::lemma_square_at(castle_king_file(wing), rank);
    crate::square::lemma_square_at(castle_rook_from_file(wing), rank);
    crate::square::lemma_square_at(castle_rook_to_file(wing), rank);
    assert forall|i: int| 0 <= i < 64 implies !#[trigger] attacks_from(q, i, target, enemy) by {
        if attacks_from(q, i, target, enemy) {
            let p = q.board[i]->0;
            assert(p.color == enemy);
            assert(q.board[i] == m.board[i]);
            let from = square_of(i);
            crate::square::lemma_square_at(i % 8, i / 8);
            match p.role {
                Role::Bishop | Role::Rook | Role::Queen => {
                    lemma_castle_line_before(m, q, color, wing, from, target);
                },
                _ => {},
            }
            assert(attacks_from(m, i, target, enemy));
        }
    }
}

/// Castling never leaves the castling king attacked, nor a king of its
/// side that was not attacked before: when the king that castles is the
/// first of its side's kings on the board (as on any board with one king a
/// side), or its side was not in check, it is not in check afterwards.
proof fn lemma_castle_out_of_check(m: PositionModel, color: Color, wing: Wing)
    requires
        m.board.len() == 64,
        castle_spec(m, color, wing) is Ok,
        m.board[square_at(4, home_rank(color)).idx()] == Some(Piece { color, role: Role::King }),
        king_from(m, color, 0) == square_at(4, home_rank(color)).idx() || !is_in_check(m, color),
    ensures
        !is_in_check(apply_spec(m, castle_spec(m, color, wing)->Ok_0), color),
{
    let q = apply_spec(m, castle_spec(m, color, wing)->Ok_0);
    let rank = home_rank(color);
    let kf = square_at(4, rank);
    let kt = square_at(castle_king_file(wing), rank);
    let king = Piece { color, role: Role::King };
    lemma_castle_board(m, color, wing);
    crate::square::lemma_square_at(4, rank);
    crate::square::lemma_square_at(castle_king_file(wing), rank);
    crate::square::lemma_square_at(castle_rook_from_file(wing), rank);
    crate::square::lemma_square_at(castle_rook_to_file(wing), rank);
    crate::square::lemma_square_at(1, rank);
    crate::square::lemma_square_at(2, rank);
    crate::square::lemma_square_at(3, rank);
    lemma_king_from_scan(m, color, 0);
    let k0 = king_from(m, color, 0);
    if k0 == kf.idx() {
        assert forall|j: int| 0 <= j < kt.idx() implies q.board[j] != Some(king) by {
            if j < kf.idx() {
                assert(m.board[j] != Some(king));
            }
        }
        lemma_king_from_found(q, color, 0, kt.idx());
        crate::square::lemma_square_of_idx(kt);
        lemma_castle_unattacked(m, q, color, wing);
    } else {
        assert(k0 < kf.idx());
        assert forall|j: int| 0 <= j <= k0 implies q.board[j] == m.board[j] by {}
        lemma_king_from_found(q, color, 0, k0);
        let target = square_of(k0);
        crate::square::lemma_square_at(k0 % 8, k0 / 8);
        crate::square::lemma_square_of_idx(target);
        assert(target.idx() == k0);
        lemma_castle_unattacked_before(m, q, color, wing, target);
    }
}

} // verus!
