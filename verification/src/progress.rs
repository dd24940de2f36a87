//! Why every game ends: a measure that each accepted move strictly lowers.
//!
//! The board's potential counts each piece once, and each pawn once more
//! for every rank it has yet to advance. A quiet ply (no capture, no pawn
//! move) leaves the potential alone and ticks the seventy-five-move clock;
//! any other ply lowers the potential and resets the clock. So the
//! potential, weighted above the clock's range, plus the plies the clock
//! has left, falls with every move of a game that is still playing.

use vstd::prelude::*;

use crate::action::Action;
use crate::game::{apply_game_spec, auto_mode, quiet, quiet_run, well_formed, GameModel};
use crate::piece::{Color, Piece, Role};
use crate::reduce::{Edit, Mode, Rejection};
use crate::rules::{
    apply_edit, apply_edits, apply_spec, castle_spec, castle_wing, expand_spec, king_home,
    last_rank, legal_actions_spec, mode_spec, move_edits, pawn_dir, piece_on, promoted_role,
    reaches, reduce_spec, PositionModel,
};
use crate::square::{lemma_square_at, lemma_square_eq, lemma_square_of_idx, lemma_square_valid, square_at, Square};

verus! {

/// How many ranks a pawn of `color` on `rank` has yet to advance.
pub open spec fn pawn_left(color: Color, rank: int) -> int {
    match color {
        Color::White => 7 - rank,
        Color::Black => rank,
    }
}

/// What a square contributes to the potential: one per piece, and one
/// more per rank a pawn has left to go.
pub open spec fn weight(cell: Option<Piece>, i: int) -> int {
    match cell {
        None => 0,
        Some(p) => if p.role == Role::Pawn {
            1 + pawn_left(p.color, i / 8)
        } else {
            1
        },
    }
}

/// The potential of the first `n` squares.
pub open spec fn potential_upto(board: Seq<Option<Piece>>, n: int) -> int
    decreases n,
{
    if n <= 0 {
        0
    } else {
        potential_upto(board, n - 1) + weight(board[n - 1], n - 1)
    }
}

/// The potential of a position's board.
pub open spec fn potential(m: PositionModel) -> int {
    potential_upto(m.board, 64)
}

/// A game's distance from its end: the potential, weighted above the
/// seventy-five-move clock's range, plus the plies that clock has left.
pub open spec fn progress(g: GameModel) -> int {
    potential(g.history.last()) * 151 + 150 - quiet_run(g.history, g.log, g.log.len() as int)
}

proof fn lemma_weight_nonneg(cell: Option<Piece>, i: int)
    requires
        0 <= i < 64,
    ensures
        weight(cell, i) >= 0,
{
}

proof fn lemma_potential_nonneg(board: Seq<Option<Piece>>, n: int)
    requires
        0 <= n <= 64,
    ensures
        potential_upto(board, n) >= 0,
    decreases n,
{
    if n > 0 {
        lemma_potential_nonneg(board, n - 1);
        lemma_weight_nonneg(board[n - 1], n - 1);
    }
}

/// Changing one square changes the potential by that square's weights.
proof fn lemma_potential_update(board: Seq<Option<Piece>>, i: int, x: Option<Piece>, n: int)
    requires
        0 <= i < board.len(),
        0 <= n <= board.len(),
    ensures
        potential_upto(board.update(i, x), n) == potential_upto(board, n) + if i < n {
            weight(x, i) - weight(board[i], i)
        } else {
            0
        },
    decreases n,
{
    if n > 0 {
        lemma_potential_update(board, i, x, n - 1);
    }
}

/// Edits applied one list after another.
pub(crate) proof fn lemma_apply_concat(m: PositionModel, a: Seq<Edit>, b: Seq<Edit>)
    ensures
        apply_edits(m, a + b) == apply_edits(apply_edits(m, a), b),
    decreases b.len(),
{
    if b.len() == 0 {
        assert(a + b =~= a);
    } else {
        lemma_apply_concat(m, a, b.drop_last());
        assert((a + b).drop_last() =~= a + b.drop_last());
    }
}

/// A single edit applied as a list.
pub(crate) proof fn lemma_apply_one(m: PositionModel, e: Edit)
    ensures
        apply_edits(m, seq![e]) == apply_edit(m, e),
{
    assert(seq![e].drop_last() =~= Seq::<Edit>::empty());
    assert(seq![e].last() == e);
    assert(apply_edits(m, Seq::<Edit>::empty()) == m);
}

/// Castling moves king and rook onto empty squares: the potential stays.
proof fn lemma_castle_potential(m: PositionModel, color: Color, wing: crate::piece::Wing)
    requires
        m.board.len() == 64,
        castle_spec(m, color, wing) is Ok,
        piece_on(m, king_home(color)) == Some(Piece { color, role: Role::King }),
    ensures
        potential(apply_spec(m, castle_spec(m, color, wing)->Ok_0)) == potential(m),
{
    let rank = crate::rules::home_rank(color);
    let kf = square_at(4, rank);
    let kt = square_at(crate::rules::castle_king_file(wing), rank);
    let rf = square_at(crate::rules::castle_rook_from_file(wing), rank);
    let rt = square_at(crate::rules::castle_rook_to_file(wing), rank);
    lemma_square_at(4, rank);
    lemma_square_at(crate::rules::castle_king_file(wing), rank);
    lemma_square_at(crate::rules::castle_rook_from_file(wing), rank);
    lemma_square_at(crate::rules::castle_rook_to_file(wing), rank);
    let e0 = Edit::Lift(kf);
    let e1 = Edit::Lift(rf);
    let e2 = Edit::Place(kt, Piece { color, role: Role::King });
    let e3 = Edit::Place(rt, Piece { color, role: Role::Rook });
    let edits = castle_spec(m, color, wing)->Ok_0;
    assert(edits == seq![e0, e1, e2, e3]);
    let m0 = PositionModel { passant: None, ..m };
    lemma_apply_concat(m0, seq![e0, e1, e2], seq![e3]);
    lemma_apply_concat(m0, seq![e0, e1], seq![e2]);
    lemma_apply_concat(m0, seq![e0], seq![e1]);
    assert(seq![e0, e1, e2] + seq![e3] =~= edits);
    assert(seq![e0, e1] + seq![e2] =~= seq![e0, e1, e2]);
    assert(seq![e0] + seq![e1] =~= seq![e0, e1]);
    lemma_apply_one(m0, e0);
    let m1 = apply_edit(m0, e0);
    lemma_apply_one(m1, e1);
    let m2 = apply_edit(m1, e1);
    lemma_apply_one(m2, e2);
    let m3 = apply_edit(m2, e2);
    lemma_apply_one(m3, e3);
    let b = m.board;
    lemma_potential_update(b, kf.idx(), None, 64);
    lemma_potential_update(m1.board, rf.idx(), None, 64);
    lemma_potential_update(m2.board, kt.idx(), Some(Piece { color, role: Role::King }), 64);
    lemma_potential_update(m3.board, rt.idx(), Some(Piece { color, role: Role::Rook }), 64);
}

} // verus!

verus! {

/// A square's rank is its index divided by eight.
proof fn lemma_rank_of_idx(s: Square)
    ensures
        0 <= s.idx() < 64,
        s.idx() / 8 == s.rank_of(),
{
    lemma_square_valid(s);
    lemma_square_of_idx(s);
    crate::square::lemma_square_of(s.idx());
}

/// An ordinary move lifts what it captures, the pawn it passes, and the
/// mover, and places the mover (as `role`): a quiet one (no pawn, no
/// capture) keeps the potential, any other lowers it.
proof fn lemma_move_potential(m: PositionModel, piece: Piece, from: Square, to: Square, role: Role)
    requires
        m.board.len() == 64,
        piece_on(m, from) == Some(piece),
        from != to,
        reaches(m, piece, from, to),
        role == piece.role || (piece.role == Role::Pawn && to.rank_of() == last_rank(piece.color)
            && role != Role::Pawn),
    ensures
        (piece.role != Role::Pawn && piece_on(m, to) is None) ==> potential(
            apply_spec(m, move_edits(m, piece, from, to, role)),
        ) == potential(m),
        !(piece.role != Role::Pawn && piece_on(m, to) is None) ==> potential(
            apply_spec(m, move_edits(m, piece, from, to, role)),
        ) < potential(m),
{
    lemma_rank_of_idx(from);
    lemma_rank_of_idx(to);
    lemma_square_eq(from, to);
    lemma_square_valid(from);
    lemma_square_valid(to);
    let placed = Piece { color: piece.color, role };
    let capture = if piece_on(m, to) is Some {
        seq![Edit::Lift(to)]
    } else {
        Seq::<Edit>::empty()
    };
    let ep_square = square_at(to.file_of(), from.rank_of());
    let passing = piece.role == Role::Pawn && from.file_of() != to.file_of() && m.passant == Some(
        to,
    );
    let en_passant = if passing {
        seq![Edit::Lift(ep_square)]
    } else {
        Seq::<Edit>::empty()
    };
    let core = seq![Edit::Lift(from), Edit::Place(to, placed)];
    let skip = if piece.role == Role::Pawn && crate::rules::abs(from.rank_of() - to.rank_of()) == 2 {
        seq![Edit::Skip(square_at(from.file_of(), (from.rank_of() + to.rank_of()) / 2))]
    } else {
        Seq::<Edit>::empty()
    };
    let edits = move_edits(m, piece, from, to, role);
    assert(edits == capture + en_passant + core + skip);
    let m0 = PositionModel { passant: None, ..m };
    let b = m.board;
    lemma_apply_concat(m0, capture + en_passant + core, skip);
    lemma_apply_concat(m0, capture + en_passant, core);
    lemma_apply_concat(m0, capture, en_passant);
    // the capture
    let m1 = apply_edits(m0, capture);
    if piece_on(m, to) is Some {
        lemma_apply_one(m0, Edit::Lift(to));
        lemma_potential_update(b, to.idx(), None, 64);
        assert(m1.board == b.update(to.idx(), None));
    } else {
        assert(m1 == m0);
    }
    // the pawn passed en passant
    let m2 = apply_edits(m1, en_passant);
    if passing {
        lemma_square_at(to.file_of(), from.rank_of());
        lemma_rank_of_idx(ep_square);
        lemma_square_eq(ep_square, to);
        lemma_square_eq(ep_square, from);
        lemma_apply_one(m1, Edit::Lift(ep_square));
        lemma_potential_update(m1.board, ep_square.idx(), None, 64);
        lemma_weight_nonneg(m1.board[ep_square.idx()], ep_square.idx());
        assert(m2.board == m1.board.update(ep_square.idx(), None));
        assert(ep_square.idx() != from.idx());
    } else {
        assert(m2 == m1);
    }
    assert(m2.board[from.idx()] == Some(piece));
    assert(m2.board[to.idx()] is None);
    // the mover
    let m3 = apply_edit(m2, Edit::Lift(from));
    let m4 = apply_edit(m3, Edit::Place(to, placed));
    lemma_apply_concat(m2, seq![Edit::Lift(from)], seq![Edit::Place(to, placed)]);
    assert(seq![Edit::Lift(from)] + seq![Edit::Place(to, placed)] =~= core);
    lemma_apply_one(m2, Edit::Lift(from));
    lemma_apply_one(m3, Edit::Place(to, placed));
    lemma_potential_update(m2.board, from.idx(), None, 64);
    lemma_potential_update(m3.board, to.idx(), Some(placed), 64);
    assert(m3.board[to.idx()] is None);
    // the skip leaves the board alone
    let m5 = apply_edits(m4, skip);
    if skip.len() > 0 {
        lemma_apply_one(m4, skip[0]);
        assert(skip =~= seq![skip[0]]);
    } else {
        assert(m5 == m4);
    }
    assert(m5.board == m4.board);
    // the mover's weight before and after
    if piece.role == Role::Pawn {
        let dy = to.rank_of() - from.rank_of();
        assert(dy == pawn_dir(piece.color) || dy == 2 * pawn_dir(piece.color));
    }
}

} // verus!

verus! {

/// Every accepted action keeps the potential if it is quiet and lowers it
/// otherwise.
pub proof fn lemma_reduce_potential(m: PositionModel, a: Action)
    requires
        m.board.len() == 64,
        reduce_spec(m, a) is Ok,
    ensures
        quiet(m, a) ==> potential(reduce_spec(m, a)->Ok_0) == potential(m),
        !quiet(m, a) ==> potential(reduce_spec(m, a)->Ok_0) < potential(m),
{
    let from = a.from_sq();
    let to = a.to_sq();
    let piece = piece_on(m, from)->0;
    if piece.role == Role::King && from == king_home(piece.color) && castle_wing(piece.color, to) is Some {
        let wing = castle_wing(piece.color, to)->0;
        lemma_castle_potential(m, piece.color, wing);
        let rank = crate::rules::home_rank(piece.color);
        lemma_square_at(6, rank);
        lemma_square_at(2, rank);
        lemma_square_eq(to, square_at(6, rank));
        lemma_square_eq(to, square_at(2, rank));
    } else {
        let promotion = match a {
            Action::Move { .. } => None,
            Action::Promote { into, .. } => Some(into),
        };
        let role = promoted_role(piece, from, to, promotion)->Ok_0;
        lemma_move_potential(m, piece, from, to, role);
    }
}

/// The quiet run reads only the plies before `n`.
proof fn lemma_quiet_run_prefix(
    h1: Seq<PositionModel>,
    l1: Seq<Action>,
    h2: Seq<PositionModel>,
    l2: Seq<Action>,
    n: int,
)
    requires
        0 <= n,
        n <= h1.len(),
        n <= h2.len(),
        n <= l1.len(),
        n <= l2.len(),
        forall|i: int| 0 <= i < n ==> h1[i] == h2[i] && l1[i] == l2[i],
    ensures
        quiet_run(h1, l1, n) == quiet_run(h2, l2, n),
    decreases n,
{
    if n > 0 {
        lemma_quiet_run_prefix(h1, l1, h2, l2, n - 1);
    }
}

/// Every game ends: each move of a game still being played strictly
/// lowers its progress measure, which never goes below zero.
pub proof fn lemma_game_progresses(g: GameModel, a: Action)
    requires
        well_formed(g),
        g.mode == Mode::Playing,
        g.history.last().board.len() == 64,
        apply_game_spec(g, Ok(a)) is Ok,
    ensures
        0 <= progress(apply_game_spec(g, Ok(a))->Ok_0) < progress(g),
{
    let m = g.history.last();
    let next = apply_game_spec(g, Ok(a))->Ok_0;
    let n = g.log.len() as int;
    assert(auto_mode(g.history, g.log) == Mode::Playing);
    assert(quiet_run(g.history, g.log, n) < 150);
    lemma_reduce_potential(m, a);
    lemma_quiet_run_prefix(next.history, next.log, g.history, g.log, n);
    assert(next.history[n] == m);
    lemma_potential_nonneg(reduce_spec(m, a)->Ok_0.board, 64);
    lemma_potential_nonneg(m.board, 64);
    lemma_quiet_run_bounds(g.history, g.log, n);
}

proof fn lemma_quiet_run_bounds(h: Seq<PositionModel>, l: Seq<Action>, n: int)
    requires
        0 <= n,
    ensures
        0 <= quiet_run(h, l, n) <= n,
    decreases n,
{
    if n > 0 {
        lemma_quiet_run_bounds(h, l, n - 1);
    }
}

} // verus!
