//! What a capture takes: the capture tray's entries are the opponent's
//! pieces that a move took off the board.

use vstd::prelude::*;

use crate::action::Action;
use crate::game::victim;
use crate::piece::{spec_opponent, Piece, Role};
use crate::progress::{lemma_apply_concat, lemma_apply_one};
use crate::readback::passant_behind;
use crate::reduce::{castled_board, lemma_castle_board, Edit};
use crate::rules::{
    apply_edit, apply_edits, apply_spec, castle_king_file, castle_rook_from_file,
    castle_rook_to_file, castle_spec, castle_wing, home_rank, king_home, move_edits, piece_on,
    promoted_role, reduce_spec, PositionModel,
};
use crate::square::{lemma_square_at, lemma_square_of_idx, lemma_square_valid, square_at, Square};

verus! {

/// At most one edit, applied.
proof fn lemma_apply_short(m: PositionModel, e: Seq<Edit>)
    requires
        e.len() <= 1,
    ensures
        apply_edits(m, e) == (if e.len() == 0 {
            m
        } else {
            apply_edit(m, e[0])
        }),
{
    if e.len() == 1 {
        assert(e =~= seq![e[0]]);
        lemma_apply_one(m, e[0]);
    }
}

/// The board after an ordinary move: the target holds the mover (as
/// `role`), the square it left is empty, and so is the passed pawn's square
/// for en passant; every other square is as it was.
#[verifier::rlimit(40)]
proof fn lemma_move_board(m: PositionModel, piece: Piece, from: Square, to: Square, role: Role)
    requires
        m.board.len() == 64,
        from != to,
    ensures
        forall|i: int|
            0 <= i < 64 ==> #[trigger] apply_spec(m, move_edits(m, piece, from, to, role)).board[i]
                == (if i == to.idx() {
                Some(Piece { color: piece.color, role })
            } else if i == from.idx() {
                None
            } else if piece.role == Role::Pawn && from.file_of() != to.file_of() && m.passant
                == Some(to) && i == square_at(to.file_of(), from.rank_of()).idx() {
                None
            } else {
                m.board[i]
            }),
{
    lemma_square_valid(from);
    lemma_square_valid(to);
    lemma_square_of_idx(from);
    lemma_square_of_idx(to);
    lemma_square_at(to.file_of(), from.rank_of());
    let placed = Piece { color: piece.color, role };
    let m0 = PositionModel { passant: None, ..m };
    let cap = if piece_on(m, to) is Some {
        seq![Edit::Lift(to)]
    } else {
        Seq::<Edit>::empty()
    };
    let ep = if piece.role == Role::Pawn && from.file_of() != to.file_of() && m.passant == Some(to) {
        seq![Edit::Lift(square_at(to.file_of(), from.rank_of()))]
    } else {
        Seq::<Edit>::empty()
    };
    let lift = seq![Edit::Lift(from)];
    let place = seq![Edit::Place(to, placed)];
    let skip = if piece.role == Role::Pawn && crate::rules::abs(from.rank_of() - to.rank_of()) == 2 {
        seq![Edit::Skip(square_at(from.file_of(), (from.rank_of() + to.rank_of()) / 2))]
    } else {
        Seq::<Edit>::empty()
    };
    let edits = move_edits(m, piece, from, to, role);
    assert(edits =~= cap + ep + (lift + place) + skip);
    assert(cap + ep + (lift + place) =~= ((cap + ep) + lift) + place);
    lemma_apply_concat(m0, cap + ep + (lift + place), skip);
    lemma_apply_concat(m0, (cap + ep) + lift, place);
    lemma_apply_concat(m0, cap + ep, lift);
    lemma_apply_concat(m0, cap, ep);
    let a1 = apply_edits(m0, cap);
    lemma_apply_short(m0, cap);
    let a2 = apply_edits(a1, ep);
    lemma_apply_short(a1, ep);
    let a3 = apply_edits(a2, lift);
    lemma_apply_short(a2, lift);
    let a4 = apply_edits(a3, place);
    lemma_apply_short(a3, place);
    lemma_apply_short(a4, skip);
    let passed = square_at(to.file_of(), from.rank_of());
    let b1 = if piece_on(m, to) is Some {
        m.board.update(to.idx(), None)
    } else {
        m.board
    };
    let b2 = if ep.len() > 0 {
        b1.update(passed.idx(), None)
    } else {
        b1
    };
    let b3 = b2.update(from.idx(), None);
    let b4 = b3.update(to.idx(), Some(placed));
    assert(a1.board == b1);
    assert(a2.board == b2);
    assert(a3.board == b3);
    assert(a4.board == b4);
    assert(apply_edits(m0, edits).board == b4);
}

/// What a move takes is the opponent's, and it is what the move took: for
/// an accepted move in a position whose en-passant square, if any, is empty
/// with the pawn that skipped it standing beyond, the victim is a piece of
/// the side not moving that stood on a square the move emptied of it, and
/// every piece of that side the move removed or replaced is the victim.
/// So the capture tray lists exactly what left the board, never the
/// capturer.
pub proof fn lemma_victim(before: PositionModel, a: Action)
    requires
        before.board.len() == 64,
        reduce_spec(before, a) is Ok,
        passant_behind(before),
        before.passant matches Some(s) ==> piece_on(before, s) is None,
    ensures
        victim(before, a) matches Some(p) ==> p.color == spec_opponent(before.turn) && exists|
            s: Square,
        |
            piece_on(before, s) == Some(p) && #[trigger] piece_on(reduce_spec(before, a)->Ok_0, s)
                != Some(p),
        forall|s: Square|
            (piece_on(before, s) matches Some(q) && q.color != before.turn) && #[trigger] piece_on(
                reduce_spec(before, a)->Ok_0,
                s,
            ) != piece_on(before, s) ==> victim(before, a) == piece_on(before, s),
{
    let after = reduce_spec(before, a)->Ok_0;
    let from = a.from_sq();
    let to = a.to_sq();
    let piece = piece_on(before, from)->0;
    lemma_square_valid(from);
    lemma_square_valid(to);
    lemma_square_of_idx(from);
    lemma_square_of_idx(to);
    assert(piece.color == before.turn);
    if piece.role == Role::King && from == king_home(piece.color) && castle_wing(piece.color, to)
        is Some {
        let wing = castle_wing(piece.color, to)->0;
        let rank = home_rank(piece.color);
        lemma_castle_board(before, piece.color, wing);
        lemma_square_at(4, rank);
        lemma_square_at(castle_king_file(wing), rank);
        lemma_square_at(castle_rook_from_file(wing), rank);
        lemma_square_at(castle_rook_to_file(wing), rank);
        lemma_square_at(1, rank);
        lemma_square_at(2, rank);
        lemma_square_at(3, rank);
        lemma_square_at(5, rank);
        lemma_square_at(6, rank);
        assert(after == apply_spec(before, castle_spec(before, piece.color, wing)->Ok_0));
        assert(to == square_at(castle_king_file(wing), rank)) by {
            crate::square::lemma_square_eq(to, square_at(castle_king_file(wing), rank));
        }
        assert(victim(before, a) is None);
        assert forall|s: Square|
            (piece_on(before, s) matches Some(q) && q.color != before.turn) implies #[trigger] piece_on(
                after,
                s,
            ) == piece_on(before, s) by {
            lemma_square_valid(s);
        }
    } else {
        let promotion = match a {
            Action::Move { .. } => None,
            Action::Promote { into, .. } => Some(into),
        };
        let role = promoted_role(piece, from, to, promotion)->Ok_0;
        assert(after == apply_spec(before, move_edits(before, piece, from, to, role)));
        lemma_move_board(before, piece, from, to, role);
        let passed = square_at(to.file_of(), from.rank_of());
        lemma_square_at(to.file_of(), from.rank_of());
        if piece_on(before, to) is Some {
            assert(piece_on(after, to) == Some(Piece { color: piece.color, role }));
        } else if piece.role == Role::Pawn && from.file_of() != to.file_of() {
            assert(crate::rules::pawn_reaches(before, piece.color, from, to));
            assert(before.passant == Some(to));
            assert(piece_on(after, passed) is None);
        }
        assert forall|s: Square|
            (piece_on(before, s) matches Some(q) && q.color != before.turn) && #[trigger] piece_on(
                after,
                s,
            ) != piece_on(before, s) implies victim(before, a) == piece_on(before, s) by {
            lemma_square_valid(s);
        }
    }
}

} // verus!
