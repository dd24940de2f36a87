use vstd::prelude::*;

use crate::piece::{spec_opponent, Color, Piece, Role, Wing};
use crate::reduce::Edit;
use crate::rules::{all_rights, allows, apply_edits, apply_spec, pawn_dir, piece_on, without, PositionModel, Rights};
use crate::square::{lemma_square_of, square_at, square_of, Square};

verus! {

/// A chess position: the board, whose turn it is, and the two scraps of
/// memory the rules of chess force a position to carry — castling rights
/// and the en-passant square. `Copy`, so persistence is free: every
/// transition yields a new value and the old one stays valid.
#[derive(Copy, Clone, Hash, Debug)]
pub struct Position {
    board: [Option<Piece>; 64],
    turn: Color,
    rights: Rights,
    passant: Option<Square>,
}

impl View for Position {
    type V = PositionModel;

    closed spec fn view(&self) -> PositionModel {
        PositionModel { board: self.board@, turn: self.turn, rights: self.rights, passant: self.passant }
    }
}

/// A position's board always has 64 squares.
pub broadcast proof fn lemma_board_len(p: Position)
    ensures
        #[trigger] p@.board.len() == 64,
{
}

/// Two positions are the same value exactly when their models are.
pub proof fn lemma_view_injective(p: Position, q: Position)
    ensures
        p@ == q@ ==> p == q,
{
    if p@ == q@ {
        assert(p.board@ =~= q.board@);
        vstd::array::lemma_array_index(p.board, 0);
        assert(p.board == q.board) by {
            assert(vstd::array::array_view(p.board) == vstd::array::array_view(q.board));
        }
    }
}

impl PartialEq for Position {
    fn eq(&self, other: &Position) -> (same: bool) {
        let mut i: usize = 0;
        while i < 64
            invariant
                i <= 64,
                forall|j: int| 0 <= j < i ==> self.board@[j] == other.board@[j],
            decreases 64 - i,
        {
            if self.board[i] != other.board[i] {
                return false;
            }
            i = i + 1;
        }
        assert(self.board@ =~= other.board@);
        self.turn == other.turn && self.rights == other.rights && self.passant == other.passant
    }
}

impl vstd::std_specs::cmp::PartialEqSpecImpl for Position {
    open spec fn obeys_eq_spec() -> bool {
        true
    }

    open spec fn eq_spec(&self, other: &Position) -> bool {
        self@ == other@
    }
}

impl Eq for Position {

}

/// The role standing on `file` of a back rank at the start.
pub open spec fn back_rank_role(file: int) -> Role {
    if file == 0 || file == 7 {
        Role::Rook
    } else if file == 1 || file == 6 {
        Role::Knight
    } else if file == 2 || file == 5 {
        Role::Bishop
    } else if file == 3 {
        Role::Queen
    } else {
        Role::King
    }
}

/// The board at the start of a game.
pub open spec fn start_board() -> Seq<Option<Piece>> {
    Seq::new(
        64,
        |i: int|
            if i / 8 == 0 {
                Some(Piece { color: Color::White, role: back_rank_role(i % 8) })
            } else if i / 8 == 1 {
                Some(Piece { color: Color::White, role: Role::Pawn })
            } else if i / 8 == 6 {
                Some(Piece { color: Color::Black, role: Role::Pawn })
            } else if i / 8 == 7 {
                Some(Piece { color: Color::Black, role: back_rank_role(i % 8) })
            } else {
                None
            },
    )
}

/// The standard starting position: both armies placed, White to move,
/// full castling rights, no en-passant square.
pub open spec fn start_model() -> PositionModel {
    PositionModel { board: start_board(), turn: Color::White, rights: all_rights(), passant: None }
}

/// An empty board with `turn` to move and full castling rights.
pub open spec fn empty_model(turn: Color) -> PositionModel {
    PositionModel {
        board: Seq::new(64, |i: int| None),
        turn,
        rights: all_rights(),
        passant: None,
    }
}

/// FIDE's "same position": the en-passant square counts only when a pawn
/// of the side to move stands beside the pawn that skipped it.
pub open spec fn ep_capturable(m: PositionModel, skipped: Square) -> bool {
    let rank = skipped.rank_of() + pawn_dir(spec_opponent(m.turn));
    let pawn = Some(Piece { color: m.turn, role: Role::Pawn });
    (on_board_at(skipped.file_of() - 1, rank) && m.board[rank * 8 + skipped.file_of() - 1] == pawn)
        || (on_board_at(skipped.file_of() + 1, rank) && m.board[rank * 8 + skipped.file_of() + 1]
        == pawn)
}

pub open spec fn on_board_at(file: int, rank: int) -> bool {
    0 <= file < 8 && 0 <= rank < 8
}

/// The repetition key of a position: the position with its en-passant
/// square dropped unless it can actually be used.
pub open spec fn repetition_key_spec(m: PositionModel) -> PositionModel {
    match m.passant {
        Some(skipped) => if ep_capturable(m, skipped) {
            m
        } else {
            PositionModel { passant: None, ..m }
        },
        None => m,
    }
}

impl Default for Position {
    /// The standard starting position.
    fn default() -> (position: Position)
        ensures
            position@ == start_model(),
    {
        let mut position = Position::empty(Color::White);
        let mut file: u8 = 0;
        while file < 8
            invariant
                file <= 8,
                position@.turn == Color::White,
                position@.rights == all_rights(),
                position@.passant is None,
                position@.board.len() == 64,
                forall|i: int|
                    0 <= i < 64 ==> #[trigger] position@.board[i] == if i % 8 < file {
                        start_board()[i]
                    } else {
                        None::<Piece>
                    },
            decreases 8 - file,
        {
            let role = if file == 0 || file == 7 {
                Role::Rook
            } else if file == 1 || file == 6 {
                Role::Knight
            } else if file == 2 || file == 5 {
                Role::Bishop
            } else if file == 3 {
                Role::Queen
            } else {
                Role::King
            };
            position = position.with(Square::at(file, 0), Piece::white(role)).with(
                Square::at(file, 1),
                Piece::white(Role::Pawn),
            ).with(Square::at(file, 6), Piece::black(Role::Pawn)).with(
                Square::at(file, 7),
                Piece::black(role),
            );
            file = file + 1;
        }
        assert(position@.board =~= start_board());
        position
    }
}

impl Position {
    /// An empty board with the given side to move. Composed positions keep
    /// full castling rights — castling legality still requires the king
    /// and rook to actually stand on their home squares.
    pub fn empty(turn: Color) -> (position: Position)
        ensures
            position@ == empty_model(turn),
    {
        let board: [Option<Piece>; 64] = vstd::array::array_fill_for_copy_types(None);
        assert(forall|i: int| 0 <= i < 64 ==> board@[i] == None::<Piece>);
        let position = Position {
            board,
            turn,
            rights: Rights { white_king: true, white_queen: true, black_king: true, black_queen: true },
            passant: None,
        };
        assert(position@.board =~= empty_model(turn).board);
        position
    }

    /// A new position with `piece` placed on `square`.
    pub fn with(self, square: Square, piece: Piece) -> (position: Position)
        ensures
            position@ == (PositionModel {
                board: self@.board.update(square.idx(), Some(piece)),
                ..self@
            }),
    {
        let mut board = self.board;
        board[square.index()] = Some(piece);
        Position { board, ..self }
    }

    /// The position with exactly these parts.
    pub(crate) fn from_parts(
        board: [Option<Piece>; 64],
        turn: Color,
        rights: Rights,
        passant: Option<Square>,
    ) -> (position: Position)
        ensures
            position@ == (PositionModel { board: board@, turn, rights, passant }),
    {
        Position { board, turn, rights, passant }
    }

    /// What stands on `square`.
    pub fn at(self, square: Square) -> (piece: Option<Piece>)
        ensures
            piece == piece_on(self@, square),
    {
        self.board[square.index()]
    }

    /// What stands on board index `index`.
    pub(crate) fn at_index(&self, index: usize) -> (piece: Option<Piece>)
        requires
            index < 64,
        ensures
            piece == self@.board[index as int],
    {
        self.board[index]
    }

    /// The side to move.
    pub fn turn(self) -> (turn: Color)
        ensures
            turn == self@.turn,
    {
        self.turn
    }

    /// The square a just-double-pushed pawn skipped, capturable en passant
    /// this move only.
    pub fn passant(self) -> (square: Option<Square>)
        ensures
            square == self@.passant,
    {
        self.passant
    }

    /// Whether `color` still has the right to castle on `wing` — the king
    /// and that rook have never moved.
    pub fn may_castle(self, color: Color, wing: Wing) -> (may: bool)
        ensures
            may == allows(self@.rights, color, wing),
    {
        match (color, wing) {
            (Color::White, Wing::King) => self.rights.white_king,
            (Color::White, Wing::Queen) => self.rights.white_queen,
            (Color::Black, Wing::King) => self.rights.black_king,
            (Color::Black, Wing::Queen) => self.rights.black_queen,
        }
    }

    /// FIDE's "same position" for repetition (rule 9.2): board, turn, and
    /// castling rights — but the en-passant square only when an enemy pawn
    /// actually stands ready to take it.
    pub fn repetition_key(self) -> (key: Position)
        ensures
            key@ == repetition_key_spec(self@),
    {
        match self.passant {
            Some(skipped) => if self.ep_capturable(skipped) {
                self
            } else {
                Position { passant: None, ..self }
            },
            None => self,
        }
    }

    fn ep_capturable(self, skipped: Square) -> (capturable: bool)
        ensures
            capturable == ep_capturable(self@, skipped),
    {
        proof {
            crate::square::lemma_square_valid(skipped);
        }
        broadcast use crate::square::lemma_square_at;
        let pusher: i8 = match self.turn.opponent() {
            Color::White => 1,
            Color::Black => -1,
        };
        let pawn = Some(Piece { color: self.turn, role: Role::Pawn });
        let left = match skipped.offset(-1, pusher) {
            Some(square) => self.at(square) == pawn,
            None => false,
        };
        let right = match skipped.offset(1, pusher) {
            Some(square) => self.at(square) == pawn,
            None => false,
        };
        left || right
    }

    /// The interpreter's back half: a total evaluator that folds a move's
    /// edits over the board. The en-passant window resets every move,
    /// reopened only when a `Skip` edit says a pawn just ran past. Rights
    /// are bookkept per `Lift`.
    pub(crate) fn apply(&self, edits: &Vec<Edit>) -> (next: Position)
        ensures
            next@ == apply_spec(self@, edits@),
    {
        let mut board = self.board;
        let mut rights = self.rights;
        let mut passant: Option<Square> = None;
        let ghost start = PositionModel { passant: None, ..self@ };
        let mut i: usize = 0;
        while i < edits.len()
            invariant
                i <= edits.len(),
                (PositionModel { board: board@, turn: self.turn, rights, passant }) == apply_edits(
                    start,
                    edits@.take(i as int),
                ),
            decreases edits.len() - i,
        {
            let ghost before = PositionModel { board: board@, turn: self.turn, rights, passant };
            assert(edits@.take(i + 1).drop_last() =~= edits@.take(i as int));
            match edits[i] {
                Edit::Lift(square) => {
                    let index = square.index();
                    if let Some(piece) = board[index] {
                        if piece.role == Role::King {
                            rights = without_exec(
                                without_exec(rights, piece.color, Wing::King),
                                piece.color,
                                Wing::Queen,
                            );
                        }
                    }
                    if square == Square::at(7, 0) {
                        rights = without_exec(rights, Color::White, Wing::King);
                    }
                    if square == Square::at(0, 0) {
                        rights = without_exec(rights, Color::White, Wing::Queen);
                    }
                    if square == Square::at(7, 7) {
                        rights = without_exec(rights, Color::Black, Wing::King);
                    }
                    if square == Square::at(0, 7) {
                        rights = without_exec(rights, Color::Black, Wing::Queen);
                    }
                    board[index] = None;
                },
                Edit::Place(square, piece) => {
                    board[square.index()] = Some(piece);
                },
                Edit::Skip(square) => {
                    passant = Some(square);
                },
            }
            i = i + 1;
        }
        assert(edits@.take(edits.len() as int) =~= edits@);
        Position { board, turn: self.turn.opponent(), rights, passant }
    }
}

/// `rights` with `color`'s castle on `wing` forfeited.
fn without_exec(rights: Rights, color: Color, wing: Wing) -> (r: Rights)
    ensures
        r == without(rights, color, wing),
{
    match (color, wing) {
        (Color::White, Wing::King) => Rights { white_king: false, ..rights },
        (Color::White, Wing::Queen) => Rights { white_queen: false, ..rights },
        (Color::Black, Wing::King) => Rights { black_king: false, ..rights },
        (Color::Black, Wing::Queen) => Rights { black_queen: false, ..rights },
    }
}

} // verus!

verus! {

/// Playing what an action-shaped value stands for: its rejection, or the
/// reducer's verdict on the action.
pub open spec fn play_spec(m: PositionModel, action: Result<crate::action::Action, crate::reduce::Rejection>) -> Result<PositionModel, crate::reduce::Rejection> {
    match action {
        Ok(a) => crate::rules::reduce_spec(m, a),
        Err(e) => Err(e),
    }
}

impl Position {
    /// Convenience wrapper around `reduce` that accepts anything
    /// action-shaped: an `Action`, a `(Square, Square)` pair, or a string
    /// like `"h2h4"` / `"h7h8q"` / `"Nf3"`.
    pub fn play<A: crate::action::IntoAction>(self, action: A) -> (next: Result<Position, crate::reduce::Rejected>)
        ensures
            crate::reduce::position_result(next) == play_spec(self@, action.spec_into_action(self@)),
    {
        match action.into_action(self) {
            Ok(a) => crate::reduce::reduce(self, a),
            Err(e) => Err(e),
        }
    }

    /// Derive this position's mode — playing, or played. Costs a pass over
    /// the legal actions; `Game` memoizes it instead.
    pub fn mode(self) -> (mode: crate::reduce::Mode)
        ensures
            mode == crate::rules::mode_spec(self@),
    {
        crate::reduce::mode(self)
    }

    /// All actions the side to move can legally take.
    pub fn legal_actions(self) -> (actions: Vec<crate::action::Action>)
        ensures
            actions@ == crate::rules::legal_actions_spec(self@),
    {
        crate::reduce::legal_actions(self)
    }

    /// The move the position forces, if the side to move has exactly one.
    pub fn forced(self) -> (only: Option<crate::action::Action>)
        ensures
            only == (if crate::rules::legal_actions_spec(self@).len() == 1 {
                Some(crate::rules::legal_actions_spec(self@)[0])
            } else {
                None
            }),
    {
        let actions = crate::reduce::legal_actions(self);
        if actions.len() == 1 {
            Some(actions[0])
        } else {
            None
        }
    }

    /// Whether `color`'s king is attacked.
    pub fn in_check(self, color: Color) -> (check: bool)
        ensures
            check == crate::rules::is_in_check(self@, color),
    {
        crate::reduce::in_check(self, color)
    }
}

} // verus!

verus! {

/// The repetition key of a repetition key is itself: the key is already
/// FIDE's "same position".
pub proof fn lemma_repetition_key_idempotent(m: PositionModel)
    ensures
        repetition_key_spec(repetition_key_spec(m)) == repetition_key_spec(m),
{
}

/// `q` holds a pawn of the side to move standing beside the pawn that
/// just pushed two squares past `skipped` — a pawn that may take it en
/// passant.
pub open spec fn taker_beside(m: PositionModel, skipped: Square, q: Square) -> bool {
    &&& (q.file_of() == skipped.file_of() - 1 || q.file_of() == skipped.file_of() + 1)
    &&& q.rank_of() == skipped.rank_of() - pawn_dir(m.turn)
    &&& piece_on(m, q) == Some(Piece { color: m.turn, role: Role::Pawn })
}

/// The repetition key keeps the board, the side to move and the rights,
/// and keeps the en-passant square exactly when a pawn of the side to move
/// stands beside the pawn that pushed past it; the pusher's own pawns never
/// keep it alive.
pub proof fn lemma_repetition_key_passant(m: PositionModel)
    ensures
        repetition_key_spec(m).board == m.board,
        repetition_key_spec(m).turn == m.turn,
        repetition_key_spec(m).rights == m.rights,
        repetition_key_spec(m).passant matches Some(s) ==> m.passant == Some(s) && exists|q: Square|
            #[trigger] taker_beside(m, s, q),
        (m.passant matches Some(s) && exists|q: Square| #[trigger] taker_beside(m, s, q))
            ==> repetition_key_spec(m).passant == m.passant,
{
    if let Some(s) = m.passant {
        crate::square::lemma_square_valid(s);
        let rank = s.rank_of() + pawn_dir(spec_opponent(m.turn));
        if ep_capturable(m, s) {
            if on_board_at(s.file_of() - 1, rank) && m.board[rank * 8 + s.file_of() - 1] == Some(
                Piece { color: m.turn, role: Role::Pawn },
            ) {
                let q = square_at(s.file_of() - 1, rank);
                crate::square::lemma_square_at(s.file_of() - 1, rank);
                assert(taker_beside(m, s, q));
            } else {
                let q = square_at(s.file_of() + 1, rank);
                crate::square::lemma_square_at(s.file_of() + 1, rank);
                assert(taker_beside(m, s, q));
            }
        } else {
            assert forall|q: Square| !taker_beside(m, s, q) by {
                crate::square::lemma_square_valid(q);
            }
        }
    }
}

} // verus!
