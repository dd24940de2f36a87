use std::ops::{Index, Sub};

use vstd::prelude::*;

use crate::action::{Action, IntoAction};
use crate::fen::fen_spec;
use crate::piece::{Color, Piece, Role};
use crate::position::{repetition_key_spec, Position};
use crate::reduce::{mode, position_result, reduce, DrawReason, Ending, Mode, Rejected, Rejection};
use crate::rules::{mode_spec, piece_on, reduce_spec, PositionModel};
use crate::san::{san_chars, spec_to_san};
use crate::square::{square_at, Square};
use crate::text::{decimal, push_all, push_decimal, string_of};

verus! {

/// A game is its starting position plus the log of accepted actions — the
/// log is the canonical record; replay is a fold, undo is dropping the
/// last entry, variations share a prefix.
///
/// `history` is the memoized fold: every intermediate position the log has
/// produced, with `history[ply]` the position after `ply` plies. `mode` is
/// memoized the same way: while `Playing`, applying an action checks only
/// the move; once `Played`, every action is `Rejected::GameOver`.
#[derive(PartialEq, Eq, Debug)]
pub struct Game {
    start: Position,
    log: Vec<Action>,
    history: Vec<Position>,
    mode: Mode,
}

/// A game as a mathematical value.
pub struct GameModel {
    pub start: PositionModel,
    pub log: Seq<Action>,
    pub history: Seq<PositionModel>,
    pub mode: Mode,
}

impl View for Game {
    type V = GameModel;

    closed spec fn view(&self) -> GameModel {
        GameModel {
            start: self.start@,
            log: self.log@,
            history: self.history@.map_values(|p: Position| p@),
            mode: self.mode,
        }
    }
}

/// The history is the fold of the log over the start: one more entry than
/// the log, starting at the start, each entry the reducer's verdict on the
/// one before and the logged action.
pub open spec fn valid_history(start: PositionModel, log: Seq<Action>, history: Seq<PositionModel>) -> bool {
    &&& history.len() == log.len() + 1
    &&& history[0] == start
    &&& forall|i: int|
        0 <= i < log.len() ==> #[trigger] reduce_spec(history[i], log[i]) == Ok::<
            PositionModel,
            Rejection,
        >(history[i + 1])
}

/// A ply is quiet when it neither moves a pawn nor lands on an occupied square.
pub open spec fn quiet(before: PositionModel, action: Action) -> bool {
    !(piece_on(before, action.from_sq()) matches Some(p) && p.role == Role::Pawn) && piece_on(
        before,
        action.to_sq(),
    ) is None
}

/// The run of quiet plies ending at ply `n`.
pub open spec fn quiet_run(history: Seq<PositionModel>, log: Seq<Action>, n: int) -> int
    decreases n,
{
    if n <= 0 {
        0
    } else if quiet(history[n - 1], log[n - 1]) {
        1 + quiet_run(history, log, n - 1)
    } else {
        0
    }
}

/// How many of the first `n` history entries have repetition key `key`.
pub open spec fn count_key(history: Seq<PositionModel>, key: PositionModel, n: int) -> int
    decreases n,
{
    if n <= 0 {
        0
    } else {
        count_key(history, key, n - 1) + if repetition_key_spec(history[n - 1]) == key {
            1int
        } else {
            0int
        }
    }
}

/// How many times the last position of `history` has occurred, by FIDE's
/// "same position".
pub open spec fn repetitions_spec(history: Seq<PositionModel>) -> int {
    count_key(history, repetition_key_spec(history.last()), history.len() as int)
}

/// The mode a game reaches by itself: the board's mode, and — while the
/// board still plays — fivefold repetition and the seventy-five-move rule.
pub open spec fn auto_mode(history: Seq<PositionModel>, log: Seq<Action>) -> Mode {
    match mode_spec(history.last()) {
        Mode::Playing => if repetitions_spec(history) >= 5 {
            Mode::Played(Ending::Draw(DrawReason::Fivefold))
        } else if quiet_run(history, log, log.len() as int) >= 150 {
            Mode::Played(Ending::Draw(DrawReason::SeventyFiveMoves))
        } else {
            Mode::Playing
        },
        played => played,
    }
}

/// Applying an action (or what stands for one) to a game: a played game
/// rejects everything with `GameOver`; otherwise the action is resolved in
/// the current position and reduced, logged, and the mode re-derived.
pub open spec fn apply_game_spec(g: GameModel, action: Result<Action, Rejection>) -> Result<GameModel, Rejection> {
    match g.mode {
        Mode::Played(ending) => Err(Rejection::GameOver { ending }),
        Mode::Playing => match action {
            Err(e) => Err(e),
            Ok(a) => match reduce_spec(g.history.last(), a) {
                Err(e) => Err(e),
                Ok(next) => {
                    let log = g.log.push(a);
                    let history = g.history.push(next);
                    Ok(GameModel { start: g.start, log, history, mode: auto_mode(history, log) })
                },
            },
        },
    }
}

/// The game with the given result, viewed.
pub open spec fn game_result(r: Result<Game, Rejected>) -> Result<GameModel, Rejection> {
    match r {
        Ok(g) => Ok(g@),
        Err(e) => Err(e@),
    }
}

/// What `action` removed from the board of `before`: the piece on the
/// struck square, or — for the diagonal pawn move onto an empty square —
/// the pawn that just passed beside it.
pub open spec fn victim(before: PositionModel, action: Action) -> Option<Piece> {
    let from = action.from_sq();
    let to = action.to_sq();
    if piece_on(before, to) is Some {
        piece_on(before, to)
    } else if (piece_on(before, from) matches Some(p) && p.role == Role::Pawn) && from.file_of()
        != to.file_of() {
        piece_on(before, square_at(to.file_of(), from.rank_of()))
    } else {
        None
    }
}

/// The pieces taken in the first `n` plies, in the order they left the board.
pub open spec fn captures_upto(history: Seq<PositionModel>, log: Seq<Action>, n: int) -> Seq<Piece>
    decreases n,
{
    if n <= 0 {
        Seq::<Piece>::empty()
    } else {
        let before = captures_upto(history, log, n - 1);
        match victim(history[n - 1], log[n - 1]) {
            Some(p) => before.push(p),
            None => before,
        }
    }
}

/// The result marker a mode writes: `1-0`, `0-1`, `1/2-1/2`, or `*` while playing.
pub open spec fn result_text(mode: Mode) -> Seq<char> {
    match mode {
        Mode::Playing => seq!['*'],
        Mode::Played(Ending::Checkmate { winner: Color::White }) => seq!['1', '-', '0'],
        Mode::Played(Ending::Checkmate { winner: Color::Black }) => seq!['0', '-', '1'],
        Mode::Played(Ending::Flagged { winner: Color::White }) => seq!['1', '-', '0'],
        Mode::Played(Ending::Flagged { winner: Color::Black }) => seq!['0', '-', '1'],
        Mode::Played(_) => seq!['1', '/', '2', '-', '1', '/', '2'],
    }
}

/// One ply as a score prints it: the move number before White's moves,
/// the move's notation, a space.
pub open spec fn ply_text(history: Seq<PositionModel>, log: Seq<Action>, i: int, figurine: bool) -> Seq<char> {
    ply_chars(history[i], log[i], i, figurine)
}

/// Ply `i`, `action` played in `before`, as a score prints it.
pub open spec fn ply_chars(before: PositionModel, action: Action, i: int, figurine: bool) -> Seq<char> {
    (if before.turn == Color::White {
        decimal((i / 2 + 1) as nat) + seq!['.', ' ']
    } else {
        Seq::<char>::empty()
    }) + spec_to_san(before, action, figurine)->Ok_0 + seq![' ']
}

/// The first `n` plies as a score prints them.
pub open spec fn score_upto(history: Seq<PositionModel>, log: Seq<Action>, n: int, figurine: bool) -> Seq<char>
    decreases n,
{
    if n <= 0 {
        Seq::<char>::empty()
    } else {
        score_upto(history, log, n - 1, figurine) + ply_text(history, log, n - 1, figurine)
    }
}

/// The game as a publication prints it: `1. e4 e5 2. Nf3 … 17. Rd8# 1-0`.
pub open spec fn score_spec(g: GameModel, figurine: bool) -> Seq<char> {
    score_upto(g.history, g.log, g.log.len() as int, figurine) + result_text(g.mode)
}

/// The fold of a log over a start: the final position, or the first rejection.
pub open spec fn replay_spec(start: PositionModel, log: Seq<Action>) -> Result<PositionModel, Rejection>
    decreases log.len(),
{
    if log.len() == 0 {
        Ok(start)
    } else {
        match replay_spec(start, log.drop_last()) {
            Ok(p) => reduce_spec(p, log.last()),
            Err(e) => Err(e),
        }
    }
}

impl Clone for Game {
    fn clone(&self) -> (copy: Game)
        ensures
            copy@ == self@,
    {
        proof {
            use_type_invariant(self);
        }
        let copy = Game {
            start: self.start,
            log: self.log.clone(),
            history: self.history.clone(),
            mode: self.mode,
        };
        assert(copy.log@ =~= self.log@);
        assert(copy.history@ =~= self.history@);
        copy
    }
}

/// The mode the game had when ply `k` was about to be played.
pub open spec fn mode_before(history: Seq<PositionModel>, log: Seq<Action>, k: int) -> Mode {
    auto_mode(history.take(k + 1), log.take(k))
}

/// Every move of the log was made while the game was playing.
pub open spec fn played_while_playing(history: Seq<PositionModel>, log: Seq<Action>) -> bool {
    forall|k: int| 0 <= k < log.len() ==> #[trigger] mode_before(history, log, k) == Mode::Playing
}

/// The mode a game carries: the one it reaches by itself, or a draw
/// claimed while it was playing.
pub open spec fn carried_mode(history: Seq<PositionModel>, log: Seq<Action>, mode: Mode) -> bool {
    ||| mode == auto_mode(history, log)
    ||| auto_mode(history, log) == Mode::Playing && (mode == Mode::Played(
        Ending::Draw(DrawReason::Threefold),
    ) || mode == Mode::Played(Ending::Draw(DrawReason::FiftyMoves)))
}

/// What every game value satisfies: its history is the fold of its log,
/// every move was made while the game was playing, and its mode is the
/// one the history reaches (or a draw claimed while playing).
pub open spec fn well_formed(g: GameModel) -> bool {
    &&& valid_history(g.start, g.log, g.history)
    &&& played_while_playing(g.history, g.log)
    &&& carried_mode(g.history, g.log, g.mode)
}

impl Game {
    /// The game's memoized fold agrees with its log.
    #[verifier::type_invariant]
    pub open spec fn consistent(self) -> bool {
        well_formed(self@)
    }
}


/// Positions viewed as models.
pub open spec fn models(history: Seq<Position>) -> Seq<PositionModel> {
    history.map_values(|p: Position| p@)
}

/// Whether a ply is quiet.
fn quiet_exec(before: &Position, action: Action) -> (q: bool)
    ensures
        q == quiet(before@, action),
{
    let (from, to) = match action {
        Action::Move { from, to } => (from, to),
        Action::Promote { from, to, .. } => (from, to),
    };
    let pawn = match before.at(from) {
        Some(piece) => piece.role == Role::Pawn,
        None => false,
    };
    !pawn && before.at(to).is_none()
}

/// The run of quiet plies at the end of a log.
fn quiet_count(history: &Vec<Position>, log: &Vec<Action>) -> (count: usize)
    requires
        history@.len() == log@.len() + 1,
    ensures
        count == quiet_run(models(history@), log@, log@.len() as int),
{
    let ghost h = models(history@);
    let mut n = log.len();
    let mut count: usize = 0;
    while n > 0
        invariant
            n <= log@.len(),
            history@.len() == log@.len() + 1,
            h == models(history@),
            count + n == log@.len(),
            log@.len() <= usize::MAX,
            quiet_run(h, log@, log@.len() as int) == count + quiet_run(h, log@, n as int),
        decreases n,
    {
        if !quiet_exec(&history[n - 1], log[n - 1]) {
            return count;
        }
        count = count + 1;
        n = n - 1;
    }
    count
}

/// How many entries of `history` share the last entry's repetition key.
fn repetition_count(history: &Vec<Position>) -> (count: usize)
    requires
        history@.len() > 0,
    ensures
        count == repetitions_spec(models(history@)),
{
    let ghost h = models(history@);
    let key = history[history.len() - 1].repetition_key();
    let mut count: usize = 0;
    let mut i: usize = 0;
    while i < history.len()
        invariant
            i <= history@.len(),
            h == models(history@),
            history@.len() > 0,
            key@ == repetition_key_spec(h.last()),
            count <= i,
            count == count_key(h, key@, i as int),
        decreases history.len() - i,
    {
        if history[i].repetition_key() == key {
            count = count + 1;
        }
        i = i + 1;
    }
    count
}

/// The automatic mode of a game whose history and log are given.
fn auto_mode_exec(history: &Vec<Position>, log: &Vec<Action>) -> (m: Mode)
    requires
        history@.len() == log@.len() + 1,
    ensures
        m == auto_mode(models(history@), log@),
{
    let board = mode(history[history.len() - 1]);
    match board {
        Mode::Playing => {
            // The automatic draws live above the position: fivefold and
            // seventy-five-move are facts about the history.
            if repetition_count(history) >= 5 {
                Mode::Played(Ending::Draw(DrawReason::Fivefold))
            } else if quiet_count(history, log) >= 150 {
                Mode::Played(Ending::Draw(DrawReason::SeventyFiveMoves))
            } else {
                Mode::Playing
            }
        },
        played => played,
    }
}

impl Default for Game {
    /// A new game from the standard starting position.
    fn default() -> (game: Game)
        ensures
            game@ == new_game_spec(crate::position::start_model()),
    {
        Game::from_position(Position::default())
    }
}

/// A game that has not begun, from `start`.
pub open spec fn new_game_spec(start: PositionModel) -> GameModel {
    GameModel { start, log: Seq::empty(), history: seq![start], mode: mode_spec(start) }
}

impl Game {
    /// A new game from the standard starting position.
    pub fn new() -> (game: Game)
        ensures
            game@ == new_game_spec(crate::position::start_model()),
    {
        Game::default()
    }

    /// A new game from `start`, its mode derived from the board.
    pub fn from_position(start: Position) -> (game: Game)
        ensures
            game@ == new_game_spec(start@),
    {
        let history = vec![start];
        let log: Vec<Action> = Vec::new();
        let board = mode(start);
        proof {
            let h = models(history@);
            assert(h =~= seq![start@]);
            assert(log@ =~= Seq::<Action>::empty());
            assert(count_key(h, repetition_key_spec(h.last()), 0) == 0);
            assert(repetitions_spec(h) == 1);
            assert(quiet_run(h, log@, 0) == 0);
            assert(auto_mode(h, log@) == board);
        }
        let game = Game { start, log, history, mode: board };
        assert(game@.history =~= seq![start@]);
        assert(game@.log =~= Seq::<Action>::empty());
        game
    }

    /// Pure: returns a new game, this one is untouched. A played game
    /// rejects every action with `GameOver`, without move checking.
    pub fn apply<A: IntoAction>(&self, action: A) -> (next: Result<Game, Rejected>)
        ensures
            game_result(next) == apply_game_spec(self@, action.spec_into_action(self@.history.last())),
    {
        proof {
            use_type_invariant(self);
        }
        if let Mode::Played(ending) = self.mode {
            return Err(Rejected::GameOver { ending });
        }
        let current = self.history[self.history.len() - 1];
        let action = match action.into_action(current) {
            Ok(action) => action,
            Err(e) => {
                return Err(e);
            },
        };
        let next = match reduce(current, action) {
            Ok(next) => next,
            Err(e) => {
                return Err(e);
            },
        };
        let mut log = self.log.clone();
        let mut history = self.history.clone();
        assert(log@ =~= self.log@);
        assert(history@ =~= self.history@);
        log.push(action);
        history.push(next);
        let mode = auto_mode_exec(&history, &log);
        proof {
            let h = models(history@);
            assert(h =~= self@.history.push(next@));
            assert forall|i: int| 0 <= i < log@.len() implies #[trigger] reduce_spec(
                h[i],
                log@[i],
            ) == Ok::<PositionModel, Rejection>(h[i + 1]) by {
                if i < self@.log.len() {
                    assert(reduce_spec(self@.history[i], self@.log[i]) == Ok::<
                        PositionModel,
                        Rejection,
                    >(self@.history[i + 1]));
                }
            }
            assert(valid_history(self.start@, log@, h));
            assert forall|k: int| 0 <= k < log@.len() implies #[trigger] mode_before(h, log@, k)
                == Mode::Playing by {
                if k < self@.log.len() {
                    assert(h.take(k + 1) =~= self@.history.take(k + 1));
                    assert(log@.take(k) =~= self@.log.take(k));
                    assert(mode_before(self@.history, self@.log, k) == Mode::Playing);
                } else {
                    assert(h.take(k + 1) =~= self@.history);
                    assert(log@.take(k) =~= self@.log);
                }
            }
        }
        let game = Game { start: self.start, log, history, mode };
        assert(game@.history =~= self@.history.push(next@));
        Ok(game)
    }

    /// The current position.
    pub fn position(&self) -> (position: Position)
        ensures
            position@ == self@.history.last(),
    {
        proof {
            use_type_invariant(self);
        }
        self.history[self.history.len() - 1]
    }

    /// The position the game started from.
    pub(crate) fn start(&self) -> (start: Position)
        ensures
            start@ == self@.start,
    {
        self.start
    }

    /// The log of accepted actions.
    pub fn log(&self) -> (log: &[Action])
        ensures
            log@ == self@.log,
    {
        self.log.as_slice()
    }

    /// Playing, or played — and if played, how it ended. Memoized: a field
    /// read, not a derivation.
    pub fn mode(&self) -> (mode: Mode)
        ensures
            mode == self@.mode,
    {
        self.mode
    }

    /// Plies since the last capture or pawn move — the fifty-move rule's
    /// clock. Derived from the log, never stored.
    pub fn quiet_plies(&self) -> (count: usize)
        ensures
            count == quiet_run(self@.history, self@.log, self@.log.len() as int),
    {
        proof {
            use_type_invariant(self);
        }
        quiet_count(&self.history, &self.log)
    }

    /// How many times the current position has occurred, counted by FIDE's
    /// "same position" — at least 1, since the current position counts itself.
    pub fn repetitions(&self) -> (count: usize)
        ensures
            count == repetitions_spec(self@.history),
    {
        proof {
            use_type_invariant(self);
        }
        repetition_count(&self.history)
    }

    /// The capture tray: every piece taken so far, in the order they left
    /// the board. Derived, never stored.
    pub fn captures(&self) -> (taken: Vec<Piece>)
        ensures
            taken@ == captures_upto(self@.history, self@.log, self@.log.len() as int),
    {
        proof {
            use_type_invariant(self);
        }
        let mut taken: Vec<Piece> = Vec::new();
        let mut ply: usize = 0;
        while ply < self.log.len()
            invariant
                ply <= self.log@.len(),
                self.history@.len() == self.log@.len() + 1,
                taken@ == captures_upto(self@.history, self@.log, ply as int),
            decreases self.log.len() - ply,
        {
            if let Some(piece) = victim_exec(&self.history[ply], self.log[ply]) {
                taken.push(piece);
            }
            ply = ply + 1;
        }
        taken
    }

    /// Claim the draw the position has armed — threefold repetition or the
    /// fifty-move rule. An unclaimed draw keeps the game playing.
    pub fn claim_draw(&self) -> (drawn: Result<Game, Rejected>)
        ensures
            game_result(drawn) == claim_draw_spec(self@),
    {
        proof {
            use_type_invariant(self);
        }
        if let Mode::Played(ending) = self.mode {
            return Err(Rejected::GameOver { ending });
        }
        let reason = if repetition_count(&self.history) >= 3 {
            DrawReason::Threefold
        } else if quiet_count(&self.history, &self.log) >= 100 {
            DrawReason::FiftyMoves
        } else {
            return Err(Rejected::NoDrawToClaim);
        };
        let copy = self.clone();
        Ok(Game { mode: Mode::Played(Ending::Draw(reason)), ..copy })
    }

    /// Number of plies (half-moves) played.
    pub fn plies(&self) -> (count: usize)
        ensures
            count == self@.log.len(),
    {
        self.log.len()
    }

    /// The position after `ply` plies, or `None` past either end of the
    /// game. Symbolic indices work too: `position_at(Terminus - 1)`.
    pub fn position_at<P: IntoPly>(&self, ply: P) -> (position: Option<Position>)
        ensures
            match position {
                Some(p) => ply_resolve(ply.spec_ply(), self@.log.len() as int) is Some && p@
                    == self@.history[ply_resolve(ply.spec_ply(), self@.log.len() as int)->0],
                None => ply_resolve(ply.spec_ply(), self@.log.len() as int) is None,
            },
    {
        self.at_ply(ply.into_ply())
    }

    /// The position after the ply `ply` names, if the game has it.
    fn at_ply(&self, ply: Ply) -> (position: Option<Position>)
        ensures
            match position {
                Some(p) => ply_resolve(ply, self@.log.len() as int) is Some && p@
                    == self@.history[ply_resolve(ply, self@.log.len() as int)->0],
                None => ply_resolve(ply, self@.log.len() as int) is None,
            },
    {
        proof {
            use_type_invariant(self);
        }
        match ply.resolve(self.log.len()) {
            Some(index) => Some(self.history[index]),
            None => None,
        }
    }

    /// Replay a log over a starting position: a game is a fold.
    pub fn replay(start: Position, log: Vec<Action>) -> (end: Result<Position, Rejected>)
        ensures
            position_result(end) == replay_spec(start@, log@),
    {
        let mut current = start;
        let mut i: usize = 0;
        while i < log.len()
            invariant
                i <= log@.len(),
                replay_spec(start@, log@.take(i as int)) == Ok::<PositionModel, Rejection>(current@),
            decreases log.len() - i,
        {
            assert(log@.take(i + 1).drop_last() =~= log@.take(i as int));
            match reduce(current, log[i]) {
                Ok(next) => {
                    current = next;
                },
                Err(e) => {
                    proof {
                        lemma_replay_stuck(start@, log@, i + 1);
                    }
                    return Err(e);
                },
            }
            i = i + 1;
        }
        assert(log@.take(log.len() as int) =~= log@);
        Ok(current)
    }

    /// The current position as FEN with the true counters: the halfmove
    /// clock derived from the log and the fullmove number from the ply count.
    pub fn fen(&self) -> (text: String)
        ensures
            text@ == fen_spec(
                self@.history.last(),
                quiet_run(self@.history, self@.log, self@.log.len() as int) as nat,
                (self@.log.len() / 2 + 1) as nat,
            ),
    {
        proof {
            use_type_invariant(self);
        }
        let quiet = quiet_count(&self.history, &self.log);
        self.history[self.history.len() - 1].fen_with(quiet, self.log.len() / 2 + 1)
    }

    /// The game as a publication would print it:
    /// `1. e4 e5 2. Nf3 d6 … 17. Rd8# 1-0`.
    pub fn score(&self) -> (text: String)
        ensures
            text@ == score_spec(self@, false),
    {
        string_of(self.scored(false))
    }

    /// The score in figurine algebraic notation, each move wearing its
    /// mover's glyph: `17. ♖d8# 1-0`.
    pub fn figurines(&self) -> (text: String)
        ensures
            text@ == score_spec(self@, true),
    {
        string_of(self.scored(true))
    }

    pub(crate) fn scored(&self, figurine: bool) -> (text: Vec<char>)
        ensures
            text@ == score_spec(self@, figurine),
    {
        proof {
            use_type_invariant(self);
        }
        let mut out: Vec<char> = Vec::new();
        let mut ply: usize = 0;
        while ply < self.log.len()
            invariant
                ply <= self.log@.len(),
                valid_history(self@.start, self@.log, self@.history),
                self.history@.len() == self.log@.len() + 1,
                out@ == score_upto(self@.history, self@.log, ply as int, figurine),
            decreases self.log.len() - ply,
        {
            assert(reduce_spec(self@.history[ply as int], self@.log[ply as int]) is Ok);
            push_ply(&mut out, self.history[ply], self.log[ply], ply, figurine);
            ply = ply + 1;
        }
        push_result(self.mode, &mut out);
        out
    }

    /// A new game without the last action: dropping the last cache entry,
    /// no replay. The position we return to once accepted a move, which is
    /// proof it was `Playing`.
    pub fn undo(&self) -> (game: Game)
        ensures
            game@ == undo_spec(self@),
    {
        proof {
            use_type_invariant(self);
        }
        if self.log.len() == 0 {
            return self.clone();
        }
        let plies = self.log.len() - 1;
        let mut log: Vec<Action> = Vec::new();
        let mut history: Vec<Position> = Vec::new();
        history.push(self.history[0]);
        let mut i: usize = 0;
        while i < plies
            invariant
                i <= plies,
                plies + 1 == self.log@.len(),
                self.history@.len() == self.log@.len() + 1,
                log@ == self.log@.take(i as int),
                history@ == self.history@.take(i + 1),
            decreases plies - i,
        {
            log.push(self.log[i]);
            history.push(self.history[i + 1]);
            assert(log@ =~= self.log@.take(i + 1));
            assert(history@ =~= self.history@.take(i + 2));
            i = i + 1;
        }
        proof {
            let h = models(history@);
            assert(log@ =~= self@.log.drop_last());
            assert(h =~= self@.history.drop_last());
            assert forall|i: int| 0 <= i < log@.len() implies #[trigger] reduce_spec(
                h[i],
                log@[i],
            ) == Ok::<PositionModel, Rejection>(h[i + 1]) by {
                assert(reduce_spec(self@.history[i], self@.log[i]) == Ok::<
                    PositionModel,
                    Rejection,
                >(self@.history[i + 1]));
            }
            let last = self@.log.len() - 1;
            assert(mode_before(self@.history, self@.log, last) == Mode::Playing);
            assert(self@.history.take(last + 1) =~= h);
            assert(self@.log.take(last) =~= log@);
            assert forall|k: int| 0 <= k < log@.len() implies #[trigger] mode_before(h, log@, k)
                == Mode::Playing by {
                assert(h.take(k + 1) =~= self@.history.take(k + 1));
                assert(log@.take(k) =~= self@.log.take(k));
                assert(mode_before(self@.history, self@.log, k) == Mode::Playing);
            }
        }
        let game = Game { start: self.start, log, history, mode: Mode::Playing };
        assert(game@.log =~= self@.log.drop_last());
        assert(game@.history =~= self@.history.drop_last());
        game
    }
}

/// Undo: a game with no moves is unchanged; otherwise the last action and
/// its position are dropped and the game is playing.
pub open spec fn undo_spec(g: GameModel) -> GameModel {
    if g.log.len() == 0 {
        g
    } else {
        GameModel {
            start: g.start,
            log: g.log.drop_last(),
            history: g.history.drop_last(),
            mode: Mode::Playing,
        }
    }
}

/// Claiming a draw: only while playing; threefold repetition first, then
/// the fifty-move rule; otherwise there is nothing to claim.
pub open spec fn claim_draw_spec(g: GameModel) -> Result<GameModel, Rejection> {
    match g.mode {
        Mode::Played(ending) => Err(Rejection::GameOver { ending }),
        Mode::Playing => if repetitions_spec(g.history) >= 3 {
            Ok(GameModel { mode: Mode::Played(Ending::Draw(DrawReason::Threefold)), ..g })
        } else if quiet_run(g.history, g.log, g.log.len() as int) >= 100 {
            Ok(GameModel { mode: Mode::Played(Ending::Draw(DrawReason::FiftyMoves)), ..g })
        } else {
            Err(Rejection::NoDrawToClaim)
        },
    }
}

/// A log that fails on a prefix fails as a whole.
proof fn lemma_replay_stuck(start: PositionModel, log: Seq<Action>, n: int)
    requires
        0 <= n <= log.len(),
        replay_spec(start, log.take(n)) is Err,
    ensures
        replay_spec(start, log) == replay_spec(start, log.take(n)),
    decreases log.len() - n,
{
    if n < log.len() {
        assert(log.take(n + 1).drop_last() =~= log.take(n));
        lemma_replay_stuck(start, log, n + 1);
    } else {
        assert(log.take(n) =~= log);
    }
}

/// What `action` removed from the board of `before`.
fn victim_exec(before: &Position, action: Action) -> (taken: Option<Piece>)
    ensures
        taken == victim(before@, action),
{
    broadcast use crate::square::lemma_square_at;
    let (from, to) = match action {
        Action::Move { from, to } => (from, to),
        Action::Promote { from, to, .. } => (from, to),
    };
    if let Some(piece) = before.at(to) {
        return Some(piece);
    }
    let pawn = match before.at(from) {
        Some(mover) => mover.role == Role::Pawn,
        None => false,
    };
    if pawn && from.file() != to.file() {
        return before.at(Square::at(to.file(), from.rank()));
    }
    None
}

/// Appends ply `ply` — `action` played in `before` — as a score prints it.
fn push_ply(out: &mut Vec<char>, before: Position, action: Action, ply: usize, figurine: bool)
    requires
        reduce_spec(before@, action) is Ok,
    ensures
        final(out)@ == old(out)@ + ply_chars(before@, action, ply as int, figurine),
{
    if before.turn() == Color::White {
        push_decimal(out, ply / 2 + 1);
        out.push('.');
        out.push(' ');
    }
    let ghost mid = out@;
    match san_chars(before, action, figurine) {
        Ok(text) => push_all(out, &text),
        Err(_) => {},
    }
    out.push(' ');
    assert(out@ =~= old(out)@ + ply_chars(before@, action, ply as int, figurine));
}

/// Appends the result marker of `mode` to `out`.
fn push_result(mode: Mode, out: &mut Vec<char>)
    ensures
        final(out)@ == old(out)@ + result_text(mode),
{
    match mode {
        Mode::Playing => out.push('*'),
        Mode::Played(Ending::Checkmate { winner: Color::White }) | Mode::Played(
            Ending::Flagged { winner: Color::White },
        ) => {
            out.push('1');
            out.push('-');
            out.push('0');
        },
        Mode::Played(Ending::Checkmate { winner: Color::Black }) | Mode::Played(
            Ending::Flagged { winner: Color::Black },
        ) => {
            out.push('0');
            out.push('-');
            out.push('1');
        },
        Mode::Played(_) => {
            out.push('1');
            out.push('/');
            out.push('2');
            out.push('-');
            out.push('1');
            out.push('/');
            out.push('2');
        },
    }
    assert(out@ =~= old(out)@ + result_text(mode));
}

/// A timeline index: either an absolute ply count or a distance back from
/// the end of the game. A `usize` is a `Ply::Number`, and `Terminus - n`
/// is a `Ply::FromEnd(n)`.
#[derive(Copy, Clone, PartialEq, Eq, Structural, Debug)]
pub enum Ply {
    Number(usize),
    FromEnd(usize),
}

/// The history index a ply names in a game of `plies` plies, if any.
pub open spec fn ply_resolve(ply: Ply, plies: int) -> Option<int> {
    match ply {
        Ply::Number(number) => if number <= plies {
            Some(number as int)
        } else {
            None
        },
        Ply::FromEnd(back) => if back <= plies {
            Some(plies - back)
        } else {
            None
        },
    }
}

impl Ply {
    fn resolve(self, plies: usize) -> (index: Option<usize>)
        ensures
            match index {
                Some(i) => ply_resolve(self, plies as int) == Some(i as int),
                None => ply_resolve(self, plies as int) is None,
            },
    {
        match self {
            Ply::Number(number) => if number <= plies {
                Some(number)
            } else {
                None
            },
            Ply::FromEnd(back) => if back <= plies {
                Some(plies - back)
            } else {
                None
            },
        }
    }
}

/// What names a ply: a ply number, the end of the game, or a `Ply`.
pub trait IntoPly: Sized {
    /// The ply this value names.
    spec fn spec_ply(self) -> Ply;

    fn into_ply(self) -> (ply: Ply)
        ensures
            ply == self.spec_ply(),
    ;
}

impl IntoPly for usize {
    open spec fn spec_ply(self) -> Ply {
        Ply::Number(self)
    }

    fn into_ply(self) -> (ply: Ply) {
        Ply::Number(self)
    }
}

impl IntoPly for Terminus {
    open spec fn spec_ply(self) -> Ply {
        Ply::FromEnd(0)
    }

    fn into_ply(self) -> (ply: Ply) {
        Ply::FromEnd(0)
    }
}

impl IntoPly for Ply {
    open spec fn spec_ply(self) -> Ply {
        self
    }

    fn into_ply(self) -> (ply: Ply) {
        self
    }
}

impl From<usize> for Ply {
    fn from(number: usize) -> (ply: Ply) {
        Ply::Number(number)
    }
}

impl vstd::std_specs::convert::FromSpecImpl<usize> for Ply {
    open spec fn obeys_from_spec() -> bool {
        true
    }

    open spec fn from_spec(number: usize) -> Ply {
        Ply::Number(number)
    }
}

/// The end of the game as an index: `game[Terminus]` is the final
/// position, `game[Terminus - 1]` the position just before the last ply.
#[derive(Copy, Clone, PartialEq, Eq, Structural, Debug)]
pub struct Terminus;

impl From<Terminus> for Ply {
    fn from(end: Terminus) -> (ply: Ply) {
        Ply::FromEnd(0)
    }
}

impl vstd::std_specs::convert::FromSpecImpl<Terminus> for Ply {
    open spec fn obeys_from_spec() -> bool {
        true
    }

    open spec fn from_spec(end: Terminus) -> Ply {
        Ply::FromEnd(0)
    }
}


impl Sub<usize> for Terminus {
    type Output = Ply;

    /// `Terminus - n` names the position `n` plies before the end.
    fn sub(self, back: usize) -> (ply: Ply) {
        Ply::FromEnd(back)
    }
}

impl vstd::std_specs::ops::SubSpecImpl<usize> for Terminus {
    open spec fn obeys_sub_spec() -> bool {
        true
    }

    open spec fn sub_req(self, back: usize) -> bool {
        true
    }

    open spec fn sub_spec(self, back: usize) -> Ply {
        Ply::FromEnd(back)
    }
}

impl Sub<usize> for Ply {
    type Output = Ply;

    /// Steps `back` plies earlier: a ply number counts down, a distance
    /// from the end grows.
    fn sub(self, back: usize) -> (ply: Ply) {
        match self {
            Ply::Number(number) => Ply::Number(number - back),
            Ply::FromEnd(already) => Ply::FromEnd(already + back),
        }
    }
}

impl vstd::std_specs::ops::SubSpecImpl<usize> for Ply {
    open spec fn obeys_sub_spec() -> bool {
        true
    }

    /// A ply number cannot count below zero, nor a distance past the
    /// largest index.
    open spec fn sub_req(self, back: usize) -> bool {
        match self {
            Ply::Number(number) => back <= number,
            Ply::FromEnd(already) => already + back <= usize::MAX,
        }
    }

    open spec fn sub_spec(self, back: usize) -> Ply {
        match self {
            Ply::Number(number) => Ply::Number((number - back) as usize),
            Ply::FromEnd(already) => Ply::FromEnd((already + back) as usize),
        }
    }
}

/// Jump notation: `game[ply]` is the position after `ply` plies — `game[0]`
/// is the start, `game[game.plies()]` the current position. Past the end of
/// the game there is no position; use [`Game::position_at`] for the checked
/// form.
impl Index<usize> for Game {
    type Output = Position;

    fn index(&self, ply: usize) -> (position: &Position)
        ensures
            position@ == self@.history[ply as int],
    {
        proof {
            use_type_invariant(self);
        }
        &self.history[ply]
    }
}

impl vstd::std_specs::core::IndexSpecImpl<usize> for Game {
    open spec fn index_req(&self, ply: &usize) -> bool {
        *ply <= self@.log.len()
    }
}

/// `game[Terminus]` is the final position.
impl Index<Terminus> for Game {
    type Output = Position;

    fn index(&self, end: Terminus) -> (position: &Position)
        ensures
            position@ == self@.history.last(),
    {
        proof {
            use_type_invariant(self);
        }
        &self.history[self.history.len() - 1]
    }
}

impl vstd::std_specs::core::IndexSpecImpl<Terminus> for Game {
    open spec fn index_req(&self, end: &Terminus) -> bool {
        true
    }
}

/// `game[Terminus - n]` is the position `n` plies before the end.
impl Index<Ply> for Game {
    type Output = Position;

    fn index(&self, ply: Ply) -> (position: &Position)
        ensures
            position@ == self@.history[ply_resolve(ply, self@.log.len() as int)->0],
    {
        proof {
            use_type_invariant(self);
        }
        let index = match ply.resolve(self.log.len()) {
            Some(index) => index,
            None => self.history.len(),
        };
        &self.history[index]
    }
}

impl vstd::std_specs::core::IndexSpecImpl<Ply> for Game {
    open spec fn index_req(&self, ply: &Ply) -> bool {
        ply_resolve(*ply, self@.log.len() as int) is Some
    }
}


/// A game is a fold: replaying any game's log over its start with the
/// reducer reproduces its current position.
pub proof fn lemma_replay_reproduces(g: GameModel)
    requires
        well_formed(g),
    ensures
        replay_spec(g.start, g.log) == Ok::<PositionModel, Rejection>(g.history.last()),
{
    lemma_replay_prefix(g, g.log.len() as int);
    assert(g.log.take(g.log.len() as int) =~= g.log);
}

/// Every prefix replays too: the first `n` actions of a game's log, folded
/// over its start, reach the position after ply `n`.
pub proof fn lemma_replay_prefix(g: GameModel, n: int)
    requires
        well_formed(g),
        0 <= n <= g.log.len(),
    ensures
        replay_spec(g.start, g.log.take(n)) == Ok::<PositionModel, Rejection>(g.history[n]),
    decreases n,
{
    if n > 0 {
        lemma_replay_prefix(g, n - 1);
        assert(g.log.take(n).drop_last() =~= g.log.take(n - 1));
        assert(reduce_spec(g.history[n - 1], g.log[n - 1]) == Ok::<PositionModel, Rejection>(
            g.history[n],
        ));
    } else {
        assert(g.log.take(0) =~= Seq::<Action>::empty());
    }
}

/// Undo inverts apply: taking back a move just accepted restores the game.
pub proof fn lemma_undo_apply(g: GameModel, action: Result<Action, Rejection>)
    requires
        apply_game_spec(g, action) is Ok,
    ensures
        undo_spec(apply_game_spec(g, action)->Ok_0) == g,
{
    let next = apply_game_spec(g, action)->Ok_0;
    assert(next.log.drop_last() =~= g.log);
    assert(next.history.drop_last() =~= g.history);
}

/// A played game accepts no action: every one is answered `GameOver`,
/// with the ending the game came to.
pub proof fn lemma_played_rejects(g: GameModel, action: Result<Action, Rejection>, ending: Ending)
    requires
        g.mode == Mode::Played(ending),
    ensures
        apply_game_spec(g, action) == Err::<GameModel, Rejection>(Rejection::GameOver { ending }),
{
}


/// Prefix sharing: two games from one start whose logs agree through ply
/// `n` have the same positions through ply `n`.
pub proof fn lemma_prefix_shared(g1: GameModel, g2: GameModel, n: int)
    requires
        valid_history(g1.start, g1.log, g1.history),
        valid_history(g2.start, g2.log, g2.history),
        g1.start == g2.start,
        0 <= n <= g1.log.len(),
        n <= g2.log.len(),
        g1.log.take(n) == g2.log.take(n),
    ensures
        g1.history.take(n + 1) == g2.history.take(n + 1),
    decreases n,
{
    if n > 0 {
        assert(g1.log.take(n - 1) =~= g1.log.take(n).take(n - 1));
        assert(g2.log.take(n - 1) =~= g2.log.take(n).take(n - 1));
        lemma_prefix_shared(g1, g2, n - 1);
        assert(g1.history[n - 1] == g1.history.take(n)[n - 1]);
        assert(g2.history[n - 1] == g2.history.take(n)[n - 1]);
        assert(g1.log[n - 1] == g1.log.take(n)[n - 1]);
        assert(g2.log[n - 1] == g2.log.take(n)[n - 1]);
        assert(reduce_spec(g1.history[n - 1], g1.log[n - 1]) == Ok::<PositionModel, Rejection>(
            g1.history[n],
        ));
        assert(reduce_spec(g2.history[n - 1], g2.log[n - 1]) == Ok::<PositionModel, Rejection>(
            g2.history[n],
        ));
    }
    assert(g1.history.take(n + 1) =~= g2.history.take(n + 1)) by {
        if n > 0 {
            assert(g1.history.take(n) == g2.history.take(n));
            assert forall|k: int| 0 <= k < n implies g1.history[k] == g2.history[k] by {
                assert(g1.history.take(n)[k] == g2.history.take(n)[k]);
            }
        }
    }
}
} // verus!
