//! Self-play, headless: a bot is a pure function of state.
//!
//! A [`Player`] reacts to the game — it needs the state, never a screen —
//! so [`between`] is just a loop: ask the side to move for an action, fold
//! it, repeat until the game is played, and out comes a [`Game`]. No
//! rendering, no I/O.
//!
//! Randomness is a *parameter* — the seed — the way time is a parameter
//! to a timeline, so a self-play game is a reproducible value: same seed,
//! same game.

use vstd::prelude::*;

use crate::action::Action;
use crate::game::{auto_mode, lemma_prefix_shared, mode_before, well_formed, Game, GameModel};
use crate::study::{game_prefix, lemma_new_game_mode};
use crate::piece::{Color, Piece, Role};
use crate::position::Position;
use crate::progress::{lemma_game_progresses, progress};
use crate::reduce::{lemma_legal_accepted, Ending, Mode};
use crate::rules::{legal_actions_spec, mode_spec, reduce_spec, PositionModel};
use crate::square::Square;

verus! {

/// A bot: it chooses an action for the side to move. It is handed the
/// whole game — the position, plus the history the non-Markov rules
/// (repetition, the fifty-move clock) would need. Called only while the
/// game is playing, so a legal action always exists; the action chosen is
/// one the reducer accepts, and one of the answers the player gives.
pub trait Player {
    /// Whether `action` is an answer the player may give in `game` — for a
    /// bot that is a pure function of state, exactly the one it gives.
    spec fn answers(&self, game: GameModel, action: Action) -> bool;

    fn choose_action(&self, game: &Game) -> (action: Action)
        requires
            game@.mode == Mode::Playing,
        ensures
            reduce_spec(game@.history.last(), action) is Ok,
            self.answers(game@, action),
    ;
}

/// Whether ply `i` of `g` is an answer its mover's player gives in the
/// game as it stood.
pub open spec fn answered_by<W: Player, B: Player>(white: W, black: B, g: GameModel, i: int) -> bool {
    if g.history[i].turn == Color::White {
        white.answers(game_prefix(g, i), g.log[i])
    } else {
        black.answers(game_prefix(g, i), g.log[i])
    }
}

/// Whether `g` is a game the two players played out from `start`: every
/// ply an answer of its mover, played until the game ended by itself.
pub open spec fn played_by<W: Player, B: Player>(white: W, black: B, start: PositionModel, g: GameModel) -> bool {
    &&& well_formed(g)
    &&& g.start == start
    &&& g.mode != Mode::Playing
    &&& g.mode == auto_mode(g.history, g.log)
    &&& forall|i: int| 0 <= i < g.log.len() ==> #[trigger] answered_by(white, black, g, i)
}

/// Play a game between two bots from `start`, headless. The loop asks the
/// side to move for an action and folds it until the game is played; the
/// rules guarantee termination (the seventy-five-move draw caps every
/// line). The result is a game the two played out.
pub fn between<W: Player, B: Player>(white: &W, black: &B, start: Position) -> (game: Game)
    ensures
        played_by(*white, *black, start@, game@),
{
    let mut game = Game::from_position(start);
    proof {
        lemma_new_game_mode(start@);
    }
    while game.mode() == Mode::Playing
        invariant
            game@.start == start@,
            game@.mode == auto_mode(game@.history, game@.log),
            forall|i: int| 0 <= i < game@.log.len() ==> #[trigger] answered_by(*white, *black, game@, i),
        decreases progress(game@),
    {
        let position = game.position();
        proof {
            use_type_invariant(&game);
            crate::position::lemma_board_len(position);
        }
        let action = match position.turn() {
            Color::White => white.choose_action(&game),
            Color::Black => black.choose_action(&game),
        };
        match game.apply(action) {
            Ok(next) => {
                proof {
                    lemma_game_progresses(game@, action);
                    use_type_invariant(&next);
                    let n = game@.log.len() as int;
                    assert(game_prefix(next@, n) == game@) by {
                        assert(next@.log.take(n) =~= game@.log);
                        assert(next@.history.take(n + 1) =~= game@.history);
                    }
                    assert forall|i: int| 0 <= i < next@.log.len() implies #[trigger] answered_by(*white, *black, next@, i) by {
                        if i < n {
                            assert(answered_by(*white, *black, game@, i));
                            assert(next@.log.take(i) =~= game@.log.take(i));
                            assert(next@.history.take(i + 1) =~= game@.history.take(i + 1));
                            assert(game_prefix(next@, i) == game_prefix(game@, i));
                            assert(next@.log[i] == game@.log[i]);
                            assert(next@.history[i] == game@.history[i]);
                        } else {
                            assert(next@.history[i] == game@.history.last());
                        }
                    }
                }
                game = next;
            },
            Err(_) => {
                return game;
            },
        }
    }
    proof {
        use_type_invariant(&game);
    }
    game
}

/// Self-play is a reproducible value: two games the same players played
/// out from the same start are the same game, when each player's answer
/// is a function of the game.
pub proof fn lemma_self_play_determined<W: Player, B: Player>(
    white: W,
    black: B,
    start: PositionModel,
    g1: GameModel,
    g2: GameModel,
)
    requires
        played_by(white, black, start, g1),
        played_by(white, black, start, g2),
        forall|g: GameModel, a: Action, b: Action| #[trigger] white.answers(g, a) && #[trigger] white.answers(g, b) ==> a == b,
        forall|g: GameModel, a: Action, b: Action| #[trigger] black.answers(g, a) && #[trigger] black.answers(g, b) ==> a == b,
    ensures
        g1 == g2,
{
    let n1 = g1.log.len() as int;
    let n2 = g2.log.len() as int;
    let m = if n1 < n2 { n1 } else { n2 };
    lemma_logs_agree(white, black, start, g1, g2, m);
    lemma_prefix_shared(g1, g2, m);
    assert(g1.log.take(n1) =~= g1.log);
    assert(g2.log.take(n2) =~= g2.log);
    assert(g1.history.take(n1 + 1) =~= g1.history);
    assert(g2.history.take(n2 + 1) =~= g2.history);
    if n1 < n2 {
        assert(mode_before(g2.history, g2.log, n1) == Mode::Playing);
        assert(auto_mode(g2.history.take(n1 + 1), g2.log.take(n1)) == auto_mode(g1.history, g1.log));
        assert(false);
    } else if n2 < n1 {
        assert(mode_before(g1.history, g1.log, n2) == Mode::Playing);
        assert(auto_mode(g1.history.take(n2 + 1), g1.log.take(n2)) == auto_mode(g2.history, g2.log));
        assert(false);
    }
    assert(g1.log == g2.log);
    assert(g1.history == g2.history);
}

/// The logs of two such games agree through their first `k` plies.
proof fn lemma_logs_agree<W: Player, B: Player>(
    white: W,
    black: B,
    start: PositionModel,
    g1: GameModel,
    g2: GameModel,
    k: int,
)
    requires
        played_by(white, black, start, g1),
        played_by(white, black, start, g2),
        forall|g: GameModel, a: Action, b: Action| #[trigger] white.answers(g, a) && #[trigger] white.answers(g, b) ==> a == b,
        forall|g: GameModel, a: Action, b: Action| #[trigger] black.answers(g, a) && #[trigger] black.answers(g, b) ==> a == b,
        0 <= k <= g1.log.len(),
        k <= g2.log.len(),
    ensures
        g1.log.take(k) == g2.log.take(k),
    decreases k,
{
    if k > 0 {
        lemma_logs_agree(white, black, start, g1, g2, k - 1);
        lemma_prefix_shared(g1, g2, k - 1);
        let i = k - 1;
        assert(g1.history[i] == g1.history.take(i + 1)[i]);
        assert(g2.history[i] == g2.history.take(i + 1)[i]);
        assert(game_prefix(g1, i) == game_prefix(g2, i));
        assert(answered_by(white, black, g1, i));
        assert(answered_by(white, black, g2, i));
        assert(g1.log[i] == g2.log[i]);
        assert(g1.log.take(k) =~= g1.log.take(k - 1).push(g1.log[i]));
        assert(g2.log.take(k) =~= g2.log.take(k - 1).push(g2.log[i]));
    } else {
        assert(g1.log.take(0) =~= g2.log.take(0));
    }
}

/// Same seeds, same game: random players with given seeds play one game
/// from a given start.
pub proof fn lemma_random_reproducible(
    white: Random,
    black: Random,
    start: PositionModel,
    g1: GameModel,
    g2: GameModel,
)
    requires
        played_by(white, black, start, g1),
        played_by(white, black, start, g2),
    ensures
        g1 == g2,
{
    lemma_self_play_determined(white, black, start, g1, g2);
}

/// The splitmix64 mixer behind [`Random`]: it spreads a seed over all 64
/// bits, so neighbouring seeds give unrelated games.
pub open spec fn splitmix(state: u64) -> u64 {
    let z = vstd::wrapping::u64_specs::wrapping_add(state, 0x9E37_79B9_7F4A_7C15u64);
    let z = vstd::wrapping::u64_specs::wrapping_mul(z ^ (z >> 30u64), 0xBF58_476D_1CE4_E5B9u64);
    let z = vstd::wrapping::u64_specs::wrapping_mul(z ^ (z >> 27u64), 0x94D0_49BB_1331_11EBu64);
    z ^ (z >> 31u64)
}

/// A tiny deterministic mixer (splitmix64) — keeps self-play
/// reproducible.
fn splitmix64(state: u64) -> (mixed: u64)
    ensures
        mixed == splitmix(state),
{
    let mut z = state.wrapping_add(0x9E37_79B9_7F4A_7C15);
    z = (z ^ (z >> 30)).wrapping_mul(0xBF58_476D_1CE4_E5B9);
    z = (z ^ (z >> 27)).wrapping_mul(0x94D0_49BB_1331_11EB);
    z ^ (z >> 31)
}

/// A player that picks a legal action uniformly at random, seeded so the
/// game is reproducible: same seed, same game.
pub struct Random {
    seed: u64,
}

impl Random {
    /// The seed the player rolls from.
    pub closed spec fn seed_spec(&self) -> u64 {
        self.seed
    }

    /// A random player with `seed`.
    pub fn seeded(seed: u64) -> (player: Random)
        ensures
            player.seed_spec() == seed,
    {
        Random { seed }
    }
}

/// The index a random player rolls among `count` legal actions at ply
/// `plies`.
pub open spec fn random_roll(seed: u64, plies: nat, count: nat) -> int {
    ((splitmix(seed ^ (plies as u64)) as usize) as int) % (count as int)
}

impl Player for Random {
    /// The legal action its seed rolls for the ply.
    open spec fn answers(&self, game: GameModel, action: Action) -> bool {
        action == legal_actions_spec(game.history.last())[random_roll(
            self.seed_spec(),
            game.log.len(),
            legal_actions_spec(game.history.last()).len(),
        )]
    }

    fn choose_action(&self, game: &Game) -> (action: Action)
        ensures
            action == legal_actions_spec(game@.history.last())[random_roll(
                self.seed_spec(),
                game@.log.len(),
                legal_actions_spec(game@.history.last()).len(),
            )],
    {
        proof {
            use_type_invariant(game);
        }
        let position = game.position();
        let actions = position.legal_actions();
        let roll = splitmix64(self.seed ^ (game.plies() as u64));
        let index = (roll as usize) % actions.len();
        proof {
            lemma_legal_accepted(position@, index as int);
        }
        actions[index]
    }
}

/// The value of a piece in centipawns: 1/3/3/5/9, the king uncounted.
pub open spec fn piece_value(role: Role) -> int {
    match role {
        Role::Pawn => 100,
        Role::Knight => 320,
        Role::Bishop => 330,
        Role::Rook => 500,
        Role::Queen => 900,
        Role::King => 0,
    }
}

/// The material balance of the first `n` squares, from `side`'s view.
pub open spec fn material_upto(board: Seq<Option<Piece>>, side: Color, n: int) -> int
    decreases n,
{
    if n <= 0 {
        0
    } else {
        material_upto(board, side, n - 1) + match board[n - 1] {
            None => 0,
            Some(p) => if p.color == side {
                piece_value(p.role)
            } else {
                -piece_value(p.role)
            },
        }
    }
}

/// Material balance from the side to move's view, in centipawns.
pub open spec fn material_spec(m: PositionModel) -> int {
    material_upto(m.board, m.turn, 64)
}

/// Material balance from the side to move's view, in centipawns — the
/// first rung of the evaluator ladder.
pub fn material(position: Position) -> (score: i32)
    ensures
        score == material_spec(position@),
{
    proof {
        crate::position::lemma_board_len(position);
    }
    let turn = position.turn();
    let mut score: i32 = 0;
    let mut i: usize = 0;
    while i < 64
        invariant
            i <= 64,
            position@.board.len() == 64,
            turn == position@.turn,
            score == material_upto(position@.board, turn, i as int),
            -900 * i <= score <= 900 * i,
        decreases 64 - i,
    {
        if let Some(piece) = position.at_index(i) {
            let value: i32 = match piece.role {
                Role::Pawn => 100,
                Role::Knight => 320,
                Role::Bishop => 330,
                Role::Rook => 500,
                Role::Queen => 900,
                Role::King => 0,
            };
            score = if piece.color == turn {
                score + value
            } else {
                score - value
            };
        }
        i = i + 1;
    }
    score
}

} // verus!

verus! {

/// Larger than any material sum, so a forced mate always outweighs
/// material — and offset by the ply so a shorter mate scores higher.
pub const MATE: i32 = 1000000;

/// The position after legal action `a`.
pub open spec fn child_of(m: PositionModel, a: Action) -> PositionModel {
    reduce_spec(m, a)->Ok_0
}

/// What `eval` says of the position `m`.
pub open spec fn leaf_value<E: Fn(Position) -> i32>(eval: E, m: PositionModel) -> int {
    (choose|px: (Position, i32)| px.0@ == m && #[trigger] call_ensures(eval, (px.0,), px.1)).1 as int
}

/// The negamax value of `m` to the side to move, searching `depth` plies at
/// `ply` plies from the root with `eval` at the leaves: a mate scores
/// against the side to move (sooner mates weigh more), any other ending is
/// even, a leaf is what `eval` says of it, and an inner node is the best of
/// its children's values negated.
pub open spec fn negamax_spec<E: Fn(Position) -> i32>(eval: E, m: PositionModel, depth: nat, ply: int) -> int
    decreases depth, legal_actions_spec(m).len() + 1,
{
    match mode_spec(m) {
        Mode::Played(Ending::Checkmate { .. }) => -(MATE - ply),
        Mode::Played(_) => 0,
        Mode::Playing => if depth == 0 {
            leaf_value(eval, m)
        } else {
            best_child(eval, m, depth, ply, legal_actions_spec(m).len() as int)
        },
    }
}

/// The best negated value among the children of `m` reached by its first
/// `n` legal actions, each searched a ply shallower.
pub open spec fn best_child<E: Fn(Position) -> i32>(eval: E, m: PositionModel, depth: nat, ply: int, n: int) -> int
    decreases depth, n,
{
    if depth == 0 || n <= 0 {
        0
    } else {
        let here = -negamax_spec(
            eval,
            child_of(m, legal_actions_spec(m)[n - 1]),
            (depth - 1) as nat,
            ply + 1,
        );
        if n == 1 {
            here
        } else {
            let rest = best_child(eval, m, depth, ply, n - 1);
            if here > rest {
                here
            } else {
                rest
            }
        }
    }
}

/// An evaluator fit for search: callable on every position, a function
/// of the position alone, and never returning the one value that cannot
/// be negated.
pub open spec fn evaluator<E: Fn(Position) -> i32>(eval: E) -> bool {
    &&& forall|p: Position| call_requires(eval, (p,))
    &&& forall|p: Position, x: i32| call_ensures(eval, (p,), x) ==> x > i32::MIN
    &&& forall|p: Position, q: Position, x: i32, y: i32|
        p@ == q@ && call_ensures(eval, (p,), x) && call_ensures(eval, (q,), y) ==> x == y
}

/// What an evaluator returns is what it says of the position.
pub(crate) proof fn lemma_leaf<E: Fn(Position) -> i32>(eval: E, p: Position, x: i32)
    requires
        evaluator(eval),
        call_ensures(eval, (p,), x),
    ensures
        leaf_value(eval, p@) == x,
{
    assert((p, x).0@ == p@ && call_ensures(eval, ((p, x).0,), (p, x).1));
    let px = choose|px: (Position, i32)| px.0@ == p@ && #[trigger] call_ensures(eval, (px.0,), px.1);
    assert(px.0@ == p@ && call_ensures(eval, (px.0,), px.1));
}

/// The value of `position` to the side to move, looking `depth` plies
/// ahead. The mode is checked first, so a terminal position is scored
/// exactly even at the horizon.
fn negamax<E: Fn(Position) -> i32>(position: Position, depth: u32, ply: i32, eval: &E) -> (value: i32)
    requires
        evaluator(*eval),
        0 <= ply,
        ply + depth <= i32::MAX,
    ensures
        value == negamax_spec(*eval, position@, depth as nat, ply as int),
        value > i32::MIN,
    decreases depth,
{
    match position.mode() {
        Mode::Played(Ending::Checkmate { .. }) => -(MATE - ply),
        Mode::Played(_) => 0,
        Mode::Playing => {
            if depth == 0 {
                let x = eval(position);
                proof {
                    lemma_leaf(*eval, position, x);
                }
                return x;
            }
            let actions = position.legal_actions();
            let mut best: i32 = 0;
            let mut i: usize = 0;
            while i < actions.len()
                invariant
                    i <= actions@.len(),
                    actions@ == legal_actions_spec(position@),
                    mode_spec(position@) == Mode::Playing,
                    evaluator(*eval),
                    0 <= ply,
                    ply + depth <= i32::MAX,
                    depth > 0,
                    i > 0 ==> best == best_child(*eval, position@, depth as nat, ply as int, i as int),
                    best > i32::MIN,
                decreases actions.len() - i,
            {
                proof {
                    lemma_legal_accepted(position@, i as int);
                }
                let next = child(position, actions[i]);
                let v = negamax(next, depth - 1, ply + 1, eval);
                if i == 0 || -v > best {
                    best = -v;
                }
                i = i + 1;
            }
            best
        },
    }
}

/// The position after a known-legal action — search only ever applies
/// moves it enumerated, so this never rejects.
fn child(position: Position, action: Action) -> (next: Position)
    requires
        reduce_spec(position@, action) is Ok,
    ensures
        next@ == child_of(position@, action),
{
    match crate::reduce::reduce(position, action) {
        Ok(next) => next,
        Err(_) => position,
    }
}

/// The negamax value of a position to the side to move, searching `depth`
/// plies with `eval` at the leaves.
pub fn evaluate<E: Fn(Position) -> i32>(position: Position, depth: u32, eval: &E) -> (value: i32)
    requires
        evaluator(*eval),
        depth <= i32::MAX,
    ensures
        value == negamax_spec(*eval, position@, depth as nat, 0),
{
    negamax(position, depth, 0, eval)
}

} // verus!

verus! {

/// A bot that searches: it runs the fold speculatively to `depth` plies,
/// assuming the opponent answers best, and keeps the line that scores
/// highest under `eval`. Swap a stronger evaluator in without touching the
/// search.
pub struct Minimax<E: Fn(Position) -> i32> {
    depth: u32,
    eval: E,
}

/// What a search `depth` plies deep says of legal action number `i` of
/// `m`: the child's value to the opponent, negated.
pub open spec fn action_score<E: Fn(Position) -> i32>(eval: E, m: PositionModel, depth: nat, i: int) -> int {
    -negamax_spec(
        eval,
        child_of(m, legal_actions_spec(m)[i]),
        if depth > 0 {
            (depth - 1) as nat
        } else {
            0
        },
        1,
    )
}

/// The last of the first `n` legal actions of `m` with the highest score.
pub open spec fn best_index<E: Fn(Position) -> i32>(eval: E, m: PositionModel, depth: nat, n: int) -> int
    decreases n,
{
    if n <= 1 {
        0
    } else {
        let k = best_index(eval, m, depth, n - 1);
        if action_score(eval, m, depth, n - 1) >= action_score(eval, m, depth, k) {
            n - 1
        } else {
            k
        }
    }
}

impl<E: Fn(Position) -> i32> Minimax<E> {
    /// The evaluator is fit for search, and the depth leaves room to count plies.
    #[verifier::type_invariant]
    spec fn fit(self) -> bool {
        evaluator(self.eval) && self.depth <= i32::MAX
    }

    /// How deep the search looks.
    pub closed spec fn depth_spec(&self) -> u32 {
        self.depth
    }

    /// The evaluator at the leaves.
    pub closed spec fn eval_spec(&self) -> E {
        self.eval
    }

    /// Search `depth` plies deep, scoring leaves with `eval`.
    pub fn new(depth: u32, eval: E) -> (player: Minimax<E>)
        requires
            evaluator(eval),
            depth <= i32::MAX,
        ensures
            player.depth_spec() == depth,
            player.eval_spec() == eval,
    {
        Minimax { depth, eval }
    }
}

impl<E: Fn(Position) -> i32> Player for Minimax<E> {
    /// The legal action its search scores best.
    open spec fn answers(&self, game: GameModel, action: Action) -> bool {
        action == legal_actions_spec(game.history.last())[best_index(
            self.eval_spec(),
            game.history.last(),
            self.depth_spec() as nat,
            legal_actions_spec(game.history.last()).len() as int,
        )]
    }

    fn choose_action(&self, game: &Game) -> (action: Action)
        ensures
            action == legal_actions_spec(game@.history.last())[best_index(
                self.eval_spec(),
                game@.history.last(),
                self.depth_spec() as nat,
                legal_actions_spec(game@.history.last()).len() as int,
            )],
    {
        proof {
            use_type_invariant(self);
            use_type_invariant(game);
        }
        let position = game.position();
        let actions = position.legal_actions();
        let below = self.depth.saturating_sub(1);
        let mut best: usize = 0;
        let mut best_score: i32 = 0;
        let mut i: usize = 0;
        while i < actions.len()
            invariant
                i <= actions@.len(),
                actions@ == legal_actions_spec(position@),
                evaluator(self.eval),
                self.depth <= i32::MAX,
                below as nat == (if self.depth > 0 {
                    (self.depth - 1) as nat
                } else {
                    0nat
                }),
                i > 0 ==> best == best_index(self.eval, position@, self.depth as nat, i as int),
                i > 0 ==> best_score == action_score(self.eval, position@, self.depth as nat, best as int),
                i > 0 ==> best < i,
            decreases actions.len() - i,
        {
            proof {
                lemma_legal_accepted(position@, i as int);
            }
            let next = child(position, actions[i]);
            let value = negamax(next, below, 1, &self.eval);
            let score = -value;
            if i == 0 || score >= best_score {
                best = i;
                best_score = score;
            }
            i = i + 1;
        }
        proof {
            lemma_legal_accepted(position@, best as int);
        }
        actions[best]
    }
}

} // verus!
