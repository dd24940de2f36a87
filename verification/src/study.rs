//! Variations: a study is a tree of lines sharing prefixes.
//!
//! A [`Study`] is a layer above [`Game`]: the game stays a linear fold,
//! and branching is added without touching a single law it already
//! proves. You build a study by *grafting whole lines* — never by
//! addressing nodes. The tree walks each new line from the root,
//! coincides along the shared prefix, and branches where it diverges. The
//! first line grafted is the mainline; the first continuation is the
//! mainline continuation at every node, recursively.
//!
//! The tree is kept as its lines in depth-first order: each root-to-leaf
//! path once, the mainline first, and a node's continuations in the order
//! they were grafted. Positions are never stored — every line is a log,
//! replayed from the study's start on demand.

use vstd::prelude::*;

use crate::action::Action;
use crate::game::{
    apply_game_spec, auto_mode, count_key, mode_before, models, new_game_spec, quiet_run,
    repetitions_spec, well_formed, Game, GameModel,
};
use crate::position::{repetition_key_spec, Position};
use crate::reduce::{Mode, Rejection};
use crate::rules::{mode_spec, PositionModel};

verus! {

/// Actions folded over a game by `Game::apply`.
pub open spec fn fold_actions(game: GameModel, actions: Seq<Action>) -> Result<GameModel, Rejection>
    decreases actions.len(),
{
    if actions.len() == 0 {
        Ok(game)
    } else {
        match fold_actions(game, actions.drop_last()) {
            Err(e) => Err(e),
            Ok(before) => apply_game_spec(before, Ok(actions.last())),
        }
    }
}

/// Whether `line` replays by `Game::apply` from a new game at `start`.
pub open spec fn replays(start: PositionModel, line: Seq<Action>) -> bool {
    fold_actions(new_game_spec(start), line) is Ok
}

/// The game `line` replays to from a new game at `start`.
pub open spec fn line_game(start: PositionModel, line: Seq<Action>) -> GameModel {
    fold_actions(new_game_spec(start), line)->Ok_0
}

/// A game's first `n` plies, carrying the mode they reach by themselves.
pub open spec fn game_prefix(g: GameModel, n: int) -> GameModel {
    GameModel {
        start: g.start,
        log: g.log.take(n),
        history: g.history.take(n + 1),
        mode: auto_mode(g.history.take(n + 1), g.log.take(n)),
    }
}

/// A new game carries the mode its start reaches by itself.
pub proof fn lemma_new_game_mode(start: PositionModel)
    ensures
        auto_mode(seq![start], Seq::<Action>::empty()) == mode_spec(start),
{
    let h = seq![start];
    assert(count_key(h, repetition_key_spec(h.last()), 0) == 0);
    assert(repetitions_spec(h) == 1);
    assert(quiet_run(h, Seq::<Action>::empty(), 0) == 0);
}

/// A game is its log folded over its start: re-applying the log of any
/// game to a new game at its start reproduces the game — its log, its
/// history, and the mode the history reaches by itself (a claimed draw is
/// the one thing the log does not carry).
pub proof fn lemma_log_replays(g: GameModel)
    requires
        well_formed(g),
    ensures
        fold_actions(new_game_spec(g.start), g.log) == Ok::<GameModel, Rejection>(
            game_prefix(g, g.log.len() as int),
        ),
{
    lemma_prefix_replays(g, g.log.len() as int);
    assert(g.log.take(g.log.len() as int) =~= g.log);
}

proof fn lemma_prefix_replays(g: GameModel, n: int)
    requires
        well_formed(g),
        0 <= n <= g.log.len(),
    ensures
        fold_actions(new_game_spec(g.start), g.log.take(n)) == Ok::<GameModel, Rejection>(
            game_prefix(g, n),
        ),
    decreases n,
{
    if n == 0 {
        lemma_new_game_mode(g.start);
        assert(g.log.take(0) =~= Seq::<Action>::empty());
        assert(g.history.take(1) =~= seq![g.start]);
    } else {
        lemma_prefix_replays(g, n - 1);
        let before = game_prefix(g, n - 1);
        assert(g.log.take(n).drop_last() =~= g.log.take(n - 1));
        assert(mode_before(g.history, g.log, n - 1) == Mode::Playing);
        assert(before.history.last() == g.history[n - 1]);
        assert(crate::rules::reduce_spec(g.history[n - 1], g.log[n - 1]) == Ok::<
            PositionModel,
            Rejection,
        >(g.history[n]));
        assert(before.log.push(g.log[n - 1]) =~= g.log.take(n));
        assert(before.history.push(g.history[n]) =~= g.history.take(n + 1));
    }
}

/// The length of the longest common prefix of `a` and `b`.
pub open spec fn shared(a: Seq<Action>, b: Seq<Action>) -> int
    decreases a.len(),
{
    if a.len() > 0 && b.len() > 0 && a[0] == b[0] {
        1 + shared(a.drop_first(), b.drop_first())
    } else {
        0
    }
}

/// Whether `p` is a prefix of `line`.
pub open spec fn is_prefix(p: Seq<Action>, line: Seq<Action>) -> bool {
    p.len() <= line.len() && line.take(p.len() as int) == p
}

/// Whether one of the lines already holds `p`.
pub open spec fn covers(lines: Seq<Seq<Action>>, p: Seq<Action>) -> bool {
    exists|i: int| 0 <= i < lines.len() && is_prefix(p, #[trigger] lines[i])
}

/// The deepest point at which any of the first `n` lines meets `p`.
pub open spec fn deepest(lines: Seq<Seq<Action>>, p: Seq<Action>, n: int) -> int
    decreases n,
{
    if n <= 0 {
        0
    } else {
        let d = deepest(lines, p, n - 1);
        let s = shared(lines[n - 1], p);
        if s > d {
            s
        } else {
            d
        }
    }
}

/// The first of the first `n` lines that ends exactly where `p` leaves
/// the tree, on `p`'s path — a leaf that `p` extends.
pub open spec fn leaf_on(lines: Seq<Seq<Action>>, p: Seq<Action>, d: int, n: int) -> Option<int>
    decreases n,
{
    if n <= 0 {
        None
    } else {
        match leaf_on(lines, p, d, n - 1) {
            Some(i) => Some(i),
            None => if lines[n - 1].len() == d && is_prefix(lines[n - 1], p) {
                Some(n - 1)
            } else {
                None
            },
        }
    }
}

/// The last of the first `n` lines that shares at least `d` moves with `p`.
pub open spec fn last_sharing(lines: Seq<Seq<Action>>, p: Seq<Action>, d: int, n: int) -> Option<int>
    decreases n,
{
    if n <= 0 {
        None
    } else if shared(lines[n - 1], p) >= d {
        Some(n - 1)
    } else {
        last_sharing(lines, p, d, n - 1)
    }
}

/// Grafting line `p` onto a tree kept as its lines: a line the tree
/// already holds changes nothing; a line that extends a leaf replaces it;
/// otherwise `p` branches where it leaves the tree, as the last
/// continuation there — after every line through that point.
pub open spec fn graft_lines(lines: Seq<Seq<Action>>, p: Seq<Action>) -> Seq<Seq<Action>> {
    if covers(lines, p) {
        lines
    } else {
        let d = deepest(lines, p, lines.len() as int);
        match leaf_on(lines, p, d, lines.len() as int) {
            Some(i) => lines.update(i, p),
            None => match last_sharing(lines, p, d, lines.len() as int) {
                Some(j) => lines.insert(j + 1, p),
                None => lines.push(p),
            },
        }
    }
}

/// A tree of lines from one starting position. Build it by grafting
/// games with [`with`](Study::with); read it back as games with
/// [`mainline`](Study::mainline) and [`lines`](Study::lines).
#[derive(PartialEq, Eq, Debug)]
pub struct Study {
    start: Position,
    lines: Vec<Vec<Action>>,
}

/// A study as a mathematical value: its start and its lines in
/// depth-first order, the mainline first.
pub struct StudyModel {
    pub start: PositionModel,
    pub lines: Seq<Seq<Action>>,
}

/// Lines, viewed.
pub open spec fn line_models(lines: Seq<Vec<Action>>) -> Seq<Seq<Action>> {
    lines.map_values(|line: Vec<Action>| line@)
}

impl View for Study {
    type V = StudyModel;

    closed spec fn view(&self) -> StudyModel {
        StudyModel { start: self.start@, lines: line_models(self.lines@) }
    }
}

/// What every study satisfies: at least one line, and every line replays
/// from the start.
pub open spec fn study_valid(s: StudyModel) -> bool {
    &&& s.lines.len() >= 1
    &&& forall|i: int| 0 <= i < s.lines.len() ==> replays(s.start, #[trigger] s.lines[i])
}

impl Study {
    /// Every study has a line, and every line replays from its start.
    #[verifier::type_invariant]
    spec fn valid(self) -> bool {
        study_valid(self@)
    }
}


/// The length of the longest common prefix of `a` and `b`.
fn shared_exec(a: &[Action], b: &[Action]) -> (n: usize)
    ensures
        n == shared(a@, b@),
        n <= a@.len(),
        n <= b@.len(),
{
    let mut i: usize = 0;
    assert(a@.subrange(0, a@.len() as int) =~= a@);
    assert(b@.subrange(0, b@.len() as int) =~= b@);
    while i < a.len() && i < b.len() && a[i] == b[i]
        invariant
            i <= a@.len(),
            i <= b@.len(),
            shared(a@, b@) == i + shared(
                a@.subrange(i as int, a@.len() as int),
                b@.subrange(i as int, b@.len() as int),
            ),
        decreases a.len() - i,
    {
        assert(a@.subrange(i as int, a@.len() as int).drop_first() =~= a@.subrange(
            i + 1,
            a@.len() as int,
        ));
        assert(b@.subrange(i as int, b@.len() as int).drop_first() =~= b@.subrange(
            i + 1,
            b@.len() as int,
        ));
        i = i + 1;
    }
    i
}

/// The shared prefix of `p` and `line` is `p` exactly when `p` is a prefix of `line`.
proof fn lemma_shared_prefix(p: Seq<Action>, line: Seq<Action>)
    ensures
        shared(p, line) <= p.len(),
        shared(p, line) <= line.len(),
        (shared(p, line) == p.len()) == is_prefix(p, line),
        shared(p, line) == shared(line, p),
    decreases p.len(),
{
    if p.len() > 0 && line.len() > 0 && p[0] == line[0] {
        lemma_shared_prefix(p.drop_first(), line.drop_first());
        if is_prefix(p, line) {
            assert(line.drop_first().take(p.len() - 1) =~= p.drop_first());
        }
        if is_prefix(p.drop_first(), line.drop_first()) {
            assert(line.take(p.len() as int) =~= seq![p[0]] + p.drop_first());
            assert(p =~= seq![p[0]] + p.drop_first());
        }
    } else if p.len() > 0 && line.len() > 0 {
        if p.len() <= line.len() {
            assert(line.take(p.len() as int)[0] == line[0]);
        }
    } else if p.len() > 0 {
    } else {
        assert(line.take(0) =~= p);
    }
}

/// Whether `p` is a prefix of `line`.
fn is_prefix_exec(p: &[Action], line: &[Action]) -> (prefix: bool)
    ensures
        prefix == is_prefix(p@, line@),
{
    proof {
        lemma_shared_prefix(p@, line@);
    }
    shared_exec(p, line) == p.len()
}

/// Grafts `p` onto the lines of a tree.
fn graft(lines: &mut Vec<Vec<Action>>, p: &[Action])
    ensures
        line_models(final(lines)@) == graft_lines(line_models(old(lines)@), p@),
{
    let ghost ls = line_models(lines@);
    let n = lines.len();
    let mut i: usize = 0;
    while i < n
        invariant
            i <= n,
            n == lines@.len(),
            ls == line_models(lines@),
            forall|j: int| 0 <= j < i ==> !is_prefix(p@, #[trigger] ls[j]),
        decreases n - i,
    {
        if is_prefix_exec(p, lines[i].as_slice()) {
            assert(is_prefix(p@, ls[i as int]));
            return;
        }
        i = i + 1;
    }
    assert(!covers(ls, p@));
    let mut d: usize = 0;
    let mut i: usize = 0;
    while i < n
        invariant
            i <= n,
            n == lines@.len(),
            ls == line_models(lines@),
            d == deepest(ls, p@, i as int),
            d <= p@.len(),
        decreases n - i,
    {
        let s = shared_exec(lines[i].as_slice(), p);
        if s > d {
            d = s;
        }
        i = i + 1;
    }
    let mut leaf: Option<usize> = None;
    let mut last: Option<usize> = None;
    let mut i: usize = 0;
    while i < n
        invariant
            i <= n,
            n == lines@.len(),
            ls == line_models(lines@),
            match leaf {
                Some(k) => leaf_on(ls, p@, d as int, i as int) == Some(k as int) && k < i,
                None => leaf_on(ls, p@, d as int, i as int) is None,
            },
            match last {
                Some(k) => last_sharing(ls, p@, d as int, i as int) == Some(k as int) && k < i,
                None => last_sharing(ls, p@, d as int, i as int) is None,
            },
        decreases n - i,
    {
        let line = lines[i].as_slice();
        if leaf.is_none() && line.len() == d && is_prefix_exec(line, p) {
            leaf = Some(i);
        }
        if shared_exec(line, p) >= d {
            last = Some(i);
        }
        i = i + 1;
    }
    let fresh = vstd::slice::slice_to_vec(p);
    match leaf {
        Some(k) => {
            lines.set(k, fresh);
            assert(line_models(lines@) =~= ls.update(k as int, p@));
        },
        None => match last {
            Some(k) => {
                lines.insert(k + 1, fresh);
                assert(line_models(lines@) =~= ls.insert(k + 1, p@));
            },
            None => {
                lines.push(fresh);
                assert(line_models(lines@) =~= ls.push(p@));
            },
        },
    }
}


/// A fold that fails on a prefix fails as a whole.
proof fn lemma_actions_stuck(game: GameModel, actions: Seq<Action>, n: int)
    requires
        0 <= n <= actions.len(),
        fold_actions(game, actions.take(n)) is Err,
    ensures
        fold_actions(game, actions) is Err,
    decreases actions.len() - n,
{
    if n < actions.len() {
        assert(actions.take(n + 1).drop_last() =~= actions.take(n));
        lemma_actions_stuck(game, actions, n + 1);
    } else {
        assert(actions.take(n) =~= actions);
    }
}

/// Folds a line of actions into a game from `start`. The line came from
/// grafted games, so it always replays.
fn game_of(start: Position, actions: &[Action]) -> (game: Game)
    requires
        replays(start@, actions@),
    ensures
        game@ == line_game(start@, actions@),
{
    let ghost fresh = new_game_spec(start@);
    let mut game = Game::from_position(start);
    let mut i: usize = 0;
    assert(actions@.take(0) =~= Seq::<Action>::empty());
    while i < actions.len()
        invariant
            i <= actions@.len(),
            fresh == new_game_spec(start@),
            replays(start@, actions@),
            fold_actions(fresh, actions@.take(i as int)) == Ok::<GameModel, Rejection>(game@),
        decreases actions.len() - i,
    {
        assert(actions@.take(i + 1).drop_last() =~= actions@.take(i as int));
        match game.apply(actions[i]) {
            Ok(next) => {
                game = next;
            },
            Err(_) => {
                proof {
                    lemma_actions_stuck(fresh, actions@, i + 1);
                }
                return game;
            },
        }
        i = i + 1;
    }
    assert(actions@.take(actions@.len() as int) =~= actions@);
    game
}

proof fn lemma_found_in_range(lines: Seq<Seq<Action>>, p: Seq<Action>, d: int, n: int)
    ensures
        leaf_on(lines, p, d, n) matches Some(k) ==> 0 <= k < n,
        last_sharing(lines, p, d, n) matches Some(k) ==> 0 <= k < n,
    decreases n,
{
    if n > 0 {
        lemma_found_in_range(lines, p, d, n - 1);
    }
}

/// Each line of a graft is the grafted line or one of the old lines.
proof fn lemma_graft_lines_from(lines: Seq<Seq<Action>>, p: Seq<Action>)
    ensures
        forall|i: int|
            0 <= i < graft_lines(lines, p).len() ==> #[trigger] graft_lines(lines, p)[i] == p
                || exists|j: int| 0 <= j < lines.len() && graft_lines(lines, p)[i] == lines[j],
        lines.len() >= 1 ==> graft_lines(lines, p).len() >= 1,
{
    let g = graft_lines(lines, p);
    lemma_found_in_range(lines, p, deepest(lines, p, lines.len() as int), lines.len() as int);
    assert forall|i: int| 0 <= i < g.len() implies #[trigger] g[i] == p || exists|j: int|
        0 <= j < lines.len() && g[i] == lines[j] by {
        if covers(lines, p) {
            assert(g[i] == lines[i]);
        } else {
            let d = deepest(lines, p, lines.len() as int);
            match leaf_on(lines, p, d, lines.len() as int) {
                Some(k) => {
                    if i != k {
                        assert(g[i] == lines[i]);
                    }
                },
                None => match last_sharing(lines, p, d, lines.len() as int) {
                    Some(k) => {
                        if i <= k {
                            assert(g[i] == lines[i]);
                        } else if i > k + 1 {
                            assert(g[i] == lines[i - 1]);
                        }
                    },
                    None => {
                        if i < lines.len() {
                            assert(g[i] == lines[i]);
                        }
                    },
                },
            }
        }
    }
}

impl Study {
    /// An empty study from the standard starting position — one trivial
    /// line, no moves.
    pub fn new() -> (study: Study)
        ensures
            study@ == (StudyModel {
                start: crate::position::start_model(),
                lines: seq![Seq::<Action>::empty()],
            }),
    {
        Study::from_position(Position::default())
    }

    /// An empty study from a given start.
    pub fn from_position(start: Position) -> (study: Study)
        ensures
            study@ == (StudyModel { start: start@, lines: seq![Seq::<Action>::empty()] }),
    {
        let empty: Vec<Action> = Vec::new();
        let lines = vec![empty];
        proof {
            assert(line_models(lines@) =~= seq![Seq::<Action>::empty()]);
            assert(Seq::<Action>::empty().take(0) =~= Seq::<Action>::empty());
            assert(replays(start@, Seq::<Action>::empty()));
        }
        Study { start, lines }
    }

    /// A game as a study of a single line.
    pub fn from(game: Game) -> (study: Study)
        ensures
            study@ == (StudyModel {
                start: game@.start,
                lines: graft_lines(seq![Seq::<Action>::empty()], game@.log),
            }),
    {
        let start = game.start();
        Study::from_position(start).with(game)
    }

    /// Graft a line onto the study. The tree merges it along the shared
    /// prefix and branches where it diverges; re-grafting an existing line
    /// changes nothing. The first line grafted defines the mainline. The
    /// line must share the study's start.
    pub fn with(self, line: Game) -> (study: Study)
        requires
            line@.start == self@.start,
        ensures
            study@ == (StudyModel { start: self@.start, lines: graft_lines(self@.lines, line@.log) }),
    {
        proof {
            use_type_invariant(&self);
            use_type_invariant(&line);
            lemma_log_replays(line@);
            lemma_graft_lines_from(self@.lines, line@.log);
        }
        let ghost old_lines = self@.lines;
        let start = self.start;
        let mut lines = self.lines;
        graft(&mut lines, line.log());
        proof {
            let g = line_models(lines@);
            assert forall|i: int| 0 <= i < g.len() implies replays(start@, #[trigger] g[i]) by {
                if g[i] != line@.log {
                    let j = choose|j: int| 0 <= j < old_lines.len() && g[i] == old_lines[j];
                    assert(replays(start@, old_lines[j]));
                }
            }
        }
        Study { start, lines }
    }

    /// The mainline as a game — the first continuation followed to the end.
    pub fn mainline(&self) -> (game: Game)
        ensures
            game@ == line_game(self@.start, self@.lines[0]),
    {
        proof {
            use_type_invariant(self);
        }
        game_of(self.start, self.lines[0].as_slice())
    }

    /// Every line in the study as a game, mainline first — each carrying
    /// all of `Game`'s derived queries (`mode`, `score`, `fen`, …).
    pub fn lines(&self) -> (games: Vec<Game>)
        ensures
            games@.len() == self@.lines.len(),
            forall|i: int|
                0 <= i < games@.len() ==> #[trigger] games@[i]@ == line_game(
                    self@.start,
                    self@.lines[i],
                ),
    {
        proof {
            use_type_invariant(self);
        }
        let mut games: Vec<Game> = Vec::new();
        let mut i: usize = 0;
        while i < self.lines.len()
            invariant
                i <= self.lines@.len(),
                study_valid(self@),
                games@.len() == i,
                forall|j: int|
                    0 <= j < i ==> #[trigger] games@[j]@ == line_game(self@.start, self@.lines[j]),
            decreases self.lines.len() - i,
        {
            assert(self@.lines[i as int] == self.lines@[i as int]@);
            games.push(game_of(self.start, self.lines[i].as_slice()));
            i = i + 1;
        }
        games
    }
}

impl Default for Study {
    /// An empty study from the standard starting position.
    fn default() -> (study: Study)
        ensures
            study@ == (StudyModel {
                start: crate::position::start_model(),
                lines: seq![Seq::<Action>::empty()],
            }),
    {
        Study::new()
    }
}


/// A copy of `lines`.
fn copy_lines(lines: &Vec<Vec<Action>>) -> (copy: Vec<Vec<Action>>)
    ensures
        line_models(copy@) == line_models(lines@),
{
    let mut copy: Vec<Vec<Action>> = Vec::new();
    let mut i: usize = 0;
    while i < lines.len()
        invariant
            i <= lines@.len(),
            line_models(copy@) == line_models(lines@).take(i as int),
        decreases lines.len() - i,
    {
        let ghost before = line_models(copy@);
        let line = vstd::slice::slice_to_vec(lines[i].as_slice());
        copy.push(line);
        assert(line_models(copy@) =~= before.push(lines@[i as int]@));
        assert(line_models(copy@) =~= line_models(lines@).take(i + 1));
        i = i + 1;
    }
    assert(line_models(lines@).take(lines@.len() as int) =~= line_models(lines@));
    copy
}

impl Clone for Study {
    fn clone(&self) -> (copy: Study)
        ensures
            copy@ == self@,
    {
        proof {
            use_type_invariant(self);
        }
        Study { start: self.start, lines: copy_lines(&self.lines) }
    }
}


/// Re-grafting a line the study already holds changes nothing.
pub proof fn lemma_regraft(lines: Seq<Seq<Action>>, i: int)
    requires
        0 <= i < lines.len(),
    ensures
        graft_lines(lines, lines[i]) == lines,
{
    assert(lines[i].take(lines[i].len() as int) =~= lines[i]);
    assert(is_prefix(lines[i], lines[i]));
}

/// The first line grafted onto an empty study is its mainline.
pub proof fn lemma_first_line_is_mainline(p: Seq<Action>)
    ensures
        graft_lines(seq![Seq::<Action>::empty()], p)[0] == p,
        graft_lines(seq![Seq::<Action>::empty()], p).len() == 1,
{
    let lines = seq![Seq::<Action>::empty()];
    if covers(lines, p) {
        let i = choose|i: int| 0 <= i < lines.len() && is_prefix(p, #[trigger] lines[i]);
        assert(p.len() == 0);
        assert(p =~= Seq::<Action>::empty());
    } else {
        assert(shared(lines[0], p) == 0);
        assert(deepest(lines, p, 0) == 0);
        assert(deepest(lines, p, 1) == 0);
        assert(leaf_on(lines, p, 0, 0) is None);
        assert(lines[0].take(0) =~= lines[0]);
        assert(is_prefix(lines[0], p)) by {
            assert(p.take(0) =~= Seq::<Action>::empty());
        }
        assert(leaf_on(lines, p, 0, 1) == Some(0int));
    }
}


/// A leaf found for `p` is one of the lines, and a prefix of `p`.
proof fn lemma_leaf_on(lines: Seq<Seq<Action>>, p: Seq<Action>, d: int, n: int)
    requires
        0 <= n <= lines.len(),
    ensures
        leaf_on(lines, p, d, n) matches Some(i) ==> 0 <= i < n && is_prefix(lines[i], p),
    decreases n,
{
    if n > 0 {
        lemma_leaf_on(lines, p, d, n - 1);
    }
}

/// A line found sharing with `p` is one of the lines.
proof fn lemma_last_sharing(lines: Seq<Seq<Action>>, p: Seq<Action>, d: int, n: int)
    requires
        0 <= n <= lines.len(),
    ensures
        last_sharing(lines, p, d, n) matches Some(j) ==> 0 <= j < n,
    decreases n,
{
    if n > 0 {
        lemma_last_sharing(lines, p, d, n - 1);
    }
}

/// Grafting keeps what the study held and adds the line grafted: the line
/// is held afterwards (as a line, or the start of one), every line held
/// before still is, and the mainline stays the mainline unless the
/// grafted line is a proper extension of it.
pub proof fn lemma_graft_keeps(lines: Seq<Seq<Action>>, p: Seq<Action>)
    requires
        lines.len() > 0,
    ensures
        covers(graft_lines(lines, p), p),
        forall|k: int| 0 <= k < lines.len() ==> covers(graft_lines(lines, p), #[trigger] lines[k]),
        !(is_prefix(lines[0], p) && lines[0].len() < p.len()) ==> graft_lines(lines, p)[0]
            == lines[0],
        graft_lines(lines, p).len() >= lines.len(),
{
    let out = graft_lines(lines, p);
    assert(p.take(p.len() as int) =~= p);
    if is_prefix(lines[0], p) && lines[0].len() == p.len() {
        assert(lines[0] =~= p);
        assert(is_prefix(p, lines[0]));
    }
    if covers(lines, p) {
        assert forall|k: int| 0 <= k < lines.len() implies covers(out, #[trigger] lines[k]) by {
            assert(lines[k].take(lines[k].len() as int) =~= lines[k]);
            assert(is_prefix(lines[k], out[k]));
        }
    } else {
        let d = deepest(lines, p, lines.len() as int);
        let n = lines.len() as int;
        lemma_leaf_on(lines, p, d, n);
        lemma_last_sharing(lines, p, d, n);
        match leaf_on(lines, p, d, n) {
            Some(i) => {
                assert(out == lines.update(i, p));
                assert(is_prefix(p, out[i]));
                assert forall|k: int| 0 <= k < lines.len() implies covers(out, #[trigger] lines[k]) by {
                    assert(lines[k].take(lines[k].len() as int) =~= lines[k]);
                    if k == i {
                        assert(is_prefix(lines[k], out[k]));
                    } else {
                        assert(is_prefix(lines[k], out[k]));
                    }
                }
            },
            None => {
                let at = match last_sharing(lines, p, d, n) {
                    Some(j) => j + 1,
                    None => n,
                };
                assert(out == lines.insert(at, p));
                assert(out[at] == p);
                assert(is_prefix(p, out[at]));
                assert forall|k: int| 0 <= k < lines.len() implies covers(out, #[trigger] lines[k]) by {
                    assert(lines[k].take(lines[k].len() as int) =~= lines[k]);
                    if k < at {
                        assert(out[k] == lines[k]);
                        assert(is_prefix(lines[k], out[k]));
                    } else {
                        assert(out[k + 1] == lines[k]);
                        assert(is_prefix(lines[k], out[k + 1]));
                    }
                }
                if at == n {
                    assert(lines.insert(n, p) =~= lines.push(p));
                }
            },
        }
    }
}

/// Grafting the same line again changes nothing.
pub proof fn lemma_graft_twice(lines: Seq<Seq<Action>>, p: Seq<Action>)
    requires
        lines.len() > 0,
    ensures
        graft_lines(graft_lines(lines, p), p) == graft_lines(lines, p),
{
    lemma_graft_keeps(lines, p);
}

} // verus!
