//! A timestamped game. The chess core stays pure — time is an annotation
//! on the log, generic over the timestamp type `T` and the span `T::Span`
//! two stamps are apart, so tests can use plain tick counts and a recorder
//! hands in what its clock reads, as a count (an `i64` of milliseconds
//! since the Unix epoch, apart by a `u64`).
//!
//! A replay is a value: [`Timeline::frames`] yields each move with the time
//! it took. Playing it back in realtime — each move held literally as long
//! as the player thought — is one effect at the edge.

use vstd::prelude::*;

use crate::action::{Action, IntoAction};
use crate::game::{apply_game_spec, game_result, new_game_spec, Game, GameModel};
use crate::position::Position;
use crate::reduce::{Mode, Rejected, Rejection};
use crate::rules::PositionModel;

verus! {

/// A length of time, counted in ticks: a think time, a budget, what is
/// left of one.
pub trait Span: Copy + Sized {
    /// The number of ticks.
    spec fn ticks(self) -> int;

    /// The most ticks the type can count.
    spec fn limit() -> int;

    /// Every span counts between zero and the limit.
    proof fn lemma_range(self)
        ensures
            0 <= self.ticks() <= Self::limit(),
    ;

    /// No time at all.
    fn zero() -> (none: Self)
        ensures
            none.ticks() == 0,
    ;

    /// Whether this span is strictly shorter than `other`.
    fn earlier(self, other: Self) -> (before: bool)
        ensures
            before == (self.ticks() < other.ticks()),
    ;

    /// This span shortened by `cut`.
    fn less(self, cut: Self) -> (rest: Self)
        requires
            cut.ticks() <= self.ticks(),
        ensures
            rest.ticks() == self.ticks() - cut.ticks(),
    ;

    /// This span lengthened by `more`.
    fn plus(self, more: Self) -> (total: Self)
        requires
            self.ticks() + more.ticks() <= Self::limit(),
        ensures
            total.ticks() == self.ticks() + more.ticks(),
    ;
}

/// A point in time, counted in ticks from some origin: what a timeline
/// stamps its moves with. Two stamps are a `Span` apart.
pub trait Stamp: Copy + Sized {
    /// What separates two stamps.
    type Span: Span;

    /// The number of ticks since the origin.
    spec fn ticks(self) -> int;

    /// No two stamps lie further apart than a span can count.
    proof fn lemma_gap(self, start: Self)
        ensures
            start.ticks() <= self.ticks() ==> self.ticks() - start.ticks()
                <= <Self::Span as Span>::limit(),
    ;

    /// Whether this stamp comes strictly before `other`.
    fn earlier(self, other: Self) -> (before: bool)
        ensures
            before == (self.ticks() < other.ticks()),
    ;

    /// The span from `start` to this stamp.
    fn since(self, start: Self) -> (span: Self::Span)
        requires
            start.ticks() <= self.ticks(),
        ensures
            span.ticks() == self.ticks() - start.ticks(),
    ;
}

impl Span for u32 {
    open spec fn ticks(self) -> int {
        self as int
    }

    open spec fn limit() -> int {
        u32::MAX as int
    }

    proof fn lemma_range(self) {
    }

    fn zero() -> (none: Self) {
        0
    }

    fn earlier(self, other: Self) -> (before: bool) {
        self < other
    }

    fn less(self, cut: Self) -> (rest: Self) {
        self - cut
    }

    fn plus(self, more: Self) -> (total: Self) {
        self + more
    }
}

impl Span for u64 {
    open spec fn ticks(self) -> int {
        self as int
    }

    open spec fn limit() -> int {
        u64::MAX as int
    }

    proof fn lemma_range(self) {
    }

    fn zero() -> (none: Self) {
        0
    }

    fn earlier(self, other: Self) -> (before: bool) {
        self < other
    }

    fn less(self, cut: Self) -> (rest: Self) {
        self - cut
    }

    fn plus(self, more: Self) -> (total: Self) {
        self + more
    }
}

/// Ticks from the origin, apart by as many ticks.
impl Stamp for u32 {
    type Span = u32;

    open spec fn ticks(self) -> int {
        self as int
    }

    proof fn lemma_gap(self, start: Self) {
    }

    fn earlier(self, other: Self) -> (before: bool) {
        self < other
    }

    fn since(self, start: Self) -> (span: u32) {
        self - start
    }
}

/// Ticks from the origin, apart by as many ticks.
impl Stamp for u64 {
    type Span = u64;

    open spec fn ticks(self) -> int {
        self as int
    }

    proof fn lemma_gap(self, start: Self) {
    }

    fn earlier(self, other: Self) -> (before: bool) {
        self < other
    }

    fn since(self, start: Self) -> (span: u64) {
        self - start
    }
}

/// Ticks either side of the origin — milliseconds since the Unix epoch, as
/// a wall clock reads them — apart by an unsigned count.
impl Stamp for i64 {
    type Span = u64;

    open spec fn ticks(self) -> int {
        self as int
    }

    proof fn lemma_gap(self, start: Self) {
    }

    fn earlier(self, other: Self) -> (before: bool) {
        self < other
    }

    fn since(self, start: Self) -> (span: u64) {
        let gap: i128 = self as i128 - start as i128;
        gap as u64
    }
}

/// A copy of `items`.
fn copy_all<T: Copy>(items: &Vec<T>) -> (copy: Vec<T>)
    ensures
        copy@ == items@,
{
    let mut copy: Vec<T> = Vec::new();
    let mut i: usize = 0;
    while i < items.len()
        invariant
            i <= items@.len(),
            copy@ == items@.take(i as int),
        decreases items.len() - i,
    {
        copy.push(items[i]);
        assert(copy@ =~= items@.take(i + 1));
        i = i + 1;
    }
    assert(items@.take(items@.len() as int) =~= items@);
    copy
}

/// A game whose log is annotated with when each ply was made.
///
/// `started` and `ended` are a valid-time interval: `ended` is `None`
/// while the game is being played, and closes with the stamp of the move
/// that finished it — the chronological shadow of the game's mode.
#[derive(PartialEq, Eq, Debug)]
pub struct Timeline<T: Stamp> {
    started: T,
    ended: Option<T>,
    game: Game,
    stamps: Vec<T>,
}

/// One step of a replay: what was played, what it produced, and how long
/// the player took.
#[derive(Copy, Clone, PartialEq, Eq, Debug)]
pub struct Frame<D> {
    pub think_time: D,
    pub action: Action,
    pub position: Position,
}

/// The stamp before ply `i`: the previous ply's, or the start's.
pub open spec fn stamp_before<T: Stamp>(started: T, stamps: Seq<T>, i: int) -> T {
    if i == 0 {
        started
    } else {
        stamps[i - 1]
    }
}

/// The latest stamp: the last ply's, or the start's before any ply.
pub open spec fn latest_of<T: Stamp>(started: T, stamps: Seq<T>) -> T {
    if stamps.len() == 0 {
        started
    } else {
        stamps.last()
    }
}

/// Stamps that never go back in time, from `started` on.
pub open spec fn in_order<T: Stamp>(started: T, stamps: Seq<T>) -> bool {
    forall|i: int|
        0 <= i < stamps.len() ==> stamp_before(started, stamps, i).ticks() <= #[trigger] stamps[i].ticks()
}

/// When a game ends, as of stamp `at`: `None` while it is playing.
pub open spec fn ended_at<T>(mode: Mode, at: T) -> Option<T> {
    match mode {
        Mode::Played(_) => Some(at),
        Mode::Playing => None,
    }
}

/// What recording an action at `at` does to a timeline: a stamp earlier
/// than the latest is out of order; otherwise the game applies the action
/// and the stamp joins the log.
pub open spec fn record_outcome<T: Stamp>(
    t: Timeline<T>,
    action: Result<Action, Rejection>,
    at: T,
) -> Result<(GameModel, Seq<T>), Rejection> {
    if at.ticks() < latest_of(t.started_spec(), t.stamps_spec()).ticks() {
        Err(Rejection::OutOfOrder)
    } else {
        match apply_game_spec(t.game_spec(), action) {
            Ok(g) => Ok((g, t.stamps_spec().push(at))),
            Err(e) => Err(e),
        }
    }
}

impl<T: Stamp> Clone for Timeline<T> {
    fn clone(&self) -> (copy: Timeline<T>)
        ensures
            copy.started_spec() == self.started_spec(),
            copy.ended_spec() == self.ended_spec(),
            copy.game_spec() == self.game_spec(),
            copy.stamps_spec() == self.stamps_spec(),
    {
        proof {
            use_type_invariant(self);
        }
        Timeline {
            started: self.started,
            ended: self.ended,
            game: self.game.clone(),
            stamps: copy_all(&self.stamps),
        }
    }
}

impl<T: Stamp> Timeline<T> {
    /// A stamp for every ply, in order, and the interval closed exactly
    /// when the game is played — at the latest stamp.
    #[verifier::type_invariant]
    pub open spec fn wf(self) -> bool {
        &&& self.stamps_spec().len() == self.game_spec().log.len()
        &&& in_order(self.started_spec(), self.stamps_spec())
        &&& self.ended_spec() == ended_at(
            self.game_spec().mode,
            latest_of(self.started_spec(), self.stamps_spec()),
        )
    }

    /// The interval's end, as stored.
    pub closed spec fn ended_spec(&self) -> Option<T> {
        self.ended
    }

    /// When the timeline began.
    pub closed spec fn started_spec(&self) -> T {
        self.started
    }

    /// The stamps of the plies, in order.
    pub closed spec fn stamps_spec(&self) -> Seq<T> {
        self.stamps@
    }

    /// The game the timeline annotates.
    pub closed spec fn game_spec(&self) -> GameModel {
        self.game@
    }

    /// A timeline from `start`, begun at `at`. A game born from a terminal
    /// position was over before we began watching: an empty interval.
    pub fn begin(start: Position, at: T) -> (timeline: Timeline<T>)
        ensures
            timeline.started_spec() == at,
            timeline.stamps_spec() == Seq::<T>::empty(),
            timeline.game_spec() == new_game_spec(start@),
    {
        let game = Game::from_position(start);
        let ended = match game.mode() {
            Mode::Played(_) => Some(at),
            Mode::Playing => None,
        };
        let stamps: Vec<T> = Vec::new();
        assert(stamps@ =~= Seq::<T>::empty());
        Timeline { started: at, ended, game, stamps }
    }

    /// Pure: returns a new timeline, this one is untouched. The action goes
    /// through the reducer like any other — time never changes what is
    /// legal, it only records. A stamp earlier than the latest is rejected.
    pub fn record<A: IntoAction>(&self, action: A, at: T) -> (next: Result<Timeline<T>, Rejected>)
        ensures
            match next {
                Ok(t) => record_outcome(
                    *self,
                    action.spec_into_action(self.game_spec().history.last()),
                    at,
                ) == Ok::<(GameModel, Seq<T>), Rejection>((t.game_spec(), t.stamps_spec()))
                    && t.started_spec() == self.started_spec(),
                Err(e) => record_outcome(
                    *self,
                    action.spec_into_action(self.game_spec().history.last()),
                    at,
                ) == Err::<(GameModel, Seq<T>), Rejection>(e@),
            },
    {
        proof {
            use_type_invariant(self);
        }
        let previous = self.latest();
        if at.earlier(previous) {
            return Err(Rejected::OutOfOrder);
        }
        let game = match self.game.apply(action) {
            Ok(game) => game,
            Err(e) => {
                return Err(e);
            },
        };
        let ended = match game.mode() {
            Mode::Played(_) => Some(at),
            Mode::Playing => None,
        };
        let mut stamps = copy_all(&self.stamps);
        stamps.push(at);
        proof {
            assert forall|i: int| 0 <= i < stamps@.len() implies stamp_before(
                self.started,
                stamps@,
                i,
            ).ticks() <= #[trigger] stamps@[i].ticks() by {
                if i < self.stamps@.len() {
                    assert(stamps@[i] == self.stamps@[i]);
                    assert(stamp_before(self.started, self.stamps@, i).ticks()
                        <= self.stamps@[i].ticks());
                }
            }
        }
        Ok(Timeline { started: self.started, ended, game, stamps })
    }

    /// The annotated game.
    pub fn game(&self) -> (game: &Game)
        ensures
            game@ == self.game_spec(),
    {
        &self.game
    }

    /// When the timeline began.
    pub fn started(&self) -> (at: T)
        ensures
            at == self.started_spec(),
    {
        self.started
    }

    /// The most recent stamp on the timeline — the last move's, or
    /// `started` before any move.
    pub fn latest(&self) -> (at: T)
        ensures
            at == latest_of(self.started_spec(), self.stamps_spec()),
    {
        if self.stamps.len() == 0 {
            self.started
        } else {
            self.stamps[self.stamps.len() - 1]
        }
    }

    /// `None` means the game is still being played; once played, the
    /// stamp of the move that ended it.
    pub fn ended(&self) -> (at: Option<T>)
        ensures
            at == ended_at(self.game_spec().mode, latest_of(self.started_spec(), self.stamps_spec())),
    {
        proof {
            use_type_invariant(self);
        }
        self.ended
    }

    /// The replay as a value: every ply with the time it took, in order.
    pub fn frames(&self) -> (frames: Vec<Frame<T::Span>>)
        ensures
            frames@.len() == self.stamps_spec().len(),
            forall|i: int|
                0 <= i < frames@.len() ==> {
                    &&& #[trigger] frames@[i].think_time.ticks() == self.stamps_spec()[i].ticks()
                        - stamp_before(self.started_spec(), self.stamps_spec(), i).ticks()
                    &&& frames@[i].action == self.game_spec().log[i]
                    &&& frames@[i].position@ == self.game_spec().history[i + 1]
                },
    {
        proof {
            use_type_invariant(self);
            use_type_invariant(&self.game);
        }
        let log = self.game.log();
        let mut frames: Vec<Frame<T::Span>> = Vec::new();
        let mut ply: usize = 0;
        while ply < self.stamps.len()
            invariant
                ply <= self.stamps@.len(),
                self.stamps@.len() == self.game@.log.len(),
                self.game@.history.len() == self.game@.log.len() + 1,
                in_order(self.started, self.stamps@),
                log@ == self.game@.log,
                frames@.len() == ply,
                forall|i: int|
                    0 <= i < ply ==> {
                        &&& #[trigger] frames@[i].think_time.ticks() == self.stamps@[i].ticks()
                            - stamp_before(self.started, self.stamps@, i).ticks()
                        &&& frames@[i].action == self.game@.log[i]
                        &&& frames@[i].position@ == self.game@.history[i + 1]
                    },
            decreases self.stamps.len() - ply,
        {
            let before = if ply == 0 {
                self.started
            } else {
                self.stamps[ply - 1]
            };
            let at = self.stamps[ply];
            assert(stamp_before(self.started, self.stamps@, ply as int).ticks() <= self.stamps@[ply as int].ticks());
            frames.push(
                Frame { think_time: at.since(before), action: log[ply], position: self.game[ply + 1] },
            );
            ply = ply + 1;
        }
        frames
    }
}

} // verus!
