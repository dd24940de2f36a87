//! The clock layer: how a `Playing` game forces a move.
//!
//! A pure value can't force anyone — a position just sits there, owed an
//! action. What the core can do is reify the obligation: whose turn it is,
//! how much of their budget they have spent ([`Clocked::spent`] — a fold
//! over the frames, derived rather than stored), and what follows when the
//! budget is exceeded. Expiry enters the game the way everything else
//! does, as an event: [`Clocked::claim_flag`]. The only thing left at the
//! edge is whoever watches the wall clock and makes the claim.
//!
//! `D` is the budget/duration type — the span two stamps are apart. Each
//! player gets the same budget for the whole game.

use vstd::prelude::*;

use crate::action::{Action, IntoAction};
use crate::game::GameModel;
use crate::piece::{spec_opponent, Color};
use crate::position::Position;
use crate::reduce::{Ending, Mode, Rejected, Rejection};
use crate::rules::PositionModel;
use crate::timeline::{in_order, latest_of, record_outcome, stamp_before, Frame, Span, Stamp, Timeline};

verus! {

/// A [`Timeline`] under time control.
#[derive(PartialEq, Eq, Debug)]
pub struct Clocked<T: Stamp, D> {
    timeline: Timeline<T>,
    budget: D,
    /// Winner on time and the stamp of the claim, once a flag falls.
    flagged: Option<(Color, T)>,
}

/// The time ply `i` took.
pub open spec fn think<T: Stamp>(started: T, stamps: Seq<T>, i: int) -> int {
    stamps[i].ticks() - stamp_before(started, stamps, i).ticks()
}

/// The time `color` spent thinking over the first `n` plies: the think
/// times of the plies it made.
pub open spec fn thought<T: Stamp>(
    started: T,
    stamps: Seq<T>,
    history: Seq<PositionModel>,
    color: Color,
    n: int,
) -> int
    decreases n,
{
    if n <= 0 {
        0
    } else {
        thought(started, stamps, history, color, n - 1) + if history[n - 1].turn == color {
            think(started, stamps, n - 1)
        } else {
            0
        }
    }
}

/// One player's think times add up to no more than the time that passed.
proof fn lemma_thought_bounded<T: Stamp>(
    started: T,
    stamps: Seq<T>,
    history: Seq<PositionModel>,
    color: Color,
    n: int,
)
    requires
        0 <= n <= stamps.len(),
        in_order(started, stamps),
    ensures
        0 <= thought(started, stamps, history, color, n),
        thought(started, stamps, history, color, n) <= latest_of(started, stamps.take(n)).ticks()
            - started.ticks(),
    decreases n,
{
    if n > 0 {
        lemma_thought_bounded(started, stamps, history, color, n - 1);
        assert(stamps.take(n).last() == stamps[n - 1]);
        if n > 1 {
            assert(stamps.take(n - 1).last() == stamps[n - 2]);
        }
        assert(stamp_before(started, stamps, n - 1).ticks() <= stamps[n - 1].ticks());
    }
}

impl<T: Stamp> Clocked<T, T::Span> {
    /// The timeline under the clock.
    pub closed spec fn timeline_spec(&self) -> Timeline<T> {
        self.timeline
    }

    /// Each player's budget.
    pub closed spec fn budget_spec(&self) -> T::Span {
        self.budget
    }

    /// The winner on time and the stamp of the claim, once a flag falls.
    pub closed spec fn flagged_spec(&self) -> Option<(Color, T)> {
        self.flagged
    }

    /// The game under the clock.
    pub open spec fn game_spec(&self) -> GameModel {
        self.timeline_spec().game_spec()
    }

    /// Playing, or played — where played includes losing on time.
    pub open spec fn mode_spec(&self) -> Mode {
        match self.flagged_spec() {
            Some((winner, _)) => Mode::Played(Ending::Flagged { winner }),
            None => self.game_spec().mode,
        }
    }

    /// The latest stamp on the timeline.
    pub open spec fn latest_spec(&self) -> T {
        latest_of(self.timeline_spec().started_spec(), self.timeline_spec().stamps_spec())
    }

    /// How much of `color`'s budget is gone as of `now`: their think times,
    /// plus the clock running on them if it is their move.
    pub open spec fn spent_spec(&self, color: Color, now: T) -> int {
        let t = self.timeline_spec();
        let thought = thought(
            t.started_spec(),
            t.stamps_spec(),
            self.game_spec().history,
            color,
            t.stamps_spec().len() as int,
        );
        if self.mode_spec() == Mode::Playing && self.game_spec().history.last().turn == color
            && now.ticks() >= self.latest_spec().ticks() {
            thought + (now.ticks() - self.latest_spec().ticks())
        } else {
            thought
        }
    }

    /// A clocked game from `start`, begun at `at`, each player with `budget`.
    pub fn begin(start: Position, at: T, budget: T::Span) -> (clocked: Clocked<T, T::Span>)
        ensures
            clocked.timeline_spec().started_spec() == at,
            clocked.timeline_spec().stamps_spec() == Seq::<T>::empty(),
            clocked.game_spec() == crate::game::new_game_spec(start@),
            clocked.budget_spec() == budget,
            clocked.flagged_spec() is None,
    {
        Clocked { timeline: Timeline::begin(start, at), budget, flagged: None }
    }

    /// The timeline under the clock.
    pub fn timeline(&self) -> (timeline: &Timeline<T>)
        ensures
            *timeline == self.timeline_spec(),
    {
        &self.timeline
    }

    /// Playing, or played — where "played" now includes losing on time.
    pub fn mode(&self) -> (mode: Mode)
        ensures
            mode == self.mode_spec(),
    {
        match self.flagged {
            Some((winner, _)) => Mode::Played(Ending::Flagged { winner }),
            None => self.timeline.game().mode(),
        }
    }

    /// `None` while playing; a flag claim closes the interval just like a
    /// mating move does.
    pub fn ended(&self) -> (at: Option<T>)
        ensures
            at == (match self.timeline_spec().ended_spec() {
                Some(end) => Some(end),
                None => match self.flagged_spec() {
                    Some((_, claimed)) => Some(claimed),
                    None => None,
                },
            }),
    {
        proof {
            use_type_invariant(&self.timeline);
        }
        match self.timeline.ended() {
            Some(end) => Some(end),
            None => match self.flagged {
                Some((_, claimed)) => Some(claimed),
                None => None,
            },
        }
    }

    /// The time `color` has spent thinking over the recorded plies.
    fn thought_exec(&self, color: Color) -> (total: T::Span)
        ensures
            total.ticks() == thought(
                self.timeline_spec().started_spec(),
                self.timeline_spec().stamps_spec(),
                self.game_spec().history,
                color,
                self.timeline_spec().stamps_spec().len() as int,
            ),
    {
        proof {
            use_type_invariant(&self.timeline);
        }
        let timeline = &self.timeline;
        let game = timeline.game();
        let frames = timeline.frames();
        let ghost started = timeline.started_spec();
        let ghost stamps = timeline.stamps_spec();
        let ghost history = game@.history;
        proof {
            use_type_invariant(game);
        }
        let mut total = <T::Span as Span>::zero();
        let mut ply: usize = 0;
        while ply < frames.len()
            invariant
                ply <= frames@.len(),
                frames@.len() == stamps.len(),
                stamps.len() == game@.log.len(),
                history == game@.history,
                history.len() == game@.log.len() + 1,
                in_order(started, stamps),
                forall|i: int|
                    0 <= i < frames@.len() ==> #[trigger] frames@[i].think_time.ticks() == stamps[i].ticks()
                        - stamp_before(started, stamps, i).ticks(),
                total.ticks() == thought(started, stamps, history, color, ply as int),
            decreases frames.len() - ply,
        {
            proof {
                lemma_thought_bounded(started, stamps, history, color, ply as int + 1);
                assert(stamps.take(ply + 1).last() == stamps[ply as int]);
                stamps[ply as int].lemma_gap(started);
            }
            if game[ply].turn() == color {
                total = total.plus(frames[ply].think_time);
            }
            ply = ply + 1;
        }
        total
    }

    /// How much of `color`'s budget is gone as of `now`: the fold of their
    /// think times over the frames, plus the clock running on them right
    /// now if it is their move. Derived, never stored.
    pub fn spent(&self, color: Color, now: T) -> (spent: T::Span)
        ensures
            spent.ticks() == self.spent_spec(color, now),
    {
        proof {
            use_type_invariant(&self.timeline);
            let t = self.timeline_spec();
            lemma_thought_bounded(
                t.started_spec(),
                t.stamps_spec(),
                self.game_spec().history,
                color,
                t.stamps_spec().len() as int,
            );
            assert(t.stamps_spec().take(t.stamps_spec().len() as int) =~= t.stamps_spec());
            now.lemma_gap(t.started_spec());
        }
        let total = self.thought_exec(color);
        let latest = self.timeline.latest();
        let ticking = self.mode() == Mode::Playing && self.timeline.game().position().turn() == color
            && !now.earlier(latest);
        if ticking {
            total.plus(now.since(latest))
        } else {
            total
        }
    }

    /// What is left of `color`'s budget as of `now` — the number on the
    /// clock face. Zero means the flag is down and a claim will stick.
    pub fn remaining(&self, color: Color, now: T) -> (left: T::Span)
        ensures
            left.ticks() == (if self.spent_spec(color, now) >= self.budget_spec().ticks() {
                0
            } else {
                self.budget_spec().ticks() - self.spent_spec(color, now)
            }),
    {
        let spent = self.spent(color, now);
        if !spent.earlier(self.budget) {
            <T::Span as Span>::zero()
        } else {
            self.budget.less(spent)
        }
    }

    /// Pure: returns a new clocked timeline, this one is untouched. A move
    /// stamped once its player's budget ran dry — the clock face at zero —
    /// is rejected: it arrived too late to exist. Nothing records after a
    /// flag falls.
    pub fn record<A: IntoAction>(&self, action: A, at: T) -> (next: Result<Clocked<T, T::Span>, Rejected>)
        ensures
            match self.flagged_spec() {
                Some((winner, _)) => next is Err && next->Err_0@ == Rejection::GameOver {
                    ending: Ending::Flagged { winner },
                },
                None => if at.ticks() >= self.latest_spec().ticks() && self.spent_spec(
                    self.game_spec().history.last().turn,
                    at,
                ) >= self.budget_spec().ticks() {
                    next is Err && next->Err_0@ == Rejection::OutOfTime
                } else {
                    match next {
                        Ok(c) => record_outcome(
                            self.timeline_spec(),
                            action.spec_into_action(self.game_spec().history.last()),
                            at,
                        ) == Ok::<(GameModel, Seq<T>), Rejection>(
                            (c.game_spec(), c.timeline_spec().stamps_spec()),
                        ) && c.timeline_spec().started_spec()
                            == self.timeline_spec().started_spec() && c.budget_spec()
                            == self.budget_spec() && c.flagged_spec() is None,
                        Err(e) => record_outcome(
                            self.timeline_spec(),
                            action.spec_into_action(self.game_spec().history.last()),
                            at,
                        ) == Err::<(GameModel, Seq<T>), Rejection>(e@),
                    }
                },
            },
    {
        if let Some((winner, _)) = self.flagged {
            return Err(Rejected::GameOver { ending: Ending::Flagged { winner } });
        }
        let mover = self.timeline.game().position().turn();
        if !at.earlier(self.timeline.latest()) && !self.spent(mover, at).earlier(self.budget) {
            return Err(Rejected::OutOfTime);
        }
        let timeline = match self.timeline.record(action, at) {
            Ok(timeline) => timeline,
            Err(e) => {
                return Err(e);
            },
        };
        Ok(Clocked { timeline, budget: self.budget, flagged: None })
    }

    /// The forcing mechanism: when the player to move has used up their
    /// budget (their clock face reads zero), their opponent may claim the
    /// win on time. A claim while the flag is still up is rejected.
    pub fn claim_flag(&self, at: T) -> (claimed: Result<Clocked<T, T::Span>, Rejected>)
        ensures
            match self.mode_spec() {
                Mode::Played(ending) => claimed is Err && claimed->Err_0@ == Rejection::GameOver {
                    ending,
                },
                Mode::Playing => if at.ticks() < self.latest_spec().ticks() {
                    claimed is Err && claimed->Err_0@ == Rejection::OutOfOrder
                } else if self.spent_spec(self.game_spec().history.last().turn, at)
                    >= self.budget_spec().ticks() {
                    claimed is Ok && claimed->Ok_0.game_spec() == self.game_spec()
                        && claimed->Ok_0.timeline_spec().started_spec()
                        == self.timeline_spec().started_spec()
                        && claimed->Ok_0.timeline_spec().stamps_spec()
                        == self.timeline_spec().stamps_spec()
                        && claimed->Ok_0.budget_spec() == self.budget_spec()
                        && claimed->Ok_0.flagged_spec() == Some(
                        (spec_opponent(self.game_spec().history.last().turn), at),
                    )
                } else {
                    claimed is Err && claimed->Err_0@ == Rejection::StillOnTime
                },
            },
    {
        if let Mode::Played(ending) = self.mode() {
            return Err(Rejected::GameOver { ending });
        }
        if at.earlier(self.timeline.latest()) {
            return Err(Rejected::OutOfOrder);
        }
        let mover = self.timeline.game().position().turn();
        if !self.spent(mover, at).earlier(self.budget) {
            let timeline = self.timeline.clone();
            Ok(Clocked { timeline, budget: self.budget, flagged: Some((mover.opponent(), at)) })
        } else {
            Err(Rejected::StillOnTime)
        }
    }
}

/// The clock runs only on the player to move, and only while the game is
/// played: once it has ended (by mate, draw or flag), and at any time for
/// the player not to move, the time spent is the same whenever it is read;
/// for the player to move in a game still playing it grows tick for tick
/// from the latest stamp on.
pub proof fn lemma_clock_runs_on_the_mover<T: Stamp>(
    c: Clocked<T, T::Span>,
    color: Color,
    now1: T,
    now2: T,
)
    ensures
        c.mode_spec() != Mode::Playing || c.game_spec().history.last().turn != color
            ==> c.spent_spec(color, now1) == c.spent_spec(color, now2),
        c.mode_spec() == Mode::Playing && c.game_spec().history.last().turn == color
            && c.latest_spec().ticks() <= now1.ticks() <= now2.ticks() ==> c.spent_spec(color, now2)
            - c.spent_spec(color, now1) == now2.ticks() - now1.ticks(),
{
}

/// Each ply's think time goes to exactly one player: the two players'
/// think times over the first `n` plies add up to the time from the start
/// to the `n`-th stamp.
proof fn lemma_thought_shared<T: Stamp>(
    started: T,
    stamps: Seq<T>,
    history: Seq<PositionModel>,
    n: int,
)
    requires
        0 <= n <= stamps.len(),
    ensures
        thought(started, stamps, history, Color::White, n) + thought(
            started,
            stamps,
            history,
            Color::Black,
            n,
        ) == latest_of(started, stamps.take(n)).ticks() - started.ticks(),
    decreases n,
{
    if n > 0 {
        lemma_thought_shared(started, stamps, history, n - 1);
        assert(stamps.take(n).last() == stamps[n - 1]);
        if n > 1 {
            assert(stamps.take(n - 1).last() == stamps[n - 2]);
        } else {
            assert(stamps.take(0).len() == 0);
        }
    }
}

/// The clock accounts for all the time and no more: what the two players
/// have spent adds up to the time from the start to the latest stamp — or,
/// while the game is played and `now` is past the latest stamp, to `now`.
pub proof fn lemma_spent_adds_up<T: Stamp>(c: Clocked<T, T::Span>, now: T)
    ensures
        c.spent_spec(Color::White, now) + c.spent_spec(Color::Black, now) == (if c.mode_spec()
            == Mode::Playing && now.ticks() >= c.latest_spec().ticks() {
            now.ticks()
        } else {
            c.latest_spec().ticks()
        }) - c.timeline_spec().started_spec().ticks(),
{
    let t = c.timeline_spec();
    let n = t.stamps_spec().len() as int;
    lemma_thought_shared(t.started_spec(), t.stamps_spec(), c.game_spec().history, n);
    assert(t.stamps_spec().take(n) =~= t.stamps_spec());
}

} // verus!
