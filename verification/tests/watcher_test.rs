//! The full speedchess loop, deterministically: caissa's core takes time
//! as data and never reads a clock, so the only place a clock exists is
//! the watcher — the effectful driver that auto-claims a fallen flag.
//! A synthetic wall clock plays the clock, scheduled callbacks play the
//! server, and no test ever sleeps. Wall-clock instants enter the library
//! as milliseconds since the Unix epoch, durations as milliseconds.

use std::cell::{Cell, RefCell};
use std::rc::Rc;

use caissa::{Clocked, Color, Ending, Mode, Position};
use chrono::{DateTime, Duration, Utc};

type Speedchess = Clocked<i64, u64>;

/// An instant as the library stamps it.
fn ticks(at: DateTime<Utc>) -> i64 {
    at.timestamp_millis()
}

/// A duration as the library counts it.
fn span(length: Duration) -> u64 {
    length.num_milliseconds() as u64
}

type Callback = Box<dyn FnOnce(DateTime<Utc>)>;

/// A wall clock that moves only when told to; a callback scheduled for an
/// instant fires, once, when the clock reaches it.
struct SyntheticClock {
    now: Cell<DateTime<Utc>>,
    pending: RefCell<Vec<(usize, DateTime<Utc>, Callback)>>,
    next_handle: Cell<usize>,
    fired: Cell<usize>,
}

impl SyntheticClock {
    fn at_unix_secs(secs: i64) -> SyntheticClock {
        SyntheticClock {
            now: Cell::new(DateTime::from_timestamp(secs, 0).unwrap()),
            pending: RefCell::new(Vec::new()),
            next_handle: Cell::new(0),
            fired: Cell::new(0),
        }
    }

    fn now(&self) -> DateTime<Utc> {
        self.now.get()
    }

    fn schedule(&self, at: DateTime<Utc>, callback: Callback) -> usize {
        let handle = self.next_handle.get();
        self.next_handle.set(handle + 1);
        self.pending.borrow_mut().push((handle, at, callback));
        handle
    }

    fn cancel(&self, handle: usize) {
        self.pending.borrow_mut().retain(|(h, _, _)| *h != handle);
    }

    fn advance_secs(&self, secs: i64) {
        let target = self.now.get() + Duration::seconds(secs);
        loop {
            let due = {
                let mut pending = self.pending.borrow_mut();
                let earliest = (0..pending.len())
                    .filter(|&i| pending[i].1 <= target)
                    .min_by_key(|&i| pending[i].1);
                earliest.map(|i| pending.remove(i))
            };
            match due {
                Some((_, at, callback)) => {
                    self.now.set(at);
                    self.fired.set(self.fired.get() + 1);
                    callback(at);
                }
                None => break,
            }
        }
        self.now.set(target);
    }

    fn fired_callbacks(&self) -> usize {
        self.fired.get()
    }
}

/// Schedule an auto-flag claim for the player to move, at the instant
/// their budget runs out. Returns the handle so a move that arrives in
/// time can cancel and re-arm — the whole server loop.
fn arm(clock: &SyntheticClock, table: &Rc<RefCell<Speedchess>>) -> usize {
    let falls_at = {
        let t = table.borrow();
        let mover = t.timeline().game().position().turn();
        let latest = t.timeline().latest();
        latest + (t.remaining(mover, latest) + span(Duration::milliseconds(1))) as i64
    };
    let shared = Rc::clone(table);
    clock.schedule(
        DateTime::from_timestamp_millis(falls_at).unwrap(),
        Box::new(move |now| {
            let mut t = shared.borrow_mut();
            if let Ok(flagged) = t.claim_flag(ticks(now)) {
                *t = flagged;
            }
        }),
    )
}

fn record(table: &Rc<RefCell<Speedchess>>, action: &str, at: DateTime<Utc>) {
    let mut t = table.borrow_mut();
    let next = t.record(action, ticks(at)).unwrap();
    *t = next;
}

#[test]
fn the_watcher_flags_a_player_who_never_moves() {
    let clock = SyntheticClock::at_unix_secs(0);
    let table = Rc::new(RefCell::new(Clocked::begin(
        Position::default(),
        ticks(clock.now()),
        span(Duration::seconds(60)),
    )));

    clock.advance_secs(10);
    record(&table, "e2e4", clock.now()); // White has spent 10s
    clock.advance_secs(15);
    record(&table, "e7e5", clock.now()); // Black has spent 15s

    // White is to move with 50s left. Arm the watcher and walk away.
    let _handle = arm(&clock, &table);
    clock.advance_secs(3600);

    assert_eq!(clock.fired_callbacks(), 1);
    assert_eq!(
        table.borrow().mode(),
        Mode::Played(Ending::Flagged { winner: Color::Black })
    );
}

#[test]
fn a_move_in_time_cancels_the_claim_and_rearms() {
    let clock = SyntheticClock::at_unix_secs(0);
    let table = Rc::new(RefCell::new(Clocked::begin(
        Position::default(),
        ticks(clock.now()),
        span(Duration::seconds(60)),
    )));

    let handle = arm(&clock, &table); // watching White
    clock.advance_secs(30);
    record(&table, "e2e4", clock.now()); // in time, with 30s to spare
    clock.cancel(handle);
    let _handle = arm(&clock, &table); // now watching Black

    clock.advance_secs(3600); // Black never answers

    assert_eq!(clock.fired_callbacks(), 1);
    assert_eq!(
        table.borrow().mode(),
        Mode::Played(Ending::Flagged { winner: Color::White })
    );
}
