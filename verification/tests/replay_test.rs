use caissa::notation::{f3};
use caissa::{Color, Ending, Frame, Piece, Position, Rejected, Role, Timeline};

/// Stamps are plain integers in tests — think milliseconds on a blitz clock.
fn blitz() -> Timeline<u32> {
    Timeline::begin(Position::default(), 0)
        .record("e2e4", 300)
        .and_then(|t| t.record("e7e5", 1100))
        .and_then(|t| t.record("g1f3", 1300))
        .unwrap()
}

#[test]
fn frames_carry_each_moves_think_time() {
    let think_times: Vec<u32> = blitz().frames().into_iter().map(|frame| frame.think_time).collect();

    assert_eq!(think_times, vec![300, 800, 200]);
}

#[test]
fn frames_replay_the_positions_in_order() {
    let timeline = blitz();

    let last: Frame<u32> = timeline.frames().into_iter().last().unwrap();

    assert_eq!(last.position, timeline.game().position());
    assert_eq!(last.position.at(f3), Some(Piece { color: Color::White, role: Role::Knight }));
}

#[test]
fn time_only_moves_forward() {
    let result = blitz().record("b8c6", 900);

    assert_eq!((result).as_ref().err(), Some(&Rejected::OutOfOrder));
}

#[test]
fn the_clock_never_excuses_an_illegal_move() {
    let result = Timeline::begin(Position::default(), 0u32).record("e7e5", 250);

    assert_eq!((result).as_ref().err(), Some(&Rejected::NotYourTurn {
            piece: Piece { color: Color::Black, role: Role::Pawn }
        }));
}

#[test]
fn an_ongoing_game_has_no_end() {
    let timeline = blitz();

    assert_eq!(timeline.started(), 0);
    assert!((timeline.ended()).is_none());
}

#[test]
fn the_interval_closes_with_the_move_that_ends_the_game() {
    let timeline = Timeline::begin(Position::default(), 0u32)
        .record("f2f3", 5)
        .and_then(|t| t.record("e7e5", 9))
        .and_then(|t| t.record("g2g4", 14))
        .and_then(|t| t.record("d8h4", 21))
        .unwrap();

    assert_eq!(timeline.ended(), Some(21));
}

#[test]
fn nothing_records_after_the_end() {
    let finished = Timeline::begin(Position::default(), 0u32)
        .record("f2f3", 5)
        .and_then(|t| t.record("e7e5", 9))
        .and_then(|t| t.record("g2g4", 14))
        .and_then(|t| t.record("d8h4", 21))
        .unwrap();

    let result = finished.record("a2a3", 30);

    assert_eq!((result).as_ref().err(), Some(&Rejected::GameOver {
            ending: Ending::Checkmate { winner: Color::Black }
        }));
}

#[test]
fn a_rejected_record_leaves_the_timeline_untouched() {
    let timeline = blitz();

    let _ = timeline.record("b8c6", 900);

    assert_eq!(timeline.game().plies(), 3);
}

#[test]
fn signed_stamps_are_apart_by_unsigned_spans() {
    let timeline: Timeline<i64> = Timeline::begin(Position::default(), -5_000)
        .record("e2e4", 3_000)
        .unwrap();
    let frame: Frame<u64> = timeline.frames().into_iter().last().unwrap();
    assert_eq!(frame.think_time, 8_000);
    assert_eq!(timeline.latest(), 3_000);
}
