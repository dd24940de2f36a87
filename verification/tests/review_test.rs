use caissa::classics::{fools_mate, ruy_lopez};
use caissa::play::{evaluate, material};
use caissa::review::annotate;
use caissa::{Color, Position};

/// A one-ply tactical eval — enough to see a mate in one, fast enough to
/// annotate a short game instantly.
fn tactical(position: Position) -> i32 {
    evaluate(position, 1, &material)
}

/// The shift series has one entry per ply, movers alternating.

#[test]
fn one_assessment_per_ply() {
    let series = annotate(&fools_mate(), &tactical);

    assert_eq!(series.len(), 4);
    assert_eq!(series[0].ply, 1);
    assert_eq!(series[3].ply, 4);
}

#[test]
fn the_movers_alternate_white_first() {
    let series = annotate(&fools_mate(), &tactical);

    assert_eq!(series[0].mover, Color::White);
    assert_eq!(series[1].mover, Color::Black);
    assert_eq!(series[2].mover, Color::White);
    assert_eq!(series[3].mover, Color::Black);
}

/// The worst swing is the turning point — who fumbled, and on what move.

#[test]
fn it_finds_the_fumble_that_allowed_mate() {
    // Fool's Mate: White's 2. g4?? (ply 3) lets Black play Qh4#.
    let series = annotate(&fools_mate(), &tactical);
    let worst = series.iter().min_by_key(|a| a.swing).unwrap();

    assert_eq!(worst.ply, 3);
    assert_eq!(worst.mover, Color::White);
    assert_eq!(worst.swing < -100_000, true); // a mate-scale loss
}

#[test]
fn a_clean_opening_has_no_catastrophe() {
    // The Ruy Lopez: principled moves, no blunder near mate scale.
    let series = annotate(&ruy_lopez(), &tactical);
    let worst = series.iter().map(|a| a.swing).min().unwrap();

    assert_eq!(worst > -100_000, true);
}
