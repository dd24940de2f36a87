use caissa::classics::{fools_mate, opera_game, ruy_lopez};
use caissa::pgn::Tags;
use caissa::{Rejected, import, pgn};

fn tags(pairs: &[(&str, &str)]) -> Tags {
    let mut tags = Tags::new();
    for &(key, value) in pairs {
        tags.insert(key.to_string(), value.to_string());
    }
    tags
}

/// Export then import is the identity: the game, the tags, and the
/// result all survive the round trip.

#[test]
fn the_opera_game_survives_export_and_reimport() {
    let game = opera_game();
    let exported = pgn::export(
        &game,
        &tags(&[("Event", "Paris Opera"), ("White", "Paul Morphy")]),
    )
    .unwrap();

    let again = import(&exported).unwrap();
    assert_eq!(again.plies(), game.plies());
    assert_eq!(again.position(), game.position());

    let parsed = pgn::parse(&exported).unwrap();
    assert_eq!(parsed.tags.get("White").map(String::as_str), Some("Paul Morphy"));
    assert_eq!(parsed.result.as_deref(), Some("1-0"));
}

#[test]
fn movetext_wraps_at_eighty_columns() {
    let exported = pgn::export(&opera_game(), &tags(&[])).unwrap();

    for line in exported.lines() {
        assert_eq!(line.len() <= 80, true);
    }
}

#[test]
fn the_roster_tags_lead_in_canonical_order() {
    let exported = pgn::export(
        &opera_game(),
        &tags(&[("White", "Paul Morphy"), ("Event", "Paris Opera"), ("Zoo", "extra")]),
    )
    .unwrap();

    let lines: Vec<&str> = exported.lines().collect();
    assert_eq!(lines[0].starts_with("[Event"), true);
    assert_eq!(lines[1].starts_with("[White"), true);
    assert_eq!(lines[2].starts_with("[Result"), true);
    assert_eq!(lines[3].starts_with("[Zoo"), true);
}

/// The Result field is negotiated the same way import verifies it: the
/// board where it knows, the tag where it cannot, never a contradiction.

#[test]
fn the_board_supplies_the_result_it_knows() {
    let exported = pgn::export(&fools_mate(), &tags(&[])).unwrap();

    assert_eq!(exported.contains("[Result \"0-1\"]"), true);
    assert_eq!(exported.trim_end().ends_with("0-1"), true);
}

#[test]
fn a_resignation_the_board_cannot_see_is_taken_from_the_tag() {
    let exported = pgn::export(&ruy_lopez(), &tags(&[("Result", "1-0")])).unwrap();

    assert_eq!(exported.contains("[Result \"1-0\"]"), true);
    assert_eq!(exported.trim_end().ends_with("3. Bb5 1-0"), true);

    let again = import(&exported).unwrap();
    assert_eq!(again.plies(), 5);
}

#[test]
fn an_unfinished_untagged_game_exports_a_star() {
    let exported = pgn::export(&ruy_lopez(), &tags(&[])).unwrap();

    assert_eq!(exported.contains("[Result \"*\"]"), true);
    assert_eq!(exported.trim_end().ends_with('*'), true);
}

#[test]
fn a_tag_that_contradicts_the_board_is_rejected() {
    let result = pgn::export(&fools_mate(), &tags(&[("Result", "1-0")]));

    assert_eq!((result).as_ref().err(), Some(&Rejected::Unparseable(
            "result 1-0 contradicts the board, which says 0-1".to_string()
        )));
}
