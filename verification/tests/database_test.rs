//! PGN databases and tag sections.

use caissa::classics::{IMMORTAL_GAME_PGN, OPERA_GAME_PGN};
use caissa::notation::Terminus;
use caissa::pgn::{self, Tags};
use caissa::{import, Rejected};

#[test]
fn a_database_splits_where_a_tag_section_follows_movetext() {
    let database = format!("{}\n{}", OPERA_GAME_PGN, IMMORTAL_GAME_PGN);
    let found = pgn::games(&database);
    assert_eq!(found.len(), 2);
    assert!(found[0].contains("Paris Opera"));
    assert!(found[1].contains("London"));
    assert_eq!(
        import(found[1]).unwrap()[Terminus],
        import(IMMORTAL_GAME_PGN).unwrap()[Terminus]
    );
}

#[test]
fn a_lone_game_is_a_database_of_one() {
    assert_eq!(pgn::games(OPERA_GAME_PGN).len(), 1);
    assert_eq!(pgn::games("").len(), 0);
}

#[test]
fn importing_a_database_imports_each_game_in_order() {
    let database = format!("{}\n{}", OPERA_GAME_PGN, IMMORTAL_GAME_PGN);
    let all = pgn::import_all(&database).unwrap();
    assert_eq!(all.len(), 2);
    assert_eq!(all[0], import(OPERA_GAME_PGN).unwrap());
    assert_eq!(all[1], import(IMMORTAL_GAME_PGN).unwrap());
}

#[test]
fn one_bad_game_fails_the_whole_batch() {
    let database = format!("{}\n[Event \"Broken\"]\n\n1. e5 *\n", OPERA_GAME_PGN);
    assert!(matches!(pgn::import_all(&database), Err(Rejected::NoMatch { .. })));
}

#[test]
fn tags_keep_key_order_and_the_last_value() {
    let mut tags = Tags::new();
    tags.insert("White".to_string(), "Morphy".to_string());
    tags.insert("Black".to_string(), "Duke".to_string());
    tags.insert("White".to_string(), "Paul Morphy".to_string());
    assert_eq!(tags.len(), 2);
    assert_eq!(tags.pair(0).0.as_str(), "Black");
    assert_eq!(tags.get("White").map(|v| v.as_str()), Some("Paul Morphy"));
    assert_eq!(tags.get("Round"), None);
}

#[test]
fn a_malformed_tag_line_is_rejected() {
    assert!(matches!(
        pgn::parse("[Event Paris]\n\n1. e4 *"),
        Err(Rejected::Unparseable(_))
    ));
}

#[test]
fn movetext_wraps_without_splitting_words() {
    let exported = pgn::export(&import(OPERA_GAME_PGN).unwrap(), &Tags::new()).unwrap();
    for line in exported.lines() {
        assert!(line.len() <= 80);
    }
    assert!(exported.contains("Rd8#"));
}

#[test]
fn export_then_import_keeps_the_game_and_every_tag() {
    let game = ["e2e4", "e7e5", "e1e2", "e8e7", "g1f3", "b8c6"]
        .iter()
        .try_fold(caissa::Game::new(), |game, text| game.apply(*text))
        .unwrap();
    let mut tags = Tags::new();
    tags.insert("Annotator".to_string(), "Steinitz".to_string());
    tags.insert("Event".to_string(), "Casual [odd] \"game\"".to_string());
    tags.insert("Result".to_string(), "0-1".to_string());
    tags.insert("ECO".to_string(), "C44".to_string());
    let exported = pgn::export(&game, &tags).unwrap();

    let again = import(&exported).unwrap();
    assert_eq!(again.plies(), game.plies());
    for ply in 0..=game.plies() {
        assert_eq!(again[ply], game[ply]);
    }

    let parsed = pgn::parse(&exported).unwrap();
    assert_eq!(parsed.tags, tags);
    assert_eq!(parsed.result.as_deref(), Some("0-1"));
    assert_eq!(parsed.sans.len(), game.plies());
}
