use caissa::classics::ruy_lopez;
use caissa::notation::{b5, c4};
use caissa::study::Study;
use caissa::{Color, Game, Piece, Role};

fn white(role: Role) -> Piece {
    Piece {
        color: Color::White,
        role,
    }
}

/// A game is a study of one line; an empty study is one trivial line.

#[test]
fn a_game_becomes_its_mainline() {
    let game = ruy_lopez();
    let study = Study::from(game.clone());

    assert_eq!(study.mainline().position(), game.position());
    assert_eq!(study.lines().len(), 1);
}

#[test]
fn an_empty_study_is_one_trivial_line() {
    let study = Study::new();

    assert_eq!(study.mainline().plies(), 0);
    assert_eq!(study.lines().len(), 1);
    assert_eq!(&Study::default(), &study);
}

/// Grafting merges along the shared prefix and branches at the divergence.

fn ruy_with_italian_alternative() -> Study {
    let mainline = ruy_lopez(); // …Nc6 3. Bb5
    let variation = mainline.undo().apply("Bc4").unwrap(); // …Nc6 3. Bc4
    Study::from(mainline).with(variation)
}

#[test]
fn a_variation_yields_two_lines_sharing_their_prefix() {
    let study = ruy_with_italian_alternative();
    let lines: Vec<Game> = study.lines();

    assert_eq!(lines.len(), 2);
    // The first four plies are shared — identical logs up to the branch.
    assert_eq!(&lines[0].log()[..4], &lines[1].log()[..4]);
    // …and they diverge at the fifth: Bb5 versus Bc4.
    assert_eq!(lines[0][5].at(b5), Some(white(Role::Bishop)));
    assert_eq!(lines[1][5].at(c4), Some(white(Role::Bishop)));
}

#[test]
fn the_first_line_grafted_stays_the_mainline() {
    let study = ruy_with_italian_alternative();

    assert_eq!(study.mainline()[5].at(b5), Some(white(Role::Bishop)));
}

#[test]
fn re_grafting_the_same_line_changes_nothing() {
    let game = ruy_lopez();
    let once = Study::from(game.clone());
    let twice = once.clone().with(game);

    assert_eq!(&twice, &once);
    assert_eq!(twice.lines().len(), 1);
}

/// Variations nest: a variation off a variation branches deeper, and the
/// mainline is unmoved.

#[test]
fn a_sub_variation_branches_deeper() {
    let mainline = ruy_lopez(); // …Nc6 3. Bb5
    let italian = mainline.undo().apply("Bc4").unwrap(); // …3. Bc4
    let italian_classical = italian.apply("Bc5").unwrap(); // …3. Bc4 Bc5
    let two_knights = italian.apply("Nf6").unwrap(); // …3. Bc4 Nf6

    let study = Study::from(mainline)
        .with(italian_classical)
        .with(two_knights);

    let lines: Vec<Game> = study.lines();

    // Three leaves: the Bb5 mainline, and two replies under Bc4.
    assert_eq!(lines.len(), 3);
    // Mainline untouched by the nested branching.
    assert_eq!(study.mainline()[5].at(b5), Some(white(Role::Bishop)));
    // The two sub-variations share five plies (through Bc4) then split.
    assert_eq!(&lines[1].log()[..5], &lines[2].log()[..5]);
    assert_eq!(lines[1].plies(), 6);
    assert_eq!(lines[2].plies(), 6);
}
