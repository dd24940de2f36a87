use caissa::Position;

#[test]
fn the_board_renders_as_you_would_draw_it() {
    let board = Position::default().render();
    let lines: Vec<&str> = board.lines().collect();

    assert_eq!(lines[0], "8 ♜ ♞ ♝ ♛ ♚ ♝ ♞ ♜");
    assert_eq!(lines[1], "7 ♟ ♟ ♟ ♟ ♟ ♟ ♟ ♟");
    assert_eq!(lines[4], "4 · · · · · · · ·");
    assert_eq!(lines[7], "1 ♖ ♘ ♗ ♕ ♔ ♗ ♘ ♖");
    assert_eq!(lines[8], "  a b c d e f g h");
}

#[test]
fn a_move_shows_up_on_the_board() {
    let board = Position::default().play("e2e4").unwrap().render();
    let lines: Vec<&str> = board.lines().collect();

    assert_eq!(lines[4], "4 · · · · ♙ · · ·");
    assert_eq!(lines[6], "2 ♙ ♙ ♙ ♙ · ♙ ♙ ♙");
}
