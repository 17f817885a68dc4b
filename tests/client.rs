use tictactoe::client::{parse_command, Command};

#[test]
fn quit_and_move_are_read() {
    assert_eq!(parse_command(b"quit"), Command::Quit);
    assert_eq!(parse_command(b"  quit extra\n"), Command::Quit);
    assert_eq!(parse_command(b"move 1 2"), Command::Move { row: 1, col: 2 });
    assert_eq!(parse_command(b"\tmove  +0   10 trailing"), Command::Move { row: 0, col: 10 });
}

#[test]
fn bad_move_arguments_ask_for_usage() {
    assert_eq!(parse_command(b"move"), Command::MoveUsage);
    assert_eq!(parse_command(b"move 1"), Command::MoveUsage);
    assert_eq!(parse_command(b"move a 1"), Command::MoveUsage);
    assert_eq!(parse_command(b"move -1 1"), Command::MoveUsage);
    assert_eq!(parse_command(b"move + 1"), Command::MoveUsage);
    assert_eq!(parse_command(b"move 1 99999999999999999999999"), Command::MoveUsage);
}

#[test]
fn other_lines_ask_for_usage() {
    assert_eq!(parse_command(b""), Command::Usage);
    assert_eq!(parse_command(b"   "), Command::Usage);
    assert_eq!(parse_command(b"QUIT"), Command::Usage);
    assert_eq!(parse_command(b"moves 1 2"), Command::Usage);
}

#[test]
fn largest_number_fits() {
    let line = format!("move {} 0", usize::MAX);
    assert_eq!(parse_command(line.as_bytes()), Command::Move { row: usize::MAX, col: 0 });
}
