use memento::{parse_command, Command};

#[test]
fn reads_debugger_commands() {
    assert_eq!(parse_command("n\n"), Command::Next);
    assert_eq!(parse_command("  b \r\n"), Command::Back);
    assert_eq!(parse_command("q"), Command::Quit);
    assert_eq!(parse_command("\u{3000}n\u{2028}"), Command::Next);
}

#[test]
fn other_lines_are_unknown_commands() {
    assert_eq!(parse_command(""), Command::Unknown);
    assert_eq!(parse_command("\n"), Command::Unknown);
    assert_eq!(parse_command("nn"), Command::Unknown);
    assert_eq!(parse_command("n b"), Command::Unknown);
    assert_eq!(parse_command("N"), Command::Unknown);
    assert_eq!(parse_command("quit"), Command::Unknown);
}
