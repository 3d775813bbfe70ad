use nelfusion::uci::commands::handle_command;
use nelfusion::uci::uci::{next_action, UciAction};

#[test]
fn uci_command_identifies_the_engine() {
    let lines = handle_command("uci");
    assert_eq!(lines, vec!["id name Nelfusion", "id author Anany Tanwar", "uciok"]);
}

#[test]
fn isready_is_answered_readyok() {
    assert_eq!(handle_command("isready"), vec!["readyok"]);
}

#[test]
fn only_the_first_word_selects_the_command() {
    assert_eq!(handle_command("isready now").len(), 1);
    assert_eq!(handle_command("uci x").len(), 3);
    assert!(handle_command("ucinewgame").is_empty());
    assert!(handle_command(" uci").is_empty());
}

#[test]
fn other_commands_get_no_reply() {
    assert!(handle_command("go depth 5").is_empty());
    assert!(handle_command("position startpos").is_empty());
    assert!(handle_command("stop").is_empty());
    assert!(handle_command("").is_empty());
}

#[test]
fn blank_lines_are_skipped() {
    assert!(matches!(next_action(""), UciAction::Skip));
    assert!(matches!(next_action("  \t "), UciAction::Skip));
}

#[test]
fn quit_stops_even_with_surrounding_spaces() {
    assert!(matches!(next_action("quit"), UciAction::Quit));
    assert!(matches!(next_action("  quit\r"), UciAction::Quit));
    assert!(!matches!(next_action("quit now"), UciAction::Quit));
}

#[test]
fn commands_are_trimmed_before_answering() {
    match next_action("   isready  ") {
        UciAction::Reply(lines) => assert_eq!(lines, vec!["readyok"]),
        _ => panic!("expected a reply"),
    }
    match next_action("go") {
        UciAction::Reply(lines) => assert!(lines.is_empty()),
        _ => panic!("expected a reply"),
    }
}
