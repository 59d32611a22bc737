use simpleterm::command::{Command, CommandType};

#[test]
fn tell_command_parses() {
    let c = Command::from("tell: hi");
    assert_eq!(c.command_type, CommandType::Tell);
    assert_eq!(c.text, "hi");
    assert!(c.timer.is_none());
}

#[test]
fn ask_command_parses() {
    let c = Command::from("ask: name?");
    assert_eq!(c.command_type, CommandType::Ask);
    assert_eq!(c.text, "name?");
    assert!(c.timer.is_none());
}

#[test]
fn ask_command_with_empty_payload_parses() {
    let c = Command::from("ask: ");
    assert_eq!(c.command_type, CommandType::Ask);
    assert_eq!(c.text, "");
}

#[test]
fn show_command_parses_with_duration() {
    // the show text is everything before the duration separator
    let c = Command::from("show: hello for=> 2.5");
    assert_eq!(c.command_type, CommandType::Show);
    assert_eq!(c.text, "show: hello");
    assert_eq!(c.timer.as_deref(), Some("2.5"));
}

#[test]
fn show_command_accepts_signed_and_integer_durations() {
    let c = Command::from("show: a for=> -3");
    assert_eq!(c.command_type, CommandType::Show);
    assert_eq!(c.timer.as_deref(), Some("-3"));
    let c = Command::from("show: a for=> +10.25");
    assert_eq!(c.command_type, CommandType::Show);
    assert_eq!(c.timer.as_deref(), Some("+10.25"));
}

#[test]
fn show_command_without_duration_is_an_error() {
    let c = Command::from("show: hello");
    assert_eq!(c.command_type, CommandType::Error);
    assert_eq!(c.text, "ERROR READING COMMAND: show: hello");
    assert!(c.timer.is_none());
}

#[test]
fn show_command_with_malformed_duration_is_an_error() {
    for bad in ["abc", "2.", ".5", "1.2.3", "2 s", ""] {
        let input = format!("show: x for=> {}", bad);
        let c = Command::from(&input);
        assert_eq!(c.command_type, CommandType::Error);
        assert_eq!(c.text, format!("ERROR READING COMMAND: {}", input));
    }
}

#[test]
fn unknown_kind_is_an_error() {
    let c = Command::from("nope: x");
    assert_eq!(c.command_type, CommandType::Error);
    assert_eq!(c.text, "ERROR READING COMMAND: nope: x");
}

#[test]
fn missing_separator_is_an_error() {
    let c = Command::from("garbage");
    assert_eq!(c.command_type, CommandType::Error);
    assert_eq!(c.text, "ERROR READING COMMAND: garbage");
    let c = Command::from("");
    assert_eq!(c.command_type, CommandType::Error);
    assert_eq!(c.text, "ERROR READING COMMAND: ");
}

#[test]
fn first_separator_decides_the_kind() {
    let c = Command::from("tell: a: b");
    assert_eq!(c.command_type, CommandType::Tell);
    assert_eq!(c.text, "a: b");
}
