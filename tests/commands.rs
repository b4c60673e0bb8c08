use wlrune::commands::{find_command, pattern_names, GestureCommand};

fn cmd(pattern: &str, command: &str) -> GestureCommand {
    GestureCommand { pattern: pattern.to_string(), command: command.to_string() }
}

#[test]
fn command_for_recognized_gesture() {
    let cs = vec![cmd("up", "firefox"), cmd("down", "kitty"), cmd("up", "other")];
    assert_eq!(find_command(&cs, "up"), Some(0));
    assert_eq!(find_command(&cs, "down"), Some(1));
    assert_eq!(find_command(&cs, "left"), None);
    assert_eq!(find_command(&cs, "u"), None);
    assert_eq!(find_command(&Vec::new(), "up"), None);
}

#[test]
fn names_once_in_first_order() {
    let cs = vec![cmd("up", "a"), cmd("down", "b"), cmd("up", "c"), cmd("left", "d"), cmd("down", "e")];
    assert_eq!(pattern_names(&cs), vec!["up".to_string(), "down".to_string(), "left".to_string()]);
    assert_eq!(pattern_names(&Vec::new()), Vec::<String>::new());
}
