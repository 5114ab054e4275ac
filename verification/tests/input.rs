use aphorme::input::fetch_custom_commands;

#[test]
fn each_line_is_a_candidate() {
    let mut inputs: Vec<String> = Vec::new();
    fetch_custom_commands(&mut inputs, "first\nsecond\nthird");
    assert_eq!(inputs, vec!["first", "second", "third"]);
}

#[test]
fn empty_lines_are_no_candidates() {
    let mut inputs: Vec<String> = Vec::new();
    fetch_custom_commands(&mut inputs, "\na\n\n\nb\n");
    assert_eq!(inputs, vec!["a", "b"]);
}

#[test]
fn candidates_are_added_behind_those_already_there() {
    let mut inputs: Vec<String> = vec!["kept".to_string()];
    fetch_custom_commands(&mut inputs, "new");
    assert_eq!(inputs, vec!["kept", "new"]);
}

#[test]
fn an_empty_text_holds_no_candidate() {
    let mut inputs: Vec<String> = Vec::new();
    fetch_custom_commands(&mut inputs, "");
    assert!(inputs.is_empty());
}

#[test]
fn a_line_of_spaces_is_a_candidate() {
    let mut inputs: Vec<String> = Vec::new();
    fetch_custom_commands(&mut inputs, "a b\n  \r\n");
    assert_eq!(inputs, vec!["a b", "  \r"]);
}
