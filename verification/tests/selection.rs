use aphorme::selection::scroll;

#[test]
fn a_step_down_goes_to_the_next_entry() {
    assert_eq!(scroll(0, 3, true, false), 1);
    assert_eq!(scroll(1, 3, true, false), 2);
}

#[test]
fn a_step_down_stops_at_the_last_entry() {
    assert_eq!(scroll(2, 3, true, false), 2);
    assert_eq!(scroll(0, 1, true, false), 0);
}

#[test]
fn a_step_up_goes_to_the_entry_before() {
    assert_eq!(scroll(2, 3, false, true), 1);
    assert_eq!(scroll(1, 3, false, true), 0);
}

#[test]
fn a_step_up_stops_at_the_first_entry() {
    assert_eq!(scroll(0, 3, false, true), 0);
}

#[test]
fn no_step_leaves_the_selection() {
    assert_eq!(scroll(1, 3, false, false), 1);
}

#[test]
fn a_step_down_and_a_step_up_cancel_out() {
    assert_eq!(scroll(1, 3, true, true), 1);
    assert_eq!(scroll(0, 3, true, true), 0);
    assert_eq!(scroll(2, 3, true, true), 1);
}

#[test]
fn an_empty_shortlist_keeps_the_selection_at_the_top() {
    assert_eq!(scroll(0, 0, true, false), 0);
    assert_eq!(scroll(0, 0, false, true), 0);
    assert_eq!(scroll(0, 0, true, true), 0);
}

#[test]
fn the_largest_selection_does_not_wrap() {
    assert_eq!(scroll(usize::MAX, usize::MAX, true, false), usize::MAX);
    assert_eq!(scroll(usize::MAX - 1, usize::MAX, true, false), usize::MAX - 1);
}
