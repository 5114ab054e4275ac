use aphorme::text::{
    chars_of, ends_with_text, lex_le_text, replace_all_text, same_text, split_text,
    trim_matches_text,
};

#[test]
fn split_keeps_empty_pieces() {
    assert_eq!(split_text("foo --bar", ' '), vec!["foo", "--bar"]);
    assert_eq!(split_text("a  b", ' '), vec!["a", "", "b"]);
    assert_eq!(split_text(" a ", ' '), vec!["", "a", ""]);
}

#[test]
fn split_of_nothing_is_one_empty_piece() {
    assert_eq!(split_text("", ' '), vec![""]);
    assert_eq!(split_text("word", ' '), vec!["word"]);
}

#[test]
fn split_counts_characters_not_bytes() {
    assert_eq!(split_text("añ b€ c", ' '), vec!["añ", "b€", "c"]);
}

#[test]
fn trim_takes_the_runs_at_both_ends_only() {
    assert_eq!(trim_matches_text("\"\"x\"y\"", '"'), "x\"y");
    assert_eq!(trim_matches_text("\"/usr/bin/app\"", '"'), "/usr/bin/app");
    assert_eq!(trim_matches_text("plain", '"'), "plain");
}

#[test]
fn trim_of_quotes_alone_is_empty() {
    assert_eq!(trim_matches_text("\"\"\"", '"'), "");
    assert_eq!(trim_matches_text("", '"'), "");
}

#[test]
fn replace_goes_left_to_right_without_overlap() {
    assert_eq!(replace_all_text("$HOME/a/$HOME", "$HOME", "/h"), "/h/a//h");
    assert_eq!(replace_all_text("aaa", "aa", "b"), "ba");
    assert_eq!(replace_all_text("aaaa", "aa", "b"), "bb");
}

#[test]
fn replace_without_an_occurrence_copies_the_text() {
    assert_eq!(replace_all_text("/usr/share", "$HOME", "/h"), "/usr/share");
    assert_eq!(replace_all_text("$HOM", "$HOME", "/h"), "$HOM");
    assert_eq!(replace_all_text("", "$HOME", "/h"), "");
}

#[test]
fn replace_may_put_in_the_pattern_again() {
    assert_eq!(replace_all_text("x$HOMEy", "$HOME", "$HOME$HOME"), "x$HOME$HOMEy");
}

#[test]
fn ends_with_looks_at_the_end_only() {
    assert!(ends_with_text("app.desktop", ".desktop"));
    assert!(ends_with_text(".desktop", ".desktop"));
    assert!(!ends_with_text("desktop", ".desktop"));
    assert!(!ends_with_text("app.desktop.bak", ".desktop"));
    assert!(ends_with_text("anything", ""));
}

#[test]
fn names_are_ordered_by_code_point() {
    assert!(lex_le_text("a", "b"));
    assert!(!lex_le_text("b", "a"));
    assert!(lex_le_text("a", "a"));
    assert!(lex_le_text("a", "ab"));
    assert!(!lex_le_text("ab", "a"));
    assert!(lex_le_text("Z", "a"));
    assert!(lex_le_text("z", "é"));
    assert!(lex_le_text("", ""));
}

#[test]
fn name_order_agrees_with_the_order_of_strings() {
    let names = ["", "a", "A", "ab", "b", "Zfoo", "foo", "é", "日本", "z"];
    for a in names {
        for b in names {
            assert_eq!(lex_le_text(a, b), a <= b);
        }
    }
}

#[test]
fn same_text_compares_every_character() {
    assert!(same_text("true", "true"));
    assert!(!same_text("true", "True"));
    assert!(!same_text("true", "tru"));
    assert!(same_text("", ""));
}

#[test]
fn chars_are_the_characters_in_order() {
    assert_eq!(chars_of("añb"), vec!['a', 'ñ', 'b']);
    assert!(chars_of("").is_empty());
}
