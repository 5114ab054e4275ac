use aphorme::application::Application;
use aphorme::config::PrefCFG;
use aphorme::preferences::PreferredApps;

fn app(name: &str) -> Application {
    Application::desktop_entry(name.to_string(), name.to_lowercase(), None)
}

fn store(max_weight: i64, stored: Option<&str>) -> PreferredApps {
    PreferredApps::new("/home/u", &PrefCFG { max_weight }, stored)
}

#[test]
fn an_unknown_name_has_weight_zero() {
    let preferred = store(10, None);
    assert_eq!(preferred.get_weight(&app("Foo")), 0);
}

#[test]
fn the_first_choice_gives_weight_one() {
    let mut preferred = store(10, None);
    preferred.update_preferrence(&app("Foo"));
    assert_eq!(preferred.get_weight(&app("Foo")), 1);
    assert_eq!(preferred.get_weight(&app("Bar")), 0);
}

#[test]
fn each_choice_adds_one_under_the_ceiling() {
    let mut preferred = store(10, None);
    for expected in 1..=10 {
        preferred.update_preferrence(&app("Foo"));
        assert_eq!(preferred.get_weight(&app("Foo")), expected);
    }
}

#[test]
fn three_choices_with_ceiling_two_give_weight_two() {
    let mut preferred = store(2, None);
    preferred.update_preferrence(&app("Foo"));
    preferred.update_preferrence(&app("Foo"));
    preferred.update_preferrence(&app("Foo"));
    assert_eq!(preferred.get_weight(&app("Foo")), 2);
}

#[test]
fn the_weight_stays_at_the_ceiling_however_often_it_is_chosen() {
    let mut preferred = store(3, None);
    for _ in 0..50 {
        preferred.update_preferrence(&app("Foo"));
        assert!(preferred.get_weight(&app("Foo")) <= 3);
    }
    assert_eq!(preferred.get_weight(&app("Foo")), 3);
}

#[test]
fn a_first_choice_counts_even_with_ceiling_zero() {
    let mut preferred = store(0, None);
    preferred.update_preferrence(&app("Foo"));
    assert_eq!(preferred.get_weight(&app("Foo")), 1);
    preferred.update_preferrence(&app("Foo"));
    assert_eq!(preferred.get_weight(&app("Foo")), 1);
}

#[test]
fn a_stored_weight_over_the_ceiling_stays() {
    let mut preferred = store(2, Some("{\"Foo\": 7}"));
    preferred.update_preferrence(&app("Foo"));
    assert_eq!(preferred.get_weight(&app("Foo")), 7);
}

#[test]
fn weights_go_by_name() {
    let mut preferred = store(10, None);
    let first = Application::desktop_entry("Foo".to_string(), "one".to_string(), None);
    let second = Application::literal("Foo".to_string());
    preferred.update_preferrence(&first);
    preferred.update_preferrence(&second);
    assert_eq!(preferred.get_weight(&first), 2);
    assert_eq!(preferred.get_weight(&app("foo")), 0);
}

#[test]
fn the_ceiling_comes_from_the_settings() {
    assert_eq!(store(7, None).max_weight(), 7);
    assert_eq!(PreferredApps::default().max_weight(), 0);
}

#[test]
fn the_path_lies_under_the_home_directory() {
    assert_eq!(
        PreferredApps::storage_path("/home/u"),
        "/home/u/.local/share/aphorme/preferred_apps.json"
    );
    assert_eq!(store(1, None).save().path, "/home/u/.local/share/aphorme/preferred_apps.json");
    assert_eq!(PreferredApps::default().save().path, "");
}

#[test]
fn stored_weights_are_read() {
    let preferred = store(10, Some("{\"Foo\": 3, \"Bar\": 7, \"Zero\": 0, \"Neg\": -4}"));
    assert_eq!(preferred.get_weight(&app("Foo")), 3);
    assert_eq!(preferred.get_weight(&app("Bar")), 7);
    assert_eq!(preferred.get_weight(&app("Zero")), 0);
    assert_eq!(preferred.get_weight(&app("Neg")), -4);
    assert_eq!(preferred.get_weight(&app("Other")), 0);
}

#[test]
fn a_name_stored_twice_has_its_last_weight() {
    let preferred = store(10, Some("{\"Foo\": 3, \"Foo\": 5}"));
    assert_eq!(preferred.get_weight(&app("Foo")), 5);
}

#[test]
fn a_corrupt_file_gives_no_weights() {
    for text in ["", "not json", "[1, 2]", "{\"Foo\": \"x\"}", "{\"Foo\": 1.5}", "{\"Foo\": 1", "7"] {
        let preferred = store(10, Some(text));
        assert_eq!(preferred.get_weight(&app("Foo")), 0);
        assert_eq!(preferred.save().contents, "{}");
    }
}

#[test]
fn a_weight_too_large_for_the_machine_makes_the_file_corrupt() {
    let preferred = store(10, Some("{\"Bar\": 2, \"Foo\": 9223372036854775808}"));
    assert_eq!(preferred.get_weight(&app("Bar")), 0);
    assert_eq!(preferred.get_weight(&app("Foo")), 0);
}

#[test]
fn no_weights_are_written_as_an_empty_object() {
    assert_eq!(store(10, None).save().contents, "{}");
    assert_eq!(PreferredApps::default().save().contents, "{}");
}

#[test]
fn weights_are_written_as_a_json_object() {
    let mut preferred = store(10, None);
    preferred.update_preferrence(&app("Foo"));
    preferred.update_preferrence(&app("Foo"));
    preferred.update_preferrence(&app("Bar"));
    assert_eq!(preferred.save().contents, "{\"Foo\":2,\"Bar\":1}");
}

#[test]
fn names_are_escaped_when_written() {
    let mut preferred = store(10, None);
    preferred.update_preferrence(&app("A \"quoted\" name\\"));
    assert_eq!(preferred.save().contents, "{\"A \\\"quoted\\\" name\\\\\":1}");
}

#[test]
fn what_is_written_is_read_back_the_same() {
    let mut preferred = store(5, Some("{\"Old\": 4}"));
    let chosen = ["Foo", "Bar", "Foo", "Zfoo", "Ünï cødé", "Foo", "Old", "Old", "with \"quotes\""];
    for name in chosen {
        preferred.update_preferrence(&app(name));
    }
    let written = preferred.save();
    let read = PreferredApps::new("/home/u", &PrefCFG { max_weight: 5 }, Some(&written.contents));
    for name in ["Foo", "Bar", "Zfoo", "Ünï cødé", "Old", "with \"quotes\"", "never chosen"] {
        assert_eq!(read.get_weight(&app(name)), preferred.get_weight(&app(name)));
    }
    assert_eq!(read.get_weight(&app("Foo")), 3);
    assert_eq!(read.get_weight(&app("Old")), 5);
    assert_eq!(read.save().path, written.path);
    let again = PreferredApps::new("/home/u", &PrefCFG { max_weight: 5 }, Some(&read.save().contents));
    assert_eq!(again.get_weight(&app("Foo")), 3);
}

#[test]
fn the_default_store_learns_one_choice() {
    let mut preferred = PreferredApps::default();
    assert_eq!(preferred.get_weight(&app("Foo")), 0);
    preferred.update_preferrence(&app("Foo"));
    preferred.update_preferrence(&app("Foo"));
    assert_eq!(preferred.get_weight(&app("Foo")), 1);
}
