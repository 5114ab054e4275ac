use aphorme::application::{copy_of, Application};
use aphorme::config::PrefCFG;
use aphorme::preferences::PreferredApps;
use aphorme::ranking::{rank_matches, score_applications};
use fuzzy_matcher::skim::SkimMatcherV2;
use fuzzy_matcher::FuzzyMatcher;

fn apps(names: &[&str]) -> Vec<Application> {
    names.iter().map(|n| Application::desktop_entry(n.to_string(), n.to_string(), None)).collect()
}

fn weights(stored: &str) -> PreferredApps {
    PreferredApps::new("/home/u", &PrefCFG { max_weight: 100 }, Some(stored))
}

fn listed(matches: &[(Application, i128)]) -> Vec<(&str, i128)> {
    matches.iter().map(|m| (m.0.name.as_str(), m.1)).collect()
}

#[test]
fn applications_without_a_score_are_left_out() {
    let ranked = rank_matches(&apps(&["a", "b", "c"]), &vec![Some(5), None, Some(7)], &weights("{}"));
    assert_eq!(listed(&ranked), vec![("c", 7), ("a", 5)]);
}

#[test]
fn the_score_is_raised_by_the_weight_of_the_name() {
    let ranked = rank_matches(
        &apps(&["a", "b", "c"]),
        &vec![Some(5), Some(-2), Some(7)],
        &weights("{\"a\": 3, \"b\": 40}"),
    );
    assert_eq!(listed(&ranked), vec![("b", 38), ("a", 8), ("c", 7)]);
}

#[test]
fn applications_of_one_name_share_its_weight() {
    let ranked =
        rank_matches(&apps(&["a", "b", "a"]), &vec![Some(1), Some(4), Some(2)], &weights("{\"a\": 10}"));
    assert_eq!(listed(&ranked), vec![("a", 12), ("a", 11), ("b", 4)]);
}

#[test]
fn equal_sums_stay_in_the_order_of_the_applications() {
    let ranked = rank_matches(
        &apps(&["a", "b", "c", "d", "e"]),
        &vec![Some(1), Some(3), Some(1), Some(3), Some(1)],
        &weights("{\"c\": 2}"),
    );
    assert_eq!(listed(&ranked), vec![("b", 3), ("c", 3), ("d", 3), ("a", 1), ("e", 1)]);
}

#[test]
fn ranking_agrees_with_the_stable_sort_of_the_standard_library() {
    let names = ["n0", "n1", "n2", "n3", "n4", "n5", "n6", "n7", "n8", "n9"];
    let scores = vec![Some(4), None, Some(9), Some(4), Some(-3), Some(9), None, Some(0), Some(4), Some(7)];
    let preferred = weights("{\"n3\": 5, \"n7\": 9, \"n4\": 3}");
    let applications = apps(&names);
    let mut expected: Vec<(Application, i128)> = Vec::new();
    for (application, score) in applications.iter().zip(scores.iter()) {
        if let Some(score) = score {
            expected.push((
                application.clone(),
                *score as i128 + preferred.get_weight(application) as i128,
            ));
        }
    }
    expected.sort_by(|a, b| b.1.cmp(&a.1));
    assert_eq!(rank_matches(&applications, &scores, &preferred), expected);
}

#[test]
fn the_extremes_of_the_machine_are_ranked() {
    let ranked = rank_matches(
        &apps(&["a", "b", "c", "d"]),
        &vec![Some(i64::MIN), Some(i64::MAX), Some(0), Some(i64::MAX)],
        &weights("{\"a\": -9223372036854775808, \"c\": 9223372036854775807, \"d\": 9223372036854775807}"),
    );
    assert_eq!(
        listed(&ranked),
        vec![
            ("d", 2 * (i64::MAX as i128)),
            ("b", i64::MAX as i128),
            ("c", i64::MAX as i128),
            ("a", 2 * (i64::MIN as i128)),
        ]
    );
}

#[test]
fn ranking_nothing_gives_nothing() {
    assert!(rank_matches(&Vec::new(), &Vec::new(), &weights("{}")).is_empty());
    assert!(rank_matches(&apps(&["a"]), &vec![None], &weights("{\"a\": 1}")).is_empty());
}

#[test]
fn scores_are_those_of_the_skim_matcher() {
    let names = ["Foo", "Bar", "Zfoo", "foo bar", "FooBar", "", "ƒoo", "F.o.o"];
    let matcher = SkimMatcherV2::default();
    for query in ["", "f", "fo", "FO", "Fo", "foo", "fb", "bar", "oof", "ƒ", " "] {
        let scores = score_applications(&apps(&names), query);
        let expected: Vec<Option<i64>> = names.iter().map(|n| matcher.fuzzy_match(n, query)).collect();
        assert_eq!(scores, expected);
    }
}

fn holds_in_order(query: &str, name: &str) -> bool {
    let exact = query.chars().any(|c| c.is_ascii_uppercase());
    let mut wanted = query.chars().peekable();
    for c in name.chars() {
        match wanted.peek() {
            Some(&q) => {
                if (exact && c == q) || (!exact && c.eq_ignore_ascii_case(&q)) {
                    wanted.next();
                }
            }
            None => break,
        }
    }
    wanted.peek().is_none()
}

#[test]
fn a_name_has_a_score_exactly_where_it_holds_the_query_in_order() {
    let names = [
        "Foo", "foo", "FOO", "Bar", "Zfoo", "of", "F.o.o", "fO", "", "ƒoo", "Éclair", "éclair",
        "foo bar", "FooBar", "oF", "f", "o",
    ];
    let queries =
        ["", "f", "F", "fo", "Fo", "fO", "FO", "foo", "oof", "fb", "FB", "é", "É", "ƒ", " ", "ecl"];
    for query in queries {
        let scores = score_applications(&apps(&names), query);
        for (name, score) in names.iter().zip(scores.iter()) {
            assert_eq!(score.is_some(), holds_in_order(query, name));
        }
    }
}

#[test]
fn the_empty_query_scores_everything_zero() {
    assert_eq!(score_applications(&apps(&["Foo", "", "Bar"]), ""), vec![Some(0), Some(0), Some(0)]);
}

#[test]
fn a_name_without_the_characters_of_the_query_has_no_score() {
    let scores = score_applications(&apps(&["Foo", "Bar", "Zfoo", "of"]), "fo");
    assert!(scores[0].is_some());
    assert_eq!(scores[1], None);
    assert!(scores[2].is_some());
    assert_eq!(scores[3], None);
}

#[test]
fn a_capital_letter_in_the_query_asks_for_that_letter() {
    let scores = score_applications(&apps(&["foo", "Foo"]), "F");
    assert_eq!(scores[0], None);
    assert!(scores[1].is_some());
}

#[test]
fn a_copy_of_a_text_is_the_same_text() {
    assert_eq!(copy_of(&Some("icon".to_string())), Some("icon".to_string()));
    assert_eq!(copy_of(&None), None);
}
