//! The ranked shortlist of a query: which applications match it, with what
//! score, and in what order.

use crate::application::{Application, ApplicationView};
use crate::preferences::{bumped, law_choice_raises_one_weight, weight_in, PreferredApps};
use crate::stable::{
    arranged, is_stable_order, is_total, is_transitive, law_sort_is_stable,
    lemma_insert_stable_at,
    lemma_place_of, lemma_sort_stable_items, lemma_sort_stable_ordered, order_of, place_of,
    sort_stable,
};
use fuzzy_matcher::skim::SkimMatcherV2;
use fuzzy_matcher::FuzzyMatcher;
use vstd::prelude::*;

verus! {

/// A letter of the ASCII alphabet as its small letter, any other character as
/// itself.
pub open spec fn ascii_lower(c: char) -> char {
    if is_capital(c) {
        ((c as int) + 32) as char
    } else {
        c
    }
}

/// Whether a character is a capital letter of the ASCII alphabet.
pub open spec fn is_capital(c: char) -> bool {
    'A' <= c && c <= 'Z'
}

/// Whether two characters are the same but for the case of an ASCII letter.
pub open spec fn same_letter(a: char, b: char) -> bool {
    ascii_lower(a) == ascii_lower(b)
}

/// Whether two characters count as the same: exactly the same where `exact` is
/// set, and the same but for the case of an ASCII letter where it is not.
pub open spec fn agree(a: char, b: char, exact: bool) -> bool {
    if exact {
        a == b
    } else {
        same_letter(a, b)
    }
}

/// Whether the characters of `query` occur in `name`, in their order, not
/// necessarily side by side, compared as `exact` says.
pub open spec fn occurs_in_order(query: Seq<char>, name: Seq<char>, exact: bool) -> bool
    decreases name.len(),
{
    if query.len() == 0 {
        true
    } else if name.len() == 0 {
        false
    } else if agree(query.last(), name.last(), exact) {
        occurs_in_order(query.drop_last(), name.drop_last(), exact)
    } else {
        occurs_in_order(query, name.drop_last(), exact)
    }
}

/// Whether the characters of `query` occur in `name`, in their order, not
/// necessarily side by side, and without regard to the case of ASCII letters.
pub open spec fn occurs_scattered(query: Seq<char>, name: Seq<char>) -> bool {
    occurs_in_order(query, name, false)
}

/// Whether a query holds a capital letter of the ASCII alphabet.
pub open spec fn has_capital(query: Seq<char>) -> bool {
    exists|k: int| 0 <= k < query.len() && is_capital(#[trigger] query[k])
}

/// Whether a name matches a query: the characters of the query occur in the
/// name in their order. A query with a capital letter asks for its characters
/// as they are; any other query is compared without regard to the case of ASCII
/// letters. The empty query matches every name.
pub open spec fn matches_query(query: Seq<char>, name: Seq<char>) -> bool {
    occurs_in_order(query, name, has_capital(query))
}

/// Whether `at` gives, for each character of `query` in turn, a place in `name`
/// at which a character stands that counts as the same, each place behind the
/// one before.
pub open spec fn embeds(query: Seq<char>, name: Seq<char>, at: Seq<int>, exact: bool) -> bool {
    &&& at.len() == query.len()
    &&& forall|k: int| 0 <= k < at.len() ==> 0 <= #[trigger] at[k] < name.len()
    &&& forall|k: int, l: int| 0 <= k < l < at.len() ==> #[trigger] at[k] < #[trigger] at[l]
    &&& forall|k: int| 0 <= k < at.len() ==> agree(query[k], name[#[trigger] at[k]], exact)
}

/// Where the characters of a query occur in order in a name, there are places in
/// the name for them.
pub proof fn lemma_in_order_embeds(query: Seq<char>, name: Seq<char>, exact: bool) -> (at: Seq<
    int,
>)
    requires
        occurs_in_order(query, name, exact),
    ensures
        embeds(query, name, at, exact),
    decreases name.len(),
{
    if query.len() == 0 {
        Seq::empty()
    } else if agree(query.last(), name.last(), exact) {
        let front = lemma_in_order_embeds(query.drop_last(), name.drop_last(), exact);
        let at = front.push(name.len() - 1);
        assert forall|k: int| 0 <= k < at.len() implies agree(
            query[k],
            name[#[trigger] at[k]],
            exact,
        ) by {
            if k < front.len() {
                assert(at[k] == front[k]);
                assert(query[k] == query.drop_last()[k]);
                assert(name[front[k]] == name.drop_last()[front[k]]);
            }
        }
        assert forall|k: int, l: int| 0 <= k < l < at.len() implies #[trigger] at[k]
            < #[trigger] at[l] by {
            assert(at[k] == front[k]);
            if l < front.len() {
                assert(at[l] == front[l]);
            }
        }
        at
    } else {
        let at = lemma_in_order_embeds(query, name.drop_last(), exact);
        assert forall|k: int| 0 <= k < at.len() implies agree(
            query[k],
            name[#[trigger] at[k]],
            exact,
        ) by {
            assert(name[at[k]] == name.drop_last()[at[k]]);
        }
        at
    }
}

/// Where there are places in a name for the characters of a query, they occur
/// in order in it.
pub proof fn lemma_embedded_is_in_order(
    query: Seq<char>,
    name: Seq<char>,
    at: Seq<int>,
    exact: bool,
)
    requires
        embeds(query, name, at, exact),
    ensures
        occurs_in_order(query, name, exact),
    decreases name.len(),
{
    if query.len() == 0 {
    } else if name.len() == 0 {
        assert(0 <= at[0] < name.len());
    } else {
        let last = at.len() - 1;
        assert(0 <= at[last] < name.len());
        if agree(query.last(), name.last(), exact) {
            let front = at.drop_last();
            assert forall|k: int| 0 <= k < front.len() implies 0 <= #[trigger] front[k]
                < name.drop_last().len() by {
                assert(front[k] == at[k]);
                assert(at[k] < at[last]);
            }
            assert forall|k: int, l: int| 0 <= k < l < front.len() implies #[trigger] front[k]
                < #[trigger] front[l] by {
                assert(front[k] == at[k] && front[l] == at[l]);
            }
            assert forall|k: int| 0 <= k < front.len() implies agree(
                query.drop_last()[k],
                name.drop_last()[#[trigger] front[k]],
                exact,
            ) by {
                assert(front[k] == at[k]);
                assert(at[k] < at[last]);
                assert(agree(query[k], name[at[k]], exact));
            }
            lemma_embedded_is_in_order(query.drop_last(), name.drop_last(), front, exact);
        } else {
            assert(agree(query[last], name[at[last]], exact));
            assert(at[last] != name.len() - 1);
            assert forall|k: int| 0 <= k < at.len() implies 0 <= #[trigger] at[k]
                < name.drop_last().len() by {
                if k < last {
                    assert(at[k] < at[last]);
                }
            }
            assert forall|k: int| 0 <= k < at.len() implies agree(
                query[k],
                name.drop_last()[#[trigger] at[k]],
                exact,
            ) by {
                assert(agree(query[k], name[at[k]], exact));
            }
            lemma_embedded_is_in_order(query, name.drop_last(), at, exact);
        }
    }
}

/// The characters of a query occur in order in a name exactly where the name
/// holds them as a subsequence: at places that follow each other, one for each
/// character of the query, in its order.
pub proof fn law_in_order_is_subsequence(query: Seq<char>, name: Seq<char>, exact: bool)
    ensures
        occurs_in_order(query, name, exact) <==> exists|at: Seq<int>|
            embeds(query, name, at, exact),
{
    if occurs_in_order(query, name, exact) {
        let at = lemma_in_order_embeds(query, name, exact);
        assert(embeds(query, name, at, exact));
    }
    if exists|at: Seq<int>| embeds(query, name, at, exact) {
        let at = choose|at: Seq<int>| embeds(query, name, at, exact);
        lemma_embedded_is_in_order(query, name, at, exact);
    }
}

/// A name that matches a query holds the characters of the query in their
/// order, the case of ASCII letters aside; and for a query without a capital
/// letter, to match is no more than that.
pub proof fn law_match_holds_the_query(query: Seq<char>, name: Seq<char>)
    ensures
        matches_query(query, name) ==> occurs_scattered(query, name),
        !has_capital(query) ==> (matches_query(query, name) <==> occurs_scattered(query, name)),
        query.len() == 0 ==> matches_query(query, name),
{
    if matches_query(query, name) && has_capital(query) {
        let at = lemma_in_order_embeds(query, name, true);
        assert(embeds(query, name, at, false));
        lemma_embedded_is_in_order(query, name, at, false);
    }
}

/// The score that the skim matcher (version 2, with its default settings) gives
/// to `choice` for `pattern`; `None` where it finds no match.
pub uninterp spec fn skim_score(choice: Seq<char>, pattern: Seq<char>) -> Option<i64>;

/// Scores `choice` against `pattern` with `SkimMatcherV2::default().fuzzy_match`
/// of the crate `fuzzy_matcher`, on a matcher made for the call. Trusted: the
/// score depends on the two texts alone; an empty pattern matches everything
/// with the score 0; and a text gets a score exactly where the characters of the
/// pattern occur in it in their order, compared as they are where the pattern
/// holds an ASCII capital letter, and without regard to the case of ASCII
/// letters where it holds none.
#[verifier::external_body]
fn fuzzy_score(choice: &str, pattern: &str) -> (score: Option<i64>)
    ensures
        score == skim_score(choice@, pattern@),
        pattern@.len() == 0 ==> score == Some(0i64),
        score is Some <==> matches_query(pattern@, choice@),
{
    SkimMatcherV2::default().fuzzy_match(choice, pattern)
}

/// An application with its score for the current query: the sum of the score
/// of the matcher and a weight, two `i64`, which an `i128` always holds.
pub type Match = (Application, i128);

/// A match as plain values.
pub type MatchView = (ApplicationView, i128);

/// The order of the shortlist: the higher score first.
pub open spec fn by_score() -> spec_fn(MatchView, MatchView) -> bool {
    |a: MatchView, b: MatchView| a.1 >= b.1
}

/// The applications that have a score, in their order, each with the sum of
/// its score and the weight of its name.
pub open spec fn candidates(
    applications: Seq<ApplicationView>,
    scores: Seq<Option<i64>>,
    weights: Map<Seq<char>, i64>,
) -> Seq<MatchView>
    decreases applications.len(),
{
    if applications.len() == 0 || scores.len() == 0 {
        Seq::empty()
    } else {
        let rest = candidates(applications.drop_last(), scores.drop_last(), weights);
        match scores.last() {
            Some(score) => rest.push(
                (
                    applications.last(),
                    (score + weight_in(weights, applications.last().name)) as i128,
                ),
            ),
            None => rest,
        }
    }
}

/// The shortlist: the candidates with the highest score first. Candidates with
/// the same score stay in the order of the applications.
pub open spec fn ranked(
    applications: Seq<ApplicationView>,
    scores: Seq<Option<i64>>,
    weights: Map<Seq<char>, i64>,
) -> Seq<MatchView> {
    sort_stable(candidates(applications, scores, weights), by_score())
}

/// The score of the skim matcher for the name of each application.
pub open spec fn scores_of(applications: Seq<ApplicationView>, query: Seq<char>) -> Seq<
    Option<i64>,
> {
    Seq::new(applications.len(), |i: int| skim_score(applications[i].name, query))
}

/// Every candidate is an application that has a score.
pub proof fn lemma_candidates_have_scores(
    applications: Seq<ApplicationView>,
    scores: Seq<Option<i64>>,
    weights: Map<Seq<char>, i64>,
    k: int,
)
    requires
        applications.len() == scores.len(),
        0 <= k < candidates(applications, scores, weights).len(),
    ensures
        exists|i: int|
            0 <= i < applications.len() && candidates(applications, scores, weights)[k].0
                == #[trigger] applications[i] && scores[i] is Some && candidates(
                applications,
                scores,
                weights,
            )[k].1 == (scores[i]->0 + weight_in(weights, applications[i].name)) as i128,
    decreases applications.len(),
{
    let all = candidates(applications, scores, weights);
    let n = applications.len() - 1;
    let rest = candidates(applications.drop_last(), scores.drop_last(), weights);
    if scores[n] is Some && k == rest.len() {
        assert(all[k].0 == applications[n]);
    } else {
        lemma_candidates_have_scores(applications.drop_last(), scores.drop_last(), weights, k);
        let i = choose|i: int|
            0 <= i < n && rest[k].0 == #[trigger] applications.drop_last()[i]
                && scores.drop_last()[i] is Some && rest[k].1 == (scores.drop_last()[i]->0
                + weight_in(weights, applications.drop_last()[i].name)) as i128;
        assert(applications[i] == applications.drop_last()[i]);
        assert(scores[i] == scores.drop_last()[i]);
    }
}

/// Every application that has a score is a candidate.
pub proof fn lemma_scored_is_candidate(
    applications: Seq<ApplicationView>,
    scores: Seq<Option<i64>>,
    weights: Map<Seq<char>, i64>,
    i: int,
)
    requires
        applications.len() == scores.len(),
        0 <= i < applications.len(),
        scores[i] is Some,
    ensures
        candidates(applications, scores, weights).contains(
            (applications[i], (scores[i]->0 + weight_in(weights, applications[i].name)) as i128),
        ),
    decreases applications.len(),
{
    let all = candidates(applications, scores, weights);
    let n = applications.len() - 1;
    let rest = candidates(applications.drop_last(), scores.drop_last(), weights);
    let m = (applications[i], (scores[i]->0 + weight_in(weights, applications[i].name)) as i128);
    if i == n {
        assert(all[rest.len() as int] == m);
    } else {
        lemma_scored_is_candidate(applications.drop_last(), scores.drop_last(), weights, i);
        assert(applications[i] == applications.drop_last()[i]);
        assert(scores[i] == scores.drop_last()[i]);
        let k = choose|k: int| 0 <= k < rest.len() && rest[k] == m;
        assert(all[k] == m);
    }
}

/// The shortlist holds the candidates, each as often as it is one, and the
/// scores do not rise along it.
pub proof fn law_shortlist_is_sorted_candidates(
    applications: Seq<ApplicationView>,
    scores: Seq<Option<i64>>,
    weights: Map<Seq<char>, i64>,
)
    ensures
        ranked(applications, scores, weights).to_multiset() == candidates(
            applications,
            scores,
            weights,
        ).to_multiset(),
        ranked(applications, scores, weights).len() == candidates(
            applications,
            scores,
            weights,
        ).len(),
        forall|i: int, j: int|
            0 <= i < j < ranked(applications, scores, weights).len() ==> (#[trigger] ranked(
                applications,
                scores,
                weights,
            )[i]).1 >= (#[trigger] ranked(applications, scores, weights)[j]).1,
{
    let c = candidates(applications, scores, weights);
    let r = ranked(applications, scores, weights);
    lemma_sort_stable_items(c, by_score());
    assert(is_total(by_score()));
    assert(is_transitive(by_score()));
    lemma_sort_stable_ordered(c, by_score());
    assert forall|i: int, j: int| 0 <= i < j < r.len() implies (#[trigger] r[i]).1 >= (
    #[trigger] r[j]).1 by {
        assert(by_score()(r[i], r[j]));
    }
}

/// Ties are broken by the order of the applications: the shortlist is the
/// candidates read in an order that takes each once, never puts a lower score
/// first, and keeps candidates of one score as they were.
pub proof fn law_shortlist_is_stable(
    applications: Seq<ApplicationView>,
    scores: Seq<Option<i64>>,
    weights: Map<Seq<char>, i64>,
)
    ensures
        ranked(applications, scores, weights) == arranged(
            candidates(applications, scores, weights),
            order_of(candidates(applications, scores, weights), by_score()),
        ),
        is_stable_order(
            candidates(applications, scores, weights),
            by_score(),
            order_of(candidates(applications, scores, weights), by_score()),
            candidates(applications, scores, weights).len() as int,
        ),
{
    lemma_by_score_is_an_order();
    law_sort_is_stable(candidates(applications, scores, weights), by_score());
}

/// Every entry of the shortlist is an application that has a score, with that
/// score raised by the weight of its name; and every application that has a
/// score is on the shortlist.
pub proof fn law_shortlist_is_the_scored(
    applications: Seq<ApplicationView>,
    scores: Seq<Option<i64>>,
    weights: Map<Seq<char>, i64>,
)
    requires
        applications.len() == scores.len(),
    ensures
        forall|k: int|
            0 <= k < ranked(applications, scores, weights).len() ==> exists|i: int|
                0 <= i < applications.len() && (#[trigger] ranked(
                    applications,
                    scores,
                    weights,
                )[k]).0 == #[trigger] applications[i] && scores[i] is Some && ranked(
                    applications,
                    scores,
                    weights,
                )[k].1 == (scores[i]->0 + weight_in(weights, applications[i].name)) as i128,
        forall|i: int|
            0 <= i < applications.len() && (#[trigger] scores[i]) is Some ==> ranked(
                applications,
                scores,
                weights,
            ).contains(
                (
                    applications[i],
                    (scores[i]->0 + weight_in(weights, applications[i].name)) as i128,
                ),
            ),
{
    broadcast use vstd::seq_lib::group_to_multiset_ensures;

    let c = candidates(applications, scores, weights);
    let r = ranked(applications, scores, weights);
    lemma_sort_stable_items(c, by_score());
    assert forall|k: int| 0 <= k < r.len() implies exists|i: int|
        0 <= i < applications.len() && (#[trigger] r[k]).0 == #[trigger] applications[i]
            && scores[i] is Some && r[k].1 == (scores[i]->0 + weight_in(
            weights,
            applications[i].name,
        )) as i128 by {
        assert(r.contains(r[k]));
        assert(r.to_multiset().count(r[k]) > 0);
        assert(c.contains(r[k]));
        let q = choose|q: int| 0 <= q < c.len() && c[q] == r[k];
        lemma_candidates_have_scores(applications, scores, weights, q);
    }
    assert forall|i: int|
        0 <= i < applications.len() && (#[trigger] scores[i]) is Some implies r.contains(
        (applications[i], (scores[i]->0 + weight_in(weights, applications[i].name)) as i128),
    ) by {
        lemma_scored_is_candidate(applications, scores, weights, i);
        let m = (
            applications[i],
            (scores[i]->0 + weight_in(weights, applications[i].name)) as i128,
        );
        assert(c.to_multiset().count(m) > 0);
    }
}

/// How many of the scores are there.
pub open spec fn scored_count(scores: Seq<Option<i64>>) -> nat
    decreases scores.len(),
{
    if scores.len() == 0 {
        0
    } else if scores.last() is Some {
        scored_count(scores.drop_last()) + 1
    } else {
        scored_count(scores.drop_last())
    }
}

/// The place on the shortlist of the application at position `i`, which has a
/// score: the first place is 0.
pub open spec fn rank_of(
    applications: Seq<ApplicationView>,
    scores: Seq<Option<i64>>,
    weights: Map<Seq<char>, i64>,
    i: int,
) -> int {
    place_of(
        candidates(applications, scores, weights),
        by_score(),
        scored_count(scores.take(i)) as int,
    )
}

/// An application that has a score is the candidate behind those of the scored
/// applications in front of it.
pub proof fn lemma_candidate_of(
    applications: Seq<ApplicationView>,
    scores: Seq<Option<i64>>,
    weights: Map<Seq<char>, i64>,
    i: int,
)
    requires
        applications.len() == scores.len(),
        0 <= i < applications.len(),
        scores[i] is Some,
    ensures
        candidates(applications, scores, weights).len() == scored_count(scores),
        scored_count(scores.take(i)) < scored_count(scores),
        candidates(applications, scores, weights)[scored_count(scores.take(i)) as int] == (
            applications[i],
            (scores[i]->0 + weight_in(weights, applications[i].name)) as i128,
        ),
    decreases applications.len(),
{
    let n = applications.len() - 1;
    lemma_candidates_len(applications, scores, weights);
    lemma_candidates_len(applications.drop_last(), scores.drop_last(), weights);
    if i == n {
        assert(scores.take(i) == scores.drop_last());
    } else {
        lemma_candidate_of(applications.drop_last(), scores.drop_last(), weights, i);
        assert(scores.drop_last().take(i) == scores.take(i));
        assert(applications.drop_last()[i] == applications[i]);
        assert(scores.drop_last()[i] == scores[i]);
    }
}

/// There are as many candidates as scores.
pub proof fn lemma_candidates_len(
    applications: Seq<ApplicationView>,
    scores: Seq<Option<i64>>,
    weights: Map<Seq<char>, i64>,
)
    requires
        applications.len() == scores.len(),
    ensures
        candidates(applications, scores, weights).len() == scored_count(scores),
    decreases applications.len(),
{
    if applications.len() > 0 {
        lemma_candidates_len(applications.drop_last(), scores.drop_last(), weights);
    }
}

/// Scored applications at different positions are different candidates.
proof fn lemma_scored_count_grows(scores: Seq<Option<i64>>, i: int, j: int)
    requires
        0 <= i < j < scores.len(),
        scores[i] is Some,
    ensures
        scored_count(scores.take(i)) < scored_count(scores.take(j)),
    decreases j - i,
{
    assert(scores.take(j).drop_last() == scores.take(j - 1));
    if i == j - 1 {
        assert(scores.take(j).last() == scores[i]);
    } else {
        lemma_scored_count_grows(scores, i, j - 1);
    }
}

/// The order of the shortlist compares any two entries and carries over a
/// middle one.
pub proof fn lemma_by_score_is_an_order()
    ensures
        is_total(by_score()),
        is_transitive(by_score()),
{
}

/// The application at position `i`, which has a score, stands on the shortlist
/// at its rank, with its score raised by its weight.
pub proof fn law_rank_is_the_place_on_the_shortlist(
    applications: Seq<ApplicationView>,
    scores: Seq<Option<i64>>,
    weights: Map<Seq<char>, i64>,
    i: int,
)
    requires
        applications.len() == scores.len(),
        0 <= i < applications.len(),
        scores[i] is Some,
    ensures
        0 <= rank_of(applications, scores, weights, i) < ranked(
            applications,
            scores,
            weights,
        ).len(),
        ranked(applications, scores, weights)[rank_of(applications, scores, weights, i)] == (
            applications[i],
            (scores[i]->0 + weight_in(weights, applications[i].name)) as i128,
        ),
        ranked(applications, scores, weights)[rank_of(applications, scores, weights, i)].1
            == scores[i]->0 + weight_in(weights, applications[i].name),
{
    let c = candidates(applications, scores, weights);
    lemma_candidate_of(applications, scores, weights, i);
    lemma_by_score_is_an_order();
    lemma_place_of(c, by_score(), scored_count(scores.take(i)) as int);
    lemma_sort_stable_items(c, by_score());
}

/// A higher weight never costs a place. Take two applications that have a
/// score, the first in front of the second on the shortlist. Where the weight of
/// the first grows or stays and that of the second stays, the first is still in
/// front of the second on the new shortlist.
pub proof fn law_weight_never_costs_rank(
    applications: Seq<ApplicationView>,
    scores: Seq<Option<i64>>,
    weights: Map<Seq<char>, i64>,
    raised: Map<Seq<char>, i64>,
    i: int,
    j: int,
)
    requires
        applications.len() == scores.len(),
        0 <= i < applications.len(),
        0 <= j < applications.len(),
        scores[i] is Some,
        scores[j] is Some,
        weight_in(raised, applications[i].name) >= weight_in(weights, applications[i].name),
        weight_in(raised, applications[j].name) == weight_in(weights, applications[j].name),
        rank_of(applications, scores, weights, i) < rank_of(applications, scores, weights, j),
    ensures
        rank_of(applications, scores, raised, i) < rank_of(applications, scores, raised, j),
{
    let c = candidates(applications, scores, weights);
    let d = candidates(applications, scores, raised);
    let x = scored_count(scores.take(i)) as int;
    let y = scored_count(scores.take(j)) as int;
    lemma_candidate_of(applications, scores, weights, i);
    lemma_candidate_of(applications, scores, weights, j);
    lemma_candidate_of(applications, scores, raised, i);
    lemma_candidate_of(applications, scores, raised, j);
    lemma_by_score_is_an_order();
    lemma_place_of(c, by_score(), x);
    lemma_place_of(c, by_score(), y);
    lemma_place_of(d, by_score(), x);
    lemma_place_of(d, by_score(), y);
    law_sort_is_stable(c, by_score());
    law_sort_is_stable(d, by_score());
    let p = place_of(c, by_score(), x);
    let q = place_of(c, by_score(), y);
    let u = place_of(d, by_score(), x);
    let v = place_of(d, by_score(), y);
    assert(i != j);
    if i < j {
        lemma_scored_count_grows(scores, i, j);
    } else {
        lemma_scored_count_grows(scores, j, i);
    }
    assert(x != y);
    // on the first shortlist the first application has no lower score, and with
    // the same score it is the earlier candidate
    assert(by_score()(c[order_of(c, by_score())[p]], c[order_of(c, by_score())[q]]));
    assert(c[x].1 >= c[y].1);
    assert(scores[i] == Some(scores[i]->0));
    assert(scores[j] == Some(scores[j]->0));
    assert(d[x].1 >= c[x].1);
    assert(d[y].1 == c[y].1);
    if v < u {
        assert(by_score()(d[order_of(d, by_score())[v]], d[order_of(d, by_score())[u]]));
        assert(d[y].1 >= d[x].1);
        assert(by_score()(d[order_of(d, by_score())[u]], d[order_of(d, by_score())[v]]));
        assert(order_of(d, by_score())[v] < order_of(d, by_score())[u]);
        assert(by_score()(c[order_of(c, by_score())[q]], c[order_of(c, by_score())[p]]));
        assert(order_of(c, by_score())[p] < order_of(c, by_score())[q]);
    }
    assert(u != v);
}

/// A higher weight never costs a lead. Take two applications that have a score.
/// Where the weight of the first grows or stays and that of the second stays,
/// the first has at least the lead over the second, in sums on the shortlist,
/// that it had.
pub proof fn law_weight_never_costs_lead(
    applications: Seq<ApplicationView>,
    scores: Seq<Option<i64>>,
    weights: Map<Seq<char>, i64>,
    raised: Map<Seq<char>, i64>,
    i: int,
    j: int,
)
    requires
        applications.len() == scores.len(),
        0 <= i < applications.len(),
        0 <= j < applications.len(),
        scores[i] is Some,
        scores[j] is Some,
        weight_in(raised, applications[i].name) >= weight_in(weights, applications[i].name),
        weight_in(raised, applications[j].name) == weight_in(weights, applications[j].name),
    ensures
        ranked(applications, scores, raised)[rank_of(applications, scores, raised, i)].1 - ranked(
            applications,
            scores,
            raised,
        )[rank_of(applications, scores, raised, j)].1 >= ranked(
            applications,
            scores,
            weights,
        )[rank_of(applications, scores, weights, i)].1 - ranked(
            applications,
            scores,
            weights,
        )[rank_of(applications, scores, weights, j)].1,
{
    law_rank_is_the_place_on_the_shortlist(applications, scores, weights, i);
    law_rank_is_the_place_on_the_shortlist(applications, scores, weights, j);
    law_rank_is_the_place_on_the_shortlist(applications, scores, raised, i);
    law_rank_is_the_place_on_the_shortlist(applications, scores, raised, j);
}

/// Choosing an application never costs it a place. Take two applications of
/// different names that have a score, the first in front of the second on the
/// shortlist. After the first was chosen, it is still in front of the second on
/// the shortlist of the same query.
pub proof fn law_choice_never_costs_rank(
    applications: Seq<ApplicationView>,
    scores: Seq<Option<i64>>,
    weights: Map<Seq<char>, i64>,
    max: i64,
    i: int,
    j: int,
)
    requires
        applications.len() == scores.len(),
        0 <= i < applications.len(),
        0 <= j < applications.len(),
        scores[i] is Some,
        scores[j] is Some,
        applications[i].name != applications[j].name,
        rank_of(applications, scores, weights, i) < rank_of(applications, scores, weights, j),
    ensures
        rank_of(applications, scores, bumped(weights, applications[i].name, max), i) < rank_of(
            applications,
            scores,
            bumped(weights, applications[i].name, max),
            j,
        ),
{
    law_choice_raises_one_weight(weights, applications[i].name, max);
    law_weight_never_costs_rank(
        applications,
        scores,
        weights,
        bumped(weights, applications[i].name, max),
        i,
        j,
    );
}

/// Ranks the applications that have a score: the scores are raised by the
/// weights of `preferences` and the highest comes first.
pub fn rank_matches(
    applications: &Vec<Application>,
    scores: &Vec<Option<i64>>,
    preferences: &PreferredApps,
) -> (matches: Vec<Match>)
    requires
        applications.len() == scores.len(),
    ensures
        matches.deep_view() == ranked(applications.deep_view(), scores@, preferences@),
{
    let mut matches: Vec<Match> = Vec::new();
    let mut i: usize = 0;
    let ghost apps = applications.deep_view();
    proof {
        assert(apps.take(0) == Seq::<ApplicationView>::empty());
        assert(matches.deep_view() == Seq::<MatchView>::empty());
    }
    while i < applications.len()
        invariant
            0 <= i <= applications.len(),
            applications.len() == scores.len(),
            apps == applications.deep_view(),
            matches.deep_view() == ranked(
                apps.take(i as int),
                scores@.take(i as int),
                preferences@,
            ),
        decreases applications.len() - i,
    {
        proof {
            assert(apps.take(i + 1).drop_last() == apps.take(i as int));
            assert(scores@.take(i + 1).drop_last() == scores@.take(i as int));
            assert(apps.take(i + 1).last() == applications[i as int]@);
            assert(scores@.take(i + 1).last() == scores@[i as int]);
        }
        if let Some(score) = scores[i] {
            let application = &applications[i];
            let weight = preferences.get_weight(application);
            assert(scores@[i as int] == Some(score));
            let total: i128 = score as i128 + weight as i128;
            let ghost sorted = matches.deep_view();
            let ghost item = (application@, total);
            let mut at: usize = matches.len();
            while at > 0 && matches[at - 1].1 < total
                invariant
                    0 <= at <= matches.len(),
                    sorted == matches.deep_view(),
                    item.1 == total,
                    forall|k: int|
                        at <= k < sorted.len() ==> !#[trigger] by_score()(sorted[k], item),
                decreases at,
            {
                assert(sorted[at - 1].1 == matches[at - 1].1);
                assert(!by_score()(sorted[at - 1], item));
                at -= 1;
            }
            proof {
                if at > 0 {
                    assert(sorted[at - 1].1 == matches[at - 1].1);
                    assert(by_score()(sorted[at - 1], item));
                }
                lemma_insert_stable_at(sorted, item, by_score(), at as int);
                let before = candidates(apps.take(i as int), scores@.take(i as int), preferences@);
                let now = candidates(apps.take(i + 1), scores@.take(i + 1), preferences@);
                assert(now == before.push(item));
                assert(now.drop_last() == before);
            }
            matches.insert(at, (application.clone(), total));
            assert(matches.deep_view() == sorted.insert(at as int, item));
        } else {
            assert(candidates(apps.take(i + 1), scores@.take(i + 1), preferences@) == candidates(
                apps.take(i as int),
                scores@.take(i as int),
                preferences@,
            ));
        }
        i += 1;
    }
    proof {
        assert(apps.take(applications.len() as int) == apps);
        assert(scores@.take(scores.len() as int) == scores@);
    }
    matches
}

/// The scores of the skim matcher for the names of the applications: a score
/// for each name that matches the query, and none for any other.
pub fn score_applications(applications: &Vec<Application>, query: &str) -> (scores: Vec<
    Option<i64>,
>)
    ensures
        scores@ == scores_of(applications.deep_view(), query@),
        query@.len() == 0 ==> forall|i: int|
            0 <= i < scores.len() ==> #[trigger] scores[i] == Some(0i64),
        forall|i: int|
            0 <= i < scores.len() ==> ((#[trigger] scores[i]) is Some <==> matches_query(
                query@,
                applications[i]@.name,
            )),
{
    let mut scores: Vec<Option<i64>> = Vec::new();
    let mut i: usize = 0;
    while i < applications.len()
        invariant
            0 <= i <= applications.len(),
            scores.len() == i,
            forall|k: int|
                0 <= k < i ==> #[trigger] scores[k] == skim_score(applications[k]@.name, query@),
            query@.len() == 0 ==> forall|k: int| 0 <= k < i ==> #[trigger] scores[k] == Some(0i64),
            forall|k: int|
                0 <= k < i ==> ((#[trigger] scores[k]) is Some <==> matches_query(
                    query@,
                    applications[k]@.name,
                )),
        decreases applications.len() - i,
    {
        let score = fuzzy_score(applications[i].name.as_str(), query);
        scores.push(score);
        i += 1;
    }
    assert(scores@ =~= scores_of(applications.deep_view(), query@));
    scores
}

} // verus!
