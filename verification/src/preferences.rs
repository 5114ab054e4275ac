//! The learned preferences: how often each application was chosen, up to a
//! ceiling, and the text they are stored as.

use crate::application::Application;
use crate::config::PrefCFG;
use crate::text::{replace_all, replace_all_text};
use std::collections::HashMap;
use vstd::prelude::*;
use vstd::string::*;

verus! {

/// Where the preferences are stored, with `$HOME` for the user's home directory.
pub const LOCAL_DIR: &'static str = "$HOME/.local/share/aphorme/preferred_apps.json";

/// The token that stands for the user's home directory in a path.
pub const HOME_TOKEN: &'static str = "$HOME";

/// The weights that a list of names and weights gives: each name has the weight
/// of its last entry.
pub open spec fn pairs_as_map(pairs: Seq<(Seq<char>, i64)>) -> Map<Seq<char>, i64>
    decreases pairs.len(),
{
    if pairs.len() == 0 {
        Map::empty()
    } else {
        pairs_as_map(pairs.drop_last()).insert(pairs.last().0, pairs.last().1)
    }
}

/// The weight that `weights` holds for `name`: 0 where it holds none.
pub open spec fn weight_in(weights: Map<Seq<char>, i64>, name: Seq<char>) -> i64 {
    if weights.contains_key(name) {
        weights[name]
    } else {
        0
    }
}

/// The weights after `name` was chosen once more: a weight under the ceiling `max`
/// grows by one, one at or over it stays, and a name without a weight gets 1.
pub open spec fn bumped(weights: Map<Seq<char>, i64>, name: Seq<char>, max: i64) -> Map<
    Seq<char>,
    i64,
> {
    if !weights.contains_key(name) {
        weights.insert(name, 1)
    } else if weights[name] < max {
        weights.insert(name, (weights[name] + 1) as i64)
    } else {
        weights
    }
}

/// Whether every weight lies between 0 and the ceiling `max`.
pub open spec fn within_ceiling(weights: Map<Seq<char>, i64>, max: i64) -> bool {
    forall|name: Seq<char>| #[trigger]
        weights.contains_key(name) ==> 0 <= weights[name] <= max
}

/// The weights after `name` was chosen `times` times.
pub open spec fn bumped_often(
    weights: Map<Seq<char>, i64>,
    name: Seq<char>,
    max: i64,
    times: nat,
) -> Map<Seq<char>, i64>
    decreases times,
{
    if times == 0 {
        weights
    } else {
        bumped(bumped_often(weights, name, max, (times - 1) as nat), name, max)
    }
}

/// Choosing an application changes no weight but that of its name, and never
/// lowers that one.
pub proof fn law_choice_raises_one_weight(weights: Map<Seq<char>, i64>, name: Seq<char>, max: i64)
    ensures
        weight_in(bumped(weights, name, max), name) >= weight_in(weights, name),
        forall|other: Seq<char>|
            other != name ==> weight_in(bumped(weights, name, max), other) == weight_in(
                weights,
                other,
            ),
{
}

/// Choosing an application takes no weight over a ceiling of 1 or more that all
/// weights were under.
pub proof fn law_choice_respects_ceiling(weights: Map<Seq<char>, i64>, name: Seq<char>, max: i64)
    requires
        max >= 1,
        within_ceiling(weights, max),
    ensures
        within_ceiling(bumped(weights, name, max), max),
{
}

/// However often an application is chosen, its weight stays at or under a
/// ceiling of 1 or more that all weights were under, and it reaches the ceiling
/// once it was chosen that often.
pub proof fn law_weight_never_exceeds_ceiling(
    weights: Map<Seq<char>, i64>,
    name: Seq<char>,
    max: i64,
    times: nat,
)
    requires
        max >= 1,
        within_ceiling(weights, max),
    ensures
        within_ceiling(bumped_often(weights, name, max, times), max),
        weight_in(bumped_often(weights, name, max, times), name) <= max,
        weight_in(bumped_often(weights, name, max, times), name) == if weight_in(weights, name)
            + times <= max {
            weight_in(weights, name) + times
        } else {
            max as int
        },
    decreases times,
{
    if times > 0 {
        law_weight_never_exceeds_ceiling(weights, name, max, (times - 1) as nat);
    }
}

/// The weights that a stored text holds: the JSON object that `serde_json` reads
/// it as, `None` where it reads none.
pub uninterp spec fn decoded_weights(text: Seq<char>) -> Option<Map<Seq<char>, i64>>;

/// The text that `serde_json` writes for a list of names and weights, as a JSON
/// object with one member for each, in the order of the list.
pub uninterp spec fn encoded_weights(pairs: Seq<(Seq<char>, i64)>) -> Seq<char>;

/// Reads a JSON object of integers with `serde_json::from_str`, into a
/// `HashMap<String, i64>`, and hands out its entries. Trusted: the entries are
/// those of the map that the text decodes to, each name once, in no stated
/// order; a text that `serde_json` refuses gives `None`.
#[verifier::external_body]
fn decode_weights(text: &str) -> (r: Option<Vec<(String, i64)>>)
    ensures
        match r {
            Some(pairs) => decoded_weights(text@) == Some(pairs_as_map(pairs.deep_view())),
            None => decoded_weights(text@) is None,
        },
{
    serde_json::from_str::<HashMap<String, i64>>(text).ok().map(|m| m.into_iter().collect())
}

/// Writes the names and weights as a JSON object with `serde_json`, through
/// `serde::Serializer::collect_map`, one member for each pair in the order given.
/// Trusted: the text depends on the pairs alone. It is empty where `serde_json`
/// fails.
#[verifier::external_body]
fn encode_weights(pairs: &Vec<(String, i64)>) -> (text: String)
    ensures
        text@ == encoded_weights(pairs.deep_view()),
{
    let mut out: Vec<u8> = Vec::new();
    let mut writer = serde_json::Serializer::new(&mut out);
    match serde::Serializer::collect_map(&mut writer, pairs.iter().map(|p| (&p.0, &p.1))) {
        Ok(_) => String::from_utf8(out).unwrap_or_default(),
        Err(_) => String::new(),
    }
}

/// The preferences as they are written to disk.
#[derive(PartialEq, Eq, Debug)]
pub struct PreferenceFile {
    pub path: String,
    pub contents: String,
}

/// The weight of each application that was ever chosen, by its name.
pub struct PreferredApps {
    path: String,
    entries: Vec<(String, i64)>,
    max_weight: i64,
}

impl View for PreferredApps {
    type V = Map<Seq<char>, i64>;

    /// The weight of each known name.
    closed spec fn view(&self) -> Map<Seq<char>, i64> {
        pairs_as_map(self.entries.deep_view())
    }
}

/// Whether no name occurs twice among the pairs.
pub open spec fn names_differ(pairs: Seq<(Seq<char>, i64)>) -> bool {
    forall|i: int, j: int| 0 <= i < j < pairs.len() ==> (#[trigger] pairs[i]).0 != (
    #[trigger] pairs[j]).0
}

/// A name among the pairs has the weight that stands beside it.
proof fn lemma_pairs_as_map_entry(pairs: Seq<(Seq<char>, i64)>, i: int)
    requires
        names_differ(pairs),
        0 <= i < pairs.len(),
    ensures
        pairs_as_map(pairs).contains_key(pairs[i].0),
        pairs_as_map(pairs)[pairs[i].0] == pairs[i].1,
    decreases pairs.len(),
{
    if i < pairs.len() - 1 {
        let rest = pairs.drop_last();
        assert(rest[i] == pairs[i]);
        assert(pairs[i].0 != pairs[pairs.len() - 1].0);
        lemma_pairs_as_map_entry(rest, i);
    }
}

/// A name that is not among the pairs has no weight.
proof fn lemma_pairs_as_map_absent(pairs: Seq<(Seq<char>, i64)>, name: Seq<char>)
    requires
        forall|i: int| 0 <= i < pairs.len() ==> (#[trigger] pairs[i]).0 != name,
    ensures
        !pairs_as_map(pairs).contains_key(name),
    decreases pairs.len(),
{
    if pairs.len() > 0 {
        let rest = pairs.drop_last();
        assert(pairs[pairs.len() - 1].0 != name);
        assert forall|i: int| 0 <= i < rest.len() implies (#[trigger] rest[i]).0 != name by {
            assert(rest[i] == pairs[i]);
        }
        lemma_pairs_as_map_absent(rest, name);
    }
}

/// Changing the weight beside a name changes the weight of that name alone.
proof fn lemma_pairs_as_map_update(pairs: Seq<(Seq<char>, i64)>, i: int, weight: i64)
    requires
        names_differ(pairs),
        0 <= i < pairs.len(),
    ensures
        pairs_as_map(pairs.update(i, (pairs[i].0, weight))) == pairs_as_map(pairs).insert(
            pairs[i].0,
            weight,
        ),
    decreases pairs.len(),
{
    let changed = pairs.update(i, (pairs[i].0, weight));
    let rest = pairs.drop_last();
    if i == pairs.len() - 1 {
        assert(changed.drop_last() == rest);
        assert(pairs_as_map(changed) =~= pairs_as_map(pairs).insert(pairs[i].0, weight));
    } else {
        assert(rest[i] == pairs[i]);
        assert(pairs[i].0 != pairs[pairs.len() - 1].0);
        lemma_pairs_as_map_update(rest, i, weight);
        assert(changed.drop_last() == rest.update(i, (pairs[i].0, weight)));
        assert(pairs_as_map(changed) =~= pairs_as_map(pairs).insert(pairs[i].0, weight));
    }
}

impl PreferredApps {
    #[verifier::type_invariant]
    spec fn well_formed(&self) -> bool {
        names_differ(self.entries.deep_view())
    }

    /// The path of the file that the preferences are stored in.
    pub closed spec fn path(&self) -> Seq<char> {
        self.path@
    }

    /// The ceiling of the weights.
    pub closed spec fn ceiling(&self) -> i64 {
        self.max_weight
    }

    /// The names and weights in the order in which they are written out.
    pub closed spec fn entries(&self) -> Seq<(Seq<char>, i64)> {
        self.entries.deep_view()
    }

    /// The weights are those that the entries give.
    pub proof fn law_weights_are_those_of_entries(&self)
        ensures
            self@ == pairs_as_map(self.entries()),
    {
    }

    /// The path of the preference file of the user whose home directory is
    /// `home_dir`.
    pub fn storage_path(home_dir: &str) -> (path: String)
        ensures
            path@ == replace_all(LOCAL_DIR@, HOME_TOKEN@, home_dir@),
    {
        replace_all_text(LOCAL_DIR, HOME_TOKEN, home_dir)
    }

    /// The preferences of the user whose home directory is `home_dir`, with the
    /// weights that `stored` holds: the text of the preference file, or `None`
    /// where the file is missing or cannot be read. A text that is no JSON object
    /// of integers gives no weights.
    pub fn new(home_dir: &str, preference_cfg: &PrefCFG, stored: Option<&str>) -> (r: Self)
        ensures
            r.path() == replace_all(LOCAL_DIR@, HOME_TOKEN@, home_dir@),
            r.ceiling() == preference_cfg.max_weight,
            r@ == match stored {
                Some(text) => match decoded_weights(text@) {
                    Some(weights) => weights,
                    None => Map::empty(),
                },
                None => Map::empty(),
            },
    {
        let mut r = PreferredApps {
            path: Self::storage_path(home_dir),
            entries: Vec::new(),
            max_weight: preference_cfg.max_weight,
        };
        if let Some(text) = stored {
            if let Some(pairs) = decode_weights(text) {
                let mut i: usize = 0;
                let ghost path = r.path@;
                proof {
                    assert(pairs.deep_view().take(0) == Seq::<(Seq<char>, i64)>::empty());
                }
                while i < pairs.len()
                    invariant
                        0 <= i <= pairs.len(),
                        r.path@ == path,
                        r.max_weight == preference_cfg.max_weight,
                        r@ == pairs_as_map(pairs.deep_view().take(i as int)),
                    decreases pairs.len() - i,
                {
                    proof {
                        let done = pairs.deep_view().take(i + 1);
                        assert(done.drop_last() == pairs.deep_view().take(i as int));
                        assert(done.last() == (pairs[i as int].0@, pairs[i as int].1));
                    }
                    r.set_weight(&pairs[i].0, pairs[i].1);
                    i += 1;
                }
                proof {
                    assert(pairs.deep_view().take(pairs.len() as int) == pairs.deep_view());
                }
            }
        }
        r
    }

    /// The place of `name` among the entries.
    fn position(&self, name: &String) -> (r: Option<usize>)
        ensures
            match r {
                Some(i) => i < self.entries.len() && self.entries[i as int].0@ == name@,
                None => forall|i: int|
                    0 <= i < self.entries.len() ==> (#[trigger] self.entries[i]).0@ != name@,
            },
    {
        let mut i: usize = 0;
        while i < self.entries.len()
            invariant
                0 <= i <= self.entries.len(),
                forall|k: int| 0 <= k < i ==> (#[trigger] self.entries[k]).0@ != name@,
            decreases self.entries.len() - i,
        {
            if self.entries[i].0 == *name {
                return Some(i);
            }
            i += 1;
        }
        None
    }

    /// Gives `name` the weight `weight`.
    fn set_weight(&mut self, name: &String, weight: i64)
        ensures
            final(self)@ == old(self)@.insert(name@, weight),
            final(self).path == old(self).path,
            final(self).max_weight == old(self).max_weight,
    {
        proof {
            use_type_invariant(&*self);
        }
        let ghost before = self.entries.deep_view();
        let place = self.position(name);
        let mut entries: Vec<(String, i64)> = Vec::new();
        core::mem::swap(&mut self.entries, &mut entries);
        match place {
            Some(i) => {
                entries.set(i, (name.clone(), weight));
                proof {
                    assert(before[i as int].0 == name@);
                    lemma_pairs_as_map_update(before, i as int, weight);
                    assert(entries.deep_view() == before.update(i as int, (name@, weight)));
                }
            },
            None => {
                entries.push((name.clone(), weight));
                proof {
                    assert(entries.deep_view() == before.push((name@, weight)));
                    assert(before.push((name@, weight)).drop_last() == before);
                    assert forall|i: int| 0 <= i < before.len() implies (#[trigger] before[i]).0
                        != name@ by {
                        assert(before[i].0 == old(self).entries[i].0@);
                    }
                }
            },
        }
        self.entries = entries;
    }

    /// Counts one more choice of `application`: its weight grows by one while it
    /// is under the ceiling, and starts at 1.
    pub fn update_preferrence(&mut self, application: &Application)
        ensures
            final(self)@ == bumped(old(self)@, application@.name, old(self).ceiling()),
            final(self).path() == old(self).path(),
            final(self).ceiling() == old(self).ceiling(),
    {
        let weight = self.stored_weight(&application.name);
        match weight {
            Some(w) => {
                if w < self.max_weight {
                    self.set_weight(&application.name, w + 1);
                }
            },
            None => {
                self.set_weight(&application.name, 1);
            },
        }
    }

    /// The weight stored for `name`, if there is one.
    fn stored_weight(&self, name: &String) -> (r: Option<i64>)
        ensures
            match r {
                Some(w) => self@.contains_key(name@) && self@[name@] == w,
                None => !self@.contains_key(name@),
            },
    {
        proof {
            use_type_invariant(self);
        }
        match self.position(name) {
            Some(i) => {
                proof {
                    lemma_pairs_as_map_entry(self.entries.deep_view(), i as int);
                }
                Some(self.entries[i].1)
            },
            None => {
                proof {
                    let pairs = self.entries.deep_view();
                    assert forall|i: int| 0 <= i < pairs.len() implies (#[trigger] pairs[i]).0
                        != name@ by {
                        assert(pairs[i].0 == self.entries[i].0@);
                    }
                    lemma_pairs_as_map_absent(pairs, name@);
                }
                None
            },
        }
    }

    /// The weight of `application`: 0 where it was never chosen.
    pub fn get_weight(&self, application: &Application) -> (weight: i64)
        ensures
            weight == weight_in(self@, application@.name),
    {
        match self.stored_weight(&application.name) {
            Some(w) => w,
            None => 0,
        }
    }

    /// The ceiling of the weights.
    pub fn max_weight(&self) -> (max: i64)
        ensures
            max == self.ceiling(),
    {
        self.max_weight
    }

    /// The file to write so that the weights outlast the session: its path, and
    /// the weights as the text of a JSON object.
    pub fn save(&self) -> (file: PreferenceFile)
        ensures
            file.path@ == self.path(),
            file.contents@ == encoded_weights(self.entries()),
    {
        PreferenceFile { path: self.path.clone(), contents: encode_weights(&self.entries) }
    }
}

impl Default for PreferredApps {
    /// No path, no weights, and a ceiling of 0.
    fn default() -> (r: Self)
        ensures
            r.path().len() == 0,
            r.ceiling() == 0,
            r@ == Map::<Seq<char>, i64>::empty(),
    {
        PreferredApps { path: String::new(), entries: Vec::new(), max_weight: 0 }
    }
}

} // verus!
