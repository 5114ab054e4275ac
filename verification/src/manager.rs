//! The application manager: the fixed list of applications, the shortlist of
//! the current query, the icons resolved batch by batch, and what choosing an
//! entry of the shortlist does.
//!
//! Looking an icon up is left to the caller: the manager says which icon names
//! the next batch asks for, and takes what was found.

use crate::application::{
    arguments_of, by_name, copy_of, lemma_by_name_is_an_order, program_of, sort_by_name,
    Application, ApplicationType, ApplicationView, CommandLine,
};
use crate::config::AppCFG;
use crate::instance::InstanceGuard;
use crate::preferences::{
    bumped, decoded_weights, encoded_weights, PreferenceFile, PreferredApps, HOME_TOKEN,
    LOCAL_DIR,
};
use crate::ranking::{
    candidates, law_match_holds_the_query, law_shortlist_is_sorted_candidates,
    law_shortlist_is_the_scored, matches_query, occurs_scattered, rank_matches, ranked,
    score_applications, scores_of, Match, MatchView,
};
use crate::scanner::{
    applications_found, collect_applications, lemma_found_without_icon_path, FoundFile,
};
use crate::stable::{law_sort_is_stable, order_of, sort_stable};
use crate::text::replace_all;
use vstd::prelude::*;
use vstd::string::*;

verus! {

/// The size, in pixels, that icons are to be looked up in.
pub const ICON_SIZE: u16 = 8;

/// Looks the icon theme of the desktop up with `get_icon_theme` of the crate
/// `linicon_theme`. Nothing is promised of the outcome: it depends on the
/// settings found on the machine.
#[verifier::external_body]
fn system_icon_theme() -> Option<String> {
    linicon_theme::get_icon_theme()
}

/// What the caller found on the machine before the manager is made.
pub struct Surroundings {
    /// The home directory of the user, if it is known.
    pub home_dir: Option<String>,
    /// The text of the preference file, or `None` where the file is missing or
    /// cannot be read.
    pub stored_preferences: Option<String>,
    /// What each directory to scan holds, in the order of the directories, or
    /// `None` for a directory that could not be listed.
    pub directories: Vec<Option<Vec<FoundFile>>>,
}

/// What the caller has to do after an entry of the shortlist was chosen.
#[derive(PartialEq, Eq, Debug)]
pub enum Selection {
    /// Write the preferences, then start the command without waiting for it.
    Launch { preferences: PreferenceFile, command: CommandLine },
    /// Print the line, as the only line of output.
    Print { line: String },
}

/// Struct managing searching for, loading icons of, matching and running
/// applications.
pub struct ApplicationManager {
    applications: Vec<Application>,
    /// The shortlist of the last query, best match first.
    pub matches: Vec<Match>,
    icon_theme: String,
    loaded_icons: usize,
    instance: InstanceGuard,
    preferred_applications: PreferredApps,
}

/// The state of a manager as plain values.
pub struct ManagerView {
    /// The applications, fixed when the manager is made but for their icons.
    pub applications: Seq<ApplicationView>,
    pub matches: Seq<MatchView>,
    pub icon_theme: Seq<char>,
    /// How many applications had their turn at the icon lookup.
    pub loaded_icons: usize,
    /// Whether the manager still holds the launcher's lock.
    pub holds_instance: bool,
    pub preferred: PreferredApps,
}

impl View for ApplicationManager {
    type V = ManagerView;

    closed spec fn view(&self) -> ManagerView {
        ManagerView {
            applications: self.applications.deep_view(),
            matches: self.matches.deep_view(),
            icon_theme: self.icon_theme@,
            loaded_icons: self.loaded_icons,
            holds_instance: self.instance.is_held(),
            preferred: self.preferred_applications,
        }
    }
}

/// The applications that stand for texts handed in by the caller.
pub open spec fn literal_applications(texts: Seq<Seq<char>>) -> Seq<ApplicationView> {
    Seq::new(
        texts.len(),
        |i: int|
            ApplicationView {
                name: texts[i],
                command: texts[i],
                icon_path: None,
                icon_name: None,
                application_type: ApplicationType::Stdout,
            },
    )
}

/// The scores of an empty query: 0 for each of `n` applications.
pub open spec fn all_zero(n: nat) -> Seq<Option<i64>> {
    Seq::new(n, |i: int| Some(0i64))
}

/// The shortlist before any query: every application, with the score 0.
pub open spec fn unranked(applications: Seq<ApplicationView>) -> Seq<MatchView> {
    Seq::new(applications.len(), |i: int| (applications[i], 0i128))
}

/// Whether the shortlist has an entry for the application.
pub open spec fn lists(matches: Seq<MatchView>, application: ApplicationView) -> bool {
    exists|k: int| 0 <= k < matches.len() && (#[trigger] matches[k]).0 == application
}

/// An application after its icon was looked up with the outcome `found`: one
/// without an icon name has no icon path, whatever was found.
pub open spec fn resolved(application: ApplicationView, found: Option<Seq<char>>)
    -> ApplicationView {
    ApplicationView {
        icon_path: if application.icon_name is Some {
            found
        } else {
            None
        },
        ..application
    }
}

/// How many applications have their turn in a batch of `amount` that starts at
/// `from` in a list of `len`.
pub open spec fn batch_len(from: int, amount: int, len: int) -> int {
    if from >= len {
        0
    } else if from + amount >= len {
        len - from
    } else {
        amount
    }
}

/// The applications of a batch after their lookups.
pub open spec fn batch_of(
    applications: Seq<ApplicationView>,
    from: int,
    found: Seq<Option<Seq<char>>>,
) -> Seq<ApplicationView> {
    Seq::new(found.len(), |t: int| resolved(applications[from + t], found[t]))
}

/// The application list after the batch that starts at `from` had its lookups.
pub open spec fn with_icons(
    applications: Seq<ApplicationView>,
    from: int,
    found: Seq<Option<Seq<char>>>,
) -> Seq<ApplicationView> {
    Seq::new(
        applications.len(),
        |i: int|
            if from <= i < from + found.len() {
                resolved(applications[i], found[i - from])
            } else {
                applications[i]
            },
    )
}

/// An entry of the shortlist after `application` had its lookup: an entry of
/// that name shows the icon path of the application.
pub open spec fn shown_with(entry: MatchView, application: ApplicationView) -> MatchView {
    if entry.0.name == application.name {
        (ApplicationView { icon_path: application.icon_path, ..entry.0 }, entry.1)
    } else {
        entry
    }
}

/// The shortlist after the applications of a batch had their lookups, one after
/// the other.
pub open spec fn propagated(matches: Seq<MatchView>, batch: Seq<ApplicationView>) -> Seq<
    MatchView,
>
    decreases batch.len(),
{
    if batch.len() == 0 {
        matches
    } else {
        let before = propagated(matches, batch.drop_last());
        Seq::new(before.len(), |k: int| shown_with(before[k], batch.last()))
    }
}

/// The icon names that a batch of `amount` asks for, one for each application
/// that has its turn, in their order: `None` for an application without an icon
/// name, for which nothing is looked up.
pub open spec fn pending_names(state: ManagerView, amount: usize) -> Seq<Option<Seq<char>>> {
    Seq::new(
        batch_len(
            state.loaded_icons as int,
            amount as int,
            state.applications.len() as int,
        ) as nat,
        |t: int| state.applications[state.loaded_icons + t].icon_name,
    )
}

/// Whether a batch of `amount` brings the cursor to the end of the list, or
/// finds it there.
pub open spec fn done_after(state: ManagerView, amount: usize) -> bool {
    state.loaded_icons + amount >= state.applications.len()
}

/// The sum of a cursor and a batch size, held at the largest `usize`.
pub open spec fn advanced(cursor: usize, amount: usize) -> usize {
    if cursor + amount > usize::MAX {
        usize::MAX
    } else {
        (cursor + amount) as usize
    }
}

/// The state after a batch of `amount` lookups with the outcomes `found`.
pub open spec fn after_icons(state: ManagerView, amount: usize, found: Seq<Option<Seq<char>>>)
    -> ManagerView {
    if state.loaded_icons >= state.applications.len() {
        state
    } else {
        ManagerView {
            applications: with_icons(state.applications, state.loaded_icons as int, found),
            matches: propagated(
                state.matches,
                batch_of(state.applications, state.loaded_icons as int, found),
            ),
            loaded_icons: advanced(state.loaded_icons, amount),
            ..state
        }
    }
}

/// Whether no application that still waits for its turn at the icon lookup has
/// an icon path.
pub open spec fn awaits_icons(state: ManagerView) -> bool {
    forall|i: int|
        state.loaded_icons <= i < state.applications.len() ==> (
        #[trigger] state.applications[i]).icon_path is None
}

/// An icon path, once it is there, stays: a batch of lookups changes no
/// application that had its turn, and the applications behind the batch still
/// wait without an icon path.
pub proof fn law_icon_paths_never_regress(
    state: ManagerView,
    amount: usize,
    found: Seq<Option<Seq<char>>>,
    i: int,
)
    requires
        state.applications.len() <= usize::MAX,
        awaits_icons(state),
        found.len() == batch_len(
            state.loaded_icons as int,
            amount as int,
            state.applications.len() as int,
        ),
        0 <= i < state.applications.len(),
    ensures
        awaits_icons(after_icons(state, amount, found)),
        state.applications[i].icon_path is Some ==> after_icons(
            state,
            amount,
            found,
        ).applications[i] == state.applications[i],
{
    let after = after_icons(state, amount, found);
    assert forall|k: int| after.loaded_icons <= k < after.applications.len() implies (
    #[trigger] after.applications[k]).icon_path is None by {
        if state.loaded_icons < state.applications.len() {
            assert(after.loaded_icons >= state.loaded_icons + found.len());
            assert(after.applications[k] == state.applications[k]);
        }
        assert(state.applications[k].icon_path is None);
    }
    if state.applications[i].icon_path is Some {
        assert(i < state.loaded_icons);
    }
}

/// Looking icons up changes nothing of an application but its icon path.
pub proof fn law_icons_change_icon_paths_only(
    applications: Seq<ApplicationView>,
    from: int,
    found: Seq<Option<Seq<char>>>,
    i: int,
)
    requires
        0 <= i < applications.len(),
    ensures
        with_icons(applications, from, found).len() == applications.len(),
        with_icons(applications, from, found)[i].name == applications[i].name,
        with_icons(applications, from, found)[i].command == applications[i].command,
        with_icons(applications, from, found)[i].icon_name == applications[i].icon_name,
        with_icons(applications, from, found)[i].application_type
            == applications[i].application_type,
        !(from <= i < from + found.len()) ==> with_icons(applications, from, found)[i]
            == applications[i],
        applications[i].icon_name is None && from <= i < from + found.len() ==> with_icons(
            applications,
            from,
            found,
        )[i].icon_path is None,
{
}

/// Once every application had its turn, a further batch asks for nothing,
/// changes nothing and is done, whatever its size and whatever is handed in as
/// found.
pub proof fn law_lookup_is_idempotent_when_done(
    state: ManagerView,
    amount: usize,
    found: Seq<Option<Seq<char>>>,
)
    requires
        state.loaded_icons >= state.applications.len(),
    ensures
        after_icons(state, amount, found) == state,
        done_after(state, amount),
        pending_names(state, amount).len() == 0,
        batch_len(state.loaded_icons as int, amount as int, state.applications.len() as int)
            == 0,
{
}

/// A batch that is done leaves the cursor at the end of the list or behind it:
/// every later batch is done as well and changes nothing.
pub proof fn law_done_stays_done(
    state: ManagerView,
    amount: usize,
    found: Seq<Option<Seq<char>>>,
    later: usize,
    later_found: Seq<Option<Seq<char>>>,
)
    requires
        state.applications.len() <= usize::MAX,
        done_after(state, amount),
    ensures
        after_icons(state, amount, found).loaded_icons >= state.applications.len(),
        done_after(after_icons(state, amount, found), later),
        after_icons(after_icons(state, amount, found), later, later_found) == after_icons(
            state,
            amount,
            found,
        ),
{
}

/// The cursor after `calls` batches of `amount`, from a cursor at `cursor`.
pub open spec fn cursor_after(cursor: usize, amount: usize, calls: nat) -> usize
    decreases calls,
{
    if calls == 0 {
        cursor
    } else {
        advanced(cursor_after(cursor, amount, (calls - 1) as nat), amount)
    }
}

/// On a list of `len` applications, looked up from the start in batches of
/// `amount`, the batch number `calls + 1` is done exactly where that many
/// batches reach the end of the list.
pub proof fn law_done_after_enough_batches(len: usize, amount: usize, calls: nat)
    ensures
        cursor_after(0, amount, calls) == if calls * amount > usize::MAX {
            usize::MAX as int
        } else {
            calls * amount
        },
        cursor_after(0, amount, calls) + amount >= len <==> (calls + 1) * amount >= len,
    decreases calls,
{
    let here = calls * amount;
    let next = (calls + 1) * amount;
    assert(next == here + amount) by (nonlinear_arith)
        requires
            here == calls * amount,
            next == (calls + 1) * amount,
    ;
    assert(here >= 0) by (nonlinear_arith)
        requires
            here == calls * amount,
            calls >= 0,
            amount >= 0,
    ;
    if calls > 0 {
        let before = (calls - 1) * amount;
        law_done_after_enough_batches(len, amount, (calls - 1) as nat);
        assert(here == before + amount) by (nonlinear_arith)
            requires
                here == calls * amount,
                before == (calls - 1) * amount,
        ;
        assert(before >= 0) by (nonlinear_arith)
            requires
                before == (calls - 1) * amount,
                calls >= 1,
                amount >= 0,
        ;
        let earlier = cursor_after(0, amount, (calls - 1) as nat);
        assert(cursor_after(0, amount, calls) == advanced(earlier, amount));
    } else {
        assert(here == 0) by (nonlinear_arith)
            requires
                here == calls * amount,
                calls == 0,
        ;
    }
}

impl ApplicationManager {
    /// The manager of a session. With texts in `custom_fields` the applications
    /// are those texts, in their order; without, they are the applications that
    /// the found files describe, sorted by name. The shortlist starts as the
    /// whole list. The preferences are those of the home directory; without a
    /// home directory there are none and the ceiling is 0. With `icon` unset the
    /// icon theme is empty; else it is the theme of the desktop, or empty where
    /// none is found.
    pub fn new(
        config: AppCFG,
        icon: bool,
        instance: InstanceGuard,
        custom_fields: Vec<String>,
        surroundings: Surroundings,
    ) -> (manager: ApplicationManager)
        ensures
            manager@.applications == if custom_fields.len() == 0 {
                sort_stable(applications_found(surroundings.directories.deep_view()), by_name())
            } else {
                literal_applications(custom_fields.deep_view())
            },
            manager@.matches == unranked(manager@.applications),
            manager@.loaded_icons == 0,
            awaits_icons(manager@),
            manager@.holds_instance == instance.is_held(),
            !icon ==> manager@.icon_theme.len() == 0,
            match surroundings.home_dir {
                Some(home) => {
                    &&& manager@.preferred.path() == replace_all(LOCAL_DIR@, HOME_TOKEN@, home@)
                    &&& manager@.preferred.ceiling() == config.preferred_apps.max_weight
                    &&& manager@.preferred@ == match surroundings.stored_preferences {
                        Some(text) => match decoded_weights(text@) {
                            Some(weights) => weights,
                            None => Map::empty(),
                        },
                        None => Map::empty(),
                    }
                },
                None => {
                    &&& manager@.preferred.path().len() == 0
                    &&& manager@.preferred.ceiling() == 0
                    &&& manager@.preferred@ == Map::<Seq<char>, i64>::empty()
                },
            },
    {
        let preferred_applications = match &surroundings.home_dir {
            Some(home) => {
                let stored: Option<&str> = match &surroundings.stored_preferences {
                    Some(text) => Some(text.as_str()),
                    None => None,
                };
                PreferredApps::new(home.as_str(), &config.preferred_apps, stored)
            },
            None => PreferredApps::default(),
        };
        let mut applications: Vec<Application>;
        if custom_fields.len() == 0 {
            applications = collect_applications(&surroundings.directories);
            let ghost found = applications.deep_view();
            sort_by_name(&mut applications);
            proof {
                lemma_by_name_is_an_order();
                law_sort_is_stable(found, by_name());
                assert forall|k: int| 0 <= k < found.len() implies (#[trigger] sort_stable(
                    found,
                    by_name(),
                )[k]).icon_path is None by {
                    lemma_found_without_icon_path(
                        surroundings.directories.deep_view(),
                        order_of(found, by_name())[k],
                    );
                }
            }
        } else {
            applications = Vec::new();
            let mut i: usize = 0;
            while i < custom_fields.len()
                invariant
                    0 <= i <= custom_fields.len(),
                    applications.len() == i,
                    forall|k: int|
                        0 <= k < i ==> (#[trigger] applications[k])@ == literal_applications(
                            custom_fields.deep_view(),
                        )[k],
                decreases custom_fields.len() - i,
            {
                applications.push(Application::literal(custom_fields[i].clone()));
                i += 1;
            }
            assert(applications.deep_view() =~= literal_applications(custom_fields.deep_view()));
        }
        let mut matches: Vec<Match> = Vec::new();
        let mut j: usize = 0;
        while j < applications.len()
            invariant
                0 <= j <= applications.len(),
                matches.len() == j,
                forall|k: int|
                    0 <= k < j ==> (#[trigger] matches[k]).0@ == applications[k]@ && matches[k].1
                        == 0,
            decreases applications.len() - j,
        {
            matches.push((applications[j].clone(), 0));
            j += 1;
        }
        assert(matches.deep_view() =~= unranked(applications.deep_view()));
        let icon_theme = if icon {
            match system_icon_theme() {
                Some(theme) => theme,
                None => String::new(),
            }
        } else {
            String::new()
        };
        ApplicationManager {
            applications,
            matches,
            icon_theme,
            loaded_icons: 0,
            instance,
            preferred_applications,
        }
    }

    /// Makes the shortlist anew for `search_str`: every application whose name
    /// matches it, with the sum of the score that the skim matcher gives it and
    /// the weight of its name, the highest sum first; entries of the same sum
    /// stay in the order of the applications. An application is listed exactly
    /// where the characters of the query occur in its name in their order, and
    /// the empty query lists them all.
    pub fn find_application(&mut self, search_str: &str)
        ensures
            final(self)@ == (ManagerView {
                matches: ranked(
                    old(self)@.applications,
                    scores_of(old(self)@.applications, search_str@),
                    old(self)@.preferred@,
                ),
                ..old(self)@
            }),
            forall|k: int|
                0 <= k < final(self)@.matches.len() ==> matches_query(
                    search_str@,
                    (#[trigger] final(self)@.matches[k]).0.name,
                ) && occurs_scattered(search_str@, final(self)@.matches[k].0.name),
            forall|i: int|
                0 <= i < old(self)@.applications.len() && matches_query(
                    search_str@,
                    (#[trigger] old(self)@.applications[i]).name,
                ) ==> lists(final(self)@.matches, old(self)@.applications[i]),
            forall|i: int, j: int|
                0 <= i < j < final(self)@.matches.len() ==> (#[trigger] final(self)@.matches[i]).1
                    >= (#[trigger] final(self)@.matches[j]).1,
            search_str@.len() == 0 ==> {
                &&& final(self)@.matches.len() == old(self)@.applications.len()
                &&& final(self)@.matches == ranked(
                    old(self)@.applications,
                    all_zero(old(self)@.applications.len()),
                    old(self)@.preferred@,
                )
            },
    {
        let scores = score_applications(&self.applications, search_str);
        let ghost applications = self.applications.deep_view();
        let ghost weights = self.preferred_applications@;
        self.matches = rank_matches(&self.applications, &scores, &self.preferred_applications);
        proof {
            let listed = ranked(applications, scores@, weights);
            law_shortlist_is_sorted_candidates(applications, scores@, weights);
            law_shortlist_is_the_scored(applications, scores@, weights);
            assert forall|k: int| 0 <= k < listed.len() implies matches_query(
                search_str@,
                (#[trigger] listed[k]).0.name,
            ) && occurs_scattered(search_str@, listed[k].0.name) by {
                let i = choose|i: int|
                    0 <= i < applications.len() && listed[k].0 == #[trigger] applications[i]
                        && scores@[i] is Some;
                assert(scores[i] is Some);
                law_match_holds_the_query(search_str@, applications[i].name);
            }
            assert forall|i: int|
                0 <= i < applications.len() && matches_query(
                    search_str@,
                    (#[trigger] applications[i]).name,
                ) implies lists(listed, applications[i]) by {
                assert(scores[i] is Some);
                let entry = choose|entry: MatchView|
                    listed.contains(entry) && entry.0 == applications[i];
                let k = choose|k: int| 0 <= k < listed.len() && listed[k] == entry;
                assert(listed[k].0 == applications[i]);
            }
            if search_str@.len() == 0 {
                lemma_all_scored_are_candidates(applications, scores@, weights);
                assert(scores@ =~= all_zero(applications.len()));
            }
        }
    }

    /// Chooses the entry `selected` of the shortlist. The launcher's lock is
    /// given up. For an application from a descriptor the choice is counted in
    /// the preferences, and the caller gets the preference file to write and the
    /// command to start; for a text handed in by the caller, it gets the text to
    /// print.
    pub fn execute_first_match(&mut self, selected: usize) -> (selection: Selection)
        requires
            selected < old(self)@.matches.len(),
        ensures
            !final(self)@.holds_instance,
            final(self)@.applications == old(self)@.applications,
            final(self)@.matches == old(self)@.matches,
            final(self)@.icon_theme == old(self)@.icon_theme,
            final(self)@.loaded_icons == old(self)@.loaded_icons,
            final(self)@.preferred.path() == old(self)@.preferred.path(),
            final(self)@.preferred.ceiling() == old(self)@.preferred.ceiling(),
            match old(self)@.matches[selected as int].0.application_type {
                ApplicationType::DesktopFile => {
                    &&& final(self)@.preferred@ == bumped(
                        old(self)@.preferred@,
                        old(self)@.matches[selected as int].0.name,
                        old(self)@.preferred.ceiling(),
                    )
                    &&& selection matches Selection::Launch { preferences, command }
                    &&& preferences.path@ == old(self)@.preferred.path()
                    &&& preferences.contents@ == encoded_weights(final(self)@.preferred.entries())
                    &&& command.program@ == program_of(
                        old(self)@.matches[selected as int].0.command,
                    )
                    &&& command.arguments.deep_view() == arguments_of(
                        old(self)@.matches[selected as int].0.command,
                    )
                },
                ApplicationType::Stdout => {
                    &&& final(self)@.preferred == old(self)@.preferred
                    &&& selection matches Selection::Print { line }
                    &&& line@ == old(self)@.matches[selected as int].0.command
                },
            },
    {
        self.instance.release();
        let selected_match = &self.matches[selected].0;
        match selected_match.application_type {
            ApplicationType::DesktopFile => {
                self.preferred_applications.update_preferrence(selected_match);
                let preferences = self.preferred_applications.save();
                let command = selected_match.run(false);
                Selection::Launch { preferences, command }
            },
            ApplicationType::Stdout => Selection::Print { line: selected_match.command.clone() },
        }
    }

    /// The icon names to look up for the next `amount` applications, one for each
    /// application that has its turn, in their order: `None` for an application
    /// without an icon name. Each name is to be looked up in the icon theme of
    /// the manager and in the size `ICON_SIZE`.
    pub fn pending_icon_names(&self, amount: usize) -> (names: Vec<Option<String>>)
        ensures
            names.deep_view() == pending_names(self@, amount),
            names.len() == batch_len(
                self@.loaded_icons as int,
                amount as int,
                self@.applications.len() as int,
            ),
    {
        let from = self.loaded_icons;
        let len = self.applications.len();
        let mut names: Vec<Option<String>> = Vec::new();
        if from >= len {
            assert(names.deep_view() =~= pending_names(self@, amount));
            return names;
        }
        let last = if amount >= len - from {
            len
        } else {
            from + amount
        };
        let mut i: usize = from;
        while i < last
            invariant
                from <= i <= last <= self.applications.len(),
                names.len() == i - from,
                forall|t: int|
                    0 <= t < names.len() ==> (#[trigger] names[t]).deep_view()
                        == self.applications[from + t]@.icon_name,
            decreases last - i,
        {
            names.push(copy_of(&self.applications[i].icon_name));
            i += 1;
        }
        assert(names.deep_view() =~= pending_names(self@, amount));
        names
    }

    /// Gives the next `amount` applications their icon paths, where `found` holds
    /// what the lookup of each gave, in the order of `pending_icon_names`, and
    /// shows them on the shortlist: an entry gets the icon path of each
    /// application of its name in the batch, in turn. An application without an
    /// icon name gets no icon path, whatever was found. The cursor moves on by
    /// `amount`. Says whether the cursor has reached the end of the list; from
    /// then on a call changes nothing and says so again.
    pub fn load_next_icons(
        &mut self,
        amount: usize,
        found: &Vec<Option<String>>,
    ) -> (is_done: bool)
        requires
            found.len() == batch_len(
                old(self)@.loaded_icons as int,
                amount as int,
                old(self)@.applications.len() as int,
            ),
        ensures
            final(self)@ == after_icons(old(self)@, amount, found.deep_view()),
            is_done == done_after(old(self)@, amount),
            is_done ==> final(self)@.loaded_icons >= final(self)@.applications.len(),
            old(self)@.loaded_icons >= old(self)@.applications.len() ==> is_done && final(self)@
                == old(self)@,
            awaits_icons(old(self)@) ==> {
                &&& awaits_icons(final(self)@)
                &&& forall|i: int|
                    0 <= i < old(self)@.applications.len() && (#[trigger] old(
                        self,
                    )@.applications[i]).icon_path is Some ==> final(self)@.applications[i] == old(
                        self,
                    )@.applications[i]
            },
    {
        let from = self.loaded_icons;
        let len = self.applications.len();
        if from >= len {
            return true;
        }
        let ghost given = self.applications.deep_view();
        let ghost listed = self.matches.deep_view();
        let ghost outcomes = found.deep_view();
        let mut t: usize = 0;
        proof {
            assert(self.applications.deep_view() =~= with_icons(
                given,
                from as int,
                outcomes.take(0),
            ));
            assert(batch_of(given, from as int, outcomes.take(0)) =~= Seq::<
                ApplicationView,
            >::empty());
        }
        while t < found.len()
            invariant
                0 <= t <= found.len(),
                from + found.len() <= given.len(),
                from == self.loaded_icons,
                outcomes == found.deep_view(),
                self.applications.len() == given.len(),
                self.matches.len() == listed.len(),
                self.applications.deep_view() == with_icons(
                    given,
                    from as int,
                    outcomes.take(t as int),
                ),
                self.matches.deep_view() == propagated(
                    listed,
                    batch_of(given, from as int, outcomes.take(t as int)),
                ),
                self.icon_theme@ == old(self).icon_theme@,
                self.instance == old(self).instance,
                self.preferred_applications == old(self).preferred_applications,
            decreases found.len() - t,
        {
            let mut application = self.applications[from + t].clone();
            let ghost before = self.applications.deep_view();
            assert(application@ == given[from + t]) by {
                assert(before[from + t] == given[from + t]);
            }
            application.icon_path = if application.icon_name.is_some() {
                copy_of(&found[t])
            } else {
                None
            };
            assert(application@ == resolved(given[from + t], outcomes[t as int]));
            let ghost batch = batch_of(given, from as int, outcomes.take(t + 1));
            let ghost shown = self.matches.deep_view();
            proof {
                assert(batch.drop_last() =~= batch_of(given, from as int, outcomes.take(t as int)));
                assert(batch.last() == application@);
            }
            let mut k: usize = 0;
            while k < self.matches.len()
                invariant
                    0 <= k <= self.matches.len(),
                    self.matches.len() == shown.len(),
                    self.applications.deep_view() == before,
                    from == self.loaded_icons,
                    forall|q: int|
                        0 <= q < k ==> (#[trigger] self.matches[q]).deep_view() == shown_with(
                            shown[q],
                            application@,
                        ),
                    forall|q: int|
                        k <= q < shown.len() ==> (#[trigger] self.matches[q]).deep_view()
                            == shown[q],
                    self.icon_theme@ == old(self).icon_theme@,
                    self.instance == old(self).instance,
                    self.preferred_applications == old(self).preferred_applications,
                decreases self.matches.len() - k,
            {
                if self.matches[k].0.name == application.name {
                    let mut entry = self.matches[k].0.clone();
                    let score = self.matches[k].1;
                    entry.icon_path = copy_of(&application.icon_path);
                    self.matches.set(k, (entry, score));
                }
                k += 1;
            }
            assert(self.matches.deep_view() =~= Seq::new(
                shown.len(),
                |q: int| shown_with(shown[q], application@),
            ));
            self.applications.set(from + t, application);
            proof {
                let now = with_icons(given, from as int, outcomes.take(t + 1));
                assert(self.applications.deep_view() =~= before.update(from + t, application@));
                assert forall|i: int| 0 <= i < given.len() implies #[trigger] now[i]
                    == before.update(from + t, application@)[i] by {
                    if from <= i < from + t {
                        assert(outcomes.take(t + 1)[i - from] == outcomes.take(t as int)[i - from]);
                    } else if i == from + t {
                        assert(outcomes.take(t + 1)[i - from] == outcomes[t as int]);
                    }
                }
                assert(now =~= before.update(from + t, application@));
            }
            t += 1;
        }
        assert(outcomes.take(found.len() as int) == outcomes);
        self.loaded_icons = from.saturating_add(amount);
        proof {
            if awaits_icons(old(self)@) {
                assert forall|i: int|
                    0 <= i < old(self)@.applications.len() && (#[trigger] old(
                        self,
                    )@.applications[i]).icon_path is Some implies self@.applications[i] == old(
                    self,
                )@.applications[i] by {
                    law_icon_paths_never_regress(old(self)@, amount, outcomes, i);
                }
                law_icon_paths_never_regress(old(self)@, amount, outcomes, 0);
            }
        }
        amount >= len - from
    }

    /// The shortlist of the last query, best match first.
    pub fn matches(&self) -> (matches: &Vec<Match>)
        ensures
            matches.deep_view() == self@.matches,
    {
        &self.matches
    }

    /// How many applications had their turn at the icon lookup.
    pub fn loaded_icons(&self) -> (loaded: usize)
        ensures
            loaded == self@.loaded_icons,
    {
        self.loaded_icons
    }

    /// The applications, in their fixed order.
    pub fn applications(&self) -> (applications: &Vec<Application>)
        ensures
            applications.deep_view() == self@.applications,
    {
        &self.applications
    }

    /// The learned preferences.
    pub fn preferred_applications(&self) -> (preferred: &PreferredApps)
        ensures
            *preferred == self@.preferred,
    {
        &self.preferred_applications
    }

    /// The icon theme that icons are looked up in.
    pub fn icon_theme(&self) -> (theme: &String)
        ensures
            theme@ == self@.icon_theme,
    {
        &self.icon_theme
    }

    /// Whether the manager still holds the launcher's lock.
    pub fn holds_instance(&self) -> (held: bool)
        ensures
            held == self@.holds_instance,
    {
        self.instance.is_held()
    }
}

impl Default for ApplicationManager {
    /// A manager of no applications, without lock, icon theme or preferences.
    fn default() -> (manager: Self)
        ensures
            manager@.applications.len() == 0,
            manager@.matches.len() == 0,
            manager@.icon_theme.len() == 0,
            manager@.loaded_icons == 0,
            !manager@.holds_instance,
            manager@.preferred.path().len() == 0,
            manager@.preferred.ceiling() == 0,
            manager@.preferred@ == Map::<Seq<char>, i64>::empty(),
    {
        ApplicationManager {
            applications: Vec::new(),
            matches: Vec::new(),
            icon_theme: String::new(),
            loaded_icons: 0,
            instance: InstanceGuard::default(),
            preferred_applications: PreferredApps::default(),
        }
    }
}

/// Where every application has a score, the shortlist has an entry for each.
proof fn lemma_all_scored_are_candidates(
    applications: Seq<ApplicationView>,
    scores: Seq<Option<i64>>,
    weights: Map<Seq<char>, i64>,
)
    requires
        applications.len() == scores.len(),
        forall|i: int| 0 <= i < scores.len() ==> (#[trigger] scores[i]) is Some,
    ensures
        candidates(applications, scores, weights).len() == applications.len(),
    decreases applications.len(),
{
    if applications.len() > 0 {
        assert(scores[scores.len() - 1] is Some);
        assert forall|i: int| 0 <= i < scores.drop_last().len() implies (
        #[trigger] scores.drop_last()[i]) is Some by {
            assert(scores[i] is Some);
        }
        lemma_all_scored_are_candidates(applications.drop_last(), scores.drop_last(), weights);
    }
}

} // verus!
