//! One launchable entry, and how its command becomes a program and arguments.

use crate::stable::{
    arranged, is_stable_order, is_total, is_transitive, law_sort_is_stable,
    lemma_insert_stable_at, lemma_move_forward, lemma_sort_stable_items,
    lemma_sort_stable_ordered, order_of, sort_stable,
};
use crate::text::{
    lemma_lex_le_total, lemma_lex_le_transitive, lemma_split_has_a_piece, lex_le, lex_le_text,
    split, split_text, trim_matches, trim_matches_text,
};
use vstd::prelude::*;
use vstd::string::*;

verus! {

/// What selecting an application does.
#[derive(Clone, Copy, PartialEq, Eq, Structural, Hash, Debug, Default)]
pub enum ApplicationType {
    /// Found in a desktop descriptor: selecting it starts its command.
    #[default]
    DesktopFile,
    /// Handed in by the caller: selecting it hands its text back.
    Stdout,
}

/// A specific application found on the system.
#[derive(PartialEq, Eq, Hash, Debug)]
pub struct Application {
    /// The name shown and searched for. Two applications may share it.
    pub name: String,
    /// The command line to start, as the descriptor gives it, or the text itself
    /// for an application handed in by the caller.
    pub command: String,
    /// Where the icon lies, once it was looked up and found.
    pub icon_path: Option<String>,
    /// The icon's name in the icon theme, if the descriptor gives one.
    pub icon_name: Option<String>,
    pub application_type: ApplicationType,
}

/// An application as plain values.
pub struct ApplicationView {
    pub name: Seq<char>,
    pub command: Seq<char>,
    pub icon_path: Option<Seq<char>>,
    pub icon_name: Option<Seq<char>>,
    pub application_type: ApplicationType,
}

impl View for Application {
    type V = ApplicationView;

    open spec fn view(&self) -> ApplicationView {
        ApplicationView {
            name: self.name@,
            command: self.command@,
            icon_path: self.icon_path.deep_view(),
            icon_name: self.icon_name.deep_view(),
            application_type: self.application_type,
        }
    }
}

impl DeepView for Application {
    type V = ApplicationView;

    open spec fn deep_view(&self) -> ApplicationView {
        self@
    }
}

/// A program and the arguments it is started with.
#[derive(PartialEq, Eq, Debug)]
pub struct CommandLine {
    pub program: String,
    pub arguments: Vec<String>,
}

/// Whether a token of a command is handed to the program: it is not empty and
/// is no field code, which starts with `%`.
pub open spec fn is_argument(token: Seq<char>) -> bool {
    token.len() > 0 && token[0] != '%'
}

/// The tokens that are handed to the program, in their order.
pub open spec fn arguments_among(tokens: Seq<Seq<char>>) -> Seq<Seq<char>>
    decreases tokens.len(),
{
    if tokens.len() == 0 {
        tokens
    } else if is_argument(tokens.last()) {
        arguments_among(tokens.drop_last()).push(tokens.last())
    } else {
        arguments_among(tokens.drop_last())
    }
}

/// The program that a command starts: its first token between spaces, without
/// the quotes around it.
pub open spec fn program_of(command: Seq<char>) -> Seq<char> {
    trim_matches(split(command, ' ')[0], '"')
}

/// The arguments that a command hands to its program: the tokens after the
/// first, without the empty ones and the field codes.
pub open spec fn arguments_of(command: Seq<char>) -> Seq<Seq<char>> {
    arguments_among(split(command, ' ').skip(1))
}

/// A copy of a text that may be absent.
pub fn copy_of(text: &Option<String>) -> (r: Option<String>)
    ensures
        r.deep_view() == text.deep_view(),
{
    match text {
        Some(s) => Some(s.clone()),
        None => None,
    }
}

impl Clone for Application {
    fn clone(&self) -> (r: Self)
        ensures
            r@ == self@,
    {
        Application {
            name: self.name.clone(),
            command: self.command.clone(),
            icon_path: copy_of(&self.icon_path),
            icon_name: copy_of(&self.icon_name),
            application_type: self.application_type,
        }
    }
}

impl Default for Application {
    fn default() -> (r: Self)
        ensures
            r@.name.len() == 0,
            r@.command.len() == 0,
            r@.icon_path is None,
            r@.icon_name is None,
            r@.application_type == ApplicationType::DesktopFile,
    {
        Application {
            name: String::new(),
            command: String::new(),
            icon_path: None,
            icon_name: None,
            application_type: ApplicationType::DesktopFile,
        }
    }
}

impl Application {
    /// The application that a descriptor with this name and command describes.
    pub fn desktop_entry(name: String, command: String, icon_name: Option<String>) -> (r: Self)
        ensures
            r@ == (ApplicationView {
                name: name@,
                command: command@,
                icon_path: None,
                icon_name: icon_name.deep_view(),
                application_type: ApplicationType::DesktopFile,
            }),
    {
        Application {
            name,
            command,
            icon_path: None,
            icon_name,
            application_type: ApplicationType::DesktopFile,
        }
    }

    /// The application that stands for a text handed in by the caller: the text
    /// is its name and its command, and it has no icon.
    pub fn literal(text: String) -> (r: Self)
        ensures
            r@ == (ApplicationView {
                name: text@,
                command: text@,
                icon_path: None,
                icon_name: None,
                application_type: ApplicationType::Stdout,
            }),
    {
        let command = text.clone();
        Application {
            name: text,
            command,
            icon_path: None,
            icon_name: None,
            application_type: ApplicationType::Stdout,
        }
    }

    /// What to start for this application: the program and its arguments, taken
    /// from the command. Whether the launcher quits afterwards does not change
    /// them.
    pub fn run(&self, quit: bool) -> (line: CommandLine)
        ensures
            line.program@ == program_of(self@.command),
            line.arguments.deep_view() == arguments_of(self@.command),
    {
        let tokens = split_text(self.command.as_str(), ' ');
        proof {
            lemma_split_has_a_piece(self.command@, ' ');
        }
        let program = trim_matches_text(tokens[0].as_str(), '"');
        let mut arguments: Vec<String> = Vec::new();
        let mut i: usize = 1;
        proof {
            assert(tokens.deep_view().skip(1).take(0) == Seq::<Seq<char>>::empty());
            assert(arguments.deep_view() == Seq::<Seq<char>>::empty());
        }
        while i < tokens.len()
            invariant
                1 <= i <= tokens.len(),
                arguments.deep_view() == arguments_among(
                    tokens.deep_view().skip(1).take(i - 1),
                ),
            decreases tokens.len() - i,
        {
            let token = &tokens[i];
            let ghost rest = tokens.deep_view().skip(1);
            proof {
                assert(rest.take(i as int).drop_last() == rest.take(i - 1));
                assert(rest.take(i as int).last() == token@);
            }
            if !token.as_str().is_empty() && token.as_str().get_char(0) != '%' {
                let ghost before = arguments.deep_view();
                arguments.push(token.clone());
                assert(arguments.deep_view() == before.push(token@));
            }
            i += 1;
        }
        proof {
            let rest = tokens.deep_view().skip(1);
            assert(rest.take(tokens.len() - 1) == rest);
        }
        CommandLine { program, arguments }
    }
}

/// The order of the application list: by name, in the order of the code points.
pub open spec fn by_name() -> spec_fn(ApplicationView, ApplicationView) -> bool {
    |a: ApplicationView, b: ApplicationView| lex_le(a.name, b.name)
}

/// The order by name compares any two applications and carries over a middle
/// one.
pub proof fn lemma_by_name_is_an_order()
    ensures
        is_total(by_name()),
        is_transitive(by_name()),
{
    assert forall|a: ApplicationView, b: ApplicationView| #[trigger]
        by_name()(a, b) || #[trigger] by_name()(b, a) by {
        lemma_lex_le_total(a.name, b.name);
    }
    assert forall|a: ApplicationView, b: ApplicationView, c: ApplicationView| #[trigger]
        by_name()(a, b) && #[trigger] by_name()(b, c) implies #[trigger] by_name()(a, c) by {
        lemma_lex_le_transitive(a.name, b.name, c.name);
    }
}

/// Sorting by name keeps every application, as often as it occurs, puts the
/// names in order, and leaves applications of one name in the order they had.
pub proof fn law_sorted_by_name(applications: Seq<ApplicationView>)
    ensures
        sort_stable(applications, by_name()).to_multiset() == applications.to_multiset(),
        sort_stable(applications, by_name()).len() == applications.len(),
        forall|i: int, j: int|
            0 <= i < j < applications.len() ==> lex_le(
                (#[trigger] sort_stable(applications, by_name())[i]).name,
                (#[trigger] sort_stable(applications, by_name())[j]).name,
            ),
        sort_stable(applications, by_name()) == arranged(
            applications,
            order_of(applications, by_name()),
        ),
        is_stable_order(
            applications,
            by_name(),
            order_of(applications, by_name()),
            applications.len() as int,
        ),
{
    let sorted = sort_stable(applications, by_name());
    lemma_sort_stable_items(applications, by_name());
    lemma_by_name_is_an_order();
    law_sort_is_stable(applications, by_name());
    lemma_sort_stable_ordered(applications, by_name());
    assert forall|i: int, j: int| 0 <= i < j < applications.len() implies lex_le(
        (#[trigger] sorted[i]).name,
        (#[trigger] sorted[j]).name,
    ) by {
        assert(by_name()(sorted[i], sorted[j]));
    }
}

/// Sorts the applications by name. Applications of the same name stay in the
/// order they had.
pub fn sort_by_name(applications: &mut Vec<Application>)
    ensures
        final(applications).deep_view() == sort_stable(old(applications).deep_view(), by_name()),
{
    let ghost given = applications.deep_view();
    let mut i: usize = 0;
    proof {
        assert(given.take(0) + given.skip(0) == given);
        assert(sort_stable(given.take(0), by_name()) == given.take(0));
    }
    while i < applications.len()
        invariant
            0 <= i <= applications.len(),
            applications.len() == given.len(),
            applications.deep_view() == sort_stable(given.take(i as int), by_name()) + given.skip(
                i as int,
            ),
        decreases applications.len() - i,
    {
        let ghost sorted = sort_stable(given.take(i as int), by_name());
        let ghost all = applications.deep_view();
        proof {
            lemma_sort_stable_items(given.take(i as int), by_name());
            assert(sorted.len() == i);
            assert(all[i as int] == given[i as int]);
        }
        let ghost item = given[i as int];
        let mut at: usize = i;
        while at > 0 && !lex_le_text(
            applications[at - 1].name.as_str(),
            applications[i].name.as_str(),
        )
            invariant
                0 <= at <= i < applications.len(),
                all == applications.deep_view(),
                all[i as int] == item,
                forall|k: int| at <= k < i ==> !#[trigger] by_name()(all[k], item),
            decreases at,
        {
            assert(!by_name()(all[at - 1], item));
            at -= 1;
        }
        proof {
            assert(all.take(i as int) == sorted);
            if at > 0 {
                assert(by_name()(sorted[at - 1], item));
            }
            assert forall|k: int| at <= k < sorted.len() implies !#[trigger] by_name()(
                sorted[k],
                item,
            ) by {
                assert(!by_name()(all[k], item));
            }
            lemma_insert_stable_at(sorted, item, by_name(), at as int);
            assert(given.take(i + 1).drop_last() == given.take(i as int));
            assert(given.take(i + 1).last() == item);
        }
        let moved = applications.remove(i);
        assert(applications.deep_view() =~= all.remove(i as int));
        applications.insert(at, moved);
        assert(applications.deep_view() =~= all.remove(i as int).insert(at as int, item));
        proof {
            lemma_move_forward(all, i as int, at as int);
            assert(all.take(i as int) == sorted);
            assert(all.skip(i + 1) == given.skip(i + 1));
        }
        i += 1;
    }
    proof {
        assert(given.take(given.len() as int) == given);
        assert(sort_stable(given, by_name()) + given.skip(given.len() as int) == sort_stable(
            given,
            by_name(),
        ));
    }
}

} // verus!
