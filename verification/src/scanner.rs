//! Discovery of applications: which directories are scanned, and which of the
//! files found in them describe an application.
//!
//! Listing a directory and reading a file are left to the caller, which hands
//! in what it found; parsing a descriptor is done here.

use crate::application::{Application, ApplicationType, ApplicationView};
use crate::config::AppCFG;
use crate::preferences::HOME_TOKEN;
use crate::text::{ends_with, ends_with_text, replace_all, replace_all_text, same_text};
use freedesktop_entry_parser::Entry;
use vstd::prelude::*;
use vstd::string::*;

verus! {

/// The ending of the name of a desktop descriptor.
pub const DESKTOP_SUFFIX: &'static str = ".desktop";

/// The section of a descriptor that describes the application.
pub const DESKTOP_ENTRY: &'static str = "Desktop Entry";

/// The attribute that holds the name of the application.
pub const NAME: &'static str = "Name";

/// The attribute that holds the command line of the application.
pub const EXEC: &'static str = "Exec";

/// The attribute that holds the name of the icon.
pub const ICON: &'static str = "Icon";

/// The attribute that says whether the application is kept off the list.
pub const NO_DISPLAY: &'static str = "NoDisplay";

/// The value of `NoDisplay` that keeps an application off the list.
pub const HIDDEN: &'static str = "true";

/// A file found in a scanned directory.
#[derive(PartialEq, Eq, Debug)]
pub struct FoundFile {
    /// The name of the file, without the directory.
    pub name: String,
    /// What the file holds, or `None` where it could not be read.
    pub contents: Option<Vec<u8>>,
}

/// A found file as plain values.
pub struct FoundFileView {
    pub name: Seq<char>,
    pub contents: Option<Seq<u8>>,
}

impl View for FoundFile {
    type V = FoundFileView;

    open spec fn view(&self) -> FoundFileView {
        FoundFileView {
            name: self.name@,
            contents: match self.contents {
                Some(bytes) => Some(bytes@),
                None => None,
            },
        }
    }
}

impl DeepView for FoundFile {
    type V = FoundFileView;

    open spec fn deep_view(&self) -> FoundFileView {
        self@
    }
}

/// The attributes of a descriptor: the value of each attribute that has one
/// without a locale, by the name of its section and its own name.
pub type Attributes = Map<(Seq<char>, Seq<char>), Seq<char>>;

/// A parsed descriptor of `freedesktop_entry_parser`. Nothing of its inside is
/// known here but through `attributes_of`.
#[verifier::external_type_specification]
#[verifier::external_body]
pub struct ExEntry(Entry);

/// The attributes that a parsed descriptor holds.
pub uninterp spec fn attributes_of(entry: Entry) -> Attributes;

/// The attributes that `freedesktop_entry_parser` reads out of the bytes of a
/// descriptor, `None` where it refuses them.
pub uninterp spec fn parsed_attributes(bytes: Seq<u8>) -> Option<Attributes>;

/// Parses a descriptor with `freedesktop_entry_parser::Entry::parse`. Trusted:
/// whether the bytes parse, and what the parsed descriptor then holds, depends on
/// the bytes alone.
#[verifier::external_body]
fn parse_descriptor(bytes: &Vec<u8>) -> (r: Option<Entry>)
    ensures
        match r {
            Some(entry) => parsed_attributes(bytes@) == Some(attributes_of(entry)),
            None => parsed_attributes(bytes@) is None,
        },
{
    Entry::parse(bytes.as_slice()).ok()
}

/// Looks an attribute up with `Entry::section` and `AttrSelector::attr` of
/// `freedesktop_entry_parser`. Trusted: the result is the value that the parsed
/// descriptor holds for the attribute of that name in that section, `None` where
/// it holds none.
#[verifier::external_body]
fn attribute(entry: &Entry, section: &str, name: &str) -> (r: Option<String>)
    ensures
        r.deep_view() == value_in(attributes_of(*entry), section@, name@),
{
    entry.section(section).attr(name).map(|value| value.to_owned())
}

/// The value of the attribute `name` in `section`, if there is one.
pub open spec fn value_in(attributes: Attributes, section: Seq<char>, name: Seq<char>) -> Option<
    Seq<char>,
> {
    if attributes.contains_key((section, name)) {
        Some(attributes[(section, name)])
    } else {
        None
    }
}

/// The application that a descriptor with these attributes describes: none
/// where `NoDisplay` is `true`, and none where the name or the command is
/// missing.
pub open spec fn described_by(
    no_display: Option<Seq<char>>,
    name: Option<Seq<char>>,
    command: Option<Seq<char>>,
    icon: Option<Seq<char>>,
) -> Option<ApplicationView> {
    if no_display == Some(HIDDEN@) {
        None
    } else {
        match (name, command) {
            (Some(name), Some(command)) => Some(
                ApplicationView {
                    name,
                    command,
                    icon_path: None,
                    icon_name: icon,
                    application_type: ApplicationType::DesktopFile,
                },
            ),
            _ => None,
        }
    }
}

/// The application that the attributes of a descriptor describe.
pub open spec fn described(attributes: Attributes) -> Option<ApplicationView> {
    described_by(
        value_in(attributes, DESKTOP_ENTRY@, NO_DISPLAY@),
        value_in(attributes, DESKTOP_ENTRY@, NAME@),
        value_in(attributes, DESKTOP_ENTRY@, EXEC@),
        value_in(attributes, DESKTOP_ENTRY@, ICON@),
    )
}

/// The application that a found file stands for: none unless its name ends in
/// `.desktop`, it could be read, it parses, and it describes an application.
pub open spec fn application_in(file: FoundFileView) -> Option<ApplicationView> {
    if !ends_with(file.name, DESKTOP_SUFFIX@) {
        None
    } else {
        match file.contents {
            Some(bytes) => match parsed_attributes(bytes) {
                Some(attributes) => described(attributes),
                None => None,
            },
            None => None,
        }
    }
}

/// The applications that the files of one directory stand for, in the order of
/// the files.
pub open spec fn applications_in(files: Seq<FoundFileView>) -> Seq<ApplicationView>
    decreases files.len(),
{
    if files.len() == 0 {
        Seq::empty()
    } else {
        match application_in(files.last()) {
            Some(application) => applications_in(files.drop_last()).push(application),
            None => applications_in(files.drop_last()),
        }
    }
}

/// The applications found in the directories, in the order of the directories.
/// A directory that could not be listed, `None`, adds nothing.
pub open spec fn applications_found(directories: Seq<Option<Seq<FoundFileView>>>) -> Seq<
    ApplicationView,
>
    decreases directories.len(),
{
    if directories.len() == 0 {
        Seq::empty()
    } else {
        applications_found(directories.drop_last()) + match directories.last() {
            Some(files) => applications_in(files),
            None => Seq::empty(),
        }
    }
}

/// The well-known directories of desktop descriptors.
pub open spec fn default_paths() -> Seq<Seq<char>> {
    seq![
        "/usr/share/applications"@,
        "/usr/local/share/applications"@,
        "$HOME/.local/share/applications"@,
        "/var/lib/flatpak/exports/share/applications"@,
        "/run/current-system/sw/share/applications"@,
        "$HOME/.local/state/home-manager/gcroots/current-home/home-path/share/applications"@,
    ]
}

/// The directories to scan: the configured ones, then the well-known ones unless
/// they are switched off, all with `$HOME` replaced by the home directory where
/// that is known.
pub open spec fn paths_to_scan(
    configured: Seq<Seq<char>>,
    use_default_paths: Option<bool>,
    home_dir: Option<Seq<char>>,
) -> Seq<Seq<char>> {
    let listed = if use_default_paths == Some(false) {
        configured
    } else {
        configured + default_paths()
    };
    match home_dir {
        Some(home) => Seq::new(listed.len(), |i: int| replace_all(listed[i], HOME_TOKEN@, home)),
        None => listed,
    }
}

/// A file whose name does not end in `.desktop` stands for no application, and
/// neither does one that could not be read or does not parse. A file that stands
/// for one parses to a descriptor that is not hidden and has a name and a
/// command.
pub proof fn law_only_complete_visible_descriptors(file: FoundFileView)
    ensures
        application_in(file) is Some ==> {
            &&& ends_with(file.name, DESKTOP_SUFFIX@)
            &&& file.contents is Some
            &&& parsed_attributes(file.contents->0) is Some
            &&& value_in(parsed_attributes(file.contents->0)->0, DESKTOP_ENTRY@, NO_DISPLAY@)
                != Some(HIDDEN@)
            &&& value_in(parsed_attributes(file.contents->0)->0, DESKTOP_ENTRY@, NAME@) == Some(
                application_in(file)->0.name,
            )
            &&& value_in(parsed_attributes(file.contents->0)->0, DESKTOP_ENTRY@, EXEC@) == Some(
                application_in(file)->0.command,
            )
        },
{
}

/// A hidden descriptor, and one without a name or without a command, describes
/// no application.
pub proof fn law_hidden_or_incomplete_is_skipped(
    no_display: Option<Seq<char>>,
    name: Option<Seq<char>>,
    command: Option<Seq<char>>,
    icon: Option<Seq<char>>,
)
    ensures
        no_display == Some(HIDDEN@) ==> described_by(no_display, name, command, icon) is None,
        name is None ==> described_by(no_display, name, command, icon) is None,
        command is None ==> described_by(no_display, name, command, icon) is None,
{
}

/// Every application found in a directory stands for one of its files.
pub proof fn law_found_applications_come_from_files(files: Seq<FoundFileView>, k: int)
    requires
        0 <= k < applications_in(files).len(),
    ensures
        exists|i: int|
            0 <= i < files.len() && application_in(#[trigger] files[i]) == Some(
                applications_in(files)[k],
            ),
    decreases files.len(),
{
    let rest = files.drop_last();
    if application_in(files.last()) is Some && k == applications_in(rest).len() {
        assert(application_in(files[files.len() - 1]) == Some(applications_in(files)[k]));
    } else {
        law_found_applications_come_from_files(rest, k);
        let i = choose|i: int|
            0 <= i < rest.len() && application_in(#[trigger] rest[i]) == Some(
                applications_in(rest)[k],
            );
        assert(files[i] == rest[i]);
    }
}

/// The files of a directory are looked at one by one: what is found in a list of
/// files is what is found in its front part followed by what is found in its
/// back part.
pub proof fn law_files_are_independent(front: Seq<FoundFileView>, back: Seq<FoundFileView>)
    ensures
        applications_in(front + back) == applications_in(front) + applications_in(back),
    decreases back.len(),
{
    if back.len() == 0 {
        assert(front + back == front);
        assert(applications_in(front) + Seq::<ApplicationView>::empty() == applications_in(front));
    } else {
        law_files_are_independent(front, back.drop_last());
        assert((front + back).drop_last() == front + back.drop_last());
        assert((front + back).last() == back.last());
        match application_in(back.last()) {
            Some(application) => {
                assert((applications_in(front) + applications_in(back.drop_last())).push(
                    application,
                ) == applications_in(front) + applications_in(back.drop_last()).push(
                    application,
                ));
            },
            None => {},
        }
    }
}

/// A file that stands for no application does not end the scan of its
/// directory: the files around it are found as if it were not there.
pub proof fn law_skipped_file_does_not_stop_the_scan(
    front: Seq<FoundFileView>,
    skipped: FoundFileView,
    back: Seq<FoundFileView>,
)
    requires
        application_in(skipped) is None,
    ensures
        applications_in(front.push(skipped) + back) == applications_in(front + back),
{
    law_files_are_independent(front.push(skipped), back);
    law_files_are_independent(front, back);
    assert(front.push(skipped).drop_last() == front);
}

/// An application that was found has no icon path yet.
pub proof fn lemma_found_without_icon_path(directories: Seq<Option<Seq<FoundFileView>>>, k: int)
    requires
        0 <= k < applications_found(directories).len(),
    ensures
        applications_found(directories)[k].icon_path is None,
    decreases directories.len(),
{
    let earlier = applications_found(directories.drop_last());
    if k < earlier.len() {
        lemma_found_without_icon_path(directories.drop_last(), k);
    } else {
        let files = directories.last()->0;
        law_found_applications_come_from_files(files, k - earlier.len());
    }
}

/// The application that a descriptor with these attributes describes.
pub fn application_from_attributes(
    no_display: Option<String>,
    name: Option<String>,
    command: Option<String>,
    icon: Option<String>,
) -> (r: Option<Application>)
    ensures
        r.deep_view() == described_by(
            no_display.deep_view(),
            name.deep_view(),
            command.deep_view(),
            icon.deep_view(),
        ),
{
    if let Some(value) = no_display {
        if same_text(value.as_str(), HIDDEN) {
            return None;
        }
    }
    match (name, command) {
        (Some(name), Some(command)) => Some(Application::desktop_entry(name, command, icon)),
        _ => None,
    }
}

/// The application that a found file stands for.
pub fn application_from_file(file: &FoundFile) -> (r: Option<Application>)
    ensures
        r.deep_view() == application_in(file@),
{
    if !ends_with_text(file.name.as_str(), DESKTOP_SUFFIX) {
        return None;
    }
    match &file.contents {
        Some(bytes) => match parse_descriptor(bytes) {
            Some(entry) => application_from_attributes(
                attribute(&entry, DESKTOP_ENTRY, NO_DISPLAY),
                attribute(&entry, DESKTOP_ENTRY, NAME),
                attribute(&entry, DESKTOP_ENTRY, EXEC),
                attribute(&entry, DESKTOP_ENTRY, ICON),
            ),
            None => None,
        },
        None => None,
    }
}

/// Whether a file of this name is looked at as a desktop descriptor.
pub fn is_descriptor_name(name: &str) -> (r: bool)
    ensures
        r == ends_with(name@, DESKTOP_SUFFIX@),
{
    ends_with_text(name, DESKTOP_SUFFIX)
}

/// The applications that the found files describe, directory by directory and
/// file by file. A directory that could not be listed is `None`.
pub fn collect_applications(directories: &Vec<Option<Vec<FoundFile>>>) -> (applications: Vec<
    Application,
>)
    ensures
        applications.deep_view() == applications_found(directories.deep_view()),
{
    let mut applications: Vec<Application> = Vec::new();
    let ghost all = directories.deep_view();
    let mut d: usize = 0;
    proof {
        assert(all.take(0) == Seq::<Option<Seq<FoundFileView>>>::empty());
        assert(applications.deep_view() == Seq::<ApplicationView>::empty());
    }
    while d < directories.len()
        invariant
            0 <= d <= directories.len(),
            all == directories.deep_view(),
            applications.deep_view() == applications_found(all.take(d as int)),
        decreases directories.len() - d,
    {
        let ghost before = applications.deep_view();
        proof {
            assert(all.take(d + 1).drop_last() == all.take(d as int));
            assert(all.take(d + 1).last() == all[d as int]);
        }
        match &directories[d] {
            Some(files) => {
                let ghost listed = files.deep_view();
                assert(all[d as int] == Some(listed));
                let mut f: usize = 0;
                proof {
                    assert(listed.take(0) == Seq::<FoundFileView>::empty());
                    assert(before + applications_in(listed.take(0)) == before);
                }
                while f < files.len()
                    invariant
                        0 <= f <= files.len(),
                        listed == files.deep_view(),
                        applications.deep_view() == before + applications_in(
                            listed.take(f as int),
                        ),
                    decreases files.len() - f,
                {
                    proof {
                        assert(listed.take(f + 1).drop_last() == listed.take(f as int));
                        assert(listed.take(f + 1).last() == files[f as int]@);
                    }
                    let ghost so_far = applications.deep_view();
                    if let Some(application) = application_from_file(&files[f]) {
                        applications.push(application);
                        assert(applications.deep_view() == so_far.push(application@));
                        assert(so_far.push(application@) == before + applications_in(
                            listed.take(f as int),
                        ).push(application@));
                    }
                    f += 1;
                }
                proof {
                    assert(listed.take(files.len() as int) == listed);
                }
            },
            None => {
                assert(all[d as int] is None);
                assert(before + Seq::<ApplicationView>::empty() == before);
            },
        }
        d += 1;
    }
    proof {
        assert(all.take(directories.len() as int) == all);
    }
    applications
}

/// The well-known directories of desktop descriptors.
fn default_scan_paths() -> (paths: Vec<String>)
    ensures
        paths.deep_view() == default_paths(),
{
    let mut paths: Vec<String> = Vec::new();
    paths.push("/usr/share/applications".to_owned());
    paths.push("/usr/local/share/applications".to_owned());
    paths.push("$HOME/.local/share/applications".to_owned());
    paths.push("/var/lib/flatpak/exports/share/applications".to_owned());
    paths.push("/run/current-system/sw/share/applications".to_owned());
    let home_manager =
        "$HOME/.local/state/home-manager/gcroots/current-home/home-path/share/applications";
    paths.push(home_manager.to_owned());
    assert(paths.deep_view() =~= default_paths());
    paths
}

/// The directories to scan for a configuration and a home directory, `None`
/// where the home directory is not known.
pub fn scan_paths(config: &AppCFG, home_dir: Option<&str>) -> (paths: Vec<String>)
    ensures
        paths.deep_view() == paths_to_scan(
            config.paths.deep_view(),
            config.use_default_paths,
            match home_dir {
                Some(home) => Some(home@),
                None => None,
            },
        ),
{
    let mut listed: Vec<String> = Vec::new();
    let mut i: usize = 0;
    while i < config.paths.len()
        invariant
            0 <= i <= config.paths.len(),
            listed.deep_view() == config.paths.deep_view().take(i as int),
        decreases config.paths.len() - i,
    {
        let ghost before = listed.deep_view();
        let path = config.paths[i].clone();
        listed.push(path);
        assert(listed.deep_view() == before.push(path@));
        assert(config.paths.deep_view().take(i + 1) == before.push(config.paths[i as int]@));
        i += 1;
    }
    assert(config.paths.deep_view().take(config.paths.len() as int) == config.paths.deep_view());
    let with_defaults = match config.use_default_paths {
        Some(false) => false,
        _ => true,
    };
    if with_defaults {
        let defaults = default_scan_paths();
        let ghost configured = listed.deep_view();
        let mut k: usize = 0;
        while k < defaults.len()
            invariant
                0 <= k <= defaults.len(),
                defaults.deep_view() == default_paths(),
                listed.deep_view() == configured + default_paths().take(k as int),
            decreases defaults.len() - k,
        {
            let ghost before = listed.deep_view();
            let path = defaults[k].clone();
            listed.push(path);
            assert(listed.deep_view() == before.push(path@));
            assert(defaults.deep_view()[k as int] == path@);
            assert(configured + default_paths().take(k + 1) == before.push(path@));
            k += 1;
        }
        assert(default_paths().take(defaults.len() as int) == default_paths());
    }
    match home_dir {
        Some(home) => {
            let mut paths: Vec<String> = Vec::new();
            let mut j: usize = 0;
            while j < listed.len()
                invariant
                    0 <= j <= listed.len(),
                    paths.len() == j,
                    forall|k: int|
                        0 <= k < j ==> (#[trigger] paths[k])@ == replace_all(
                            listed[k]@,
                            HOME_TOKEN@,
                            home@,
                        ),
                decreases listed.len() - j,
            {
                paths.push(replace_all_text(listed[j].as_str(), HOME_TOKEN, home));
                j += 1;
            }
            assert(paths.deep_view() =~= Seq::new(
                listed.deep_view().len(),
                |i: int| replace_all(listed.deep_view()[i], HOME_TOKEN@, home@),
            ));
            paths
        },
        None => listed,
    }
}

} // verus!
