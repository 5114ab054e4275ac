use aphorme::application::{Application, ApplicationType};
use aphorme::config::{AppCFG, PrefCFG};
use aphorme::scanner::{
    application_from_attributes, application_from_file, collect_applications,
    is_descriptor_name, scan_paths, FoundFile,
};

fn file(name: &str, contents: &str) -> FoundFile {
    FoundFile { name: name.to_string(), contents: Some(contents.as_bytes().to_vec()) }
}

fn text(value: &str) -> Option<String> {
    Some(value.to_string())
}

fn names(applications: &[Application]) -> Vec<&str> {
    applications.iter().map(|a| a.name.as_str()).collect()
}

#[test]
fn two_directories_one_visible_application() {
    let a = vec![file("app1.desktop", "[Desktop Entry]\nName=Foo\nExec=foo --bar\n")];
    let b = vec![file("app2.desktop", "[Desktop Entry]\nNoDisplay=true\n")];
    let found = collect_applications(&vec![Some(a), Some(b)]);
    assert_eq!(found.len(), 1);
    assert_eq!(found[0].name, "Foo");
    assert_eq!(found[0].command, "foo --bar");
    assert_eq!(found[0].icon_name, None);
    assert_eq!(found[0].icon_path, None);
    assert_eq!(found[0].application_type, ApplicationType::DesktopFile);
}

#[test]
fn a_hidden_descriptor_is_skipped_though_it_is_complete() {
    let files = vec![
        file("hidden.desktop", "[Desktop Entry]\nName=Hidden\nExec=hidden\nNoDisplay=true\n"),
        file("shown.desktop", "[Desktop Entry]\nName=Shown\nExec=shown\nNoDisplay=false\n"),
    ];
    let found = collect_applications(&vec![Some(files)]);
    assert_eq!(names(&found), vec!["Shown"]);
}

#[test]
fn only_the_exact_value_true_hides() {
    let files = vec![
        file("a.desktop", "[Desktop Entry]\nName=A\nExec=a\nNoDisplay=True\n"),
        file("b.desktop", "[Desktop Entry]\nName=B\nExec=b\nNoDisplay=1\n"),
        file("c.desktop", "[Desktop Entry]\nName=C\nExec=c\nNoDisplay=true\n"),
    ];
    let found = collect_applications(&vec![Some(files)]);
    assert_eq!(names(&found), vec!["A", "B"]);
}

#[test]
fn a_descriptor_without_name_or_command_is_skipped_and_its_siblings_are_not() {
    let files = vec![
        file("first.desktop", "[Desktop Entry]\nName=First\nExec=first\n"),
        file("noname.desktop", "[Desktop Entry]\nExec=noname\n"),
        file("noexec.desktop", "[Desktop Entry]\nName=NoExec\nIcon=x\n"),
        file("last.desktop", "[Desktop Entry]\nName=Last\nExec=last\n"),
    ];
    let found = collect_applications(&vec![Some(files)]);
    assert_eq!(names(&found), vec!["First", "Last"]);
}

#[test]
fn a_file_that_does_not_parse_is_skipped_and_its_siblings_are_not() {
    let files = vec![
        file("broken.desktop", "this is no descriptor"),
        file("empty.desktop", ""),
        file("headless.desktop", "Name=Foo\nExec=foo\n"),
        file("good.desktop", "[Desktop Entry]\nName=Good\nExec=good\n"),
    ];
    let found = collect_applications(&vec![Some(files)]);
    assert_eq!(names(&found), vec!["Good"]);
}

#[test]
fn bytes_that_are_no_text_are_skipped() {
    let broken = FoundFile {
        name: "binary.desktop".to_string(),
        contents: Some(vec![b'[', b'D', b']', b'\n', b'N', b'=', 0xff, 0xfe, b'\n']),
    };
    let files = vec![broken, file("good.desktop", "[Desktop Entry]\nName=Good\nExec=good\n")];
    let found = collect_applications(&vec![Some(files)]);
    assert_eq!(names(&found), vec!["Good"]);
}

#[test]
fn files_of_other_endings_are_ignored() {
    let files = vec![
        file("notes.txt", "[Desktop Entry]\nName=Notes\nExec=notes\n"),
        file("app.desktop.bak", "[Desktop Entry]\nName=Backup\nExec=backup\n"),
        file("mimeinfo.cache", "[MIME Cache]\na=b\n"),
        file("real.desktop", "[Desktop Entry]\nName=Real\nExec=real\n"),
    ];
    let found = collect_applications(&vec![Some(files)]);
    assert_eq!(names(&found), vec!["Real"]);
}

#[test]
fn a_file_that_could_not_be_read_is_skipped() {
    let files = vec![
        FoundFile { name: "locked.desktop".to_string(), contents: None },
        file("open.desktop", "[Desktop Entry]\nName=Open\nExec=open\n"),
    ];
    let found = collect_applications(&vec![Some(files)]);
    assert_eq!(names(&found), vec!["Open"]);
}

#[test]
fn a_directory_that_could_not_be_listed_is_skipped() {
    let first = vec![file("a.desktop", "[Desktop Entry]\nName=A\nExec=a\n")];
    let last = vec![file("b.desktop", "[Desktop Entry]\nName=B\nExec=b\n")];
    let found = collect_applications(&vec![Some(first), None, Some(vec![]), Some(last)]);
    assert_eq!(names(&found), vec!["A", "B"]);
}

#[test]
fn applications_come_in_the_order_of_directories_and_files() {
    let first = vec![
        file("z.desktop", "[Desktop Entry]\nName=Zed\nExec=z\n"),
        file("a.desktop", "[Desktop Entry]\nName=Ada\nExec=a\n"),
    ];
    let second = vec![file("m.desktop", "[Desktop Entry]\nName=Moe\nExec=m\n")];
    let found = collect_applications(&vec![Some(first), Some(second)]);
    assert_eq!(names(&found), vec!["Zed", "Ada", "Moe"]);
}

#[test]
fn scanning_nothing_finds_nothing() {
    assert!(collect_applications(&vec![]).is_empty());
    assert!(collect_applications(&vec![None]).is_empty());
}

#[test]
fn the_icon_attribute_becomes_the_icon_name() {
    let f = file(
        "firefox.desktop",
        "[Desktop Entry]\nVersion=1.0\nName=Firefox\nGenericName=Web Browser\nGenericName[de]=Browser\nExec=/usr/lib/firefox/firefox %u\nIcon=firefox\n\n[Desktop Action new-window]\nName=New Window\nExec=/usr/lib/firefox/firefox --new-window %u\n",
    );
    let app = application_from_file(&f);
    assert_eq!(
        app,
        Some(Application {
            name: "Firefox".to_string(),
            command: "/usr/lib/firefox/firefox %u".to_string(),
            icon_path: None,
            icon_name: Some("firefox".to_string()),
            application_type: ApplicationType::DesktopFile,
        })
    );
}

#[test]
fn attributes_of_other_sections_do_not_count() {
    let f = file("other.desktop", "[Other Section]\nName=Foo\nExec=foo\n");
    assert_eq!(application_from_file(&f), None);
}

#[test]
fn a_name_with_a_locale_only_is_no_name() {
    let f = file("localised.desktop", "[Desktop Entry]\nName[de]=Nur Deutsch\nExec=foo\n");
    assert_eq!(application_from_file(&f), None);
}

#[test]
fn comments_and_blank_lines_are_passed_over() {
    let f = file(
        "commented.desktop",
        "# a comment\n\n[Desktop Entry]\n# another\nName=Foo\n\nExec=foo\n",
    );
    let app = application_from_file(&f);
    assert_eq!(app.map(|a| (a.name, a.command)), Some(("Foo".to_string(), "foo".to_string())));
}

#[test]
fn attributes_decide_as_the_rules_say() {
    let app = application_from_attributes(None, text("Foo"), text("foo"), text("icon"));
    assert_eq!(
        app,
        Some(Application::desktop_entry("Foo".to_string(), "foo".to_string(), text("icon")))
    );
    assert_eq!(application_from_attributes(text("true"), text("Foo"), text("foo"), None), None);
    assert_eq!(application_from_attributes(None, None, text("foo"), None), None);
    assert_eq!(application_from_attributes(None, text("Foo"), None, None), None);
    assert_eq!(application_from_attributes(None, None, None, None), None);
    assert!(application_from_attributes(text("false"), text("Foo"), text("foo"), None).is_some());
    assert!(application_from_attributes(text(""), text("Foo"), text("foo"), None).is_some());
}

#[test]
fn descriptor_names_end_in_desktop() {
    assert!(is_descriptor_name("firefox.desktop"));
    assert!(is_descriptor_name(".desktop"));
    assert!(!is_descriptor_name("firefox.desktop~"));
    assert!(!is_descriptor_name("firefox"));
    assert!(!is_descriptor_name(""));
}

fn settings(paths: &[&str], use_default_paths: Option<bool>) -> AppCFG {
    AppCFG {
        paths: paths.iter().map(|p| p.to_string()).collect(),
        use_default_paths,
        preferred_apps: PrefCFG { max_weight: 10 },
    }
}

#[test]
fn default_paths_follow_the_configured_ones() {
    let paths = scan_paths(&settings(&["/opt/apps", "$HOME/apps"], Some(true)), Some("/home/u"));
    assert_eq!(
        paths,
        vec![
            "/opt/apps",
            "/home/u/apps",
            "/usr/share/applications",
            "/usr/local/share/applications",
            "/home/u/.local/share/applications",
            "/var/lib/flatpak/exports/share/applications",
            "/run/current-system/sw/share/applications",
            "/home/u/.local/state/home-manager/gcroots/current-home/home-path/share/applications",
        ]
    );
}

#[test]
fn unset_means_default_paths_are_used() {
    let paths = scan_paths(&settings(&[], None), Some("/home/u"));
    assert_eq!(paths.len(), 6);
    assert_eq!(paths[0], "/usr/share/applications");
}

#[test]
fn default_paths_can_be_switched_off() {
    let paths = scan_paths(&settings(&["/opt/apps"], Some(false)), Some("/home/u"));
    assert_eq!(paths, vec!["/opt/apps"]);
    assert!(scan_paths(&settings(&[], Some(false)), None).is_empty());
}

#[test]
fn without_a_home_directory_the_token_stays() {
    let paths = scan_paths(&settings(&["$HOME/apps"], Some(true)), None);
    assert_eq!(paths[0], "$HOME/apps");
    assert_eq!(paths[3], "$HOME/.local/share/applications");
    assert_eq!(paths.len(), 7);
}
