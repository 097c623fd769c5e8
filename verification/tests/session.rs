use gg::config::{icon, set_icon, Icon};
use gg::git::command::GitError;
use gg::git::read::{CommitSummary, Signature, Signing, SigningFormat};
use gg::git::ObjectId;
use gg::ui::launcher::{theme_to_restore, Launcher, Mode};
use gg::ui::menu::Menu;
use gg::ui::session::{
    already_listed, carry, check_rereads, commit_request, landing, commit_text, completions_of, context_items, diff_base,
    directory_added, discovered, forget_repository, launcher_moved, remembered_order,
    repository_warnings, reopened, revision, stored_icon, theme_position, toggle_fold,
    toggled_column, toggled_menu, typed_path, unignored, warning_line, window_title, Action,
    Reopen, Target,
};
use gg::ui::theme::Choice;
use gg::ui::{Columns, Entry, HistoryColumn, LabelKind, Warning};

fn entry(path: &str) -> Entry {
    Entry {
        path: path.to_owned(),
        name: path.rsplit('/').next().unwrap_or(path).to_owned(),
        branch: Ok("main".to_owned()),
    }
}

fn paths(entries: &[Entry]) -> Vec<&str> {
    entries.iter().map(|e| e.path.as_str()).collect()
}

fn strings(items: &[&str]) -> Vec<String> {
    items.iter().map(|i| (*i).to_owned()).collect()
}

fn id(byte: u8) -> ObjectId {
    ObjectId { bytes: vec![byte; 20] }
}

fn summary(byte: u8) -> CommitSummary {
    let who = Signature {
        name: String::new(),
        email: String::new(),
        seconds: 0,
        offset: 0,
    };
    CommitSummary {
        id: id(byte),
        parent: None,
        title: String::new(),
        body: String::new(),
        author: who.clone(),
        committer: who,
        when: String::new(),
    }
}

#[test]
fn a_repository_warns_of_git_that_cannot_run_and_of_a_missing_agent() {
    let signing = Signing {
        signs_commits: true,
        format: SigningFormat::Ssh,
        key: Some("key.pub".to_owned()),
        ssh_agent: None,
    };
    let warnings = repository_warnings(&Err(GitError::Spawn("not found".to_owned())), &signing);
    let lines: Vec<String> = warnings.iter().map(warning_line).collect();
    assert_eq!(
        lines,
        [
            "git cannot run here, so nothing that writes will work: could not run git: not found",
            "commits are set to be signed with the ssh key key.pub, but SSH_AUTH_SOCK is not set here",
        ]
    );
    let calm = Signing {
        signs_commits: false,
        format: SigningFormat::OpenPgp,
        key: None,
        ssh_agent: None,
    };
    assert!(repository_warnings(&Ok("git version 2.45".to_owned()), &calm).is_empty());
    assert!(matches!(
        repository_warnings(&Err(GitError::NotUtf8), &calm).as_slice(),
        [Warning::GitUnusable(message)] if message == "git printed something that is not utf-8"
    ));
}

#[test]
fn the_title_names_the_open_repository() {
    assert_eq!(window_title(Some("gg")), "gg - gg");
    assert_eq!(window_title(None), "gg");
}

#[test]
fn a_copied_message_keeps_the_blank_line_before_its_body() {
    assert_eq!(commit_text("Title", ""), "Title");
    assert_eq!(commit_text("Title", "Body\nmore"), "Title\n\nBody\nmore");
}

#[test]
fn a_commit_needs_a_message() {
    assert_eq!(
        commit_request("   ", "body"),
        Err("type a message before committing".to_owned())
    );
    assert_eq!(
        commit_request("  Fix it \n", "\n details \n"),
        Ok(("Fix it".to_owned(), "details".to_owned()))
    );
}

#[test]
fn a_menu_title_opens_and_closes_its_menu() {
    assert_eq!(toggled_menu(None, Menu::View), Some(Menu::View));
    assert_eq!(toggled_menu(Some(Menu::View), Menu::View), None);
    assert_eq!(toggled_menu(Some(Menu::Help), Menu::View), Some(Menu::View));
}

#[test]
fn a_column_toggles_alone() {
    let all = Columns::default();
    let without_hash = toggled_column(all, HistoryColumn::Hash);
    assert!(!without_hash.hash && without_hash.labels && without_hash.author && without_hash.when);
    assert_eq!(toggled_column(without_hash, HistoryColumn::Hash), all);
}

#[test]
fn a_section_folds_and_unfolds() {
    let mut folded: Vec<String> = Vec::new();
    toggle_fold(&mut folded, "branches");
    toggle_fold(&mut folded, "tags");
    assert_eq!(folded, ["branches", "tags"]);
    toggle_fold(&mut folded, "branches");
    assert_eq!(folded, ["tags"]);
    toggle_fold(&mut folded, "tags");
    assert!(folded.is_empty());
}

#[test]
fn the_launcher_selection_stays_within_its_lines() {
    assert_eq!(launcher_moved(0, -1, 5), 0);
    assert_eq!(launcher_moved(0, 1, 5), 1);
    assert_eq!(launcher_moved(4, 1, 5), 4);
    assert_eq!(launcher_moved(2, -1, 5), 1);
    assert_eq!(launcher_moved(0, 1, 0), 0);
}

#[test]
fn changing_theme_selects_the_one_worn() {
    assert_eq!(theme_position(Choice::System), 0);
    assert_eq!(theme_position(Choice::SolarizedLight), 8);
    let mut launcher = Launcher::default();
    launcher.typed("nix".to_owned());
    assert_eq!(launcher.query, "nix");
    launcher.change_theme(Choice::Nord);
    assert_eq!(launcher.mode, Mode::Themes(Choice::Nord));
    assert!(launcher.query.is_empty());
    assert_eq!(launcher.selected, 5);
    assert_eq!(theme_to_restore(&Some(launcher)), Some(Choice::Nord));
    assert_eq!(theme_to_restore(&Some(Launcher::default())), None);
    assert_eq!(theme_to_restore(&None), None);
}

#[test]
fn a_dragged_repository_lands_where_the_other_stood() {
    let mut entries = vec![entry("/a"), entry("/b"), entry("/c"), entry("/d")];
    assert!(carry(&mut entries, "/a", "/c"));
    assert_eq!(paths(&entries), ["/b", "/c", "/a", "/d"]);
    assert!(carry(&mut entries, "/d", "/b"));
    assert_eq!(paths(&entries), ["/d", "/b", "/c", "/a"]);
    assert!(!carry(&mut entries, "/b", "/b"));
    assert!(!carry(&mut entries, "/x", "/b"));
    assert_eq!(paths(&entries), ["/d", "/b", "/c", "/a"]);
}

#[test]
fn only_remembered_repositories_keep_an_order() {
    let entries = vec![entry("/c"), entry("/configured"), entry("/a")];
    assert_eq!(remembered_order(&entries, &strings(&["/a", "/c"])), ["/c", "/a"]);
}

#[test]
fn the_remembered_directories_offer_what_is_not_listed() {
    let entries = vec![entry("/src/a")];
    let found = vec![strings(&["/src/a", "/src/b"]), strings(&["/src/b", "/other/c"])];
    assert_eq!(discovered(&found, &entries), ["/src/b", "/other/c"]);
}

#[test]
fn a_repository_is_listed_once() {
    let entries = vec![entry("/src/a")];
    assert_eq!(already_listed(&entries, "/src/a").as_deref(), Some("/src/a is already listed"));
    assert_eq!(already_listed(&entries, "/src/b"), None);
    assert_eq!(typed_path("  /src/b "), Ok("/src/b".to_owned()));
    assert_eq!(typed_path("  "), Err("type the path of a repository first".to_owned()));
}

#[test]
fn a_remembered_directory_has_to_be_one_and_new() {
    let remembered = strings(&["/srv"]);
    assert_eq!(
        directory_added(" ", true, &remembered),
        Err("type the path of a directory first".to_owned())
    );
    assert_eq!(
        directory_added(" /nope ", false, &remembered),
        Err("/nope is not a directory".to_owned())
    );
    assert_eq!(
        directory_added("/srv", true, &remembered),
        Err("/srv is already remembered".to_owned())
    );
    assert_eq!(directory_added(" /home ", true, &remembered), Ok("/home".to_owned()));
}

#[test]
fn reading_again_keeps_the_selected_commit() {
    let commits = vec![summary(3), summary(2), summary(1)];
    assert!(matches!(reopened(Some(&id(2)), &commits, true), Reopen::Commit(1)));
    assert!(matches!(reopened(Some(&id(9)), &commits, true), Reopen::WorkingTree));
    assert!(matches!(reopened(None, &commits, false), Reopen::Commit(0)));
}

#[test]
fn a_root_commit_is_diffed_against_the_empty_tree() {
    assert_eq!(diff_base(None), "4b825dc642cb6eb9a060e54bf8d69288fbee4904");
    let mut bytes = vec![0u8; 19];
    bytes.push(0xab);
    let commit = ObjectId { bytes };
    assert_eq!(diff_base(Some(&commit)), "00000000000000000000000000000000000000ab");
    assert_eq!(revision(&commit), "00000000000000000000000000000000000000ab");
}

fn offered(target: &Target) -> Vec<(String, Option<String>)> {
    context_items(target)
        .into_iter()
        .map(|(label, action)| {
            let said = action.map(|action| match action {
                Action::CopyText(text) => format!("copy {text}"),
                Action::CopyMessage => "copy message".to_owned(),
                Action::OpenRepository(path) => format!("open {path}"),
                Action::RemoveRepository(path) => format!("remove {path}"),
            });
            (label.to_owned(), said)
        })
        .collect()
}

#[test]
fn a_context_menu_offers_what_its_target_allows() {
    let commit = offered(&Target::Commit(id(0x11)));
    assert_eq!(commit.len(), 5);
    assert_eq!(commit[0], ("copy the sha".to_owned(), Some(format!("copy {}", "11".repeat(20)))));
    assert_eq!(commit[1], ("copy the message".to_owned(), Some("copy message".to_owned())));
    assert_eq!(commit[4], ("cherry-pick".to_owned(), None));

    let tag = offered(&Target::Reference {
        kind: LabelKind::Tag,
        name: "v1".to_owned(),
        target: id(1),
    });
    let labels: Vec<&str> = tag.iter().map(|(l, _)| l.as_str()).collect();
    assert_eq!(labels, ["copy the name", "copy the sha", "delete the tag"]);
    assert_eq!(tag[0].1.as_deref(), Some("copy v1"));

    let stash = offered(&Target::Reference {
        kind: LabelKind::Stash,
        name: "stash@{0}".to_owned(),
        target: id(1),
    });
    assert_eq!(stash.len(), 4);
    let branch = offered(&Target::Reference {
        kind: LabelKind::Branch,
        name: "main".to_owned(),
        target: id(1),
    });
    assert_eq!(branch.len(), 6);
    assert_eq!(branch[3].0, "merge into the current branch");

    let repository = offered(&Target::Repository("/src/gg".to_owned()));
    assert_eq!(
        repository,
        [
            ("open".to_owned(), Some("open /src/gg".to_owned())),
            ("copy the path".to_owned(), Some("copy /src/gg".to_owned())),
            ("remove from the list".to_owned(), Some("remove /src/gg".to_owned())),
        ]
    );
}

#[test]
fn completions_are_directories_starting_with_what_was_typed() {
    let entries = vec![
        ("Projects".to_owned(), true),
        ("pictures".to_owned(), true),
        ("pizza.txt".to_owned(), false),
        (".private".to_owned(), true),
        ("music".to_owned(), true),
    ];
    assert_eq!(
        completions_of("/home/me", "P", entries.clone()),
        ["/home/me/Projects", "/home/me/pictures"]
    );
    assert_eq!(completions_of("/home/me/", ".p", entries.clone()), ["/home/me/.private"]);
    assert_eq!(completions_of("/home/me", "", entries).len(), 3);

    let many: Vec<(String, bool)> = (0..12).map(|n| (format!("d{n:02}"), true)).collect();
    let found = completions_of("/x", "d", many);
    assert_eq!(found.len(), 8);
    assert_eq!(found[0], "/x/d00");
    assert_eq!(found[7], "/x/d07");
}

#[test]
fn ignored_icons_are_not_offered() {
    assert_eq!(
        unignored(strings(&["favicon.ico", "dist/logo.png", "logo.svg"]), &strings(&["dist/logo.png"])),
        ["favicon.ico", "logo.svg"]
    );
}

#[test]
fn a_forgotten_repository_leaves_no_trace() {
    let mut entries = vec![entry("/a"), entry("/b")];
    let mut remembered = strings(&["/b", "/a", "/b"]);
    let mut icons: Vec<Icon> = Vec::new();
    set_icon(&mut icons, "/a", "logo.svg".to_owned());
    set_icon(&mut icons, "/b", "icon.png".to_owned());
    let mut last_opened = Some("/b".to_owned());

    forget_repository(&mut entries, &mut remembered, &mut icons, &mut last_opened, "/b");

    assert_eq!(paths(&entries), ["/a"]);
    assert_eq!(remembered, ["/a"]);
    assert_eq!(icon(&icons, "/b"), None);
    assert_eq!(icon(&icons, "/a").as_deref(), Some("/a/logo.svg"));
    assert_eq!(last_opened, None);

    let mut kept = Some("/a".to_owned());
    forget_repository(&mut entries, &mut remembered, &mut icons, &mut kept, "/c");
    assert_eq!(kept.as_deref(), Some("/a"));
    assert_eq!(paths(&entries), ["/a"]);
}

#[test]
fn an_icon_inside_its_repository_is_kept_relative() {
    assert_eq!(stored_icon("/srv/one/public/logo.svg", "/srv/one"), "public/logo.svg");
    assert_eq!(stored_icon("/srv/one/favicon.png", "/srv/one/"), "favicon.png");
    assert_eq!(stored_icon("/srv/onex/logo.svg", "/srv/one"), "/srv/onex/logo.svg");
    assert_eq!(stored_icon("/elsewhere/logo.svg", "/srv/one"), "/elsewhere/logo.svg");
}


#[test]
fn a_reading_lands_only_on_the_repository_that_is_open() {
    assert_eq!(landing("/srv/one", "/srv/one", true), (true, false));
    assert_eq!(landing("/srv/one", "/srv/two", true), (false, true));
    assert_eq!(landing("/srv/one", "/srv/two", false), (false, false));
}

#[test]
fn a_check_reads_again_only_what_git_changed() {
    let before = Some(vec![1, 2, 3]);
    let after = Some(vec![1, 2, 4]);
    assert!(check_rereads(false, &after, &before));
    assert!(!check_rereads(true, &after, &before));
    assert!(!check_rereads(false, &before, &before.clone()));
    assert!(!check_rereads(false, &None, &before));
    assert!(check_rereads(false, &before, &None));
}

#[test]
fn a_repository_spelled_another_way_is_the_same_repository() {
    let entries = vec![entry("/src/a")];
    assert_eq!(already_listed(&entries, "/src/a/").as_deref(), Some("/src/a/ is already listed"));

    let mut entries = vec![entry("/src/a/"), entry("/src/b")];
    let mut remembered = strings(&["/src//a", "/src/b"]);
    let mut icons: Vec<Icon> = Vec::new();
    set_icon(&mut icons, "/src/a/", "logo.svg".to_owned());
    let mut last_opened = Some("/src/./a".to_owned());
    forget_repository(&mut entries, &mut remembered, &mut icons, &mut last_opened, "/src/a");
    assert_eq!(entries.len(), 1);
    assert_eq!(remembered, ["/src/b"]);
    assert!(icons.is_empty());
    assert_eq!(last_opened, None);
}
