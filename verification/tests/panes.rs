use gg::ui::icons::{artwork, file_artwork, forge, Art, Forge};
use gg::ui::launcher::{chosen, listed, name_of, preview, Chosen, Find, Launcher, Mode, Row};
use gg::ui::menu::Menu;
use gg::ui::remotes::{sending, Destination, Dialog};
use gg::ui::settings::{Category, Form};
use gg::ui::theme::Choice;
use gg::ui::Entry;

fn entry(name: &str, path: &str) -> Entry {
    Entry {
        path: path.to_owned(),
        name: name.to_owned(),
        branch: Ok("main".to_owned()),
    }
}

fn names(rows: &[Row]) -> Vec<String> {
    rows.iter().map(Row::name).collect()
}

#[test]
fn the_launcher_lists_repositories_then_finds_then_the_theme_command() {
    let rows = listed(
        Mode::Repositories,
        &vec![entry("gg", "/src/gg"), entry("nixpkgs", "/src/nixpkgs")],
        &vec!["/work/found-one/".to_owned()],
    );
    assert_eq!(names(&rows), ["gg", "nixpkgs", "found-one", "change theme"]);
    assert_eq!(rows[2].note(), "/work/found-one/");
    assert_eq!(rows[3].note(), "pick a theme, previewed as you move");
    match &rows[0] {
        Row::Repository(find) => assert_eq!(find.path(), "/src/gg"),
        _ => panic!("a listed repository comes first"),
    }
}

#[test]
fn the_theme_mode_lists_every_theme_in_order() {
    let rows = listed(Mode::Themes(Choice::Nord), &vec![], &vec![]);
    assert_eq!(rows.len(), Choice::ALL.len());
    assert_eq!(rows[0].name(), "system");
    assert_eq!(rows[4].name(), "tokyo night");
    assert_eq!(rows[8].name(), "solarized light");
    assert_eq!(rows[8].note(), "");
}

#[test]
fn a_query_matches_names_first_then_notes() {
    let rows = listed(
        Mode::Repositories,
        &vec![entry("website", "/src/gg-site"), entry("GG", "/src/gg"), entry("other", "/src/other")],
        &vec![],
    );
    let found = gg::ui::launcher::matches(rows, "  gg ");
    assert_eq!(names(&found), ["GG", "website"]);

    let all = listed(Mode::Repositories, &vec![entry("a", "/a")], &vec![]);
    assert_eq!(names(&gg::ui::launcher::matches(all, "   ")), ["a", "change theme"]);
}

#[test]
fn a_found_repository_is_named_by_its_directory() {
    assert_eq!(name_of("/src/gg"), "gg");
    assert_eq!(name_of("/src/gg/"), "gg");
    assert_eq!(name_of("/src/gg/."), "gg");
    assert_eq!(name_of("/"), "/");
    assert_eq!(name_of("/src/.."), "/src/..");
    assert_eq!(Find::Found("/x/y".to_owned()).name(), "y");
}

#[test]
fn the_launcher_opens_empty_on_its_first_line() {
    let launcher = Launcher::default();
    assert!(launcher.query.is_empty());
    assert_eq!(launcher.selected, 0);
    assert_eq!(launcher.mode, Mode::Repositories);
}

#[test]
fn a_fetch_starts_with_every_remote_chosen() {
    let mut dialog = Dialog::fetch(vec!["origin".to_owned(), "upstream".to_owned(), "origin".to_owned()]);
    assert_eq!(dialog.taken(), ["origin", "upstream", "origin"]);
    dialog.toggle("origin");
    assert_eq!(dialog.taken(), ["upstream"]);
    dialog.toggle("origin");
    dialog.toggle("origin");
    assert_eq!(dialog.taken(), ["upstream"]);
}

#[test]
fn a_push_starts_with_nothing_chosen_and_lists_in_order() {
    let destination = |remote: &str| Destination {
        remote: remote.to_owned(),
        commits: Some(2),
        exists: true,
    };
    let mut dialog = Dialog::push("main".to_owned(), vec![destination("origin"), destination("fork")]);
    assert!(dialog.taken().is_empty());
    dialog.toggle("fork");
    dialog.toggle("origin");
    assert_eq!(dialog.taken(), ["origin", "fork"]);
    dialog.toggle_upstream();
    match &dialog {
        Dialog::Push { upstream, .. } => assert!(*upstream),
        Dialog::Fetch { .. } => panic!("still a push"),
    }
    dialog.toggle_upstream();
    match &dialog {
        Dialog::Push { upstream, branch, .. } => {
            assert!(!*upstream);
            assert_eq!(branch, "main");
        }
        Dialog::Fetch { .. } => panic!("still a push"),
    }
}

#[test]
fn a_destination_says_what_a_push_sends() {
    let at = |commits: Option<usize>, exists: bool| Destination {
        remote: "origin".to_owned(),
        commits,
        exists,
    };
    assert_eq!(sending(&at(Some(1), true), "main"), "1 commit onto origin/main");
    assert_eq!(sending(&at(Some(3), false), "main"), "3 commits, creating origin/main");
    assert_eq!(
        sending(&at(None, true), "main"),
        "commits git would not count onto origin/main"
    );
    assert_eq!(sending(&at(Some(0), true), "dev"), "0 commits onto origin/dev");
}

#[test]
fn a_file_is_drawn_by_its_type() {
    assert_eq!(artwork("Cargo.toml"), Art::Cargo);
    assert_eq!(artwork("main.rs"), Art::Rust);
    assert_eq!(artwork("flake.nix"), Art::Nix);
    assert_eq!(artwork("README"), Art::File);
    assert_eq!(artwork("archive.tar.gz"), Art::File);
    assert_eq!(artwork("photo.JPG"), Art::File);
    assert_eq!(artwork(".gitignore"), Art::Git);
    assert_eq!(file_artwork("web/package.json"), Art::Npm);
    assert_eq!(file_artwork("docs/guide.md"), Art::Markdown);
    assert_eq!(file_artwork("script.sh"), Art::Shell);
}

#[test]
fn a_host_is_matched_to_its_forge() {
    assert_eq!(forge("github.com"), Forge::GitHub);
    assert_eq!(forge("GitLab.example.org"), Forge::GitLab);
    assert_eq!(forge("codeberg.org"), Forge::Codeberg);
    assert_eq!(forge("git.forgejo.dev"), Forge::Gitea);
    assert_eq!(forge("bitbucket.org"), Forge::Bitbucket);
    assert_eq!(forge("example.com"), Forge::Unknown);
}

#[test]
fn menus_and_pages_have_their_titles() {
    let titles: Vec<&str> = Menu::ALL.iter().map(|menu| menu.title()).collect();
    assert_eq!(titles, ["Repository", "Commit", "View", "Help"]);
    let pages: Vec<&str> = Category::ALL.iter().map(|page| page.title()).collect();
    assert_eq!(pages, ["Appearance", "Repositories", "About"]);
    let form = Form::new();
    assert!(form.repository.is_empty() && form.picker.is_none() && form.discovered.is_empty());
}

#[test]
fn each_theme_has_its_label() {
    let labels: Vec<&str> = Choice::ALL.iter().map(|choice| choice.label()).collect();
    assert_eq!(
        labels,
        [
            "system",
            "dark",
            "light",
            "dracula",
            "tokyo night",
            "nord",
            "gruvbox dark",
            "catppuccin mocha",
            "solarized light"
        ]
    );
}

#[test]
fn choosing_a_line_does_what_it_says() {
    let rows = listed(
        Mode::Repositories,
        &vec![entry("gg", "/src/gg")],
        &vec!["/work/found".to_owned()],
    );
    assert!(matches!(chosen(listed(Mode::Repositories, &vec![entry("gg", "/src/gg")], &vec![]), 0), Some(Chosen::Repository(path)) if path == "/src/gg"));
    assert!(matches!(chosen(listed(Mode::Repositories, &vec![], &vec!["/work/found".to_owned()]), 0), Some(Chosen::Repository(path)) if path == "/work/found"));
    assert!(matches!(chosen(rows, 2), Some(Chosen::ChangeTheme)));
    let themes = listed(Mode::Themes(Choice::Dark), &vec![], &vec![]);
    assert_eq!(preview(&themes, 5), Some(Choice::Nord));
    assert_eq!(preview(&themes, 9), None);
    assert!(matches!(chosen(themes, 2), Some(Chosen::Theme(Choice::Light))));
    let empty = listed(Mode::Repositories, &vec![], &vec![]);
    assert_eq!(preview(&empty, 0), None);
    assert!(chosen(empty, 3).is_none());
}
