use gg::config::{
    expanded, icon, icon_files, join, looks_like_an_icon, repositories, scan, set_icon, state_file,
    Config, Icon, Layer,
};
use gg::ui::theme::Choice;
use gg::config::{known_repository, may_write_state, same_path, StateRead};
use gg::config::note_opened;

/// A directory tree held in memory: every directory by its full path, and the files.
struct Tree {
    directories: Vec<String>,
    files: Vec<String>,
}

impl Tree {
    fn new(root: &str, directories: &[&str], files: &[&str]) -> Tree {
        let mut all = vec![root.to_owned()];
        let mut file_paths = Vec::new();
        for directory in directories {
            let mut path = root.to_owned();
            for part in directory.split('/') {
                path = format!("{path}/{part}");
                if !all.contains(&path) {
                    all.push(path.clone());
                }
            }
        }
        for file in files {
            let full = format!("{root}/{file}");
            let mut path = root.to_owned();
            let parts: Vec<&str> = file.split('/').collect();
            for part in &parts[..parts.len() - 1] {
                path = format!("{path}/{part}");
                if !all.contains(&path) {
                    all.push(path.clone());
                }
            }
            file_paths.push(full);
        }
        Tree {
            directories: all,
            files: file_paths,
        }
    }

    fn name_in<'a>(parent: &str, path: &'a str) -> Option<&'a str> {
        let rest = path.strip_prefix(parent)?.strip_prefix('/')?;
        (!rest.contains('/')).then_some(rest)
    }

    /// Each entry of `directory`: its name, whether it is a directory, whether it is a file.
    fn list(&self, directory: &str) -> Option<Vec<(String, bool, bool)>> {
        if !self.directories.iter().any(|d| d == directory) {
            return None;
        }
        let mut entries = Vec::new();
        for d in &self.directories {
            if let Some(name) = Tree::name_in(directory, d) {
                entries.push((name.to_owned(), true, false));
            }
        }
        for f in &self.files {
            if let Some(name) = Tree::name_in(directory, f) {
                entries.push((name.to_owned(), false, true));
            }
        }
        Some(entries)
    }

    fn repositories(&self, root: &str) -> Vec<String> {
        let mut search = scan(root);
        while let Some(directory) = search.next_directory() {
            let is_repository = self.directories.contains(&format!("{directory}/.git"));
            let entries = self
                .list(&directory)
                .map(|entries| entries.into_iter().map(|(name, is_dir, _)| (name, is_dir)).collect());
            search.look(is_repository, entries);
        }
        search.found
    }

    fn icons(&self, root: &str) -> Vec<String> {
        let mut search = icon_files(root);
        while let Some(directory) = search.next_directory() {
            search.look(self.list(&directory));
        }
        search.found
    }
}

fn strings(items: &[&str]) -> Vec<String> {
    items.iter().map(|item| (*item).to_owned()).collect()
}

#[test]
fn missing_files_leave_the_defaults() {
    let config = Config::layered(vec![Layer::new()], None);
    let default = Config::default();

    assert_eq!(config.theme, default.theme);
    assert_eq!(config.paths, default.paths);
    assert_eq!(config.directories, default.directories);
}

#[test]
fn the_later_file_wins_key_by_key() {
    let system = Layer {
        theme: Some(Choice::Dark),
        paths: Some(strings(&["/srv/one"])),
        directories: Some(strings(&["/srv"])),
    };
    let user = Layer {
        theme: Some(Choice::Light),
        paths: Some(strings(&["/home/two"])),
        directories: None,
    };

    let config = Config::layered(vec![system, user], None);

    assert_eq!(config.theme, Choice::Light);
    assert_eq!(config.paths, ["/home/two"]);
    assert_eq!(config.directories, ["/srv"]);
}

#[test]
fn a_leading_tilde_becomes_the_home_directory() {
    let home = "/home/someone";

    assert_eq!(expanded("~/dev", Some(home)), join(home, "dev"));
    assert_eq!(expanded("~", Some(home)), home);
    assert_eq!(expanded("~other/dev", Some(home)), "~other/dev");
    assert_eq!(expanded("/srv/dev", Some(home)), "/srv/dev");
    assert_eq!(expanded("~/dev", None), "~/dev");
}

#[test]
fn configured_paths_are_expanded() {
    let layer = Layer {
        theme: None,
        paths: Some(strings(&["~/code/one"])),
        directories: Some(strings(&["~/work"])),
    };

    let config = Config::layered(vec![layer], Some("/home/someone"));

    assert_eq!(config.paths, ["/home/someone/code/one"]);
    assert_eq!(config.directories, ["/home/someone/work"]);
}

#[test]
fn the_scan_stops_at_a_repository_and_skips_the_noise() {
    let root = "/scratch/scan";
    let tree = Tree::new(
        root,
        &[
            "alpha/.git",
            "alpha/vendor/inner/.git",
            "group/beta/.git",
            "group/beta/node_modules/package/.git",
            "loose/node_modules/package/.git",
            "loose/target/debug/checkout/.git",
            "one/two/three/four/five/deep/.git",
            "empty",
        ],
        &[],
    );

    assert_eq!(
        tree.repositories(root),
        ["/scratch/scan/alpha", "/scratch/scan/group/beta"]
    );
}

#[test]
fn a_configured_directory_that_is_itself_a_repository_is_one_entry() {
    let root = "/scratch/itself";
    let tree = Tree::new(root, &[".git", "sub/.git"], &[]);

    assert_eq!(tree.repositories(root), [root]);
}

#[test]
fn the_icon_scan_finds_the_conventional_places_and_nothing_else() {
    let root = "/scratch/icons";
    let tree = Tree::new(
        root,
        &[],
        &[
            "favicon.ico",
            "public/logo-dark.svg",
            ".github/apple-touch-icon.png",
            "src/main.rs",
            "docs/screenshot.png",
            "node_modules/thing/logo.png",
            "one/two/three/four/icon.png",
        ],
    );

    assert_eq!(
        tree.icons(root),
        [
            "favicon.ico",
            ".github/apple-touch-icon.png",
            "public/logo-dark.svg"
        ]
    );
}

#[test]
fn an_icon_is_remembered_against_its_repository() {
    let mut icons: Vec<Icon> = Vec::new();
    set_icon(&mut icons, "/srv/one", "public/logo.svg".to_owned());
    set_icon(&mut icons, "/srv/one", "favicon.png".to_owned());

    assert_eq!(icons.len(), 1);
    assert_eq!(icon(&icons, "/srv/one").as_deref(), Some("/srv/one/favicon.png"));
    assert_eq!(icon(&icons, "/srv/two"), None);
}

#[test]
fn explicit_paths_come_first_and_repeats_are_dropped() {
    let root = "/scratch/dedupe";
    let tree = Tree::new(root, &["alpha/.git", "beta/.git"], &[]);

    let config = Config {
        theme: Choice::System,
        paths: strings(&["/scratch/dedupe/beta"]),
        directories: strings(&[root]),
    };
    let remembered = strings(&["/scratch/dedupe/gamma", "/scratch/dedupe/beta"]);
    let found: Vec<Vec<String>> = config
        .directories
        .iter()
        .map(|directory| tree.repositories(directory))
        .collect();

    assert_eq!(
        repositories(&config, &remembered, &found),
        [
            "/scratch/dedupe/beta",
            "/scratch/dedupe/gamma",
            "/scratch/dedupe/alpha"
        ]
    );
}

#[test]
fn the_icon_scan_stops_at_its_limit() {
    let root = "/scratch/many";
    let names: Vec<String> = (0..30).map(|n| format!("icon-{n:02}.png")).collect();
    let files: Vec<&str> = names.iter().map(String::as_str).collect();
    let tree = Tree::new(root, &[], &files);

    let found = tree.icons(root);
    assert_eq!(found.len(), 24);
    assert_eq!(found[0], "icon-00.png");
    assert_eq!(found[23], "icon-23.png");
}

#[test]
fn the_store_is_never_searched() {
    let tree = Tree::new("/nix/store", &["abc/.git"], &[]);
    assert!(tree.repositories("/nix/store").is_empty());
}

#[test]
fn icons_are_named_by_stem_and_extension() {
    assert!(looks_like_an_icon("favicon.ico"));
    assert!(looks_like_an_icon("Logo-Dark.SVG"));
    assert!(looks_like_an_icon("apple-touch-icon.png"));
    assert!(!looks_like_an_icon("screenshot.png"));
    assert!(!looks_like_an_icon("logo.txt"));
    assert!(!looks_like_an_icon("favicon"));
}

#[test]
fn paths_join_as_a_path_does() {
    assert_eq!(join("/srv", "one"), "/srv/one");
    assert_eq!(join("/srv/", "one"), "/srv/one");
    assert_eq!(join("/srv", "/etc"), "/etc");
    assert_eq!(join("", "one"), "one");
}

#[test]
fn the_state_lives_under_the_data_directory() {
    assert_eq!(
        state_file(Some("/data"), Some("/home/someone")).as_deref(),
        Some("/data/gitgui/state.toml")
    );
    assert_eq!(
        state_file(Some(""), Some("/home/someone")).as_deref(),
        Some("/home/someone/.local/share/gitgui/state.toml")
    );
    assert_eq!(state_file(None, None), None);
}

#[test]
fn the_system_file_comes_before_the_user_file() {
    assert_eq!(
        Config::load(Some("/home/someone"), None),
        ["/etc/gitgui/config.toml", "/home/someone/.config/gitgui/config.toml"]
    );
    assert_eq!(
        Config::load(Some("/home/someone"), Some("/conf")),
        ["/etc/gitgui/config.toml", "/conf/gitgui/config.toml"]
    );
    assert_eq!(Config::load(None, None), ["/etc/gitgui/config.toml"]);
}

#[test]
fn a_later_layer_without_a_theme_keeps_the_earlier_one() {
    let mut merged = Layer::new();
    merged.absorb(Layer {
        theme: Some(Choice::Nord),
        paths: None,
        directories: None,
    });
    merged.absorb(Layer {
        theme: None,
        paths: Some(strings(&["/a"])),
        directories: None,
    });
    assert_eq!(merged.theme, Some(Choice::Nord));
    assert_eq!(merged.paths, Some(strings(&["/a"])));
    assert_eq!(merged.directories, None);
}

#[test]
fn the_last_repository_opened_opens_again_while_it_is_listed() {
    let listed = strings(&["/a", "/b"]);
    assert_eq!(known_repository(&Some("/b".to_owned()), &listed).as_deref(), Some("/b"));
    assert_eq!(known_repository(&Some("/gone".to_owned()), &listed).as_deref(), Some("/a"));
    assert_eq!(known_repository(&None, &listed).as_deref(), Some("/a"));
    assert_eq!(known_repository(&None, &Vec::new()), None);
}

#[test]
fn a_repository_named_on_the_command_line_is_remembered() {
    let mut listed = strings(&["/a"]);
    let mut paths: Vec<String> = Vec::new();
    let mut last = Some("/a".to_owned());

    assert!(note_opened(&mut listed, &mut paths, &mut last, "/b", true));
    assert_eq!(listed, ["/a", "/b"]);
    assert_eq!(paths, ["/b"]);
    assert_eq!(last.as_deref(), Some("/b"));

    assert!(!note_opened(&mut listed, &mut paths, &mut last, "/b", true));
    assert!(note_opened(&mut listed, &mut paths, &mut last, "/a", false));
    assert_eq!(last.as_deref(), Some("/a"));
    assert_eq!(paths, ["/b"]);

    assert!(!note_opened(&mut listed, &mut paths, &mut last, "/elsewhere", false));
    assert_eq!(listed, ["/a", "/b"]);
    assert_eq!(last.as_deref(), Some("/a"));
}

#[test]
fn paths_compare_by_their_parts() {
    assert!(same_path("/srv/one/", "/srv/one"));
    assert!(same_path("/srv//one/.", "/srv/one"));
    assert!(same_path("/srv/./one", "/srv/one"));
    assert!(!same_path("srv/one", "/srv/one"));
    assert!(!same_path("./one", "one"));
    assert!(!same_path("/srv/one/..", "/srv"));
    assert!(same_path("", ""));
}

#[test]
fn one_repository_spelled_two_ways_is_listed_once() {
    let config = Config {
        theme: Choice::System,
        paths: strings(&["/srv/one/", "/srv/two"]),
        directories: Vec::new(),
    };
    let remembered = strings(&["/srv/one", "/srv//two/"]);
    assert_eq!(repositories(&config, &remembered, &Vec::new()), ["/srv/one/", "/srv/two"]);
    assert_eq!(known_repository(&Some("/srv/one".to_owned()), &strings(&["/srv/two", "/srv/one/"])), Some("/srv/one".to_owned()));

    let mut icons = vec![Icon { repository: "/srv/one/".to_owned(), file: "logo.png".to_owned() }];
    assert_eq!(icon(&icons, "/srv/one"), Some("/srv/one/logo.png".to_owned()));
    set_icon(&mut icons, "/srv/one", "mark.svg".to_owned());
    assert_eq!(icons.len(), 1);
    assert_eq!(icon(&icons, "/srv/one/"), Some("/srv/one/mark.svg".to_owned()));
}

#[test]
fn a_state_nobody_could_parse_is_never_written_back() {
    assert!(!may_write_state(Some(StateRead::Unparsable)));
    assert!(may_write_state(Some(StateRead::Parsed)));
    assert!(may_write_state(Some(StateRead::Missing)));
    assert!(may_write_state(Some(StateRead::Failed)));
    assert!(may_write_state(None));
}
