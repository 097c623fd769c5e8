//! The configuration: where it is read from, how its files layer, which repositories it
//! lists, how a configured directory is searched for more of them, and which files in a
//! repository look like its icon. Reading the files and the directories is left to the
//! caller, which hands back what it found.
use crate::text::{
    ascii_lowercase, chars_of, holds, rsplit_once, rsplit_once_at, same, starts_with, string_of,
    text_less, less_text, texts, to_ascii_lowercase, lemma_text_less_order, in_text_order, split,
    split_at_char,
};
use crate::ui::theme::Choice;
use vstd::prelude::*;

verus! {

/// The name every file this program keeps is filed under. It is not the name of the
/// program: changing it would strand the configuration and repository list of everyone who
/// ran an earlier one.
pub const ON_DISK_NAME: &'static str = "gitgui";

/// Deeper than this under a configured directory is a vendored checkout of somebody else's
/// tree, not a repository the user meant to list.
pub const SCAN_DEPTH: usize = 4;

/// `public/`, `static/`, `assets/img/` and `.github/` all sit within this of a root.
pub const ICON_DEPTH: usize = 3;

/// No more icons than this are offered.
pub const ICON_LIMIT: usize = 24;

/// `base` with `more` after it, as `Path::join` writes it: an absolute `more` replaces
/// `base`, and a separator goes between them where `base` does not end in one.
pub open spec fn path_join(base: Seq<char>, more: Seq<char>) -> Seq<char> {
    if more.len() > 0 && more[0] == '/' {
        more
    } else if base.len() == 0 {
        more
    } else if base.last() == '/' {
        base + more
    } else {
        base + "/"@ + more
    }
}

/// Joins two paths.
pub fn join(base: &str, more: &str) -> (path: String)
    ensures
        path@ == path_join(base@, more@),
{
    let b = chars_of(base);
    let m = chars_of(more);
    if m.len() > 0 && m[0] == '/' {
        return more.to_owned();
    }
    if b.len() == 0 {
        return more.to_owned();
    }
    let mut text = b;
    proof {
        reveal_strlit("/");
    }
    if text[text.len() - 1] != '/' {
        text.push('/');
        assert(text@ == base@ + "/"@);
    }
    let mut rest = m;
    text.append(&mut rest);
    string_of(&text)
}

/// The configuration the program runs with.
#[derive(Clone)]
pub struct Config {
    pub theme: Choice,
    pub paths: Vec<String>,
    pub directories: Vec<String>,
}

impl Default for Config {
    /// The desktop's theme, and no repositories.
    fn default() -> (config: Config)
        ensures
            config.theme == Choice::System,
            config.paths@.len() == 0,
            config.directories@.len() == 0,
    {
        Config { theme: Choice::System, paths: Vec::new(), directories: Vec::new() }
    }
}

/// One configuration file's settings: each one it does not set is absent.
pub struct Layer {
    pub theme: Option<Choice>,
    pub paths: Option<Vec<String>>,
    pub directories: Option<Vec<String>>,
}

pub open spec fn texts_of(list: Option<Vec<String>>) -> Option<Seq<Seq<char>>> {
    match list {
        Some(l) => Some(texts(l@)),
        None => None,
    }
}

impl Layer {
    /// A file that sets nothing.
    pub fn new() -> (layer: Layer)
        ensures
            layer.theme is None && layer.paths is None && layer.directories is None,
    {
        Layer { theme: None, paths: None, directories: None }
    }

    /// Lays a later file over this one: the later file wins key by key, so one that sets
    /// only the theme leaves the earlier file's repositories alone.
    pub fn absorb(&mut self, later: Layer)
        ensures
            final(self).theme == match later.theme {
                Some(t) => Some(t),
                None => old(self).theme,
            },
            texts_of(final(self).paths) == match later.paths {
                Some(p) => Some(texts(p@)),
                None => texts_of(old(self).paths),
            },
            texts_of(final(self).directories) == match later.directories {
                Some(d) => Some(texts(d@)),
                None => texts_of(old(self).directories),
            },
    {
        if later.theme.is_some() {
            self.theme = later.theme;
        }
        match later.paths {
            Some(p) => {
                self.paths = Some(p);
            },
            None => {},
        }
        match later.directories {
            Some(d) => {
                self.directories = Some(d);
            },
            None => {},
        }
    }
}

/// What a leading `~` component stands before: the rest of the path after it, or nothing
/// when the path does not start with that component.
pub open spec fn after_tilde(path: Seq<char>) -> Option<Seq<char>> {
    if path == "~"@ {
        Some(Seq::empty())
    } else if "~/"@.is_prefix_of(path) {
        Some(skip_slashes(path.skip(2)))
    } else {
        None
    }
}

/// A path without its leading separators.
pub open spec fn skip_slashes(path: Seq<char>) -> Seq<char>
    decreases path.len(),
{
    if path.len() > 0 && path[0] == '/' {
        skip_slashes(path.drop_first())
    } else {
        path
    }
}

/// A path with a leading `~` component standing for the home directory, when there is one.
/// `~other/dev` names another user's home, which is not looked up, so it is left as it is.
pub open spec fn expand_path(path: Seq<char>, home: Option<Seq<char>>) -> Seq<char> {
    match (after_tilde(path), home) {
        (Some(rest), Some(home)) => if rest.len() == 0 {
            home
        } else {
            path_join(home, rest)
        },
        _ => path,
    }
}

fn skip_slashes_of(path: &Vec<char>, start: usize) -> (rest: Vec<char>)
    requires
        start <= path.len(),
    ensures
        rest@ == skip_slashes(path@.skip(start as int)),
{
    let mut i = start;
    while i < path.len() && path[i] == '/'
        invariant
            start <= i <= path.len(),
            skip_slashes(path@.skip(start as int)) == skip_slashes(path@.skip(i as int)),
        decreases path.len() - i,
    {
        assert(path@.skip(i as int).drop_first() == path@.skip(i + 1));
        i = i + 1;
    }
    let rest = crate::text::slice(path, i, path.len());
    assert(rest@ == path@.skip(i as int));
    rest
}

/// `path` with a leading `~` standing for `home`.
pub fn expanded(path: &str, home: Option<&str>) -> (full: String)
    ensures
        full@ == expand_path(
            path@,
            match home {
                Some(h) => Some(h@),
                None => None,
            },
        ),
{
    let chars = chars_of(path);
    let home = match home {
        Some(h) => h,
        None => return path.to_owned(),
    };
    let rest = if crate::text::same(&chars, &chars_of("~")) {
        Vec::new()
    } else if starts_with(&chars, &chars_of("~/")) {
        proof {
            reveal_strlit("~/");
        }
        skip_slashes_of(&chars, 2)
    } else {
        return path.to_owned();
    };
    if rest.len() == 0 {
        home.to_owned()
    } else {
        join(home, string_of(&rest).as_str())
    }
}

/// The directory a variable names, when it names one at all: an empty value names none.
pub open spec fn named_directory(value: Option<Seq<char>>) -> Option<Seq<char>> {
    match value {
        Some(v) => if v.len() > 0 {
            Some(v)
        } else {
            None
        },
        None => None,
    }
}

pub open spec fn option_text(value: Option<&str>) -> Option<Seq<char>> {
    match value {
        Some(v) => Some(v@),
        None => None,
    }
}

/// Where the user's configuration lives: `XDG_CONFIG_HOME` when it is set, else `.config`
/// in the home directory.
pub open spec fn config_home_of(config_home: Option<Seq<char>>, home: Option<Seq<char>>) -> Option<
    Seq<char>,
> {
    match named_directory(config_home) {
        Some(d) => Some(d),
        None => match home {
            Some(h) => Some(path_join(h, ".config"@)),
            None => None,
        },
    }
}

/// Where the program's state is kept: `gitgui/state.toml` under `XDG_DATA_HOME` when it is
/// set, else under `.local/share` in the home directory.
pub open spec fn state_file_of(data_home: Option<Seq<char>>, home: Option<Seq<char>>) -> Option<
    Seq<char>,
> {
    let data = match named_directory(data_home) {
        Some(d) => Some(d),
        None => match home {
            Some(h) => Some(path_join(h, ".local/share"@)),
            None => None,
        },
    };
    match data {
        Some(d) => Some(path_join(path_join(d, "gitgui"@), "state.toml"@)),
        None => None,
    }
}

fn named(value: Option<&str>) -> (dir: Option<String>)
    ensures
        match dir {
            Some(d) => named_directory(option_text(value)) == Some(d@),
            None => named_directory(option_text(value)) is None,
        },
{
    match value {
        Some(v) => {
            if v.is_empty() {
                None
            } else {
                Some(v.to_owned())
            }
        },
        None => None,
    }
}

/// The file the program's state is kept in, given the values of `XDG_DATA_HOME` and `HOME`.
pub fn state_file(data_home: Option<&str>, home: Option<&str>) -> (file: Option<String>)
    ensures
        match file {
            Some(f) => state_file_of(option_text(data_home), option_text(home)) == Some(f@),
            None => state_file_of(option_text(data_home), option_text(home)) is None,
        },
{
    let data = match named(data_home) {
        Some(d) => d,
        None => match home {
            Some(h) => join(h, ".local/share"),
            None => return None,
        },
    };
    Some(join(join(data.as_str(), "gitgui").as_str(), "state.toml"))
}

impl Config {
    /// The configuration files, earliest first: the system's, then the user's where there
    /// is a place for it, given the values of `HOME` and `XDG_CONFIG_HOME`. Later files win.
    pub fn load(home: Option<&str>, config_home: Option<&str>) -> (files: Vec<String>)
        ensures
            texts(files@) == seq!["/etc/gitgui/config.toml"@] + match config_home_of(
                option_text(config_home),
                option_text(home),
            ) {
                Some(d) => seq![path_join(path_join(d, "gitgui"@), "config.toml"@)],
                None => Seq::empty(),
            },
    {
        let mut files: Vec<String> = Vec::new();
        files.push("/etc/gitgui/config.toml".to_owned());
        let directory = match named(config_home) {
            Some(d) => Some(d),
            None => match home {
                Some(h) => Some(join(h, ".config")),
                None => None,
            },
        };
        match directory {
            Some(d) => {
                files.push(join(join(d.as_str(), "gitgui").as_str(), "config.toml"));
            },
            None => {},
        }
        assert(texts(files@) =~= seq!["/etc/gitgui/config.toml"@] + match config_home_of(
            option_text(config_home),
            option_text(home),
        ) {
            Some(d) => seq![path_join(path_join(d, "gitgui"@), "config.toml"@)],
            None => Seq::empty(),
        });
        files
    }

    /// The configuration the files make, laid one over the next: later files win key by
    /// key, the theme defaults to the desktop's, and a path's leading `~` stands for `home`.
    pub fn layered(layers: Vec<Layer>, home: Option<&str>) -> (config: Config)
        ensures
            config.theme == match merged_theme(layers@) {
                Some(t) => t,
                None => Choice::System,
            },
            texts(config.paths@) == match merged_list(layers@, false) {
                Some(p) => p.map_values(|path: Seq<char>| expand_path(path, option_text(home))),
                None => Seq::empty(),
            },
            texts(config.directories@) == match merged_list(layers@, true) {
                Some(d) => d.map_values(|path: Seq<char>| expand_path(path, option_text(home))),
                None => Seq::empty(),
            },
    {
        let mut merged = Layer::new();
        let mut rest = layers;
        let ghost all = rest@;
        let mut taken: usize = 0;
        let count = rest.len();
        while rest.len() > 0
            invariant
                all.len() == count,
                taken <= count,
                rest@ == all.skip(taken as int),
                merged.theme == merged_theme(all.take(taken as int)),
                texts_of(merged.paths) == merged_list(all.take(taken as int), false),
                texts_of(merged.directories) == merged_list(all.take(taken as int), true),
            decreases rest.len(),
        {
            let layer = rest.remove(0);
            proof {
                assert(all.skip(taken as int)[0] == all[taken as int]);
                assert(all.take(taken + 1).drop_last() == all.take(taken as int));
                assert(all.take(taken + 1).last() == layer);
                assert(rest@ == all.skip(taken + 1));
            }
            merged.absorb(layer);
            taken = taken + 1;
        }
        assert(all.take(taken as int) == all);
        let theme = match merged.theme {
            Some(t) => t,
            None => Choice::System,
        };
        let paths = match &merged.paths {
            Some(p) => expand_all(p, home),
            None => Vec::new(),
        };
        let directories = match &merged.directories {
            Some(d) => expand_all(d, home),
            None => Vec::new(),
        };
        assert(texts(paths@) =~= match merged_list(all, false) {
            Some(p) => p.map_values(|path: Seq<char>| expand_path(path, option_text(home))),
            None => Seq::empty(),
        });
        assert(texts(directories@) =~= match merged_list(all, true) {
            Some(d) => d.map_values(|path: Seq<char>| expand_path(path, option_text(home))),
            None => Seq::empty(),
        });
        Config { theme, paths, directories }
    }
}

/// The theme the last file that sets one sets.
pub open spec fn merged_theme(layers: Seq<Layer>) -> Option<Choice>
    decreases layers.len(),
{
    if layers.len() == 0 {
        None
    } else {
        match layers.last().theme {
            Some(t) => Some(t),
            None => merged_theme(layers.drop_last()),
        }
    }
}

/// The repository paths (or, for `directories`, the directories) the last file that sets
/// them sets.
pub open spec fn merged_list(layers: Seq<Layer>, directories: bool) -> Option<Seq<Seq<char>>>
    decreases layers.len(),
{
    if layers.len() == 0 {
        None
    } else {
        let list = if directories {
            layers.last().directories
        } else {
            layers.last().paths
        };
        match list {
            Some(l) => Some(texts(l@)),
            None => merged_list(layers.drop_last(), directories),
        }
    }
}

fn expand_all(paths: &Vec<String>, home: Option<&str>) -> (full: Vec<String>)
    ensures
        texts(full@) == texts(paths@).map_values(
            |path: Seq<char>| expand_path(path, option_text(home)),
        ),
{
    let mut full: Vec<String> = Vec::new();
    for i in 0..paths.len()
        invariant
            texts(full@) == texts(paths@).take(i as int).map_values(
                |path: Seq<char>| expand_path(path, option_text(home)),
            ),
    {
        let ghost before = texts(full@);
        full.push(expanded(paths[i].as_str(), home));
        assert(texts(full@) =~= before.push(expand_path(paths@[i as int]@, option_text(home))));
        assert(texts(paths@).take(i + 1) =~= texts(paths@).take(i as int).push(paths@[i as int]@));
        assert(texts(full@) =~= texts(paths@).take(i + 1).map_values(
            |path: Seq<char>| expand_path(path, option_text(home)),
        ));
    }
    assert(texts(paths@).take(paths.len() as int) == texts(paths@));
    full
}

/// Directory names a search never enters: somebody else's tree, or git's own.
pub open spec fn never_scanned(name: Seq<char>) -> bool {
    name == "node_modules"@ || name == "target"@ || name == ".direnv"@ || name == "result"@ || name
        == ".git"@
}

/// Names that hold built copies, never a project's own icon.
pub open spec fn never_an_icon(name: Seq<char>) -> bool {
    name == "dist"@ || name == "out"@ || name == "build"@ || name == "coverage"@ || name
        == ".next"@ || name == ".svelte-kit"@ || name == ".output"@ || name == "vendor"@
}

fn is_one_of(name: &Vec<char>, words: &[&str]) -> (r: bool)
    ensures
        r == exists|i: int| 0 <= i < words@.len() && name@ == (#[trigger] words@[i])@,
{
    for i in 0..words.len()
        invariant
            forall|k: int| 0 <= k < i ==> name@ != (#[trigger] words@[k])@,
    {
        if same(name, &chars_of(words[i])) {
            return true;
        }
    }
    false
}

pub fn is_never_scanned(name: &Vec<char>) -> (r: bool)
    ensures
        r == never_scanned(name@),
{
    let words: [&str; 5] = ["node_modules", "target", ".direnv", "result", ".git"];
    let r = is_one_of(name, &words);
    assert(r == (name@ == "node_modules"@ || name@ == "target"@ || name@ == ".direnv"@ || name@
        == "result"@ || name@ == ".git"@)) by {
        if name@ == "node_modules"@ { assert(name@ == words@[0]@); }
        if name@ == "target"@ { assert(name@ == words@[1]@); }
        if name@ == ".direnv"@ { assert(name@ == words@[2]@); }
        if name@ == "result"@ { assert(name@ == words@[3]@); }
        if name@ == ".git"@ { assert(name@ == words@[4]@); }
    }
    r
}

pub fn is_never_an_icon(name: &Vec<char>) -> (r: bool)
    ensures
        r == never_an_icon(name@),
{
    let words: [&str; 8] = ["dist", "out", "build", "coverage", ".next", ".svelte-kit", ".output", "vendor"];
    let r = is_one_of(name, &words);
    assert(r == (name@ == "dist"@ || name@ == "out"@ || name@ == "build"@ || name@ == "coverage"@
        || name@ == ".next"@ || name@ == ".svelte-kit"@ || name@ == ".output"@ || name@
        == "vendor"@)) by {
        if name@ == "dist"@ { assert(name@ == words@[0]@); }
        if name@ == "out"@ { assert(name@ == words@[1]@); }
        if name@ == "build"@ { assert(name@ == words@[2]@); }
        if name@ == "coverage"@ { assert(name@ == words@[3]@); }
        if name@ == ".next"@ { assert(name@ == words@[4]@); }
        if name@ == ".svelte-kit"@ { assert(name@ == words@[5]@); }
        if name@ == ".output"@ { assert(name@ == words@[6]@); }
        if name@ == "vendor"@ { assert(name@ == words@[7]@); }
    }
    r
}

/// Whether a file name looks like it is meant to stand for the project: a picture's
/// extension, and a name starting with one of the usual words, both in any ASCII case.
pub open spec fn icon_like(name: Seq<char>) -> bool {
    match rsplit_once(name, '.') {
        None => false,
        Some((stem, extension)) => {
            let e = ascii_lowercase(extension);
            let s = ascii_lowercase(stem);
            &&& (e == "ico"@ || e == "png"@ || e == "svg"@ || e == "jpg"@ || e == "jpeg"@ || e
                == "webp"@)
            &&& ("favicon"@.is_prefix_of(s) || "icon"@.is_prefix_of(s) || "logo"@.is_prefix_of(s)
                || "apple-touch-icon"@.is_prefix_of(s) || "app-icon"@.is_prefix_of(s)
                || "avatar"@.is_prefix_of(s))
        },
    }
}

pub fn looks_like_an_icon(name: &str) -> (r: bool)
    ensures
        r == icon_like(name@),
{
    let whole = chars_of(name);
    let (stem, extension) = match rsplit_once_at(&whole, '.') {
        Some(parts) => parts,
        None => return false,
    };
    let e = to_ascii_lowercase(&extension);
    let s = to_ascii_lowercase(&stem);
    let picture = same(&e, &chars_of("ico")) || same(&e, &chars_of("png")) || same(
        &e,
        &chars_of("svg"),
    ) || same(&e, &chars_of("jpg")) || same(&e, &chars_of("jpeg")) || same(&e, &chars_of("webp"));
    let named = starts_with(&s, &chars_of("favicon")) || starts_with(&s, &chars_of("icon"))
        || starts_with(&s, &chars_of("logo")) || starts_with(&s, &chars_of("apple-touch-icon"))
        || starts_with(&s, &chars_of("app-icon")) || starts_with(&s, &chars_of("avatar"));
    picture && named
}

/// Whether a path is in the Nix store, which is never searched.
pub open spec fn in_store(path: Seq<char>) -> bool {
    path == "/nix/store"@ || "/nix/store/"@.is_prefix_of(path)
}

fn is_in_store(path: &String) -> (r: bool)
    ensures
        r == in_store(path@),
{
    let p = chars_of(path.as_str());
    same(&p, &chars_of("/nix/store")) || starts_with(&p, &chars_of("/nix/store/"))
}

/// How reading the state file went: there was none, it could not be read, it was read and
/// parsed, or it was read and nobody could parse it.
#[derive(PartialEq, Eq, Structural, Clone, Copy, Debug)]
pub enum StateRead {
    Missing,
    Failed,
    Parsed,
    Unparsable,
}

/// Whether the state may be written back. A state that came from a file nobody could parse
/// started from the defaults; writing it would replace the file, which a newer gg or a
/// hand edit may have written, so it is left alone. A state not read from a file may be.
pub fn may_write_state(read: Option<StateRead>) -> (allowed: bool)
    ensures
        allowed == (read != Some(StateRead::Unparsable)),
{
    match read {
        Some(StateRead::Unparsable) => false,
        _ => true,
    }
}

/// Whether a piece of a path between slashes names a part of it: `Path::components` drops
/// empty pieces, and `.` ones but for a leading `.`.
pub open spec fn names_part(piece: Seq<char>) -> bool {
    piece.len() > 0 && piece != "."@
}

/// The pieces that name parts, in order.
pub open spec fn named_parts(pieces: Seq<Seq<char>>) -> Seq<Seq<char>>
    decreases pieces.len(),
{
    if pieces.len() == 0 {
        Seq::empty()
    } else if names_part(pieces.last()) {
        named_parts(pieces.drop_last()).push(pieces.last())
    } else {
        named_parts(pieces.drop_last())
    }
}

/// A path as std's `Path` compares it on Unix, by its components: whether it starts at the
/// root, whether it starts with a `.` of its own, and its named parts in order. So `/a/b`,
/// `/a//b/` and `/a/./b` are one path, and `./a` and `a` are two.
pub open spec fn path_parts(path: Seq<char>) -> (bool, bool, Seq<Seq<char>>) {
    let pieces = split(path, '/');
    let rooted = path.len() > 0 && path[0] == '/';
    (rooted, !rooted && pieces[0] == "."@, named_parts(pieces))
}

pub open spec fn char_seqs(pieces: Seq<Vec<char>>) -> Seq<Seq<char>> {
    pieces.map_values(|p: Vec<char>| p@)
}

fn path_parts_of(path: &str) -> (parts: (bool, bool, Vec<Vec<char>>))
    ensures
        (parts.0, parts.1, char_seqs(parts.2@)) == path_parts(path@),
{
    let chars = chars_of(path);
    let pieces = split_at_char(&chars, '/');
    let ghost all = split(path@, '/');
    proof {
        crate::text::lemma_split_len(path@, '/');
        assert(char_seqs(pieces@) =~= all);
    }
    let rooted = chars.len() > 0 && chars[0] == '/';
    let dot = chars_of(".");
    let here = !rooted && same(&pieces[0], &dot);
    let mut named: Vec<Vec<char>> = Vec::new();
    for i in 0..pieces.len()
        invariant
            all == split(path@, '/'),
            char_seqs(pieces@) == all,
            dot@ == "."@,
            char_seqs(named@) == named_parts(all.take(i as int)),
    {
        assert(all.take(i + 1).drop_last() == all.take(i as int));
        assert(all.take(i + 1).last() == pieces@[i as int]@);
        if pieces[i].len() > 0 && !same(&pieces[i], &dot) {
            let ghost before = char_seqs(named@);
            let piece = crate::text::slice(&pieces[i], 0, pieces[i].len());
            assert(piece@ =~= pieces@[i as int]@);
            named.push(piece);
            assert(char_seqs(named@) =~= before.push(pieces@[i as int]@));
        }
    }
    assert(all.take(pieces.len() as int) == all);
    (rooted, here, named)
}

/// Whether two paths are one path to std's `Path`: the same parts, however many slashes and
/// `.` pieces stand between them.
pub fn same_path(a: &str, b: &str) -> (same: bool)
    ensures
        same == (path_parts(a@) == path_parts(b@)),
{
    let (rooted_a, here_a, named_a) = path_parts_of(a);
    let (rooted_b, here_b, named_b) = path_parts_of(b);
    if rooted_a != rooted_b || here_a != here_b || named_a.len() != named_b.len() {
        assert(path_parts(a@).2.len() == named_a.len() && path_parts(b@).2.len() == named_b.len());
        return false;
    }
    for i in 0..named_a.len()
        invariant
            named_a.len() == named_b.len(),
            path_parts(a@) == (rooted_a, here_a, char_seqs(named_a@)),
            path_parts(b@) == (rooted_b, here_b, char_seqs(named_b@)),
            char_seqs(named_a@).take(i as int) == char_seqs(named_b@).take(i as int),
    {
        if !same(&named_a[i], &named_b[i]) {
            assert(char_seqs(named_a@)[i as int] != char_seqs(named_b@)[i as int]);
            return false;
        }
        assert(char_seqs(named_a@).take(i + 1) == char_seqs(named_a@).take(i as int).push(
            named_a@[i as int]@,
        ));
        assert(char_seqs(named_b@).take(i + 1) == char_seqs(named_b@).take(i as int).push(
            named_b@[i as int]@,
        ));
    }
    assert(char_seqs(named_a@).take(named_a.len() as int) == char_seqs(named_a@));
    assert(char_seqs(named_b@).take(named_b.len() as int) == char_seqs(named_b@));
    true
}

/// The icon a repository has been given, relative to it so it survives the checkout being
/// moved.
#[derive(Clone)]
pub struct Icon {
    pub repository: String,
    pub file: String,
}

pub open spec fn icon_views(icons: Seq<Icon>) -> Seq<(Seq<char>, Seq<char>)> {
    icons.map_values(|i: Icon| (i.repository@, i.file@))
}

/// The first icon remembered for a repository.
pub open spec fn icon_for(icons: Seq<(Seq<char>, Seq<char>)>, repository: Seq<char>) -> Option<Seq<char>>
    decreases icons.len(),
{
    if icons.len() == 0 {
        None
    } else if path_parts(icons[0].0) == path_parts(repository) {
        Some(icons[0].1)
    } else {
        icon_for(icons.drop_first(), repository)
    }
}

/// The icon file remembered for a repository, as a path.
pub fn icon(icons: &Vec<Icon>, repository: &str) -> (file: Option<String>)
    ensures
        match file {
            Some(f) => icon_for(icon_views(icons@), repository@) matches Some(rel) && f@ == path_join(
                repository@,
                rel,
            ),
            None => icon_for(icon_views(icons@), repository@) is None,
        },
{
    let ghost all = icon_views(icons@);
    let mut i: usize = 0;
    assert(all.skip(0) == all);
    while i < icons.len()
        invariant
            i <= icons.len(),
            all == icon_views(icons@),
            icon_for(all, repository@) == icon_for(all.skip(i as int), repository@),
        decreases icons.len() - i,
    {
        assert(all.skip(i as int).drop_first() == all.skip(i + 1));
        assert(all.skip(i as int)[0] == (icons@[i as int].repository@, icons@[i as int].file@));
        if same_path(icons[i].repository.as_str(), repository) {
            return Some(join(repository, icons[i].file.as_str()));
        }
        i = i + 1;
    }
    None
}

/// The icons remembered for repositories other than this one, in order.
pub open spec fn other_icons(icons: Seq<(Seq<char>, Seq<char>)>, repository: Seq<char>) -> Seq<
    (Seq<char>, Seq<char>),
>
    decreases icons.len(),
{
    if icons.len() == 0 {
        Seq::empty()
    } else if path_parts(icons.last().0) != path_parts(repository) {
        other_icons(icons.drop_last(), repository).push(icons.last())
    } else {
        other_icons(icons.drop_last(), repository)
    }
}

/// Remembers `file` as a repository's icon, in place of any it had.
pub fn set_icon(icons: &mut Vec<Icon>, repository: &str, file: String)
    ensures
        icon_views(final(icons)@) == other_icons(icon_views(old(icons)@), repository@).push(
            (repository@, file@),
        ),
{
    let ghost start = icon_views(icons@);
    let mut kept: Vec<Icon> = Vec::new();
    let mut rest: Vec<Icon> = Vec::new();
    std::mem::swap(&mut rest, icons);
    assert(icon_views(rest@) == start);
    let mut taken: usize = 0;
    let count = rest.len();
    while rest.len() > 0
        invariant
            start.len() == count,
            taken <= count,
            icon_views(rest@) == start.skip(taken as int),
            icon_views(kept@) == other_icons(start.take(taken as int), repository@),
        decreases rest.len(),
    {
        let ghost before_rest = rest@;
        assert(icon_views(before_rest).len() == start.len() - taken);
        assert(taken < count);
        let icon = rest.remove(0);
        proof {
            assert(icon_views(before_rest)[0] == start[taken as int]);
            assert(icon_views(rest@) =~= icon_views(before_rest).drop_first());
            assert(icon_views(rest@) =~= start.skip(taken + 1));
            assert(start.take(taken + 1).drop_last() == start.take(taken as int));
            assert(start.take(taken + 1).last() == (icon.repository@, icon.file@));
        }
        if !same_path(icon.repository.as_str(), repository) {
            let ghost before = icon_views(kept@);
            kept.push(icon);
            assert(icon_views(kept@) =~= before.push(icon_views(kept@).last()));
        }
        taken = taken + 1;
    }
    assert(start.take(taken as int) == start);
    let ghost before = icon_views(kept@);
    kept.push(Icon { repository: repository.to_owned(), file });
    assert(icon_views(kept@) =~= before.push((repository@, icon_views(kept@).last().1)));
    *icons = kept;
}

/// Whether `paths` holds one that is the same path as `path`.
pub open spec fn lists_path(paths: Seq<Seq<char>>, path: Seq<char>) -> bool {
    exists|j: int| 0 <= j < paths.len() && path_parts(#[trigger] paths[j]) == path_parts(path)
}

/// Paths with every one that is the same path as an earlier one left out.
pub open spec fn distinct_paths(paths: Seq<Seq<char>>) -> Seq<Seq<char>>
    decreases paths.len(),
{
    if paths.len() == 0 {
        Seq::empty()
    } else {
        let kept = distinct_paths(paths.drop_last());
        if lists_path(kept, paths.last()) {
            kept
        } else {
            kept.push(paths.last())
        }
    }
}

/// Whether `paths` holds one that is the same path as `path`.
fn holds_path(paths: &Vec<String>, path: &String) -> (held: bool)
    ensures
        held == lists_path(texts(paths@), path@),
{
    for i in 0..paths.len()
        invariant
            forall|j: int| 0 <= j < i ==> path_parts(paths@[j]@) != path_parts(path@),
    {
        if same_path(paths[i].as_str(), path.as_str()) {
            assert(path_parts(texts(paths@)[i as int]) == path_parts(path@));
            return true;
        }
    }
    assert forall|j: int| 0 <= j < texts(paths@).len() implies path_parts(
        #[trigger] texts(paths@)[j],
    ) != path_parts(path@) by {
        assert(texts(paths@)[j] == paths@[j]@);
    }
    false
}

/// The paths left hold no path twice, each came from the paths given, and every path given
/// is among them.
proof fn lemma_distinct_paths(names: Seq<Seq<char>>)
    ensures
        forall|i: int, j: int|
            0 <= i < j < distinct_paths(names).len() ==> path_parts(
                #[trigger] distinct_paths(names)[i],
            ) != path_parts(#[trigger] distinct_paths(names)[j]),
        forall|i: int|
            0 <= i < distinct_paths(names).len() ==> names.contains(#[trigger] distinct_paths(names)[i]),
        forall|k: int| 0 <= k < names.len() ==> lists_path(distinct_paths(names), #[trigger] names[k]),
    decreases names.len(),
{
    if names.len() > 0 {
        let rest = names.drop_last();
        lemma_distinct_paths(rest);
        let kept = distinct_paths(rest);
        let last = names.last();
        assert forall|i: int| 0 <= i < kept.len() implies names.contains(#[trigger] kept[i]) by {
            let w = choose|w: int| 0 <= w < rest.len() && rest[w] == kept[i];
            assert(names[w] == kept[i]);
        }
        if lists_path(kept, last) {
            assert forall|k: int| 0 <= k < names.len() implies lists_path(kept, #[trigger] names[k]) by {
                if k < rest.len() {
                    assert(rest[k] == names[k]);
                }
            }
        } else {
            let d = kept.push(last);
            assert(distinct_paths(names) == d);
            assert forall|i: int, j: int| 0 <= i < j < d.len() implies path_parts(#[trigger] d[i])
                != path_parts(#[trigger] d[j]) by {
                if j == kept.len() {
                    assert(d[i] == kept[i]);
                    assert(d[j] == last);
                } else {
                    assert(d[i] == kept[i] && d[j] == kept[j]);
                }
            }
            assert forall|i: int| 0 <= i < d.len() implies names.contains(#[trigger] d[i]) by {
                if i < kept.len() {
                    assert(d[i] == kept[i]);
                } else {
                    assert(names[names.len() - 1] == d[i]);
                }
            }
            assert forall|k: int| 0 <= k < names.len() implies lists_path(d, #[trigger] names[k]) by {
                if k < rest.len() {
                    assert(rest[k] == names[k]);
                    assert(lists_path(kept, rest[k]));
                    let j = choose|j: int| 0 <= j < kept.len() && path_parts(#[trigger] kept[j])
                        == path_parts(rest[k]);
                    assert(d[j] == kept[j]);
                } else {
                    assert(d[kept.len() as int] == names[k]);
                }
            }
        }
    }
}

proof fn lemma_distinct_paths_prefix(first: Seq<Seq<char>>, more: Seq<Seq<char>>)
    ensures
        distinct_paths(first + more).len() >= distinct_paths(first).len(),
        distinct_paths(first + more).take(distinct_paths(first).len() as int) == distinct_paths(first),
    decreases more.len(),
{
    if more.len() == 0 {
        assert(first + more == first);
        assert(distinct_paths(first).take(distinct_paths(first).len() as int) == distinct_paths(first));
    } else {
        lemma_distinct_paths_prefix(first, more.drop_last());
        assert((first + more).drop_last() == first + more.drop_last());
        assert((first + more).last() == more.last());
    }
}

/// The repositories the list shows: the configured paths and then the remembered ones, in
/// the order they were written, then whatever the search of each configured directory
/// turned up, each repository once, where it first came.
pub fn repositories(config: &Config, remembered: &Vec<String>, found: &Vec<Vec<String>>) -> (listed: Vec<String>)
    ensures
        texts(listed@) == distinct_paths(
            texts(config.paths@) + texts(remembered@) + found@.map_values(|f: Vec<String>| texts(f@)).flatten(),
        ),
{
    let ghost everything = texts(config.paths@) + texts(remembered@) + found@.map_values(
        |f: Vec<String>| texts(f@),
    ).flatten();
    let mut all: Vec<String> = Vec::new();
    for i in 0..config.paths.len()
        invariant
            texts(all@) == texts(config.paths@).take(i as int),
    {
        let ghost before = texts(all@);
        let copy = config.paths[i].clone();
        assert(copy@ == config.paths@[i as int]@);
        all.push(copy);
        assert(texts(all@) =~= before.push(config.paths@[i as int]@));
        assert(texts(all@) =~= texts(config.paths@).take(i + 1));
    }
    assert(texts(config.paths@).take(config.paths.len() as int) == texts(config.paths@));
    for i in 0..remembered.len()
        invariant
            texts(all@) == texts(config.paths@) + texts(remembered@).take(i as int),
    {
        let ghost before = texts(all@);
        let copy = remembered[i].clone();
        assert(copy@ == remembered@[i as int]@);
        all.push(copy);
        assert(texts(all@) =~= before.push(remembered@[i as int]@));
        assert(texts(all@) =~= texts(config.paths@) + texts(remembered@).take(i + 1));
    }
    assert(texts(remembered@).take(remembered.len() as int) == texts(remembered@));
    let ghost firsts = texts(all@);
    for d in 0..found.len()
        invariant
            firsts == texts(config.paths@) + texts(remembered@),
            texts(all@) == firsts + found@.take(d as int).map_values(|f: Vec<String>| texts(f@)).flatten(),
    {
        let ghost before = texts(all@);
        let these = &found[d];
        for k in 0..these.len()
            invariant
                d < found.len(),
                these == found@[d as int],
                texts(all@) == before + texts(found@[d as int]@).take(k as int),
        {
            let ghost was = texts(all@);
            let copy = these[k].clone();
            assert(copy@ == these@[k as int]@);
            all.push(copy);
            assert(texts(all@) =~= was.push(these@[k as int]@));
            assert(texts(all@) =~= before + texts(found@[d as int]@).take(k + 1));
        }
        proof {
            assert(texts(found@[d as int]@).take(found@[d as int]@.len() as int) == texts(found@[d as int]@));
            let prefix = found@.take(d as int).map_values(|f: Vec<String>| texts(f@));
            let grown = found@.take(d + 1).map_values(|f: Vec<String>| texts(f@));
            assert(grown == prefix.push(texts(found@[d as int]@)));
            prefix.lemma_flatten_push(texts(found@[d as int]@));
        }
    }
    assert(found@.take(found.len() as int) == found@);
    let mut listed: Vec<String> = Vec::new();
    for i in 0..all.len()
        invariant
            texts(listed@) == distinct_paths(texts(all@).take(i as int)),
    {
        assert(texts(all@).take(i + 1).drop_last() == texts(all@).take(i as int));
        if !holds_path(&listed, &all[i]) {
            let ghost before = texts(listed@);
            listed.push(all[i].clone());
            assert(texts(listed@) =~= before.push(all@[i as int]@));
        }
    }
    assert(texts(all@).take(all.len() as int) == texts(all@));
    listed
}

proof fn lemma_others_lack(icons: Seq<(Seq<char>, Seq<char>)>, repository: Seq<char>, i: int)
    requires
        0 <= i < other_icons(icons, repository).len(),
    ensures
        path_parts(other_icons(icons, repository)[i].0) != path_parts(repository),
    decreases icons.len(),
{
    if icons.len() > 0 {
        let rest = other_icons(icons.drop_last(), repository);
        if i < rest.len() {
            lemma_others_lack(icons.drop_last(), repository, i);
        }
    }
}

proof fn lemma_icon_for_past(icons: Seq<(Seq<char>, Seq<char>)>, later: (Seq<char>, Seq<char>), repository: Seq<char>)
    ensures
        icon_for(icons.push(later), repository) == match icon_for(icons, repository) {
            Some(f) => Some(f),
            None => if path_parts(later.0) == path_parts(repository) {
                Some(later.1)
            } else {
                None
            },
        },
    decreases icons.len(),
{
    let grown = icons.push(later);
    if icons.len() > 0 {
        assert(grown.drop_first() == icons.drop_first().push(later));
        assert(grown[0] == icons[0]);
        lemma_icon_for_past(icons.drop_first(), later, repository);
        if path_parts(icons[0].0) == path_parts(repository) {
            assert(icon_for(grown, repository) == Some(icons[0].1));
            assert(icon_for(icons, repository) == Some(icons[0].1));
        } else {
            assert(icon_for(grown, repository) == icon_for(grown.drop_first(), repository));
            assert(icon_for(icons, repository) == icon_for(icons.drop_first(), repository));
        }
    } else {
        assert(grown.drop_first() == Seq::<(Seq<char>, Seq<char>)>::empty());
        assert(grown[0] == later);
        assert(icon_for(icons, repository) is None);
        assert(icon_for(grown.drop_first(), repository) is None);
    }
}

proof fn lemma_icon_for_others(icons: Seq<(Seq<char>, Seq<char>)>, repository: Seq<char>, other: Seq<char>)
    ensures
        path_parts(other) != path_parts(repository) ==> icon_for(other_icons(icons, repository), other)
            == icon_for(icons, other),
        icon_for(other_icons(icons, repository), repository) is None,
    decreases icons.len(),
{
    if icons.len() > 0 {
        let rest = icons.drop_last();
        lemma_icon_for_others(rest, repository, other);
        assert(icons == rest.push(icons.last()));
        lemma_icon_for_past(rest, icons.last(), other);
        lemma_icon_for_past(rest, icons.last(), repository);
        if path_parts(icons.last().0) != path_parts(repository) {
            lemma_icon_for_past(other_icons(rest, repository), icons.last(), other);
            lemma_icon_for_past(other_icons(rest, repository), icons.last(), repository);
        }
    }
}

/// An icon set for a repository is the one it is then shown with, and every other
/// repository, one that is not the same path, keeps the icon it had.
pub proof fn lemma_set_icon(icons: Seq<(Seq<char>, Seq<char>)>, repository: Seq<char>, file: Seq<char>, other: Seq<char>)
    ensures
        icon_for(other_icons(icons, repository).push((repository, file)), repository) == Some(file),
        path_parts(other) != path_parts(repository) ==> icon_for(
            other_icons(icons, repository).push((repository, file)),
            other,
        ) == icon_for(icons, other),
{
    lemma_icon_for_others(icons, repository, other);
    lemma_icon_for_past(other_icons(icons, repository), (repository, file), repository);
    lemma_icon_for_past(other_icons(icons, repository), (repository, file), other);
}

/// The repositories listed hold each path once, however it is spelled; each is one of the
/// paths given and every path given is listed; and the configured and remembered ones come
/// first, in the order they were written.
pub proof fn lemma_repositories_order(explicit: Seq<Seq<char>>, scanned: Seq<Seq<char>>)
    ensures
        ({
            let listed = distinct_paths(explicit + scanned);
            &&& forall|i: int, j: int|
                0 <= i < j < listed.len() ==> path_parts(#[trigger] listed[i]) != path_parts(
                    #[trigger] listed[j],
                )
            &&& forall|i: int| 0 <= i < listed.len() ==> (explicit + scanned).contains(#[trigger] listed[i])
            &&& forall|k: int|
                0 <= k < (explicit + scanned).len() ==> lists_path(listed, #[trigger] (explicit + scanned)[k])
            &&& listed.take(distinct_paths(explicit).len() as int) == distinct_paths(explicit)
        }),
{
    lemma_distinct_paths(explicit + scanned);
    lemma_distinct_paths_prefix(explicit, scanned);
}

/// A sequence back to front.
pub open spec fn reversed<T>(s: Seq<T>) -> Seq<T> {
    Seq::new(s.len(), |i: int| s[s.len() - 1 - i])
}

/// A directory waiting to be searched, by value: its path and its depth below the start.
pub open spec fn waiting_views(pending: Seq<(String, usize)>) -> Seq<(Seq<char>, nat)> {
    pending.map_values(|p: (String, usize)| (p.0@, p.1 as nat))
}

/// The next directory a search looks at, and what is left waiting: the last one waiting that
/// is within the depth and outside the store, those after it passed over.
pub open spec fn next_waiting(pending: Seq<(Seq<char>, nat)>, depth: nat) -> (Seq<(Seq<char>, nat)>, Option<(Seq<char>, nat)>)
    decreases pending.len(),
{
    if pending.len() == 0 {
        (pending, None)
    } else if pending.last().1 <= depth && !in_store(pending.last().0) {
        (pending.drop_last(), Some(pending.last()))
    } else {
        next_waiting(pending.drop_last(), depth)
    }
}

/// The subdirectories a listing names, in std's order of names: what a search goes into.
pub open spec fn subdirectories(entries: Seq<(String, bool)>) -> Seq<Seq<char>>
    decreases entries.len(),
{
    if entries.len() == 0 {
        Seq::empty()
    } else if entries.last().1 && !never_scanned(entries.last().0@) {
        subdirectories(entries.drop_last()).push(entries.last().0@)
    } else {
        subdirectories(entries.drop_last())
    }
}

/// A search of a configured directory for repositories, one directory at a time: a
/// directory holding `.git` is a repository and is not searched further; otherwise its
/// subdirectories are, in the order of their names, down to a depth where a tree is a
/// vendored checkout of somebody else's rather than the user's. The caller looks at each
/// directory [`Scan::next_directory`] names and tells [`Scan::look`] what it saw.
pub struct Scan {
    /// The directories still to look at, the next one last, each with its depth.
    pub pending: Vec<(String, usize)>,
    /// The directory being looked at, with its depth.
    pub current: Option<(String, usize)>,
    /// The repositories found so far.
    pub found: Vec<String>,
}

pub open spec fn current_view(current: Option<(String, usize)>) -> Option<(Seq<char>, nat)> {
    match current {
        Some((d, n)) => Some((d@, n as nat)),
        None => None,
    }
}

/// Starts a search of `directory`.
pub fn scan(directory: &str) -> (search: Scan)
    ensures
        waiting_views(search.pending@) == seq![(directory@, 0nat)],
        search.current is None,
        search.found@.len() == 0,
{
    let mut pending: Vec<(String, usize)> = Vec::new();
    pending.push((directory.to_owned(), 0));
    assert(waiting_views(pending@) =~= seq![(directory@, 0nat)]);
    Scan { pending, current: None, found: Vec::new() }
}

fn take_next(pending: &mut Vec<(String, usize)>, depth: usize) -> (next: Option<(String, usize)>)
    ensures
        (waiting_views(final(pending)@), current_view(next)) == next_waiting(
            waiting_views(old(pending)@),
            depth as nat,
        ),
{
    while pending.len() > 0
        invariant
            next_waiting(waiting_views(pending@), depth as nat) == next_waiting(
                waiting_views(old(pending)@),
                depth as nat,
            ),
        decreases pending.len(),
    {
        let ghost before = pending@;
        let (directory, level) = pending.pop().unwrap();
        proof {
            assert(waiting_views(pending@) == waiting_views(before).drop_last());
            assert(waiting_views(before).last() == (directory@, level as nat));
        }
        if level <= depth && !is_in_store(&directory) {
            return Some((directory, level));
        }
    }
    None
}

impl Scan {
    /// The next directory to look at, or none when the search is over.
    pub fn next_directory(&mut self) -> (next: Option<String>)
        ensures
            ({
                let (rest, chosen) = next_waiting(waiting_views(old(self).pending@), SCAN_DEPTH as nat);
                &&& waiting_views(final(self).pending@) == rest
                &&& current_view(final(self).current) == chosen
                &&& match next {
                    Some(d) => chosen matches Some((c, _)) && d@ == c,
                    None => chosen is None,
                }
            }),
            final(self).found@ == old(self).found@,
    {
        let chosen = take_next(&mut self.pending, SCAN_DEPTH);
        let next = match &chosen {
            Some((d, _)) => Some(d.clone()),
            None => None,
        };
        self.current = chosen;
        next
    }

    /// What the caller saw of the current directory: whether it holds `.git`, and its
    /// entries, each with whether it is a directory (a link is not followed, so a link back
    /// up the tree cannot turn the search into a loop), or none when it could not be read.
    pub fn look(&mut self, is_repository: bool, entries: Option<Vec<(String, bool)>>)
        requires
            old(self).current matches Some((_, depth)) && depth <= SCAN_DEPTH,
        ensures
            final(self).current is None,
            ({
                let (directory, depth) = current_view(old(self).current).unwrap();
                &&& texts(final(self).found@) == if is_repository {
                    texts(old(self).found@).push(directory)
                } else {
                    texts(old(self).found@)
                }
                &&& waiting_views(final(self).pending@) == waiting_views(old(self).pending@) + if !is_repository
                    && entries is Some {
                    reversed(in_text_order(subdirectories(entries.unwrap()@))).map_values(
                        |name: Seq<char>| (path_join(directory, name), depth + 1nat),
                    )
                } else {
                    Seq::empty()
                }
            }),
    {
        let (directory, depth) = match self.current.take() {
            Some(c) => c,
            None => return,
        };
        if is_repository {
            let ghost before = texts(self.found@);
            self.found.push(directory);
            assert(texts(self.found@) =~= before.push(texts(self.found@).last()));
            return;
        }
        let entries = match entries {
            Some(e) => e,
            None => {
                assert(waiting_views(self.pending@) =~= waiting_views(old(self).pending@) + Seq::empty());
                return;
            },
        };
        let mut names: Vec<String> = Vec::new();
        for i in 0..entries.len()
            invariant
                texts(names@) == subdirectories(entries@.take(i as int)),
        {
            assert(entries@.take(i + 1).drop_last() == entries@.take(i as int));
            assert(entries@.take(i + 1).last() == entries@[i as int]);
            if entries[i].1 && !is_never_scanned(&chars_of(entries[i].0.as_str())) {
                let ghost before = texts(names@);
                names.push(entries[i].0.clone());
                assert(texts(names@) =~= before.push(entries@[i as int].0@));
            }
        }
        assert(entries@.take(entries.len() as int) == entries@);
        let sorted = crate::text::sort_texts(names);
        let ghost start = waiting_views(self.pending@);
        let ghost order = texts(sorted@);
        let mut k = sorted.len();
        while k > 0
            invariant
                k <= sorted.len(),
                depth <= SCAN_DEPTH,
                order == texts(sorted@),
                self.current is None,
                self.found@ == old(self).found@,
                current_view(old(self).current) == Some((directory@, depth as nat)),
                waiting_views(self.pending@) == start + reversed(order).take(
                    (order.len() - k) as int,
                ).map_values(|name: Seq<char>| (path_join(directory@, name), (depth + 1) as nat)),
            decreases k,
        {
            let ghost before = waiting_views(self.pending@);
            self.pending.push((join(directory.as_str(), sorted[k - 1].as_str()), depth + 1));
            proof {
                let n = (order.len() - k) as int;
                assert(reversed(order)[n] == order[k - 1]);
                assert(reversed(order).take(n + 1) == reversed(order).take(n).push(order[k - 1]));
                assert(waiting_views(self.pending@) =~= before.push(
                    (path_join(directory@, order[k - 1]), (depth + 1) as nat),
                ));
            }
            k = k - 1;
        }
        assert(reversed(order).take(order.len() as int) == reversed(order));
    }
}

/// The entries of a listing an icon search cares about: the names of the files that look
/// like icons, and the names of the subdirectories, neither of them among the names that
/// hold someone else's tree or a built copy.
pub open spec fn icon_entries(entries: Seq<(String, bool, bool)>) -> (Seq<Seq<char>>, Seq<Seq<char>>)
    decreases entries.len(),
{
    if entries.len() == 0 {
        (Seq::empty(), Seq::empty())
    } else {
        let (files, directories) = icon_entries(entries.drop_last());
        let (name, is_directory, is_file) = (
            entries.last().0@,
            entries.last().1,
            entries.last().2,
        );
        if never_scanned(name) || never_an_icon(name) {
            (files, directories)
        } else if is_directory {
            (files, directories.push(name))
        } else if is_file && icon_like(name) {
            (files.push(name), directories)
        } else {
            (files, directories)
        }
    }
}

pub open spec fn icon_waiting_views(pending: Seq<(String, String, usize)>) -> Seq<(Seq<char>, Seq<char>, nat)> {
    pending.map_values(|p: (String, String, usize)| (p.0@, p.1@, p.2 as nat))
}

/// The next directory an icon search looks at, and what is left waiting: none once enough
/// icons are found; else the last one waiting within the depth and outside the store.
pub open spec fn next_icon_waiting(pending: Seq<(Seq<char>, Seq<char>, nat)>, found: nat) -> (Seq<(Seq<char>, Seq<char>, nat)>, Option<(Seq<char>, Seq<char>, nat)>)
    decreases pending.len(),
{
    if pending.len() == 0 {
        (pending, None)
    } else if pending.last().2 <= ICON_DEPTH && found < ICON_LIMIT && !in_store(pending.last().0) {
        (pending.drop_last(), Some(pending.last()))
    } else {
        next_icon_waiting(pending.drop_last(), found)
    }
}

/// A search of a repository for the files that look like they are meant to stand for the
/// project, bounded the way [`Scan`] is so a deep tree cannot stall the picker: no deeper
/// than the usual places for them, and no more of them than a picker can offer. Each
/// directory's icons come before its subdirectories', both in the order of their names.
pub struct IconScan {
    /// The directories still to look at, the next one last: each as a path, as a path
    /// within the repository, and with its depth.
    pub pending: Vec<(String, String, usize)>,
    pub current: Option<(String, String, usize)>,
    /// The icons found so far, as paths within the repository.
    pub found: Vec<String>,
}

pub open spec fn icon_current_view(current: Option<(String, String, usize)>) -> Option<(Seq<char>, Seq<char>, nat)> {
    match current {
        Some((a, r, n)) => Some((a@, r@, n as nat)),
        None => None,
    }
}

/// Starts a search of `repository` for icons.
pub fn icon_files(repository: &str) -> (search: IconScan)
    ensures
        icon_waiting_views(search.pending@) == seq![(repository@, Seq::<char>::empty(), 0nat)],
        search.current is None,
        search.found@.len() == 0,
{
    let mut pending: Vec<(String, String, usize)> = Vec::new();
    pending.push((repository.to_owned(), String::new(), 0));
    assert(icon_waiting_views(pending@) =~= seq![(repository@, Seq::<char>::empty(), 0nat)]);
    IconScan { pending, current: None, found: Vec::new() }
}

impl IconScan {
    /// The next directory to look at, or none when the search is over.
    pub fn next_directory(&mut self) -> (next: Option<String>)
        ensures
            ({
                let (rest, chosen) = next_icon_waiting(
                    icon_waiting_views(old(self).pending@),
                    old(self).found@.len(),
                );
                &&& icon_waiting_views(final(self).pending@) == rest
                &&& icon_current_view(final(self).current) == chosen
                &&& match next {
                    Some(d) => chosen matches Some((c, _, _)) && d@ == c,
                    None => chosen is None,
                }
            }),
            final(self).found@ == old(self).found@,
    {
        let full = self.found.len() >= ICON_LIMIT;
        while self.pending.len() > 0
            invariant
                self.found@ == old(self).found@,
                full == (self.found@.len() >= ICON_LIMIT),
                next_icon_waiting(icon_waiting_views(self.pending@), self.found@.len())
                    == next_icon_waiting(icon_waiting_views(old(self).pending@), old(self).found@.len()),
            decreases self.pending.len(),
        {
            let ghost before = self.pending@;
            let (directory, relative, level) = self.pending.pop().unwrap();
            proof {
                assert(icon_waiting_views(self.pending@) == icon_waiting_views(before).drop_last());
                assert(icon_waiting_views(before).last() == (directory@, relative@, level as nat));
            }
            if level <= ICON_DEPTH && !full && !is_in_store(&directory) {
                let next = directory.clone();
                self.current = Some((directory, relative, level));
                return Some(next);
            }
        }
        self.current = None;
        None
    }

    /// What the caller saw of the current directory: each entry's name, whether it is a
    /// directory and whether it is a file, or none when it could not be read.
    pub fn look(&mut self, entries: Option<Vec<(String, bool, bool)>>)
        requires
            old(self).current matches Some((_, _, depth)) && depth <= ICON_DEPTH,
            old(self).found@.len() <= ICON_LIMIT,
        ensures
            final(self).current is None,
            final(self).found@.len() <= ICON_LIMIT,
            ({
                let (directory, relative, depth) = icon_current_view(old(self).current).unwrap();
                let (files, directories) = match entries {
                    Some(e) => icon_entries(e@),
                    None => (Seq::empty(), Seq::empty()),
                };
                let room = (ICON_LIMIT - old(self).found@.len()) as int;
                let shown = in_text_order(files).map_values(|name: Seq<char>| path_join(relative, name));
                &&& texts(final(self).found@) == texts(old(self).found@) + shown.take(
                    if shown.len() < room {
                        shown.len() as int
                    } else {
                        room
                    },
                )
                &&& icon_waiting_views(final(self).pending@) == icon_waiting_views(old(self).pending@)
                    + if shown.len() < room {
                    reversed(in_text_order(directories)).map_values(
                        |name: Seq<char>|
                            (path_join(directory, name), path_join(relative, name), depth + 1nat),
                    )
                } else {
                    Seq::empty()
                }
            }),
    {
        let (directory, relative, depth) = match self.current.take() {
            Some(c) => c,
            None => return,
        };
        let entries = match entries {
            Some(e) => e,
            None => Vec::new(),
        };
        let mut files: Vec<String> = Vec::new();
        let mut children: Vec<String> = Vec::new();
        for i in 0..entries.len()
            invariant
                (texts(files@), texts(children@)) == icon_entries(entries@.take(i as int)),
        {
            assert(entries@.take(i + 1).drop_last() == entries@.take(i as int));
            assert(entries@.take(i + 1).last() == entries@[i as int]);
            let name = chars_of(entries[i].0.as_str());
            if is_never_scanned(&name) || is_never_an_icon(&name) {
            } else if entries[i].1 {
                let ghost before = texts(children@);
                children.push(entries[i].0.clone());
                assert(texts(children@) =~= before.push(entries@[i as int].0@));
            } else if entries[i].2 && looks_like_an_icon(entries[i].0.as_str()) {
                let ghost before = texts(files@);
                files.push(entries[i].0.clone());
                assert(texts(files@) =~= before.push(entries@[i as int].0@));
            }
        }
        assert(entries@.take(entries.len() as int) == entries@);
        let files = crate::text::sort_texts(files);
        let children = crate::text::sort_texts(children);
        let ghost start = texts(self.found@);
        let ghost shown = texts(files@).map_values(|name: Seq<char>| path_join(relative@, name));
        let ghost room = (ICON_LIMIT - self.found@.len()) as int;
        let mut k: usize = 0;
        while k < files.len() && self.found.len() < ICON_LIMIT
            invariant
                k <= files.len(),
                shown == texts(files@).map_values(|name: Seq<char>| path_join(relative@, name)),
                room == ICON_LIMIT - start.len(),
                0 <= room,
                k <= room,
                self.found@.len() == start.len() + k,
                texts(self.found@) == start + shown.take(k as int),
                self.current is None,
                self.pending@ == old(self).pending@,
                icon_current_view(old(self).current) == Some((directory@, relative@, depth as nat)),
                depth <= ICON_DEPTH,
            decreases files.len() - k,
        {
            let ghost before = texts(self.found@);
            self.found.push(join(relative.as_str(), files[k].as_str()));
            assert(texts(self.found@) =~= before.push(shown[k as int]));
            assert(shown.take(k + 1) =~= shown.take(k as int).push(shown[k as int]));
            k = k + 1;
        }
        assert(k == (if shown.len() < room {
            shown.len() as int
        } else {
            room
        }));
        if self.found.len() >= ICON_LIMIT {
            assert(!(shown.len() < room));
            assert(icon_waiting_views(self.pending@) =~= icon_waiting_views(old(self).pending@) + Seq::empty());
            return;
        }
        let ghost waiting = icon_waiting_views(self.pending@);
        let ghost order = texts(children@);
        let mut j = children.len();
        while j > 0
            invariant
                j <= children.len(),
                depth <= ICON_DEPTH,
                order == texts(children@),
                self.current is None,
                self.found@.len() <= ICON_LIMIT,
                texts(self.found@) == start + shown.take(shown.len() as int),
                icon_current_view(old(self).current) == Some((directory@, relative@, depth as nat)),
                icon_waiting_views(self.pending@) == waiting + reversed(order).take(
                    (order.len() - j) as int,
                ).map_values(
                    |name: Seq<char>|
                        (path_join(directory@, name), path_join(relative@, name), (depth + 1) as nat),
                ),
            decreases j,
        {
            let ghost before = icon_waiting_views(self.pending@);
            self.pending.push(
                (
                    join(directory.as_str(), children[j - 1].as_str()),
                    join(relative.as_str(), children[j - 1].as_str()),
                    depth + 1,
                ),
            );
            proof {
                let n = (order.len() - j) as int;
                assert(reversed(order)[n] == order[j - 1]);
                assert(reversed(order).take(n + 1) == reversed(order).take(n).push(order[j - 1]));
                assert(icon_waiting_views(self.pending@) =~= before.push(
                    (path_join(directory@, order[j - 1]), path_join(relative@, order[j - 1]), (depth + 1) as nat),
                ));
            }
            j = j - 1;
        }
        assert(reversed(order).take(order.len() as int) == reversed(order));
    }
}

/// The repository opened when none is named: the last one opened while it is still listed,
/// else the first one listed.
pub fn known_repository(last_opened: &Option<String>, repositories: &Vec<String>) -> (known: Option<String>)
    ensures
        match known {
            Some(k) => match last_opened {
                Some(l) => if lists_path(texts(repositories@), l@) {
                    k@ == l@
                } else {
                    repositories@.len() > 0 && k@ == repositories@[0]@
                },
                None => repositories@.len() > 0 && k@ == repositories@[0]@,
            },
            None => repositories@.len() == 0,
        },
{
    match last_opened {
        Some(l) => {
            if holds_path(repositories, l) {
                return Some(l.clone());
            }
        },
        None => {},
    }
    if repositories.len() > 0 {
        Some(repositories[0].clone())
    } else {
        None
    }
}

pub open spec fn opened_view(value: Option<String>) -> Option<Seq<char>> {
    match value {
        Some(v) => Some(v@),
        None => None,
    }
}

/// Records which repository opened. One named on the command line, or found where the
/// program started (`remember`), joins the list and the state file's paths when it is new;
/// one that is listed becomes the last one opened. Says whether the state file has to be
/// written.
pub fn note_opened(
    repositories: &mut Vec<String>,
    paths: &mut Vec<String>,
    last_opened: &mut Option<String>,
    opened: &str,
    remember: bool,
) -> (changed: bool)
    ensures
        ({
            let listed = lists_path(texts(old(repositories)@), opened@);
            let added = remember && !listed;
            let noted = (listed || added) && !(opened_view(*old(last_opened)) matches Some(l)
                && path_parts(l) == path_parts(opened@));
            &&& texts(final(repositories)@) == if added {
                texts(old(repositories)@).push(opened@)
            } else {
                texts(old(repositories)@)
            }
            &&& texts(final(paths)@) == if added {
                texts(old(paths)@).push(opened@)
            } else {
                texts(old(paths)@)
            }
            &&& opened_view(*final(last_opened)) == if noted {
                Some(opened@)
            } else {
                opened_view(*old(last_opened))
            }
            &&& changed == (added || noted)
        }),
{
    let path = opened.to_owned();
    let listed = holds_path(repositories, &path);
    let added = remember && !listed;
    if added {
        let ghost before = texts(repositories@);
        repositories.push(path.clone());
        assert(texts(repositories@) =~= before.push(opened@));
        let ghost before_paths = texts(paths@);
        paths.push(path.clone());
        assert(texts(paths@) =~= before_paths.push(opened@));
    }
    let same_as_last = match last_opened {
        Some(l) => same_path(l.as_str(), opened),
        None => false,
    };
    let noted = (listed || added) && !same_as_last;
    if noted {
        *last_opened = Some(path);
    }
    added || noted
}

} // verus!
