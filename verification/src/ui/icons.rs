//! Which picture stands for a file, a folder, a forge or an action. The pictures themselves
//! are drawn by the window.
use crate::text::{chars_of, contains, rsplit_once, rsplit_once_at, same, to_ascii_lowercase};
use crate::text::{ascii_lowercase, contains_text};
use vstd::prelude::*;

verus! {

/// The glyphs drawn for actions and marks.
#[derive(PartialEq, Eq, Structural, Clone, Copy, Debug)]
pub enum Glyph {
    Sliders,
    Bell,
    Cross,
    /// The neutral card, for a repository with no icon of its own.
    Repository,
    Branch,
    Tag,
    Remote,
    Head,
    Stash,
    Plus,
    Unfolded,
    Folded,
    Back,
    Worktree,
    PullRequest,
    Fetch,
    Push,
}

/// The artwork a file name is shown with.
#[derive(PartialEq, Eq, Structural, Clone, Copy, Debug)]
pub enum Art {
    File,
    Rust,
    Cargo,
    Nix,
    TypeScript,
    Tsx,
    JavaScript,
    Json,
    Npm,
    Toml,
    Yaml,
    Markdown,
    Shell,
    Git,
    Text,
    Svg,
    Image,
    Html,
    Css,
}

/// The artwork for a file name: a few names are known whole, the rest go by what follows
/// their last dot. A name that carries no known type gets the generic page: the nearest
/// plausible logo would be a worse answer, because the reader believes it.
pub open spec fn artwork_of(name: Seq<char>) -> Art {
    if name == "Cargo.toml"@ || name == "Cargo.lock"@ {
        Art::Cargo
    } else if name == "package.json"@ || name == "package-lock.json"@ {
        Art::Npm
    } else if name == ".gitignore"@ || name == ".gitattributes"@ {
        Art::Git
    } else {
        match rsplit_once(name, '.') {
            None => Art::File,
            Some((_, e)) => if e == "rs"@ {
                Art::Rust
            } else if e == "nix"@ {
                Art::Nix
            } else if e == "ts"@ {
                Art::TypeScript
            } else if e == "tsx"@ {
                Art::Tsx
            } else if e == "js"@ || e == "mjs"@ || e == "cjs"@ {
                Art::JavaScript
            } else if e == "json"@ {
                Art::Json
            } else if e == "toml"@ {
                Art::Toml
            } else if e == "yaml"@ || e == "yml"@ {
                Art::Yaml
            } else if e == "md"@ {
                Art::Markdown
            } else if e == "sh"@ || e == "bash"@ || e == "zsh"@ {
                Art::Shell
            } else if e == "txt"@ {
                Art::Text
            } else if e == "svg"@ {
                Art::Svg
            } else if e == "png"@ || e == "jpg"@ || e == "jpeg"@ || e == "webp"@ || e == "gif"@ {
                Art::Image
            } else if e == "html"@ {
                Art::Html
            } else if e == "css"@ {
                Art::Css
            } else {
                Art::File
            },
        }
    }
}

fn is(s: &Vec<char>, word: &str) -> (r: bool)
    ensures
        r == (s@ == word@),
{
    same(s, &chars_of(word))
}

/// The artwork for a file name.
pub fn artwork(name: &str) -> (art: Art)
    ensures
        art == artwork_of(name@),
{
    let n = chars_of(name);
    if is(&n, "Cargo.toml") || is(&n, "Cargo.lock") {
        return Art::Cargo;
    }
    if is(&n, "package.json") || is(&n, "package-lock.json") {
        return Art::Npm;
    }
    if is(&n, ".gitignore") || is(&n, ".gitattributes") {
        return Art::Git;
    }
    match rsplit_once_at(&n, '.') {
        None => Art::File,
        Some((_, e)) => {
            if is(&e, "rs") {
                Art::Rust
            } else if is(&e, "nix") {
                Art::Nix
            } else if is(&e, "ts") {
                Art::TypeScript
            } else if is(&e, "tsx") {
                Art::Tsx
            } else if is(&e, "js") || is(&e, "mjs") || is(&e, "cjs") {
                Art::JavaScript
            } else if is(&e, "json") {
                Art::Json
            } else if is(&e, "toml") {
                Art::Toml
            } else if is(&e, "yaml") || is(&e, "yml") {
                Art::Yaml
            } else if is(&e, "md") {
                Art::Markdown
            } else if is(&e, "sh") || is(&e, "bash") || is(&e, "zsh") {
                Art::Shell
            } else if is(&e, "txt") {
                Art::Text
            } else if is(&e, "svg") {
                Art::Svg
            } else if is(&e, "png") || is(&e, "jpg") || is(&e, "jpeg") || is(&e, "webp") || is(
                &e,
                "gif",
            ) {
                Art::Image
            } else if is(&e, "html") {
                Art::Html
            } else if is(&e, "css") {
                Art::Css
            } else {
                Art::File
            }
        },
    }
}

/// The name a path ends in: what follows its last `/`, or the whole path.
pub open spec fn file_name_of(path: Seq<char>) -> Seq<char> {
    match rsplit_once(path, '/') {
        Some((_, name)) => name,
        None => path,
    }
}

/// The artwork for a file, by the name its path ends in.
pub fn file_artwork(path: &str) -> (art: Art)
    ensures
        art == artwork_of(file_name_of(path@)),
{
    let p = chars_of(path);
    match rsplit_once_at(&p, '/') {
        Some((_, name)) => artwork(crate::text::string_of(&name).as_str()),
        None => artwork(path),
    }
}

/// The forge a remote's host belongs to, by a name in it.
#[derive(PartialEq, Eq, Structural, Clone, Copy, Debug)]
pub enum Forge {
    GitHub,
    GitLab,
    Codeberg,
    Gitea,
    Bitbucket,
    /// A host nobody recognises: drawn as the globe, which says "somewhere else" and
    /// nothing more.
    Unknown,
}

pub open spec fn forge_of(host: Seq<char>) -> Forge {
    let h = ascii_lowercase(host);
    if contains_text(h, "github"@) {
        Forge::GitHub
    } else if contains_text(h, "gitlab"@) {
        Forge::GitLab
    } else if contains_text(h, "codeberg"@) {
        Forge::Codeberg
    } else if contains_text(h, "gitea"@) || contains_text(h, "forgejo"@) {
        Forge::Gitea
    } else if contains_text(h, "bitbucket"@) {
        Forge::Bitbucket
    } else {
        Forge::Unknown
    }
}

/// The forge a host belongs to, its name compared without regard to ASCII case.
pub fn forge(host: &str) -> (forge: Forge)
    ensures
        forge == forge_of(host@),
{
    let h = to_ascii_lowercase(&chars_of(host));
    if contains(&h, &chars_of("github")) {
        Forge::GitHub
    } else if contains(&h, &chars_of("gitlab")) {
        Forge::GitLab
    } else if contains(&h, &chars_of("codeberg")) {
        Forge::Codeberg
    } else if contains(&h, &chars_of("gitea")) || contains(&h, &chars_of("forgejo")) {
        Forge::Gitea
    } else if contains(&h, &chars_of("bitbucket")) {
        Forge::Bitbucket
    } else {
        Forge::Unknown
    }
}

} // verus!
