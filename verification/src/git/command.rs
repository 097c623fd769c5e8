//! What gg asks of `git` itself. Everything that changes a repository goes through git, so
//! the user's hooks, credential helpers and signing keep working. This module decides what
//! each request runs and how git's answer reads; running it is left to the caller.
use crate::text::{
    byte_views, bytes_of, chars_of, distinct, from_utf8, from_utf8_lossy, holds, lossy_utf8,
    nul_records, nul_records_of, parse_unsigned, parse_usize, signed_decimal, signed_decimal_of,
    string_of, texts, trim, trimmed,
};
use vstd::prelude::*;

verus! {

/// How git's standard output is read once it answers.
#[derive(PartialEq, Eq, Structural, Clone, Copy, Debug)]
pub enum Output {
    /// Surrounding whitespace removed: a version, a count, a name.
    Trimmed,
    /// Exactly as printed: a diff carries meaningful leading and trailing whitespace.
    Raw,
    /// Exactly as printed, from `diff --no-index`, which exits 1 when the sides differ.
    Differences,
}

/// One run of git: in which directory, with which arguments, what it is given on its
/// standard input, and how its answer is read.
pub struct Invocation {
    pub work_dir: String,
    pub args: Vec<String>,
    pub input: Vec<u8>,
    pub output: Output,
}

/// What a finished run of git left behind: its exit code (none when a signal ended it) and
/// its two output streams.
pub struct Reply {
    pub code: Option<i32>,
    pub stdout: Vec<u8>,
    pub stderr: Vec<u8>,
}

/// Why a request to git came to nothing.
#[derive(Debug)]
pub enum GitError {
    /// git could not be started; the operating system's words.
    Spawn(String),
    /// git ran and reported failure.
    Failed { code: Option<i32>, stderr: String },
    /// git printed something that is not UTF-8.
    NotUtf8,
}

/// An error by value.
pub enum Failure {
    Spawn(Seq<char>),
    Failed(Option<i32>, Seq<char>),
    NotUtf8,
}

impl View for GitError {
    type V = Failure;

    open spec fn view(&self) -> Failure {
        match self {
            GitError::Spawn(message) => Failure::Spawn(message@),
            GitError::Failed { code, stderr } => Failure::Failed(*code, stderr@),
            GitError::NotUtf8 => Failure::NotUtf8,
        }
    }
}

/// A text answer by value.
pub open spec fn answer_view(r: Result<String, GitError>) -> Result<Seq<char>, Failure> {
    match r {
        Ok(text) => Ok(text@),
        Err(error) => Err(error@),
    }
}

/// The arguments of a run, as texts.
pub open spec fn words(args: Seq<String>) -> Seq<Seq<char>> {
    args.map_values(|a: String| a@)
}

/// Whether git's answer counts as a failure: a nonzero exit, except that `diff --no-index`
/// exits 1 on success too and only its silence tells failure apart.
pub open spec fn failed(output: Output, reply: Reply) -> bool {
    match output {
        Output::Differences => reply.code != Some(0i32) && reply.stdout@.len() == 0,
        _ => reply.code != Some(0i32),
    }
}

/// How git's answer reads: a failure with its exit code and its trimmed standard error, or
/// the standard output when it is UTF-8, trimmed where the request asked for that.
pub open spec fn reading(output: Output, reply: Result<Reply, String>) -> Result<
    Seq<char>,
    Failure,
> {
    match reply {
        Err(message) => Err(Failure::Spawn(message@)),
        Ok(reply) => if failed(output, reply) {
            Err(Failure::Failed(reply.code, trim(lossy_utf8(reply.stderr@))))
        } else if !vstd::utf8::valid_utf8(reply.stdout@) {
            Err(Failure::NotUtf8)
        } else if output == Output::Trimmed {
            Ok(trim(vstd::utf8::decode_utf8(reply.stdout@)))
        } else {
            Ok(vstd::utf8::decode_utf8(reply.stdout@))
        },
    }
}

/// Reads git's answer to a run whose output is read as `output`; `Err` carries the words of
/// a run that could not be started.
pub fn answer(output: Output, reply: Result<Reply, String>) -> (r: Result<String, GitError>)
    ensures
        answer_view(r) == reading(output, reply),
{
    match reply {
        Err(message) => Err(GitError::Spawn(message)),
        Ok(reply) => {
            let is_failure = match output {
                Output::Differences => reply.code != Some(0i32) && reply.stdout.len() == 0,
                _ => reply.code != Some(0i32),
            };
            if is_failure {
                let stderr = from_utf8_lossy(&reply.stderr);
                let kept = trimmed(&chars_of(stderr.as_str()));
                return Err(GitError::Failed { code: reply.code, stderr: string_of(&kept) });
            }
            match from_utf8(reply.stdout) {
                None => Err(GitError::NotUtf8),
                Some(text) => match output {
                    Output::Trimmed => Ok(string_of(&trimmed(&chars_of(text.as_str())))),
                    _ => Ok(text),
                },
            }
        },
    }
}

/// The number a `rev-list --count` printed, when git could answer: no number is claimed
/// that git did not give.
pub fn count_of(answer: Result<String, GitError>) -> (count: Option<usize>)
    ensures
        count == match answer_view(answer) {
            Ok(text) => match parse_unsigned(text, usize::MAX as nat) {
                Some(n) => Some(n as usize),
                None => None,
            },
            Err(_) => None,
        },
{
    match answer {
        Ok(text) => parse_usize(&chars_of(text.as_str())),
        Err(_) => None,
    }
}

/// How a failure reads to a person.
pub open spec fn failure_text(failure: Failure) -> Seq<char> {
    match failure {
        Failure::Spawn(message) => "could not run git: "@ + message,
        Failure::Failed(Some(code), stderr) => "git exited with "@ + signed_decimal(code as int)
            + ": "@ + stderr,
        Failure::Failed(None, stderr) => "git was killed by a signal: "@ + stderr,
        Failure::NotUtf8 => "git printed something that is not utf-8"@,
    }
}

impl GitError {
    /// The error in words.
    pub fn message(&self) -> (text: String)
        ensures
            text@ == failure_text(self@),
    {
        match self {
            GitError::Spawn(message) => {
                let mut text = chars_of("could not run git: ");
                text.append(&mut chars_of(message.as_str()));
                string_of(&text)
            },
            GitError::Failed { code: Some(code), stderr } => {
                let mut text = chars_of("git exited with ");
                text.append(&mut signed_decimal_of(*code as i64));
                text.append(&mut chars_of(": "));
                text.append(&mut chars_of(stderr.as_str()));
                string_of(&text)
            },
            GitError::Failed { code: None, stderr } => {
                let mut text = chars_of("git was killed by a signal: ");
                text.append(&mut chars_of(stderr.as_str()));
                string_of(&text)
            },
            GitError::NotUtf8 => "git printed something that is not utf-8".to_owned(),
        }
    }
}

/// How much context a diff carries around each change.
#[derive(PartialEq, Eq, Structural, Clone, Copy, Debug)]
pub enum Context {
    /// The usual three lines.
    Tight,
    /// More than any file worth reading in a window, so git reports the whole file.
    WholeFile,
}

pub open spec fn context_flag(context: Context) -> Seq<char> {
    match context {
        Context::Tight => "-U3"@,
        Context::WholeFile => "-U1000000"@,
    }
}

fn flag_of(context: Context) -> (flag: String)
    ensures
        flag@ == context_flag(context),
{
    match context {
        Context::Tight => "-U3".to_owned(),
        Context::WholeFile => "-U1000000".to_owned(),
    }
}

/// The one thing a run needs to know of the repository: where it is.
pub struct Git {
    work_dir: String,
}

/// The arguments of a diff between revisions, for one path when `path` is given.
pub open spec fn revision_diff_args(
    context: Seq<char>,
    base: Seq<char>,
    target: Option<Seq<char>>,
    path: Seq<char>,
) -> Seq<Seq<char>> {
    seq!["diff"@, "--no-color"@, "--no-ext-diff"@, context, base] + match target {
        Some(t) => seq![t],
        None => Seq::empty(),
    } + seq!["--"@, path]
}

pub open spec fn option_view(text: Option<&str>) -> Option<Seq<char>> {
    match text {
        Some(t) => Some(t@),
        None => None,
    }
}

impl Git {
    pub closed spec fn work_dir_view(&self) -> Seq<char> {
        self.work_dir@
    }

    pub fn in_work_dir(work_dir: &str) -> (git: Git)
        ensures
            git.work_dir_view() == work_dir@,
    {
        Git { work_dir: work_dir.to_owned() }
    }

    fn run(&self, args: Vec<String>, output: Output) -> (run: Invocation)
        ensures
            run.work_dir@ == self.work_dir_view(),
            run.args@ == args@,
            run.input@.len() == 0,
            run.output == output,
    {
        Invocation { work_dir: self.work_dir.clone(), args, input: Vec::new(), output }
    }

    /// `git --version`.
    pub fn version(&self) -> (run: Invocation)
        ensures
            run.work_dir@ == self.work_dir_view(),
            words(run.args@) == seq!["--version"@],
            run.input@.len() == 0,
            run.output == Output::Trimmed,
    {
        let mut args: Vec<String> = Vec::new();
        args.push("--version".to_owned());
        assert(words(args@) =~= seq!["--version"@]);
        self.run(args, Output::Trimmed)
    }

    /// Stages one path; a file that was deleted or never tracked as well.
    pub fn add(&self, path: &str) -> (run: Invocation)
        ensures
            run.work_dir@ == self.work_dir_view(),
            words(run.args@) == seq!["add"@, "--"@, path@],
            run.input@.len() == 0,
            run.output == Output::Trimmed,
    {
        let mut args: Vec<String> = Vec::new();
        args.push("add".to_owned());
        args.push("--".to_owned());
        args.push(path.to_owned());
        assert(words(args@) =~= seq!["add"@, "--"@, path@]);
        self.run(args, Output::Trimmed)
    }

    /// Stages every change in the work tree, deletions and untracked files included.
    pub fn add_all(&self) -> (run: Invocation)
        ensures
            run.work_dir@ == self.work_dir_view(),
            words(run.args@) == seq!["add"@, "--all"@],
            run.input@.len() == 0,
            run.output == Output::Trimmed,
    {
        let mut args: Vec<String> = Vec::new();
        args.push("add".to_owned());
        args.push("--all".to_owned());
        assert(words(args@) =~= seq!["add"@, "--all"@]);
        self.run(args, Output::Trimmed)
    }

    /// Commits what is staged. Two `--message` arguments are what git turns into a title
    /// and a body with a blank line between them; an empty description adds none.
    pub fn commit(&self, message: &str, description: &str) -> (run: Invocation)
        ensures
            run.work_dir@ == self.work_dir_view(),
            words(run.args@) == seq!["commit"@, "--message"@, message@] + if description@.len()
                == 0 {
                Seq::<Seq<char>>::empty()
            } else {
                seq!["--message"@, description@]
            },
            run.input@.len() == 0,
            run.output == Output::Trimmed,
    {
        let mut args: Vec<String> = Vec::new();
        args.push("commit".to_owned());
        args.push("--message".to_owned());
        args.push(message.to_owned());
        if !description.is_empty() {
            args.push("--message".to_owned());
            args.push(description.to_owned());
        }
        assert(words(args@) =~= seq!["commit"@, "--message"@, message@] + if description@.len()
            == 0 {
            Seq::<Seq<char>>::empty()
        } else {
            seq!["--message"@, description@]
        });
        self.run(args, Output::Trimmed)
    }

    /// Fetches from each remote named. Only the remote-tracking refs under `refs/remotes`
    /// move: no local branch, no commit and no working tree file is touched.
    pub fn fetch(&self, remotes: &[String]) -> (run: Invocation)
        ensures
            run.work_dir@ == self.work_dir_view(),
            words(run.args@) == seq!["fetch"@, "--multiple"@] + words(remotes@),
            run.input@.len() == 0,
            run.output == Output::Trimmed,
    {
        let mut args: Vec<String> = Vec::new();
        args.push("fetch".to_owned());
        args.push("--multiple".to_owned());
        for i in 0..remotes.len()
            invariant
                words(args@) == seq!["fetch"@, "--multiple"@] + words(remotes@.take(i as int)),
        {
            let ghost before = args@;
            args.push(remotes[i].clone());
            assert(words(args@) =~= words(before).push(remotes@[i as int]@));
            assert(words(remotes@.take(i + 1)) =~= words(remotes@.take(i as int)).push(
                remotes@[i as int]@,
            ));
            assert(words(args@) =~= seq!["fetch"@, "--multiple"@] + words(remotes@.take(i + 1)));
        }
        assert(remotes@.take(remotes.len() as int) =~= remotes@);
        self.run(args, Output::Trimmed)
    }

    /// Pushes `branch` to `remote`, recording it as the branch's upstream when asked.
    pub fn push(&self, remote: &str, branch: &str, upstream: bool) -> (run: Invocation)
        ensures
            run.work_dir@ == self.work_dir_view(),
            words(run.args@) == seq!["push"@] + if upstream {
                seq!["--set-upstream"@]
            } else {
                Seq::<Seq<char>>::empty()
            } + seq![remote@, branch@],
            run.input@.len() == 0,
            run.output == Output::Trimmed,
    {
        let mut args: Vec<String> = Vec::new();
        args.push("push".to_owned());
        if upstream {
            args.push("--set-upstream".to_owned());
        }
        args.push(remote.to_owned());
        args.push(branch.to_owned());
        assert(words(args@) =~= seq!["push"@] + if upstream {
            seq!["--set-upstream"@]
        } else {
            Seq::<Seq<char>>::empty()
        } + seq![remote@, branch@]);
        self.run(args, Output::Trimmed)
    }

    /// Counts the commits on `branch` that no ref of `remote` reaches, which is what a push
    /// would send; [`count_of`] reads the answer.
    pub fn unpushed(&self, remote: &str, branch: &str) -> (run: Invocation)
        ensures
            run.work_dir@ == self.work_dir_view(),
            words(run.args@) == seq![
                "rev-list"@,
                "--count"@,
                branch@,
                "--not"@,
                "--remotes="@ + remote@,
            ],
            run.input@.len() == 0,
            run.output == Output::Trimmed,
    {
        let mut scope = chars_of("--remotes=");
        scope.append(&mut chars_of(remote));
        let mut args: Vec<String> = Vec::new();
        args.push("rev-list".to_owned());
        args.push("--count".to_owned());
        args.push(branch.to_owned());
        args.push("--not".to_owned());
        args.push(string_of(&scope));
        assert(words(args@) =~= seq![
            "rev-list"@,
            "--count"@,
            branch@,
            "--not"@,
            "--remotes="@ + remote@,
        ]);
        self.run(args, Output::Trimmed)
    }

    /// Creates a branch where HEAD is and moves onto it.
    pub fn branch(&self, name: &str) -> (run: Invocation)
        ensures
            run.work_dir@ == self.work_dir_view(),
            words(run.args@) == seq!["checkout"@, "-b"@, name@],
            run.input@.len() == 0,
            run.output == Output::Trimmed,
    {
        let mut args: Vec<String> = Vec::new();
        args.push("checkout".to_owned());
        args.push("-b".to_owned());
        args.push(name.to_owned());
        assert(words(args@) =~= seq!["checkout"@, "-b"@, name@]);
        self.run(args, Output::Trimmed)
    }

    fn diff_with_context(&self, context: Context, base: &str, target: Option<&str>, path: &str) -> (run:
        Invocation)
        ensures
            run.work_dir@ == self.work_dir_view(),
            words(run.args@) == revision_diff_args(
                context_flag(context),
                base@,
                option_view(target),
                path@,
            ),
            run.input@.len() == 0,
            run.output == Output::Raw,
    {
        let mut args: Vec<String> = Vec::new();
        args.push("diff".to_owned());
        args.push("--no-color".to_owned());
        args.push("--no-ext-diff".to_owned());
        args.push(flag_of(context));
        args.push(base.to_owned());
        match target {
            Some(t) => args.push(t.to_owned()),
            None => {},
        }
        args.push("--".to_owned());
        args.push(path.to_owned());
        assert(words(args@) =~= revision_diff_args(
            context_flag(context),
            base@,
            option_view(target),
            path@,
        ));
        self.run(args, Output::Raw)
    }

    /// The unified diff of one path between `base` and `target` (the work tree when there is
    /// none). `--no-ext-diff` keeps a user's configured difftool from being launched.
    pub fn diff(&self, base: &str, target: Option<&str>, path: &str) -> (run: Invocation)
        ensures
            run.work_dir@ == self.work_dir_view(),
            words(run.args@) == revision_diff_args("-U3"@, base@, option_view(target), path@),
            run.input@.len() == 0,
            run.output == Output::Raw,
    {
        self.diff_with_context(Context::Tight, base, target, path)
    }

    /// The same diff with the whole file as context, so every line of the file arrives
    /// already tagged as added, removed or unchanged.
    pub fn whole_file_diff(&self, base: &str, target: Option<&str>, path: &str) -> (run:
        Invocation)
        ensures
            run.work_dir@ == self.work_dir_view(),
            words(run.args@) == revision_diff_args(
                "-U1000000"@,
                base@,
                option_view(target),
                path@,
            ),
            run.input@.len() == 0,
            run.output == Output::Raw,
    {
        self.diff_with_context(Context::WholeFile, base, target, path)
    }

    /// The diff of one path in the work tree: unstaged when `staged` is false, the index
    /// against HEAD when it is true. It may take more than one run of git; see
    /// [`WorktreeDiff`].
    pub fn worktree_diff(&self, path: &str, staged: bool) -> (diff: WorktreeDiff)
        ensures
            diff.work_dir@ == self.work_dir_view(),
            diff.context == Context::Tight,
            diff.path@ == path@,
            diff.staged == staged,
            diff.stage == Stage::Diffing,
    {
        WorktreeDiff {
            work_dir: self.work_dir.clone(),
            context: Context::Tight,
            path: path.to_owned(),
            staged,
            stage: Stage::Diffing,
        }
    }

    /// The work tree counterpart of [`Git::whole_file_diff`].
    pub fn whole_file_worktree_diff(&self, path: &str, staged: bool) -> (diff: WorktreeDiff)
        ensures
            diff.work_dir@ == self.work_dir_view(),
            diff.context == Context::WholeFile,
            diff.path@ == path@,
            diff.staged == staged,
            diff.stage == Stage::Diffing,
    {
        WorktreeDiff {
            work_dir: self.work_dir.clone(),
            context: Context::WholeFile,
            path: path.to_owned(),
            staged,
            stage: Stage::Diffing,
        }
    }

    /// Added and deleted line counts for every path the range touches, in one run. `-z`
    /// keeps the paths byte for byte.
    pub fn numstat(&self, base: &str, target: Option<&str>) -> (run: Invocation)
        ensures
            run.work_dir@ == self.work_dir_view(),
            words(run.args@) == seq![
                "diff"@,
                "--no-color"@,
                "--no-ext-diff"@,
                "--numstat"@,
                "-z"@,
                base@,
            ] + match target {
                Some(t) => seq![t@],
                None => Seq::<Seq<char>>::empty(),
            },
            run.input@.len() == 0,
            run.output == Output::Raw,
    {
        let mut args: Vec<String> = Vec::new();
        args.push("diff".to_owned());
        args.push("--no-color".to_owned());
        args.push("--no-ext-diff".to_owned());
        args.push("--numstat".to_owned());
        args.push("-z".to_owned());
        args.push(base.to_owned());
        match target {
            Some(t) => args.push(t.to_owned()),
            None => {},
        }
        assert(words(args@) =~= seq![
            "diff"@,
            "--no-color"@,
            "--no-ext-diff"@,
            "--numstat"@,
            "-z"@,
            base@,
        ] + match target {
            Some(t) => seq![t@],
            None => Seq::<Seq<char>>::empty(),
        });
        self.run(args, Output::Raw)
    }

    /// The line counts of the work tree: unstaged when `staged` is false, the index against
    /// HEAD when it is true.
    pub fn worktree_numstat(&self, staged: bool) -> (run: Invocation)
        ensures
            run.work_dir@ == self.work_dir_view(),
            words(run.args@) == seq![
                "diff"@,
                "--no-color"@,
                "--no-ext-diff"@,
                "--numstat"@,
                "-z"@,
            ] + if staged {
                seq!["--cached"@]
            } else {
                Seq::<Seq<char>>::empty()
            },
            run.input@.len() == 0,
            run.output == Output::Raw,
    {
        let mut args: Vec<String> = Vec::new();
        args.push("diff".to_owned());
        args.push("--no-color".to_owned());
        args.push("--no-ext-diff".to_owned());
        args.push("--numstat".to_owned());
        args.push("-z".to_owned());
        if staged {
            args.push("--cached".to_owned());
        }
        assert(words(args@) =~= seq![
            "diff"@,
            "--no-color"@,
            "--no-ext-diff"@,
            "--numstat"@,
            "-z"@,
        ] + if staged {
            seq!["--cached"@]
        } else {
            Seq::<Seq<char>>::empty()
        });
        self.run(args, Output::Raw)
    }
}

/// Where a work tree diff stands.
#[derive(PartialEq, Eq, Structural, Clone, Copy, Debug)]
pub enum Stage {
    /// Waiting for the diff of the path itself.
    Diffing,
    /// The unstaged diff was empty: waiting to learn whether git tracks the path at all.
    CheckingTracked,
    /// git does not track the path: waiting for its diff against nothing, in which every
    /// line comes back added.
    DiffingUntracked,
}

/// A work tree diff under way. git has nothing to say about a path it does not track, so an
/// empty unstaged diff of such a path is asked again, of the file against nothing.
pub struct WorktreeDiff {
    pub work_dir: String,
    pub context: Context,
    pub path: String,
    pub staged: bool,
    pub stage: Stage,
}

/// What a work tree diff does once git has answered: run git again, or finish.
pub enum Step {
    Next(WorktreeDiff),
    Done(Result<String, GitError>),
}

/// The arguments each stage of a work tree diff runs git with.
pub open spec fn worktree_args(diff: WorktreeDiff) -> Seq<Seq<char>> {
    match diff.stage {
        Stage::Diffing => seq!["diff"@, "--no-color"@, "--no-ext-diff"@, context_flag(diff.context)]
            + if diff.staged {
            seq!["--cached"@]
        } else {
            Seq::<Seq<char>>::empty()
        } + seq!["--"@, diff.path@],
        Stage::CheckingTracked => seq!["ls-files"@, "-z"@, "--"@, diff.path@],
        Stage::DiffingUntracked => seq![
            "diff"@,
            "--no-color"@,
            "--no-ext-diff"@,
            "--no-index"@,
            context_flag(diff.context),
            "--"@,
            "/dev/null"@,
            diff.path@,
        ],
    }
}

pub open spec fn worktree_output(stage: Stage) -> Output {
    match stage {
        Stage::DiffingUntracked => Output::Differences,
        _ => Output::Raw,
    }
}

impl WorktreeDiff {
    /// The same diff at another stage.
    pub open spec fn at(self, stage: Stage) -> WorktreeDiff {
        WorktreeDiff { stage, ..self }
    }

    /// The run of git this stage waits for.
    pub fn request(&self) -> (run: Invocation)
        ensures
            run.work_dir@ == self.work_dir@,
            words(run.args@) == worktree_args(*self),
            run.input@.len() == 0,
            run.output == worktree_output(self.stage),
    {
        let mut args: Vec<String> = Vec::new();
        match self.stage {
            Stage::Diffing => {
                args.push("diff".to_owned());
                args.push("--no-color".to_owned());
                args.push("--no-ext-diff".to_owned());
                args.push(flag_of(self.context));
                if self.staged {
                    args.push("--cached".to_owned());
                }
                args.push("--".to_owned());
                args.push(self.path.clone());
            },
            Stage::CheckingTracked => {
                args.push("ls-files".to_owned());
                args.push("-z".to_owned());
                args.push("--".to_owned());
                args.push(self.path.clone());
            },
            Stage::DiffingUntracked => {
                args.push("diff".to_owned());
                args.push("--no-color".to_owned());
                args.push("--no-ext-diff".to_owned());
                args.push("--no-index".to_owned());
                args.push(flag_of(self.context));
                args.push("--".to_owned());
                args.push("/dev/null".to_owned());
                args.push(self.path.clone());
            },
        }
        assert(words(args@) =~= worktree_args(*self));
        Invocation {
            work_dir: self.work_dir.clone(),
            args,
            input: Vec::new(),
            output: worktree_output_of(self.stage),
        }
    }

    /// Takes git's answer to [`WorktreeDiff::request`]. A failure ends the diff with it.
    /// An empty unstaged diff goes on to ask whether the path is tracked; a path git lists
    /// is tracked and its diff is the empty one, a path it does not list is diffed against
    /// nothing.
    pub fn advance(self, reply: Result<Reply, String>) -> (step: Step)
        ensures
            ({
                let read = reading(worktree_output(self.stage), reply);
                match self.stage {
                    Stage::Diffing => match read {
                        Ok(text) => if !self.staged && text.len() == 0 {
                            step matches Step::Next(next) && next == self.at(
                                Stage::CheckingTracked,
                            )
                        } else {
                            step matches Step::Done(r) && answer_view(r) == read
                        },
                        Err(_) => step matches Step::Done(r) && answer_view(r) == read,
                    },
                    Stage::CheckingTracked => match read {
                        Ok(listed) => if listed.len() == 0 {
                            step matches Step::Next(next) && next == self.at(
                                Stage::DiffingUntracked,
                            )
                        } else {
                            step matches Step::Done(r) && answer_view(r) == Ok::<
                                Seq<char>,
                                Failure,
                            >(Seq::empty())
                        },
                        Err(_) => step matches Step::Done(r) && answer_view(r) == read,
                    },
                    Stage::DiffingUntracked => step matches Step::Done(r) && answer_view(r)
                        == read,
                }
            }),
    {
        let read = answer(worktree_output_of(self.stage), reply);
        match self.stage {
            Stage::Diffing => match read {
                Ok(text) => {
                    if !self.staged && text.as_str().is_empty() {
                        Step::Next(WorktreeDiff { stage: Stage::CheckingTracked, ..self })
                    } else {
                        Step::Done(Ok(text))
                    }
                },
                Err(error) => Step::Done(Err(error)),
            },
            Stage::CheckingTracked => match read {
                Ok(listed) => {
                    if listed.as_str().is_empty() {
                        Step::Next(WorktreeDiff { stage: Stage::DiffingUntracked, ..self })
                    } else {
                        Step::Done(Ok(String::new()))
                    }
                },
                Err(error) => Step::Done(Err(error)),
            },
            Stage::DiffingUntracked => Step::Done(read),
        }
    }
}

fn worktree_output_of(stage: Stage) -> (output: Output)
    ensures
        output == worktree_output(stage),
{
    match stage {
        Stage::DiffingUntracked => Output::Differences,
        _ => Output::Raw,
    }
}

/// The bytes `check-ignore --stdin -z` is given for `paths`: each path's UTF-8 followed by a
/// NUL.
pub open spec fn nul_list(paths: Seq<String>) -> Seq<u8>
    decreases paths.len(),
{
    if paths.len() == 0 {
        Seq::empty()
    } else {
        nul_list(paths.drop_last()) + vstd::utf8::encode_utf8(paths.last()@) + seq![0u8]
    }
}

impl Git {
    /// Asks which of these paths git is told to ignore, in one run with the list on standard
    /// input, because `check-ignore` is the only thing that reads every ignore file the way
    /// git itself does. Nothing is asked for no paths.
    pub fn ignored(&self, paths: &[String]) -> (run: Option<Invocation>)
        ensures
            run is None <==> paths.len() == 0,
            run matches Some(run) ==> {
                &&& run.work_dir@ == self.work_dir_view()
                &&& words(run.args@) == seq!["check-ignore"@, "--stdin"@, "-z"@]
                &&& run.input@ == nul_list(paths@)
                &&& run.output == Output::Raw
            },
    {
        if paths.len() == 0 {
            return None;
        }
        let mut input: Vec<u8> = Vec::new();
        for i in 0..paths.len()
            invariant
                input@ == nul_list(paths@.take(i as int)),
        {
            let mut bytes = bytes_of(paths[i].as_str());
            input.append(&mut bytes);
            input.push(0);
            assert(paths@.take(i + 1).drop_last() == paths@.take(i as int));
        }
        assert(paths@.take(paths.len() as int) == paths@);
        let mut args: Vec<String> = Vec::new();
        args.push("check-ignore".to_owned());
        args.push("--stdin".to_owned());
        args.push("-z".to_owned());
        assert(words(args@) =~= seq!["check-ignore"@, "--stdin"@, "-z"@]);
        Some(Invocation { work_dir: self.work_dir.clone(), args, input, output: Output::Raw })
    }
}

/// The paths git named in answer to [`Git::ignored`], each once. A run that could not be
/// started names none; its exit code says only whether any path matched.
pub fn ignored_of(reply: Result<Reply, String>) -> (paths: Vec<String>)
    ensures
        texts(paths@) == match reply {
            Ok(reply) => distinct(
                nul_records(reply.stdout@).map_values(|r: Seq<u8>| lossy_utf8(r)),
            ),
            Err(_) => Seq::empty(),
        },
{
    let mut paths: Vec<String> = Vec::new();
    match reply {
        Err(_) => {
            assert(texts(paths@) =~= Seq::<Seq<char>>::empty());
        },
        Ok(reply) => {
            let records = nul_records_of(&reply.stdout);
            let ghost names = nul_records(reply.stdout@).map_values(|r: Seq<u8>| lossy_utf8(r));
            for i in 0..records.len()
                invariant
                    byte_views(records@) == nul_records(reply.stdout@),
                    names == nul_records(reply.stdout@).map_values(|r: Seq<u8>| lossy_utf8(r)),
                    texts(paths@) == distinct(names.take(i as int)),
            {
                let name = from_utf8_lossy(&records[i]);
                assert(names.take(i + 1).drop_last() == names.take(i as int));
                assert(names[i as int] == lossy_utf8(records@[i as int]@));
                if !holds(&paths, &name) {
                    let ghost before = paths@;
                    paths.push(name);
                    assert(texts(paths@) == texts(before).push(name@));
                }
            }
            assert(names.take(records.len() as int) == names);
        },
    }
    paths
}

} // verus!
