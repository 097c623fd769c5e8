use gg::git::command::{
    answer, count_of, ignored_of, Context, Git, GitError, Invocation, Output, Reply, Stage, Step,
    WorktreeDiff,
};

fn args(run: &Invocation) -> Vec<&str> {
    run.args.iter().map(String::as_str).collect()
}

fn ok(code: i32, stdout: &str) -> Result<Reply, String> {
    Ok(Reply {
        code: Some(code),
        stdout: stdout.as_bytes().to_vec(),
        stderr: Vec::new(),
    })
}

fn failed(code: Option<i32>, stderr: &str) -> Result<Reply, String> {
    Ok(Reply {
        code,
        stdout: Vec::new(),
        stderr: stderr.as_bytes().to_vec(),
    })
}

#[test]
fn each_request_names_its_directory_and_arguments() {
    let git = Git::in_work_dir("/srv/repo");

    let version = git.version();
    assert_eq!(version.work_dir, "/srv/repo");
    assert_eq!(args(&version), ["--version"]);
    assert_eq!(version.output, Output::Trimmed);
    assert!(version.input.is_empty());

    assert_eq!(args(&git.add("src/a b.rs")), ["add", "--", "src/a b.rs"]);
    assert_eq!(args(&git.add_all()), ["add", "--all"]);
    assert_eq!(args(&git.branch("feat/dialogs")), ["checkout", "-b", "feat/dialogs"]);
}

#[test]
fn a_description_becomes_a_second_message() {
    let git = Git::in_work_dir("/srv/repo");
    assert_eq!(args(&git.commit("Title", "")), ["commit", "--message", "Title"]);
    assert_eq!(
        args(&git.commit("Title", "Body")),
        ["commit", "--message", "Title", "--message", "Body"]
    );
}

#[test]
fn fetch_and_push_name_their_remotes() {
    let git = Git::in_work_dir("/srv/repo");
    let remotes = vec!["origin".to_owned(), "upstream".to_owned()];
    assert_eq!(args(&git.fetch(&remotes)), ["fetch", "--multiple", "origin", "upstream"]);
    assert_eq!(args(&git.push("origin", "main", false)), ["push", "origin", "main"]);
    assert_eq!(
        args(&git.push("origin", "main", true)),
        ["push", "--set-upstream", "origin", "main"]
    );
    assert_eq!(
        args(&git.unpushed("origin", "main")),
        ["rev-list", "--count", "main", "--not", "--remotes=origin"]
    );
}

#[test]
fn diffs_never_launch_a_difftool() {
    let git = Git::in_work_dir("/srv/repo");
    assert_eq!(
        args(&git.diff("abc", Some("def"), "a.rs")),
        ["diff", "--no-color", "--no-ext-diff", "-U3", "abc", "def", "--", "a.rs"]
    );
    assert_eq!(
        args(&git.whole_file_diff("abc", None, "a.rs")),
        ["diff", "--no-color", "--no-ext-diff", "-U1000000", "abc", "--", "a.rs"]
    );
    assert_eq!(
        args(&git.numstat("abc", Some("def"))),
        ["diff", "--no-color", "--no-ext-diff", "--numstat", "-z", "abc", "def"]
    );
    assert_eq!(
        args(&git.worktree_numstat(true)),
        ["diff", "--no-color", "--no-ext-diff", "--numstat", "-z", "--cached"]
    );
    assert_eq!(git.diff("abc", None, "a.rs").output, Output::Raw);
}

#[test]
fn an_answer_is_trimmed_only_when_asked() {
    assert_eq!(answer(Output::Trimmed, ok(0, "  git version 2.45.0\n")).unwrap(), "git version 2.45.0");
    assert_eq!(answer(Output::Raw, ok(0, " +hello\n")).unwrap(), " +hello\n");
}

#[test]
fn a_failing_command_carries_stderr() {
    match answer(Output::Raw, failed(Some(128), "fatal: not a valid object name\n")) {
        Err(GitError::Failed { code, stderr }) => {
            assert_eq!(code, Some(128));
            assert_eq!(stderr, "fatal: not a valid object name");
        }
        other => panic!("expected a failed command, got {other:?}"),
    }
    assert!(matches!(
        answer(Output::Raw, Err("no such file".to_owned())),
        Err(GitError::Spawn(message)) if message == "no such file"
    ));
    assert!(matches!(
        answer(Output::Raw, Ok(Reply { code: Some(0), stdout: vec![0xff, 0xfe], stderr: vec![] })),
        Err(GitError::NotUtf8)
    ));
}

#[test]
fn a_no_index_diff_succeeds_with_exit_one_when_it_says_something() {
    assert_eq!(answer(Output::Differences, ok(1, "+line\n")).unwrap(), "+line\n");
    assert!(answer(Output::Differences, ok(1, "")).is_err());
    assert!(answer(Output::Raw, ok(1, "+line\n")).is_err());
}

#[test]
fn errors_read_as_sentences() {
    assert_eq!(GitError::Spawn("gone".to_owned()).message(), "could not run git: gone");
    assert_eq!(
        GitError::Failed { code: Some(1), stderr: "bad".to_owned() }.message(),
        "git exited with 1: bad"
    );
    assert_eq!(
        GitError::Failed { code: None, stderr: "".to_owned() }.message(),
        "git was killed by a signal: "
    );
    assert_eq!(GitError::NotUtf8.message(), "git printed something that is not utf-8");
}

#[test]
fn a_count_is_only_claimed_when_git_gives_one() {
    assert_eq!(count_of(Ok("3".to_owned())), Some(3));
    assert_eq!(count_of(Ok("three".to_owned())), None);
    assert_eq!(count_of(Err(GitError::NotUtf8)), None);
}

fn finish(mut diff: WorktreeDiff, replies: Vec<Result<Reply, String>>) -> (Vec<Vec<String>>, Result<String, GitError>) {
    let mut asked = Vec::new();
    for reply in replies {
        asked.push(diff.request().args.clone());
        match diff.advance(reply) {
            Step::Next(next) => diff = next,
            Step::Done(result) => return (asked, result),
        }
    }
    panic!("the diff wanted more answers");
}

#[test]
fn an_untracked_file_reads_as_an_added_file() {
    let git = Git::in_work_dir("/srv/repo");
    let diff = git.worktree_diff("a.txt", false);
    assert_eq!(diff.stage, Stage::Diffing);
    assert_eq!(diff.context, Context::Tight);

    let (asked, result) = finish(diff, vec![ok(0, ""), ok(0, ""), ok(1, "+hello\n")]);
    assert_eq!(asked[0], ["diff", "--no-color", "--no-ext-diff", "-U3", "--", "a.txt"]);
    assert_eq!(asked[1], ["ls-files", "-z", "--", "a.txt"]);
    assert_eq!(
        asked[2],
        ["diff", "--no-color", "--no-ext-diff", "--no-index", "-U3", "--", "/dev/null", "a.txt"]
    );
    assert!(result.unwrap().contains("+hello"));
}

#[test]
fn a_tracked_file_without_changes_has_an_empty_diff() {
    let git = Git::in_work_dir("/srv/repo");
    let (asked, result) = finish(git.worktree_diff("a.txt", false), vec![ok(0, ""), ok(0, "a.txt\0")]);
    assert_eq!(asked.len(), 2);
    assert_eq!(result.unwrap(), "");
}

#[test]
fn a_staged_diff_is_asked_once() {
    let git = Git::in_work_dir("/srv/repo");
    let diff = git.whole_file_worktree_diff("a.txt", true);
    assert_eq!(diff.context, Context::WholeFile);
    let (asked, result) = finish(diff, vec![ok(0, "")]);
    assert_eq!(asked[0], ["diff", "--no-color", "--no-ext-diff", "-U1000000", "--cached", "--", "a.txt"]);
    assert_eq!(result.unwrap(), "");
}

#[test]
fn ignored_paths_go_in_on_stdin_and_come_back_once_each() {
    let git = Git::in_work_dir("/srv/repo");
    assert!(git.ignored(&[]).is_none());
    let run = git.ignored(&["target".to_owned(), "ü.txt".to_owned()]).unwrap();
    assert_eq!(args(&run), ["check-ignore", "--stdin", "-z"]);
    assert_eq!(run.input, b"target\0\xc3\xbc.txt\0".to_vec());

    let named = ignored_of(ok(0, "target\0target\0b\0"));
    assert_eq!(named, ["target", "b"]);
    assert!(ignored_of(Err("no git".to_owned())).is_empty());
    assert_eq!(ignored_of(Ok(Reply { code: Some(0), stdout: vec![b'a', 0xff, 0], stderr: vec![] })), ["a\u{fffd}"]);
}
