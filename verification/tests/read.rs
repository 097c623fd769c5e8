use gg::git::read::{
    apply_counts, file_changes, pull_number, sort_by_path, stash_name, Category, ChangeKind, FileChange,
    References, SigningFormat,
};
use gg::git::ObjectId;

fn id(byte: u8) -> ObjectId {
    ObjectId {
        bytes: vec![byte; 20],
    }
}

fn change(path: &str) -> FileChange {
    FileChange {
        path: path.to_owned(),
        kind: ChangeKind::Modified,
        additions: 0,
        deletions: 0,
    }
}

#[test]
fn a_pull_request_head_gives_its_number() {
    assert_eq!(pull_number("refs/pull/12/head"), Some(12));
    assert_eq!(pull_number("refs/merge-requests/7/head"), Some(7));
    assert_eq!(pull_number("refs/pull/12/merge"), None);
    assert_eq!(pull_number("refs/pull/twelve/head"), None);
    assert_eq!(pull_number("refs/heads/main"), None);
    assert_eq!(pull_number("refs/pull/99999999999/head"), None);
}

#[test]
fn references_are_filed_by_category() {
    let mut references = References::new();
    references.file(Category::LocalBranch, "refs/heads/main", "main".to_owned(), id(1));
    references.file(Category::RemoteBranch, "refs/remotes/origin/main", "origin/main".to_owned(), id(1));
    references.file(Category::Tag, "refs/tags/v1", "v1".to_owned(), id(2));
    references.file(Category::Other, "refs/pull/4/head", "4/head".to_owned(), id(3));
    references.file(Category::Other, "refs/notes/commits", "commits".to_owned(), id(4));

    assert_eq!(references.local_branches.len(), 1);
    assert_eq!(references.local_branches[0].name, "main");
    assert_eq!(references.remote_branches[0].name, "origin/main");
    assert_eq!(references.tags[0].name, "v1");
    assert_eq!(references.pull_of(&id(3)), Some(4));
    assert_eq!(references.pull_of(&id(4)), None);
    assert!(references.stashes.is_empty());
}

#[test]
fn a_later_pull_request_for_a_commit_replaces_the_earlier_one() {
    let mut references = References::new();
    references.insert_pull(id(1), 5);
    references.insert_pull(id(2), 6);
    references.insert_pull(id(1), 9);
    assert_eq!(references.pull_of(&id(1)), Some(9));
    assert_eq!(references.pull_of(&id(2)), Some(6));
    assert_eq!(references.pulls.len(), 2);
}

#[test]
fn stashes_are_named_by_their_place_in_the_reflog() {
    assert_eq!(stash_name(0), "stash@{0}");
    assert_eq!(stash_name(12), "stash@{12}");
}

#[test]
fn the_signing_format_reads_from_the_config() {
    assert_eq!(SigningFormat::from_config(None).label(), "openpgp");
    assert_eq!(SigningFormat::from_config(Some(b"ssh")).label(), "ssh");
    assert_eq!(SigningFormat::from_config(Some(b"x509")).label(), "x509");
    assert_eq!(SigningFormat::from_config(Some(b"openpgp")).label(), "openpgp");
    assert_eq!(
        SigningFormat::from_config(Some(b"gpgsm")).label(),
        "gpgsm (not recognised)"
    );
    assert!(matches!(SigningFormat::from_config(Some(b"SSH")), SigningFormat::Unrecognised(v) if v == "SSH"));
}

#[test]
fn numstat_counts_land_on_their_paths() {
    let mut changes = vec![change("a.rs"), change("logo.png"), change("new.rs"), change("gone.rs")];
    let numstat = "3\t1\ta.rs\0-\t-\tlogo.png\0\x002\t0\t\0old.rs\0new.rs\0";
    apply_counts(&mut changes, numstat);

    let counts: Vec<(&str, usize, usize)> =
        changes.iter().map(|c| (c.path.as_str(), c.additions, c.deletions)).collect();
    assert_eq!(
        counts,
        [("a.rs", 3, 1), ("logo.png", 0, 0), ("new.rs", 2, 0), ("gone.rs", 0, 0)]
    );
    assert!(changes.iter().all(|c| c.kind == ChangeKind::Modified));
}

#[test]
fn the_last_count_for_a_path_wins() {
    let mut changes = vec![change("a.rs")];
    apply_counts(&mut changes, "1\t1\ta.rs\x005\t6\ta.rs\0");
    assert_eq!((changes[0].additions, changes[0].deletions), (5, 6));
}

#[test]
fn a_rename_cut_short_ends_the_reading() {
    let mut changes = vec![change("a.rs"), change("b.rs")];
    apply_counts(&mut changes, "1\t2\ta.rs\x004\t4\t\0only-source\0");
    assert_eq!((changes[0].additions, changes[0].deletions), (1, 2));
    assert_eq!((changes[1].additions, changes[1].deletions), (0, 0));
}

#[test]
fn changes_sort_by_path_keeping_ties_in_order() {
    let mut first = change("b.rs");
    first.additions = 1;
    let mut second = change("b.rs");
    second.additions = 2;
    let sorted = sort_by_path(vec![change("c.rs"), first, change("a/z.rs"), second, change("B.rs")]);
    let paths: Vec<(&str, usize)> = sorted.iter().map(|c| (c.path.as_str(), c.additions)).collect();
    assert_eq!(paths, [("B.rs", 0), ("a/z.rs", 0), ("b.rs", 1), ("b.rs", 2), ("c.rs", 0)]);
}

#[test]
fn a_tree_walk_keeps_its_files_and_drops_its_directories() {
    let changes = file_changes(vec![
        ("src".to_owned(), true, ChangeKind::Modified),
        ("src/a.rs".to_owned(), false, ChangeKind::Added),
        ("b.rs".to_owned(), false, ChangeKind::Deleted),
    ]);
    let seen: Vec<(String, ChangeKind, usize, usize)> = changes
        .into_iter()
        .map(|c| (c.path, c.kind, c.additions, c.deletions))
        .collect();
    assert_eq!(
        seen,
        vec![("src/a.rs".to_owned(), ChangeKind::Added, 0, 0), ("b.rs".to_owned(), ChangeKind::Deleted, 0, 0)]
    );
}
