use gg::git::read::{ChangeKind, FileChange};
use gg::ui::changes::{count_files, delta, flat_rows, summary, Entry, Line, Node, Tree, CHILDREN_SHOWN};

fn change(path: &str, kind: ChangeKind, additions: usize, deletions: usize) -> FileChange {
    FileChange {
        path: path.to_owned(),
        kind,
        additions,
        deletions,
    }
}

fn added(path: &str) -> FileChange {
    change(path, ChangeKind::Added, 1, 0)
}

/// A row as `depth|stems|what`, stems written as `1` for a sibling below and `0` for none.
fn shown(line: &Line) -> String {
    let stems: String = line.stems.iter().map(|s| if *s { '1' } else { '0' }).collect();
    let what = match &line.entry {
        Entry::Directory {
            name,
            files,
            truncated,
        } => format!("{name}/ {files}{}", if *truncated { " …" } else { "" }),
        Entry::File { name, path, .. } => format!("{name} ({path})"),
        Entry::More { path, remaining } => format!("{remaining} more in {path}"),
    };
    format!("{}|{stems}|{what}", line.depth)
}

fn rows(changes: &[FileChange], expanded: &[&str]) -> Vec<String> {
    let tree = Tree::build(&changes.to_vec());
    let expanded: Vec<String> = expanded.iter().map(|e| (*e).to_owned()).collect();
    tree.rows(&expanded).iter().map(shown).collect()
}

#[test]
fn directories_come_first_in_name_order_and_files_keep_theirs() {
    let changes = [
        added("z.txt"),
        added("b/one.rs"),
        added("a.txt"),
        added("a/deep/two.rs"),
        added("b/three.rs"),
    ];

    assert_eq!(
        rows(&changes, &[]),
        [
            "0|1|a/ 1",
            "1|10|deep/ 1",
            "2|100|two.rs (a/deep/two.rs)",
            "0|1|b/ 2",
            "1|11|one.rs (b/one.rs)",
            "1|10|three.rs (b/three.rs)",
            "0|1|z.txt (z.txt)",
            "0|0|a.txt (a.txt)",
        ]
    );
}

#[test]
fn a_crowded_directory_shows_ten_and_says_how_many_more() {
    let changes: Vec<FileChange> = (0..13).map(|n| added(&format!("vendor/f{n:02}.rs"))).collect();

    let folded = rows(&changes, &[]);
    assert_eq!(folded.len(), 1 + CHILDREN_SHOWN + 1);
    assert_eq!(folded[0], "0|0|vendor/ 13 …");
    assert_eq!(folded[1], "1|01|f00.rs (vendor/f00.rs)");
    assert_eq!(folded[10], "1|01|f09.rs (vendor/f09.rs)");
    assert_eq!(folded[11], "1|00|3 more in vendor");

    let open = rows(&changes, &["vendor"]);
    assert_eq!(open.len(), 14);
    assert_eq!(open[0], "0|0|vendor/ 13");
    assert_eq!(open[13], "1|00|f12.rs (vendor/f12.rs)");
}

#[test]
fn a_directory_counts_every_file_below_it() {
    let changes = [added("a/b/c.rs"), added("a/b/d.rs"), added("a/e.rs"), added("f.rs")];
    let tree = Tree::build(&changes.to_vec());
    assert_eq!(count_files(&tree.nodes), 4);
    match &tree.nodes[0] {
        Node::Directory { name, path, children } => {
            assert_eq!(name, "a");
            assert_eq!(path, "a");
            assert_eq!(count_files(children), 3);
            match &children[0] {
                Node::Directory { path, .. } => assert_eq!(path, "a/b"),
                Node::File { .. } => panic!("a/b is a directory"),
            }
        }
        Node::File { .. } => panic!("a is a directory"),
    }
}

#[test]
fn nothing_changed_draws_nothing() {
    assert!(rows(&[], &[]).is_empty());
}

#[test]
fn a_flat_list_names_each_file_by_its_whole_path() {
    let changes = vec![added("src/main.rs"), change("README", ChangeKind::Deleted, 0, 4)];
    let lines: Vec<String> = flat_rows(&changes).iter().map(shown).collect();
    assert_eq!(lines, ["0|0|src/main.rs (src/main.rs)", "0|0|README (README)"]);
}

#[test]
fn a_row_shows_the_sides_that_changed() {
    assert_eq!(delta(0, 0), "");
    assert_eq!(delta(12, 0), "+12");
    assert_eq!(delta(0, 3), "-3");
    assert_eq!(delta(7, 250), "+7 -250");
}

#[test]
fn the_summary_counts_each_kind_and_the_lines() {
    let changes = vec![
        change("a", ChangeKind::Added, 10, 0),
        change("b", ChangeKind::Modified, 3, 2),
        change("c", ChangeKind::Added, 1, 0),
        change("d", ChangeKind::Renamed, 0, 0),
    ];
    let said = summary(&changes);
    assert_eq!(said.statuses, ["2 added", "1 modified", "1 renamed"]);
    assert_eq!(said.additions, 14);
    assert_eq!(said.deletions, 2);
    assert_eq!(said.totals, ["+14", "-2"]);

    let removed = summary(&vec![change("x", ChangeKind::Deleted, 0, 9)]);
    assert_eq!(removed.statuses, ["1 removed"]);
    assert_eq!(removed.totals, ["-9"]);

    let empty = summary(&vec![]);
    assert!(empty.statuses.is_empty());
    assert!(empty.totals.is_empty());
}

#[test]
fn every_row_carries_one_more_stem_than_its_depth() {
    let mut changes: Vec<FileChange> = (0..12).map(|n| added(&format!("src/deep/f{n:02}.rs"))).collect();
    changes.push(added("src/lib.rs"));
    changes.push(added("README.md"));
    let tree = Tree::build(&changes);
    for expanded in [Vec::new(), vec!["src/deep".to_owned()]] {
        let lines = tree.rows(&expanded);
        assert!(!lines.is_empty());
        for line in &lines {
            assert_eq!(line.stems.len(), line.depth + 1);
        }
    }
    let folded = tree.rows(&Vec::new());
    let more = folded.iter().find(|line| matches!(line.entry, Entry::More { .. })).expect("a More row");
    assert_eq!(more.stems.last(), Some(&false));
}
