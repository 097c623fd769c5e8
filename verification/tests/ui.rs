use gg::git::history::GraphRow;
use gg::git::read::{
    Category, ChangeKind, CommitSummary, FileChange, Head, References, Signature, Signing,
    SigningFormat, Status,
};
use gg::git::ObjectId;
use gg::ui::icons::Glyph;
use gg::ui::{
    build_slots, co_authors, commit_range, comparison_of, is_dirty, kind_counts, kind_letter,
    lane_count, rebuild_labels, signing_warning, Columns, Label, LabelKind, Selection, Slot,
    Warning, SEPARATED_ABOVE,
};
use gg::ui::when::days_from_civil;
use gg::git::command::GitError;
use gg::ui::Reading;

fn id(byte: u8) -> ObjectId {
    ObjectId {
        bytes: vec![byte; 20],
    }
}

fn signature() -> Signature {
    Signature {
        name: "Luc".to_owned(),
        email: "luc@example.com".to_owned(),
        seconds: 0,
        offset: 0,
    }
}

fn summary(byte: u8, parent: Option<u8>) -> CommitSummary {
    CommitSummary {
        id: id(byte),
        parent: parent.map(id),
        title: String::new(),
        body: String::new(),
        author: signature(),
        committer: signature(),
        when: "2024-01-01".to_owned(),
    }
}

fn change(kind: ChangeKind) -> FileChange {
    FileChange {
        path: "x".to_owned(),
        kind,
        additions: 0,
        deletions: 0,
    }
}

#[test]
fn a_selection_holds_its_commits() {
    assert!(!Selection::WorkingTree.holds(0));
    assert!(Selection::Commit(3).holds(3));
    assert!(!Selection::Commit(3).holds(4));
    let range = Selection::Range { anchor: 5, other: 2 };
    assert!(range.holds(2) && range.holds(4) && range.holds(5));
    assert!(!range.holds(1) && !range.holds(6));
}

#[test]
fn a_held_click_extends_from_the_anchor() {
    assert_eq!(Selection::clicked(None, 4, true), Selection::Commit(4));
    assert_eq!(Selection::clicked(Some(Selection::Commit(1)), 4, false), Selection::Commit(4));
    assert_eq!(
        Selection::clicked(Some(Selection::Commit(1)), 4, true),
        Selection::Range { anchor: 1, other: 4 }
    );
    assert_eq!(
        Selection::clicked(Some(Selection::Range { anchor: 1, other: 4 }), 7, true),
        Selection::Range { anchor: 1, other: 7 }
    );
    assert_eq!(
        Selection::clicked(Some(Selection::WorkingTree), 2, true),
        Selection::Commit(2)
    );
}

#[test]
fn a_range_compares_its_older_end_with_its_newer() {
    let commits = vec![summary(3, Some(2)), summary(2, Some(1)), summary(1, None)];
    let bytes = |pair: Option<(Option<ObjectId>, ObjectId)>| {
        pair.map(|(from, to)| (from.map(|f| f.bytes[0]), to.bytes[0]))
    };
    assert_eq!(bytes(comparison_of(Selection::Commit(0), &commits)), Some((Some(2), 3)));
    assert_eq!(bytes(comparison_of(Selection::Commit(2), &commits)), Some((None, 1)));
    assert_eq!(
        bytes(comparison_of(Selection::Range { anchor: 0, other: 2 }, &commits)),
        Some((Some(1), 3))
    );
    assert_eq!(bytes(comparison_of(Selection::Commit(3), &commits)), None);
    assert_eq!(bytes(comparison_of(Selection::WorkingTree, &commits)), None);
}

#[test]
fn the_graph_is_as_wide_as_its_highest_lane() {
    let row = |lane: usize, through: Vec<usize>, outgoing: Vec<usize>| GraphRow {
        commit: id(1),
        lane,
        incoming: vec![],
        outgoing,
        through,
    };
    assert_eq!(lane_count(&vec![]), 1);
    assert_eq!(lane_count(&vec![row(0, vec![], vec![0])]), 1);
    assert_eq!(lane_count(&vec![row(0, vec![], vec![0, 2]), row(1, vec![3], vec![])]), 4);
}

#[test]
fn the_working_tree_counts_each_kind_in_order() {
    let status = Status {
        staged: vec![change(ChangeKind::Renamed), change(ChangeKind::Added)],
        unstaged: vec![change(ChangeKind::Added), change(ChangeKind::Modified)],
    };
    assert_eq!(
        kind_counts(&status),
        [(ChangeKind::Added, 2), (ChangeKind::Modified, 1), (ChangeKind::Renamed, 1)]
    );
    assert!(is_dirty(&status));
    assert!(!is_dirty(&Status { staged: vec![], unstaged: vec![] }));
    assert_eq!(kind_letter(ChangeKind::Deleted), "D");
    assert_eq!(kind_letter(ChangeKind::Renamed), "R");
}

#[test]
fn a_short_history_has_no_separators() {
    let whens: Vec<String> = (0..3).map(|_| "2024-01-01".to_owned()).collect();
    let (slots, tops) = build_slots(&whens, true, 0);
    assert!(matches!(slots[0], Slot::WorkingTree));
    assert_eq!(tops, [1, 2, 3]);
    assert_eq!(slots.len(), 4);
}

#[test]
fn a_long_history_is_dated_by_bucket() {
    let today = days_from_civil(2024, 6, 10);
    let mut whens = vec!["2024-06-10".to_owned(), "2024-06-10".to_owned(), "2024-06-09".to_owned()];
    while whens.len() <= SEPARATED_ABOVE {
        whens.push("2020-01-01".to_owned());
    }
    let (slots, tops) = build_slots(&whens, false, today);
    let labels: Vec<String> = slots
        .iter()
        .filter_map(|slot| match slot {
            Slot::Separator(label) => Some(label.clone()),
            _ => None,
        })
        .collect();
    assert_eq!(labels, ["today", "yesterday", "4 years ago"]);
    assert_eq!(tops[0], 1);
    assert_eq!(tops[1], 2);
    assert_eq!(tops[2], 4);
    assert_eq!(tops[3], 6);
    assert!(matches!(slots[tops[3]], Slot::Commit(3)));
}

#[test]
fn the_slots_on_screen_give_a_run_of_commits() {
    let slots = vec![
        Slot::WorkingTree,
        Slot::Separator("today".to_owned()),
        Slot::Commit(0),
        Slot::Commit(1),
        Slot::Separator("yesterday".to_owned()),
        Slot::Commit(2),
    ];
    assert_eq!(commit_range(&slots, 0, 6), (0, 3));
    assert_eq!(commit_range(&slots, 3, 5), (1, 2));
    assert_eq!(commit_range(&slots, 0, 2), (0, 0));
}

#[test]
fn co_authors_are_read_from_their_trailers() {
    let body = "Fixes the thing.\n\nCo-authored-by: Ada Lovelace <ada@example.com>\n  Co-authored-by:   Grace  \nCo-authored-by: <nobody@example.com>\n";
    assert_eq!(co_authors(body), ["Ada Lovelace", "Grace"]);
    assert!(co_authors("").is_empty());
}

#[test]
fn ssh_signing_without_an_agent_warns() {
    let signing = |signs: bool, format: SigningFormat, agent: Option<&str>| Signing {
        signs_commits: signs,
        format,
        key: None,
        ssh_agent: agent.map(str::to_owned),
    };
    match signing_warning(&signing(true, SigningFormat::Ssh, None)) {
        Some(Warning::SigningWithoutAgent(key)) => assert_eq!(key, "that is not set"),
        _ => panic!("ssh signing with no agent must warn"),
    }
    assert!(signing_warning(&signing(true, SigningFormat::Ssh, Some("/run/agent"))).is_none());
    assert!(signing_warning(&signing(false, SigningFormat::Ssh, None)).is_none());
    assert!(signing_warning(&signing(true, SigningFormat::OpenPgp, None)).is_none());
    let mut keyed = signing(true, SigningFormat::Ssh, None);
    keyed.key = Some("~/.ssh/id.pub".to_owned());
    match signing_warning(&keyed) {
        Some(Warning::SigningWithoutAgent(key)) => assert_eq!(key, "~/.ssh/id.pub"),
        _ => panic!("ssh signing with no agent must warn"),
    }
}

#[test]
fn every_column_shows_by_default() {
    let columns = Columns::default();
    assert!(columns.labels && columns.author && columns.when && columns.hash);
    assert_eq!(LabelKind::Stash.glyph(), Glyph::Stash);
    assert_eq!(LabelKind::Remote.glyph(), Glyph::Remote);
}

fn names(labels: &[Label]) -> Vec<(String, String, Option<String>, bool)> {
    labels
        .iter()
        .map(|l| (l.name.clone(), l.short.clone(), l.host.clone(), l.head))
        .collect()
}

#[test]
fn the_name_head_is_on_leads_with_a_tick() {
    let mut references = References::new();
    references.file(Category::LocalBranch, "refs/heads/feature", "feature".to_owned(), id(1));
    references.file(Category::LocalBranch, "refs/heads/main", "main".to_owned(), id(1));
    references.file(Category::RemoteBranch, "refs/remotes/origin/main", "origin/main".to_owned(), id(1));
    references.file(Category::Tag, "refs/tags/v1", "v1".to_owned(), id(2));
    references.file(Category::Other, "refs/pull/8/head", "8/head".to_owned(), id(2));
    let head = Head {
        name: Some("main".to_owned()),
        id: Some(id(1)),
    };
    let remotes = vec![("origin".to_owned(), "github.com".to_owned())];

    let labels = rebuild_labels(&references, &head, &remotes, true, true);
    let at = |byte: u8| {
        labels
            .iter()
            .find(|(id, _)| id.bytes[0] == byte)
            .map(|(_, labels)| labels)
            .expect("the commit is labelled")
    };
    assert_eq!(labels.len(), 2);
    assert_eq!(
        names(at(1)),
        [
            ("main".to_owned(), "main".to_owned(), None, true),
            ("feature".to_owned(), "feature".to_owned(), None, false),
            ("origin/main".to_owned(), "main".to_owned(), Some("github.com".to_owned()), false),
        ]
    );
    assert_eq!(at(2)[0].kind, LabelKind::Tag);
    assert_eq!(at(2)[0].pull, Some(8));

    let hidden = rebuild_labels(&references, &head, &remotes, false, false);
    assert_eq!(hidden.len(), 1);
    assert_eq!(hidden[0].1.len(), 2);
}

#[test]
fn a_detached_head_on_an_unnamed_commit_gets_its_own_chip() {
    let references = References::new();
    let head = Head {
        name: None,
        id: Some(id(9)),
    };
    let labels = rebuild_labels(&references, &head, &vec![], true, true);
    assert_eq!(labels.len(), 1);
    assert_eq!(labels[0].1.len(), 1);
    assert_eq!(labels[0].1[0].kind, LabelKind::Head);
    assert_eq!(labels[0].1[0].name, "HEAD");
    assert!(labels[0].1[0].head);
}

#[test]
fn a_reading_counts_lanes_and_notes_warnings() {
    let rows = vec![GraphRow {
        commit: id(1),
        lane: 0,
        incoming: vec![],
        outgoing: vec![0, 2],
        through: vec![],
    }];
    let signing = Signing {
        signs_commits: false,
        format: SigningFormat::OpenPgp,
        key: None,
        ssh_agent: None,
    };
    let reading = Reading::assemble(
        "/src/gg".to_owned(),
        Head { name: Some("main".to_owned()), id: Some(id(1)) },
        References::new(),
        Status { staged: vec![], unstaged: vec![] },
        rows,
        vec![summary(1, None)],
        vec![("origin".to_owned(), "github.com".to_owned())],
        Err(GitError::Failed { code: Some(127), stderr: "missing".to_owned() }),
        &signing,
        vec![],
    );
    assert_eq!(reading.name, "gg");
    assert_eq!(reading.lanes, 3);
    assert_eq!(reading.authors.len(), 1);
    assert!(matches!(
        reading.warnings.as_slice(),
        [Warning::GitUnusable(error)] if error == "git exited with 127: missing"
    ));
    assert_eq!(reading.remotes[0].1, "github.com");
}

#[test]
fn remote_branches_are_grouped_by_remote_in_name_order() {
    let reference = |name: &str| gg::git::read::Reference {
        name: name.to_owned(),
        target: id(1),
    };
    let branches = vec![
        reference("upstream/main"),
        reference("origin/main"),
        reference("origin/feat/x"),
        reference("upstream/dev"),
        reference("loose"),
    ];
    let groups = gg::ui::remote_groups(&branches);
    let shown: Vec<(String, Vec<(String, String)>)> = groups;
    assert_eq!(shown.len(), 3);
    assert_eq!(shown[0].0, "");
    assert_eq!(shown[0].1, [("loose".to_owned(), "loose".to_owned())]);
    assert_eq!(shown[1].0, "origin");
    assert_eq!(
        shown[1].1,
        [
            ("origin/main".to_owned(), "main".to_owned()),
            ("origin/feat/x".to_owned(), "feat/x".to_owned())
        ]
    );
    assert_eq!(shown[2].0, "upstream");
    assert_eq!(shown[2].1.len(), 2);
}
