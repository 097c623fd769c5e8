//! What the window decides, apart from how it is drawn: what is selected and what that
//! compares, the rows of the history, the names shown against each commit, and the notes
//! drawn from a repository as it is read.
pub mod changes;
pub mod diff;
pub mod graph;
pub mod icons;
pub mod launcher;
pub mod menu;
pub mod remotes;
pub mod session;
pub mod settings;
pub mod theme;
pub mod when;

use crate::git::history::GraphRow;
use crate::git::read::{ChangeKind, CommitSummary, FileChange, Signing, SigningFormat, Status};
use crate::git::ObjectId;
use crate::text::{
    chars_of, split, split_at_char, split_once, split_once_at, string_of, strip_prefix, trim,
    trimmed, without_prefix,
};
use crate::ui::when::{bucket, bucket_text, civil_days, date_fields, days_ago, days_ago_fits};
use vstd::prelude::*;

verus! {

/// How the changed files of a selection are listed.
#[derive(PartialEq, Eq, Structural, Clone, Copy, Debug)]
pub enum FileView {
    Tree,
    Path,
}

/// Which side of the repository a clicked file is diffed against.
#[derive(PartialEq, Eq, Structural, Clone, Copy, Debug)]
pub enum DiffSource {
    Commit,
    Unstaged,
    Staged,
}

/// What the history has selected.
#[derive(PartialEq, Eq, Structural, Clone, Copy, Debug)]
pub enum Selection {
    WorkingTree,
    Commit(usize),
    /// Two commits chosen together and everything between them. `anchor` is the one that
    /// was already selected; `other` is the one ctrl or shift was held for.
    Range { anchor: usize, other: usize },
}

impl Selection {
    /// Whether the commit at `index` of the history is selected.
    pub fn holds(self, index: usize) -> (r: bool)
        ensures
            r == match self {
                Selection::WorkingTree => false,
                Selection::Commit(chosen) => chosen == index,
                Selection::Range { anchor, other } => (anchor <= index <= other) || (other
                    <= index <= anchor),
            },
    {
        match self {
            Selection::WorkingTree => false,
            Selection::Commit(chosen) => chosen == index,
            Selection::Range { anchor, other } => {
                let low = if anchor < other {
                    anchor
                } else {
                    other
                };
                let high = if anchor < other {
                    other
                } else {
                    anchor
                };
                low <= index && index <= high
            },
        }
    }

    /// The selection after a click on commit `index`: with ctrl or shift held, a run from
    /// the commit already selected (or the anchor of the run already selected) to it;
    /// otherwise that commit alone.
    pub fn clicked(current: Option<Selection>, index: usize, extend: bool) -> (next: Selection)
        ensures
            next == match (extend, current) {
                (true, Some(Selection::Commit(anchor))) => Selection::Range { anchor, other: index },
                (true, Some(Selection::Range { anchor, .. })) => Selection::Range {
                    anchor,
                    other: index,
                },
                _ => Selection::Commit(index),
            },
    {
        match (extend, current) {
            (true, Some(Selection::Commit(anchor))) => Selection::Range { anchor, other: index },
            (true, Some(Selection::Range { anchor, .. })) => Selection::Range {
                anchor,
                other: index,
            },
            _ => Selection::Commit(index),
        }
    }
}

/// What a selection compares: one commit against its own parent, a run of them from the
/// older end to the newer. The history runs newest first, so the larger index is the older
/// commit. Nothing for the working tree, or for an index past the history.
pub open spec fn comparison_spec(selection: Selection, commits: Seq<CommitSummary>) -> Option<
    (Option<Seq<u8>>, Seq<u8>),
> {
    match selection {
        Selection::WorkingTree => None,
        Selection::Commit(index) => if index < commits.len() {
            Some(
                (
                    match commits[index as int].parent {
                        Some(p) => Some(p@),
                        None => None,
                    },
                    commits[index as int].id@,
                ),
            )
        } else {
            None
        },
        Selection::Range { anchor, other } => {
            let newer = if anchor < other {
                anchor
            } else {
                other
            };
            let older = if anchor < other {
                other
            } else {
                anchor
            };
            if older < commits.len() {
                Some((Some(commits[older as int].id@), commits[newer as int].id@))
            } else {
                None
            }
        },
    }
}

/// A range compares the same two commits whichever end was selected first: from the older
/// one, further down the list, to the newer one; and it compares anything only when both
/// ends are in the list.
pub proof fn lemma_range_either_way(anchor: usize, other: usize, commits: Seq<CommitSummary>)
    ensures
        comparison_spec(Selection::Range { anchor, other }, commits) == comparison_spec(
            Selection::Range { anchor: other, other: anchor },
            commits,
        ),
        comparison_spec(Selection::Range { anchor, other }, commits) is Some <==> (anchor
            < commits.len() && other < commits.len()),
        anchor < commits.len() && other < commits.len() ==> comparison_spec(
            Selection::Range { anchor, other },
            commits,
        ) == Some(
            (
                Some(commits[if anchor < other { other as int } else { anchor as int }].id@),
                commits[if anchor < other { anchor as int } else { other as int }].id@,
            ),
        ),
{
}

/// What to diff from and what to diff to for a selection.
pub fn comparison_of(selection: Selection, commits: &Vec<CommitSummary>) -> (compared: Option<
    (Option<ObjectId>, ObjectId),
>)
    ensures
        match compared {
            Some((from, to)) => comparison_spec(selection, commits@) == Some(
                (
                    match from {
                        Some(f) => Some(f@),
                        None => None,
                    },
                    to@,
                ),
            ),
            None => comparison_spec(selection, commits@) is None,
        },
{
    match selection {
        Selection::WorkingTree => None,
        Selection::Commit(index) => {
            if index < commits.len() {
                let commit = &commits[index];
                let from = match &commit.parent {
                    Some(p) => Some(p.duplicate()),
                    None => None,
                };
                Some((from, commit.id.duplicate()))
            } else {
                None
            }
        },
        Selection::Range { anchor, other } => {
            let newer = if anchor < other {
                anchor
            } else {
                other
            };
            let older = if anchor < other {
                other
            } else {
                anchor
            };
            if older < commits.len() {
                Some((Some(commits[older].id.duplicate()), commits[newer].id.duplicate()))
            } else {
                None
            }
        },
    }
}

/// The kinds of name a commit can be labelled with.
#[derive(PartialEq, Eq, Structural, Clone, Copy, Debug)]
pub enum LabelKind {
    Head,
    Branch,
    Remote,
    Tag,
    Stash,
}

impl LabelKind {
    /// The glyph drawn on a chip of this kind.
    pub fn glyph(self) -> (glyph: icons::Glyph)
        ensures
            glyph == match self {
                LabelKind::Head => icons::Glyph::Head,
                LabelKind::Branch => icons::Glyph::Branch,
                LabelKind::Remote => icons::Glyph::Remote,
                LabelKind::Tag => icons::Glyph::Tag,
                LabelKind::Stash => icons::Glyph::Stash,
            },
    {
        match self {
            LabelKind::Head => icons::Glyph::Head,
            LabelKind::Branch => icons::Glyph::Branch,
            LabelKind::Remote => icons::Glyph::Remote,
            LabelKind::Tag => icons::Glyph::Tag,
            LabelKind::Stash => icons::Glyph::Stash,
        }
    }
}

/// The optional columns of the history; the title is always there.
#[derive(PartialEq, Eq, Structural, Clone, Copy, Debug)]
pub struct Columns {
    pub labels: bool,
    pub author: bool,
    pub when: bool,
    pub hash: bool,
}

impl Default for Columns {
    /// Every column shown.
    fn default() -> (columns: Columns)
        ensures
            columns == (Columns { labels: true, author: true, when: true, hash: true }),
    {
        Columns { labels: true, author: true, when: true, hash: true }
    }
}

/// A boundary between columns, named for the column it resizes. The two left of the message
/// resize what is left of them; the three right of it resize what is right of them.
#[derive(PartialEq, Eq, Structural, Clone, Copy, Debug)]
pub enum Divider {
    Labels,
    Graph,
    Author,
    When,
    Hash,
}

#[derive(PartialEq, Eq, Structural, Clone, Copy, Debug)]
pub enum HistoryColumn {
    Labels,
    Author,
    When,
    Hash,
}

/// What a sidebar row shows of a repository: reading a whole history for every one of them
/// would make the window take seconds to appear.
pub struct Entry {
    pub path: String,
    pub name: String,
    /// The branch checked out, or why it could not be read.
    pub branch: Result<String, String>,
}

/// Whether there is anything to commit.
pub fn is_dirty(status: &Status) -> (dirty: bool)
    ensures
        dirty == (status.staged@.len() > 0 || status.unstaged@.len() > 0),
{
    status.staged.len() > 0 || status.unstaged.len() > 0
}

/// A note shown when a repository opens rather than on commit.
#[derive(Clone)]
pub enum Warning {
    /// git cannot be run; its error in words.
    GitUnusable(String),
    /// Commits are signed with ssh and no agent is reachable, which makes git hang on a
    /// pinentry that has no terminal to draw on. Carries the key, or words saying there is
    /// none.
    SigningWithoutAgent(String),
}

/// A warning by value.
pub enum WarningView {
    GitUnusable(Seq<char>),
    SigningWithoutAgent(Seq<char>),
}

impl View for Warning {
    type V = WarningView;

    open spec fn view(&self) -> WarningView {
        match self {
            Warning::GitUnusable(error) => WarningView::GitUnusable(error@),
            Warning::SigningWithoutAgent(key) => WarningView::SigningWithoutAgent(key@),
        }
    }
}

/// The signing warning a repository's setup calls for: ssh signing with no agent to sign
/// with.
pub fn signing_warning(signing: &Signing) -> (warning: Option<Warning>)
    ensures
        match warning {
            Some(Warning::SigningWithoutAgent(key)) => signing.signs_commits
                && signing.format is Ssh && signing.ssh_agent is None && key@ == match signing.key {
                Some(k) => k@,
                None => "that is not set"@,
            },
            Some(Warning::GitUnusable(_)) => false,
            None => !(signing.signs_commits && signing.format is Ssh && signing.ssh_agent is None),
        },
{
    let ssh = match signing.format {
        SigningFormat::Ssh => true,
        _ => false,
    };
    if signing.signs_commits && ssh && signing.ssh_agent.is_none() {
        let key = match &signing.key {
            Some(k) => k.clone(),
            None => "that is not set".to_owned(),
        };
        Some(Warning::SigningWithoutAgent(key))
    } else {
        None
    }
}

/// The number of lanes the graph needs: one past the highest lane any row uses, and one
/// for an empty history.
pub open spec fn lanes_needed(rows: Seq<crate::git::history::LaneRow>) -> int
    decreases rows.len(),
{
    if rows.len() == 0 {
        0
    } else {
        let row = rows.last();
        let mut_high = max_of(max_of(row.lane, seq_max(row.through)), seq_max(row.outgoing));
        max_of(lanes_needed(rows.drop_last()), mut_high + 1)
    }
}

pub open spec fn max_of(a: int, b: int) -> int {
    if a < b {
        b
    } else {
        a
    }
}

/// The largest of some lanes, or 0 for none.
pub open spec fn seq_max(lanes: Seq<int>) -> int
    decreases lanes.len(),
{
    if lanes.len() == 0 {
        0
    } else {
        max_of(seq_max(lanes.drop_last()), lanes.last())
    }
}

fn highest(lanes: &Vec<usize>) -> (high: usize)
    ensures
        high as int == seq_max(crate::git::history::as_ints(lanes@)),
{
    let mut high: usize = 0;
    for i in 0..lanes.len()
        invariant
            high as int == seq_max(crate::git::history::as_ints(lanes@.take(i as int))),
    {
        assert(crate::git::history::as_ints(lanes@.take(i + 1)).drop_last()
            == crate::git::history::as_ints(lanes@.take(i as int)));
        if lanes[i] > high {
            high = lanes[i];
        }
    }
    assert(lanes@.take(lanes.len() as int) == lanes@);
    high
}

/// How many lanes the graph of these rows is drawn with: one past the highest lane any row
/// uses, or one when no row uses any.
pub fn lane_count(rows: &Vec<GraphRow>) -> (count: usize)
    requires
        lanes_needed(rows@.map_values(|r: GraphRow| r@)) < usize::MAX,
    ensures
        count == if rows.len() == 0 {
            1
        } else {
            lanes_needed(rows@.map_values(|r: GraphRow| r@))
        },
{
    let ghost views = rows@.map_values(|r: GraphRow| r@);
    let mut needed: usize = 0;
    for i in 0..rows.len()
        invariant
            views == rows@.map_values(|r: GraphRow| r@),
            lanes_needed(views) < usize::MAX,
            needed as int == lanes_needed(views.take(i as int)),
    {
        proof {
            lemma_lanes_needed_prefix(views, i + 1);
            assert(views.take(i + 1).drop_last() == views.take(i as int));
        }
        let row = &rows[i];
        let mut high = row.lane;
        let through = highest(&row.through);
        if through > high {
            high = through;
        }
        let outgoing = highest(&row.outgoing);
        if outgoing > high {
            high = outgoing;
        }
        assert(views.take(i + 1).last() == row@);
        if high + 1 > needed {
            needed = high + 1;
        }
    }
    assert(views.take(rows.len() as int) == views);
    if rows.len() == 0 {
        1
    } else {
        needed
    }
}

proof fn lemma_lanes_needed_prefix(rows: Seq<crate::git::history::LaneRow>, k: int)
    requires
        0 <= k <= rows.len(),
    ensures
        lanes_needed(rows.take(k)) <= lanes_needed(rows),
    decreases rows.len() - k,
{
    if k < rows.len() {
        lemma_lanes_needed_prefix(rows.drop_last(), k);
        assert(rows.drop_last().take(k) == rows.take(k));
    } else {
        assert(rows.take(k) == rows);
    }
}

/// Counts how many of `changes` are of `kind`.
pub open spec fn count_kind(changes: Seq<FileChange>, kind: ChangeKind) -> nat
    decreases changes.len(),
{
    if changes.len() == 0 {
        0
    } else {
        count_kind(changes.drop_last(), kind) + if changes.last().kind == kind {
            1nat
        } else {
            0nat
        }
    }
}

pub(crate) fn count_of_kind(changes: &Vec<FileChange>, kind: ChangeKind) -> (n: usize)
    ensures
        n == count_kind(changes@, kind),
{
    let mut n: usize = 0;
    for i in 0..changes.len()
        invariant
            n == count_kind(changes@.take(i as int), kind),
            n <= i,
    {
        assert(changes@.take(i + 1).drop_last() == changes@.take(i as int));
        if changes[i].kind == kind {
            n = n + 1;
        }
    }
    assert(changes@.take(changes.len() as int) == changes@);
    n
}

/// How many files, staged and unstaged together, a kind of change covers, when any.
pub open spec fn one_kind(status: Status, kind: ChangeKind) -> Seq<(ChangeKind, nat)> {
    let count = count_kind(status.staged@, kind) + count_kind(status.unstaged@, kind);
    if count > 0 {
        seq![(kind, count)]
    } else {
        Seq::empty()
    }
}

/// The kinds of change in the working tree, in the order added, modified, deleted, renamed,
/// each with how many files it covers; a kind with none is left out.
pub open spec fn kind_counts_spec(status: Status) -> Seq<(ChangeKind, nat)> {
    one_kind(status, ChangeKind::Added) + one_kind(status, ChangeKind::Modified) + one_kind(
        status,
        ChangeKind::Deleted,
    ) + one_kind(status, ChangeKind::Renamed)
}

pub open spec fn counts_view(counts: Seq<(ChangeKind, usize)>) -> Seq<(ChangeKind, nat)> {
    counts.map_values(|c: (ChangeKind, usize)| (c.0, c.1 as nat))
}

fn add_kind(counts: &mut Vec<(ChangeKind, usize)>, status: &Status, kind: ChangeKind)
    requires
        status.staged@.len() + status.unstaged@.len() <= usize::MAX,
    ensures
        counts_view(final(counts)@) == counts_view(old(counts)@) + one_kind(*status, kind),
{
    let staged = count_of_kind(&status.staged, kind);
    let unstaged = count_of_kind(&status.unstaged, kind);
    proof {
        lemma_count_kind_bound(status.staged@, kind);
        lemma_count_kind_bound(status.unstaged@, kind);
    }
    let n = staged + unstaged;
    let ghost before = counts_view(counts@);
    if n > 0 {
        counts.push((kind, n));
        assert(counts_view(counts@) =~= before + seq![(kind, n as nat)]);
    } else {
        assert(counts_view(counts@) =~= before + Seq::<(ChangeKind, nat)>::empty());
    }
}

/// The kinds of change in the working tree with how many files each covers.
pub fn kind_counts(status: &Status) -> (counts: Vec<(ChangeKind, usize)>)
    requires
        status.staged@.len() + status.unstaged@.len() <= usize::MAX,
    ensures
        counts_view(counts@) == kind_counts_spec(*status),
{
    let mut counts: Vec<(ChangeKind, usize)> = Vec::new();
    assert(counts_view(counts@) =~= Seq::<(ChangeKind, nat)>::empty());
    add_kind(&mut counts, status, ChangeKind::Added);
    add_kind(&mut counts, status, ChangeKind::Modified);
    add_kind(&mut counts, status, ChangeKind::Deleted);
    add_kind(&mut counts, status, ChangeKind::Renamed);
    assert(counts_view(counts@) =~= kind_counts_spec(*status));
    counts
}

proof fn lemma_count_kind_bound(changes: Seq<FileChange>, kind: ChangeKind)
    ensures
        count_kind(changes, kind) <= changes.len(),
    decreases changes.len(),
{
    if changes.len() > 0 {
        lemma_count_kind_bound(changes.drop_last(), kind);
    }
}

/// The letter a kind of change is counted under.
pub fn kind_letter(kind: ChangeKind) -> (letter: &'static str)
    ensures
        letter@ == match kind {
            ChangeKind::Added => "A"@,
            ChangeKind::Modified => "M"@,
            ChangeKind::Deleted => "D"@,
            ChangeKind::Renamed => "R"@,
        },
{
    match kind {
        ChangeKind::Added => "A",
        ChangeKind::Modified => "M",
        ChangeKind::Deleted => "D",
        ChangeKind::Renamed => "R",
    }
}

/// One line of the history list. Every slot is the same height, which is what lets the
/// pane work out which ones are on screen from the scroll offset alone.
pub enum Slot {
    WorkingTree,
    Separator(String),
    Commit(usize),
}

/// A slot by value.
pub enum SlotView {
    WorkingTree,
    Separator(Seq<char>),
    Commit(int),
}

impl View for Slot {
    type V = SlotView;

    open spec fn view(&self) -> SlotView {
        match self {
            Slot::WorkingTree => SlotView::WorkingTree,
            Slot::Separator(label) => SlotView::Separator(label@),
            Slot::Commit(index) => SlotView::Commit(*index as int),
        }
    }
}

pub open spec fn slot_views(slots: Seq<Slot>) -> Seq<SlotView> {
    slots.map_values(|s: Slot| s@)
}

/// Below this many commits a reader can see the whole history at once, so dating it adds
/// noise rather than orientation.
pub const SEPARATED_ABOVE: usize = 40;

/// The slots of the history after `base`, for commits whose author dates are `whens`, and
/// where each commit's slot falls, and the bucket of the last dated commit. When `dated`,
/// a commit whose date reads falls in the bucket of its age on day `today`, and a separator
/// naming a bucket goes above the first commit in it.
pub open spec fn history_slots(
    whens: Seq<Seq<char>>,
    dated: bool,
    today: int,
    base: Seq<SlotView>,
) -> (Seq<SlotView>, Seq<int>, Option<Seq<char>>)
    decreases whens.len(),
{
    if whens.len() == 0 {
        (base, Seq::empty(), None)
    } else {
        let (slots, tops, current) = history_slots(whens.drop_last(), dated, today, base);
        let (slots, current) = match date_fields(whens.last()) {
            Some((year, month, day)) if dated => {
                let label = bucket_text(today - civil_days(year, month, day));
                if current != Some(label) {
                    (slots.push(SlotView::Separator(label)), Some(label))
                } else {
                    (slots, current)
                }
            },
            _ => (slots, current),
        };
        (slots.push(SlotView::Commit(whens.len() - 1)), tops.push(slots.len() as int), current)
    }
}

pub open spec fn texts_of(strings: Seq<String>) -> Seq<Seq<char>> {
    strings.map_values(|s: String| s@)
}

/// The slots of a history whose commits have these author dates, with a slot for the
/// working tree first when it has changes, and the index of each commit's slot.
pub fn build_slots(whens: &Vec<String>, dirty: bool, today: i64) -> (built: (Vec<Slot>, Vec<usize>))
    requires
        forall|i: int| 0 <= i < whens.len() ==> days_ago_fits(#[trigger] whens@[i]@, today as int),
    ensures
        ({
            let base = if dirty {
                seq![SlotView::WorkingTree]
            } else {
                Seq::empty()
            };
            let (slots, tops, _) = history_slots(
                texts_of(whens@),
                whens.len() > SEPARATED_ABOVE,
                today as int,
                base,
            );
            &&& slot_views(built.0@) == slots
            &&& built.1@.map_values(|t: usize| t as int) == tops
        }),
{
    let ghost base = if dirty {
        seq![SlotView::WorkingTree]
    } else {
        Seq::<SlotView>::empty()
    };
    let mut slots: Vec<Slot> = Vec::new();
    let mut tops: Vec<usize> = Vec::new();
    if dirty {
        slots.push(Slot::WorkingTree);
    }
    assert(slot_views(slots@) =~= base);
    let dated = whens.len() > SEPARATED_ABOVE;
    let mut current: Option<String> = None;
    let ghost all = texts_of(whens@);
    for i in 0..whens.len()
        invariant
            all == texts_of(whens@),
            dated == (whens.len() > SEPARATED_ABOVE),
            base == if dirty {
                seq![SlotView::WorkingTree]
            } else {
                Seq::<SlotView>::empty()
            },
            forall|j: int| 0 <= j < whens.len() ==> days_ago_fits(#[trigger] whens@[j]@, today as int),
            slots@.len() <= 2 * i + 1,
            ({
                let (s, t, c) = history_slots(all.take(i as int), dated, today as int, base);
                &&& slot_views(slots@) == s
                &&& tops@.map_values(|x: usize| x as int) == t
                &&& match current {
                    Some(label) => c == Some(label@),
                    None => c is None,
                }
            }),
    {
        proof {
            assert(all.take(i + 1).drop_last() == all.take(i as int));
            assert(all.take(i + 1).last() == whens@[i as int]@);
        }
        if dated {
            let days = days_ago(whens[i].as_str(), today);
            if let Some(days) = days {
                let label = bucket(days);
                let fresh = match &current {
                    Some(c) => *c != label,
                    None => true,
                };
                if fresh {
                    let ghost before = slot_views(slots@);
                    slots.push(Slot::Separator(label.clone()));
                    assert(slot_views(slots@) == before.push(SlotView::Separator(label@)));
                    current = Some(label);
                }
            }
        }
        let ghost before = slot_views(slots@);
        let ghost tops_before = tops@.map_values(|x: usize| x as int);
        tops.push(slots.len());
        slots.push(Slot::Commit(i));
        proof {
            assert(slot_views(slots@) == before.push(SlotView::Commit(i as int)));
            assert(tops@.map_values(|x: usize| x as int) == tops_before.push(before.len() as int));
        }
    }
    assert(all.take(whens.len() as int) == all);
    (slots, tops)
}

/// The commits among some slots, in order.
pub open spec fn commits_among(slots: Seq<SlotView>) -> Seq<int>
    decreases slots.len(),
{
    if slots.len() == 0 {
        Seq::empty()
    } else {
        match slots.last() {
            SlotView::Commit(index) => commits_among(slots.drop_last()).push(index),
            _ => commits_among(slots.drop_last()),
        }
    }
}

/// The commits shown in slots `start` up to `end`, as the range from the first of them to
/// one past the last; an empty range at 0 when there are none.
pub fn commit_range(slots: &Vec<Slot>, start: usize, end: usize) -> (range: (usize, usize))
    requires
        start <= end <= slots.len(),
        forall|i: int| 0 <= i < slots.len() ==> (#[trigger] slots@[i] matches Slot::Commit(c)
            ==> c < usize::MAX),
    ensures
        ({
            let shown = commits_among(slot_views(slots@).subrange(start as int, end as int));
            range == if shown.len() == 0 {
                (0usize, 0usize)
            } else {
                (shown[0] as usize, (shown.last() + 1) as usize)
            }
        }),
{
    let ghost views = slot_views(slots@);
    let mut first: Option<usize> = None;
    let mut last: usize = 0;
    let mut i = start;
    while i < end
        invariant
            start <= i <= end <= slots.len(),
            views == slot_views(slots@),
            last < usize::MAX,
            forall|k: int| 0 <= k < slots.len() ==> (#[trigger] slots@[k] matches Slot::Commit(c)
                ==> c < usize::MAX),
            ({
                let shown = commits_among(views.subrange(start as int, i as int));
                &&& (first is None <==> shown.len() == 0)
                &&& first matches Some(f) ==> f == shown[0] && last == shown.last()
            }),
        decreases end - i,
    {
        proof {
            assert(views.subrange(start as int, i + 1).drop_last() == views.subrange(
                start as int,
                i as int,
            ));
            assert(views.subrange(start as int, i + 1).last() == slots@[i as int]@);
        }
        match &slots[i] {
            Slot::Commit(index) => {
                assert(slots@[i as int] matches Slot::Commit(c) ==> c < usize::MAX);
                if first.is_none() {
                    first = Some(*index);
                }
                last = *index;
            },
            _ => {},
        }
        i = i + 1;
    }
    match first {
        Some(f) => (f, last + 1),
        None => (0, 0),
    }
}

/// The names a commit message credits with `Co-authored-by:` trailers: on each line that
/// starts with it, once trimmed, what follows up to any `<`, trimmed; an empty name is no
/// name.
pub open spec fn co_author_names(lines: Seq<Seq<char>>) -> Seq<Seq<char>>
    decreases lines.len(),
{
    if lines.len() == 0 {
        Seq::empty()
    } else {
        let earlier = co_author_names(lines.drop_last());
        match without_prefix(trim(lines.last()), "Co-authored-by:"@) {
            Some(rest) => {
                let name = trim(split(rest, '<')[0]);
                if name.len() > 0 {
                    earlier.push(name)
                } else {
                    earlier
                }
            },
            None => earlier,
        }
    }
}

/// The co-authors a commit message credits.
pub fn co_authors(body: &str) -> (names: Vec<String>)
    ensures
        texts_of(names@) == co_author_names(split(body@, '\n')),
{
    let lines = split_at_char(&chars_of(body), '\n');
    let ghost all = lines@.map_values(|l: Vec<char>| l@);
    assert(all == split(body@, '\n'));
    let mut names: Vec<String> = Vec::new();
    for i in 0..lines.len()
        invariant
            all == lines@.map_values(|l: Vec<char>| l@),
            texts_of(names@) == co_author_names(all.take(i as int)),
    {
        proof {
            assert(all.take(i + 1).drop_last() == all.take(i as int));
            assert(all.take(i + 1).last() == lines@[i as int]@);
        }
        let line = trimmed(&lines[i]);
        if let Some(rest) = strip_prefix(&line, &chars_of("Co-authored-by:")) {
            let pieces = split_at_char(&rest, '<');
            proof {
                crate::text::lemma_split_len(rest@, '<');
            }
            assert(pieces@[0]@ == split(rest@, '<')[0]);
            let name = trimmed(&pieces[0]);
            if name.len() > 0 {
                let ghost before = texts_of(names@);
                names.push(string_of(&name));
                assert(texts_of(names@) == before.push(name@));
            }
        }
    }
    assert(all.take(lines.len() as int) == all);
    names
}

/// A name shown against a commit.
pub struct Label {
    pub kind: LabelKind,
    /// The whole name, `origin/main` and all.
    pub name: String,
    /// What the chip shows: a remote branch without the remote in front of it.
    pub short: String,
    /// The host a remote branch's remote points at.
    pub host: Option<String>,
    /// The pull request the commit heads, if any.
    pub pull: Option<u32>,
    /// Whether HEAD is at this name, which is what the tick in front of it says.
    pub head: bool,
}

/// A label by value.
pub struct LabelView {
    pub kind: LabelKind,
    pub name: Seq<char>,
    pub short: Seq<char>,
    pub host: Option<Seq<char>>,
    pub pull: Option<u32>,
    pub head: bool,
}

impl View for Label {
    type V = LabelView;

    open spec fn view(&self) -> LabelView {
        LabelView {
            kind: self.kind,
            name: self.name@,
            short: self.short@,
            host: match self.host {
                Some(h) => Some(h@),
                None => None,
            },
            pull: self.pull,
            head: self.head,
        }
    }
}

pub open spec fn label_views(labels: Seq<Label>) -> Seq<LabelView> {
    labels.map_values(|l: Label| l@)
}

/// The host the first remote of this name points at, if any.
pub open spec fn host_of(remotes: Seq<(String, String)>, remote: Seq<char>) -> Option<Seq<char>>
    decreases remotes.len(),
{
    if remotes.len() == 0 {
        None
    } else if remotes[0].0@ == remote {
        Some(remotes[0].1@)
    } else {
        host_of(remotes.drop_first(), remote)
    }
}

/// The remote a remote branch's name starts with, and the branch after it: `origin/main`
/// names the remote before the branch.
pub open spec fn remote_parts(name: Seq<char>) -> (Seq<char>, Seq<char>) {
    match split_once(name, '/') {
        Some((remote, short)) => (remote, short),
        None => (Seq::empty(), name),
    }
}

/// The label a reference gets: a remote branch shows the branch alone and the forge of its
/// remote in place of the remote's name.
pub open spec fn label_of(
    name: Seq<char>,
    kind: LabelKind,
    pull: Option<u32>,
    remotes: Seq<(String, String)>,
) -> LabelView {
    if kind == LabelKind::Remote {
        let (remote, short) = remote_parts(name);
        LabelView {
            kind,
            name,
            short,
            host: Some(
                match host_of(remotes, remote) {
                    Some(h) => h,
                    None => remote,
                },
            ),
            pull,
            head: false,
        }
    } else {
        LabelView { kind, name, short: name, host: None, pull, head: false }
    }
}

/// The labels the references of one kind give commit `id`, in their order.
pub open spec fn labels_from(
    refs: Seq<crate::git::read::Reference>,
    kind: LabelKind,
    id: Seq<u8>,
    pull: Option<u32>,
    remotes: Seq<(String, String)>,
) -> Seq<LabelView>
    decreases refs.len(),
{
    if refs.len() == 0 {
        Seq::empty()
    } else {
        let earlier = labels_from(refs.drop_last(), kind, id, pull, remotes);
        if refs.last().target@ == id {
            earlier.push(label_of(refs.last().name@, kind, pull, remotes))
        } else {
            earlier
        }
    }
}

/// The names commit `id` carries: its local branches, its remote branches when they are
/// shown, its stashes, and its tags when they are shown.
pub open spec fn names_of(
    references: crate::git::read::References,
    id: Seq<u8>,
    remotes: Seq<(String, String)>,
    show_remote_branches: bool,
    show_tags: bool,
) -> Seq<LabelView> {
    let pull = references.pull_view().get(id);
    labels_from(references.local_branches@, LabelKind::Branch, id, pull, remotes) + if show_remote_branches {
        labels_from(references.remote_branches@, LabelKind::Remote, id, pull, remotes)
    } else {
        Seq::empty()
    } + labels_from(references.stashes@, LabelKind::Stash, id, pull, remotes) + if show_tags {
        labels_from(references.tags@, LabelKind::Tag, id, pull, remotes)
    } else {
        Seq::empty()
    }
}

/// Where the first label of this name stands, or -1.
pub open spec fn first_named(labels: Seq<LabelView>, name: Seq<char>) -> int
    decreases labels.len(),
{
    if labels.len() == 0 {
        -1
    } else if first_named(labels.drop_last(), name) >= 0 {
        first_named(labels.drop_last(), name)
    } else if labels.last().name == name {
        labels.len() - 1
    } else {
        -1
    }
}

/// The labels of the commit HEAD is at. A tick on a name the commit already carries says
/// where HEAD is in less room than a chip of its own: the name HEAD is attached to, else
/// the first name, is ticked and put first, the others keeping their order. Only a commit
/// with no name at all gets a `HEAD` chip.
pub open spec fn with_head(labels: Seq<LabelView>, attached: Option<Seq<char>>, pull: Option<u32>) -> Seq<
    LabelView,
> {
    let named = match attached {
        Some(name) => first_named(labels, name),
        None => -1,
    };
    let ticked = if named < 0 && labels.len() > 0 {
        0
    } else {
        named
    };
    if ticked >= 0 {
        let marked = LabelView { head: true, ..labels[ticked] };
        seq![marked] + labels.take(ticked) + labels.skip(ticked + 1)
    } else {
        labels.push(
            LabelView {
                kind: LabelKind::Head,
                name: "HEAD"@,
                short: "HEAD"@,
                host: None,
                pull,
                head: true,
            },
        )
    }
}

/// The labels commit `id` is shown with.
pub open spec fn labels_for(
    references: crate::git::read::References,
    head: crate::git::read::Head,
    id: Seq<u8>,
    remotes: Seq<(String, String)>,
    show_remote_branches: bool,
    show_tags: bool,
) -> Seq<LabelView> {
    let names = names_of(references, id, remotes, show_remote_branches, show_tags);
    match head.id {
        Some(at) if at@ == id => with_head(
            names,
            match head.name {
                Some(n) => Some(n@),
                None => None,
            },
            references.pull_view().get(id),
        ),
        _ => names,
    }
}

/// The commits that carry a label: those a shown reference points at, and the one HEAD is
/// at.
pub open spec fn labelled(
    references: crate::git::read::References,
    head: crate::git::read::Head,
    show_remote_branches: bool,
    show_tags: bool,
) -> Set<Seq<u8>> {
    let targets = |refs: Seq<crate::git::read::Reference>|
        refs.map_values(|r: crate::git::read::Reference| r.target@).to_set();
    targets(references.local_branches@) + (if show_remote_branches {
        targets(references.remote_branches@)
    } else {
        Set::empty()
    }) + targets(references.stashes@) + (if show_tags {
        targets(references.tags@)
    } else {
        Set::empty()
    }) + match head.id {
        Some(at) => set![at@],
        None => Set::empty(),
    }
}

fn host_lookup(remotes: &Vec<(String, String)>, remote: &Vec<char>) -> (host: Option<String>)
    ensures
        match host {
            Some(h) => host_of(remotes@, remote@) == Some(h@),
            None => host_of(remotes@, remote@) is None,
        },
{
    let mut i: usize = 0;
    assert(remotes@.skip(0) == remotes@);
    while i < remotes.len()
        invariant
            i <= remotes.len(),
            host_of(remotes@, remote@) == host_of(remotes@.skip(i as int), remote@),
        decreases remotes.len() - i,
    {
        assert(remotes@.skip(i as int).drop_first() == remotes@.skip(i + 1));
        assert(remotes@.skip(i as int)[0] == remotes@[i as int]);
        if crate::text::same(&chars_of(remotes[i].0.as_str()), remote) {
            return Some(remotes[i].1.clone());
        }
        i = i + 1;
    }
    None
}

fn make_label(name: &String, kind: LabelKind, pull: Option<u32>, remotes: &Vec<(String, String)>) -> (label: Label)
    ensures
        label@ == label_of(name@, kind, pull, remotes@),
{
    if kind == LabelKind::Remote {
        let whole = chars_of(name.as_str());
        let (remote, short) = match split_once_at(&whole, '/') {
            Some((remote, short)) => (remote, short),
            None => (Vec::new(), whole),
        };
        let host = match host_lookup(remotes, &remote) {
            Some(h) => h,
            None => string_of(&remote),
        };
        Label { kind, name: name.clone(), short: string_of(&short), host: Some(host), pull, head: false }
    } else {
        Label { kind, name: name.clone(), short: name.clone(), host: None, pull, head: false }
    }
}

fn add_labels(
    labels: &mut Vec<Label>,
    refs: &Vec<crate::git::read::Reference>,
    kind: LabelKind,
    id: &ObjectId,
    pull: Option<u32>,
    remotes: &Vec<(String, String)>,
)
    ensures
        label_views(final(labels)@) == label_views(old(labels)@) + labels_from(refs@, kind, id@, pull, remotes@),
{
    let ghost start = label_views(labels@);
    for i in 0..refs.len()
        invariant
            label_views(labels@) == start + labels_from(refs@.take(i as int), kind, id@, pull, remotes@),
    {
        assert(refs@.take(i + 1).drop_last() == refs@.take(i as int));
        assert(refs@.take(i + 1).last() == refs@[i as int]);
        if refs[i].target.same(id) {
            let ghost before = label_views(labels@);
            labels.push(make_label(&refs[i].name, kind, pull, remotes));
            assert(label_views(labels@) == before.push(label_views(labels@).last()));
        }
    }
    assert(refs@.take(refs.len() as int) == refs@);
}

fn find_named(labels: &Vec<Label>, name: &String) -> (at: Option<usize>)
    ensures
        match at {
            Some(i) => first_named(label_views(labels@), name@) == i,
            None => first_named(label_views(labels@), name@) == -1,
        },
{
    let ghost views = label_views(labels@);
    for i in 0..labels.len()
        invariant
            views == label_views(labels@),
            first_named(views.take(i as int), name@) == -1,
    {
        assert(views.take(i + 1).drop_last() == views.take(i as int));
        if labels[i].name == *name {
            proof {
                assert(views.take(i + 1).last().name == name@);
                lemma_first_named_prefix(views, i + 1, name@);
            }
            return Some(i);
        }
    }
    assert(views.take(labels.len() as int) == views);
    None
}

proof fn lemma_first_named_bounds(labels: Seq<LabelView>, name: Seq<char>)
    ensures
        -1 <= first_named(labels, name) < labels.len(),
    decreases labels.len(),
{
    if labels.len() > 0 {
        lemma_first_named_bounds(labels.drop_last(), name);
    }
}

proof fn lemma_first_named_prefix(labels: Seq<LabelView>, k: int, name: Seq<char>)
    requires
        0 <= k <= labels.len(),
        first_named(labels.take(k), name) >= 0,
    ensures
        first_named(labels, name) == first_named(labels.take(k), name),
    decreases labels.len() - k,
{
    if k < labels.len() {
        assert(labels.drop_last().take(k) == labels.take(k));
        lemma_first_named_prefix(labels.drop_last(), k, name);
    } else {
        assert(labels.take(k) == labels);
    }
}

pub open spec fn targets_of(refs: Seq<crate::git::read::Reference>) -> Set<Seq<u8>> {
    refs.map_values(|r: crate::git::read::Reference| r.target@).to_set()
}

fn gather(ids: &mut Vec<ObjectId>, refs: &Vec<crate::git::read::Reference>)
    requires
        crate::git::ids_view(old(ids)@).no_duplicates(),
    ensures
        crate::git::ids_view(final(ids)@).no_duplicates(),
        crate::git::ids_view(final(ids)@).to_set() == crate::git::ids_view(old(ids)@).to_set()
            + targets_of(refs@),
{
    let ghost start = crate::git::ids_view(ids@).to_set();
    for i in 0..refs.len()
        invariant
            crate::git::ids_view(ids@).no_duplicates(),
            crate::git::ids_view(ids@).to_set() == start + targets_of(refs@.take(i as int)),
    {
        let ghost before = crate::git::ids_view(ids@);
        proof {
            assert(refs@.take(i + 1).map_values(|r: crate::git::read::Reference| r.target@)
                == refs@.take(i as int).map_values(|r: crate::git::read::Reference| r.target@).push(
                refs@[i as int].target@,
            ));
            refs@.take(i as int).map_values(
                |r: crate::git::read::Reference| r.target@,
            ).lemma_push_to_set_commute(refs@[i as int].target@);
        }
        match crate::git::position_of(ids, &refs[i].target) {
            Some(k) => {
                assert(before[k as int] == refs@[i as int].target@);
                assert(before.to_set().contains(refs@[i as int].target@));
                assert(crate::git::ids_view(ids@).to_set() =~= start + targets_of(
                    refs@.take(i + 1),
                ));
            },
            None => {
                ids.push(refs[i].target.duplicate());
                proof {
                    assert(crate::git::ids_view(ids@) == before.push(refs@[i as int].target@));
                    assert(!before.contains(refs@[i as int].target@));
                    before.lemma_push_to_set_commute(refs@[i as int].target@);
                    assert forall|a: int, b: int|
                        0 <= a < b < before.len() + 1 implies before.push(
                        refs@[i as int].target@,
                    )[a] != before.push(refs@[i as int].target@)[b] by {
                        if b == before.len() {
                            assert(before[a] != refs@[i as int].target@);
                        }
                    }
                    assert(crate::git::ids_view(ids@).to_set() =~= start + targets_of(
                        refs@.take(i + 1),
                    ));
                }
            },
        }
    }
    assert(refs@.take(refs.len() as int) == refs@);
}

/// The labels of one commit.
fn labels_of_commit(
    references: &crate::git::read::References,
    head: &crate::git::read::Head,
    id: &ObjectId,
    remotes: &Vec<(String, String)>,
    show_remote_branches: bool,
    show_tags: bool,
) -> (labels: Vec<Label>)
    requires
        references.well_formed(),
    ensures
        label_views(labels@) == labels_for(
            *references,
            *head,
            id@,
            remotes@,
            show_remote_branches,
            show_tags,
        ),
{
    let pull = references.pull_of(id);
    let mut labels: Vec<Label> = Vec::new();
    assert(label_views(labels@) =~= Seq::<LabelView>::empty());
    add_labels(&mut labels, &references.local_branches, LabelKind::Branch, id, pull, remotes);
    let ghost after_local = label_views(labels@);
    if show_remote_branches {
        add_labels(&mut labels, &references.remote_branches, LabelKind::Remote, id, pull, remotes);
    } else {
        assert(label_views(labels@) =~= after_local + Seq::<LabelView>::empty());
    }
    add_labels(&mut labels, &references.stashes, LabelKind::Stash, id, pull, remotes);
    let ghost after_stashes = label_views(labels@);
    if show_tags {
        add_labels(&mut labels, &references.tags, LabelKind::Tag, id, pull, remotes);
    } else {
        assert(label_views(labels@) =~= after_stashes + Seq::<LabelView>::empty());
    }
    let ghost names = label_views(labels@);
    assert(names == names_of(*references, id@, remotes@, show_remote_branches, show_tags));
    let at_head = match &head.id {
        Some(at) => at.same(id),
        None => false,
    };
    if !at_head {
        return labels;
    }
    let named = match &head.name {
        Some(n) => find_named(&labels, n),
        None => None,
    };
    proof {
        lemma_first_named_bounds(names, match &head.name {
            Some(n) => n@,
            None => Seq::empty(),
        });
    }
    let ticked = match named {
        Some(t) => Some(t),
        None => if labels.len() > 0 {
            Some(0)
        } else {
            None
        },
    };
    match ticked {
        Some(t) => {
            let mut chosen = labels.remove(t);
            chosen.head = true;
            let ghost rest = label_views(labels@);
            labels.insert(0, chosen);
            proof {
                assert(rest =~= names.take(t as int) + names.skip(t + 1));
                assert(label_views(labels@) =~= seq![LabelView { head: true, ..names[t as int] }]
                    + names.take(t as int) + names.skip(t + 1));
            }
        },
        None => {
            labels.push(
                Label {
                    kind: LabelKind::Head,
                    name: "HEAD".to_owned(),
                    short: "HEAD".to_owned(),
                    host: None,
                    pull,
                    head: true,
                },
            );
            assert(label_views(labels@) =~= names.push(label_views(labels@).last()));
        },
    }
    labels
}

/// The labels of every labelled commit, each commit once: what the history's label column
/// shows.
pub fn rebuild_labels(
    references: &crate::git::read::References,
    head: &crate::git::read::Head,
    remotes: &Vec<(String, String)>,
    show_remote_branches: bool,
    show_tags: bool,
) -> (labels: Vec<(ObjectId, Vec<Label>)>)
    requires
        references.well_formed(),
    ensures
        ({
            let ids = labels@.map_values(|entry: (ObjectId, Vec<Label>)| entry.0@);
            &&& ids.no_duplicates()
            &&& ids.to_set() == labelled(*references, *head, show_remote_branches, show_tags)
            &&& forall|i: int|
                0 <= i < labels.len() ==> label_views(#[trigger] labels@[i].1@) == labels_for(
                    *references,
                    *head,
                    labels@[i].0@,
                    remotes@,
                    show_remote_branches,
                    show_tags,
                )
        }),
{
    let mut ids: Vec<ObjectId> = Vec::new();
    assert(crate::git::ids_view(ids@).to_set() =~= Set::<Seq<u8>>::empty());
    gather(&mut ids, &references.local_branches);
    let ghost after_local = crate::git::ids_view(ids@).to_set();
    if show_remote_branches {
        gather(&mut ids, &references.remote_branches);
    } else {
        assert(crate::git::ids_view(ids@).to_set() =~= after_local + Set::<Seq<u8>>::empty());
    }
    gather(&mut ids, &references.stashes);
    let ghost after_stashes = crate::git::ids_view(ids@).to_set();
    if show_tags {
        gather(&mut ids, &references.tags);
    } else {
        assert(crate::git::ids_view(ids@).to_set() =~= after_stashes + Set::<Seq<u8>>::empty());
    }
    let ghost shown = crate::git::ids_view(ids@).to_set();
    match &head.id {
        Some(at) => {
            let mut heads: Vec<crate::git::read::Reference> = Vec::new();
            heads.push(crate::git::read::Reference { name: String::new(), target: at.duplicate() });
            gather(&mut ids, &heads);
            let ghost seen = heads@.map_values(|r: crate::git::read::Reference| r.target@);
            assert(seen =~= seq![at@]);
            assert(seen[0] == at@);
            assert(seen.contains(at@));
            assert forall|x: Seq<u8>| seen.contains(x) <==> x == at@ by {
                if seen.contains(x) {
                    let k = choose|k: int| 0 <= k < seen.len() && seen[k] == x;
                    assert(k == 0);
                }
            }
            assert(targets_of(heads@) =~= set![at@]);
        },
        None => {
            assert(crate::git::ids_view(ids@).to_set() =~= shown + Set::<Seq<u8>>::empty());
        },
    }
    assert(crate::git::ids_view(ids@).to_set() =~= labelled(
        *references,
        *head,
        show_remote_branches,
        show_tags,
    ));
    let mut labels: Vec<(ObjectId, Vec<Label>)> = Vec::new();
    for i in 0..ids.len()
        invariant
            references.well_formed(),
            labels.len() == i,
            forall|k: int| 0 <= k < i ==> (#[trigger] labels@[k]).0@ == ids@[k]@,
            forall|k: int|
                0 <= k < i ==> label_views(#[trigger] labels@[k].1@) == labels_for(
                    *references,
                    *head,
                    labels@[k].0@,
                    remotes@,
                    show_remote_branches,
                    show_tags,
                ),
    {
        let these = labels_of_commit(references, head, &ids[i], remotes, show_remote_branches, show_tags);
        labels.push((ids[i].duplicate(), these));
    }
    assert(labels@.map_values(|entry: (ObjectId, Vec<Label>)| entry.0@) =~= crate::git::ids_view(
        ids@,
    ));
    labels
}

/// What is read of a repository before the window shows it: everything the history, the
/// sidebar and the notes above the panes are drawn from, as plain values.
#[derive(Clone)]
pub struct Reading {
    pub name: String,
    pub path: String,
    pub head: crate::git::read::Head,
    pub references: crate::git::read::References,
    pub status: Status,
    pub rows: Vec<GraphRow>,
    pub commits: Vec<CommitSummary>,
    /// How many lanes the graph is drawn with.
    pub lanes: usize,
    /// The author of each commit, in the order of the commits.
    pub authors: Vec<crate::ui::graph::Author>,
    /// Each remote's name, with the host its URL points at.
    pub remotes: Vec<(String, String)>,
    pub warnings: Vec<Warning>,
    pub worktrees: Vec<crate::git::read::Worktree>,
}

impl Reading {
    /// Puts together what was read of the repository at `path` (its work tree): the lanes the
    /// graph needs, each commit's author, and the warnings git's answer to `--version` and
    /// the signing setup call for.
    pub fn assemble(
        path: String,
        head: crate::git::read::Head,
        references: crate::git::read::References,
        status: Status,
        rows: Vec<GraphRow>,
        commits: Vec<CommitSummary>,
        remotes: Vec<(String, String)>,
        version: Result<String, crate::git::command::GitError>,
        signing: &Signing,
        worktrees: Vec<crate::git::read::Worktree>,
    ) -> (reading: Reading)
        requires
            lanes_needed(rows@.map_values(|r: GraphRow| r@)) < usize::MAX,
        ensures
            reading.name@ == crate::ui::launcher::name_of_path(path@),
            reading.path == path,
            reading.head == head,
            reading.references == references,
            reading.status == status,
            reading.rows == rows,
            reading.commits == commits,
            reading.remotes == remotes,
            reading.worktrees == worktrees,
            reading.lanes == if rows.len() == 0 {
                1
            } else {
                lanes_needed(rows@.map_values(|r: GraphRow| r@))
            },
            reading.authors.len() == commits.len(),
            forall|i: int|
                0 <= i < commits.len() ==> crate::ui::graph::drawn_as(
                    #[trigger] reading.authors@[i],
                    commits@[i],
                ),
            crate::ui::session::warning_views(reading.warnings@) == crate::ui::session::warnings_of(
                version,
                *signing,
            ),
    {
        let name = crate::ui::launcher::name_of(path.as_str());
        let lanes = lane_count(&rows);
        let mut authors: Vec<crate::ui::graph::Author> = Vec::new();
        for i in 0..commits.len()
            invariant
                authors.len() == i,
                forall|k: int|
                    0 <= k < i ==> crate::ui::graph::drawn_as(#[trigger] authors@[k], commits@[k]),
        {
            authors.push(crate::ui::graph::author_of(&commits[i]));
        }
        let warnings = crate::ui::session::repository_warnings(&version, signing);
        Reading {
            name,
            path,
            head,
            references,
            status,
            rows,
            commits,
            lanes,
            authors,
            remotes,
            warnings,
            worktrees,
        }
    }
}

/// The remote a remote branch belongs to and its name there, as the sidebar shows them.
fn remote_of(name: &String) -> (parts: (String, String))
    ensures
        (parts.0@, parts.1@) == remote_parts(name@),
{
    match split_once_at(&chars_of(name.as_str()), '/') {
        Some((remote, short)) => (string_of(&remote), string_of(&short)),
        None => (String::new(), name.clone()),
    }
}

pub open spec fn remotes_named(branches: Seq<crate::git::read::Reference>) -> Seq<Seq<char>> {
    branches.map_values(|b: crate::git::read::Reference| remote_parts(b.name@).0)
}

/// The branches of one remote, in the order listed: each whole name with the name it has on
/// the remote.
pub open spec fn branches_on(branches: Seq<crate::git::read::Reference>, remote: Seq<char>) -> Seq<
    (Seq<char>, Seq<char>),
>
    decreases branches.len(),
{
    if branches.len() == 0 {
        Seq::empty()
    } else {
        let earlier = branches_on(branches.drop_last(), remote);
        let (r, short) = remote_parts(branches.last().name@);
        if r == remote {
            earlier.push((branches.last().name@, short))
        } else {
            earlier
        }
    }
}

pub open spec fn branch_pairs(pairs: Seq<(String, String)>) -> Seq<(Seq<char>, Seq<char>)> {
    pairs.map_values(|p: (String, String)| (p.0@, p.1@))
}

/// The remote branches as the sidebar groups them: one group a remote, in the order of the
/// remotes' names, each holding that remote's branches in the order listed.
pub fn remote_groups(branches: &Vec<crate::git::read::Reference>) -> (groups: Vec<(String, Vec<(String, String)>)>)
    ensures
        groups@.map_values(|g: (String, Vec<(String, String)>)| g.0@) == crate::text::in_text_order(
            crate::text::distinct(remotes_named(branches@)),
        ),
        forall|i: int|
            0 <= i < groups.len() ==> branch_pairs(#[trigger] groups@[i].1@) == branches_on(
                branches@,
                groups@[i].0@,
            ),
{
    let ghost named = remotes_named(branches@);
    let mut remotes: Vec<String> = Vec::new();
    for i in 0..branches.len()
        invariant
            named == remotes_named(branches@),
            crate::text::texts(remotes@) == crate::text::distinct(named.take(i as int)),
    {
        let (remote, _) = remote_of(&branches[i].name);
        proof {
            assert(named.take(i + 1).drop_last() == named.take(i as int));
            assert(named.take(i + 1).last() == remote@);
        }
        if !crate::text::holds(&remotes, &remote) {
            let ghost before = crate::text::texts(remotes@);
            remotes.push(remote);
            assert(crate::text::texts(remotes@) =~= before.push(named[i as int]));
        }
    }
    assert(named.take(branches.len() as int) == named);
    let sorted = crate::text::sort_texts(remotes);
    let ghost order = crate::text::texts(sorted@);
    let mut groups: Vec<(String, Vec<(String, String)>)> = Vec::new();
    for k in 0..sorted.len()
        invariant
            order == crate::text::texts(sorted@),
            groups.len() == k,
            forall|j: int| 0 <= j < k ==> (#[trigger] groups@[j]).0@ == order[j],
            forall|j: int|
                0 <= j < k ==> branch_pairs(#[trigger] groups@[j].1@) == branches_on(
                    branches@,
                    groups@[j].0@,
                ),
    {
        let remote = sorted[k].clone();
        let mut members: Vec<(String, String)> = Vec::new();
        for i in 0..branches.len()
            invariant
                remote@ == order[k as int],
                branch_pairs(members@) == branches_on(branches@.take(i as int), remote@),
        {
            let (r, short) = remote_of(&branches[i].name);
            proof {
                assert(branches@.take(i + 1).drop_last() == branches@.take(i as int));
                assert(branches@.take(i + 1).last() == branches@[i as int]);
            }
            if crate::text::same_string(&r, &remote) {
                let ghost before = branch_pairs(members@);
                members.push((branches[i].name.clone(), short));
                assert(branch_pairs(members@) =~= before.push((branches@[i as int].name@, short@)));
            }
        }
        assert(branches@.take(branches.len() as int) == branches@);
        groups.push((remote, members));
    }
    assert(groups@.map_values(|g: (String, Vec<(String, String)>)| g.0@) =~= order);
    groups
}

} // verus!
