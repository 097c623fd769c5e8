//! What is read out of a repository: its references, its signing setup, the files a change
//! touched and how many lines each gained and lost.
use crate::git::ObjectId;
use crate::text::{
    chars_of, from_utf8_lossy, lossy_utf8, parse_unsigned, parse_u32, parse_usize, same,
    split, split_at_char, split_once, split_once_at, string_of, strip_prefix, without_prefix, less_text, text_less, lemma_text_less_order,
};
use vstd::multiset::Multiset;
use vstd::prelude::*;

verus! {

/// Where HEAD is: the branch it names, if any, and the commit it resolves to, if any.
#[derive(Clone)]
pub struct Head {
    pub name: Option<String>,
    pub id: Option<ObjectId>,
}

/// A linked worktree, by its name, with the branch checked out in it.
#[derive(Clone)]
pub struct Worktree {
    pub name: String,
    pub branch: Option<String>,
}

/// A reference by its short name, and the commit it peels to.
#[derive(Clone)]
pub struct Reference {
    pub name: String,
    pub target: ObjectId,
}

/// The references of a repository, sorted into kinds.
#[derive(Clone)]
pub struct References {
    pub local_branches: Vec<Reference>,
    pub remote_branches: Vec<Reference>,
    pub tags: Vec<Reference>,
    pub stashes: Vec<Reference>,
    /// The commit each pull request points at, with its number. Only the ones git has been
    /// told to fetch are here: `refs/pull/*/head` on GitHub, `refs/merge-requests/*/head`
    /// on GitLab. No commit occurs twice.
    pub pulls: Vec<(ObjectId, u32)>,
}

/// The kind of a reference, as git sorts them by where they live.
#[derive(PartialEq, Eq, Structural, Clone, Copy, Debug)]
pub enum Category {
    LocalBranch,
    RemoteBranch,
    Tag,
    Other,
}

/// The pull request numbers by commit: a later entry for a commit replaces an earlier one.
pub open spec fn pull_map(pulls: Seq<(ObjectId, u32)>) -> Map<Seq<u8>, u32>
    decreases pulls.len(),
{
    if pulls.len() == 0 {
        Map::empty()
    } else {
        pull_map(pulls.drop_last()).insert(pulls.last().0@, pulls.last().1)
    }
}

pub open spec fn distinct_targets(pulls: Seq<(ObjectId, u32)>) -> bool {
    forall|i: int, j: int| 0 <= i < j < pulls.len() ==> pulls[i].0@ != pulls[j].0@
}

pub open spec fn reference_views(references: Seq<Reference>) -> Seq<(Seq<char>, Seq<u8>)> {
    references.map_values(|r: Reference| (r.name@, r.target@))
}

/// The number in `refs/pull/12/head` or `refs/merge-requests/12/head`: both forges keep
/// the same shape, and the number is read as std reads a `u32`.
pub open spec fn pull_number_of(full: Seq<char>) -> Option<nat> {
    let rest = match without_prefix(full, "refs/pull/"@) {
        Some(rest) => Some(rest),
        None => without_prefix(full, "refs/merge-requests/"@),
    };
    match rest {
        None => None,
        Some(rest) => match split_once(rest, '/') {
            None => None,
            Some((number, tail)) => if tail == "head"@ {
                parse_unsigned(number, u32::MAX as nat)
            } else {
                None
            },
        },
    }
}

/// The pull request number a full reference name carries, if it is one.
pub fn pull_number(full: &str) -> (number: Option<u32>)
    ensures
        match number {
            Some(n) => pull_number_of(full@) == Some(n as nat),
            None => pull_number_of(full@) is None,
        },
{
    let full = chars_of(full);
    let rest = match strip_prefix(&full, &chars_of("refs/pull/")) {
        Some(rest) => rest,
        None => match strip_prefix(&full, &chars_of("refs/merge-requests/")) {
            Some(rest) => rest,
            None => return None,
        },
    };
    match split_once_at(&rest, '/') {
        None => None,
        Some((number, tail)) => {
            if same(&tail, &chars_of("head")) {
                parse_u32(&number)
            } else {
                None
            }
        },
    }
}

impl References {
    pub fn new() -> (references: References)
        ensures
            references.local_branches@.len() == 0,
            references.remote_branches@.len() == 0,
            references.tags@.len() == 0,
            references.stashes@.len() == 0,
            references.pull_view() == Map::<Seq<u8>, u32>::empty(),
            references.well_formed(),
    {
        References {
            local_branches: Vec::new(),
            remote_branches: Vec::new(),
            tags: Vec::new(),
            stashes: Vec::new(),
            pulls: Vec::new(),
        }
    }

    /// No commit carries two pull request numbers.
    pub open spec fn well_formed(&self) -> bool {
        distinct_targets(self.pulls@)
    }

    /// The pull request number of each commit that has one.
    pub open spec fn pull_view(&self) -> Map<Seq<u8>, u32> {
        pull_map(self.pulls@)
    }

    /// Records that `target` is the head of pull request `number`, replacing any number it
    /// had.
    pub fn insert_pull(&mut self, target: ObjectId, number: u32)
        requires
            old(self).well_formed(),
        ensures
            final(self).well_formed(),
            final(self).pull_view() == old(self).pull_view().insert(target@, number),
            final(self).local_branches == old(self).local_branches,
            final(self).remote_branches == old(self).remote_branches,
            final(self).tags == old(self).tags,
            final(self).stashes == old(self).stashes,
    {
        let ghost before = self.pulls@;
        let mut i: usize = 0;
        while i < self.pulls.len()
            invariant
                self.pulls@ == before,
                before == old(self).pulls@,
                self.local_branches == old(self).local_branches,
                self.remote_branches == old(self).remote_branches,
                self.tags == old(self).tags,
                self.stashes == old(self).stashes,
                distinct_targets(before),
                i <= before.len(),
                forall|j: int| 0 <= j < i ==> before[j].0@ != target@,
            decreases before.len() - i,
        {
            if self.pulls[i].0.same(&target) {
                self.pulls.set(i, (target, number));
                proof {
                    lemma_pull_map_replace(before, i as int, self.pulls@[i as int]);
                }
                return;
            }
            i = i + 1;
        }
        self.pulls.push((target, number));
        assert(self.pulls@.drop_last() == before);
    }

    /// The pull request number of a commit, if it heads one.
    pub fn pull_of(&self, id: &ObjectId) -> (number: Option<u32>)
        requires
            self.well_formed(),
        ensures
            number == self.pull_view().get(id@),
    {
        let mut i = self.pulls.len();
        while i > 0
            invariant
                i <= self.pulls.len(),
                distinct_targets(self.pulls@),
                forall|j: int| i <= j < self.pulls.len() ==> self.pulls@[j].0@ != id@,
            decreases i,
        {
            if self.pulls[i - 1].0.same(id) {
                proof {
                    lemma_pull_map_at(self.pulls@, i - 1);
                }
                return Some(self.pulls[i - 1].1);
            }
            i = i - 1;
        }
        proof {
            lemma_pull_map_absent(self.pulls@, id@);
        }
        None
    }

    /// Files one reference: a branch or a tag under its kind, a pull request head under its
    /// number, anything else nowhere.
    pub fn file(&mut self, category: Category, full: &str, short: String, target: ObjectId)
        requires
            old(self).well_formed(),
        ensures
            final(self).well_formed(),
            reference_views(final(self).local_branches@) == if category == Category::LocalBranch {
                reference_views(old(self).local_branches@).push((short@, target@))
            } else {
                reference_views(old(self).local_branches@)
            },
            reference_views(final(self).remote_branches@) == if category
                == Category::RemoteBranch {
                reference_views(old(self).remote_branches@).push((short@, target@))
            } else {
                reference_views(old(self).remote_branches@)
            },
            reference_views(final(self).tags@) == if category == Category::Tag {
                reference_views(old(self).tags@).push((short@, target@))
            } else {
                reference_views(old(self).tags@)
            },
            final(self).stashes == old(self).stashes,
            final(self).pull_view() == if category == Category::Other {
                match pull_number_of(full@) {
                    Some(n) => old(self).pull_view().insert(target@, n as u32),
                    None => old(self).pull_view(),
                }
            } else {
                old(self).pull_view()
            },
    {
        let entry = Reference { name: short, target };
        match category {
            Category::LocalBranch => {
                self.local_branches.push(entry);
                assert(reference_views(self.local_branches@) =~= reference_views(
                    old(self).local_branches@,
                ).push((entry.name@, entry.target@)));
            },
            Category::RemoteBranch => {
                self.remote_branches.push(entry);
                assert(reference_views(self.remote_branches@) =~= reference_views(
                    old(self).remote_branches@,
                ).push((entry.name@, entry.target@)));
            },
            Category::Tag => {
                self.tags.push(entry);
                assert(reference_views(self.tags@) =~= reference_views(old(self).tags@).push(
                    (entry.name@, entry.target@),
                ));
            },
            Category::Other => {
                if let Some(number) = pull_number(full) {
                    self.insert_pull(entry.target, number);
                }
            },
        }
    }
}

proof fn lemma_pull_map_replace(pulls: Seq<(ObjectId, u32)>, i: int, entry: (ObjectId, u32))
    requires
        distinct_targets(pulls),
        0 <= i < pulls.len(),
        pulls[i].0@ == entry.0@,
    ensures
        distinct_targets(pulls.update(i, entry)),
        pull_map(pulls.update(i, entry)) == pull_map(pulls).insert(entry.0@, entry.1),
    decreases pulls.len(),
{
    let updated = pulls.update(i, entry);
    if i == pulls.len() - 1 {
        assert(updated.drop_last() == pulls.drop_last());
        assert(pull_map(updated) =~= pull_map(pulls).insert(entry.0@, entry.1));
    } else {
        lemma_pull_map_replace(pulls.drop_last(), i, entry);
        assert(updated.drop_last() == pulls.drop_last().update(i, entry));
        assert(pull_map(updated) =~= pull_map(pulls).insert(entry.0@, entry.1));
    }
}

proof fn lemma_pull_map_at(pulls: Seq<(ObjectId, u32)>, i: int)
    requires
        0 <= i < pulls.len(),
        forall|j: int| i < j < pulls.len() ==> pulls[j].0@ != pulls[i].0@,
    ensures
        pull_map(pulls).get(pulls[i].0@) == Some(pulls[i].1),
    decreases pulls.len(),
{
    if i < pulls.len() - 1 {
        lemma_pull_map_at(pulls.drop_last(), i);
    }
}

proof fn lemma_pull_map_absent(pulls: Seq<(ObjectId, u32)>, id: Seq<u8>)
    requires
        forall|j: int| 0 <= j < pulls.len() ==> pulls[j].0@ != id,
    ensures
        pull_map(pulls).get(id) is None,
    decreases pulls.len(),
{
    if pulls.len() > 0 {
        lemma_pull_map_absent(pulls.drop_last(), id);
    }
}

/// The name reflog entry `index` of `refs/stash` goes by: `stash@{index}`.
pub open spec fn stash_name_text(index: nat) -> Seq<char> {
    "stash@{"@ + crate::text::decimal(index) + "}"@
}

pub fn stash_name(index: u64) -> (name: String)
    ensures
        name@ == stash_name_text(index as nat),
{
    let mut text = chars_of("stash@{");
    text.append(&mut crate::text::decimal_of(index));
    text.append(&mut chars_of("}"));
    string_of(&text)
}

/// The signature format git is set to sign commits with (`gpg.format`).
pub enum SigningFormat {
    OpenPgp,
    Ssh,
    X509,
    Unrecognised(String),
}

/// How commits are signed, if they are.
pub struct Signing {
    pub signs_commits: bool,
    pub format: SigningFormat,
    pub key: Option<String>,
    /// Where the ssh agent listens (`SSH_AUTH_SOCK`). A window started from a desktop entry
    /// does not always inherit it, and an ssh signature cannot be made without it.
    pub ssh_agent: Option<String>,
}

/// A signing format by value.
pub enum FormatView {
    OpenPgp,
    Ssh,
    X509,
    Unrecognised(Seq<char>),
}

impl View for SigningFormat {
    type V = FormatView;

    open spec fn view(&self) -> FormatView {
        match self {
            SigningFormat::OpenPgp => FormatView::OpenPgp,
            SigningFormat::Ssh => FormatView::Ssh,
            SigningFormat::X509 => FormatView::X509,
            SigningFormat::Unrecognised(v) => FormatView::Unrecognised(v@),
        }
    }
}

/// The format `gpg.format` names (`openpgp`, `ssh` or `x509`): OpenPGP when it is unset.
pub open spec fn format_of(value: Option<Seq<u8>>) -> FormatView {
    match value {
        None => FormatView::OpenPgp,
        Some(v) => if v == seq![111u8, 112, 101, 110, 112, 103, 112] {
            FormatView::OpenPgp
        } else if v == seq![115u8, 115, 104] {
            FormatView::Ssh
        } else if v == seq![120u8, 53, 48, 57] {
            FormatView::X509
        } else {
            FormatView::Unrecognised(lossy_utf8(v))
        },
    }
}

impl SigningFormat {
    /// Reads `gpg.format` (`openpgp`, `ssh` or `x509`); unset means OpenPGP.
    pub fn from_config(value: Option<&[u8]>) -> (format: SigningFormat)
        ensures
            format@ == format_of(
                match value {
                    Some(v) => Some(v@),
                    None => None,
                },
            ),
    {
        match value {
            None => SigningFormat::OpenPgp,
            Some(v) => {
                if bytes_are(v, &[111u8, 112, 101, 110, 112, 103, 112]) {
                    SigningFormat::OpenPgp
                } else if bytes_are(v, &[115u8, 115, 104]) {
                    SigningFormat::Ssh
                } else if bytes_are(v, &[120u8, 53, 48, 57]) {
                    SigningFormat::X509
                } else {
                    SigningFormat::Unrecognised(from_utf8_lossy(v))
                }
            },
        }
    }

    /// How the format reads in the settings: its name, or the value with a note that gg
    /// does not know it.
    pub fn label(&self) -> (text: String)
        ensures
            text@ == match self@ {
                FormatView::OpenPgp => "openpgp"@,
                FormatView::Ssh => "ssh"@,
                FormatView::X509 => "x509"@,
                FormatView::Unrecognised(v) => v + " (not recognised)"@,
            },
    {
        match self {
            SigningFormat::OpenPgp => "openpgp".to_owned(),
            SigningFormat::Ssh => "ssh".to_owned(),
            SigningFormat::X509 => "x509".to_owned(),
            SigningFormat::Unrecognised(value) => {
                let mut text = chars_of(value.as_str());
                text.append(&mut chars_of(" (not recognised)"));
                string_of(&text)
            },
        }
    }
}

fn bytes_are(a: &[u8], b: &[u8]) -> (r: bool)
    ensures
        r == (a@ == b@),
{
    if a.len() != b.len() {
        return false;
    }
    for i in 0..a.len()
        invariant
            a.len() == b.len(),
            forall|j: int| 0 <= j < i ==> a@[j] == b@[j],
    {
        if a[i] != b[i] {
            return false;
        }
    }
    assert(a@ =~= b@);
    true
}

/// Who made a commit, and when. git records two per commit, and they differ more often than
/// people expect: a rebase, a patch applied from a mailing list, a commit made on someone
/// else's behalf.
#[derive(Clone)]
pub struct Signature {
    pub name: String,
    pub email: String,
    /// Seconds since the epoch, and the seconds east of UTC the clock was set to.
    pub seconds: i64,
    pub offset: i32,
}

/// One commit as the details pane shows it.
#[derive(Clone)]
pub struct CommitSummary {
    pub id: ObjectId,
    pub parent: Option<ObjectId>,
    pub title: String,
    pub body: String,
    pub author: Signature,
    pub committer: Signature,
    /// The author date as `YYYY-MM-DD`.
    pub when: String,
}

/// The changes in the index and in the work tree.
#[derive(Clone)]
pub struct Status {
    pub staged: Vec<FileChange>,
    pub unstaged: Vec<FileChange>,
}

#[derive(PartialEq, Eq, Structural, Clone, Copy, Debug)]
pub enum ChangeKind {
    Added,
    Deleted,
    Modified,
    Renamed,
}

/// What git compares a root commit to, since it has no parent to diff against.
pub const EMPTY_TREE: &'static str = "4b825dc642cb6eb9a060e54bf8d69288fbee4904";

/// One file a change touched, with the lines it gained and lost.
#[derive(Clone)]
pub struct FileChange {
    pub path: String,
    pub kind: ChangeKind,
    pub additions: usize,
    pub deletions: usize,
}

/// The files among what a walk of two trees reports, in order: each entry is a path,
/// whether it is a directory the walk descends through, and how it changed.
pub open spec fn walked_files(walked: Seq<(String, bool, ChangeKind)>) -> Seq<(Seq<char>, ChangeKind)>
    decreases walked.len(),
{
    if walked.len() == 0 {
        Seq::empty()
    } else if walked.last().1 {
        walked_files(walked.drop_last())
    } else {
        walked_files(walked.drop_last()).push((walked.last().0@, walked.last().2))
    }
}

/// A change's path and kind.
pub open spec fn path_and_kind(changes: Seq<FileChange>) -> Seq<(Seq<char>, ChangeKind)> {
    changes.map_values(|c: FileChange| (c.path@, c.kind))
}

/// The file changes of a tree walk: the directories it reports on the way left out, each
/// file with no line counted yet.
pub fn file_changes(walked: Vec<(String, bool, ChangeKind)>) -> (changes: Vec<FileChange>)
    ensures
        path_and_kind(changes@) == walked_files(walked@),
        forall|i: int|
            0 <= i < changes@.len() ==> (#[trigger] changes@[i]).additions == 0
                && changes@[i].deletions == 0,
{
    let mut changes: Vec<FileChange> = Vec::new();
    for i in 0..walked.len()
        invariant
            path_and_kind(changes@) == walked_files(walked@.take(i as int)),
            forall|k: int|
                0 <= k < changes@.len() ==> (#[trigger] changes@[k]).additions == 0
                    && changes@[k].deletions == 0,
    {
        assert(walked@.take(i + 1).drop_last() == walked@.take(i as int));
        assert(walked@.take(i + 1).last() == walked@[i as int]);
        if !walked[i].1 {
            let ghost before = path_and_kind(changes@);
            let path = walked[i].0.clone();
            changes.push(FileChange { path, kind: walked[i].2, additions: 0, deletions: 0 });
            assert(path_and_kind(changes@) =~= before.push((walked@[i as int].0@, walked@[i as int].2)));
        }
    }
    assert(walked@.take(walked.len() as int) == walked@);
    changes
}

/// A count as `numstat` prints it, read as std reads a `usize`; anything else (the `-` of
/// a binary file) counts nothing.
pub open spec fn count_or_zero(text: Seq<char>) -> nat {
    match parse_unsigned(text, usize::MAX as nat) {
        Some(n) => n,
        None => 0,
    }
}

/// The counts `numstat -z` gives, from record `i` on: a record is `added TAB deleted TAB
/// path`, and a rename leaves the path empty and puts the source and then the destination
/// in the two records that follow. Only the destination is a path the change reports. A
/// record without two tabs is passed over; a rename cut short ends the reading.
pub open spec fn numstat_entries(records: Seq<Seq<char>>, i: int) -> Seq<(Seq<char>, (nat, nat))>
    decreases records.len() - i,
{
    if i < 0 || i >= records.len() {
        Seq::empty()
    } else {
        match split_once(records[i], '\t') {
            None => numstat_entries(records, i + 1),
            Some((added, rest)) => match split_once(rest, '\t') {
                None => numstat_entries(records, i + 1),
                Some((deleted, path)) => {
                    let counts = (count_or_zero(added), count_or_zero(deleted));
                    if path.len() > 0 {
                        seq![(path, counts)] + numstat_entries(records, i + 1)
                    } else if i + 2 < records.len() {
                        seq![(records[i + 2], counts)] + numstat_entries(records, i + 3)
                    } else {
                        Seq::empty()
                    }
                },
            },
        }
    }
}

/// The counts the last entry for `path` gives, if any names it: a later entry replaces an
/// earlier one.
pub open spec fn counts_for(entries: Seq<(Seq<char>, (nat, nat))>, path: Seq<char>) -> Option<
    (nat, nat),
>
    decreases entries.len(),
{
    if entries.len() == 0 {
        None
    } else if entries.last().0 == path {
        Some(entries.last().1)
    } else {
        counts_for(entries.drop_last(), path)
    }
}

/// The counts `numstat -z` output gives each path.
pub open spec fn numstat_counts(numstat: Seq<char>) -> Seq<(Seq<char>, (nat, nat))> {
    numstat_entries(split(numstat, '\0'), 0)
}

fn count_of_text(text: &[char]) -> (n: usize)
    ensures
        n as nat == count_or_zero(text@),
{
    match parse_usize(text) {
        Some(n) => n,
        None => 0,
    }
}

fn numstat_entries_of(numstat: &str) -> (entries: Vec<(Vec<char>, usize, usize)>)
    ensures
        entries@.map_values(|e: (Vec<char>, usize, usize)| (e.0@, (e.1 as nat, e.2 as nat)))
            == numstat_counts(numstat@),
{
    let records = split_at_char(&chars_of(numstat), '\0');
    let ghost views = records@.map_values(|r: Vec<char>| r@);
    assert(views == split(numstat@, '\0'));
    let mut entries: Vec<(Vec<char>, usize, usize)> = Vec::new();
    let mut i: usize = 0;
    while i < records.len()
        invariant
            views == records@.map_values(|r: Vec<char>| r@),
            views == split(numstat@, '\0'),
            i <= records.len() + 1,
            entries@.map_values(|e: (Vec<char>, usize, usize)| (e.0@, (e.1 as nat, e.2 as nat)))
                + numstat_entries(views, i as int) == numstat_entries(views, 0),
        decreases records.len() - i,
    {
        let ghost before = entries@.map_values(
            |e: (Vec<char>, usize, usize)| (e.0@, (e.1 as nat, e.2 as nat)),
        );
        assert(views[i as int] == records@[i as int]@);
        match split_once_at(&records[i], '\t') {
            None => {
                i = i + 1;
            },
            Some((added, rest)) => match split_once_at(&rest, '\t') {
                None => {
                    i = i + 1;
                },
                Some((deleted, path)) => {
                    let a = count_of_text(&added);
                    let d = count_of_text(&deleted);
                    if path.len() > 0 {
                        entries.push((path, a, d));
                        i = i + 1;
                    } else if records.len() - i > 2 {
                        let destination = slice_of(&records[i + 2]);
                        assert(views[i + 2] == records@[i + 2]@);
                        entries.push((destination, a, d));
                        i = i + 3;
                    } else {
                        assert(entries@.map_values(
                            |e: (Vec<char>, usize, usize)| (e.0@, (e.1 as nat, e.2 as nat)),
                        ) == before);
                        assert(numstat_entries(views, i as int) =~= Seq::empty());
                        assert(numstat_entries(views, records.len() as int) =~= Seq::empty());
                        assert(before + Seq::<(Seq<char>, (nat, nat))>::empty() =~= before);
                        i = records.len();
                    }
                },
            },
        }
        let ghost after = entries@.map_values(
            |e: (Vec<char>, usize, usize)| (e.0@, (e.1 as nat, e.2 as nat)),
        );
        assert(after + numstat_entries(views, i as int) =~= numstat_entries(views, 0));
    }
    let ghost done = entries@.map_values(
        |e: (Vec<char>, usize, usize)| (e.0@, (e.1 as nat, e.2 as nat)),
    );
    assert(numstat_entries(views, i as int) =~= Seq::empty());
    assert(done + Seq::<(Seq<char>, (nat, nat))>::empty() =~= done);
    entries
}

fn slice_of(s: &Vec<char>) -> (copy: Vec<char>)
    ensures
        copy@ == s@,
{
    let mut copy: Vec<char> = Vec::new();
    for i in 0..s.len()
        invariant
            copy@ == s@.take(i as int),
    {
        copy.push(s[i]);
        assert(s@.take(i + 1) == s@.take(i as int).push(s@[i as int]));
    }
    assert(s@.take(s.len() as int) == s@);
    copy
}

/// Sets the added and deleted line counts of each change from `numstat -z` output. A change
/// whose path the output does not name keeps its counts; a binary file, reported as
/// `-\t-\t<path>`, gets zero for both, since `-` is no count.
pub fn apply_counts(changes: &mut Vec<FileChange>, numstat: &str)
    ensures
        final(changes)@.len() == old(changes)@.len(),
        forall|k: int|
            0 <= k < old(changes)@.len() ==> {
                let before = #[trigger] old(changes)@[k];
                let after = final(changes)@[k];
                &&& after.path == before.path
                &&& after.kind == before.kind
                &&& match counts_for(numstat_counts(numstat@), before.path@) {
                    Some((added, deleted)) => after.additions as nat == added
                        && after.deletions as nat == deleted,
                    None => after.additions == before.additions && after.deletions
                        == before.deletions,
                }
            },
{
    let entries = numstat_entries_of(numstat);
    let ghost views = entries@.map_values(
        |e: (Vec<char>, usize, usize)| (e.0@, (e.1 as nat, e.2 as nat)),
    );
    let ghost start = changes@;
    let n = changes.len();
    for k in 0..n
        invariant
            n == start.len(),
            changes@.len() == start.len(),
            views == entries@.map_values(
                |e: (Vec<char>, usize, usize)| (e.0@, (e.1 as nat, e.2 as nat)),
            ),
            views == numstat_counts(numstat@),
            forall|m: int| k <= m < start.len() ==> changes@[m] == start[m],
            forall|m: int|
                0 <= m < k ==> {
                    let before = #[trigger] start[m];
                    let after = changes@[m];
                    &&& after.path == before.path
                    &&& after.kind == before.kind
                    &&& match counts_for(views, before.path@) {
                        Some((added, deleted)) => after.additions as nat == added
                            && after.deletions as nat == deleted,
                        None => after.additions == before.additions && after.deletions
                            == before.deletions,
                    }
                },
    {
        let path = chars_of(changes[k].path.as_str());
        let mut j = entries.len();
        let mut found: Option<(usize, usize)> = None;
        assert(views.take(j as int) =~= views);
        while found.is_none() && j > 0
            invariant
                j <= entries.len(),
                views == entries@.map_values(
                    |e: (Vec<char>, usize, usize)| (e.0@, (e.1 as nat, e.2 as nat)),
                ),
                found is None ==> counts_for(views, path@) == counts_for(views.take(j as int), path@),
                found matches Some((a, d)) ==> counts_for(views, path@) == Some((a as nat, d as nat)),
            decreases j,
        {
            assert(views.take(j as int).drop_last() == views.take(j - 1));
            assert(views.take(j as int).last() == views[j - 1]);
            assert(views[j - 1] == (entries@[j - 1].0@, (entries@[j - 1].1 as nat, entries@[j
                - 1].2 as nat)));
            if same(&entries[j - 1].0, &path) {
                found = Some((entries[j - 1].1, entries[j - 1].2));
            }
            j = j - 1;
        }
        match found {
            Some((a, d)) => {
                let mut change = FileChange {
                    path: changes[k].path.clone(),
                    kind: changes[k].kind,
                    additions: a,
                    deletions: d,
                };
                changes.set(k, change);
            },
            None => {},
        }
    }
}

/// Whether the paths of `changes` come in std's order of strings.
pub open spec fn sorted_by_path(changes: Seq<FileChange>) -> bool {
    forall|i: int, j: int|
        0 <= i < j < changes.len() ==> !text_less(changes[j].path@, changes[i].path@)
}

/// Whether a change is to `path`.
pub open spec fn to_path(path: Seq<char>) -> spec_fn(FileChange) -> bool {
    |c: FileChange| c.path@ == path
}

/// The changes to one path, in the order they come.
pub open spec fn changes_to(changes: Seq<FileChange>, path: Seq<char>) -> Seq<FileChange> {
    changes.filter(to_path(path))
}

/// Putting a change in a path-sorted run before the first change whose path sorts after its
/// own puts it last among the changes to its path, and moves no other.
proof fn lemma_insert_keeps_runs(before: Seq<FileChange>, p: int, change: FileChange, q: Seq<char>)
    requires
        0 <= p <= before.len(),
        sorted_by_path(before),
        p < before.len() ==> text_less(change.path@, before[p].path@),
    ensures
        changes_to(before.insert(p, change), q) == if change.path@ == q {
            changes_to(before, q).push(change)
        } else {
            changes_to(before, q)
        },
{
    let to_q = to_path(q);
    let head = before.take(p);
    let tail = before.skip(p);
    assert(before.insert(p, change) =~= head.push(change) + tail);
    assert(before =~= head + tail);
    Seq::filter_distributes_over_add(head.push(change), tail, to_q);
    Seq::filter_distributes_over_add(head, tail, to_q);
    head.lemma_filter_push(change, to_q);
    if change.path@ == q {
        assert forall|j: int| 0 <= j < tail.len() implies !to_q(#[trigger] tail[j]) by {
            let first = before[p].path@;
            let later = before[p + j].path@;
            lemma_text_less_order(change.path@, first, later);
            lemma_text_less_order(first, later, later);
            lemma_text_less_order(later, later, later);
        }
        tail.lemma_all_neg_filter_empty(to_q);
        assert(tail.filter(to_q) =~= Seq::<FileChange>::empty());
        assert(changes_to(before, q) =~= head.filter(to_q));
        assert(changes_to(before.insert(p, change), q) =~= head.filter(to_q).push(change));
    } else {
        assert(changes_to(before.insert(p, change), q) =~= head.filter(to_q) + tail.filter(to_q));
    }
}

/// Puts the changes in the order of their paths; changes to the same path keep the order
/// they came in.
pub fn sort_by_path(changes: Vec<FileChange>) -> (sorted: Vec<FileChange>)
    ensures
        sorted_by_path(sorted@),
        sorted@.to_multiset() == changes@.to_multiset(),
        forall|path: Seq<char>| #[trigger] changes_to(sorted@, path) == changes_to(changes@, path),
{
    broadcast use vstd::multiset::group_multiset_axioms, vstd::seq_lib::group_to_multiset_ensures;

    let ghost all = changes@;
    let mut rest = changes;
    let mut sorted: Vec<FileChange> = Vec::new();
    assert(sorted@.to_multiset() =~= Multiset::empty());
    while rest.len() > 0
        invariant
            sorted@.to_multiset().add(rest@.to_multiset()) == all.to_multiset(),
            sorted_by_path(sorted@),
            forall|q: Seq<char>|
                #[trigger] changes_to(all, q) == changes_to(sorted@, q) + changes_to(rest@, q),
        decreases rest.len(),
    {
        let ghost before_rest = rest@;
        let change = rest.remove(0);
        proof {
            vstd::seq_lib::to_multiset_remove(before_rest, 0);
            assert(before_rest.contains(change));
            vstd::seq_lib::to_multiset_contains(before_rest, change);
        }
        proof {
            assert forall|q: Seq<char>| #[trigger] changes_to(before_rest, q) == if change.path@
                == q {
                seq![change] + changes_to(rest@, q)
            } else {
                changes_to(rest@, q)
            } by {
                let to_q = to_path(q);
                assert(before_rest =~= seq![change] + rest@);
                Seq::filter_distributes_over_add(seq![change], rest@, to_q);
                Seq::<FileChange>::empty().lemma_filter_push(change, to_q);
                assert(seq![change] =~= Seq::<FileChange>::empty().push(change));
                reveal(Seq::filter);
                assert(Seq::<FileChange>::empty().filter(to_q) =~= Seq::<FileChange>::empty());
            }
        }
        let path = chars_of(change.path.as_str());
        let mut p: usize = 0;
        while p < sorted.len() && !less_text(&path, &chars_of(sorted[p].path.as_str()))
            invariant
                p <= sorted.len(),
                path@ == change.path@,
                forall|i: int| 0 <= i < p ==> !text_less(change.path@, #[trigger] sorted@[i].path@),
            decreases sorted.len() - p,
        {
            p = p + 1;
        }
        let ghost before = sorted@;
        sorted.insert(p, change);
        proof {
            assert forall|q: Seq<char>| #[trigger] changes_to(all, q) == changes_to(sorted@, q)
                + changes_to(rest@, q) by {
                lemma_insert_keeps_runs(before, p as int, change, q);
                if change.path@ == q {
                    assert(changes_to(before, q).push(change) + changes_to(rest@, q)
                        =~= changes_to(before, q) + (seq![change] + changes_to(rest@, q)));
                }
            }
            vstd::seq_lib::to_multiset_insert(before, p as int, change);
            assert(sorted@.to_multiset().add(rest@.to_multiset()) =~= all.to_multiset());
            assert forall|i: int, j: int| 0 <= i < j < sorted@.len() implies !text_less(
                sorted@[j].path@,
                sorted@[i].path@,
            ) by {
                if i < p && j == p {
                    lemma_text_less_order(change.path@, before[i].path@, before[i].path@);
                } else if i == p && j > p {
                    let later = before[j - 1].path@;
                    let first = before[p as int].path@;
                    lemma_text_less_order(change.path@, first, later);
                    lemma_text_less_order(first, later, later);
                    lemma_text_less_order(later, change.path@, change.path@);
                    if p < j - 1 {
                        assert(!text_less(later, first));
                    }
                } else if i < p && j > p {
                    assert(sorted@[i] == before[i] && sorted@[j] == before[j - 1]);
                } else if j < p {
                    assert(sorted@[i] == before[i] && sorted@[j] == before[j]);
                } else {
                    assert(sorted@[i] == before[i - 1] && sorted@[j] == before[j - 1]);
                }
            }
        }
    }
    assert(rest@.to_multiset() =~= Multiset::empty());
    assert forall|path: Seq<char>| #[trigger] changes_to(sorted@, path) == changes_to(
        all,
        path,
    ) by {
        reveal(Seq::filter);
        assert(changes_to(rest@, path) =~= Seq::<FileChange>::empty());
        assert(changes_to(sorted@, path) + changes_to(rest@, path) =~= changes_to(sorted@, path));
    }
    sorted
}

} // verus!
