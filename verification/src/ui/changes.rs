//! The changed files of a selection as a tree of directories, and the rows the tree pane
//! draws from it.
use crate::git::read::{ChangeKind, FileChange};
use super::{count_kind, count_of_kind};
use crate::text::{
    append, chars_of, decimal, decimal_of, less_text, same, split_once, split_once_at, string_of,
    text_less, texts, holds, lemma_text_less_order,
};
use vstd::prelude::*;

verus! {

/// A directory that would otherwise bury everything else under it shows no more children
/// than this until it is expanded.
pub const CHILDREN_SHOWN: usize = 10;

/// A node of the tree: a directory with what is under it, or a changed file.
pub enum Node {
    Directory { name: String, path: String, children: Vec<Node> },
    File { name: String, path: String, kind: ChangeKind, additions: usize, deletions: usize },
}

/// The tree of a selection's changed files.
pub struct Tree {
    pub nodes: Vec<Node>,
}

/// A path below a directory: the directory's path, a `/` and the name; at the top the name
/// alone.
pub open spec fn below(prefix: Seq<char>, name: Seq<char>) -> Seq<char> {
    if prefix.len() == 0 {
        name
    } else {
        prefix + "/"@ + name
    }
}

/// The directory a path starts with, if it names one.
pub open spec fn head_of(path: Seq<char>) -> Option<Seq<char>> {
    match split_once(path, '/') {
        Some((head, _)) => Some(head),
        None => None,
    }
}

/// Whether some entry's path starts with directory `head`.
pub open spec fn is_head(entries: Seq<(Seq<char>, int)>, head: Seq<char>) -> bool {
    exists|i: int| 0 <= i < entries.len() && #[trigger] head_of(entries[i].0) == Some(head)
}

/// The entries under directory `head`, with what follows it in their paths, in order.
pub open spec fn group(entries: Seq<(Seq<char>, int)>, head: Seq<char>) -> Seq<(Seq<char>, int)>
    decreases entries.len(),
{
    if entries.len() == 0 {
        Seq::empty()
    } else {
        let earlier = group(entries.drop_last(), head);
        match split_once(entries.last().0, '/') {
            Some((h, rest)) => if h == head {
                earlier.push((rest, entries.last().1))
            } else {
                earlier
            },
            None => earlier,
        }
    }
}

/// The entries whose path names no directory: files at this level, in order.
pub open spec fn files_here(entries: Seq<(Seq<char>, int)>) -> Seq<(Seq<char>, int)>
    decreases entries.len(),
{
    if entries.len() == 0 {
        Seq::empty()
    } else {
        let earlier = files_here(entries.drop_last());
        if split_once(entries.last().0, '/') is None {
            earlier.push(entries.last())
        } else {
            earlier
        }
    }
}

/// Whether `nodes` is the level a tree builds from `entries` below `prefix`, where each
/// entry is what is left of a changed file's path and the change's place among `changes`:
/// first the directories the paths go through, in the order of their names, each holding
/// the level built from the entries under it; then the files at this level, in the order
/// they came.
pub open spec fn built(
    entries: Seq<(Seq<char>, int)>,
    prefix: Seq<char>,
    nodes: Seq<Node>,
    changes: Seq<FileChange>,
) -> bool
    decreases nodes,
{
    let files = files_here(entries);
    let directories = nodes.len() - files.len();
    &&& 0 <= directories
    &&& forall|i: int, j: int|
        0 <= i < j < directories ==> text_less(node_name(nodes[i]), node_name(nodes[j]))
    &&& forall|h: Seq<char>|
        is_head(entries, h) <==> exists|i: int| 0 <= i < directories && node_name(nodes[i]) == h
    &&& forall|i: int|
        0 <= i < directories ==> (#[trigger] nodes[i] matches Node::Directory { name, path, children }
            && path@ == below(prefix, name@) && built(
            group(entries, name@),
            path@,
            children@,
            changes,
        ))
    &&& forall|j: int|
        0 <= j < files.len() ==> (#[trigger] nodes[directories + j] matches Node::File {
            name,
            path,
            kind,
            additions,
            deletions,
        } && 0 <= files[j].1 < changes.len() && name@ == files[j].0 && path@ == changes[files[j].1].path@
            && kind == changes[files[j].1].kind && additions == changes[files[j].1].additions
            && deletions == changes[files[j].1].deletions)
}

pub open spec fn node_name(node: Node) -> Seq<char> {
    match node {
        Node::Directory { name, .. } => name@,
        Node::File { name, .. } => name@,
    }
}

pub open spec fn entry_views(entries: Seq<(Vec<char>, usize)>) -> Seq<(Seq<char>, int)> {
    entries.map_values(|e: (Vec<char>, usize)| (e.0@, e.1 as int))
}

/// Whether one of some names is `name`.
pub open spec fn listed(names: Seq<Vec<char>>, name: Seq<char>) -> bool {
    exists|k: int| 0 <= k < names.len() && names[k]@ == name
}

/// How much path the entries still hold.
pub open spec fn total_size(entries: Seq<(Seq<char>, int)>) -> nat
    decreases entries.len(),
{
    if entries.len() == 0 {
        0
    } else {
        total_size(entries.drop_last()) + entries.last().0.len()
    }
}

proof fn lemma_split_shorter(path: Seq<char>)
    ensures
        split_once(path, '/') matches Some((head, rest)) ==> rest.len() < path.len() && head.len()
            < path.len(),
{
    crate::text::lemma_first_index(path, '/');
}

proof fn lemma_group_size(entries: Seq<(Seq<char>, int)>, head: Seq<char>)
    ensures
        total_size(group(entries, head)) + group(entries, head).len() <= total_size(entries),
        is_head(entries, head) ==> group(entries, head).len() > 0,
    decreases entries.len(),
{
    if entries.len() > 0 {
        let rest = entries.drop_last();
        lemma_group_size(rest, head);
        lemma_split_shorter(entries.last().0);
        let earlier = group(rest, head);
        match split_once(entries.last().0, '/') {
            Some((h, r)) => {
                if h == head {
                    let grown = earlier.push((r, entries.last().1));
                    assert(grown.drop_last() == earlier);
                }
            },
            None => {},
        }
        if is_head(entries, head) && !is_head(rest, head) {
            let i = choose|i: int| 0 <= i < entries.len() && #[trigger] head_of(entries[i].0) == Some(head);
            if i < rest.len() {
                assert(head_of(rest[i].0) == Some(head));
            }
        }
        if is_head(rest, head) {
            let i = choose|i: int| 0 <= i < rest.len() && #[trigger] head_of(rest[i].0) == Some(head);
            assert(head_of(entries[i].0) == Some(head));
        }
    }
}

fn split_head(path: &Vec<char>) -> (parts: Option<(Vec<char>, Vec<char>)>)
    ensures
        match parts {
            Some((h, r)) => split_once(path@, '/') == Some((h@, r@)),
            None => split_once(path@, '/') is None,
        },
{
    split_once_at(path, '/')
}

fn copy_of(s: &Vec<char>) -> (copy: Vec<char>)
    ensures
        copy@ == s@,
{
    crate::text::slice(s, 0, s.len())
}

/// The level a tree builds from `entries` below `prefix`.
fn build_level(entries: &Vec<(Vec<char>, usize)>, prefix: &Vec<char>, changes: &Vec<FileChange>) -> (nodes: Vec<Node>)
    requires
        forall|i: int| 0 <= i < entries.len() ==> (#[trigger] entries@[i]).1 < changes.len(),
    ensures
        built(entry_views(entries@), prefix@, nodes@, changes@),
    decreases total_size(entry_views(entries@)),
{
    let ghost all = entry_views(entries@);
    // The directories the paths go through, in the order of their names.
    let mut heads: Vec<Vec<char>> = Vec::new();
    for i in 0..entries.len()
        invariant
            all == entry_views(entries@),
            forall|a: int, b: int| 0 <= a < b < heads.len() ==> text_less(heads@[a]@, heads@[b]@),
            forall|h: Seq<char>| is_head(all.take(i as int), h) <==> #[trigger] listed(heads@, h),
    {
        assert(all[i as int] == (entries@[i as int].0@, entries@[i as int].1 as int));
        proof {
            assert forall|h: Seq<char>| is_head(all.take(i + 1), h) <==> (is_head(all.take(i as int), h)
                || head_of(all[i as int].0) == Some(h)) by {
                if is_head(all.take(i + 1), h) {
                    let k = choose|k: int| 0 <= k < i + 1 && #[trigger] head_of(all.take(i + 1)[k].0) == Some(h);
                    if k < i {
                        assert(head_of(all.take(i as int)[k].0) == Some(h));
                    }
                }
                if is_head(all.take(i as int), h) {
                    let k = choose|k: int| 0 <= k < i && #[trigger] head_of(all.take(i as int)[k].0) == Some(h);
                    assert(head_of(all.take(i + 1)[k].0) == Some(h));
                }
                if head_of(all[i as int].0) == Some(h) {
                    assert(head_of(all.take(i + 1)[i as int].0) == Some(h));
                }
            }
        }
        match split_head(&entries[i].0) {
            None => {},
            Some((head, _)) => {
                let mut p: usize = 0;
                while p < heads.len() && less_text(&heads[p], &head)
                    invariant
                        p <= heads.len(),
                        forall|k: int| 0 <= k < p ==> text_less(#[trigger] heads@[k]@, head@),
                    decreases heads.len() - p,
                {
                    p = p + 1;
                }
                if p < heads.len() && same(&heads[p], &head) {
                } else {
                    let ghost before = heads@;
                    heads.insert(p, head);
                    proof {
                        if p < before.len() {
                            lemma_text_less_order(before[p as int]@, head@, head@);
                        }
                        assert forall|a: int, b: int| 0 <= a < b < heads.len() implies text_less(
                            heads@[a]@,
                            heads@[b]@,
                        ) by {
                            if b < p {
                                assert(heads@[a] == before[a] && heads@[b] == before[b]);
                            } else if b == p {
                                assert(heads@[a] == before[a]);
                            } else if a < p {
                                assert(heads@[a] == before[a] && heads@[b] == before[b - 1]);
                                lemma_text_less_order(before[a]@, head@, before[p as int]@);
                                if b - 1 > p {
                                    lemma_text_less_order(before[a]@, before[p as int]@, before[b - 1]@);
                                    lemma_text_less_order(head@, before[p as int]@, before[b - 1]@);
                                }
                            } else if a == p {
                                assert(heads@[b] == before[b - 1]);
                                if b - 1 > p {
                                    lemma_text_less_order(head@, before[p as int]@, before[b - 1]@);
                                }
                            } else {
                                assert(heads@[a] == before[a - 1] && heads@[b] == before[b - 1]);
                            }
                        }
                        assert forall|h: Seq<char>|
                            #[trigger] listed(heads@, h) <==> (listed(before, h) || h == head@) by {
                            if listed(heads@, h) {
                                let k = choose|k: int| 0 <= k < heads.len() && heads@[k]@ == h;
                                if k < p {
                                    assert(before[k]@ == h);
                                } else if k > p {
                                    assert(before[k - 1]@ == h);
                                }
                            }
                            if listed(before, h) {
                                let k = choose|k: int| 0 <= k < before.len() && before[k]@ == h;
                                if k < p {
                                    assert(heads@[k]@ == h);
                                } else {
                                    assert(heads@[k + 1]@ == h);
                                }
                            }
                            if h == head@ {
                                assert(heads@[p as int]@ == h);
                            }
                        }
                    }
                }
            },
        }
    }
    assert(all.take(entries.len() as int) == all);
    let mut nodes: Vec<Node> = Vec::new();
    for k in 0..heads.len()
        invariant
            all == entry_views(entries@),
            forall|a: int, b: int| 0 <= a < b < heads.len() ==> text_less(heads@[a]@, heads@[b]@),
            forall|h: Seq<char>| is_head(all, h) <==> #[trigger] listed(heads@, h),
            forall|i: int| 0 <= i < entries.len() ==> (#[trigger] entries@[i]).1 < changes.len(),
            nodes.len() == k,
            forall|i: int|
                0 <= i < k ==> (#[trigger] nodes@[i] matches Node::Directory { name, path, children }
                    && name@ == heads@[i]@ && path@ == below(prefix@, name@) && built(
                    group(all, name@),
                    path@,
                    children@,
                    changes@,
                )),
    {
        let head = &heads[k];
        let mut members: Vec<(Vec<char>, usize)> = Vec::new();
        for j in 0..entries.len()
            invariant
                all == entry_views(entries@),
                forall|i: int| 0 <= i < entries.len() ==> (#[trigger] entries@[i]).1 < changes.len(),
                forall|i: int| 0 <= i < members.len() ==> (#[trigger] members@[i]).1 < changes.len(),
                entry_views(members@) == group(all.take(j as int), head@),
        {
            assert(all.take(j + 1).drop_last() == all.take(j as int));
            assert(all.take(j + 1).last() == (entries@[j as int].0@, entries@[j as int].1 as int));
            match split_head(&entries[j].0) {
                Some((h, rest)) => {
                    if same(&h, head) {
                        let ghost before = entry_views(members@);
                        members.push((rest, entries[j].1));
                        assert(entry_views(members@) =~= before.push((rest@, entries@[j as int].1 as int)));
                    }
                },
                None => {},
            }
        }
        assert(all.take(entries.len() as int) == all);
        let mut path = copy_of(prefix);
        if path.len() > 0 {
            path.push('/');
        }
        let mut name = copy_of(head);
        path.append(&mut name);
        proof {
            reveal_strlit("/");
            assert(path@ == below(prefix@, head@));
            lemma_group_size(all, head@);
            assert(listed(heads@, head@));
            assert(is_head(all, head@));
        }
        let children = build_level(&members, &path, changes);
        nodes.push(Node::Directory { name: string_of(head), path: string_of(&path), children });
    }
    let directories = nodes.len();
    for j in 0..entries.len()
        invariant
            all == entry_views(entries@),
            forall|i: int| 0 <= i < entries.len() ==> (#[trigger] entries@[i]).1 < changes.len(),
            directories == heads.len(),
            forall|a: int, b: int| 0 <= a < b < heads.len() ==> text_less(heads@[a]@, heads@[b]@),
            forall|h: Seq<char>| is_head(all, h) <==> #[trigger] listed(heads@, h),
            nodes.len() == directories + files_here(all.take(j as int)).len(),
            forall|i: int|
                0 <= i < directories ==> (#[trigger] nodes@[i] matches Node::Directory { name, path, children }
                    && name@ == heads@[i]@ && path@ == below(prefix@, name@) && built(
                    group(all, name@),
                    path@,
                    children@,
                    changes@,
                )),
            forall|f: int|
                0 <= f < files_here(all.take(j as int)).len() ==> (#[trigger] nodes@[directories + f] matches Node::File {
                    name,
                    path,
                    kind,
                    additions,
                    deletions,
                } && 0 <= files_here(all.take(j as int))[f].1 < changes.len() && name@ == files_here(all.take(j as int))[f].0
                    && path@ == changes@[files_here(all.take(j as int))[f].1].path@ && kind
                    == changes@[files_here(all.take(j as int))[f].1].kind && additions
                    == changes@[files_here(all.take(j as int))[f].1].additions && deletions
                    == changes@[files_here(all.take(j as int))[f].1].deletions),
    {
        assert(all.take(j + 1).drop_last() == all.take(j as int));
        assert(all.take(j + 1).last() == (entries@[j as int].0@, entries@[j as int].1 as int));
        let ghost files_before = files_here(all.take(j as int));
        match split_head(&entries[j].0) {
            Some(_) => {
                assert(files_here(all.take(j + 1)) == files_before);
            },
            None => {
                let index = entries[j].1;
                let change = &changes[index];
                nodes.push(
                    Node::File {
                        name: string_of(&entries[j].0),
                        path: change.path.clone(),
                        kind: change.kind,
                        additions: change.additions,
                        deletions: change.deletions,
                    },
                );
                assert(files_here(all.take(j + 1)) == files_before.push(
                    (entries@[j as int].0@, index as int),
                ));
            },
        }
    }
    assert(all.take(entries.len() as int) == all);
    proof {
        let files = files_here(all);
        assert(nodes@.len() - files.len() == directories);
        assert forall|i: int| 0 <= i < directories implies node_name(nodes@[i]) == heads@[i]@ by {
            assert(nodes@[i] matches Node::Directory { name, .. } && name@ == heads@[i]@);
        }
        assert forall|h: Seq<char>| is_head(all, h) <==> exists|i: int|
            0 <= i < directories && node_name(nodes@[i]) == h by {
            if is_head(all, h) {
                assert(listed(heads@, h));
                let k = choose|k: int| 0 <= k < heads@.len() && heads@[k]@ == h;
                assert(node_name(nodes@[k]) == h);
            }
            if exists|i: int| 0 <= i < directories && node_name(nodes@[i]) == h {
                let i = choose|i: int| 0 <= i < directories && node_name(nodes@[i]) == h;
                assert(heads@[i]@ == h);
                assert(listed(heads@, h));
            }
        }
    }
    nodes
}

impl Tree {
    /// The tree of some changed files: directories before files at each level, directories
    /// in the order of their names, files in the order they came.
    pub fn build(changes: &Vec<FileChange>) -> (tree: Tree)
        ensures
            built(
                Seq::new(changes@.len(), |i: int| (changes@[i].path@, i)),
                Seq::empty(),
                tree.nodes@,
                changes@,
            ),
            files_in(tree.nodes@) == changes.len(),
    {
        let mut entries: Vec<(Vec<char>, usize)> = Vec::new();
        for i in 0..changes.len()
            invariant
                entries.len() == i,
                forall|k: int| 0 <= k < i ==> (#[trigger] entries@[k]).0@ == changes@[k].path@ && entries@[k].1 == k,
        {
            entries.push((chars_of(changes[i].path.as_str()), i));
        }
        assert(entry_views(entries@) =~= Seq::new(changes@.len(), |i: int| (changes@[i].path@, i)));
        let top: Vec<char> = Vec::new();
        assert(top@ =~= Seq::<char>::empty());
        let nodes = build_level(&entries, &top, changes);
        proof {
            lemma_built_files(entry_views(entries@), top@, nodes@, changes@);
        }
        Tree { nodes }
    }
}

/// How many files a level holds, at any depth below it.
pub open spec fn files_in(nodes: Seq<Node>) -> nat
    decreases nodes, 0int,
{
    if nodes.len() == 0 {
        0
    } else {
        files_in(nodes.drop_last()) + files_of(nodes[nodes.len() - 1])
    }
}

/// How many files a node is or holds.
pub open spec fn files_of(node: Node) -> nat
    decreases node, 1int,
{
    match node {
        Node::File { .. } => 1,
        Node::Directory { children, .. } => files_in(children@),
    }
}

proof fn lemma_files_prefix(nodes: Seq<Node>, k: int)
    requires
        0 <= k <= nodes.len(),
    ensures
        files_in(nodes.take(k)) <= files_in(nodes),
        k < nodes.len() ==> files_in(nodes.take(k)) + files_of(nodes[k]) <= files_in(nodes),
        k < nodes.len() ==> files_in(nodes.take(k + 1)) == files_in(nodes.take(k)) + files_of(nodes[k]),
    decreases nodes.len() - k,
{
    if k < nodes.len() {
        lemma_files_prefix(nodes.drop_last(), k);
        assert(nodes.drop_last().take(k) == nodes.take(k));
        assert(nodes.take(k + 1).drop_last() == nodes.take(k));
        if k + 1 < nodes.len() {
            lemma_files_prefix(nodes.drop_last(), k + 1);
            assert(nodes.drop_last().take(k + 1) == nodes.take(k + 1));
        } else {
            assert(nodes.take(k + 1) == nodes);
        }
    } else {
        assert(nodes.take(k) == nodes);
    }
}

/// Counts the files a level holds.
pub fn count_files(nodes: &Vec<Node>) -> (count: usize)
    requires
        files_in(nodes@) <= usize::MAX,
    ensures
        count == files_in(nodes@),
    decreases nodes@,
{
    let mut count: usize = 0;
    for i in 0..nodes.len()
        invariant
            files_in(nodes@) <= usize::MAX,
            count == files_in(nodes@.take(i as int)),
    {
        proof {
            lemma_files_prefix(nodes@, i as int);
        }
        match &nodes[i] {
            Node::File { .. } => {
                count = count + 1;
            },
            Node::Directory { children, .. } => {
                assert(decreases_to!(nodes@ => nodes@[i as int]));
                let inner = count_files(children);
                count = count + inner;
            },
        }
    }
    assert(nodes@.take(nodes.len() as int) == nodes@);
    count
}

/// How many entries the groups of some directory names hold together.
pub open spec fn group_total(entries: Seq<(Seq<char>, int)>, heads: Seq<Seq<char>>) -> nat
    decreases heads.len(),
{
    if heads.len() == 0 {
        0
    } else {
        group_total(entries, heads.drop_last()) + group(entries, heads.last()).len()
    }
}

/// How many times a name occurs among some names.
pub open spec fn occurrences(heads: Seq<Seq<char>>, head: Seq<char>) -> nat
    decreases heads.len(),
{
    if heads.len() == 0 {
        0
    } else {
        occurrences(heads.drop_last(), head) + if heads.last() == head {
            1nat
        } else {
            0nat
        }
    }
}

proof fn lemma_group_total_empty(heads: Seq<Seq<char>>)
    ensures
        group_total(Seq::empty(), heads) == 0,
    decreases heads.len(),
{
    if heads.len() > 0 {
        lemma_group_total_empty(heads.drop_last());
    }
}

proof fn lemma_group_total_push(entries: Seq<(Seq<char>, int)>, entry: (Seq<char>, int), heads: Seq<Seq<char>>)
    ensures
        group_total(entries.push(entry), heads) == group_total(entries, heads) + match split_once(
            entry.0,
            '/',
        ) {
            Some((head, _)) => occurrences(heads, head),
            None => 0,
        },
    decreases heads.len(),
{
    assert(entries.push(entry).drop_last() =~= entries);
    assert(entries.push(entry).last() == entry);
    if heads.len() > 0 {
        lemma_group_total_push(entries, entry, heads.drop_last());
    }
}

proof fn lemma_occurs_once(heads: Seq<Seq<char>>, head: Seq<char>)
    requires
        heads.no_duplicates(),
    ensures
        occurrences(heads, head) == if heads.contains(head) {
            1nat
        } else {
            0nat
        },
    decreases heads.len(),
{
    if heads.len() > 0 {
        let rest = heads.drop_last();
        assert(rest.no_duplicates());
        lemma_occurs_once(rest, head);
        if heads.last() == head {
            if rest.contains(head) {
                let k = choose|k: int| 0 <= k < rest.len() && rest[k] == head;
                assert(heads[k] == heads[heads.len() - 1]);
            }
        }
        if heads.contains(head) && heads.last() != head {
            let k = choose|k: int| 0 <= k < heads.len() && heads[k] == head;
            assert(rest[k] == head);
        }
        if rest.contains(head) {
            let k = choose|k: int| 0 <= k < rest.len() && rest[k] == head;
            assert(heads[k] == head);
        }
    }
}

/// Every entry is a file at this level or falls in the group of its directory, once.
proof fn lemma_entries_counted(entries: Seq<(Seq<char>, int)>, heads: Seq<Seq<char>>)
    requires
        heads.no_duplicates(),
        forall|h: Seq<char>| is_head(entries, h) ==> heads.contains(h),
    ensures
        entries.len() == files_here(entries).len() + group_total(entries, heads),
    decreases entries.len(),
{
    if entries.len() == 0 {
        lemma_group_total_empty(heads);
        assert(entries =~= Seq::<(Seq<char>, int)>::empty());
    } else {
        let rest = entries.drop_last();
        let entry = entries.last();
        assert forall|h: Seq<char>| is_head(rest, h) implies heads.contains(h) by {
            let i = choose|i: int| 0 <= i < rest.len() && #[trigger] head_of(rest[i].0) == Some(h);
            assert(head_of(entries[i].0) == Some(h));
        }
        lemma_entries_counted(rest, heads);
        assert(entries =~= rest.push(entry));
        lemma_group_total_push(rest, entry, heads);
        match split_once(entry.0, '/') {
            Some((head, _)) => {
                assert(head_of(entries[entries.len() - 1].0) == Some(head));
                assert(is_head(entries, head));
                lemma_occurs_once(heads, head);
                assert(files_here(entries) == files_here(rest));
            },
            None => {
                assert(files_here(entries) == files_here(rest).push(entry));
            },
        }
    }
}

/// The names of the first `count` nodes of a level.
pub open spec fn names_of_nodes(nodes: Seq<Node>, count: int) -> Seq<Seq<char>> {
    Seq::new(count as nat, |i: int| node_name(nodes[i]))
}

/// The files of a level's first `k` directories are the entries grouped under them.
proof fn lemma_level_files(
    entries: Seq<(Seq<char>, int)>,
    prefix: Seq<char>,
    nodes: Seq<Node>,
    changes: Seq<FileChange>,
    k: int,
)
    requires
        built(entries, prefix, nodes, changes),
        0 <= k <= nodes.len() - files_here(entries).len(),
    ensures
        files_in(nodes.take(k)) == group_total(
            entries,
            names_of_nodes(nodes, nodes.len() - files_here(entries).len()).take(k),
        ),
    decreases nodes, k,
{
    let directories = nodes.len() - files_here(entries).len();
    let names = names_of_nodes(nodes, directories);
    if k == 0 {
        assert(nodes.take(0) =~= Seq::<Node>::empty());
        assert(names.take(0) =~= Seq::<Seq<char>>::empty());
    } else {
        lemma_level_files(entries, prefix, nodes, changes, k - 1);
        lemma_files_prefix(nodes, k - 1);
        assert(names.take(k).drop_last() =~= names.take(k - 1));
        assert(names.take(k).last() == node_name(nodes[k - 1]));
        let node = nodes[k - 1];
        assert(node matches Node::Directory { .. });
        match node {
            Node::Directory { name, path, children } => {
                assert(built(group(entries, name@), path@, children@, changes));
                assert(decreases_to!(nodes => nodes[k - 1]));
                let inner = children@.len() - files_here(group(entries, name@)).len();
                lemma_level_files(group(entries, name@), path@, children@, changes, inner);
                assert(names_of_nodes(children@, inner).take(inner) =~= names_of_nodes(
                    children@,
                    inner,
                ));
                lemma_level_total(group(entries, name@), path@, children@, changes);
                assert(files_of(node) == files_in(children@));
            },
            Node::File { .. } => {},
        }
    }
}

/// A level built from some entries holds as many files as there are entries, once the files
/// of its directories are known to be the entries grouped under them.
proof fn lemma_level_total(
    entries: Seq<(Seq<char>, int)>,
    prefix: Seq<char>,
    nodes: Seq<Node>,
    changes: Seq<FileChange>,
)
    requires
        built(entries, prefix, nodes, changes),
        files_in(nodes.take(nodes.len() - files_here(entries).len())) == group_total(
            entries,
            names_of_nodes(nodes, nodes.len() - files_here(entries).len()),
        ),
    ensures
        files_in(nodes) == entries.len(),
{
    let files = files_here(entries);
    let directories = nodes.len() - files.len();
    let names = names_of_nodes(nodes, directories);
    assert(names.take(directories) =~= names);
    assert forall|a: int, b: int| 0 <= a < b < names.len() implies names[a] != names[b] by {
        assert(text_less(node_name(nodes[a]), node_name(nodes[b])));
        lemma_text_less_order(names[a], names[b], names[b]);
    }
    assert forall|h: Seq<char>| is_head(entries, h) implies names.contains(h) by {
        let i = choose|i: int| 0 <= i < directories && node_name(nodes[i]) == h;
        assert(names[i] == h);
    }
    lemma_entries_counted(entries, names);
    assert forall|i: int| directories <= i < nodes.len() implies (#[trigger] nodes[i] matches Node::File { .. }) by {
        assert(nodes[directories + (i - directories)] matches Node::File { .. });
    }
    lemma_file_suffix(nodes, directories, nodes.len() as int);
    assert(nodes.take(nodes.len() as int) =~= nodes);
}

/// Past its directories, each node of a level is one file.
proof fn lemma_file_suffix(nodes: Seq<Node>, directories: int, k: int)
    requires
        0 <= directories <= k <= nodes.len(),
        forall|i: int| directories <= i < nodes.len() ==> (#[trigger] nodes[i] matches Node::File { .. }),
    ensures
        files_in(nodes.take(k)) == files_in(nodes.take(directories)) + (k - directories),
    decreases k - directories,
{
    if k > directories {
        lemma_file_suffix(nodes, directories, k - 1);
        lemma_files_prefix(nodes, k - 1);
        assert(nodes[k - 1] matches Node::File { .. });
    }
}

/// A tree holds as many files as there were changes: a level built from some entries holds
/// one file for each of them, at whatever depth.
pub proof fn lemma_built_files(
    entries: Seq<(Seq<char>, int)>,
    prefix: Seq<char>,
    nodes: Seq<Node>,
    changes: Seq<FileChange>,
)
    requires
        built(entries, prefix, nodes, changes),
    ensures
        files_in(nodes) == entries.len(),
{
    let directories = nodes.len() - files_here(entries).len();
    lemma_level_files(entries, prefix, nodes, changes, directories);
    assert(names_of_nodes(nodes, directories).take(directories) =~= names_of_nodes(
        nodes,
        directories,
    ));
    lemma_level_total(entries, prefix, nodes, changes);
}

/// Counts the files a level holds, when the count fits in a `usize`.
pub fn count_files_within(nodes: &Vec<Node>) -> (count: Option<usize>)
    ensures
        match count {
            Some(n) => n == files_in(nodes@),
            None => files_in(nodes@) > usize::MAX,
        },
    decreases nodes@,
{
    let mut count: usize = 0;
    for i in 0..nodes.len()
        invariant
            count == files_in(nodes@.take(i as int)),
    {
        proof {
            lemma_files_prefix(nodes@, i as int);
        }
        let more: usize = match &nodes[i] {
            Node::File { .. } => 1,
            Node::Directory { children, .. } => {
                assert(decreases_to!(nodes@ => nodes@[i as int]));
                match count_files_within(children) {
                    Some(n) => n,
                    None => return None,
                }
            },
        };
        match count.checked_add(more) {
            Some(n) => count = n,
            None => return None,
        }
    }
    assert(nodes@.take(nodes.len() as int) == nodes@);
    Some(count)
}

/// What a row of the tree shows.
pub enum Entry {
    Directory { name: String, files: usize, truncated: bool },
    File { name: String, path: String, kind: ChangeKind, additions: usize, deletions: usize },
    /// How many more children a directory has than it shows.
    More { path: String, remaining: usize },
}

/// A row of the tree, with the stems that pass through it: index `level` says whether the
/// ancestor at that depth still has a sibling below this row.
pub struct Line {
    pub depth: usize,
    pub stems: Vec<bool>,
    pub entry: Entry,
}

/// A row by value.
pub enum EntryView {
    Directory(Seq<char>, nat, bool),
    File(Seq<char>, Seq<char>, ChangeKind, nat, nat),
    More(Seq<char>, nat),
}

pub open spec fn line_view(line: Line) -> (nat, Seq<bool>, EntryView) {
    (
        line.depth as nat,
        line.stems@,
        match line.entry {
            Entry::Directory { name, files, truncated } => EntryView::Directory(
                name@,
                files as nat,
                truncated,
            ),
            Entry::File { name, path, kind, additions, deletions } => EntryView::File(
                name@,
                path@,
                kind,
                additions as nat,
                deletions as nat,
            ),
            Entry::More { path, remaining } => EntryView::More(path@, remaining as nat),
        },
    )
}

pub open spec fn line_views(lines: Seq<Line>) -> Seq<(nat, Seq<bool>, EntryView)> {
    lines.map_values(|l: Line| line_view(l))
}

/// How many of a directory's children are shown: all when it is expanded, else no more
/// than [`CHILDREN_SHOWN`].
pub open spec fn shown_of(count: nat, path: Seq<char>, expanded: Seq<Seq<char>>) -> nat {
    if expanded.contains(path) || count <= CHILDREN_SHOWN {
        count
    } else {
        CHILDREN_SHOWN as nat
    }
}

/// The rows one node draws, with `stems` the stems its row carries.
pub open spec fn node_lines(node: Node, expanded: Seq<Seq<char>>, stems: Seq<bool>) -> Seq<(nat, Seq<bool>, EntryView)>
    decreases node, 0int, 0int,
{
    match node {
        Node::File { name, path, kind, additions, deletions } => seq![
            (
                (stems.len() - 1) as nat,
                stems,
                EntryView::File(name@, path@, kind, additions as nat, deletions as nat),
            ),
        ],
        Node::Directory { name, path, children } => {
            let count = children@.len();
            let shown = shown_of(count, path@, expanded);
            seq![
                (
                    (stems.len() - 1) as nat,
                    stems,
                    EntryView::Directory(name@, files_in(children@), count > shown),
                ),
            ] + level_lines(
                children@,
                shown as int,
                if count > shown {
                    Some((path@, (count - shown) as nat))
                } else {
                    None
                },
                expanded,
                stems,
            )
        },
    }
}

/// The rows a level draws: its first `shown` nodes, then, when some are not shown, a row
/// saying how many more there are.
pub open spec fn level_lines(
    nodes: Seq<Node>,
    shown: int,
    more: Option<(Seq<char>, nat)>,
    expanded: Seq<Seq<char>>,
    stems: Seq<bool>,
) -> Seq<(nat, Seq<bool>, EntryView)>
    decreases nodes, 2int, 0int,
{
    let siblings = shown + if more is Some {
        1int
    } else {
        0int
    };
    leading_lines(nodes, shown, siblings, expanded, stems) + match more {
        Some((path, remaining)) => seq![
            (stems.len(), stems.push(false), EntryView::More(path, remaining)),
        ],
        None => Seq::empty(),
    }
}

/// The rows of a level's first `k` nodes, each under a stem that says whether a sibling
/// follows it.
pub open spec fn leading_lines(
    nodes: Seq<Node>,
    k: int,
    siblings: int,
    expanded: Seq<Seq<char>>,
    stems: Seq<bool>,
) -> Seq<(nat, Seq<bool>, EntryView)>
    decreases nodes, 1int, k,
{
    if k <= 0 || k > nodes.len() {
        Seq::empty()
    } else {
        leading_lines(nodes, k - 1, siblings, expanded, stems) + node_lines(
            nodes[k - 1],
            expanded,
            stems.push(k < siblings),
        )
    }
}

/// Whether every row carries one stem more than its depth, starting with the stems `base`,
/// and at least `least` of them.
pub open spec fn stems_fit(lines: Seq<(nat, Seq<bool>, EntryView)>, base: Seq<bool>, least: nat) -> bool {
    forall|i: int|
        0 <= i < lines.len() ==> {
            let row = #[trigger] lines[i];
            &&& row.1.len() == row.0 + 1
            &&& row.1.len() >= least
            &&& base.len() <= row.1.len()
            &&& row.1.take(base.len() as int) == base
        }
}

proof fn lemma_stems_fit_join(
    a: Seq<(nat, Seq<bool>, EntryView)>,
    b: Seq<(nat, Seq<bool>, EntryView)>,
    base: Seq<bool>,
    least: nat,
)
    requires
        stems_fit(a, base, least),
        stems_fit(b, base, least),
    ensures
        stems_fit(a + b, base, least),
{
    assert forall|i: int| 0 <= i < (a + b).len() implies {
        let row = #[trigger] (a + b)[i];
        &&& row.1.len() == row.0 + 1
        &&& row.1.len() >= least
        &&& base.len() <= row.1.len()
        &&& row.1.take(base.len() as int) == base
    } by {
        if i < a.len() {
            assert((a + b)[i] == a[i]);
        } else {
            assert((a + b)[i] == b[i - a.len()]);
        }
    }
}

proof fn lemma_stems_fit_widen(lines: Seq<(nat, Seq<bool>, EntryView)>, stems: Seq<bool>, pushed: bool)
    requires
        stems_fit(lines, stems.push(pushed), stems.len() + 1),
    ensures
        stems_fit(lines, stems, stems.len() + 1),
{
    assert forall|i: int| 0 <= i < lines.len() implies {
        let row = #[trigger] lines[i];
        &&& row.1.len() == row.0 + 1
        &&& row.1.len() >= stems.len() + 1
        &&& stems.len() <= row.1.len()
        &&& row.1.take(stems.len() as int) == stems
    } by {
        let row = lines[i];
        assert(row.1.take(stems.push(pushed).len() as int) == stems.push(pushed));
        assert(row.1.take(stems.len() as int) =~= stems.push(pushed).take(stems.len() as int));
        assert(stems.push(pushed).take(stems.len() as int) =~= stems);
    }
}

/// The rows one node draws with `stems` each carry one stem more than their depth, starting
/// with `stems`.
pub proof fn lemma_node_stems(node: Node, expanded: Seq<Seq<char>>, stems: Seq<bool>)
    requires
        stems.len() >= 1,
    ensures
        stems_fit(node_lines(node, expanded, stems), stems, stems.len()),
    decreases node, 0int, 0int,
{
    let first = node_lines(node, expanded, stems)[0];
    assert(stems.take(stems.len() as int) == stems);
    match node {
        Node::File { .. } => {},
        Node::Directory { name, path, children } => {
            let count = children@.len();
            let shown = shown_of(count, path@, expanded);
            let more = if count > shown {
                Some((path@, (count - shown) as nat))
            } else {
                None
            };
            let head = seq![
                (
                    (stems.len() - 1) as nat,
                    stems,
                    EntryView::Directory(name@, files_in(children@), count > shown),
                ),
            ];
            lemma_level_stems(children@, shown as int, more, expanded, stems);
            let rest = level_lines(children@, shown as int, more, expanded, stems);
            assert(stems_fit(rest, stems, stems.len()));
            lemma_stems_fit_join(head, rest, stems, stems.len());
            assert(node_lines(node, expanded, stems) == head + rest);
        },
    }
}

/// Every row a level draws under `stems` carries one stem more than its depth: the stems
/// of the levels above it, one for each level down to its own, and its own. So each is
/// deeper than the level's stems reach, and starts with them.
pub proof fn lemma_level_stems(
    nodes: Seq<Node>,
    shown: int,
    more: Option<(Seq<char>, nat)>,
    expanded: Seq<Seq<char>>,
    stems: Seq<bool>,
)
    ensures
        stems_fit(level_lines(nodes, shown, more, expanded, stems), stems, stems.len() + 1),
    decreases nodes, 2int, 0int,
{
    let siblings = shown + if more is Some {
        1int
    } else {
        0int
    };
    lemma_leading_stems(nodes, shown, siblings, expanded, stems);
    let tail = match more {
        Some((path, remaining)) => seq![
            (stems.len(), stems.push(false), EntryView::More(path, remaining)),
        ],
        None => Seq::empty(),
    };
    assert(stems.push(false).take(stems.len() as int) =~= stems);
    assert(stems_fit(tail, stems, stems.len() + 1));
    lemma_stems_fit_join(
        leading_lines(nodes, shown, siblings, expanded, stems),
        tail,
        stems,
        stems.len() + 1,
    );
}

proof fn lemma_leading_stems(
    nodes: Seq<Node>,
    k: int,
    siblings: int,
    expanded: Seq<Seq<char>>,
    stems: Seq<bool>,
)
    ensures
        stems_fit(leading_lines(nodes, k, siblings, expanded, stems), stems, stems.len() + 1),
    decreases nodes, 1int, k,
{
    if k <= 0 || k > nodes.len() {
    } else {
        lemma_leading_stems(nodes, k - 1, siblings, expanded, stems);
        let pushed = stems.push(k < siblings);
        lemma_node_stems(nodes[k - 1], expanded, pushed);
        lemma_stems_fit_widen(node_lines(nodes[k - 1], expanded, pushed), stems, k < siblings);
        lemma_stems_fit_join(
            leading_lines(nodes, k - 1, siblings, expanded, stems),
            node_lines(nodes[k - 1], expanded, pushed),
            stems,
            stems.len() + 1,
        );
    }
}

fn copy_stems(stems: &Vec<bool>) -> (copy: Vec<bool>)
    ensures
        copy@ == stems@,
{
    let mut copy: Vec<bool> = Vec::new();
    for i in 0..stems.len()
        invariant
            copy@ == stems@.take(i as int),
    {
        copy.push(stems[i]);
        assert(stems@.take(i + 1) == stems@.take(i as int).push(stems@[i as int]));
    }
    assert(stems@.take(stems.len() as int) == stems@);
    copy
}

/// Appends the rows of a level to `rows`.
#[verifier::spinoff_prover]
fn flatten(
    nodes: &Vec<Node>,
    shown: usize,
    more: Option<(String, usize)>,
    expanded: &Vec<String>,
    stems: &mut Vec<bool>,
    rows: &mut Vec<Line>,
)
    requires
        shown <= nodes.len(),
        files_in(nodes@) <= usize::MAX,
    ensures
        final(stems)@ == old(stems)@,
        line_views(final(rows)@) == line_views(old(rows)@) + level_lines(
            nodes@,
            shown as int,
            match more {
                Some((p, r)) => Some((p@, r as nat)),
                None => None,
            },
            texts(expanded@),
            old(stems)@,
        ),
    decreases nodes@, 2int, 0int,
{
    let ghost start = line_views(rows@);
    let ghost base = stems@;
    let ghost listed = texts(expanded@);
    let ghost siblings = shown + if more is Some {
        1int
    } else {
        0int
    };
    let has_more = more.is_some();
    for i in 0..shown
        invariant
            shown <= nodes.len(),
            files_in(nodes@) <= usize::MAX,
            listed == texts(expanded@),
            stems@ == base,
            has_more == (more is Some),
            siblings == shown + if more is Some {
                1int
            } else {
                0int
            },
            line_views(rows@) == start + leading_lines(nodes@, i as int, siblings as int, listed, base),
    {
        proof {
            lemma_files_prefix(nodes@, i as int);
        }
        let follows = i + 1 < shown || (has_more && i + 1 == shown);
        assert(follows == (i + 1 < siblings));
        stems.push(follows);
        let depth = stems.len() - 1;
        let ghost before = line_views(rows@);
        match &nodes[i] {
            Node::File { name, path, kind, additions, deletions } => {
                rows.push(
                    Line {
                        depth,
                        stems: copy_stems(stems),
                        entry: Entry::File {
                            name: name.clone(),
                            path: path.clone(),
                            kind: *kind,
                            additions: *additions,
                            deletions: *deletions,
                        },
                    },
                );
                assert(line_views(rows@) =~= before + node_lines(
                    nodes@[i as int],
                    listed,
                    base.push(i + 1 < siblings),
                ));
            },
            Node::Directory { name, path, children } => {
                assert(decreases_to!(nodes@ => nodes@[i as int]));
                let count = children.len();
                let open = holds(expanded, path);
                let shown_here = if open || count <= CHILDREN_SHOWN {
                    count
                } else {
                    CHILDREN_SHOWN
                };
                let files = count_files(children);
                rows.push(
                    Line {
                        depth,
                        stems: copy_stems(stems),
                        entry: Entry::Directory {
                            name: name.clone(),
                            files,
                            truncated: count > shown_here,
                        },
                    },
                );
                let ghost after_row = line_views(rows@);
                let rest = if count > shown_here {
                    Some((path.clone(), count - shown_here))
                } else {
                    None
                };
                assert(after_row =~= before.push(
                    (
                        depth as nat,
                        base.push(follows),
                        EntryView::Directory(name@, files_in(children@), count > shown_here),
                    ),
                ));
                assert(shown_here as nat == shown_of(count as nat, path@, listed));
                flatten(children, shown_here, rest, expanded, stems, rows);
                assert(line_views(rows@) == after_row + level_lines(
                    children@,
                    shown_here as int,
                    if count > shown_here {
                        Some((path@, (count - shown_here) as nat))
                    } else {
                        None
                    },
                    listed,
                    base.push(follows),
                ));
                assert(line_views(rows@) =~= before + node_lines(
                    nodes@[i as int],
                    listed,
                    base.push(i + 1 < siblings),
                ));
            },
        }
        stems.pop();
        assert(stems@ =~= base);
        assert(leading_lines(nodes@, i + 1, siblings as int, listed, base) == leading_lines(
            nodes@,
            i as int,
            siblings as int,
            listed,
            base,
        ) + node_lines(nodes@[i as int], listed, base.push(i + 1 < siblings)));
    }
    match more {
        Some((path, remaining)) => {
            stems.push(false);
            let depth = stems.len() - 1;
            let ghost before = line_views(rows@);
            rows.push(
                Line { depth, stems: copy_stems(stems), entry: Entry::More { path, remaining } },
            );
            stems.pop();
            assert(line_views(rows@) =~= before + seq![
                (base.len(), base.push(false), EntryView::More(path@, remaining as nat)),
            ]);
        },
        None => {},
    }
    assert(stems@ =~= base);
}

impl Tree {
    /// The rows the tree draws, with the directories named in `expanded` showing all their
    /// children.
    pub fn rows(&self, expanded: &Vec<String>) -> (lines: Vec<Line>)
        requires
            files_in(self.nodes@) <= usize::MAX,
        ensures
            line_views(lines@) == level_lines(
                self.nodes@,
                self.nodes@.len() as int,
                None,
                texts(expanded@),
                Seq::empty(),
            ),
            stems_fit(line_views(lines@), Seq::empty(), 1),
    {
        proof {
            lemma_level_stems(self.nodes@, self.nodes@.len() as int, None, texts(expanded@), Seq::empty());
        }
        let mut rows: Vec<Line> = Vec::new();
        let mut stems: Vec<bool> = Vec::new();
        assert(line_views(rows@) =~= Seq::empty());
        flatten(&self.nodes, self.nodes.len(), None, expanded, &mut stems, &mut rows);
        assert(stems@ =~= Seq::<bool>::empty());
        rows
    }
}

/// The change counts a file row shows: `+a` and `-d`, a side that is zero left out.
pub open spec fn delta_text(additions: nat, deletions: nat) -> Seq<char> {
    if additions == 0 && deletions == 0 {
        Seq::empty()
    } else if deletions == 0 {
        seq!['+'] + decimal(additions)
    } else if additions == 0 {
        seq!['-'] + decimal(deletions)
    } else {
        seq!['+'] + decimal(additions) + seq![' ', '-'] + decimal(deletions)
    }
}

/// A sign followed by a count in decimal.
fn signed_count(sign: char, n: usize) -> (text: Vec<char>)
    ensures
        text@ == seq![sign] + decimal(n as nat),
{
    let mut text: Vec<char> = Vec::new();
    text.push(sign);
    let digits = decimal_of(n as u64);
    append(&mut text, &digits);
    text
}

/// The change counts a file row shows.
pub fn delta(additions: usize, deletions: usize) -> (text: String)
    ensures
        text@ == delta_text(additions as nat, deletions as nat),
{
    if additions == 0 && deletions == 0 {
        let none: Vec<char> = Vec::new();
        string_of(&none)
    } else if deletions == 0 {
        string_of(&signed_count('+', additions))
    } else if additions == 0 {
        string_of(&signed_count('-', deletions))
    } else {
        let mut text = signed_count('+', additions);
        text.push(' ');
        let removed = signed_count('-', deletions);
        append(&mut text, &removed);
        assert(text@ =~= seq!['+'] + decimal(additions as nat) + seq![' ', '-'] + decimal(
            deletions as nat,
        ));
        string_of(&text)
    }
}

/// The row a change gets when the selection is listed flat: at the top, named by its
/// whole path.
pub open spec fn flat_line(change: FileChange) -> (nat, Seq<bool>, EntryView) {
    (
        0,
        seq![false],
        EntryView::File(
            change.path@,
            change.path@,
            change.kind,
            change.additions as nat,
            change.deletions as nat,
        ),
    )
}

/// The rows of a selection listed flat, one per change, in the order given.
pub fn flat_rows(changes: &Vec<FileChange>) -> (lines: Vec<Line>)
    ensures
        line_views(lines@) == changes@.map_values(|c: FileChange| flat_line(c)),
{
    let mut lines: Vec<Line> = Vec::new();
    for i in 0..changes.len()
        invariant
            line_views(lines@) == changes@.take(i as int).map_values(|c: FileChange| flat_line(c)),
    {
        let change = &changes[i];
        let mut stems: Vec<bool> = Vec::new();
        stems.push(false);
        let line = Line {
            depth: 0,
            stems,
            entry: Entry::File {
                name: change.path.clone(),
                path: change.path.clone(),
                kind: change.kind,
                additions: change.additions,
                deletions: change.deletions,
            },
        };
        let ghost before = line_views(lines@);
        lines.push(line);
        assert(line_views(lines@) =~= before.push(flat_line(changes@[i as int])));
        assert(changes@.take(i + 1) =~= changes@.take(i as int).push(changes@[i as int]));
        assert(changes@.take(i + 1).map_values(|c: FileChange| flat_line(c)) =~= changes@.take(
            i as int,
        ).map_values(|c: FileChange| flat_line(c)).push(flat_line(changes@[i as int])));
    }
    assert(changes@.take(changes.len() as int) =~= changes@);
    lines
}

/// The lines added over all of `changes`.
pub open spec fn additions_of(changes: Seq<FileChange>) -> nat
    decreases changes.len(),
{
    if changes.len() == 0 {
        0
    } else {
        additions_of(changes.drop_last()) + changes.last().additions as nat
    }
}

/// The lines removed over all of `changes`.
pub open spec fn deletions_of(changes: Seq<FileChange>) -> nat
    decreases changes.len(),
{
    if changes.len() == 0 {
        0
    } else {
        deletions_of(changes.drop_last()) + changes.last().deletions as nat
    }
}

/// The word a kind of change is counted under in the summary line.
pub open spec fn status_word(kind: ChangeKind) -> Seq<char> {
    match kind {
        ChangeKind::Added => "added"@,
        ChangeKind::Modified => "modified"@,
        ChangeKind::Deleted => "removed"@,
        ChangeKind::Renamed => "renamed"@,
    }
}

/// `count` files of one kind, as the summary line reads them; nothing when there are none.
pub open spec fn status_label(changes: Seq<FileChange>, kind: ChangeKind) -> Seq<Seq<char>> {
    let count = count_kind(changes, kind);
    if count > 0 {
        seq![decimal(count) + seq![' '] + status_word(kind)]
    } else {
        Seq::empty()
    }
}

/// The counts of the summary line, in the order added, modified, removed, renamed.
pub open spec fn status_labels(changes: Seq<FileChange>) -> Seq<Seq<char>> {
    status_label(changes, ChangeKind::Added) + status_label(changes, ChangeKind::Modified)
        + status_label(changes, ChangeKind::Deleted) + status_label(changes, ChangeKind::Renamed)
}

/// The totals of the summary line: `+a` when lines were added, then `-d` when lines were
/// removed.
pub open spec fn total_labels(additions: nat, deletions: nat) -> Seq<Seq<char>> {
    (if additions > 0 {
        seq![seq!['+'] + decimal(additions)]
    } else {
        Seq::empty()
    }) + (if deletions > 0 {
        seq![seq!['-'] + decimal(deletions)]
    } else {
        Seq::empty()
    })
}

/// What a whole selection did, for the line above the tree.
pub struct Summary {
    /// How many files each kind of change covers, kinds with none left out.
    pub statuses: Vec<String>,
    /// The lines added and removed, as the totals read.
    pub totals: Vec<String>,
    pub additions: usize,
    pub deletions: usize,
}

fn push_status(labels: &mut Vec<String>, changes: &Vec<FileChange>, kind: ChangeKind, word: &str)
    requires
        word@ == status_word(kind),
    ensures
        texts(final(labels)@) == texts(old(labels)@) + status_label(changes@, kind),
{
    let count = count_of_kind(changes, kind);
    let ghost before = texts(labels@);
    if count > 0 {
        let mut label = decimal_of(count as u64);
        label.push(' ');
        let word_chars = chars_of(word);
        append(&mut label, &word_chars);
        assert(label@ =~= decimal(count as nat) + seq![' '] + status_word(kind));
        let text = string_of(&label);
        labels.push(text);
        assert(texts(labels@) =~= before.push(text@));
    } else {
        assert(texts(labels@) =~= before + status_label(changes@, kind));
    }
}

fn push_total(labels: &mut Vec<String>, sign: char, n: usize)
    ensures
        texts(final(labels)@) == texts(old(labels)@) + (if n > 0 {
            seq![seq![sign] + decimal(n as nat)]
        } else {
            Seq::<Seq<char>>::empty()
        }),
{
    let ghost before = texts(labels@);
    if n > 0 {
        labels.push(string_of(&signed_count(sign, n)));
        assert(texts(labels@) =~= before + seq![seq![sign] + decimal(n as nat)]);
    } else {
        assert(texts(labels@) =~= before);
    }
}

/// What the whole selection did: the count of each kind of change and the lines added and
/// removed over all its files.
pub fn summary(changes: &Vec<FileChange>) -> (s: Summary)
    requires
        additions_of(changes@) <= usize::MAX,
        deletions_of(changes@) <= usize::MAX,
    ensures
        texts(s.statuses@) == status_labels(changes@),
        s.additions == additions_of(changes@),
        s.deletions == deletions_of(changes@),
        texts(s.totals@) == total_labels(s.additions as nat, s.deletions as nat),
{
    let mut additions: usize = 0;
    let mut deletions: usize = 0;
    for i in 0..changes.len()
        invariant
            additions == additions_of(changes@.take(i as int)),
            deletions == deletions_of(changes@.take(i as int)),
            additions_of(changes@) <= usize::MAX,
            deletions_of(changes@) <= usize::MAX,
    {
        assert(changes@.take(i + 1).drop_last() =~= changes@.take(i as int));
        proof {
            lemma_sums_grow(changes@, i + 1);
        }
        additions = additions + changes[i].additions;
        deletions = deletions + changes[i].deletions;
    }
    assert(changes@.take(changes.len() as int) =~= changes@);
    let mut statuses: Vec<String> = Vec::new();
    assert(texts(statuses@) =~= Seq::<Seq<char>>::empty());
    push_status(&mut statuses, changes, ChangeKind::Added, "added");
    push_status(&mut statuses, changes, ChangeKind::Modified, "modified");
    push_status(&mut statuses, changes, ChangeKind::Deleted, "removed");
    push_status(&mut statuses, changes, ChangeKind::Renamed, "renamed");
    assert(texts(statuses@) =~= status_labels(changes@));
    let mut totals: Vec<String> = Vec::new();
    assert(texts(totals@) =~= Seq::<Seq<char>>::empty());
    push_total(&mut totals, '+', additions);
    push_total(&mut totals, '-', deletions);
    assert(texts(totals@) =~= total_labels(additions as nat, deletions as nat));
    Summary { statuses, totals, additions, deletions }
}

/// The sums over a prefix are no more than those over the whole.
proof fn lemma_sums_grow(changes: Seq<FileChange>, k: int)
    requires
        0 <= k <= changes.len(),
    ensures
        additions_of(changes.take(k)) <= additions_of(changes),
        deletions_of(changes.take(k)) <= deletions_of(changes),
    decreases changes.len() - k,
{
    if k < changes.len() {
        lemma_sums_grow(changes, k + 1);
        assert(changes.take(k + 1).drop_last() =~= changes.take(k));
    } else {
        assert(changes.take(k) =~= changes);
    }
}

} // verus!
