//! What the window decides as events arrive, apart from how it draws: the warnings a
//! repository opens with, what a toggle leaves behind, where a dragged repository lands,
//! what the launcher moves to, what a typed path is taken as, and what a context menu
//! offers.
use crate::git::command::{failure_text, GitError};
use crate::git::read::Signing;
use crate::avatar::{hex, hex_text};
use crate::git::read::{CommitSummary, EMPTY_TREE};
use crate::git::ObjectId;
use crate::config::{icon_views, join, lists_path, other_icons, path_join, path_parts, same_path, Icon};
use crate::text::{
    append, chars_of, distinct, holds, in_text_order, same, slice, sort_texts, starts_with, string_of,
    texts, to_lowercase, trim, trimmed, unicode_lowercase, without_prefix,
};
use crate::ui::menu::Menu;
use crate::ui::theme::Choice;
use crate::ui::{signing_warning, Columns, Entry, HistoryColumn, LabelKind, Warning, WarningView};
use vstd::prelude::*;

verus! {

/// Whether commits are signed with ssh and no agent is reachable to sign them.
pub open spec fn signs_without_agent(signing: Signing) -> bool {
    signing.signs_commits && signing.format is Ssh && signing.ssh_agent is None
}

/// The key a signing warning names: the configured one, or words saying there is none.
pub open spec fn key_words(signing: Signing) -> Seq<char> {
    match signing.key {
        Some(k) => k@,
        None => "that is not set"@,
    }
}

pub open spec fn warning_views(warnings: Seq<Warning>) -> Seq<WarningView> {
    warnings.map_values(|w: Warning| w@)
}

/// The warnings a repository opens with: git that cannot run, with its error in words,
/// then ssh signing with no agent to sign with.
pub open spec fn warnings_of(version: Result<String, GitError>, signing: Signing) -> Seq<WarningView> {
    (match version {
        Ok(_) => Seq::empty(),
        Err(error) => seq![WarningView::GitUnusable(failure_text(error@))],
    }) + if signs_without_agent(signing) {
        seq![WarningView::SigningWithoutAgent(key_words(signing))]
    } else {
        Seq::empty()
    }
}

/// The warnings a repository opens with, from git's answer to `--version` and how commits
/// are signed there.
pub fn repository_warnings(version: &Result<String, GitError>, signing: &Signing) -> (warnings: Vec<Warning>)
    ensures
        warning_views(warnings@) == warnings_of(*version, *signing),
{
    let mut warnings: Vec<Warning> = Vec::new();
    match version {
        Ok(_) => {},
        Err(error) => {
            warnings.push(Warning::GitUnusable(error.message()));
        },
    }
    let ghost before = warning_views(warnings@);
    match signing_warning(signing) {
        Some(warning) => {
            warnings.push(warning);
            assert(warning_views(warnings@) =~= before.push(warning_views(warnings@).last()));
        },
        None => {},
    }
    assert(warning_views(warnings@) =~= warnings_of(*version, *signing));
    warnings
}

/// A warning as the line above the panes reads it.
pub open spec fn warning_text(warning: WarningView) -> Seq<char> {
    match warning {
        WarningView::GitUnusable(error) => "git cannot run here, so nothing that writes will work: "@
            + error,
        WarningView::SigningWithoutAgent(key) => "commits are set to be signed with the ssh key "@
            + key + ", but SSH_AUTH_SOCK is not set here"@,
    }
}

/// A warning as the line above the panes reads it.
pub fn warning_line(warning: &Warning) -> (line: String)
    ensures
        line@ == warning_text(warning@),
{
    match warning {
        Warning::GitUnusable(error) => {
            let mut text = chars_of("git cannot run here, so nothing that writes will work: ");
            append(&mut text, &chars_of(error.as_str()));
            string_of(&text)
        },
        Warning::SigningWithoutAgent(key) => {
            let mut text = chars_of("commits are set to be signed with the ssh key ");
            append(&mut text, &chars_of(key.as_str()));
            append(&mut text, &chars_of(", but SSH_AUTH_SOCK is not set here"));
            string_of(&text)
        },
    }
}

/// The window's title: the open repository's name before the program's, or the program's
/// alone.
pub fn window_title(name: Option<&str>) -> (title: String)
    ensures
        title@ == match name {
            Some(n) => n@ + " - gg"@,
            None => "gg"@,
        },
{
    match name {
        Some(n) => {
            let mut text = chars_of(n);
            append(&mut text, &chars_of(" - gg"));
            string_of(&text)
        },
        None => "gg".to_owned(),
    }
}

/// A commit's whole message: the title, and the body after a blank line when there is one.
pub fn commit_text(title: &str, body: &str) -> (message: String)
    ensures
        message@ == if body@.len() == 0 {
            title@
        } else {
            title@ + "\n\n"@ + body@
        },
{
    if body.is_empty() {
        title.to_owned()
    } else {
        let mut text = chars_of(title);
        append(&mut text, &chars_of("\n\n"));
        append(&mut text, &chars_of(body));
        string_of(&text)
    }
}

/// What a commit is made with: the message and the description, each trimmed, or why there
/// is nothing to commit with.
pub fn commit_request(message: &str, description: &str) -> (request: Result<(String, String), String>)
    ensures
        match request {
            Ok((m, d)) => trim(message@).len() > 0 && m@ == trim(message@) && d@ == trim(
                description@,
            ),
            Err(e) => trim(message@).len() == 0 && e@ == "type a message before committing"@,
        },
{
    let m = trimmed(&chars_of(message));
    if m.len() == 0 {
        return Err("type a message before committing".to_owned());
    }
    let d = trimmed(&chars_of(description));
    Ok((string_of(&m), string_of(&d)))
}

/// The menu open after its title is clicked: the same menu closes, any other opens.
pub open spec fn toggled_menu_of(open: Option<Menu>, menu: Menu) -> Option<Menu> {
    if open == Some(menu) {
        None
    } else {
        Some(menu)
    }
}

pub fn toggled_menu(open: Option<Menu>, menu: Menu) -> (next: Option<Menu>)
    ensures
        next == toggled_menu_of(open, menu),
{
    if open == Some(menu) {
        None
    } else {
        Some(menu)
    }
}

/// Clicking a menu's title twice leaves things as they were, when no other menu was open.
pub proof fn lemma_menu_twice(open: Option<Menu>, menu: Menu)
    requires
        open is None || open == Some(menu),
    ensures
        toggled_menu_of(toggled_menu_of(open, menu), menu) == open,
{
}

/// What a finished reading of the repository at `read` does while the window shows `open`:
/// whether it lands (shows, rather than only being kept for later), and whether a reading is
/// still under way afterwards. A second click while the first was still reading wins.
pub fn landing(read: &str, open: &str, reading: bool) -> (outcome: (bool, bool))
    ensures
        outcome.0 == (read@ == open@),
        outcome.1 == (reading && read@ != open@),
{
    let landed = same(&chars_of(read), &chars_of(open));
    (landed, reading && !landed)
}

/// Whether two optional runs of numbers are the same.
fn same_numbers(a: &Option<Vec<u64>>, b: &Option<Vec<u64>>) -> (equal: bool)
    ensures
        equal == (numbers_view(a) == numbers_view(b)),
{
    match (a, b) {
        (Some(x), Some(y)) => {
            if x.len() != y.len() {
                return false;
            }
            for i in 0..x.len()
                invariant
                    x.len() == y.len(),
                    x@.take(i as int) == y@.take(i as int),
                    numbers_view(a) == Some(x@),
                    numbers_view(b) == Some(y@),
            {
                if x[i] != y[i] {
                    assert(x@[i as int] != y@[i as int]);
                    return false;
                }
                assert(x@.take(i + 1) == x@.take(i as int).push(x@[i as int]));
                assert(y@.take(i + 1) == y@.take(i as int).push(y@[i as int]));
            }
            assert(x@.take(x.len() as int) == x@);
            assert(y@.take(y.len() as int) == y@);
            true
        },
        (None, None) => true,
        _ => false,
    }
}

pub open spec fn numbers_view(numbers: &Option<Vec<u64>>) -> Option<Seq<u64>> {
    match numbers {
        Some(v) => Some(v@),
        None => None,
    }
}

/// Whether a periodic look at git's files reads the repository again. `now` and `watched`
/// are the modification times of the files that change when git writes (`HEAD`, the index,
/// the refs), now and when the repository was last read; nothing when they cannot be looked
/// at. No second reading starts while one is under way, and nothing unchanged is read again.
pub fn check_rereads(reading: bool, now: &Option<Vec<u64>>, watched: &Option<Vec<u64>>) -> (reread: bool)
    ensures
        reread == (!reading && now is Some && numbers_view(now) != numbers_view(watched)),
{
    if reading || now.is_none() {
        return false;
    }
    !same_numbers(now, watched)
}

/// The history's columns with one of them flipped.
pub open spec fn toggled_column_of(columns: Columns, column: HistoryColumn) -> Columns {
    match column {
        HistoryColumn::Labels => Columns { labels: !columns.labels, ..columns },
        HistoryColumn::Author => Columns { author: !columns.author, ..columns },
        HistoryColumn::When => Columns { when: !columns.when, ..columns },
        HistoryColumn::Hash => Columns { hash: !columns.hash, ..columns },
    }
}

pub fn toggled_column(columns: Columns, column: HistoryColumn) -> (next: Columns)
    ensures
        next == toggled_column_of(columns, column),
{
    let mut next = columns;
    match column {
        HistoryColumn::Labels => next.labels = !columns.labels,
        HistoryColumn::Author => next.author = !columns.author,
        HistoryColumn::When => next.when = !columns.when,
        HistoryColumn::Hash => next.hash = !columns.hash,
    }
    next
}

/// Whether a column is shown.
pub open spec fn column_shown(columns: Columns, column: HistoryColumn) -> bool {
    match column {
        HistoryColumn::Labels => columns.labels,
        HistoryColumn::Author => columns.author,
        HistoryColumn::When => columns.when,
        HistoryColumn::Hash => columns.hash,
    }
}

/// Flipping a column shows it if it was hidden and hides it if it was shown, leaves every
/// other column alone, and flipping it again leaves every column as it was.
pub proof fn lemma_column_toggle(columns: Columns, column: HistoryColumn, other: HistoryColumn)
    ensures
        column_shown(toggled_column_of(columns, column), column) == !column_shown(columns, column),
        other != column ==> column_shown(toggled_column_of(columns, column), other)
            == column_shown(columns, other),
        toggled_column_of(toggled_column_of(columns, column), column) == columns,
{
}

/// Folding a section that is open, or opening one that is folded: `folded` holds each
/// folded section's name once.
pub fn toggle_fold(folded: &mut Vec<String>, key: &str)
    requires
        texts(old(folded)@).no_duplicates(),
    ensures
        texts(final(folded)@).no_duplicates(),
        texts(final(folded)@).to_set() == if texts(old(folded)@).contains(key@) {
            texts(old(folded)@).to_set().remove(key@)
        } else {
            texts(old(folded)@).to_set().insert(key@)
        },
{
    let ghost start = texts(folded@);
    let k = chars_of(key);
    let mut i: usize = 0;
    while i < folded.len()
        invariant
            i <= folded.len(),
            folded@ == old(folded)@,
            start == texts(folded@),
            start.no_duplicates(),
            k@ == key@,
            forall|j: int| 0 <= j < i ==> start[j] != key@,
        decreases folded.len() - i,
    {
        if same(&chars_of(folded[i].as_str()), &k) {
            assert(start[i as int] == key@);
            let ghost before = folded@;
            folded.remove(i);
            proof {
                assert(texts(folded@) =~= start.remove(i as int));
                assert(start.contains(key@));
                assert forall|x: Seq<char>| texts(folded@).contains(x) <==> (start.contains(x) && x != key@) by {
                    if texts(folded@).contains(x) {
                        let m = choose|m: int| 0 <= m < texts(folded@).len() && texts(folded@)[m] == x;
                        if m < i {
                            assert(start[m] == x);
                            assert(m != i);
                        } else {
                            assert(start[m + 1] == x);
                            assert(m + 1 != i);
                        }
                    }
                    if start.contains(x) && x != key@ {
                        let m = choose|m: int| 0 <= m < start.len() && start[m] == x;
                        assert(m != i);
                        if m < i {
                            assert(texts(folded@)[m] == x);
                        } else {
                            assert(texts(folded@)[m - 1] == x);
                        }
                    }
                }
                assert(texts(folded@).to_set() =~= start.to_set().remove(key@));
                assert forall|a: int, b: int| 0 <= a < b < texts(folded@).len() implies texts(folded@)[a] != texts(folded@)[b] by {
                    let a2 = if a < i { a } else { a + 1 };
                    let b2 = if b < i { b } else { b + 1 };
                    assert(texts(folded@)[a] == start[a2]);
                    assert(texts(folded@)[b] == start[b2]);
                }
            }
            return;
        }
        i = i + 1;
    }
    proof {
        assert(!start.contains(key@));
    }
    folded.push(key.to_owned());
    proof {
        assert(texts(folded@) =~= start.push(key@));
        start.lemma_push_to_set_commute(key@);
    }
}

/// A section clicked twice is back as it was: folded if it was folded, open if it was open.
pub proof fn lemma_fold_twice(folded: Set<Seq<char>>, key: Seq<char>)
    ensures
        ({
            let once = if folded.contains(key) {
                folded.remove(key)
            } else {
                folded.insert(key)
            };
            let twice = if once.contains(key) {
                once.remove(key)
            } else {
                once.insert(key)
            };
            twice == folded
        }),
{
    if folded.contains(key) {
        assert(folded.remove(key).insert(key) =~= folded);
    } else {
        assert(folded.insert(key).remove(key) =~= folded);
    }
}

/// The launcher line selected after moving `step` lines from `selected`, kept within the
/// `count` lines listed.
pub open spec fn moved_to(selected: int, step: int, count: int) -> int {
    let last = if count > 0 {
        count - 1
    } else {
        0
    };
    let wanted = selected + step;
    if wanted < 0 {
        0
    } else if wanted > last {
        last
    } else {
        wanted
    }
}

/// Moves the launcher's selection by `step` lines among `count`.
pub fn launcher_moved(selected: usize, step: i32, count: usize) -> (wanted: usize)
    requires
        selected <= i32::MAX,
        count <= i32::MAX as int + 1,
        i32::MIN <= selected + step <= i32::MAX,
    ensures
        wanted == moved_to(selected as int, step as int, count as int),
{
    let last: i32 = if count > 0 {
        (count - 1) as i32
    } else {
        0
    };
    let wanted: i32 = selected as i32 + step;
    if wanted < 0 {
        0
    } else if wanted > last {
        last as usize
    } else {
        wanted as usize
    }
}

/// Where a theme stands in the order the launcher lists them.
pub fn theme_position(current: Choice) -> (at: usize)
    ensures
        at < 9,
        Choice::ALL@[at as int] == current,
{
    let all = Choice::ALL;
    let mut i: usize = 0;
    while i < 9
        invariant
            i <= 9,
            all@ == Choice::ALL@,
            forall|j: int| 0 <= j < i ==> all@[j] != current,
        decreases 9 - i,
    {
        if all[i] == current {
            return i;
        }
        i = i + 1;
    }
    match current {
        Choice::System => assert(all@[0] == current),
        Choice::Dark => assert(all@[1] == current),
        Choice::Light => assert(all@[2] == current),
        Choice::Dracula => assert(all@[3] == current),
        Choice::TokyoNight => assert(all@[4] == current),
        Choice::Nord => assert(all@[5] == current),
        Choice::GruvboxDark => assert(all@[6] == current),
        Choice::CatppuccinMocha => assert(all@[7] == current),
        Choice::SolarizedLight => assert(all@[8] == current),
    }
    0
}

/// The paths of the sidebar's entries, in order.
pub open spec fn entry_paths(entries: Seq<Entry>) -> Seq<Seq<char>> {
    entries.map_values(|e: Entry| e.path@)
}

/// Where `path` first stands among `paths`, or -1.
pub open spec fn first_index(paths: Seq<Seq<char>>, path: Seq<char>) -> int {
    if paths.contains(path) {
        choose|i: int|
            0 <= i < paths.len() && paths[i] == path && forall|j: int|
                0 <= j < i ==> paths[j] != path
    } else {
        -1
    }
}

fn position_in(entries: &Vec<Entry>, path: &str) -> (at: Option<usize>)
    ensures
        match at {
            Some(i) => i as int == first_index(entry_paths(entries@), path@) && i < entries.len(),
            None => first_index(entry_paths(entries@), path@) == -1,
        },
{
    let ghost paths = entry_paths(entries@);
    let p = chars_of(path);
    for i in 0..entries.len()
        invariant
            paths == entry_paths(entries@),
            p@ == path@,
            forall|j: int| 0 <= j < i ==> paths[j] != path@,
    {
        if same(&chars_of(entries[i].path.as_str()), &p) {
            proof {
                assert(paths[i as int] == path@);
                assert(paths.contains(path@));
                let c = choose|c: int|
                    0 <= c < paths.len() && paths[c] == path@ && forall|j: int|
                        0 <= j < c ==> paths[j] != path@;
                if c < i {
                    assert(paths[c] != path@);
                }
                if c > i {
                    assert(paths[i as int] != path@);
                }
            }
            return Some(i);
        }
    }
    None
}

/// Carries the entry of one repository to where another stands, the others closing up
/// behind it and parting in front of it; nothing moves when the two are one, or either is
/// not listed. Says whether anything moved.
pub fn carry(entries: &mut Vec<Entry>, carried: &str, over: &str) -> (moved: bool)
    ensures
        ({
            let paths = entry_paths(old(entries)@);
            let from = first_index(paths, carried@);
            let to = first_index(paths, over@);
            if carried@ == over@ || from < 0 || to < 0 {
                !moved && final(entries)@ == old(entries)@
            } else {
                moved && final(entries)@ == old(entries)@.remove(from).insert(
                    to,
                    old(entries)@[from],
                )
            }
        }),
{
    if same(&chars_of(carried), &chars_of(over)) {
        return false;
    }
    let from = match position_in(entries, carried) {
        Some(i) => i,
        None => return false,
    };
    let to = match position_in(entries, over) {
        Some(i) => i,
        None => return false,
    };
    let entry = entries.remove(from);
    entries.insert(to, entry);
    true
}

/// Carrying an entry leaves the same entries listed, only in another order, with the carried
/// one where the other stood.
pub proof fn lemma_carry_rearranges(entries: Seq<Entry>, from: int, to: int)
    requires
        0 <= from < entries.len(),
        0 <= to < entries.len(),
    ensures
        entries.remove(from).insert(to, entries[from]).to_multiset() == entries.to_multiset(),
        entries.remove(from).insert(to, entries[from])[to] == entries[from],
        entries.remove(from).insert(to, entries[from]).len() == entries.len(),
{
    broadcast use vstd::multiset::group_multiset_axioms, vstd::seq_lib::group_to_multiset_ensures;

    let rest = entries.remove(from);
    assert(rest.insert(to, entries[from]).to_multiset() == rest.to_multiset().insert(entries[from]));
    assert(rest.to_multiset() == entries.to_multiset().remove(entries[from]));
    assert(entries.to_multiset().count(entries[from]) > 0) by {
        assert(entries.contains(entries[from]));
    }
    assert(entries.to_multiset().remove(entries[from]).insert(entries[from]) =~= entries.to_multiset());
}

/// The paths of the listed entries that the state file remembers, in the list's order.
pub open spec fn remembered_in(paths: Seq<Seq<char>>, remembered: Seq<Seq<char>>) -> Seq<Seq<char>>
    decreases paths.len(),
{
    if paths.len() == 0 {
        Seq::empty()
    } else if remembered.contains(paths.last()) {
        remembered_in(paths.drop_last(), remembered).push(paths.last())
    } else {
        remembered_in(paths.drop_last(), remembered)
    }
}

/// The order the state file keeps after a drag: only the repositories it owns, in the order
/// the list shows them; one the configuration lists is placed by that file.
pub fn remembered_order(entries: &Vec<Entry>, remembered: &Vec<String>) -> (order: Vec<String>)
    ensures
        texts(order@) == remembered_in(entry_paths(entries@), texts(remembered@)),
{
    let ghost paths = entry_paths(entries@);
    let mut order: Vec<String> = Vec::new();
    for i in 0..entries.len()
        invariant
            paths == entry_paths(entries@),
            texts(order@) == remembered_in(paths.take(i as int), texts(remembered@)),
    {
        proof {
            assert(paths.take(i + 1).drop_last() == paths.take(i as int));
            assert(paths.take(i + 1).last() == entries@[i as int].path@);
        }
        if holds(remembered, &entries[i].path) {
            let ghost before = texts(order@);
            order.push(entries[i].path.clone());
            assert(texts(order@) =~= before.push(entries@[i as int].path@));
        }
    }
    assert(paths.take(entries.len() as int) == paths);
    order
}

/// The repositories a search of the remembered directories turned up that the list does not
/// hold yet, in the order found, each once.
pub open spec fn unlisted(found: Seq<Seq<char>>, known: Seq<Seq<char>>) -> Seq<Seq<char>>
    decreases found.len(),
{
    if found.len() == 0 {
        Seq::empty()
    } else if known.contains(found.last()) {
        unlisted(found.drop_last(), known)
    } else {
        unlisted(found.drop_last(), known).push(found.last())
    }
}

/// What the remembered directories offer: whatever their searches found that is not
/// listed already, each once.
pub fn discovered(found: &Vec<Vec<String>>, entries: &Vec<Entry>) -> (offered: Vec<String>)
    ensures
        texts(offered@) == distinct(
            unlisted(found@.map_values(|f: Vec<String>| texts(f@)).flatten(), entry_paths(entries@)),
        ),
{
    let mut known: Vec<String> = Vec::new();
    for i in 0..entries.len()
        invariant
            texts(known@) == entry_paths(entries@).take(i as int),
    {
        known.push(entries[i].path.clone());
        assert(entry_paths(entries@).take(i + 1) =~= entry_paths(entries@).take(i as int).push(
            entries@[i as int].path@,
        ));
    }
    assert(entry_paths(entries@).take(entries.len() as int) == entry_paths(entries@));
    let ghost lists = found@.map_values(|f: Vec<String>| texts(f@));
    let ghost known_paths = texts(known@);
    let mut all: Vec<String> = Vec::new();
    for i in 0..found.len()
        invariant
            lists == found@.map_values(|f: Vec<String>| texts(f@)),
            known_paths == texts(known@),
            texts(all@) == unlisted(lists.take(i as int).flatten(), known_paths),
    {
        let list = &found[i];
        let ghost start = texts(all@);
        for j in 0..list.len()
            invariant
                known_paths == texts(known@),
                texts(all@) == start + unlisted(texts(list@).take(j as int), known_paths),
        {
            proof {
                assert(texts(list@).take(j + 1).drop_last() == texts(list@).take(j as int));
                assert(texts(list@).take(j + 1).last() == list@[j as int]@);
            }
            if !holds(&known, &list[j]) {
                let ghost before = texts(all@);
                all.push(list[j].clone());
                assert(texts(all@) =~= before.push(list@[j as int]@));
            }
        }
        proof {
            assert(texts(list@).take(list.len() as int) == texts(list@));
            assert(lists.take(i + 1) =~= lists.take(i as int).push(texts(list@)));
            lemma_flatten_push(lists.take(i as int), texts(list@));
            lemma_unlisted_append(lists.take(i as int).flatten(), texts(list@), known_paths);
        }
    }
    assert(lists.take(found.len() as int) == lists);
    let mut offered: Vec<String> = Vec::new();
    let ghost wanted = texts(all@);
    for i in 0..all.len()
        invariant
            wanted == texts(all@),
            texts(offered@) == distinct(wanted.take(i as int)),
    {
        assert(wanted.take(i + 1).drop_last() == wanted.take(i as int));
        assert(wanted.take(i + 1).last() == all@[i as int]@);
        if !holds(&offered, &all[i]) {
            let ghost before = texts(offered@);
            offered.push(all[i].clone());
            assert(texts(offered@) =~= before.push(all@[i as int]@));
        }
    }
    assert(wanted.take(all.len() as int) == wanted);
    offered
}

proof fn lemma_flatten_push(lists: Seq<Seq<Seq<char>>>, last: Seq<Seq<char>>)
    ensures
        lists.push(last).flatten() == lists.flatten() + last,
    decreases lists.len(),
{
    if lists.len() == 0 {
        assert(lists.push(last).drop_first() =~= lists);
        assert(lists.push(last).flatten() == last + lists.flatten());
        assert(Seq::<Seq<Seq<char>>>::empty().flatten() =~= Seq::<Seq<char>>::empty());
        assert(last + Seq::<Seq<char>>::empty() =~= last);
        assert(Seq::<Seq<char>>::empty() + last =~= last);
    } else {
        lemma_flatten_push(lists.drop_first(), last);
        assert(lists.push(last).drop_first() =~= lists.drop_first().push(last));
        assert(lists.push(last)[0] == lists[0]);
        assert(lists.push(last).flatten() == lists[0] + lists.drop_first().push(last).flatten());
        assert(lists[0] + (lists.drop_first().flatten() + last) =~= (lists[0]
            + lists.drop_first().flatten()) + last);
    }
}

proof fn lemma_unlisted_append(a: Seq<Seq<char>>, b: Seq<Seq<char>>, known: Seq<Seq<char>>)
    ensures
        unlisted(a + b, known) == unlisted(a, known) + unlisted(b, known),
    decreases b.len(),
{
    if b.len() == 0 {
        assert(a + b =~= a);
        assert(unlisted(a, known) + unlisted(b, known) =~= unlisted(a, known));
    } else {
        lemma_unlisted_append(a, b.drop_last(), known);
        assert((a + b).drop_last() =~= a + b.drop_last());
        assert((a + b).last() == b.last());
        if known.contains(b.last()) {
        } else {
            assert(unlisted(a, known) + unlisted(b.drop_last(), known).push(b.last()) =~= (
            unlisted(a, known) + unlisted(b.drop_last(), known)).push(b.last()));
        }
    }
}

/// Why a repository cannot be added again: the list holds it already.
pub fn already_listed(entries: &Vec<Entry>, path: &str) -> (error: Option<String>)
    ensures
        match error {
            Some(e) => lists_path(entry_paths(entries@), path@) && e@ == path@ + " is already listed"@,
            None => !lists_path(entry_paths(entries@), path@),
        },
{
    let ghost paths = entry_paths(entries@);
    for i in 0..entries.len()
        invariant
            paths == entry_paths(entries@),
            forall|j: int| 0 <= j < i ==> path_parts(#[trigger] paths[j]) != path_parts(path@),
    {
        if same_path(entries[i].path.as_str(), path) {
            assert(path_parts(paths[i as int]) == path_parts(path@));
            let mut text = chars_of(path);
            append(&mut text, &chars_of(" is already listed"));
            return Some(string_of(&text));
        }
    }
    None
}

/// The path typed into the settings to add a repository, trimmed, or why there is none.
pub fn typed_path(typed: &str) -> (path: Result<String, String>)
    ensures
        match path {
            Ok(p) => trim(typed@).len() > 0 && p@ == trim(typed@),
            Err(e) => trim(typed@).len() == 0 && e@ == "type the path of a repository first"@,
        },
{
    let t = trimmed(&chars_of(typed));
    if t.len() == 0 {
        Err("type the path of a repository first".to_owned())
    } else {
        Ok(string_of(&t))
    }
}

/// The directory typed into the settings to remember, trimmed, or why it cannot be:
/// nothing typed, not a directory (`is_directory` says whether the trimmed path names one),
/// or remembered already.
pub fn directory_added(typed: &str, is_directory: bool, remembered: &Vec<String>) -> (added: Result<String, String>)
    ensures
        match added {
            Ok(p) => p@ == trim(typed@) && p@.len() > 0 && is_directory && !texts(remembered@).contains(p@),
            Err(e) => e@ == if trim(typed@).len() == 0 {
                "type the path of a directory first"@
            } else if !is_directory {
                trim(typed@) + " is not a directory"@
            } else {
                trim(typed@) + " is already remembered"@
            } && (trim(typed@).len() == 0 || !is_directory || texts(remembered@).contains(
                trim(typed@),
            )),
        },
{
    let t = trimmed(&chars_of(typed));
    if t.len() == 0 {
        return Err("type the path of a directory first".to_owned());
    }
    let path = string_of(&t);
    if !is_directory {
        let mut text = t;
        append(&mut text, &chars_of(" is not a directory"));
        return Err(string_of(&text));
    }
    if holds(remembered, &path) {
        let mut text = t;
        append(&mut text, &chars_of(" is already remembered"));
        return Err(string_of(&text));
    }
    Ok(path)
}

/// What is selected once a repository is read again: the commit that was selected, where it
/// stands now; otherwise the working tree when it has changes, or the newest commit.
pub enum Reopen {
    Commit(usize),
    WorkingTree,
}

pub open spec fn commit_ids(commits: Seq<CommitSummary>) -> Seq<Seq<u8>> {
    commits.map_values(|c: CommitSummary| c.id@)
}

/// Where `x` first stands among `items`, or -1.
pub open spec fn first_at<A>(items: Seq<A>, x: A) -> int {
    if items.contains(x) {
        choose|i: int|
            0 <= i < items.len() && items[i] == x && forall|j: int| 0 <= j < i ==> items[j] != x
    } else {
        -1
    }
}

pub fn reopened(previous: Option<&ObjectId>, commits: &Vec<CommitSummary>, dirty: bool) -> (chosen: Reopen)
    ensures
        ({
            let again = match previous {
                Some(id) => first_at(commit_ids(commits@), id@),
                None => -1,
            };
            if again >= 0 {
                chosen matches Reopen::Commit(i) && i as int == again
            } else if dirty {
                chosen == Reopen::WorkingTree
            } else {
                chosen == Reopen::Commit(0)
            }
        }),
{
    let ghost ids = commit_ids(commits@);
    match previous {
        Some(id) => {
            for i in 0..commits.len()
                invariant
                    ids == commit_ids(commits@),
                    previous == Some(id),
                    forall|j: int| 0 <= j < i ==> ids[j] != id@,
            {
                if commits[i].id.same(id) {
                    proof {
                        assert(ids[i as int] == id@);
                        assert(ids.contains(id@));
                        let c = choose|c: int|
                            0 <= c < ids.len() && ids[c] == id@ && forall|j: int|
                                0 <= j < c ==> ids[j] != id@;
                        if c < i {
                            assert(ids[c] != id@);
                        }
                        if c > i {
                            assert(ids[i as int] != id@);
                        }
                    }
                    return Reopen::Commit(i);
                }
            }
            proof {
                if ids.contains(id@) {
                    let m = choose|m: int| 0 <= m < ids.len() && ids[m] == id@;
                    assert(ids[m] != id@);
                }
            }
        },
        None => {},
    }
    if dirty {
        Reopen::WorkingTree
    } else {
        Reopen::Commit(0)
    }
}

/// The name git reads an object by: its hash in lowercase hexadecimal.
pub fn revision(id: &ObjectId) -> (name: String)
    ensures
        name@ == hex_text(id@),
{
    hex(id.bytes.as_slice())
}

/// What a commit's files are diffed from: its parent side, or git's empty tree for a commit
/// with no parent.
pub fn diff_base(from: Option<&ObjectId>) -> (base: String)
    ensures
        base@ == match from {
            Some(id) => hex_text(id@),
            None => EMPTY_TREE@,
        },
{
    match from {
        Some(id) => revision(id),
        None => EMPTY_TREE.to_owned(),
    }
}

/// What a context menu was opened on, and all the menu is decided from.
pub enum Target {
    Commit(ObjectId),
    Reference { kind: LabelKind, name: String, target: ObjectId },
    Repository(String),
}

/// What an item of a context menu does.
pub enum Action {
    /// Puts the text on the clipboard.
    CopyText(String),
    /// Puts the selected commit's whole message on the clipboard.
    CopyMessage,
    OpenRepository(String),
    RemoveRepository(String),
}

/// An action by value.
pub enum ActionView {
    CopyText(Seq<char>),
    CopyMessage,
    OpenRepository(Seq<char>),
    RemoveRepository(Seq<char>),
}

impl View for Action {
    type V = ActionView;

    open spec fn view(&self) -> ActionView {
        match self {
            Action::CopyText(t) => ActionView::CopyText(t@),
            Action::CopyMessage => ActionView::CopyMessage,
            Action::OpenRepository(p) => ActionView::OpenRepository(p@),
            Action::RemoveRepository(p) => ActionView::RemoveRepository(p@),
        }
    }
}

pub open spec fn item_views(items: Seq<(&'static str, Option<Action>)>) -> Seq<(Seq<char>, Option<ActionView>)> {
    items.map_values(
        |item: (&'static str, Option<Action>)|
            (
                item.0@,
                match item.1 {
                    Some(a) => Some(a@),
                    None => None,
                },
            ),
    )
}

/// The items of a context menu, each with what it does; an item that does nothing yet is
/// drawn all the same.
pub open spec fn context_items_of(target: Target) -> Seq<(Seq<char>, Option<ActionView>)> {
    match target {
        Target::Commit(id) => seq![
            ("copy the sha"@, Some(ActionView::CopyText(hex_text(id@)))),
            ("copy the message"@, Some(ActionView::CopyMessage)),
            ("check out"@, None),
            ("revert"@, None),
            ("cherry-pick"@, None),
        ],
        Target::Reference { kind, name, target } => seq![
            ("copy the name"@, Some(ActionView::CopyText(name@))),
            ("copy the sha"@, Some(ActionView::CopyText(hex_text(target@)))),
        ] + match kind {
            LabelKind::Tag => seq![("delete the tag"@, None)],
            LabelKind::Stash => seq![("apply"@, None), ("drop"@, None)],
            _ => seq![
                ("check out"@, None),
                ("merge into the current branch"@, None),
                ("rename"@, None),
                ("delete"@, None),
            ],
        },
        Target::Repository(path) => seq![
            ("open"@, Some(ActionView::OpenRepository(path@))),
            ("copy the path"@, Some(ActionView::CopyText(path@))),
            ("remove from the list"@, Some(ActionView::RemoveRepository(path@))),
        ],
    }
}

pub fn context_items(target: &Target) -> (items: Vec<(&'static str, Option<Action>)>)
    ensures
        item_views(items@) == context_items_of(*target),
{
    let mut items: Vec<(&'static str, Option<Action>)> = Vec::new();
    match target {
        Target::Commit(id) => {
            items.push(("copy the sha", Some(Action::CopyText(revision(id)))));
            items.push(("copy the message", Some(Action::CopyMessage)));
            items.push(("check out", None));
            items.push(("revert", None));
            items.push(("cherry-pick", None));
        },
        Target::Reference { kind, name, target } => {
            items.push(("copy the name", Some(Action::CopyText(name.clone()))));
            items.push(("copy the sha", Some(Action::CopyText(revision(target)))));
            match kind {
                LabelKind::Tag => {
                    items.push(("delete the tag", None));
                },
                LabelKind::Stash => {
                    items.push(("apply", None));
                    items.push(("drop", None));
                },
                _ => {
                    items.push(("check out", None));
                    items.push(("merge into the current branch", None));
                    items.push(("rename", None));
                    items.push(("delete", None));
                },
            }
        },
        Target::Repository(path) => {
            items.push(("open", Some(Action::OpenRepository(path.clone()))));
            items.push(("copy the path", Some(Action::CopyText(path.clone()))));
            items.push(("remove from the list", Some(Action::RemoveRepository(path.clone()))));
        },
    }
    assert(item_views(items@) =~= context_items_of(*target));
    items
}

/// At most this many completions are offered: enough to pick from without the list becoming
/// the page.
pub const COMPLETIONS_SHOWN: usize = 8;

/// Whether a directory entry can complete a typed name that starts `prefix` (already in
/// lower case): a directory whose lowercased name starts with it, and not a hidden one
/// unless a dot was typed.
pub open spec fn completes(entry: (String, bool), prefix: Seq<char>) -> bool {
    let name = unicode_lowercase(entry.0@);
    entry.1 && prefix.is_prefix_of(name) && (!"."@.is_prefix_of(name) || "."@.is_prefix_of(prefix))
}

/// The names of the entries that complete `prefix`, in the listing's order.
pub open spec fn completing(entries: Seq<(String, bool)>, prefix: Seq<char>) -> Seq<Seq<char>>
    decreases entries.len(),
{
    if entries.len() == 0 {
        Seq::empty()
    } else if completes(entries.last(), prefix) {
        completing(entries.drop_last(), prefix).push(entries.last().0@)
    } else {
        completing(entries.drop_last(), prefix)
    }
}

/// The directories a half-typed path could still become: of the entries of `directory`
/// (each a name and whether it is a directory), those that complete the typed name
/// `typed_name`, compared in lower case, in the order of their names, no more than
/// [`COMPLETIONS_SHOWN`] of them, each as a path.
pub open spec fn completions_spec(directory: Seq<char>, typed_name: Seq<char>, entries: Seq<(String, bool)>) -> Seq<Seq<char>> {
    let sorted = in_text_order(completing(entries, unicode_lowercase(typed_name)));
    let kept = if sorted.len() > COMPLETIONS_SHOWN {
        sorted.take(COMPLETIONS_SHOWN as int)
    } else {
        sorted
    };
    kept.map_values(|name: Seq<char>| path_join(directory, name))
}

pub fn completions_of(directory: &str, typed_name: &str, entries: Vec<(String, bool)>) -> (found: Vec<String>)
    ensures
        texts(found@) == completions_spec(directory@, typed_name@, entries@),
{
    let prefix = chars_of(to_lowercase(typed_name).as_str());
    let dot = chars_of(".");
    let dotted = starts_with(&prefix, &dot);
    let mut names: Vec<String> = Vec::new();
    for i in 0..entries.len()
        invariant
            prefix@ == unicode_lowercase(typed_name@),
            dot@ == "."@,
            dotted == "."@.is_prefix_of(prefix@),
            texts(names@) == completing(entries@.take(i as int), prefix@),
    {
        proof {
            assert(entries@.take(i + 1).drop_last() == entries@.take(i as int));
            assert(entries@.take(i + 1).last() == entries@[i as int]);
        }
        let lower = chars_of(to_lowercase(entries[i].0.as_str()).as_str());
        if entries[i].1 && starts_with(&lower, &prefix) && (!starts_with(&lower, &dot) || dotted) {
            let ghost before = texts(names@);
            names.push(entries[i].0.clone());
            assert(texts(names@) =~= before.push(entries@[i as int].0@));
        }
    }
    assert(entries@.take(entries.len() as int) == entries@);
    let sorted = sort_texts(names);
    let ghost order = texts(sorted@);
    let count = if sorted.len() > COMPLETIONS_SHOWN {
        COMPLETIONS_SHOWN
    } else {
        sorted.len()
    };
    let ghost kept = if order.len() > COMPLETIONS_SHOWN {
        order.take(COMPLETIONS_SHOWN as int)
    } else {
        order
    };
    assert(kept.len() == count);
    let mut found: Vec<String> = Vec::new();
    for i in 0..count
        invariant
            count <= sorted.len(),
            order == texts(sorted@),
            kept.len() == count,
            forall|k: int| 0 <= k < count ==> kept[k] == order[k],
            texts(found@) == kept.take(i as int).map_values(
                |name: Seq<char>| path_join(directory@, name),
            ),
    {
        let ghost before = texts(found@);
        let path = join(directory, sorted[i].as_str());
        assert(order[i as int] == sorted@[i as int]@);
        assert(kept[i as int] == order[i as int]);
        assert(path@ == path_join(directory@, kept[i as int]));
        found.push(path);
        proof {
            assert(texts(found@) =~= before.push(path_join(directory@, kept[i as int])));
            assert(kept.take(i + 1) =~= kept.take(i as int).push(kept[i as int]));
            assert(texts(found@) =~= kept.take(i + 1).map_values(
                |name: Seq<char>| path_join(directory@, name),
            ));
        }
    }
    assert(kept.take(count as int) == kept);
    found
}

/// The icon files that git is not told to ignore, in the order found: a checked-in logo is
/// the project's, a built one is a copy.
pub open spec fn not_ignored(found: Seq<Seq<char>>, ignored: Seq<Seq<char>>) -> Seq<Seq<char>>
    decreases found.len(),
{
    if found.len() == 0 {
        Seq::empty()
    } else if ignored.contains(found.last()) {
        not_ignored(found.drop_last(), ignored)
    } else {
        not_ignored(found.drop_last(), ignored).push(found.last())
    }
}

/// The icons a repository offers: those found, without those git ignores.
pub fn unignored(found: Vec<String>, ignored: &Vec<String>) -> (kept: Vec<String>)
    ensures
        texts(kept@) == not_ignored(texts(found@), texts(ignored@)),
{
    let ghost all = texts(found@);
    let mut kept: Vec<String> = Vec::new();
    for i in 0..found.len()
        invariant
            all == texts(found@),
            texts(kept@) == not_ignored(all.take(i as int), texts(ignored@)),
    {
        assert(all.take(i + 1).drop_last() == all.take(i as int));
        assert(all.take(i + 1).last() == found@[i as int]@);
        if !holds(ignored, &found[i]) {
            let ghost before = texts(kept@);
            kept.push(found[i].clone());
            assert(texts(kept@) =~= before.push(found@[i as int]@));
        }
    }
    assert(all.take(found.len() as int) == all);
    kept
}

/// The paths other than `path`, in order.
pub open spec fn without(paths: Seq<Seq<char>>, path: Seq<char>) -> Seq<Seq<char>>
    decreases paths.len(),
{
    if paths.len() == 0 {
        Seq::empty()
    } else if path_parts(paths.last()) == path_parts(path) {
        without(paths.drop_last(), path)
    } else {
        without(paths.drop_last(), path).push(paths.last())
    }
}

/// The entries whose path is not `path`, in order.
pub open spec fn entries_without(entries: Seq<Entry>, path: Seq<char>) -> Seq<Entry>
    decreases entries.len(),
{
    if entries.len() == 0 {
        Seq::empty()
    } else if path_parts(entries.last().path@) == path_parts(path) {
        entries_without(entries.drop_last(), path)
    } else {
        entries_without(entries.drop_last(), path).push(entries.last())
    }
}

/// Drops every copy of `path` from a list of paths, keeping the rest in order.
pub fn drop_path(paths: &mut Vec<String>, path: &str)
    ensures
        texts(final(paths)@) == without(texts(old(paths)@), path@),
{
    let ghost all = texts(paths@);
    let mut kept: Vec<String> = Vec::new();
    for i in 0..paths.len()
        invariant
            all == texts(paths@),
            texts(kept@) == without(all.take(i as int), path@),
    {
        assert(all.take(i + 1).drop_last() == all.take(i as int));
        assert(all.take(i + 1).last() == paths@[i as int]@);
        if !same_path(paths[i].as_str(), path) {
            let ghost before = texts(kept@);
            kept.push(paths[i].clone());
            assert(texts(kept@) =~= before.push(paths@[i as int]@));
        }
    }
    assert(all.take(paths.len() as int) == all);
    *paths = kept;
}

/// Takes a repository off the list and out of the state file: its entry, its remembered
/// path, its icon, and the note that it was the last one opened. A repository the
/// configuration lists comes back on the next start.
pub fn forget_repository(
    entries: &mut Vec<Entry>,
    paths: &mut Vec<String>,
    icons: &mut Vec<Icon>,
    last_opened: &mut Option<String>,
    path: &str,
)
    ensures
        final(entries)@ == entries_without(old(entries)@, path@),
        texts(final(paths)@) == without(texts(old(paths)@), path@),
        icon_views(final(icons)@) == other_icons(icon_views(old(icons)@), path@),
        match *old(last_opened) {
            Some(l) => if path_parts(l@) == path_parts(path@) {
                *final(last_opened) is None
            } else {
                *final(last_opened) == Some(l)
            },
            None => *final(last_opened) is None,
        },
{
    drop_path(paths, path);
    let ghost start_icons = icon_views(icons@);
    let mut kept_icons: Vec<Icon> = Vec::new();
    let mut rest: Vec<Icon> = Vec::new();
    std::mem::swap(&mut rest, icons);
    let mut taken: usize = 0;
    let count = rest.len();
    while rest.len() > 0
        invariant
            start_icons.len() == count,
            taken <= count,
            icon_views(rest@) == start_icons.skip(taken as int),
            icon_views(kept_icons@) == other_icons(start_icons.take(taken as int), path@),
        decreases rest.len(),
    {
        let ghost before_rest = rest@;
        assert(icon_views(before_rest).len() == start_icons.len() - taken);
        let icon = rest.remove(0);
        proof {
            assert(icon_views(before_rest)[0] == start_icons[taken as int]);
            assert(icon_views(rest@) =~= icon_views(before_rest).drop_first());
            assert(icon_views(rest@) =~= start_icons.skip(taken + 1));
            assert(start_icons.take(taken + 1).drop_last() == start_icons.take(taken as int));
            assert(start_icons.take(taken + 1).last() == (icon.repository@, icon.file@));
        }
        if !same_path(icon.repository.as_str(), path) {
            let ghost before = icon_views(kept_icons@);
            kept_icons.push(icon);
            assert(icon_views(kept_icons@) =~= before.push(icon_views(kept_icons@).last()));
        }
        taken = taken + 1;
    }
    assert(start_icons.take(taken as int) == start_icons);
    *icons = kept_icons;
    let forget = match last_opened {
        Some(l) => same_path(l.as_str(), path),
        None => false,
    };
    if forget {
        *last_opened = None;
    }
    let ghost start_entries = entries@;
    let mut kept: Vec<Entry> = Vec::new();
    let mut others: Vec<Entry> = Vec::new();
    std::mem::swap(&mut others, entries);
    let mut done: usize = 0;
    let total = others.len();
    while others.len() > 0
        invariant
            start_entries.len() == total,
            done <= total,
            others@ == start_entries.skip(done as int),
            kept@ == entries_without(start_entries.take(done as int), path@),
        decreases others.len(),
    {
        let ghost before_others = others@;
        assert(before_others.len() == total - done);
        let entry = others.remove(0);
        proof {
            assert(before_others[0] == start_entries[done as int]);
            assert(others@ =~= start_entries.skip(done + 1));
            assert(start_entries.take(done + 1).drop_last() == start_entries.take(done as int));
            assert(start_entries.take(done + 1).last() == entry);
        }
        if !same_path(entry.path.as_str(), path) {
            kept.push(entry);
        }
        done = done + 1;
    }
    assert(start_entries.take(done as int) == start_entries);
    *entries = kept;
}

/// A list without `path` holds nothing that is the same path as it, and holds every other
/// path it held.
pub proof fn lemma_without(paths: Seq<Seq<char>>, path: Seq<char>, other: Seq<char>)
    requires
        path_parts(other) != path_parts(path),
    ensures
        !lists_path(without(paths, path), path),
        lists_path(without(paths, path), other) == lists_path(paths, other),
    decreases paths.len(),
{
    if paths.len() > 0 {
        let rest = paths.drop_last();
        lemma_without(rest, path, other);
        assert(paths =~= rest.push(paths.last()));
        lemma_lists_push(rest, paths.last(), other);
        if path_parts(paths.last()) != path_parts(path) {
            lemma_lists_push(without(rest, path), paths.last(), other);
            lemma_lists_push(without(rest, path), paths.last(), path);
        }
    }
}

/// Whether a list holds the same path as `x`, once one more path is pushed onto it.
proof fn lemma_lists_push(s: Seq<Seq<char>>, last: Seq<char>, x: Seq<char>)
    ensures
        lists_path(s.push(last), x) == (lists_path(s, x) || path_parts(last) == path_parts(x)),
{
    if lists_path(s, x) {
        let k = choose|k: int| 0 <= k < s.len() && path_parts(#[trigger] s[k]) == path_parts(x);
        assert(s.push(last)[k] == s[k]);
    }
    if lists_path(s.push(last), x) {
        let k = choose|k: int| 0 <= k < s.push(last).len() && path_parts(#[trigger] s.push(last)[k])
            == path_parts(x);
        if k < s.len() {
            assert(s.push(last)[k] == s[k]);
        }
    }
    if path_parts(last) == path_parts(x) {
        assert(s.push(last)[s.len() as int] == last);
    }
}

proof fn lemma_entries_without_paths(entries: Seq<Entry>, path: Seq<char>)
    ensures
        entry_paths(entries_without(entries, path)) == without(entry_paths(entries), path),
    decreases entries.len(),
{
    if entries.len() == 0 {
        assert(entry_paths(entries_without(entries, path)) =~= without(entry_paths(entries), path));
    } else {
        lemma_entries_without_paths(entries.drop_last(), path);
        assert(entry_paths(entries).drop_last() =~= entry_paths(entries.drop_last()));
        if path_parts(entries.last().path@) != path_parts(path) {
            assert(entry_paths(entries_without(entries.drop_last(), path).push(entries.last()))
                =~= entry_paths(entries_without(entries.drop_last(), path)).push(
                entries.last().path@,
            ));
        }
    }
}

/// A forgotten repository is gone from the list and from the remembered paths, however it
/// is spelled there, and every other repository is listed and remembered just as before.
pub proof fn lemma_forgotten(entries: Seq<Entry>, paths: Seq<Seq<char>>, path: Seq<char>, other: Seq<char>)
    requires
        path_parts(other) != path_parts(path),
    ensures
        !lists_path(entry_paths(entries_without(entries, path)), path),
        !lists_path(without(paths, path), path),
        lists_path(entry_paths(entries_without(entries, path)), other) == lists_path(
            entry_paths(entries),
            other,
        ),
        lists_path(without(paths, path), other) == lists_path(paths, other),
{
    lemma_entries_without_paths(entries, path);
    lemma_without(entry_paths(entries), path, other);
    lemma_without(paths, path, other);
}

/// Where a picked icon file is remembered: relative to the repository when it is inside it,
/// so the icon survives the checkout being moved; as picked anywhere else.
pub open spec fn stored_icon_of(file: Seq<char>, repository: Seq<char>) -> Seq<char> {
    let root = if repository.len() > 1 && repository.last() == '/' {
        repository.drop_last()
    } else {
        repository
    };
    if file == root {
        Seq::empty()
    } else {
        match without_prefix(file, root + "/"@) {
            Some(rest) => rest,
            None => file,
        }
    }
}

pub fn stored_icon(file: &str, repository: &str) -> (stored: String)
    ensures
        stored@ == stored_icon_of(file@, repository@),
{
    let mut root = chars_of(repository);
    if root.len() > 1 && root[root.len() - 1] == '/' {
        root.pop();
    }
    let whole = chars_of(file);
    if same(&whole, &root) {
        return String::new();
    }
    let mut inside = root;
    inside.push('/');
    proof {
        reveal_strlit("/");
    }
    match crate::text::strip_prefix(&whole, &inside) {
        Some(rest) => string_of(&rest),
        None => file.to_owned(),
    }
}

} // verus!
