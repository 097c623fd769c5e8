//! The launcher: a typed query over the repositories and commands, which steps into a list
//! of its own when a command that has one is chosen.
use crate::text::{
    chars_of, contains, contains_text, split, split_at_char, string_of, to_lowercase, trim, trimmed,
    unicode_lowercase,
};
use crate::ui::theme::{label_text, Choice};
use crate::ui::Entry;
use vstd::prelude::*;

verus! {

/// What the launcher lists.
#[derive(PartialEq, Eq, Structural, Clone, Copy, Debug)]
pub enum Mode {
    Repositories,
    /// The theme in force when the list was opened, to go back to if it is closed without
    /// settling on one.
    Themes(Choice),
}

/// A repository the launcher offers: one already listed, or one found under a remembered
/// directory and never added.
pub enum Find {
    Listed { name: String, path: String },
    Found(String),
}

/// One line of the launcher.
pub enum Row {
    Repository(Find),
    Theme(Choice),
    ChangeTheme,
}

/// The last of some path components that is one: empty pieces and `.` are not.
pub open spec fn last_component(pieces: Seq<Seq<char>>) -> Option<Seq<char>>
    decreases pieces.len(),
{
    if pieces.len() == 0 {
        None
    } else if pieces.last().len() > 0 && pieces.last() != "."@ {
        Some(pieces.last())
    } else {
        last_component(pieces.drop_last())
    }
}

/// The name a path ends in, as `Path::file_name` reads it: its last component, none when it
/// has none or the last is `..`.
pub open spec fn file_name(path: Seq<char>) -> Option<Seq<char>> {
    match last_component(split(path, '/')) {
        Some(name) => if name == ".."@ {
            None
        } else {
            Some(name)
        },
        None => None,
    }
}

/// How a repository found on disk is named: its directory's name, or the whole path when it
/// has none.
pub open spec fn name_of_path(path: Seq<char>) -> Seq<char> {
    match file_name(path) {
        Some(name) => name,
        None => path,
    }
}

/// The name of the directory a path ends in, or the whole path when it has none.
pub fn name_of(path: &str) -> (name: String)
    ensures
        name@ == name_of_path(path@),
{
    let pieces = split_at_char(&chars_of(path), '/');
    let ghost all = pieces@.map_values(|p: Vec<char>| p@);
    assert(all == split(path@, '/'));
    let dot = chars_of(".");
    let mut i = pieces.len();
    assert(all.take(i as int) == all);
    while i > 0
        invariant
            i <= pieces.len(),
            all == pieces@.map_values(|p: Vec<char>| p@),
            all == split(path@, '/'),
            dot@ == "."@,
            last_component(all) == last_component(all.take(i as int)),
        decreases i,
    {
        assert(all.take(i as int).drop_last() == all.take(i - 1));
        assert(all.take(i as int).last() == pieces@[i - 1]@);
        if pieces[i - 1].len() > 0 && !crate::text::same(&pieces[i - 1], &dot) {
            assert(last_component(all.take(i as int)) == Some(pieces@[i - 1]@));
            if crate::text::same(&pieces[i - 1], &chars_of("..")) {
                return path.to_owned();
            }
            return string_of(&pieces[i - 1]);
        }
        i = i - 1;
    }
    path.to_owned()
}

impl Find {
    pub open spec fn path_view(&self) -> Seq<char> {
        match self {
            Find::Listed { path, .. } => path@,
            Find::Found(path) => path@,
        }
    }

    pub open spec fn name_view(&self) -> Seq<char> {
        match self {
            Find::Listed { name, .. } => name@,
            Find::Found(path) => name_of_path(path@),
        }
    }

    /// Where the repository is.
    pub fn path(&self) -> (path: &str)
        ensures
            path@ == self.path_view(),
    {
        match self {
            Find::Listed { path, .. } => path.as_str(),
            Find::Found(path) => path.as_str(),
        }
    }

    /// What the repository is called.
    pub fn name(&self) -> (name: String)
        ensures
            name@ == self.name_view(),
    {
        match self {
            Find::Listed { name, .. } => name.clone(),
            Find::Found(path) => name_of(path.as_str()),
        }
    }
}

impl Row {
    pub open spec fn name_view(&self) -> Seq<char> {
        match self {
            Row::Repository(find) => find.name_view(),
            Row::Theme(choice) => label_text(*choice),
            Row::ChangeTheme => "change theme"@,
        }
    }

    pub open spec fn note_view(&self) -> Seq<char> {
        match self {
            Row::Repository(find) => find.path_view(),
            Row::Theme(_) => Seq::empty(),
            Row::ChangeTheme => "pick a theme, previewed as you move"@,
        }
    }

    /// The line's name.
    pub fn name(&self) -> (name: String)
        ensures
            name@ == self.name_view(),
    {
        match self {
            Row::Repository(find) => find.name(),
            Row::Theme(choice) => choice.label().to_owned(),
            Row::ChangeTheme => "change theme".to_owned(),
        }
    }

    /// The smaller line under the name.
    pub fn note(&self) -> (note: String)
        ensures
            note@ == self.note_view(),
    {
        match self {
            Row::Repository(find) => find.path().to_owned(),
            Row::Theme(_) => String::new(),
            Row::ChangeTheme => "pick a theme, previewed as you move".to_owned(),
        }
    }
}

/// The launcher's query, the line it has selected, and what it lists.
pub struct Launcher {
    pub query: String,
    pub selected: usize,
    pub mode: Mode,
}

impl Default for Launcher {
    /// An empty query over the repositories, on its first line.
    fn default() -> (launcher: Launcher)
        ensures
            launcher.query@.len() == 0,
            launcher.selected == 0,
            launcher.mode == Mode::Repositories,
    {
        Launcher { query: String::new(), selected: 0, mode: Mode::Repositories }
    }
}

impl Launcher {
    /// A new query: the selection goes back to the first line.
    pub fn typed(&mut self, query: String)
        ensures
            final(self).query@ == query@,
            final(self).selected == 0,
            final(self).mode == old(self).mode,
    {
        self.query = query;
        self.selected = 0;
    }

    /// Steps into the list of themes, the one worn now selected and to go back to, and the
    /// query cleared.
    pub fn change_theme(&mut self, current: Choice)
        ensures
            final(self).mode == Mode::Themes(current),
            final(self).query@.len() == 0,
            final(self).selected < 9,
            Choice::ALL@[final(self).selected as int] == current,
    {
        self.mode = Mode::Themes(current);
        self.query = String::new();
        self.selected = crate::ui::session::theme_position(current);
    }
}

/// The theme to put back when the launcher closes without settling on one: the one worn
/// when its list of themes was opened.
pub fn theme_to_restore(launcher: &Option<Launcher>) -> (previous: Option<Choice>)
    ensures
        previous == match launcher {
            Some(l) => match l.mode {
                Mode::Themes(p) => Some(p),
                Mode::Repositories => None,
            },
            None => None,
        },
{
    match launcher {
        Some(l) => match l.mode {
            Mode::Themes(p) => Some(p),
            Mode::Repositories => None,
        },
        None => None,
    }
}

/// Whether a line matches a query: its name or its note holds the query, both compared in
/// lower case.
pub open spec fn row_matches(row: Row, query: Seq<char>) -> bool {
    contains_text(unicode_lowercase(row.name_view()), query) || contains_text(
        unicode_lowercase(row.note_view()),
        query,
    )
}

/// Whether a line's name holds the query.
pub open spec fn name_matches(row: Row, query: Seq<char>) -> bool {
    contains_text(unicode_lowercase(row.name_view()), query)
}

/// The lines whose name holds the query, in order.
pub open spec fn by_name(rows: Seq<Row>, query: Seq<char>) -> Seq<Row>
    decreases rows.len(),
{
    if rows.len() == 0 {
        Seq::empty()
    } else if name_matches(rows.last(), query) {
        by_name(rows.drop_last(), query).push(rows.last())
    } else {
        by_name(rows.drop_last(), query)
    }
}

/// The lines whose note holds the query and whose name does not, in order.
pub open spec fn by_note_only(rows: Seq<Row>, query: Seq<char>) -> Seq<Row>
    decreases rows.len(),
{
    if rows.len() == 0 {
        Seq::empty()
    } else if row_matches(rows.last(), query) && !name_matches(rows.last(), query) {
        by_note_only(rows.drop_last(), query).push(rows.last())
    } else {
        by_note_only(rows.drop_last(), query)
    }
}

/// The lines that match a query, those whose name matches first, each group in the order
/// listed: a name is what people type. An empty query keeps every line as listed.
pub open spec fn matching(rows: Seq<Row>, query: Seq<char>) -> Seq<Row> {
    let q = unicode_lowercase(trim(query));
    if q.len() == 0 {
        rows
    } else {
        by_name(rows, q) + by_note_only(rows, q)
    }
}

proof fn lemma_by_name_keeps(rows: Seq<Row>, q: Seq<char>, k: int)
    requires
        0 <= k < rows.len(),
        name_matches(rows[k], q),
    ensures
        by_name(rows, q).contains(rows[k]),
    decreases rows.len(),
{
    if k < rows.len() - 1 {
        lemma_by_name_keeps(rows.drop_last(), q, k);
        let kept = by_name(rows.drop_last(), q);
        let j = choose|j: int| 0 <= j < kept.len() && kept[j] == rows.drop_last()[k];
        if name_matches(rows.last(), q) {
            assert(kept.push(rows.last())[j] == rows[k]);
        }
    } else {
        let kept = by_name(rows.drop_last(), q);
        assert(kept.push(rows.last())[kept.len() as int] == rows[k]);
    }
}

proof fn lemma_by_name_only_matches(rows: Seq<Row>, q: Seq<char>)
    ensures
        forall|i: int| 0 <= i < by_name(rows, q).len() ==> name_matches(#[trigger] by_name(rows, q)[i], q),
    decreases rows.len(),
{
    if rows.len() > 0 {
        lemma_by_name_only_matches(rows.drop_last(), q);
        let kept = by_name(rows.drop_last(), q);
        if name_matches(rows.last(), q) {
            assert forall|i: int| 0 <= i < kept.push(rows.last()).len() implies name_matches(
                #[trigger] kept.push(rows.last())[i],
                q,
            ) by {
                if i < kept.len() {
                    assert(kept.push(rows.last())[i] == kept[i]);
                }
            }
        }
    }
}

proof fn lemma_by_note_only_matches(rows: Seq<Row>, q: Seq<char>)
    ensures
        forall|i: int|
            0 <= i < by_note_only(rows, q).len() ==> row_matches(#[trigger] by_note_only(rows, q)[i], q)
                && !name_matches(by_note_only(rows, q)[i], q),
    decreases rows.len(),
{
    if rows.len() > 0 {
        lemma_by_note_only_matches(rows.drop_last(), q);
        let kept = by_note_only(rows.drop_last(), q);
        if row_matches(rows.last(), q) && !name_matches(rows.last(), q) {
            assert forall|i: int| 0 <= i < kept.push(rows.last()).len() implies row_matches(
                #[trigger] kept.push(rows.last())[i],
                q,
            ) && !name_matches(kept.push(rows.last())[i], q) by {
                if i < kept.len() {
                    assert(kept.push(rows.last())[i] == kept[i]);
                }
            }
        }
    }
}

/// The query is compared in lower case, and trimmed: a line whose lowercased name holds the
/// trimmed, lowercased query is found, among the lines found by name that come first; and
/// every line found holds it in its lowercased name or note, those found by name first.
pub proof fn lemma_matching_ignores_case(rows: Seq<Row>, query: Seq<char>, k: int)
    requires
        0 <= k < rows.len(),
        contains_text(unicode_lowercase(rows[k].name_view()), unicode_lowercase(trim(query))),
    ensures
        matching(rows, query).contains(rows[k]),
        unicode_lowercase(trim(query)).len() > 0 ==> {
            let q = unicode_lowercase(trim(query));
            let found = matching(rows, query);
            let named = by_name(rows, q).len();
            &&& by_name(rows, q).contains(rows[k])
            &&& forall|i: int| 0 <= i < named ==> name_matches(#[trigger] found[i], q)
            &&& forall|i: int|
                named <= i < found.len() ==> row_matches(#[trigger] found[i], q) && !name_matches(
                    found[i],
                    q,
                )
        },
{
    let q = unicode_lowercase(trim(query));
    if q.len() == 0 {
        assert(matching(rows, query)[k] == rows[k]);
    } else {
        lemma_by_name_keeps(rows, q, k);
        lemma_by_name_only_matches(rows, q);
        lemma_by_note_only_matches(rows, q);
        let first = by_name(rows, q);
        let second = by_note_only(rows, q);
        let j = choose|j: int| 0 <= j < first.len() && first[j] == rows[k];
        assert((first + second)[j] == rows[k]);
        assert forall|i: int| 0 <= i < first.len() implies name_matches(
            #[trigger] (first + second)[i],
            q,
        ) by {
            assert((first + second)[i] == first[i]);
        }
        assert forall|i: int| first.len() <= i < (first + second).len() implies row_matches(
            #[trigger] (first + second)[i],
            q,
        ) && !name_matches((first + second)[i], q) by {
            assert((first + second)[i] == second[i - first.len()]);
        }
    }
}

/// The lines a mode lists: the themes in their order, or the listed repositories, then
/// those found and never added, then the command that changes the theme.
pub fn listed(mode: Mode, entries: &Vec<Entry>, discovered: &Vec<String>) -> (rows: Vec<Row>)
    ensures
        match mode {
            Mode::Themes(_) => rows@.len() == 9 && forall|i: int|
                0 <= i < 9 ==> rows@[i] == Row::Theme(Choice::ALL@[i]),
            Mode::Repositories => {
                &&& rows@.len() == entries@.len() + discovered@.len() + 1
                &&& forall|i: int|
                    0 <= i < entries@.len() ==> (#[trigger] rows@[i] matches Row::Repository(
                        Find::Listed { name, path },
                    ) && name@ == entries@[i].name@ && path@ == entries@[i].path@)
                &&& forall|i: int|
                    0 <= i < discovered@.len() ==> (#[trigger] rows@[entries@.len() + i] matches Row::Repository(
                        Find::Found(path),
                    ) && path@ == discovered@[i]@)
                &&& rows@.last() == Row::ChangeTheme
            },
        },
{
    let mut rows: Vec<Row> = Vec::new();
    match mode {
        Mode::Themes(_) => {
            let all = Choice::ALL;
            for i in 0..9usize
                invariant
                    all@ == Choice::ALL@,
                    rows@.len() == i,
                    forall|k: int| 0 <= k < i ==> rows@[k] == Row::Theme(Choice::ALL@[k]),
            {
                rows.push(Row::Theme(all[i]));
            }
        },
        Mode::Repositories => {
            for i in 0..entries.len()
                invariant
                    rows@.len() == i,
                    forall|k: int|
                        0 <= k < i ==> (#[trigger] rows@[k] matches Row::Repository(
                            Find::Listed { name, path },
                        ) && name@ == entries@[k].name@ && path@ == entries@[k].path@),
            {
                rows.push(
                    Row::Repository(
                        Find::Listed { name: entries[i].name.clone(), path: entries[i].path.clone() },
                    ),
                );
            }
            for i in 0..discovered.len()
                invariant
                    rows@.len() == entries@.len() + i,
                    forall|k: int|
                        0 <= k < entries@.len() ==> (#[trigger] rows@[k] matches Row::Repository(
                            Find::Listed { name, path },
                        ) && name@ == entries@[k].name@ && path@ == entries@[k].path@),
                    forall|k: int|
                        0 <= k < i ==> (#[trigger] rows@[entries@.len() + k] matches Row::Repository(
                            Find::Found(path),
                        ) && path@ == discovered@[k]@),
            {
                rows.push(Row::Repository(Find::Found(discovered[i].clone())));
            }
            rows.push(Row::ChangeTheme);
        },
    }
    rows
}

fn lowered(text: &String) -> (lower: Vec<char>)
    ensures
        lower@ == unicode_lowercase(text@),
{
    chars_of(to_lowercase(text.as_str()).as_str())
}

/// The lines that match the launcher's query, those whose name matches first.
pub fn matches(rows: Vec<Row>, query: &str) -> (found: Vec<Row>)
    ensures
        found@ == matching(rows@, query@),
{
    let q = chars_of(to_lowercase(string_of(&trimmed(&chars_of(query))).as_str()).as_str());
    if q.len() == 0 {
        return rows;
    }
    let ghost all = rows@;
    let count = rows.len();
    assert(all.len() == count);
    let mut first: Vec<Row> = Vec::new();
    let mut second: Vec<Row> = Vec::new();
    let mut rest = rows;
    let mut taken: usize = 0;
    while rest.len() > 0
        invariant
            taken <= all.len(),
            all.len() <= usize::MAX,
            rest@ == all.skip(taken as int),
            first@ == by_name(all.take(taken as int), q@),
            second@ == by_note_only(all.take(taken as int), q@),
        decreases rest.len(),
    {
        assert(taken < all.len());
        let row = rest.remove(0);
        proof {
            assert(all.skip(taken as int)[0] == all[taken as int]);
            assert(all.take(taken + 1).drop_last() == all.take(taken as int));
            assert(all.take(taken + 1).last() == row);
            assert(rest@ == all.skip(taken + 1));
        }
        let in_name = contains(&lowered(&row.name()), &q);
        let in_note = contains(&lowered(&row.note()), &q);
        if in_name {
            first.push(row);
        } else if in_note {
            second.push(row);
        }
        taken = taken + 1;
    }
    assert(all.take(taken as int) == all);
    first.append(&mut second);
    first
}

/// What choosing a line of the launcher does.
pub enum Chosen {
    /// Opens the repository at this path, listing it first when it was only found.
    Repository(String),
    /// Wears the theme and settles on it.
    Theme(Choice),
    /// Steps into the list of themes.
    ChangeTheme,
}

/// What choosing line `index` of the lines shown does; nothing past the last line.
pub fn chosen(rows: Vec<Row>, index: usize) -> (choice: Option<Chosen>)
    ensures
        match choice {
            Some(Chosen::Repository(path)) => index < rows@.len() && rows@[index as int] is Repository
                && path@ == rows@[index as int].note_view(),
            Some(Chosen::Theme(t)) => index < rows@.len() && rows@[index as int] == Row::Theme(t),
            Some(Chosen::ChangeTheme) => index < rows@.len() && rows@[index as int] == Row::ChangeTheme,
            None => index >= rows@.len(),
        },
{
    if index >= rows.len() {
        return None;
    }
    match &rows[index] {
        Row::Repository(find) => Some(Chosen::Repository(find.path().to_owned())),
        Row::Theme(choice) => Some(Chosen::Theme(*choice)),
        Row::ChangeTheme => Some(Chosen::ChangeTheme),
    }
}

/// The theme a line previews as the selection moves onto it, if it is one.
pub fn preview(rows: &Vec<Row>, at: usize) -> (theme: Option<Choice>)
    ensures
        theme == if at < rows@.len() {
            match rows@[at as int] {
                Row::Theme(t) => Some(t),
                _ => None,
            }
        } else {
            None
        },
{
    if at >= rows.len() {
        return None;
    }
    match &rows[at] {
        Row::Theme(choice) => Some(*choice),
        _ => None,
    }
}

} // verus!
