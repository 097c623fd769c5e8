//! A file's diff as the diff pane shows it: every line of the file tagged as unchanged,
//! added or removed with its numbers on each side, and coloured by syntect.
use crate::text::{
    chars_of, decimal, decimal_of, parse_unsigned, parse_usize, rsplit_once, rsplit_once_at,
    split, split_at_char, starts_with, string_of, without_prefix, strip_prefix,
};
use crate::ui::launcher::file_name;
use vstd::prelude::*;

verus! {

/// Every row is laid out eagerly, and the highlighter walks the file line by line, so past
/// this many lines both cost more than the colour is worth.
pub const HIGHLIGHT_LIMIT: usize = 3000;

/// Kept above the first change when a file opens on it.
pub const CONTEXT_LINES: usize = 3;

#[verifier::external_type_specification]
#[verifier::external_body]
pub struct ExSyntaxSet(syntect::parsing::SyntaxSet);

#[verifier::external_type_specification]
#[verifier::external_body]
pub struct ExThemeSet(syntect::highlighting::ThemeSet);

#[verifier::external_type_specification]
#[verifier::external_body]
pub struct ExSyntaxReference(syntect::parsing::SyntaxReference);

#[verifier::external_type_specification]
#[verifier::external_body]
pub struct ExTheme(syntect::highlighting::Theme);

#[verifier::external_type_specification]
#[verifier::external_body]
pub struct ExHighlightLines<'a>(syntect::easy::HighlightLines<'a>);

#[verifier::external_type_specification]
#[verifier::external_body]
pub struct ExSyntectError(syntect::Error);

/// How the pane shows a diff.
#[derive(PartialEq, Eq, Structural, Clone, Copy, Debug)]
pub enum Mode {
    Highlighted,
    Raw,
}

/// Which side of the diff a line belongs to.
#[derive(PartialEq, Eq, Structural, Clone, Copy, Debug)]
pub enum Tag {
    Unchanged,
    Added,
    Removed,
}

/// A run of a line's text in one colour; no colour is the pane's own text colour.
pub struct Piece {
    pub text: String,
    pub colour: Option<(u8, u8, u8)>,
}

/// One line of the file, its number before and after the change where it has one.
pub struct Line {
    pub old: Option<usize>,
    pub new: Option<usize>,
    pub tag: Tag,
    pub pieces: Vec<Piece>,
}

/// What the pane shows for a file: the tight-context diff for the raw mode, a note when the
/// highlighted mode has something to say instead of or above the file, and the file's lines.
pub struct Body {
    pub raw: String,
    pub note: Option<String>,
    pub rows: Vec<Line>,
}

/// A line without the `\r` of a `\r\n` ending.
pub open spec fn without_cr(line: Seq<char>) -> Seq<char> {
    if line.len() > 0 && line.last() == '\r' {
        line.drop_last()
    } else {
        line
    }
}

/// The lines of a text, as std's `str::lines` gives them: split at each `\n`, a `\r\n`
/// ending taken whole, and no empty line after a final line ending.
pub open spec fn lines_of(text: Seq<char>) -> Seq<Seq<char>> {
    let pieces = split(text, '\n');
    Seq::new((pieces.len() - 1) as nat, |i: int| without_cr(pieces[i])) + if pieces.last().len()
        > 0 {
        seq![pieces.last()]
    } else {
        Seq::empty()
    }
}

/// The lines of a text.
pub fn text_lines(text: &str) -> (lines: Vec<Vec<char>>)
    ensures
        lines@.map_values(|l: Vec<char>| l@) == lines_of(text@),
{
    let pieces = split_at_char(&chars_of(text), '\n');
    proof {
        crate::text::lemma_split_len(text@, '\n');
    }
    let ghost all = pieces@.map_values(|p: Vec<char>| p@);
    assert(all == split(text@, '\n'));
    let mut lines: Vec<Vec<char>> = Vec::new();
    let last = pieces.len() - 1;
    for i in 0..last
        invariant
            last == pieces.len() - 1,
            pieces.len() > 0,
            all == pieces@.map_values(|p: Vec<char>| p@),
            lines@.map_values(|l: Vec<char>| l@) == Seq::new(i as nat, |k: int| without_cr(all[k])),
    {
        let piece = &pieces[i];
        let mut line: Vec<char> = Vec::new();
        let keep = if piece.len() > 0 && piece[piece.len() - 1] == '\r' {
            piece.len() - 1
        } else {
            piece.len()
        };
        for j in 0..keep
            invariant
                keep <= piece.len(),
                line@ == piece@.take(j as int),
        {
            line.push(piece[j]);
            assert(piece@.take(j + 1) == piece@.take(j as int).push(piece@[j as int]));
        }
        assert(line@ == without_cr(all[i as int]));
        let ghost before = lines@.map_values(|l: Vec<char>| l@);
        lines.push(line);
        assert(lines@.map_values(|l: Vec<char>| l@) =~= before.push(without_cr(all[i as int])));
        assert(lines@.map_values(|l: Vec<char>| l@) =~= Seq::new(
            (i + 1) as nat,
            |k: int| without_cr(all[k]),
        ));
    }
    let ghost firsts = lines@.map_values(|l: Vec<char>| l@);
    if pieces[last].len() > 0 {
        let line = crate::text::slice(&pieces[last], 0, pieces[last].len());
        assert(line@ == pieces@[last as int]@);
        lines.push(line);
        assert(lines@.map_values(|l: Vec<char>| l@) =~= firsts + seq![all.last()]);
    } else {
        assert(lines@.map_values(|l: Vec<char>| l@) =~= firsts + Seq::<Seq<char>>::empty());
    }
    lines
}

/// A hunk header's number for one side: the line before the first one the hunk covers, so a
/// row can count up before it is used. The start is read as std reads a `usize`.
pub open spec fn hunk_number(field: Seq<char>) -> Option<nat> {
    match parse_unsigned(split(field, ',')[0], usize::MAX as nat) {
        Some(n) => Some(if n == 0 {
            0
        } else {
            (n - 1) as nat
        }),
        None => None,
    }
}

/// The two numbers an `@@ -old +new @@` hunk header starts from.
pub open spec fn hunk_start_of(line: Seq<char>) -> Option<(nat, nat)> {
    match without_prefix(line, "@@ -"@) {
        None => None,
        Some(rest) => {
            let fields = split(rest, ' ');
            if fields.len() < 2 {
                None
            } else {
                match without_prefix(fields[1], "+"@) {
                    None => None,
                    Some(new) => match (hunk_number(fields[0]), hunk_number(new)) {
                        (Some(a), Some(b)) => Some((a, b)),
                        _ => None,
                    },
                }
            }
        },
    }
}

fn hunk_number_of(field: &Vec<char>) -> (n: Option<usize>)
    ensures
        match n {
            Some(v) => hunk_number(field@) == Some(v as nat),
            None => hunk_number(field@) is None,
        },
{
    let parts = split_at_char(field, ',');
    proof {
        crate::text::lemma_split_len(field@, ',');
    }
    assert(parts@[0]@ == split(field@, ',')[0]);
    match parse_usize(&parts[0]) {
        Some(v) => Some(if v == 0 {
            0
        } else {
            v - 1
        }),
        None => None,
    }
}

/// The numbers a hunk header starts from, if the line is one.
pub fn hunk_start(line: &Vec<char>) -> (start: Option<(usize, usize)>)
    ensures
        match start {
            Some((a, b)) => hunk_start_of(line@) == Some((a as nat, b as nat)),
            None => hunk_start_of(line@) is None,
        },
{
    let rest = match strip_prefix(line, &chars_of("@@ -")) {
        Some(rest) => rest,
        None => return None,
    };
    let fields = split_at_char(&rest, ' ');
    let ghost views = fields@.map_values(|f: Vec<char>| f@);
    assert(views == split(rest@, ' '));
    if fields.len() < 2 {
        return None;
    }
    assert(views[0] == fields@[0]@ && views[1] == fields@[1]@);
    let new = match strip_prefix(&fields[1], &chars_of("+")) {
        Some(new) => new,
        None => return None,
    };
    match (hunk_number_of(&fields[0]), hunk_number_of(&new)) {
        (Some(a), Some(b)) => Some((a, b)),
        _ => None,
    }
}

/// A line of the file by value: its numbers, its side and its text.
pub type TaggedView = (Option<nat>, Option<nat>, Tag, Seq<char>);

/// Reads the lines of a whole-file diff in order: the tagged lines so far, the last numbers
/// used on each side, and whether a hunk has begun. A hunk header sets the numbers; outside
/// a hunk, and on a `\` note, nothing is read; a line starting `+`, `-` or a space is added,
/// removed or unchanged, its text the rest of it, and an empty line is an unchanged empty
/// line; anything else is passed over.
pub open spec fn tag_scan(lines: Seq<Seq<char>>) -> (Seq<TaggedView>, int, int, bool)
    decreases lines.len(),
{
    if lines.len() == 0 {
        (Seq::empty(), 0, 0, false)
    } else {
        let (rows, old, new, in_hunk) = tag_scan(lines.drop_last());
        let line = lines.last();
        match hunk_start_of(line) {
            Some((a, b)) => (rows, a as int, b as int, true),
            None => if !in_hunk || (line.len() > 0 && line[0] == '\\') {
                (rows, old, new, in_hunk)
            } else if line.len() == 0 {
                (rows.push((Some((old + 1) as nat), Some((new + 1) as nat), Tag::Unchanged, line)), old
                    + 1, new + 1, in_hunk)
            } else if line[0] == '+' {
                (rows.push((None, Some((new + 1) as nat), Tag::Added, line.drop_first())), old, new
                    + 1, in_hunk)
            } else if line[0] == '-' {
                (rows.push((Some((old + 1) as nat), None, Tag::Removed, line.drop_first())), old
                    + 1, new, in_hunk)
            } else if line[0] == ' ' {
                (rows.push(
                    (Some((old + 1) as nat), Some((new + 1) as nat), Tag::Unchanged, line.drop_first()),
                ), old + 1, new + 1, in_hunk)
            } else {
                (rows, old, new, in_hunk)
            }
        }
    }
}

/// How many of some rows have a line on the old side: all but the added ones.
pub open spec fn old_side_rows(rows: Seq<TaggedView>) -> nat
    decreases rows.len(),
{
    if rows.len() == 0 {
        0
    } else {
        old_side_rows(rows.drop_last()) + if rows.last().2 != Tag::Added {
            1nat
        } else {
            0nat
        }
    }
}

/// How many of some rows have a line on the new side: all but the removed ones.
pub open spec fn new_side_rows(rows: Seq<TaggedView>) -> nat
    decreases rows.len(),
{
    if rows.len() == 0 {
        0
    } else {
        new_side_rows(rows.drop_last()) + if rows.last().2 != Tag::Removed {
            1nat
        } else {
            0nat
        }
    }
}

/// Whether the rows from `start` on are numbered from a hunk header's starts `a` and `b`:
/// each row's old number counts the unchanged and removed rows since the header, its new
/// number the unchanged and added ones; an added row has no old number and a removed one no
/// new number.
pub open spec fn numbered_from(rows: Seq<TaggedView>, start: int, a: nat, b: nat) -> bool {
    forall|k: int|
        start <= k < rows.len() ==> {
            let seen = rows.subrange(start, k + 1);
            let row = #[trigger] rows[k];
            &&& (row.2 == Tag::Added) == (row.0 is None)
            &&& (row.2 == Tag::Removed) == (row.1 is None)
            &&& (row.0 matches Some(n) ==> n == a + old_side_rows(seen))
            &&& (row.1 matches Some(m) ==> m == b + new_side_rows(seen))
        }
}

/// Within a hunk, the two sides count apart: every row after a hunk header is numbered on
/// the old side by the unchanged and removed rows since the header, and on the new side by
/// the unchanged and added ones, counting from the starts the header gives. So an added
/// line moves no old number on, and a removed line no new number.
pub proof fn lemma_hunk_numbering(before: Seq<Seq<char>>, header: Seq<char>, body: Seq<Seq<char>>)
    requires
        hunk_start_of(header) is Some,
        forall|i: int| 0 <= i < body.len() ==> hunk_start_of(#[trigger] body[i]) is None,
    ensures
        ({
            let (a, b) = hunk_start_of(header)->0;
            let opened = before.push(header);
            let start = tag_scan(opened).0.len();
            let rows = tag_scan(opened + body).0;
            &&& rows.len() >= start
            &&& rows.take(start as int) == tag_scan(opened).0
            &&& numbered_from(rows, start as int, a, b)
        }),
    decreases body.len(),
{
    let (a, b) = hunk_start_of(header)->0;
    let opened = before.push(header);
    let start = tag_scan(opened).0.len();
    lemma_hunk_counters(before, header, body);
    if body.len() == 0 {
        assert(opened + body == opened);
    } else {
        let shorter = body.drop_last();
        assert forall|i: int| 0 <= i < shorter.len() implies hunk_start_of(#[trigger] shorter[i]) is None by {
            assert(shorter[i] == body[i]);
        }
        lemma_hunk_numbering(before, header, shorter);
        lemma_hunk_counters(before, header, shorter);
        assert((opened + body).drop_last() == opened + shorter);
        assert((opened + body).last() == body.last());
        assert(hunk_start_of(body.last()) is None);
        let (prev, old, new, in_hunk) = tag_scan(opened + shorter);
        let rows = tag_scan(opened + body).0;
        assert(rows.take(prev.len() as int) == prev);
        if rows.len() > prev.len() {
            assert(rows == prev.push(rows.last()));
            let k = rows.len() - 1;
            assert(rows.subrange(start as int, k + 1) == prev.subrange(start as int, prev.len() as int).push(
                rows.last(),
            ));
            assert(prev.subrange(start as int, prev.len() as int) == prev.skip(start as int));
        }
        assert forall|k: int| start <= k < rows.len() implies {
            let seen = rows.subrange(start as int, k + 1);
            let row = #[trigger] rows[k];
            &&& (row.2 == Tag::Added) == (row.0 is None)
            &&& (row.2 == Tag::Removed) == (row.1 is None)
            &&& (row.0 matches Some(n) ==> n == a + old_side_rows(seen))
            &&& (row.1 matches Some(m) ==> m == b + new_side_rows(seen))
        } by {
            if k < prev.len() {
                assert(rows[k] == prev[k]);
                assert(rows.subrange(start as int, k + 1) == prev.subrange(start as int, k + 1));
            }
        }
        assert(rows.take(start as int) == prev.take(start as int));
    }
}

/// After a hunk header and lines that are no header, the reading is in the hunk and its
/// counters stand at the header's starts plus the rows read since.
proof fn lemma_hunk_counters(before: Seq<Seq<char>>, header: Seq<char>, body: Seq<Seq<char>>)
    requires
        hunk_start_of(header) is Some,
        forall|i: int| 0 <= i < body.len() ==> hunk_start_of(#[trigger] body[i]) is None,
    ensures
        ({
            let (a, b) = hunk_start_of(header)->0;
            let opened = before.push(header);
            let start = tag_scan(opened).0.len();
            let (rows, old, new, in_hunk) = tag_scan(opened + body);
            &&& in_hunk
            &&& rows.len() >= start
            &&& rows.take(start as int) == tag_scan(opened).0
            &&& old == a + old_side_rows(rows.skip(start as int))
            &&& new == b + new_side_rows(rows.skip(start as int))
        }),
    decreases body.len(),
{
    let opened = before.push(header);
    let start = tag_scan(opened).0.len();
    assert(opened.drop_last() == before);
    if body.len() == 0 {
        assert(opened + body == opened);
        assert(tag_scan(opened).0.skip(start as int) =~= Seq::<TaggedView>::empty());
    } else {
        let shorter = body.drop_last();
        assert forall|i: int| 0 <= i < shorter.len() implies hunk_start_of(#[trigger] shorter[i]) is None by {
            assert(shorter[i] == body[i]);
        }
        lemma_hunk_counters(before, header, shorter);
        assert((opened + body).drop_last() == opened + shorter);
        assert((opened + body).last() == body.last());
        assert(hunk_start_of(body.last()) is None);
        let prev = tag_scan(opened + shorter).0;
        let rows = tag_scan(opened + body).0;
        if rows.len() > prev.len() {
            assert(rows.skip(start as int) =~= prev.skip(start as int).push(rows.last()));
            assert(rows.skip(start as int).drop_last() =~= prev.skip(start as int));
            assert(rows.take(start as int) =~= prev.take(start as int));
        }
    }
}

/// Whether every number the reading counts up to fits in a `usize`.
pub open spec fn tag_scan_fits(lines: Seq<Seq<char>>) -> bool
    decreases lines.len(),
{
    if lines.len() == 0 {
        true
    } else {
        let (_, old, new, _) = tag_scan(lines);
        tag_scan_fits(lines.drop_last()) && old <= usize::MAX && new <= usize::MAX
    }
}

pub open spec fn tagged_views(rows: Seq<(Option<usize>, Option<usize>, Tag, Vec<char>)>) -> Seq<
    TaggedView,
> {
    rows.map_values(
        |r: (Option<usize>, Option<usize>, Tag, Vec<char>)|
            (
                match r.0 {
                    Some(n) => Some(n as nat),
                    None => None,
                },
                match r.1 {
                    Some(n) => Some(n as nat),
                    None => None,
                },
                r.2,
                r.3@,
            ),
    )
}

proof fn lemma_scan_bounds(lines: Seq<Seq<char>>)
    ensures
        tag_scan(lines).1 >= 0 && tag_scan(lines).2 >= 0,
    decreases lines.len(),
{
    if lines.len() > 0 {
        lemma_scan_bounds(lines.drop_last());
    }
}

proof fn lemma_fits_prefix(lines: Seq<Seq<char>>, k: int)
    requires
        0 <= k <= lines.len(),
        tag_scan_fits(lines),
    ensures
        tag_scan_fits(lines.take(k)),
    decreases lines.len() - k,
{
    if k < lines.len() {
        lemma_fits_prefix(lines.drop_last(), k);
        assert(lines.drop_last().take(k) == lines.take(k));
    } else {
        assert(lines.take(k) == lines);
    }
}

/// Tags every line of a whole-file diff.
pub fn tag_lines(lines: &Vec<Vec<char>>) -> (rows: Vec<(Option<usize>, Option<usize>, Tag, Vec<char>)>)
    requires
        tag_scan_fits(lines@.map_values(|l: Vec<char>| l@)),
    ensures
        tagged_views(rows@) == tag_scan(lines@.map_values(|l: Vec<char>| l@)).0,
{
    let ghost all = lines@.map_values(|l: Vec<char>| l@);
    let mut rows: Vec<(Option<usize>, Option<usize>, Tag, Vec<char>)> = Vec::new();
    let mut old: usize = 0;
    let mut new: usize = 0;
    let mut in_hunk = false;
    for i in 0..lines.len()
        invariant
            all == lines@.map_values(|l: Vec<char>| l@),
            tag_scan_fits(all),
            ({
                let (r, o, n, h) = tag_scan(all.take(i as int));
                &&& tagged_views(rows@) == r
                &&& old as int == o
                &&& new as int == n
                &&& in_hunk == h
            }),
    {
        proof {
            assert(all.take(i + 1).drop_last() == all.take(i as int));
            assert(all.take(i + 1).last() == lines@[i as int]@);
            lemma_fits_prefix(all, i + 1);
            lemma_scan_bounds(all.take(i + 1));
        }
        let line = &lines[i];
        let ghost before = tagged_views(rows@);
        match hunk_start(line) {
            Some((a, b)) => {
                old = a;
                new = b;
                in_hunk = true;
            },
            None => {
                if !in_hunk || (line.len() > 0 && line[0] == '\\') {
                } else if line.len() == 0 {
                    assert(line@ =~= Seq::<char>::empty());
                    old = old + 1;
                    new = new + 1;
                    rows.push((Some(old), Some(new), Tag::Unchanged, Vec::new()));
                    assert(tagged_views(rows@) =~= before.push(
                        (Some(old as nat), Some(new as nat), Tag::Unchanged, line@),
                    ));
                } else if line[0] == '+' || line[0] == '-' || line[0] == ' ' {
                    let text = crate::text::slice(line, 1, line.len());
                    assert(text@ == line@.drop_first());
                    if line[0] == '+' {
                        new = new + 1;
                        rows.push((None, Some(new), Tag::Added, text));
                        assert(tagged_views(rows@) =~= before.push(
                            (None, Some(new as nat), Tag::Added, line@.drop_first()),
                        ));
                    } else if line[0] == '-' {
                        old = old + 1;
                        rows.push((Some(old), None, Tag::Removed, text));
                        assert(tagged_views(rows@) =~= before.push(
                            (Some(old as nat), None, Tag::Removed, line@.drop_first()),
                        ));
                    } else {
                        old = old + 1;
                        new = new + 1;
                        rows.push((Some(old), Some(new), Tag::Unchanged, text));
                        assert(tagged_views(rows@) =~= before.push(
                            (Some(old as nat), Some(new as nat), Tag::Unchanged, line@.drop_first()),
                        ));
                    }
                }
            },
        }
    }
    assert(all.take(lines.len() as int) == all);
    rows
}

/// Whether the line numbers of a whole-file diff fit in a `usize`, which [`prepare`] needs.
pub fn tags_fit(whole_file: &str) -> (fits: bool)
    ensures
        fits == tag_scan_fits(lines_of(whole_file@)),
{
    let lines = text_lines(whole_file);
    let ghost all = lines@.map_values(|l: Vec<char>| l@);
    let mut old: usize = 0;
    let mut new: usize = 0;
    let mut in_hunk = false;
    assert(all.take(0) =~= Seq::<Seq<char>>::empty());
    for i in 0..lines.len()
        invariant
            all == lines@.map_values(|l: Vec<char>| l@),
            all == lines_of(whole_file@),
            tag_scan_fits(all.take(i as int)),
            ({
                let (_, o, n, h) = tag_scan(all.take(i as int));
                &&& old as int == o
                &&& new as int == n
                &&& in_hunk == h
            }),
    {
        proof {
            assert(all.take(i + 1).drop_last() == all.take(i as int));
            assert(all.take(i + 1).last() == lines@[i as int]@);
            lemma_scan_bounds(all.take(i + 1));
            if tag_scan_fits(all) {
                lemma_fits_prefix(all, i + 1);
            }
        }
        let line = &lines[i];
        match hunk_start(line) {
            Some((a, b)) => {
                old = a;
                new = b;
                in_hunk = true;
            },
            None => {
                if !in_hunk || (line.len() > 0 && line[0] == '\\') {
                } else if line.len() == 0 || line[0] == ' ' {
                    if old == usize::MAX || new == usize::MAX {
                        return false;
                    }
                    old = old + 1;
                    new = new + 1;
                } else if line[0] == '+' {
                    if new == usize::MAX {
                        return false;
                    }
                    new = new + 1;
                } else if line[0] == '-' {
                    if old == usize::MAX {
                        return false;
                    }
                    old = old + 1;
                }
            },
        }
    }
    assert(all.take(lines.len() as int) == all);
    true
}

/// Whether a line tells of a binary file, about which git prints no lines.
pub open spec fn says_binary(line: Seq<char>) -> bool {
    "Binary files"@.is_prefix_of(line) || "GIT binary patch"@.is_prefix_of(line)
}

pub open spec fn piece_views(pieces: Seq<Piece>) -> Seq<(Seq<char>, Option<(u8, u8, u8)>)> {
    pieces.map_values(|p: Piece| (p.text@, p.colour))
}

/// The texts of some pieces, one after the other.
pub open spec fn joined(pieces: Seq<(Seq<char>, Option<(u8, u8, u8)>)>) -> Seq<char>
    decreases pieces.len(),
{
    if pieces.len() == 0 {
        Seq::empty()
    } else {
        joined(pieces.drop_last()) + pieces.last().0
    }
}

/// Highlighted fragments as plain values: each one's colour and text.
pub open spec fn fragment_views(fragments: Seq<((u8, u8, u8), String)>) -> Seq<((u8, u8, u8), Seq<char>)> {
    fragments.map_values(|f: ((u8, u8, u8), String)| (f.0, f.1@))
}

/// The texts of some highlighted fragments, one after the other.
pub open spec fn fragments_text(fragments: Seq<((u8, u8, u8), Seq<char>)>) -> Seq<char>
    decreases fragments.len(),
{
    if fragments.len() == 0 {
        Seq::empty()
    } else {
        fragments_text(fragments.drop_last()) + fragments.last().1
    }
}

/// A fragment's text without the newline it was highlighted with.
pub open spec fn without_newlines(text: Seq<char>) -> Seq<char>
    decreases text.len(),
{
    if text.len() > 0 && text.last() == '\n' {
        without_newlines(text.drop_last())
    } else {
        text
    }
}

/// The pieces a line's highlighted fragments make: each fragment without its newlines,
/// empty ones dropped, and a fragment in the colour of the piece before it joined onto it.
pub open spec fn merged(fragments: Seq<((u8, u8, u8), Seq<char>)>) -> Seq<(Seq<char>, Option<(u8, u8, u8)>)>
    decreases fragments.len(),
{
    if fragments.len() == 0 {
        Seq::empty()
    } else {
        let earlier = merged(fragments.drop_last());
        let text = without_newlines(fragments.last().1);
        let colour = Some(fragments.last().0);
        if text.len() == 0 {
            earlier
        } else if earlier.len() > 0 && earlier.last().1 == colour {
            earlier.drop_last().push((earlier.last().0 + text, colour))
        } else {
            earlier.push((text, colour))
        }
    }
}

fn strip_newlines(text: &String) -> (kept: Vec<char>)
    ensures
        kept@ == without_newlines(text@),
{
    let chars = chars_of(text.as_str());
    let mut end = chars.len();
    assert(chars@.take(end as int) == chars@);
    while end > 0 && chars[end - 1] == '\n'
        invariant
            end <= chars.len(),
            without_newlines(chars@) == without_newlines(chars@.take(end as int)),
        decreases end,
    {
        assert(chars@.take(end as int).drop_last() == chars@.take(end - 1));
        end = end - 1;
    }
    proof {
        assert(chars@.take(chars.len() as int) == chars@);
    }
    crate::text::slice(&chars, 0, end)
}

/// Turns a line's highlighted fragments into the pieces the pane draws.
pub fn pieces_of(fragments: Vec<((u8, u8, u8), String)>) -> (pieces: Vec<Piece>)
    ensures
        piece_views(pieces@) == merged(fragment_views(fragments@)),
{
    let ghost views = fragment_views(fragments@);
    let mut pieces: Vec<Piece> = Vec::new();
    for i in 0..fragments.len()
        invariant
            views == fragment_views(fragments@),
            piece_views(pieces@) == merged(views.take(i as int)),
    {
        proof {
            assert(views.take(i + 1).drop_last() == views.take(i as int));
            assert(views.take(i + 1).last() == (fragments@[i as int].0, fragments@[i as int].1@));
        }
        let text = strip_newlines(&fragments[i].1);
        let colour = Some(fragments[i].0);
        let ghost before = piece_views(pieces@);
        if text.len() > 0 {
            let n = pieces.len();
            if n > 0 && pieces[n - 1].colour == colour {
                let last = pieces.pop().unwrap();
                let mut grown = chars_of(last.text.as_str());
                grown.append(&mut text.clone());
                pieces.push(Piece { text: string_of(&grown), colour });
                assert(piece_views(pieces@) =~= before.drop_last().push(
                    (before.last().0 + text@, colour),
                ));
            } else {
                pieces.push(Piece { text: string_of(&text), colour });
                assert(piece_views(pieces@) =~= before.push((text@, colour)));
            }
        }
    }
    assert(views.take(fragments.len() as int) == views);
    pieces
}

/// The syntaxes and themes a diff is coloured with: two-face's bundled syntaxes, which keep
/// the newline in their patterns, and syntect's default themes. Only [`Highlighting::bundled`]
/// makes one, so every value holds those same sets.
pub struct Highlighting {
    syntaxes: syntect::parsing::SyntaxSet,
    themes: syntect::highlighting::ThemeSet,
}

/// A syntax of the bundled set, with how it was found: by extension (`true`) or by name,
/// and the extension or name asked for.
struct FoundSyntax<'a> {
    syntax: &'a syntect::parsing::SyntaxReference,
    key: Ghost<(bool, Seq<char>)>,
}

/// A default theme, with the name it was found by.
struct NamedTheme<'a> {
    theme: &'a syntect::highlighting::Theme,
    name: Ghost<Seq<char>>,
}

/// A highlighter for one file, with the syntax and theme it was made with and the lines it
/// has been fed so far, each with its newline.
struct Highlighter<'a> {
    lines: syntect::easy::HighlightLines<'a>,
    syntax: Ghost<(bool, Seq<char>)>,
    theme: Ghost<Seq<char>>,
    fed: Ghost<Seq<Seq<char>>>,
}

/// Whether the bundled syntaxes know a file extension.
pub uninterp spec fn knows_extension(extension: Seq<char>) -> bool;

/// Whether the bundled syntaxes hold a syntax of this name.
pub uninterp spec fn knows_syntax_named(name: Seq<char>) -> bool;

/// What syntect's highlighter makes of `line`, each fragment with its foreground colour, in
/// the bundled syntax found as `syntax` says and the default theme named `theme`, after it
/// has been fed the `earlier` lines of the file; nothing where syntect fails.
pub uninterp spec fn highlighted_line(
    syntax: (bool, Seq<char>),
    theme: Seq<char>,
    earlier: Seq<Seq<char>>,
    line: Seq<char>,
) -> Option<Seq<((u8, u8, u8), Seq<char>)>>;

/// two-face's `syntax::extra_newlines`: its bundled syntaxes, newlines kept in the patterns.
#[verifier::external_body]
fn bundled_syntaxes() -> syntect::parsing::SyntaxSet {
    two_face::syntax::extra_newlines()
}

/// syntect's `ThemeSet::load_defaults`: the themes syntect ships.
#[verifier::external_body]
fn default_themes() -> syntect::highlighting::ThemeSet {
    syntect::highlighting::ThemeSet::load_defaults()
}

impl Highlighting {
    /// Loads the bundled syntaxes and the default themes.
    pub fn bundled() -> Highlighting {
        Highlighting { syntaxes: bundled_syntaxes(), themes: default_themes() }
    }
}

/// The default theme of that name, looked up in `ThemeSet::themes`. syntect documents that
/// its defaults hold "base16-ocean.dark" and "InspiredGitHub" among others.
#[verifier::external_body]
fn theme_named<'a>(highlighting: &'a Highlighting, name: &str) -> (found: Option<NamedTheme<'a>>)
    ensures
        found matches Some(t) ==> t.name@ == name@,
        name@ == "base16-ocean.dark"@ || name@ == "InspiredGitHub"@ ==> found is Some,
{
    highlighting.themes.themes.get(name).map(|theme| NamedTheme { theme, name: Ghost(name@) })
}

/// syntect's `SyntaxSet::find_syntax_by_extension` on the bundled syntaxes: the syntax a
/// file extension is known by, if any.
#[verifier::external_body]
fn syntax_by_extension<'a>(highlighting: &'a Highlighting, extension: &str) -> (found: Option<
    FoundSyntax<'a>,
>)
    ensures
        found is Some <==> knows_extension(extension@),
        found matches Some(s) ==> s.key@ == (true, extension@),
{
    highlighting.syntaxes.find_syntax_by_extension(extension).map(
        |syntax| FoundSyntax { syntax, key: Ghost((true, extension@)) },
    )
}

/// syntect's `SyntaxSet::find_syntax_by_name` on the bundled syntaxes: the syntax of that
/// name, if there is one.
#[verifier::external_body]
fn syntax_by_name<'a>(highlighting: &'a Highlighting, name: &str) -> (found: Option<FoundSyntax<'a>>)
    ensures
        found is Some <==> knows_syntax_named(name@),
        found matches Some(s) ==> s.key@ == (false, name@),
{
    highlighting.syntaxes.find_syntax_by_name(name).map(
        |syntax| FoundSyntax { syntax, key: Ghost((false, name@)) },
    )
}

/// syntect's `HighlightLines::new`: a highlighter for one file in one syntax and theme, fed
/// nothing yet.
#[verifier::external_body]
fn highlighter<'a>(syntax: &FoundSyntax, theme: &NamedTheme<'a>) -> (made: Highlighter<'a>)
    ensures
        made.syntax@ == syntax.key@,
        made.theme@ == theme.name@,
        made.fed@ == Seq::<Seq<char>>::empty(),
{
    Highlighter {
        lines: syntect::easy::HighlightLines::new(syntax.syntax, theme.theme),
        syntax: Ghost(syntax.key@),
        theme: Ghost(theme.name@),
        fed: Ghost(Seq::empty()),
    }
}

/// syntect's `HighlightLines::highlight_line` with the bundled syntaxes, each fragment taken
/// with its foreground colour. The highlighter carries the parse state from line to line;
/// syntect documents that the fragments, one after the other, make the line.
#[verifier::external_body]
fn highlight_line(highlighter: &mut Highlighter, line: &str, highlighting: &Highlighting) -> (fragments:
    Result<Vec<((u8, u8, u8), String)>, syntect::Error>)
    ensures
        final(highlighter).syntax@ == old(highlighter).syntax@,
        final(highlighter).theme@ == old(highlighter).theme@,
        final(highlighter).fed@ == old(highlighter).fed@.push(line@),
        match fragments {
            Ok(f) => highlighted_line(
                old(highlighter).syntax@,
                old(highlighter).theme@,
                old(highlighter).fed@,
                line@,
            ) == Some(fragment_views(f@)),
            Err(_) => highlighted_line(
                old(highlighter).syntax@,
                old(highlighter).theme@,
                old(highlighter).fed@,
                line@,
            ) is None,
        },
        fragments matches Ok(f) ==> fragments_text(fragment_views(f@)) == line@,
{
    highlighter.fed = Ghost(highlighter.fed@.push(line@));
    highlighter.lines.highlight_line(line, &highlighting.syntaxes).map(
        |fragments| {
            fragments.into_iter().map(
                |(style, text)|
                    ((style.foreground.r, style.foreground.g, style.foreground.b), text.to_owned()),
            ).collect()
        },
    )
}

/// syntect's `Display` for its `Error`: the error in words.
#[verifier::external_body]
fn error_text(error: &syntect::Error) -> String {
    error.to_string()
}

/// A file's extension, as `Path::extension` reads it: what follows the last `.` of its
/// name, when that `.` is not the name's first character.
pub open spec fn extension_of(path: Seq<char>) -> Option<Seq<char>> {
    match file_name(path) {
        None => None,
        Some(name) => match rsplit_once(name, '.') {
            Some((stem, extension)) => if stem.len() > 0 {
                Some(extension)
            } else {
                None
            },
            None => None,
        },
    }
}

/// The extension of a path's file name, if it has one.
pub fn extension(path: &str) -> (found: Option<Vec<char>>)
    ensures
        match found {
            Some(e) => extension_of(path@) == Some(e@),
            None => extension_of(path@) is None,
        },
{
    let name = crate::ui::launcher::name_of(path);
    let whole = chars_of(path);
    let name_chars = chars_of(name.as_str());
    // `name_of` falls back to the whole path when the path has no file name.
    let has_name = match file_name_checked(path) {
        Some(_) => true,
        None => false,
    };
    if !has_name {
        return None;
    }
    match rsplit_once_at(&name_chars, '.') {
        Some((stem, extension)) => {
            if stem.len() > 0 {
                Some(extension)
            } else {
                None
            }
        },
        None => None,
    }
}

fn file_name_checked(path: &str) -> (name: Option<String>)
    ensures
        match name {
            Some(n) => file_name(path@) == Some(n@),
            None => file_name(path@) is None,
        },
{
    let pieces = split_at_char(&chars_of(path), '/');
    let ghost all = pieces@.map_values(|p: Vec<char>| p@);
    assert(all == split(path@, '/'));
    let dot = chars_of(".");
    let mut i = pieces.len();
    assert(all.take(i as int) == all);
    while i > 0
        invariant
            i <= pieces.len(),
            all == pieces@.map_values(|p: Vec<char>| p@),
            all == split(path@, '/'),
            dot@ == "."@,
            crate::ui::launcher::last_component(all) == crate::ui::launcher::last_component(
                all.take(i as int),
            ),
        decreases i,
    {
        assert(all.take(i as int).drop_last() == all.take(i - 1));
        assert(all.take(i as int).last() == pieces@[i - 1]@);
        if pieces[i - 1].len() > 0 && !crate::text::same(&pieces[i - 1], &dot) {
            assert(crate::ui::launcher::last_component(all.take(i as int)) == Some(pieces@[i - 1]@));
            if crate::text::same(&pieces[i - 1], &chars_of("..")) {
                return None;
            }
            return Some(string_of(&pieces[i - 1]));
        }
        i = i - 1;
    }
    None
}

/// The rows of tagged lines drawn in the pane's own colour.
pub open spec fn plain(tagged: Seq<TaggedView>) -> Seq<(Option<nat>, Option<nat>, Tag, Seq<(Seq<char>, Option<(u8, u8, u8)>)>)> {
    tagged.map_values(|t: TaggedView| (t.0, t.1, t.2, seq![(t.3, None::<(u8, u8, u8)>)]))
}

pub open spec fn line_views(rows: Seq<Line>) -> Seq<(Option<nat>, Option<nat>, Tag, Seq<(Seq<char>, Option<(u8, u8, u8)>)>)> {
    rows.map_values(
        |l: Line|
            (
                match l.old {
                    Some(n) => Some(n as nat),
                    None => None,
                },
                match l.new {
                    Some(n) => Some(n as nat),
                    None => None,
                },
                l.tag,
                piece_views(l.pieces@),
            ),
    )
}

fn plain_rows(tagged: Vec<(Option<usize>, Option<usize>, Tag, Vec<char>)>) -> (rows: Vec<Line>)
    ensures
        line_views(rows@) == plain(tagged_views(tagged@)),
{
    let mut rows: Vec<Line> = Vec::new();
    for i in 0..tagged.len()
        invariant
            line_views(rows@) == plain(tagged_views(tagged@)).take(i as int),
    {
        let (old, new, tag, text) = (tagged[i].0, tagged[i].1, tagged[i].2, &tagged[i].3);
        let mut pieces: Vec<Piece> = Vec::new();
        pieces.push(Piece { text: string_of(text), colour: None });
        let ghost before = line_views(rows@);
        let ghost piece_list = piece_views(pieces@);
        assert(piece_list =~= seq![(text@, None::<(u8, u8, u8)>)]);
        rows.push(Line { old, new, tag, pieces });
        assert(line_views(rows@) =~= before.push(line_views(rows@).last()));
        assert(line_views(rows@).last() == plain(tagged_views(tagged@))[i as int]);
        assert(line_views(rows@) =~= plain(tagged_views(tagged@)).take(i + 1));
    }
    assert(plain(tagged_views(tagged@)).take(tagged.len() as int) == plain(tagged_views(tagged@)));
    rows
}

/// The name of the syntect theme a diff is coloured with, for a dark interface or a light
/// one.
pub fn theme_name(dark: bool) -> (name: &'static str)
    ensures
        name@ == if dark {
            "base16-ocean.dark"@
        } else {
            "InspiredGitHub"@
        },
{
    if dark {
        "base16-ocean.dark"
    } else {
        "InspiredGitHub"
    }
}

/// The name of the default theme a diff is coloured with, for a dark interface or a light one.
pub open spec fn theme_of(dark: bool) -> Seq<char> {
    if dark {
        "base16-ocean.dark"@
    } else {
        "InspiredGitHub"@
    }
}

/// The texts of tagged lines.
pub open spec fn line_texts(tagged: Seq<TaggedView>) -> Seq<Seq<char>> {
    tagged.map_values(|t: TaggedView| t.3)
}

/// The lines of a file as the highlighter is fed them: each with a newline, since the
/// bundled syntaxes carry it in their patterns and a line without one can leave the parser
/// stuck mid-context.
pub open spec fn fed(texts: Seq<Seq<char>>) -> Seq<Seq<char>> {
    texts.map_values(|t: Seq<char>| t + seq!['\n'])
}

/// The pieces of each of the first `n` texts, highlighted one after the other in a syntax and
/// theme; nothing once one of them fails.
pub open spec fn coloured_upto(
    syntax: (bool, Seq<char>),
    theme: Seq<char>,
    texts: Seq<Seq<char>>,
    n: nat,
) -> Option<Seq<Seq<(Seq<char>, Option<(u8, u8, u8)>)>>>
    decreases n,
{
    if n == 0 {
        Some(Seq::empty())
    } else {
        match coloured_upto(syntax, theme, texts, (n - 1) as nat) {
            None => None,
            Some(rows) => match highlighted_line(
                syntax,
                theme,
                fed(texts.take(n - 1)),
                texts[n - 1] + seq!['\n'],
            ) {
                None => None,
                Some(fragments) => Some(rows.push(merged(fragments))),
            },
        }
    }
}

/// The syntax a file is highlighted in: the one its extension (an empty one when it has
/// none) is known by, else plain text; nothing when there is neither.
pub open spec fn syntax_for(path: Seq<char>) -> Option<(bool, Seq<char>)> {
    let extension = match extension_of(path) {
        Some(e) => e,
        None => Seq::empty(),
    };
    if knows_extension(extension) {
        Some((true, extension))
    } else if knows_syntax_named("Plain Text"@) {
        Some((false, "Plain Text"@))
    } else {
        None
    }
}

/// The pieces of each line of a file at `path`, highlighted in its syntax and the theme for
/// a dark or light interface; nothing when it cannot be highlighted. A file without lines
/// needs no highlighter.
pub open spec fn coloured_lines(path: Seq<char>, dark: bool, texts: Seq<Seq<char>>) -> Option<
    Seq<Seq<(Seq<char>, Option<(u8, u8, u8)>)>>,
> {
    if texts.len() == 0 {
        Some(Seq::empty())
    } else {
        match syntax_for(path) {
            None => None,
            Some(syntax) => coloured_upto(syntax, theme_of(dark), texts, texts.len()),
        }
    }
}

/// Rows of pieces as plain values.
pub open spec fn piece_rows(rows: Seq<Vec<Piece>>) -> Seq<Seq<(Seq<char>, Option<(u8, u8, u8)>)>> {
    rows.map_values(|r: Vec<Piece>| piece_views(r@))
}

/// Tagged lines drawn in the given pieces, line for line.
pub open spec fn with_pieces(
    tagged: Seq<TaggedView>,
    pieces: Seq<Seq<(Seq<char>, Option<(u8, u8, u8)>)>>,
) -> Seq<(Option<nat>, Option<nat>, Tag, Seq<(Seq<char>, Option<(u8, u8, u8)>)>)> {
    Seq::new(tagged.len(), |i: int| (tagged[i].0, tagged[i].1, tagged[i].2, pieces[i]))
}

/// Once a line fails, so does every longer run of lines.
proof fn lemma_failure_stays(
    syntax: (bool, Seq<char>),
    theme: Seq<char>,
    texts: Seq<Seq<char>>,
    n: nat,
    m: nat,
)
    requires
        n <= m,
        coloured_upto(syntax, theme, texts, n) is None,
    ensures
        coloured_upto(syntax, theme, texts, m) is None,
    decreases m,
{
    if n < m {
        lemma_failure_stays(syntax, theme, texts, n, (m - 1) as nat);
    }
}

/// Highlights each tagged line in the syntax its file's extension is known by (plain text
/// when none is), carrying the parse state from line to line.
fn highlight(
    tagged: &Vec<(Option<usize>, Option<usize>, Tag, Vec<char>)>,
    path: &str,
    dark: bool,
    highlighting: &Highlighting,
) -> (coloured: Result<Vec<Vec<Piece>>, String>)
    ensures
        match coloured_lines(path@, dark, line_texts(tagged_views(tagged@))) {
            Some(rows) => coloured matches Ok(c) && piece_rows(c@) == rows,
            None => coloured is Err,
        },
        coloured matches Ok(rows) ==> rows.len() == tagged.len() && forall|i: int|
            0 <= i < tagged.len() ==> coloured_pieces(piece_views(#[trigger] rows@[i]@), tagged@[i].3@),
{
    let ghost texts = line_texts(tagged_views(tagged@));
    if tagged.len() == 0 {
        let none: Vec<Vec<Piece>> = Vec::new();
        assert(piece_rows(none@) =~= Seq::empty());
        return Ok(none);
    }
    let extension = match extension(path) {
        Some(e) => string_of(&e),
        None => String::new(),
    };
    let syntax = match syntax_by_extension(highlighting, extension.as_str()) {
        Some(s) => s,
        None => match syntax_by_name(highlighting, "Plain Text") {
            Some(s) => s,
            None => return Err("there is no plain text syntax".to_owned()),
        },
    };
    let theme = match theme_named(highlighting, theme_name(dark)) {
        Some(t) => t,
        None => return Err("there is no such theme".to_owned()),
    };
    assert(syntax_for(path@) == Some(syntax.key@));
    let ghost key = syntax.key@;
    let ghost name = theme.name@;
    let mut lines = highlighter(&syntax, &theme);
    let mut rows: Vec<Vec<Piece>> = Vec::new();
    assert(fed(texts.take(0)) =~= Seq::<Seq<char>>::empty());
    assert(piece_rows(rows@) =~= Seq::empty());
    for i in 0..tagged.len()
        invariant
            texts == line_texts(tagged_views(tagged@)),
            texts.len() == tagged.len(),
            tagged.len() > 0,
            syntax_for(path@) == Some(key),
            name == theme_of(dark),
            lines.syntax@ == key,
            lines.theme@ == name,
            lines.fed@ == fed(texts.take(i as int)),
            coloured_upto(key, name, texts, i as nat) == Some(piece_rows(rows@)),
            rows.len() == i,
            forall|k: int|
                0 <= k < i ==> coloured_pieces(piece_views(#[trigger] rows@[k]@), tagged@[k].3@),
    {
        let mut text = crate::text::slice(&tagged[i].3, 0, tagged[i].3.len());
        text.push('\n');
        let line = string_of(&text);
        assert(texts[i as int] == tagged@[i as int].3@);
        assert(text@ == texts[i as int] + seq!['\n']);
        match highlight_line(&mut lines, line.as_str(), highlighting) {
            Ok(fragments) => {
                let ghost seen = fragment_views(fragments@);
                let ghost before = piece_rows(rows@);
                let pieces = pieces_of(fragments);
                rows.push(pieces);
                proof {
                    assert(fed(texts.take(i + 1)) =~= fed(texts.take(i as int)).push(
                        texts[i as int] + seq!['\n'],
                    ));
                    assert(texts.take(i + 1 - 1) == texts.take(i as int));
                    assert(piece_rows(rows@) =~= before.push(merged(seen)));
                    assert(fragments_text(seen) == tagged@[i as int].3@ + seq!['\n']);
                    assert(piece_views(rows@[i as int]@) == merged(seen));
                    assert(coloured_pieces(piece_views(rows@[i as int]@), tagged@[i as int].3@));
                }
            },
            Err(error) => {
                proof {
                    assert(texts.take(i + 1 - 1) == texts.take(i as int));
                    assert(coloured_upto(key, name, texts, (i + 1) as nat) is None);
                    lemma_failure_stays(key, name, texts, (i + 1) as nat, texts.len());

                }
                return Err(error_text(&error));
            },
        }
    }
    Ok(rows)
}

/// Whether pieces are merged from highlighted fragments that spell `text` and a newline.
pub open spec fn coloured_pieces(pieces: Seq<(Seq<char>, Option<(u8, u8, u8)>)>, text: Seq<char>) -> bool {
    exists|fragments: Seq<((u8, u8, u8), Seq<char>)>|
        fragments_text(fragments) == text + seq!['\n'] && pieces == #[trigger] merged(fragments)
}

/// Whether a row is a tagged line coloured by syntect: its numbers and side, and pieces
/// merged from fragments that spell its text and a newline.
pub open spec fn coloured_as(
    row: (Option<nat>, Option<nat>, Tag, Seq<(Seq<char>, Option<(u8, u8, u8)>)>),
    tagged: TaggedView,
) -> bool {
    &&& row.0 == tagged.0
    &&& row.1 == tagged.1
    &&& row.2 == tagged.2
    &&& coloured_pieces(row.3, tagged.3)
}

/// Whether any line tells of a binary file.
pub open spec fn any_binary(lines: Seq<Seq<char>>) -> bool {
    exists|i: int| 0 <= i < lines.len() && says_binary(#[trigger] lines[i])
}

/// What the pane shows for a file. `raw` is the tight-context diff shown in the raw mode;
/// `whole_file` is the same diff taken with the whole file as context, which carries the
/// tags of every line. A binary file shows no lines and says so; a file longer than the
/// highlighter is worth is shown plain and says so; otherwise every line is coloured in the
/// theme for a `dark` interface or a light one, or shown plain under a note when syntect
/// fails. `highlighting` holds the syntaxes and themes, loaded once.
pub fn prepare(
    raw: String,
    whole_file: &str,
    path: &str,
    dark: bool,
    highlighting: &Highlighting,
) -> (body: Body)
    requires
        tag_scan_fits(lines_of(whole_file@)),
    ensures
        body.raw@ == raw@,
        ({
            let lines = lines_of(whole_file@);
            let tagged = tag_scan(lines).0;
            if any_binary(lines) {
                body.note matches Some(n) && n@ == "this file is binary, so there is nothing to show"@
                    && body.rows@.len() == 0
            } else if tagged.len() > HIGHLIGHT_LIMIT {
                body.note matches Some(n) && n@ == decimal(tagged.len()) + " lines is more than gg highlights, so this is shown plain"@
                    && line_views(body.rows@) == plain(tagged)
            } else {
                match coloured_lines(path@, dark, line_texts(tagged)) {
                    Some(pieces) => body.note is None && line_views(body.rows@) == with_pieces(
                        tagged,
                        pieces,
                    ) && forall|i: int|
                        0 <= i < tagged.len() ==> #[trigger] coloured_as(
                            line_views(body.rows@)[i],
                            tagged[i],
                        ),
                    None => body.note matches Some(n) && "could not highlight this file: "@.is_prefix_of(
                        n@,
                    ) && line_views(body.rows@) == plain(tagged),
                }
            }
        }),
{
    let lines = text_lines(whole_file);
    let ghost views = lines@.map_values(|l: Vec<char>| l@);
    let binary_files = chars_of("Binary files");
    let binary_patch = chars_of("GIT binary patch");
    let mut binary = false;
    for i in 0..lines.len()
        invariant
            views == lines@.map_values(|l: Vec<char>| l@),
            binary_files@ == "Binary files"@,
            binary_patch@ == "GIT binary patch"@,
            binary == exists|k: int| 0 <= k < i && says_binary(#[trigger] views[k]),
    {
        assert(views[i as int] == lines@[i as int]@);
        if starts_with(&lines[i], &binary_files) || starts_with(&lines[i], &binary_patch) {
            binary = true;
        }
    }
    if binary {
        return Body {
            raw,
            note: Some("this file is binary, so there is nothing to show".to_owned()),
            rows: Vec::new(),
        };
    }
    let tagged = tag_lines(&lines);
    if tagged.len() > HIGHLIGHT_LIMIT {
        let mut note = decimal_of(tagged.len() as u64);
        note.append(&mut chars_of(" lines is more than gg highlights, so this is shown plain"));
        return Body { raw, note: Some(string_of(&note)), rows: plain_rows(tagged) };
    }
    match highlight(&tagged, path, dark, highlighting) {
        Ok(coloured) => {
            let ghost coloured_views = coloured@;
            let mut rows: Vec<Line> = Vec::new();
            let mut coloured = coloured;
            let mut i: usize = 0;
            while i < tagged.len()
                invariant
                    i <= tagged.len(),
                    coloured_views.len() == tagged.len(),
                    coloured@ == coloured_views.skip(i as int),
                    rows.len() == i,
                    forall|k: int|
                        0 <= k < i ==> #[trigger] line_views(rows@)[k] == (
                            tagged_views(tagged@)[k].0,
                            tagged_views(tagged@)[k].1,
                            tagged_views(tagged@)[k].2,
                            piece_views(coloured_views[k]@),
                        ),
                decreases tagged.len() - i,
            {
                let pieces = coloured.remove(0);
                assert(pieces == coloured_views[i as int]);
                assert(coloured@ == coloured_views.skip(i + 1));
                let ghost before = line_views(rows@);
                rows.push(Line { old: tagged[i].0, new: tagged[i].1, tag: tagged[i].2, pieces });
                assert(line_views(rows@) =~= before.push(
                    (
                        tagged_views(tagged@)[i as int].0,
                        tagged_views(tagged@)[i as int].1,
                        tagged_views(tagged@)[i as int].2,
                        piece_views(coloured_views[i as int]@),
                    ),
                ));
                i = i + 1;
            }
            assert(line_views(rows@) =~= with_pieces(tagged_views(tagged@), piece_rows(coloured_views)));
            Body { raw, note: None, rows }
        },
        Err(error) => {
            let mut note = chars_of("could not highlight this file: ");
            note.append(&mut chars_of(error.as_str()));
            Body { raw, note: Some(string_of(&note)), rows: plain_rows(tagged) }
        },
    }
}

/// Where the pane opens: a few lines above the first change, so the change opens with the
/// lines that lead into it. Nothing for a file with no change.
pub fn first_change(body: &Body) -> (at: Option<usize>)
    ensures
        match at {
            Some(row) => exists|k: int|
                0 <= k < body.rows.len() && body.rows@[k].tag != Tag::Unchanged && (forall|j: int|
                    0 <= j < k ==> body.rows@[j].tag == Tag::Unchanged) && row == if k >= 3 {
                    k - 3
                } else {
                    0
                },
            None => forall|j: int| 0 <= j < body.rows.len() ==> body.rows@[j].tag == Tag::Unchanged,
        },
{
    for i in 0..body.rows.len()
        invariant
            forall|j: int| 0 <= j < i ==> body.rows@[j].tag == Tag::Unchanged,
    {
        if body.rows[i].tag != Tag::Unchanged {
            return Some(if i >= CONTEXT_LINES {
                i - CONTEXT_LINES
            } else {
                0
            });
        }
    }
    None
}

} // verus!