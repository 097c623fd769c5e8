use gg::ui::diff::{
    extension, first_change, hunk_start, pieces_of, prepare, tag_lines, text_lines, theme_name, Body, Highlighting,
    Tag,
};

const WHOLE_FILE: &str = "diff --git a/a.rs b/a.rs\nindex 1111111..2222222 100644\n--- a/a.rs\n+++ b/a.rs\n@@ -1,3 +1,3 @@\n fn main() {}\n-let old = 1;\n+let new = 1;\n";

fn prepared(raw: String, whole_file: &str, path: &str) -> Body {
    prepare(raw, whole_file, path, true, &Highlighting::bundled())
}

#[test]
fn a_binary_file_says_so_and_shows_no_rows() {
    let body = prepared(
        String::new(),
        "diff --git a/logo.png b/logo.png\nBinary files a/logo.png and b/logo.png differ\n",
        "logo.png",
    );

    assert!(body.rows.is_empty());
    assert!(body.note.is_some_and(|note| note.contains("binary")));
}

#[test]
fn a_file_with_no_change_has_nothing_to_show() {
    let body = prepared(String::new(), "", "a.rs");

    assert!(body.rows.is_empty());
    assert!(body.note.is_none());
}

#[test]
fn every_line_keeps_its_tag_and_its_numbers() {
    let body = prepared(String::new(), WHOLE_FILE, "a.rs");

    let rows: Vec<_> = body
        .rows
        .iter()
        .map(|line| (line.old, line.new, line.tag))
        .collect();

    assert_eq!(
        rows,
        vec![
            (Some(1), Some(1), Tag::Unchanged),
            (Some(2), None, Tag::Removed),
            (None, Some(2), Tag::Added),
        ]
    );
    assert_eq!(
        body.rows[2]
            .pieces
            .iter()
            .map(|piece| piece.text.as_str())
            .collect::<String>(),
        "let new = 1;"
    );
}

#[test]
fn highlighted_pieces_carry_colours() {
    let body = prepared("raw".to_owned(), WHOLE_FILE, "a.rs");
    assert_eq!(body.raw, "raw");
    assert!(body.rows.iter().all(|row| row.pieces.iter().all(|piece| piece.colour.is_some())));
    assert!(body.rows[0].pieces.len() > 1, "rust is coloured by more than one scope");
}

#[test]
fn a_file_with_an_unknown_extension_reads_as_plain_text() {
    let body = prepared(String::new(), WHOLE_FILE, "notes.unknownext");
    assert!(body.note.is_none());
    assert_eq!(
        body.rows[1]
            .pieces
            .iter()
            .map(|piece| piece.text.as_str())
            .collect::<String>(),
        "let old = 1;"
    );
}

#[test]
fn a_long_file_is_shown_plain() {
    let mut whole = String::from("@@ -1,3001 +1,3001 @@\n");
    for n in 0..3001 {
        whole.push_str(&format!(" line {n}\n"));
    }
    let body = prepared(String::new(), &whole, "a.txt");
    assert_eq!(
        body.note.as_deref(),
        Some("3001 lines is more than gg highlights, so this is shown plain")
    );
    assert_eq!(body.rows.len(), 3001);
    assert_eq!(body.rows[0].pieces[0].colour, None);
    assert_eq!(body.rows[3000].new, Some(3001));
}

#[test]
fn the_pane_opens_a_few_lines_above_the_first_change() {
    let mut whole = String::from("@@ -1,10 +1,10 @@\n");
    for n in 0..6 {
        whole.push_str(&format!(" same {n}\n"));
    }
    whole.push_str("-gone\n+come\n");
    let body = prepared(String::new(), &whole, "a.txt");
    assert_eq!(first_change(&body), Some(3));

    let quiet = prepared(String::new(), "@@ -1 +1 @@\n same\n", "a.txt");
    assert_eq!(first_change(&quiet), None);

    let early = prepared(String::new(), "@@ -1 +1 @@\n-a\n+b\n", "a.txt");
    assert_eq!(first_change(&early), Some(0));
}

#[test]
fn a_hunk_header_gives_its_starting_numbers() {
    let chars = |text: &str| text.chars().collect::<Vec<char>>();
    assert_eq!(hunk_start(&chars("@@ -12,7 +14,8 @@ fn main()")), Some((11, 13)));
    assert_eq!(hunk_start(&chars("@@ -0,0 +1 @@")), Some((0, 0)));
    assert_eq!(hunk_start(&chars(" context")), None);
}

#[test]
fn lines_split_as_str_lines_does() {
    let lines = text_lines("one\r\ntwo\n\nthree");
    let lines: Vec<String> = lines.iter().map(|line| line.iter().collect()).collect();
    assert_eq!(lines, ["one", "two", "", "three"]);
    assert!(text_lines("").is_empty());
    assert_eq!(text_lines("a\n").len(), 1);
}

#[test]
fn tags_follow_the_hunk_numbers() {
    let lines = text_lines("@@ -5,2 +7,2 @@\n kept\n-old\n+new\n\\ No newline at end of file\n");
    let tagged = tag_lines(&lines);
    let rows: Vec<_> = tagged.iter().map(|row| (row.0, row.1, row.2)).collect();
    assert_eq!(
        rows,
        [
            (Some(5), Some(7), Tag::Unchanged),
            (Some(6), None, Tag::Removed),
            (None, Some(8), Tag::Added),
        ]
    );
}

#[test]
fn fragments_of_one_colour_join_and_newlines_go() {
    let red = (200, 0, 0);
    let blue = (0, 0, 200);
    let pieces = pieces_of(vec![
        (red, "let".to_owned()),
        (red, " x".to_owned()),
        (blue, "".to_owned()),
        (blue, " = 1;\n".to_owned()),
        (blue, "\n".to_owned()),
    ]);
    let seen: Vec<(&str, Option<(u8, u8, u8)>)> =
        pieces.iter().map(|piece| (piece.text.as_str(), piece.colour)).collect();
    assert_eq!(seen, [("let x", Some(red)), (" = 1;", Some(blue))]);
}

#[test]
fn an_extension_is_taken_from_the_file_name() {
    let text = |found: Option<Vec<char>>| found.map(|chars| chars.into_iter().collect::<String>());
    assert_eq!(text(extension("src/main.rs")).as_deref(), Some("rs"));
    assert_eq!(text(extension("archive.tar.gz")).as_deref(), Some("gz"));
    assert_eq!(text(extension(".bashrc")), None);
    assert_eq!(text(extension("Makefile")), None);
    assert_eq!(text(extension("dir.d/file")), None);
}

#[test]
fn each_side_has_its_theme() {
    assert_eq!(theme_name(true), "base16-ocean.dark");
    assert_eq!(theme_name(false), "InspiredGitHub");
}

#[test]
fn line_numbers_that_fit_are_told_from_those_that_do_not() {
    assert!(gg::ui::diff::tags_fit(WHOLE_FILE));
    assert!(gg::ui::diff::tags_fit(""));
    let last = format!("@@ -{max},1 +{max},1 @@\n same\n", max = usize::MAX);
    assert!(gg::ui::diff::tags_fit(&last));
    let beyond = format!("@@ -{max},2 +1,2 @@\n same\n-gone\n", max = usize::MAX);
    assert!(!gg::ui::diff::tags_fit(&beyond));
}

#[test]
fn a_light_interface_colours_the_file_in_another_theme() {
    let highlighting = Highlighting::bundled();
    let dark = prepare(String::new(), WHOLE_FILE, "a.rs", true, &highlighting);
    let light = prepare(String::new(), WHOLE_FILE, "a.rs", false, &highlighting);
    assert!(dark.note.is_none() && light.note.is_none());
    let colours = |body: &Body| -> Vec<Option<(u8, u8, u8)>> {
        body.rows.iter().flat_map(|row| row.pieces.iter().map(|piece| piece.colour)).collect()
    };
    assert_ne!(colours(&dark), colours(&light));
}
