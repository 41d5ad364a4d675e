use rent::slide::{load, Slide};

fn parse(input: &str) -> Result<Vec<Slide>, String> {
    load(input)
}

fn slides(input: &str) -> Vec<Slide> {
    parse(input).expect("input should parse into slides")
}

fn text_slide(lines: &[&str]) -> Slide {
    Slide { lines: lines.iter().map(|s| s.to_string()).collect(), embed: None }
}

#[test]
fn one_paragraph_per_slide() {
    let got = slides("first slide\nstill first\n\nsecond slide\n");
    assert_eq!(
        got,
        vec![
            text_slide(&["first slide", "still first"]),
            text_slide(&["second slide"]),
        ]
    );
}

#[test]
fn multiple_blank_lines_collapse_without_empty_slides() {
    let got = slides("a\n\n\n\n\nb\n\n\n");
    assert_eq!(got, vec![text_slide(&["a"]), text_slide(&["b"])]);
}

#[test]
fn comments_between_paragraphs_are_ignored() {
    let got = slides("# a comment\na\n\n# another\n# more\n\nb\n");
    assert_eq!(got, vec![text_slide(&["a"]), text_slide(&["b"])]);
}

#[test]
fn comment_inside_paragraph_does_not_split_slide() {
    let got = slides("one\n# hidden\ntwo\n");
    assert_eq!(got, vec![text_slide(&["one", "two"])]);
}

#[test]
fn at_on_first_line_sets_embed_and_keeps_line() {
    let got = slides("@image.ff\ncaption\n");
    assert_eq!(got.len(), 1);
    assert_eq!(got[0].embed, Some("image.ff".to_string()));
    assert_eq!(got[0].lines, vec!["@image.ff", "caption"]);
}

#[test]
fn at_on_non_first_line_does_not_set_embed() {
    let got = slides("title\n@not-an-image\n");
    assert_eq!(got, vec![text_slide(&["title", "@not-an-image"])]);
}

#[test]
fn comment_before_at_line_still_embeds() {
    /* a comment line is skipped entirely, so the '@' line is still
     * the first stored line of the paragraph */
    let got = slides("# note\n@pic.ff\n");
    assert_eq!(got.len(), 1);
    assert_eq!(got[0].embed, Some("pic.ff".to_string()));
    assert_eq!(got[0].lines, vec!["@pic.ff"]);
}

#[test]
fn backslash_escapes_at_and_is_stripped() {
    let got = slides("\\@foo\n");
    assert_eq!(got.len(), 1);
    assert_eq!(got[0].embed, None);
    assert_eq!(got[0].lines, vec!["@foo"]);
}

#[test]
fn backslash_escapes_hash_and_is_stripped() {
    let got = slides("a\n\\#bar\nb\n");
    assert_eq!(got, vec![text_slide(&["a", "#bar", "b"])]);
}

#[test]
fn lone_backslash_yields_empty_line_slide() {
    let got = slides("\\\n");
    assert_eq!(got, vec![text_slide(&[""])]);
}

#[test]
fn bare_at_sets_empty_embed() {
    let got = slides("@\n");
    assert_eq!(got.len(), 1);
    assert_eq!(got[0].embed, Some(String::new()));
    assert_eq!(got[0].lines, vec!["@"]);
}

#[test]
fn empty_input_is_error() {
    assert!(parse("").is_err());
}

#[test]
fn comments_and_blanks_only_is_error() {
    assert!(parse("# only a comment\n\n\n# another\n").is_err());
    assert!(parse("\n\n\n").is_err());
}

#[test]
fn crlf_line_endings_are_stripped() {
    let got = slides("a\r\nb\r\n\r\n@img.ff\r\n");
    assert_eq!(got.len(), 2);
    assert_eq!(got[0], text_slide(&["a", "b"]));
    assert_eq!(got[1].embed, Some("img.ff".to_string()));
    assert_eq!(got[1].lines, vec!["@img.ff"]);
}

#[test]
fn final_paragraph_without_trailing_newline() {
    let got = slides("a\n\nlast line");
    assert_eq!(got, vec![text_slide(&["a"]), text_slide(&["last line"])]);
}

#[test]
fn no_slides_error_message() {
    assert_eq!(parse("# nothing\n").unwrap_err(), "rent: no slides in file");
}

#[test]
fn comment_only_paragraph_makes_no_slide() {
    /* comments dropped wherever they stand: same slides with and without */
    let with = slides("a\n# x\n\n# y\n# z\n\nb\n# w\n");
    let without = slides("a\n\n\n\nb\n");
    assert_eq!(with, without);
}

#[test]
fn every_slide_has_a_line_and_embed_matches_first_line() {
    let got = slides("\n\n@one.ff\nx\n\n# c\n\n\\@two\n\n@\n");
    assert_eq!(got.len(), 3);
    for s in &got {
        assert!(!s.lines.is_empty());
        if let Some(e) = &s.embed {
            assert_eq!(s.lines[0], format!("@{e}"));
        }
    }
}

#[test]
fn lone_carriage_return_at_end_is_stripped() {
    let got = slides("a\r");
    assert_eq!(got, vec![text_slide(&["a"])]);
}

#[test]
fn two_carriage_returns_before_newline_are_stripped() {
    let got = slides("a\r\r\nb\n");
    assert_eq!(got, vec![text_slide(&["a", "b"])]);
}

#[test]
fn non_ascii_text_is_kept() {
    let got = slides("héllo wörld\n\n@bild-ä.ff\n");
    assert_eq!(got[0], text_slide(&["héllo wörld"]));
    assert_eq!(got[1].embed, Some("bild-ä.ff".to_string()));
}

#[test]
fn image_file_skips_empty_embed() {
    let got = slides("@pic.ff\n\n@\n\ntext\n");
    assert_eq!(got[0].image_file(), Some("pic.ff"));
    assert_eq!(got[1].image_file(), None);
    assert_eq!(got[2].image_file(), None);
}
