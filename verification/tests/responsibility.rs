use responsibility_tree::responsibility::{
    get_responsibility, no_responsibility, scan_chars, scan_line, scan_read, LineRead, LineScan,
};

fn file_of(lines: &[&str]) -> Vec<String> {
    lines.iter().map(|l| l.to_string()).collect()
}

fn marks_of(line: &str) -> Vec<(char, bool)> {
    line.chars().map(|c| (c, c == ' ' || c == '\t')).collect()
}

#[test]
fn slash_comment_gives_what_follows_the_slashes() {
    assert_eq!(get_responsibility(&file_of(&["// does X"])), "does X");
}

#[test]
fn hash_comment_gives_what_follows_the_hash() {
    assert_eq!(get_responsibility(&file_of(&["# does Y"])), "does Y");
}

#[test]
fn first_line_without_marker_gives_the_fallback() {
    assert_eq!(
        get_responsibility(&file_of(&["", "   ", "does Z"])),
        "No responsibility comment"
    );
}

#[test]
fn empty_file_gives_the_fallback() {
    assert_eq!(get_responsibility(&file_of(&[])), "No responsibility comment");
}

#[test]
fn file_of_blank_lines_gives_the_fallback() {
    assert_eq!(
        get_responsibility(&file_of(&["", " \t ", "\u{3000}"])),
        "No responsibility comment"
    );
}

#[test]
fn blank_lines_before_the_comment_are_skipped() {
    assert_eq!(
        get_responsibility(&file_of(&["", "\t", "  // after blanks", "// second"])),
        "after blanks"
    );
}

#[test]
fn only_the_first_line_that_is_not_blank_counts() {
    assert_eq!(
        get_responsibility(&file_of(&["fn main() {}", "// too late"])),
        "No responsibility comment"
    );
}

#[test]
fn all_leading_markers_are_stripped() {
    assert_eq!(get_responsibility(&file_of(&["//// TODO"])), "TODO");
    assert_eq!(get_responsibility(&file_of(&["## heading"])), "heading");
    assert_eq!(get_responsibility(&file_of(&["//# / mixed"])), "mixed");
}

#[test]
fn markers_inside_the_text_stay() {
    assert_eq!(
        get_responsibility(&file_of(&["// see a/b #3"])),
        "see a/b #3"
    );
}

#[test]
fn shebang_keeps_what_follows_the_hash() {
    assert_eq!(get_responsibility(&file_of(&["#!/bin/sh"])), "!/bin/sh");
}

#[test]
fn surrounding_white_space_is_trimmed() {
    assert_eq!(
        get_responsibility(&file_of(&["  \t//   padded text \t "])),
        "padded text"
    );
}

#[test]
fn carriage_return_at_the_end_is_trimmed() {
    assert_eq!(get_responsibility(&file_of(&["// dos line\r"])), "dos line");
}

#[test]
fn unicode_white_space_counts_as_white_space() {
    assert_eq!(
        get_responsibility(&file_of(&["\u{3000}//\u{a0}wide\u{2003}"])),
        "wide"
    );
}

#[test]
fn a_single_slash_is_no_comment() {
    assert_eq!(
        get_responsibility(&file_of(&["/ not a comment"])),
        "No responsibility comment"
    );
    assert_eq!(
        get_responsibility(&file_of(&["/* block */"])),
        "No responsibility comment"
    );
}

#[test]
fn a_bare_marker_gives_an_empty_responsibility() {
    assert_eq!(get_responsibility(&file_of(&["#"])), "");
    assert_eq!(get_responsibility(&file_of(&["//"])), "");
    assert_eq!(get_responsibility(&file_of(&["// ## //"])), "");
}

#[test]
fn fallback_text_is_fixed() {
    assert_eq!(no_responsibility(), "No responsibility comment");
}

#[test]
fn scan_line_tells_blank_comment_and_other_apart() {
    assert!(matches!(scan_line(""), LineScan::Blank));
    assert!(matches!(scan_line(" \t "), LineScan::Blank));
    assert!(matches!(scan_line("let x = 1;"), LineScan::Other));
    assert!(matches!(scan_line("  x // trailing"), LineScan::Other));
    match scan_line("  # tidy up ") {
        LineScan::Comment(text) => assert_eq!(text, "tidy up"),
        other => panic!("expected a comment, got {:?}", other),
    }
}

#[test]
fn scan_line_keeps_characters_outside_ascii() {
    match scan_line("// 責務 を 表示") {
        LineScan::Comment(text) => assert_eq!(text, "責務 を 表示"),
        other => panic!("expected a comment, got {:?}", other),
    }
}

#[test]
fn scan_chars_goes_by_the_marks_it_is_given() {
    match scan_chars(&marks_of("  // does X  ")) {
        LineScan::Comment(text) => assert_eq!(text, "does X"),
        other => panic!("expected a comment, got {:?}", other),
    }
    assert!(matches!(scan_chars(&marks_of("   ")), LineScan::Blank));
    assert!(matches!(scan_chars(&marks_of("code")), LineScan::Other));
    assert!(matches!(scan_chars(&Vec::new()), LineScan::Blank));
}

#[test]
fn scan_chars_treats_an_unmarked_space_as_text() {
    let line: Vec<(char, bool)> = "// x".chars().map(|c| (c, false)).collect();
    match scan_chars(&line) {
        LineScan::Comment(text) => assert_eq!(text, " x"),
        other => panic!("expected a comment, got {:?}", other),
    }
    let spaces: Vec<(char, bool)> = "  ".chars().map(|c| (c, false)).collect();
    assert!(matches!(scan_chars(&spaces), LineScan::Other));
}

#[test]
fn scan_chars_strips_a_marked_character_whatever_it_is() {
    let line = vec![('x', true), ('#', false), ('x', true), ('y', false), ('x', true)];
    match scan_chars(&line) {
        LineScan::Comment(text) => assert_eq!(text, "y"),
        other => panic!("expected a comment, got {:?}", other),
    }
}

#[test]
fn a_line_of_text_that_was_read_is_scanned() {
    assert!(matches!(scan_read(&LineRead::Text("   ".to_string())), LineScan::Blank));
    assert!(matches!(scan_read(&LineRead::Text("x = 1".to_string())), LineScan::Other));
    match scan_read(&LineRead::Text("# does Y".to_string())) {
        LineScan::Comment(text) => assert_eq!(text, "does Y"),
        other => panic!("expected a comment, got {:?}", other),
    }
}

#[test]
fn a_line_that_is_no_text_is_passed_over() {
    assert!(matches!(scan_read(&LineRead::NotText), LineScan::Blank));
}

#[test]
fn a_file_that_cannot_be_read_states_no_responsibility() {
    assert!(matches!(scan_read(&LineRead::Failed), LineScan::Other));
}

#[test]
fn the_ascii_controls_from_tab_to_carriage_return_are_white_space() {
    for c in ['\t', '\n', '\u{b}', '\u{c}', '\r', ' '] {
        assert!(matches!(scan_line(&c.to_string()), LineScan::Blank), "{:?}", c);
    }
    for c in ['\u{8}', '\u{e}', '\u{1f}', '\u{7f}', '\0', '_'] {
        assert!(matches!(scan_line(&c.to_string()), LineScan::Other), "{:?}", c);
    }
}
