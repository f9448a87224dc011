use git_tube::records::File;
use git_tube::records::Hunk;
use git_tube::records::Line;
use git_tube::records::LineKind;
use git_tube::text::str_lex_lt;
use git_tube::text::trim_matching_start;

#[test]
fn line_from_raw_decodes_content() {
    let l = Line::from_raw(b"hello".to_vec(), '+', Some(3));
    assert_eq!(l.content, "hello");
    assert_eq!(l.kind, LineKind::Addition);
    assert_eq!(l.line, Some(3));
}

#[test]
fn line_from_raw_bad_bytes_give_empty_content() {
    let l = Line::from_raw(vec![0xff, 0xfe, 0x41], '-', None);
    assert_eq!(l.content, "");
    assert_eq!(l.kind, LineKind::Deletion);
    assert_eq!(l.line, None);
}

#[test]
fn file_from_raw_absent_path_is_empty() {
    let f = File::from_raw(None);
    assert_eq!(f.path, "");
}

#[test]
fn file_from_raw_decodes_path() {
    let f = File::from_raw(Some(b"src/a.rs".to_vec()));
    assert_eq!(f.path, "src/a.rs");
}

#[test]
fn hunk_from_raw_bad_header_is_empty() {
    let h = Hunk::from_raw(vec![0xc0, 0x00], 3, 2, 1);
    assert_eq!(h.header, "");
    assert_eq!(h.new_start, 3);
    assert_eq!(h.old_start, 2);
    assert_eq!(h.new_lines, 1);
}

#[test]
fn trim_removes_leading_occurrences() {
    assert_eq!(trim_matching_start("/home/u/repo/a.txt", "/home/u/repo/"), "a.txt");
    assert_eq!(trim_matching_start("ababc", "ab"), "c");
    assert_eq!(trim_matching_start("abc", "xy"), "abc");
    assert_eq!(trim_matching_start("abc", ""), "abc");
    assert_eq!(trim_matching_start("", "ab"), "");
    assert_eq!(trim_matching_start("abab", "ab"), "");
}

#[test]
fn lexicographic_order_on_strings() {
    assert!(str_lex_lt("abc", "abd"));
    assert!(str_lex_lt("", "a"));
    assert!(str_lex_lt("a", "ab"));
    assert!(!str_lex_lt("b", "a"));
    assert!(!str_lex_lt("abc", "abc"));
    assert!(!str_lex_lt("ab", "a"));
}
