use git_tube::index::DiffIndex;
use git_tube::index::HunkEntry;
use git_tube::records::File;
use git_tube::records::Hunk;
use git_tube::records::Line;
use git_tube::records::LineKind;

fn record(
    ix: &mut DiffIndex,
    path: &str,
    header: &str,
    new_start: u32,
    old_start: u32,
    new_lines: u32,
    content: &[u8],
    origin: char,
    lineno: Option<u32>,
) {
    ix.record_line(
        File::from_raw(Some(path.as_bytes().to_vec())),
        Hunk::from_raw(header.as_bytes().to_vec(), new_start, old_start, new_lines),
        Line::from_raw(content.to_vec(), origin, lineno),
    );
}

fn project(ix: DiffIndex, path: &str) -> Option<Vec<HunkEntry>> {
    ix.project(&File::from_path(path.to_string()))
}

#[test]
fn empty_index_projects_none() {
    let ix = DiffIndex::new();
    assert!(project(ix, "a.txt").is_none());
}

#[test]
fn unknown_file_projects_none() {
    let mut ix = DiffIndex::new();
    record(&mut ix, "a.txt", "@@ -2,0 +3,1 @@", 3, 2, 1, b"hello", '+', Some(3));
    assert!(project(ix, "b.txt").is_none());
}

#[test]
fn single_added_line() {
    let mut ix = DiffIndex::new();
    record(&mut ix, "a.txt", "@@ -2,0 +3,1 @@", 3, 2, 1, b"hello", '+', Some(3));
    let v = project(ix, "a.txt").unwrap();
    assert!(!v.is_empty());
    assert_eq!(v.len(), 1);
    assert_eq!(v[0].hunk.header, "@@ -2,0 +3,1 @@");
    assert_eq!(v[0].hunk.new_start, 3);
    assert_eq!(v[0].hunk.old_start, 2);
    assert_eq!(v[0].hunk.new_lines, 1);
    assert_eq!(v[0].lines.len(), 1);
    assert_eq!(v[0].lines[0].content, "hello");
    assert_eq!(v[0].lines[0].kind, LineKind::Addition);
    assert_eq!(v[0].lines[0].line, Some(3));
}

#[test]
fn hunks_ordered_by_new_start() {
    let mut ix = DiffIndex::new();
    record(&mut ix, "a.txt", "@@ -49,0 +50,1 @@", 50, 49, 1, b"later", '+', Some(50));
    record(&mut ix, "a.txt", "@@ -9,0 +10,1 @@", 10, 9, 1, b"earlier", '+', Some(10));
    let v = project(ix, "a.txt").unwrap();
    assert_eq!(v.len(), 2);
    assert_eq!(v[0].hunk.new_start, 10);
    assert_eq!(v[0].lines[0].content, "earlier");
    assert_eq!(v[1].hunk.new_start, 50);
    assert_eq!(v[1].lines[0].content, "later");
}

#[test]
fn hunk_ties_broken_by_old_start_then_header() {
    let mut ix = DiffIndex::new();
    record(&mut ix, "a.txt", "@@ -9,0 +5,1 @@", 5, 9, 1, b"second", '+', Some(5));
    record(&mut ix, "a.txt", "@@ -3,0 +5,1 @@", 5, 3, 1, b"first", '+', Some(5));
    let v = project(ix, "a.txt").unwrap();
    assert_eq!(v.len(), 2);
    assert_eq!(v[0].hunk.old_start, 3);
    assert_eq!(v[1].hunk.old_start, 9);

    let mut ix2 = DiffIndex::new();
    record(&mut ix2, "a.txt", "@@ b @@", 5, 3, 1, b"second", '+', Some(5));
    record(&mut ix2, "a.txt", "@@ a @@", 5, 3, 1, b"first", '+', Some(5));
    let v2 = project(ix2, "a.txt").unwrap();
    assert_eq!(v2.len(), 2);
    assert_eq!(v2[0].hunk.header, "@@ a @@");
    assert_eq!(v2[1].hunk.header, "@@ b @@");
}

#[test]
fn line_order_within_hunk_preserved() {
    let mut ix = DiffIndex::new();
    record(&mut ix, "a.txt", "@@ -2,1 +3,3 @@", 3, 2, 3, b"one", '+', Some(3));
    record(&mut ix, "a.txt", "@@ -2,1 +3,3 @@", 3, 2, 3, b"two", '-', None);
    record(&mut ix, "a.txt", "@@ -2,1 +3,3 @@", 3, 2, 3, b"three", '+', Some(4));
    let v = project(ix, "a.txt").unwrap();
    assert_eq!(v.len(), 1);
    assert_eq!(v[0].lines.len(), 3);
    assert_eq!(v[0].lines[0].content, "one");
    assert_eq!(v[0].lines[1].content, "two");
    assert_eq!(v[0].lines[2].content, "three");
    assert_eq!(v[0].lines[1].kind, LineKind::Deletion);
    assert_eq!(v[0].lines[1].line, None);
}

#[test]
fn undecodable_line_content_is_empty_and_scan_continues() {
    let mut ix = DiffIndex::new();
    record(&mut ix, "a.txt", "@@ -2,0 +3,2 @@", 3, 2, 2, &[0xff, 0xfe], '+', Some(3));
    record(&mut ix, "a.txt", "@@ -2,0 +3,2 @@", 3, 2, 2, b"fine", '+', Some(4));
    let v = project(ix, "a.txt").unwrap();
    assert_eq!(v.len(), 1);
    assert_eq!(v[0].lines.len(), 2);
    assert_eq!(v[0].lines[0].content, "");
    assert_eq!(v[0].lines[0].kind, LineKind::Addition);
    assert_eq!(v[0].lines[1].content, "fine");
}

#[test]
fn separate_files_do_not_mix() {
    let mut ix = DiffIndex::new();
    record(&mut ix, "a.txt", "@@ -1,0 +2,1 @@", 2, 1, 1, b"in a", '+', Some(2));
    record(&mut ix, "b.txt", "@@ -7,0 +8,1 @@", 8, 7, 1, b"in b", '+', Some(8));
    let va = project(ix, "a.txt").unwrap();
    assert_eq!(va.len(), 1);
    assert_eq!(va[0].lines[0].content, "in a");

    let mut ix2 = DiffIndex::new();
    record(&mut ix2, "a.txt", "@@ -1,0 +2,1 @@", 2, 1, 1, b"in a", '+', Some(2));
    record(&mut ix2, "b.txt", "@@ -7,0 +8,1 @@", 8, 7, 1, b"in b", '+', Some(8));
    let vb = project(ix2, "b.txt").unwrap();
    assert_eq!(vb.len(), 1);
    assert_eq!(vb[0].hunk.new_start, 8);
    assert_eq!(vb[0].lines[0].content, "in b");
}

#[test]
fn interleaved_emission_regroups_by_key() {
    let mut ix = DiffIndex::new();
    record(&mut ix, "a.txt", "@@ -2,0 +3,2 @@", 3, 2, 2, b"first", '+', Some(3));
    record(&mut ix, "b.txt", "@@ -1,1 +1,1 @@", 1, 1, 1, b"elsewhere", '-', None);
    record(&mut ix, "a.txt", "@@ -2,0 +3,2 @@", 3, 2, 2, b"second", '+', Some(4));
    let v = project(ix, "a.txt").unwrap();
    assert_eq!(v.len(), 1);
    assert_eq!(v[0].lines.len(), 2);
    assert_eq!(v[0].lines[0].content, "first");
    assert_eq!(v[0].lines[1].content, "second");
}

fn build_sample() -> DiffIndex {
    let mut ix = DiffIndex::new();
    record(&mut ix, "a.txt", "@@ -49,0 +50,1 @@", 50, 49, 1, b"later", '+', Some(50));
    record(&mut ix, "b.txt", "@@ -1,1 +1,1 @@", 1, 1, 1, b"other", '-', None);
    record(&mut ix, "a.txt", "@@ -9,0 +10,2 @@", 10, 9, 2, b"earlier", '+', Some(10));
    record(&mut ix, "a.txt", "@@ -9,0 +10,2 @@", 10, 9, 2, b"more", '+', Some(11));
    ix
}

#[test]
fn projection_is_idempotent() {
    let first = project(build_sample(), "a.txt").unwrap();
    let second = project(build_sample(), "a.txt").unwrap();
    assert_eq!(first.len(), second.len());
    for (x, y) in first.iter().zip(second.iter()) {
        assert_eq!(x.hunk.header, y.hunk.header);
        assert_eq!(x.hunk.new_start, y.hunk.new_start);
        assert_eq!(x.hunk.old_start, y.hunk.old_start);
        assert_eq!(x.hunk.new_lines, y.hunk.new_lines);
        assert_eq!(x.lines.len(), y.lines.len());
        for (l, m) in x.lines.iter().zip(y.lines.iter()) {
            assert_eq!(l.content, m.content);
            assert_eq!(l.kind, m.kind);
            assert_eq!(l.line, m.line);
        }
    }
}
