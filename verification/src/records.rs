//! Value types for one diff pass: a changed file, a hunk, a line, and the
//! classification of a line's origin marker. Each type is built once from
//! the plain values of a raw diff-engine record and never changed after.

use crate::text::decoded_or_empty;
use crate::text::lemma_lex_lt_asymmetric;
use crate::text::lemma_lex_lt_connected;
use crate::text::lex_lt;
use crate::text::lossy_decode;
use crate::text::str_lex_lt;
use vstd::prelude::*;

verus! {

/// Kind of one diff line, as told by its single-character origin marker.
#[derive(Clone, Copy, Debug, PartialEq, Eq, Structural)]
pub enum LineKind {
    Addition,
    Deletion,
    Unused,
}

/// Meaning of an origin marker: `'+'` marks an addition, `'-'` a deletion,
/// and every other marker (context, metadata, binary) is unused.
pub open spec fn classified(origin: char) -> LineKind {
    if origin == '+' {
        LineKind::Addition
    } else if origin == '-' {
        LineKind::Deletion
    } else {
        LineKind::Unused
    }
}

/// Map a diff line's origin marker to its kind.
pub fn classify(origin: char) -> (kind: LineKind)
    ensures
        kind == classified(origin),
{
    match origin {
        '+' => LineKind::Addition,
        '-' => LineKind::Deletion,
        _ => LineKind::Unused,
    }
}

impl LineKind {
    /// The symbolic tag under which a kind is presented to a caller.
    pub fn tag(&self) -> (s: &'static str)
        ensures
            s@ == (match *self {
                LineKind::Addition => "addition"@,
                LineKind::Deletion => "deletion"@,
                LineKind::Unused => "unused"@,
            }),
    {
        match self {
            LineKind::Addition => "addition",
            LineKind::Deletion => "deletion",
            LineKind::Unused => "unused",
        }
    }
}

/// A file of the working tree, identified by its path relative to the
/// repository root. The outer key of the index.
#[derive(Clone, Debug)]
pub struct File {
    pub path: String,
}

impl View for File {
    type V = Seq<char>;

    open spec fn view(&self) -> Seq<char> {
        self.path@
    }
}

impl File {
    /// Build a `File` from the raw new-side path of a file delta: an absent
    /// or undecodable path degrades to the empty string.
    pub fn from_raw(path: Option<Vec<u8>>) -> (f: File)
        ensures
            f@ == (match path {
                Some(b) => decoded_or_empty(b@),
                None => Seq::<char>::empty(),
            }),
    {
        match path {
            Some(b) => File { path: lossy_decode(b) },
            None => File { path: String::new() },
        }
    }

    /// Build a `File` directly from a path string.
    pub fn from_path(path: String) -> (f: File)
        ensures
            f@ == path@,
    {
        File { path }
    }
}

/// Mathematical value of a `Hunk`: its four identifying fields.
pub ghost struct HunkView {
    pub header: Seq<char>,
    pub new_start: u32,
    pub old_start: u32,
    pub new_lines: u32,
}

/// A contiguous block of changed lines in the new version of a file. The
/// four fields together are the hunk's identity within one diff pass.
#[derive(Clone, Debug)]
pub struct Hunk {
    pub header: String,
    pub new_start: u32,
    pub old_start: u32,
    pub new_lines: u32,
}

impl View for Hunk {
    type V = HunkView;

    open spec fn view(&self) -> HunkView {
        HunkView {
            header: self.header@,
            new_start: self.new_start,
            old_start: self.old_start,
            new_lines: self.new_lines,
        }
    }
}

impl Hunk {
    /// Build a `Hunk` from a raw engine record: the header bytes are decoded
    /// as UTF-8 (an undecodable header degrades to the empty string rather
    /// than failing the scan); the numeric fields are carried verbatim.
    pub fn from_raw(header: Vec<u8>, new_start: u32, old_start: u32, new_lines: u32) -> (h: Hunk)
        ensures
            h@ == (HunkView {
                header: decoded_or_empty(header@),
                new_start,
                old_start,
                new_lines,
            }),
    {
        Hunk { header: lossy_decode(header), new_start, old_start, new_lines }
    }
}

/// Strict total order on hunks: ascending by `new_start`, ties broken by
/// `old_start`, then by header text, then by `new_lines`. The projection
/// returns hunks in this order, whatever order the engine emitted them in.
pub open spec fn hunk_lt(a: HunkView, b: HunkView) -> bool {
    if a.new_start != b.new_start {
        a.new_start < b.new_start
    } else if a.old_start != b.old_start {
        a.old_start < b.old_start
    } else if a.header != b.header {
        lex_lt(a.header, b.header)
    } else {
        a.new_lines < b.new_lines
    }
}

/// `hunk_lt` never holds in both directions.
pub proof fn lemma_hunk_lt_asymmetric(a: HunkView, b: HunkView)
    ensures
        hunk_lt(a, b) ==> !hunk_lt(b, a),
{
    lemma_lex_lt_asymmetric(a.header, b.header);
}

/// Distinct hunk keys are ordered one way or the other.
pub proof fn lemma_hunk_lt_connected(a: HunkView, b: HunkView)
    ensures
        a != b && !hunk_lt(a, b) ==> hunk_lt(b, a),
{
    lemma_lex_lt_connected(a.header, b.header);
    if a != b && !hunk_lt(a, b) && a.new_start == b.new_start && a.old_start == b.old_start
        && a.header == b.header {
        assert(a.new_lines != b.new_lines);
    }
}

/// `hunk_lt` is transitive.
pub proof fn lemma_hunk_lt_transitive(a: HunkView, b: HunkView, c: HunkView)
    ensures
        hunk_lt(a, b) && hunk_lt(b, c) ==> hunk_lt(a, c),
{
    crate::text::lemma_lex_lt_transitive(a.header, b.header, c.header);
    lemma_lex_lt_asymmetric(a.header, b.header);
    lemma_lex_lt_asymmetric(b.header, c.header);
}

impl Hunk {
    /// Whether two hunks are the same key: all four fields equal.
    pub fn same_key(&self, other: &Hunk) -> (r: bool)
        ensures
            r == (self@ == other@),
    {
        let r = self.new_start == other.new_start && self.old_start == other.old_start
            && self.new_lines == other.new_lines && self.header == other.header;
        proof {
            if r {
                assert(self@ == other@);
            }
        }
        r
    }

    /// Whether `self` sorts strictly before `other` in the hunk order.
    pub fn sorts_before(&self, other: &Hunk) -> (r: bool)
        ensures
            r == hunk_lt(self@, other@),
    {
        if self.new_start != other.new_start {
            self.new_start < other.new_start
        } else if self.old_start != other.old_start {
            self.old_start < other.old_start
        } else if !(self.header == other.header) {
            str_lex_lt(self.header.as_str(), other.header.as_str())
        } else {
            self.new_lines < other.new_lines
        }
    }
}

/// Mathematical value of a `Line`.
pub ghost struct LineView {
    pub content: Seq<char>,
    pub kind: LineKind,
    pub line: Option<u32>,
}

/// One line of a hunk's unified-diff presentation: its text, its kind, and
/// the 1-based new-file line number where the engine reports one.
#[derive(Clone, Debug)]
pub struct Line {
    pub content: String,
    pub kind: LineKind,
    pub line: Option<u32>,
}

impl View for Line {
    type V = LineView;

    open spec fn view(&self) -> LineView {
        LineView { content: self.content@, kind: self.kind, line: self.line }
    }
}

impl Line {
    /// Build a `Line` from a raw engine record: the content bytes are
    /// decoded as UTF-8 (degrading to the empty string), the origin marker
    /// is classified, and the optional line number is carried over.
    pub fn from_raw(content: Vec<u8>, origin: char, line: Option<u32>) -> (l: Line)
        ensures
            l@ == (LineView {
                content: decoded_or_empty(content@),
                kind: classified(origin),
                line,
            }),
    {
        Line { content: lossy_decode(content), kind: classify(origin), line }
    }
}

} // verus!
