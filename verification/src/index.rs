//! The collector's index: file, then hunk, then the ordered lines of that
//! hunk, built from the diff engine's per-line events, and the projection
//! of one file's entry into an ordered sequence of hunks.

use crate::records::File;
use crate::records::Hunk;
use crate::records::HunkView;
use crate::records::Line;
use crate::records::LineView;
use crate::records::hunk_lt;
use crate::records::lemma_hunk_lt_asymmetric;
use crate::records::lemma_hunk_lt_connected;
use crate::records::lemma_hunk_lt_transitive;
use vstd::prelude::*;

verus! {

/// One hunk of a file's entry, with its lines in the order the diff
/// engine emitted them for that hunk.
pub struct HunkEntry {
    pub hunk: Hunk,
    pub lines: Vec<Line>,
}

/// One file's entry: the file and its hunks, kept in the hunk order.
pub struct FileEntry {
    pub file: File,
    pub hunks: Vec<HunkEntry>,
}

/// The in-memory index of one diff pass: for each changed file, for each
/// of its hunks, the lines of that hunk in emission order.
pub struct DiffIndex {
    pub files: Vec<FileEntry>,
}

/// Views of a sequence of lines.
pub open spec fn lines_view(ls: Seq<Line>) -> Seq<LineView> {
    ls.map_values(|l: Line| l@)
}

/// The mapping that a sequence of key/value pairs stands for; a later
/// occurrence of a key would win, though the index never holds two.
pub open spec fn assoc_map<K, V>(s: Seq<(K, V)>) -> Map<K, V>
    decreases s.len(),
{
    if s.len() == 0 {
        Map::empty()
    } else {
        assoc_map(s.drop_last()).insert(s.last().0, s.last().1)
    }
}

/// No key occurs twice.
pub open spec fn distinct_keys<K, V>(s: Seq<(K, V)>) -> bool {
    forall|i: int, j: int| 0 <= i < j < s.len() ==> (#[trigger] s[i].0) != (#[trigger] s[j].0)
}

/// Key/value pairs of a file entry's hunks.
pub open spec fn hunk_pairs(hs: Seq<HunkEntry>) -> Seq<(HunkView, Seq<LineView>)> {
    hs.map_values(|e: HunkEntry| (e.hunk@, lines_view(e.lines@)))
}

/// A file entry's hunks as a mapping from hunk key to lines.
pub open spec fn hunks_map(hs: Seq<HunkEntry>) -> Map<HunkView, Seq<LineView>> {
    assoc_map(hunk_pairs(hs))
}

/// Key/value pairs of the index's file entries.
pub open spec fn file_pairs(fs: Seq<FileEntry>) -> Seq<(Seq<char>, Map<HunkView, Seq<LineView>>)> {
    fs.map_values(|e: FileEntry| (e.file@, hunks_map(e.hunks@)))
}

impl View for DiffIndex {
    type V = Map<Seq<char>, Map<HunkView, Seq<LineView>>>;

    open spec fn view(&self) -> Map<Seq<char>, Map<HunkView, Seq<LineView>>> {
        assoc_map(file_pairs(self.files@))
    }
}

/// Well-formed hunk sequence: strictly ordered by `hunk_lt` (hence each
/// key occurs once), and no hunk without lines.
pub open spec fn wf_hunks(hs: Seq<HunkEntry>) -> bool {
    &&& forall|i: int, j: int|
        0 <= i < j < hs.len() ==> hunk_lt(#[trigger] hs[i].hunk@, #[trigger] hs[j].hunk@)
    &&& forall|i: int| 0 <= i < hs.len() ==> (#[trigger] hs[i].lines@).len() > 0
}

impl FileEntry {
    /// A file entry holds at least one hunk, in order.
    pub open spec fn wf(&self) -> bool {
        self.hunks@.len() > 0 && wf_hunks(self.hunks@)
    }
}

impl DiffIndex {
    /// Well-formed index: file paths are distinct and every entry is
    /// well-formed. Entries exist only for files with at least one
    /// recorded line.
    pub open spec fn wf(&self) -> bool {
        &&& forall|i: int, j: int|
            0 <= i < j < self.files@.len() ==> (#[trigger] self.files@[i].file@) != (
            #[trigger] self.files@[j].file@)
        &&& forall|i: int| 0 <= i < self.files@.len() ==> (#[trigger] self.files@[i]).wf()
    }
}

/// A per-file mapping after one line lands in hunk `h`: the line is
/// appended to `h`'s sequence, which starts empty when `h` is new.
pub open spec fn hunk_recorded(
    m: Map<HunkView, Seq<LineView>>,
    h: HunkView,
    l: LineView,
) -> Map<HunkView, Seq<LineView>> {
    let ls = if m.contains_key(h) {
        m[h]
    } else {
        Seq::<LineView>::empty()
    };
    m.insert(h, ls.push(l))
}

/// The index after one line event for file `f`, hunk `h`, line `l`: the
/// file's mapping (empty when the file is new) gains the line under `h`;
/// every other file is untouched.
pub open spec fn recorded(
    m: Map<Seq<char>, Map<HunkView, Seq<LineView>>>,
    f: Seq<char>,
    h: HunkView,
    l: LineView,
) -> Map<Seq<char>, Map<HunkView, Seq<LineView>>> {
    let fm = if m.contains_key(f) {
        m[f]
    } else {
        Map::<HunkView, Seq<LineView>>::empty()
    };
    m.insert(f, hunk_recorded(fm, h, l))
}

proof fn lemma_assoc_map_push<K, V>(s: Seq<(K, V)>, k: K, v: V)
    ensures
        assoc_map(s.push((k, v))) == assoc_map(s).insert(k, v),
{
    assert(s.push((k, v)).drop_last() =~= s);
    assert(s.push((k, v)).last() == (k, v));
}

proof fn lemma_assoc_map_index<K, V>(s: Seq<(K, V)>, i: int)
    requires
        distinct_keys(s),
        0 <= i < s.len(),
    ensures
        assoc_map(s).contains_key(s[i].0),
        assoc_map(s)[s[i].0] == s[i].1,
    decreases s.len(),
{
    if i == s.len() - 1 {
    } else {
        assert(s.drop_last()[i] == s[i]);
        lemma_assoc_map_index(s.drop_last(), i);
        assert(s[i].0 != s.last().0);
    }
}

proof fn lemma_assoc_map_dom<K, V>(s: Seq<(K, V)>, k: K)
    requires
        assoc_map(s).contains_key(k),
    ensures
        exists|i: int| 0 <= i < s.len() && (#[trigger] s[i].0) == k,
    decreases s.len(),
{
    if s.len() > 0 {
        if s.last().0 == k {
            assert(s[s.len() - 1].0 == k);
        } else {
            lemma_assoc_map_dom(s.drop_last(), k);
            let i = choose|i: int| 0 <= i < s.drop_last().len() && (#[trigger] s.drop_last()[i].0)
                == k;
            assert(s[i].0 == k);
        }
    }
}

proof fn lemma_assoc_map_update<K, V>(s: Seq<(K, V)>, i: int, k: K, v: V)
    requires
        distinct_keys(s),
        0 <= i < s.len(),
        s[i].0 == k,
    ensures
        assoc_map(s.update(i, (k, v))) == assoc_map(s).insert(k, v),
    decreases s.len(),
{
    let t = s.update(i, (k, v));
    if i == s.len() - 1 {
        assert(t.drop_last() =~= s.drop_last());
        assert(t.last() == (k, v));
    } else {
        assert(t.drop_last() =~= s.drop_last().update(i, (k, v)));
        assert(t.last() == s.last());
        assert(s.drop_last()[i] == s[i]);
        lemma_assoc_map_update(s.drop_last(), i, k, v);
        assert(s.last().0 != k);
        assert(assoc_map(s).insert(k, v) =~= assoc_map(s.drop_last()).insert(k, v).insert(
            s.last().0,
            s.last().1,
        ));
    }
}

proof fn lemma_assoc_map_insert_at<K, V>(s: Seq<(K, V)>, i: int, k: K, v: V)
    requires
        0 <= i <= s.len(),
        forall|j: int| 0 <= j < s.len() ==> (#[trigger] s[j].0) != k,
    ensures
        assoc_map(s.insert(i, (k, v))) == assoc_map(s).insert(k, v),
    decreases s.len(),
{
    let t = s.insert(i, (k, v));
    if i == s.len() {
        assert(t =~= s.push((k, v)));
        lemma_assoc_map_push(s, k, v);
    } else {
        assert(t.last() == s.last());
        assert(t.drop_last() =~= s.drop_last().insert(i, (k, v)));
        assert(forall|j: int|
            0 <= j < s.drop_last().len() ==> (#[trigger] s.drop_last()[j].0) == s[j].0);
        lemma_assoc_map_insert_at(s.drop_last(), i, k, v);
        assert(s.last().0 != k);
        assert(assoc_map(s).insert(k, v) =~= assoc_map(s.drop_last()).insert(k, v).insert(
            s.last().0,
            s.last().1,
        ));
    }
}

fn find_file(files: &Vec<FileEntry>, path: &String) -> (r: Option<usize>)
    ensures
        r matches Some(i) ==> i < files@.len() && files@[i as int].file@ == path@,
        r is None ==> forall|j: int| 0 <= j < files@.len() ==> (#[trigger] files@[j].file@)
            != path@,
{
    let n = files.len();
    let mut i: usize = 0;
    while i < n
        invariant
            i <= n,
            n == files@.len(),
            forall|j: int| 0 <= j < i ==> (#[trigger] files@[j].file@) != path@,
        decreases n - i,
    {
        if files[i].file.path == *path {
            return Some(i);
        }
        i = i + 1;
    }
    None
}

fn find_hunk(hunks: &Vec<HunkEntry>, h: &Hunk) -> (r: Option<usize>)
    ensures
        r matches Some(j) ==> j < hunks@.len() && hunks@[j as int].hunk@ == h@,
        r is None ==> forall|j: int| 0 <= j < hunks@.len() ==> (#[trigger] hunks@[j].hunk@) != h@,
{
    let n = hunks.len();
    let mut i: usize = 0;
    while i < n
        invariant
            i <= n,
            n == hunks@.len(),
            forall|j: int| 0 <= j < i ==> (#[trigger] hunks@[j].hunk@) != h@,
        decreases n - i,
    {
        if hunks[i].hunk.same_key(h) {
            return Some(i);
        }
        i = i + 1;
    }
    None
}

fn find_insert_pos(hunks: &Vec<HunkEntry>, h: &Hunk) -> (r: usize)
    requires
        wf_hunks(hunks@),
        forall|j: int| 0 <= j < hunks@.len() ==> (#[trigger] hunks@[j].hunk@) != h@,
    ensures
        r <= hunks@.len(),
        forall|j: int| 0 <= j < r ==> hunk_lt(#[trigger] hunks@[j].hunk@, h@),
        forall|j: int| r <= j < hunks@.len() ==> hunk_lt(h@, #[trigger] hunks@[j].hunk@),
{
    let n = hunks.len();
    let mut i: usize = 0;
    while i < n
        invariant
            i <= n,
            n == hunks@.len(),
            wf_hunks(hunks@),
            forall|j: int| 0 <= j < hunks@.len() ==> (#[trigger] hunks@[j].hunk@) != h@,
            forall|j: int| 0 <= j < i ==> hunk_lt(#[trigger] hunks@[j].hunk@, h@),
        decreases n - i,
    {
        if h.sorts_before(&hunks[i].hunk) {
            proof {
                assert forall|j: int| i <= j < n implies hunk_lt(h@, #[trigger] hunks@[j].hunk@) by {
                    if j > i {
                        lemma_hunk_lt_transitive(h@, hunks@[i as int].hunk@, hunks@[j].hunk@);
                    }
                }
            }
            return i;
        }
        proof {
            lemma_hunk_lt_connected(h@, hunks@[i as int].hunk@);
        }
        i = i + 1;
    }
    n
}

impl FileEntry {
    fn record(&mut self, hunk: Hunk, line: Line)
        requires
            old(self).wf(),
        ensures
            final(self).wf(),
            final(self).file@ == old(self).file@,
            hunks_map(final(self).hunks@) == hunk_recorded(
                hunks_map(old(self).hunks@),
                hunk@,
                line@,
            ),
    {
        let ghost hs0 = self.hunks@;
        proof {
            assert forall|i: int, j: int|
                0 <= i < j < hunk_pairs(hs0).len() implies (#[trigger] hunk_pairs(hs0)[i].0) != (
            #[trigger] hunk_pairs(hs0)[j].0) by {
                lemma_hunk_lt_asymmetric(hs0[i].hunk@, hs0[j].hunk@);
            }
        }
        match find_hunk(&self.hunks, &hunk) {
            Some(j) => {
                let mut he = self.hunks.remove(j);
                let ghost ls0 = he.lines@;
                he.lines.push(line);
                proof {
                    assert(lines_view(he.lines@) =~= lines_view(ls0).push(line@));
                }
                self.hunks.insert(j, he);
                proof {
                    assert(self.hunks@ =~= hs0.update(j as int, self.hunks@[j as int]));
                    assert(hunk_pairs(self.hunks@) =~= hunk_pairs(hs0).update(
                        j as int,
                        (hunk@, lines_view(ls0).push(line@)),
                    ));
                    lemma_assoc_map_update(
                        hunk_pairs(hs0),
                        j as int,
                        hunk@,
                        lines_view(ls0).push(line@),
                    );
                    lemma_assoc_map_index(hunk_pairs(hs0), j as int);
                    assert(hunks_map(hs0)[hunk@] == lines_view(ls0));
                }
            },
            None => {
                let pos = find_insert_pos(&self.hunks, &hunk);
                let ghost hv = hunk@;
                let mut lines = Vec::<Line>::new();
                lines.push(line);
                proof {
                    assert(lines_view(lines@) =~= Seq::<LineView>::empty().push(line@));
                }
                let he = HunkEntry { hunk, lines };
                self.hunks.insert(pos, he);
                proof {
                    assert(self.hunks@ =~= hs0.insert(pos as int, he));
                    assert(hunk_pairs(self.hunks@) =~= hunk_pairs(hs0).insert(
                        pos as int,
                        (hv, lines_view(he.lines@)),
                    ));
                    assert(forall|j: int|
                        0 <= j < hunk_pairs(hs0).len() ==> (#[trigger] hunk_pairs(hs0)[j].0)
                            == hs0[j].hunk@);
                    lemma_assoc_map_insert_at(
                        hunk_pairs(hs0),
                        pos as int,
                        hv,
                        lines_view(he.lines@),
                    );
                    if hunks_map(hs0).contains_key(hv) {
                        lemma_assoc_map_dom(hunk_pairs(hs0), hv);
                    }
                    assert forall|i: int, j: int|
                        0 <= i < j < self.hunks@.len() implies hunk_lt(
                        #[trigger] self.hunks@[i].hunk@,
                        #[trigger] self.hunks@[j].hunk@,
                    ) by {
                        let s = self.hunks@;
                        if j < pos {
                        } else if i < pos && j == pos {
                            assert(s[j].hunk@ == hv);
                        } else if i < pos && j > pos {
                            assert(s[j] == hs0[j - 1]);
                        } else if i == pos {
                            assert(s[j] == hs0[j - 1]);
                        } else {
                            assert(s[i] == hs0[i - 1]);
                            assert(s[j] == hs0[j - 1]);
                        }
                    }
                }
            },
        }
    }
}

impl DiffIndex {
    /// An empty index: no file has an entry yet.
    pub fn new() -> (ix: DiffIndex)
        ensures
            ix.wf(),
            ix@ == Map::<Seq<char>, Map<HunkView, Seq<LineView>>>::empty(),
    {
        let ix = DiffIndex { files: Vec::new() };
        proof {
            assert(file_pairs(ix.files@).len() == 0);
        }
        ix
    }

    /// One line event of the diff engine's stream: the line is appended to
    /// the sequence of its file and hunk, both entered into the index on
    /// first sight; every other entry of the index is left unchanged.
    pub fn record_line(&mut self, file: File, hunk: Hunk, line: Line)
        requires
            old(self).wf(),
        ensures
            final(self).wf(),
            final(self)@ == recorded(old(self)@, file@, hunk@, line@),
    {
        let ghost fs0 = self.files@;
        proof {
            assert(forall|j: int|
                0 <= j < file_pairs(fs0).len() ==> (#[trigger] file_pairs(fs0)[j].0)
                    == fs0[j].file@);
        }
        match find_file(&self.files, &file.path) {
            Some(i) => {
                let mut entry = self.files.remove(i);
                entry.record(hunk, line);
                let ghost hm = hunks_map(entry.hunks@);
                self.files.insert(i, entry);
                proof {
                    assert(self.files@ =~= fs0.update(i as int, self.files@[i as int]));
                    assert(file_pairs(self.files@) =~= file_pairs(fs0).update(
                        i as int,
                        (file@, hm),
                    ));
                    lemma_assoc_map_update(file_pairs(fs0), i as int, file@, hm);
                    lemma_assoc_map_index(file_pairs(fs0), i as int);
                }
            },
            None => {
                proof {
                    if assoc_map(file_pairs(fs0)).contains_key(file@) {
                        lemma_assoc_map_dom(file_pairs(fs0), file@);
                    }
                }
                let mut lines = Vec::<Line>::new();
                lines.push(line);
                proof {
                    assert(lines_view(lines@) =~= Seq::<LineView>::empty().push(line@));
                }
                let ghost hv = hunk@;
                let mut hunks = Vec::<HunkEntry>::new();
                hunks.push(HunkEntry { hunk, lines });
                let ghost fv = file@;
                let entry = FileEntry { file, hunks };
                proof {
                    let ps = hunk_pairs(entry.hunks@);
                    assert(ps.len() == 1);
                    assert(ps.last() == (hv, lines_view(entry.hunks@[0].lines@)));
                    assert(ps.drop_last() =~= Seq::<(HunkView, Seq<LineView>)>::empty());
                    assert(assoc_map(ps.drop_last()) == Map::<HunkView, Seq<LineView>>::empty());
                    assert(assoc_map(ps) == assoc_map(ps.drop_last()).insert(
                        ps.last().0,
                        ps.last().1,
                    ));
                    assert(hunks_map(entry.hunks@) == Map::<HunkView, Seq<LineView>>::empty()
                        .insert(hv, lines_view(entry.hunks@[0].lines@)));
                }
                self.files.push(entry);
                proof {
                    assert(file_pairs(self.files@) =~= file_pairs(fs0).push(
                        (fv, hunks_map(self.files@[fs0.len() as int].hunks@)),
                    ));
                    lemma_assoc_map_push(
                        file_pairs(fs0),
                        fv,
                        hunks_map(self.files@[fs0.len() as int].hunks@),
                    );
                }
            },
        }
    }
}

/// What the projection of one file's mapping `m` must be: a sequence that
/// carries exactly the hunks of `m`, each with its recorded lines in their
/// emission order, arranged in strictly ascending hunk order.
pub open spec fn is_ordered_projection(m: Map<HunkView, Seq<LineView>>, v: Seq<HunkEntry>) -> bool {
    &&& forall|i: int|
        0 <= i < v.len() ==> m.contains_key(#[trigger] v[i].hunk@) && lines_view(v[i].lines@)
            == m[v[i].hunk@]
    &&& forall|k: HunkView| #[trigger]
        m.contains_key(k) ==> exists|i: int| 0 <= i < v.len() && (#[trigger] v[i].hunk@) == k
    &&& forall|i: int, j: int|
        0 <= i < j < v.len() ==> hunk_lt(#[trigger] v[i].hunk@, #[trigger] v[j].hunk@)
}

impl DiffIndex {
    /// Project the entry of one file out of the completed index. A file
    /// without an entry — no uncommitted changes — yields `None`; a file
    /// with one yields its hunks, each non-empty, in strictly ascending
    /// hunk order whatever order the engine emitted them in.
    pub fn project(self, file: &File) -> (r: Option<Vec<HunkEntry>>)
        requires
            self.wf(),
        ensures
            r is Some <==> self@.contains_key(file@),
            r matches Some(v) ==> is_ordered_projection(self@[file@], v@) && v@.len() > 0
                && (forall|i: int| 0 <= i < v@.len() ==> (#[trigger] v@[i].lines@).len() > 0),
    {
        let ghost fs0 = self.files@;
        proof {
            assert(forall|j: int|
                0 <= j < file_pairs(fs0).len() ==> (#[trigger] file_pairs(fs0)[j].0)
                    == fs0[j].file@);
        }
        let mut files = self.files;
        match find_file(&files, &file.path) {
            Some(i) => {
                let entry = files.swap_remove(i);
                proof {
                    lemma_assoc_map_index(file_pairs(fs0), i as int);
                    let hs = entry.hunks@;
                    let ps = hunk_pairs(hs);
                    assert(forall|j: int| 0 <= j < ps.len() ==> (#[trigger] ps[j].0) == hs[j].hunk@);
                    assert forall|i2: int, j2: int| 0 <= i2 < j2 < ps.len() implies (
                    #[trigger] ps[i2].0) != (#[trigger] ps[j2].0) by {
                        lemma_hunk_lt_asymmetric(hs[i2].hunk@, hs[j2].hunk@);
                    }
                    assert forall|i2: int|
                        0 <= i2 < hs.len() implies hunks_map(hs).contains_key(
                        #[trigger] hs[i2].hunk@,
                    ) && lines_view(hs[i2].lines@) == hunks_map(hs)[hs[i2].hunk@] by {
                        lemma_assoc_map_index(ps, i2);
                    }
                    assert forall|k: HunkView| #[trigger]
                        hunks_map(hs).contains_key(k) implies exists|i2: int|
                        0 <= i2 < hs.len() && (#[trigger] hs[i2].hunk@) == k by {
                        lemma_assoc_map_dom(ps, k);
                        let i2 = choose|i2: int| 0 <= i2 < ps.len() && (#[trigger] ps[i2].0) == k;
                        assert(hs[i2].hunk@ == k);
                    }
                }
                Some(entry.hunks)
            },
            None => {
                proof {
                    if assoc_map(file_pairs(fs0)).contains_key(file@) {
                        lemma_assoc_map_dom(file_pairs(fs0), file@);
                    }
                }
                None
            },
        }
    }
}

/// The lines already standing under file `f` and hunk `h`, empty when
/// either is absent.
pub open spec fn prior_lines(
    m: Map<Seq<char>, Map<HunkView, Seq<LineView>>>,
    f: Seq<char>,
    h: HunkView,
) -> Seq<LineView> {
    if m.contains_key(f) && m[f].contains_key(h) {
        m[f][h]
    } else {
        Seq::<LineView>::empty()
    }
}

/// Law: recording one line touches exactly one line sequence of the index —
/// the requested file's and hunk's, where it is appended at the end — and
/// leaves every other file entry and hunk sequence unchanged. Lines of one
/// hunk therefore stand in the order the engine emitted them.
pub proof fn lemma_record_appends(
    m: Map<Seq<char>, Map<HunkView, Seq<LineView>>>,
    f: Seq<char>,
    h: HunkView,
    l: LineView,
)
    ensures
        recorded(m, f, h, l).contains_key(f),
        recorded(m, f, h, l)[f].contains_key(h),
        recorded(m, f, h, l)[f][h] == prior_lines(m, f, h).push(l),
        forall|f2: Seq<char>| #[trigger]
            recorded(m, f, h, l).contains_key(f2) <==> (m.contains_key(f2) || f2 == f),
        forall|f2: Seq<char>|
            f2 != f && m.contains_key(f2) ==> #[trigger] recorded(m, f, h, l)[f2] == m[f2],
        forall|h2: HunkView|
            h2 != h && m.contains_key(f) && m[f].contains_key(h2) ==> #[trigger] recorded(
                m,
                f,
                h,
                l,
            )[f][h2] == m[f][h2],
{
}

/// Law: the ordered projection of a per-file mapping is unique — any two
/// sequences that project the same mapping carry the same hunk keys and
/// the same lines in the same order. Running the operation twice over an
/// unchanged working tree therefore yields identical results.
pub proof fn lemma_projection_deterministic(
    m: Map<HunkView, Seq<LineView>>,
    v1: Seq<HunkEntry>,
    v2: Seq<HunkEntry>,
)
    requires
        is_ordered_projection(m, v1),
        is_ordered_projection(m, v2),
    ensures
        hunk_pairs(v1) == hunk_pairs(v2),
    decreases v1.len(),
{
    if v1.len() == 0 {
        if v2.len() > 0 {
            assert(m.contains_key(v2[0].hunk@));
            assert(false);
        }
        assert(hunk_pairs(v1) =~= hunk_pairs(v2));
    } else {
        let k1 = v1[0].hunk@;
        let k2 = v2[0].hunk@;
        assert(m.contains_key(k1));
        assert(m.contains_key(k2));
        if k1 != k2 {
            let i2 = choose|i: int| 0 <= i < v2.len() && (#[trigger] v2[i].hunk@) == k1;
            let i1 = choose|i: int| 0 <= i < v1.len() && (#[trigger] v1[i].hunk@) == k2;
            assert(i2 > 0);
            assert(hunk_lt(k2, v2[i2].hunk@));
            assert(i1 > 0);
            assert(hunk_lt(k1, v1[i1].hunk@));
            lemma_hunk_lt_asymmetric(k1, k2);
            assert(false);
        }
        let mr = m.remove(k1);
        let t1 = v1.drop_first();
        let t2 = v2.drop_first();
        assert forall|i: int|
            0 <= i < t1.len() implies mr.contains_key(#[trigger] t1[i].hunk@) && lines_view(
            t1[i].lines@,
        ) == mr[t1[i].hunk@] by {
            assert(t1[i] == v1[i + 1]);
            assert(hunk_lt(v1[0].hunk@, v1[i + 1].hunk@));
            assert(!hunk_lt(k1, k1));
        }
        assert forall|i: int|
            0 <= i < t2.len() implies mr.contains_key(#[trigger] t2[i].hunk@) && lines_view(
            t2[i].lines@,
        ) == mr[t2[i].hunk@] by {
            assert(t2[i] == v2[i + 1]);
            assert(hunk_lt(v2[0].hunk@, v2[i + 1].hunk@));
            assert(!hunk_lt(k1, k1));
        }
        assert forall|k: HunkView| #[trigger] mr.contains_key(k) implies exists|i: int|
            0 <= i < t1.len() && (#[trigger] t1[i].hunk@) == k by {
            let i = choose|i: int| 0 <= i < v1.len() && (#[trigger] v1[i].hunk@) == k;
            assert(i > 0);
            assert(t1[i - 1].hunk@ == k);
        }
        assert forall|k: HunkView| #[trigger] mr.contains_key(k) implies exists|i: int|
            0 <= i < t2.len() && (#[trigger] t2[i].hunk@) == k by {
            let i = choose|i: int| 0 <= i < v2.len() && (#[trigger] v2[i].hunk@) == k;
            assert(i > 0);
            assert(t2[i - 1].hunk@ == k);
        }
        assert forall|i: int, j: int| 0 <= i < j < t1.len() implies hunk_lt(
            #[trigger] t1[i].hunk@,
            #[trigger] t1[j].hunk@,
        ) by {
            assert(t1[i] == v1[i + 1]);
            assert(t1[j] == v1[j + 1]);
        }
        assert forall|i: int, j: int| 0 <= i < j < t2.len() implies hunk_lt(
            #[trigger] t2[i].hunk@,
            #[trigger] t2[j].hunk@,
        ) by {
            assert(t2[i] == v2[i + 1]);
            assert(t2[j] == v2[j + 1]);
        }
        lemma_projection_deterministic(mr, t1, t2);
        assert(t1.len() == t2.len()) by {
            assert(hunk_pairs(t1).len() == t1.len());
            assert(hunk_pairs(t2).len() == t2.len());
        }
        assert forall|i: int| 0 <= i < v1.len() implies hunk_pairs(v1)[i] == hunk_pairs(v2)[i] by {
            if i == 0 {
                assert(lines_view(v1[0].lines@) == m[k1]);
                assert(lines_view(v2[0].lines@) == m[k1]);
            } else {
                assert(hunk_pairs(t1)[i - 1] == hunk_pairs(t2)[i - 1]);
                assert(t1[i - 1] == v1[i]);
                assert(t2[i - 1] == v2[i]);
            }
        }
        assert(hunk_pairs(v1) =~= hunk_pairs(v2));
    }
}

} // verus!
