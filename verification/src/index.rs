//! The staging index: the tracked files with their content hashes.
use vstd::prelude::*;
use vstd::string::*;
use crate::text::{lex_lt, lex_le, str_lt, find_first, find_char, to_chars, string_of,
    lemma_lex_irreflexive, lemma_lex_asymmetric, lemma_lex_transitive, lemma_lex_total,
    lemma_lex_le_transitive};
use crate::merge::string_eq;
use crate::sorting::{stable_sorted, insert_pos, lemma_insert_pos};

verus! {

broadcast use vstd::seq_lib::group_to_multiset_ensures;

/// One tracked file.
#[derive(Debug, PartialEq, Eq)]
pub struct IndexEntry {
    pub path: String,
    pub hash: String,
    pub size: u64,
    pub mtime: i64,
    pub mode: String,
}

impl Clone for IndexEntry {
    fn clone(&self) -> (r: Self)
        ensures
            r == *self,
    {
        IndexEntry {
            path: self.path.clone(),
            hash: self.hash.clone(),
            size: self.size,
            mtime: self.mtime,
            mode: self.mode.clone(),
        }
    }
}

/// The staging index.
#[derive(Debug)]
pub struct Index {
    pub version: u32,
    pub entries: Vec<IndexEntry>,
}

/// Differences between two indexes, each list sorted by path.
#[derive(Debug, Clone)]
pub struct IndexDiff {
    pub added: Vec<String>,
    pub modified: Vec<String>,
    pub deleted: Vec<String>,
}

// ---------------------------------------------------------------------------
// Specification
// ---------------------------------------------------------------------------

/// Entries ordered by path, equal paths allowed.
pub open spec fn sorted_by_path(s: Seq<IndexEntry>) -> bool {
    forall|i: int, j: int| 0 <= i < j < s.len() ==> lex_le(#[trigger] s[i].path@, #[trigger] s[j].path@)
}

/// Entries go by path.
pub open spec fn path_order() -> spec_fn(IndexEntry, IndexEntry) -> bool {
    |a: IndexEntry, b: IndexEntry| lex_lt(a.path@, b.path@)
}

/// Entries strictly ordered by path (so each path occurs once).
pub open spec fn strictly_sorted_by_path(s: Seq<IndexEntry>) -> bool {
    forall|i: int, j: int| 0 <= i < j < s.len() ==> lex_lt(#[trigger] s[i].path@, #[trigger] s[j].path@)
}

/// Strings strictly ordered.
pub open spec fn strictly_sorted(s: Seq<Seq<char>>) -> bool {
    forall|i: int, j: int| 0 <= i < j < s.len() ==> lex_lt(#[trigger] s[i], #[trigger] s[j])
}

/// Index of the first entry with path `p`, or -1.
pub open spec fn find_path(s: Seq<IndexEntry>, p: Seq<char>) -> int
    decreases s.len(),
{
    if s.len() == 0 {
        -1
    } else if s[0].path@ == p {
        0
    } else {
        let r = find_path(s.drop_first(), p);
        if r < 0 {
            -1
        } else {
            r + 1
        }
    }
}

/// The entries whose path is not `p`, in order.
pub open spec fn without_path(s: Seq<IndexEntry>, p: Seq<char>) -> Seq<IndexEntry>
    decreases s.len(),
{
    if s.len() == 0 {
        s
    } else {
        let r = without_path(s.drop_last(), p);
        if s.last().path@ != p {
            r.push(s.last())
        } else {
            r
        }
    }
}

/// Path to hash, the last entry for a path deciding its hash.
pub open spec fn hash_map_of(s: Seq<IndexEntry>) -> Map<Seq<char>, Seq<char>>
    decreases s.len(),
{
    if s.len() == 0 {
        Map::empty()
    } else {
        hash_map_of(s.drop_last()).insert(s.last().path@, s.last().hash@)
    }
}

/// The directory an index path is grouped under: the part before the first
/// `/`, or `.` for a top-level file.
pub open spec fn dir_of(path: Seq<char>) -> Seq<char> {
    let k = find_first(path, '/');
    if k >= 0 {
        path.take(k)
    } else {
        "."@
    }
}

/// The entries of `s` whose directory is `d`, in order.
pub open spec fn group_of(s: Seq<IndexEntry>, d: Seq<char>) -> Seq<IndexEntry>
    decreases s.len(),
{
    if s.len() == 0 {
        s
    } else {
        let r = group_of(s.drop_last(), d);
        if dir_of(s.last().path@) == d {
            r.push(s.last())
        } else {
            r
        }
    }
}

impl Index {
    /// The index lists each path once, in path order.
    pub open spec fn wf(&self) -> bool {
        strictly_sorted_by_path(self.entries@)
    }

    /// The entry `get` finds for `p`.
    pub open spec fn spec_get(&self, p: Seq<char>) -> Option<IndexEntry> {
        let i = find_path(self.entries@, p);
        if i >= 0 {
            Some(self.entries@[i])
        } else {
            None
        }
    }
}

impl IndexDiff {
    /// The number of paths in the three lists.
    pub open spec fn spec_total(&self) -> int {
        (self.added@.len() + self.modified@.len() + self.deleted@.len()) as int
    }
}

// ---------------------------------------------------------------------------
// Lemmas
// ---------------------------------------------------------------------------

pub proof fn lemma_find_path(s: Seq<IndexEntry>, p: Seq<char>)
    ensures
        -1 <= find_path(s, p) < s.len(),
        find_path(s, p) >= 0 ==> s[find_path(s, p)].path@ == p,
        forall|j: int|
            0 <= j < s.len() && (find_path(s, p) < 0 || j < find_path(s, p)) ==> #[trigger] s[j].path@ != p,
    decreases s.len(),
{
    if s.len() > 0 && s[0].path@ != p {
        lemma_find_path(s.drop_first(), p);
        assert forall|j: int|
            0 <= j < s.len() && (find_path(s, p) < 0 || j < find_path(s, p)) implies #[trigger] s[j].path@
            != p by {
            if j > 0 {
                assert(s[j] == s.drop_first()[j - 1]);
            }
        }
    }
}

pub proof fn lemma_find_path_at(s: Seq<IndexEntry>, p: Seq<char>, k: int)
    requires
        0 <= k < s.len(),
        s[k].path@ == p,
        forall|j: int| 0 <= j < k ==> #[trigger] s[j].path@ != p,
    ensures
        find_path(s, p) == k,
{
    lemma_find_path(s, p);
}

pub proof fn lemma_find_path_none(s: Seq<IndexEntry>, p: Seq<char>)
    requires
        forall|j: int| 0 <= j < s.len() ==> #[trigger] s[j].path@ != p,
    ensures
        find_path(s, p) == -1,
{
    lemma_find_path(s, p);
}

pub proof fn lemma_without_path(s: Seq<IndexEntry>, p: Seq<char>)
    ensures
        forall|j: int| 0 <= j < without_path(s, p).len() ==> #[trigger] without_path(s, p)[j].path@ != p,
        forall|x: IndexEntry| without_path(s, p).contains(x) ==> s.contains(x),
        without_path(s, p).len() <= s.len(),
        (without_path(s, p).len() < s.len()) == (find_path(s, p) >= 0),
        strictly_sorted_by_path(s) ==> strictly_sorted_by_path(without_path(s, p)),
        without_path(s, p).len() == s.len() ==> without_path(s, p) == s,
    decreases s.len(),
{
    if s.len() > 0 {
        let d = s.drop_last();
        lemma_without_path(d, p);
        lemma_find_path(s, p);
        lemma_find_path(d, p);
        let r = without_path(d, p);
        let w = without_path(s, p);
        assert(w == if s.last().path@ != p { r.push(s.last()) } else { r });
        assert forall|x: IndexEntry| w.contains(x) implies s.contains(x) by {
            let k = choose|k: int| 0 <= k < w.len() && w[k] == x;
            if k < r.len() {
                assert(r[k] == x);
                assert(r.contains(x));
                assert(d.contains(x));
                let k2 = choose|k2: int| 0 <= k2 < d.len() && d[k2] == x;
                assert(d[k2] == s[k2]);
                assert(s[k2] == x);
            } else {
                assert(s[s.len() - 1] == x);
            }
        }
        if find_path(d, p) >= 0 {
            assert(s[find_path(d, p)] == d[find_path(d, p)]);
            assert forall|j: int| 0 <= j < find_path(d, p) implies #[trigger] s[j].path@ != p by {
                assert(s[j] == d[j]);
            }
            lemma_find_path_at(s, p, find_path(d, p));
        } else if s.last().path@ == p {
            assert forall|j: int| 0 <= j < s.len() - 1 implies #[trigger] s[j].path@ != p by {
                assert(s[j] == d[j]);
            }
            lemma_find_path_at(s, p, s.len() - 1);
        } else {
            assert forall|j: int| 0 <= j < s.len() implies #[trigger] s[j].path@ != p by {
                if j < s.len() - 1 {
                    assert(s[j] == d[j]);
                }
            }
            lemma_find_path_none(s, p);
        }
        if strictly_sorted_by_path(s) {
            assert(strictly_sorted_by_path(d));
            let w = without_path(s, p);
            if s.last().path@ != p {
                assert forall|i: int, j: int| 0 <= i < j < w.len() implies lex_lt(#[trigger] w[i].path@, #[trigger] w[j].path@) by {
                    if j == w.len() - 1 {
                        assert(w[i] == r[i]);
                        assert(r.contains(w[i]));
                        assert(d.contains(w[i]));
                        let k = choose|k: int| 0 <= k < d.len() && d[k] == w[i];
                        assert(d[k] == s[k]);
                        assert(s[k] == w[i]);
                        assert(w[j] == s.last());
                        assert(lex_lt(s[k].path@, s[s.len() - 1].path@));
                    } else {
                        assert(w[i] == r[i] && w[j] == r[j]);
                    }
                }
            }
        }
        if without_path(s, p).len() == s.len() {
            assert(r.len() == d.len());
            assert(r == d);
            assert(s =~= d.push(s.last()));
        }
    }
}

pub proof fn lemma_hash_map_of_dom(s: Seq<IndexEntry>, p: Seq<char>)
    ensures
        hash_map_of(s).dom().contains(p) == (find_path(s, p) >= 0),
    decreases s.len(),
{
    lemma_find_path(s, p);
    if s.len() > 0 {
        let d = s.drop_last();
        lemma_hash_map_of_dom(d, p);
        lemma_find_path(d, p);
        if find_path(d, p) >= 0 {
            assert(s[find_path(d, p)] == d[find_path(d, p)]);
        } else if s.last().path@ == p {
        } else {
            assert forall|j: int| 0 <= j < s.len() implies #[trigger] s[j].path@ != p by {
                if j < s.len() - 1 {
                    assert(s[j] == d[j]);
                }
            }
            lemma_find_path_none(s, p);
        }
    }
}

// ---------------------------------------------------------------------------
// Executable helpers
// ---------------------------------------------------------------------------

/// Inserts `e` after every entry whose path is not after its own (a stable
/// insertion); returns the position used.
fn insert_sorted(v: &mut Vec<IndexEntry>, e: IndexEntry) -> (pos: usize)
    requires
        sorted_by_path(old(v)@),
    ensures
        pos <= old(v)@.len(),
        final(v)@ == old(v)@.insert(pos as int, e),
        sorted_by_path(final(v)@),
        strictly_sorted_by_path(old(v)@) && (forall|j: int|
            0 <= j < old(v)@.len() ==> #[trigger] old(v)@[j].path@ != e.path@)
            ==> strictly_sorted_by_path(final(v)@),
        (forall|j: int| 0 <= j < old(v)@.len() ==> lex_lt(#[trigger] old(v)@[j].path@, e.path@))
            ==> pos == old(v)@.len(),
        pos == insert_pos(old(v)@, e, path_order()),
{
    let ghost s = v@;
    let mut pos: usize = 0;
    while pos < v.len() && !str_lt(e.path.as_str(), v[pos].path.as_str())
        invariant
            pos <= v@.len(),
            v@ == s,
            forall|j: int| 0 <= j < pos ==> !lex_lt(e.path@, #[trigger] s[j].path@),
        decreases v.len() - pos,
    {
        pos = pos + 1;
    }
    proof {
        assert forall|j: int| 0 <= j < pos implies lex_le(#[trigger] s[j].path@, e.path@) by {
            lemma_lex_total(s[j].path@, e.path@);
        }
        if pos < s.len() {
            assert(lex_lt(e.path@, s[pos as int].path@));
        }
        assert forall|j: int| 0 <= j < pos implies !(path_order())(e, #[trigger] s[j]) by {}
        lemma_insert_pos(s, e, path_order(), pos as int);
    }
    let ghost e0 = e;
    v.insert(pos, e);
    proof {
        let t = v@;
        assert(t == s.insert(pos as int, e0));
        assert forall|i: int, j: int| 0 <= i < j < t.len() implies lex_le(#[trigger] t[i].path@, #[trigger] t[j].path@) by {
            if j < pos {
                assert(t[i] == s[i] && t[j] == s[j]);
            } else if j == pos {
                assert(t[i] == s[i]);
            } else if i == pos {
                assert(t[j] == s[j - 1]);
                if j - 1 > pos {
                    assert(lex_le(s[pos as int].path@, s[j - 1].path@));
                    lemma_lex_le_transitive(e0.path@, s[pos as int].path@, s[j - 1].path@);
                }
            } else if i < pos {
                assert(t[i] == s[i] && t[j] == s[j - 1]);
            } else {
                assert(t[i] == s[i - 1] && t[j] == s[j - 1]);
            }
        }
        if strictly_sorted_by_path(s) && (forall|j: int| 0 <= j < s.len() ==> #[trigger] s[j].path@ != e0.path@) {
            assert forall|i: int, j: int| 0 <= i < j < t.len() implies lex_lt(#[trigger] t[i].path@, #[trigger] t[j].path@) by {
                if j < pos {
                    assert(t[i] == s[i] && t[j] == s[j]);
                } else if j == pos {
                    assert(t[i] == s[i]);
                    assert(s[i].path@ != e0.path@);
                } else if i == pos {
                    assert(t[j] == s[j - 1]);
                    if j - 1 > pos {
                        lemma_lex_transitive(e0.path@, s[pos as int].path@, s[j - 1].path@);
                    }
                } else if i < pos {
                    assert(t[i] == s[i] && t[j] == s[j - 1]);
                } else {
                    assert(t[i] == s[i - 1] && t[j] == s[j - 1]);
                }
            }
        }
        if forall|j: int| 0 <= j < s.len() ==> lex_lt(#[trigger] s[j].path@, e0.path@) {
            if pos < s.len() {
                lemma_lex_asymmetric(s[pos as int].path@, e0.path@);
            }
        }
    }
    pos
}

/// A stable sort of entries by path.
fn sort_by_path(v: Vec<IndexEntry>) -> (r: Vec<IndexEntry>)
    ensures
        sorted_by_path(r@),
        r@.to_multiset() == v@.to_multiset(),
        strictly_sorted_by_path(v@) ==> r@ == v@,
        r@ == stable_sorted(v@, path_order()),
{
    let mut out: Vec<IndexEntry> = Vec::new();
    let mut i: usize = 0;
    while i < v.len()
        invariant
            i <= v@.len(),
            sorted_by_path(out@),
            out@.to_multiset() == v@.take(i as int).to_multiset(),
            strictly_sorted_by_path(v@) ==> out@ == v@.take(i as int),
            out@ == stable_sorted(v@.take(i as int), path_order()),
        decreases v.len() - i,
    {
        let ghost before = out@;
        let e = v[i].clone();
        let pos = insert_sorted(&mut out, e);
        proof {
            assert(v@.take(i + 1) =~= v@.take(i as int).push(v@[i as int]));
            assert(v@.take(i + 1).drop_last() =~= v@.take(i as int));
            vstd::seq_lib::to_multiset_insert(before, pos as int, v@[i as int]);
            if strictly_sorted_by_path(v@) {
                assert forall|j: int| 0 <= j < before.len() implies lex_lt(#[trigger] before[j].path@, v@[i as int].path@) by {
                    assert(before[j] == v@[j]);
                }
                assert(out@ =~= before.push(v@[i as int]));
            }
        }
        i = i + 1;
    }
    assert(v@.take(v@.len() as int) =~= v@);
    out
}

/// The entries of `v` whose path is not `p`, in order.
fn filter_out_path(v: &Vec<IndexEntry>, p: &str) -> (r: Vec<IndexEntry>)
    ensures
        r@ == without_path(v@, p@),
{
    let mut out: Vec<IndexEntry> = Vec::new();
    let mut i: usize = 0;
    while i < v.len()
        invariant
            i <= v@.len(),
            out@ == without_path(v@.take(i as int), p@),
        decreases v.len() - i,
    {
        assert(v@.take(i + 1).drop_last() =~= v@.take(i as int));
        let e = &v[i];
        if !string_eq_str(&e.path, p) {
            out.push(e.clone());
        }
        i = i + 1;
    }
    assert(v@.take(v@.len() as int) =~= v@);
    out
}

/// Equality of a string and a string slice by content.
fn string_eq_str(a: &String, b: &str) -> (r: bool)
    ensures
        r == (a@ == b@),
{
    let bs = String::from_str(b);
    string_eq(a, &bs)
}

/// The directory `dir_of` gives for `path`.
fn dir_of_path(path: &str) -> (r: String)
    ensures
        r@ == dir_of(path@),
{
    let v = to_chars(path);
    match find_char(v.as_slice(), '/') {
        Some(k) => {
            proof {
                crate::text::lemma_find_first(v@, '/');
            }
            string_of(v.as_slice(), 0, k)
        },
        None => String::from_str("."),
    }
}

impl Index {
    /// An empty index at version 1.
    pub fn new() -> (r: Index)
        ensures
            r.version == 1,
            r.entries@.len() == 0,
            r.wf(),
    {
        Index { version: 1, entries: Vec::new() }
    }

    /// Stages `entry`, replacing any entry with the same path, and keeps the
    /// entries sorted by path.
    pub fn add(&mut self, entry: IndexEntry)
        ensures
            final(self).version == old(self).version,
            sorted_by_path(final(self).entries@),
            final(self).entries@.to_multiset() == without_path(old(self).entries@, entry.path@).push(
                entry,
            ).to_multiset(),
            final(self).spec_get(entry.path@) == Some(entry),
            old(self).wf() ==> final(self).wf(),
            final(self).entries@ == stable_sorted(without_path(old(self).entries@, entry.path@).push(entry), path_order()),
    {
        let ghost p = entry.path@;
        let filtered = filter_out_path(&self.entries, entry.path.as_str());
        proof {
            lemma_without_path(self.entries@, p);
        }
        let ghost f = filtered@;
        let mut sorted = sort_by_path(filtered);
        let ghost srt = sorted@;
        proof {
            assert forall|j: int| 0 <= j < srt.len() implies #[trigger] srt[j].path@ != p by {
                assert(srt.to_multiset().count(srt[j]) > 0);
                assert(f.contains(srt[j]));
                let k = choose|k: int| 0 <= k < f.len() && f[k] == srt[j];
            }
        }
        let ghost e0 = entry;
        let pos = insert_sorted(&mut sorted, entry);
        proof {
            assert(f.push(e0).drop_last() =~= f);
            let t = sorted@;
            vstd::seq_lib::to_multiset_insert(srt, pos as int, e0);
            assert forall|j: int| 0 <= j < pos implies #[trigger] t[j].path@ != p by {
                assert(t[j] == srt[j]);
            }
            lemma_find_path_at(t, p, pos as int);
        }
        self.entries = sorted;
    }

    /// Removes every entry with path `path`; true when one was removed.
    pub fn remove(&mut self, path: &str) -> (r: bool)
        ensures
            final(self).version == old(self).version,
            final(self).entries@ == without_path(old(self).entries@, path@),
            r == (find_path(old(self).entries@, path@) >= 0),
            final(self).spec_get(path@) is None,
            old(self).wf() ==> final(self).wf(),
    {
        let len_before = self.entries.len();
        let filtered = filter_out_path(&self.entries, path);
        proof {
            lemma_without_path(self.entries@, path@);
            lemma_find_path_none(filtered@, path@);
        }
        self.entries = filtered;
        self.entries.len() < len_before
    }

    /// The first entry with path `path`.
    pub fn get(&self, path: &str) -> (r: Option<&IndexEntry>)
        ensures
            r matches Some(e) ==> self.spec_get(path@) == Some(*e),
            r is None ==> self.spec_get(path@) is None,
    {
        let mut i: usize = 0;
        while i < self.entries.len()
            invariant
                i <= self.entries@.len(),
                forall|j: int| 0 <= j < i ==> #[trigger] self.entries@[j].path@ != path@,
            decreases self.entries.len() - i,
        {
            if string_eq_str(&self.entries[i].path, path) {
                proof {
                    lemma_find_path_at(self.entries@, path@, i as int);
                }
                return Some(&self.entries[i]);
            }
            i = i + 1;
        }
        proof {
            lemma_find_path_none(self.entries@, path@);
        }
        None
    }

    /// Whether an entry has path `path`.
    pub fn contains(&self, path: &str) -> (r: bool)
        ensures
            r == (find_path(self.entries@, path@) >= 0),
    {
        self.get(path).is_some()
    }

    /// The paths of the entries, in order.
    pub fn paths(&self) -> (r: Vec<&str>)
        ensures
            r@.len() == self.entries@.len(),
            forall|i: int| 0 <= i < r@.len() ==> #[trigger] r@[i]@ == self.entries@[i].path@,
    {
        let mut out: Vec<&str> = Vec::new();
        let mut i: usize = 0;
        while i < self.entries.len()
            invariant
                i <= self.entries@.len(),
                out@.len() == i,
                forall|j: int| 0 <= j < i ==> #[trigger] out@[j]@ == self.entries@[j].path@,
            decreases self.entries.len() - i,
        {
            out.push(self.entries[i].path.as_str());
            i = i + 1;
        }
        out
    }

    /// Number of entries.
    pub fn len(&self) -> (r: usize)
        ensures
            r == self.entries@.len(),
    {
        self.entries.len()
    }

    /// Whether the index has no entries.
    pub fn is_empty(&self) -> (r: bool)
        ensures
            r == (self.entries@.len() == 0),
    {
        self.entries.len() == 0
    }

    /// Removes every entry.
    pub fn clear(&mut self)
        ensures
            final(self).version == old(self).version,
            final(self).entries@.len() == 0,
    {
        self.entries.clear();
    }

    /// The entries grouped by their directory (`dir_of`), directories in
    /// order, each group in index order.
    pub fn entries_by_directory(&self) -> (r: Vec<(String, Vec<&IndexEntry>)>)
        ensures
            strictly_sorted(r@.map_values(|g: (String, Vec<&IndexEntry>)| g.0@)),
            forall|i: int|
                0 <= i < self.entries@.len() ==> r@.map_values(|g: (String, Vec<&IndexEntry>)| g.0@).contains(
                    dir_of(#[trigger] self.entries@[i].path@),
                ),
            forall|j: int|
                0 <= j < r@.len() ==> (#[trigger] r@[j]).1@.len() > 0 && r@[j].1@.unref() == group_of(
                    self.entries@,
                    r@[j].0@,
                ),
    {
        let ghost s = self.entries@;
        // the directories, each once, in order
        let mut dirs: Vec<String> = Vec::new();
        let mut i: usize = 0;
        while i < self.entries.len()
            invariant
                i <= s.len(),
                s == self.entries@,
                strictly_sorted(dirs.deep_view()),
                forall|k: int| 0 <= k < i ==> dirs.deep_view().contains(dir_of(#[trigger] s[k].path@)),
                forall|j: int| 0 <= j < dirs.deep_view().len() ==> exists|k: int| 0 <= k < s.len() && #[trigger] dirs.deep_view()[j] == dir_of(#[trigger] s[k].path@),
            decreases s.len() - i,
        {
            let dir = dir_of_path(self.entries[i].path.as_str());
            let ghost before = dirs.deep_view();
            insert_key_sorted(&mut dirs, dir);
            proof {
                assert forall|k: int| 0 <= k < i + 1 implies dirs.deep_view().contains(dir_of(#[trigger] s[k].path@)) by {}
                assert forall|j: int| 0 <= j < dirs.deep_view().len() implies exists|k: int| 0 <= k < s.len() && #[trigger] dirs.deep_view()[j] == dir_of(#[trigger] s[k].path@) by {
                    let x = dirs.deep_view()[j];
                    assert(dirs.deep_view().contains(x));
                    if x != dir_of(s[i as int].path@) {
                        assert(before.contains(x));
                        let jb = choose|jb: int| 0 <= jb < before.len() && before[jb] == x;
                        let k = choose|k: int| 0 <= k < s.len() && #[trigger] before[jb] == dir_of(#[trigger] s[k].path@);
                    }
                }
            }
            i = i + 1;
        }
        // the members of each directory
        let mut groups: Vec<(String, Vec<&IndexEntry>)> = Vec::new();
        let mut g: usize = 0;
        while g < dirs.len()
            invariant
                g <= dirs.deep_view().len(),
                s == self.entries@,
                groups@.len() == g,
                forall|j: int| 0 <= j < g ==> (#[trigger] groups@[j]).0@ == dirs.deep_view()[j],
                forall|j: int| 0 <= j < g ==> (#[trigger] groups@[j]).1@.unref() == group_of(s, dirs.deep_view()[j]),
            decreases dirs.len() - g,
        {
            let key = dirs[g].clone();
            let mut members: Vec<&IndexEntry> = Vec::new();
            let mut k: usize = 0;
            while k < self.entries.len()
                invariant
                    k <= s.len(),
                    s == self.entries@,
                    members@.unref() == group_of(s.take(k as int), key@),
                decreases s.len() - k,
            {
                let e = &self.entries[k];
                let d = dir_of_path(e.path.as_str());
                proof {
                    assert(s.take(k + 1).drop_last() =~= s.take(k as int));
                    assert(s.take(k + 1).last() == s[k as int]);
                }
                let ghost mb = members@.unref();
                if string_eq(&d, &key) {
                    members.push(e);
                    assert(members@.unref() =~= mb.push(s[k as int]));
                }
                k = k + 1;
            }
            assert(s.take(s.len() as int) =~= s);
            groups.push((key, members));
            g = g + 1;
        }
        proof {
            let keys = groups@.map_values(|x: (String, Vec<&IndexEntry>)| x.0@);
            assert(keys =~= dirs.deep_view());
            assert forall|j: int| 0 <= j < groups@.len() implies (#[trigger] groups@[j]).1@.len() > 0 by {
                let k = choose|k: int| 0 <= k < s.len() && #[trigger] dirs.deep_view()[j] == dir_of(#[trigger] s[k].path@);
                lemma_group_of_member(s, dirs.deep_view()[j], k);
            }
            assert forall|i: int| 0 <= i < s.len() implies keys.contains(dir_of(#[trigger] self.entries@[i].path@)) by {
                assert(dirs.deep_view().contains(dir_of(s[i].path@)));
            }
        }
        groups
    }

    /// Differences from this index to `other`: paths only in `other`
    /// (added), in both with different hashes (modified), only here
    /// (deleted); when a path is listed twice the later entry counts.
    pub fn diff_with(&self, other: &Index) -> (r: IndexDiff)
        ensures
            strictly_sorted(r.added.deep_view()),
            strictly_sorted(r.modified.deep_view()),
            strictly_sorted(r.deleted.deep_view()),
            forall|p: Seq<char>|
                r.added.deep_view().contains(p) <==> (hash_map_of(other.entries@).dom().contains(p)
                    && !hash_map_of(self.entries@).dom().contains(p)),
            forall|p: Seq<char>|
                r.modified.deep_view().contains(p) <==> (hash_map_of(other.entries@).dom().contains(p)
                    && hash_map_of(self.entries@).dom().contains(p) && hash_map_of(other.entries@)[p]
                    != hash_map_of(self.entries@)[p]),
            forall|p: Seq<char>|
                r.deleted.deep_view().contains(p) <==> (hash_map_of(self.entries@).dom().contains(p)
                    && !hash_map_of(other.entries@).dom().contains(p)),
    {
        let mine = canonical(&self.entries);
        let theirs = canonical(&other.entries);
        let ghost ms = hash_map_of(self.entries@);
        let ghost mo = hash_map_of(other.entries@);
        let mut added: Vec<String> = Vec::new();
        let mut modified: Vec<String> = Vec::new();
        let mut deleted: Vec<String> = Vec::new();
        let mut i: usize = 0;
        while i < theirs.len()
            invariant
                i <= theirs@.len(),
                canon_ok(mine@, ms),
                canon_ok(theirs@, mo),
                strictly_sorted(added.deep_view()),
                strictly_sorted(modified.deep_view()),
                forall|k: int| 0 <= k < added.deep_view().len() ==> key_in(theirs@, i as int, #[trigger] added.deep_view()[k]),
                forall|k: int| 0 <= k < modified.deep_view().len() ==> key_in(theirs@, i as int, #[trigger] modified.deep_view()[k]),
                forall|p: Seq<char>|
                    #[trigger] added.deep_view().contains(p) <==> key_in(theirs@, i as int, p)
                        && !ms.dom().contains(p),
                forall|p: Seq<char>|
                    #[trigger] modified.deep_view().contains(p) <==> key_in(theirs@, i as int, p)
                        && ms.dom().contains(p) && mo[p] != ms[p],
            decreases theirs.len() - i,
        {
            let key = &theirs[i].0;
            let hash = &theirs[i].1;
            let ghost kv = key@;
            let ghost before_a = added.deep_view();
            let ghost before_m = modified.deep_view();
            proof {
                assert(theirs@[i as int].0@ == kv);
                assert(mo.dom().contains(kv) && mo[kv] == hash@);
                assert forall|p: Seq<char>|
                    #[trigger] key_in(theirs@, i + 1, p) == (key_in(theirs@, i as int, p) || p == kv) by {
                    if key_in(theirs@, i + 1, p) {
                        let q = choose|q: int| 0 <= q < i + 1 && #[trigger] theirs@[q].0@ == p;
                        if q < i {
                            assert(key_in(theirs@, i as int, p));
                        }
                    }
                    if key_in(theirs@, i as int, p) {
                        let q = choose|q: int| 0 <= q < i && #[trigger] theirs@[q].0@ == p;
                        assert(key_in(theirs@, i + 1, p));
                    }
                    if p == kv {
                        assert(theirs@[i as int].0@ == p);
                    }
                }
                assert(!key_in(theirs@, i as int, kv)) by {
                    if key_in(theirs@, i as int, kv) {
                        let q = choose|q: int| 0 <= q < i && #[trigger] theirs@[q].0@ == kv;
                        let tk = theirs@.map_values(|x: (String, String)| x.0@);
                        assert(tk[q] == kv && tk[i as int] == kv);
                        lemma_lex_irreflexive(kv);
                    }
                }
            }
            match lookup(&mine, key.as_str()) {
                None => {
                    proof {
                        if ms.dom().contains(kv) {
                            let q = choose|q: int| 0 <= q < mine@.len() && #[trigger] mine@[q].0@ == kv;
                        }
                    }
                    added.push(key.clone());
                    proof {
                        assert(added.deep_view() =~= before_a.push(kv));
                        lemma_push_sorted(before_a, kv, theirs@, i as int);
                    }
                },
                Some(k) => {
                    proof {
                        assert(ms.dom().contains(kv) && ms[kv] == mine@[k as int].1@);
                    }
                    if !string_eq(&mine[k].1, hash) {
                        modified.push(key.clone());
                        proof {
                            assert(modified.deep_view() =~= before_m.push(kv));
                            lemma_push_sorted(before_m, kv, theirs@, i as int);
                        }
                    }
                },
            }
            proof {
                lemma_contains_push_or_same(before_a, added.deep_view(), kv);
                lemma_contains_push_or_same(before_m, modified.deep_view(), kv);
                assert forall|k: int| 0 <= k < added.deep_view().len() implies key_in(theirs@, i + 1, #[trigger] added.deep_view()[k]) by {
                    if k < before_a.len() {
                        assert(added.deep_view()[k] == before_a[k]);
                    }
                }
                assert forall|k: int| 0 <= k < modified.deep_view().len() implies key_in(theirs@, i + 1, #[trigger] modified.deep_view()[k]) by {
                    if k < before_m.len() {
                        assert(modified.deep_view()[k] == before_m[k]);
                    }
                }
            }
            i = i + 1;
        }
        let mut j: usize = 0;
        while j < mine.len()
            invariant
                j <= mine@.len(),
                canon_ok(mine@, ms),
                canon_ok(theirs@, mo),
                strictly_sorted(deleted.deep_view()),
                forall|k: int| 0 <= k < deleted.deep_view().len() ==> key_in(mine@, j as int, #[trigger] deleted.deep_view()[k]),
                forall|p: Seq<char>|
                    #[trigger] deleted.deep_view().contains(p) <==> key_in(mine@, j as int, p)
                        && !mo.dom().contains(p),
            decreases mine.len() - j,
        {
            let key = &mine[j].0;
            let ghost kv = key@;
            let ghost before_d = deleted.deep_view();
            proof {
                assert(mine@[j as int].0@ == kv);
                assert forall|p: Seq<char>|
                    #[trigger] key_in(mine@, j + 1, p) == (key_in(mine@, j as int, p) || p == kv) by {
                    if key_in(mine@, j + 1, p) {
                        let q = choose|q: int| 0 <= q < j + 1 && #[trigger] mine@[q].0@ == p;
                        if q < j {
                            assert(key_in(mine@, j as int, p));
                        }
                    }
                    if key_in(mine@, j as int, p) {
                        let q = choose|q: int| 0 <= q < j && #[trigger] mine@[q].0@ == p;
                        assert(key_in(mine@, j + 1, p));
                    }
                    if p == kv {
                        assert(mine@[j as int].0@ == p);
                    }
                }
                assert(!key_in(mine@, j as int, kv)) by {
                    if key_in(mine@, j as int, kv) {
                        let q = choose|q: int| 0 <= q < j && #[trigger] mine@[q].0@ == kv;
                        let mk = mine@.map_values(|x: (String, String)| x.0@);
                        assert(mk[q] == kv && mk[j as int] == kv);
                        lemma_lex_irreflexive(kv);
                    }
                }
            }
            let found = lookup(&theirs, key.as_str());
            if found.is_none() {
                proof {
                    if mo.dom().contains(kv) {
                        let q = choose|q: int| 0 <= q < theirs@.len() && #[trigger] theirs@[q].0@ == kv;
                    }
                }
                deleted.push(key.clone());
                proof {
                    assert(deleted.deep_view() =~= before_d.push(kv));
                    lemma_push_sorted(before_d, kv, mine@, j as int);
                }
            } else {
                proof {
                    let k = found.unwrap();
                    assert(mo.dom().contains(theirs@[k as int].0@));
                }
            }
            proof {
                lemma_contains_push_or_same(before_d, deleted.deep_view(), kv);
                assert forall|k: int| 0 <= k < deleted.deep_view().len() implies key_in(mine@, j + 1, #[trigger] deleted.deep_view()[k]) by {
                    if k < before_d.len() {
                        assert(deleted.deep_view()[k] == before_d[k]);
                    }
                }
            }
            j = j + 1;
        }
        proof {
            assert forall|p: Seq<char>| mo.dom().contains(p) implies #[trigger] key_in(theirs@, theirs@.len() as int, p) by {
                let q = choose|q: int| 0 <= q < theirs@.len() && #[trigger] theirs@[q].0@ == p;
            }
            assert forall|p: Seq<char>| ms.dom().contains(p) implies #[trigger] key_in(mine@, mine@.len() as int, p) by {
                let q = choose|q: int| 0 <= q < mine@.len() && #[trigger] mine@[q].0@ == p;
            }
            assert forall|p: Seq<char>| #[trigger] key_in(theirs@, theirs@.len() as int, p) implies mo.dom().contains(p) by {
                let q = choose|q: int| 0 <= q < theirs@.len() && #[trigger] theirs@[q].0@ == p;
            }
            assert forall|p: Seq<char>| #[trigger] key_in(mine@, mine@.len() as int, p) implies ms.dom().contains(p) by {
                let q = choose|q: int| 0 <= q < mine@.len() && #[trigger] mine@[q].0@ == p;
            }
        }
        IndexDiff { added, modified, deleted }
    }
}

/// Some key among the first `n` of `c` is `p`.
pub open spec fn key_in(c: Seq<(String, String)>, n: int, p: Seq<char>) -> bool {
    exists|q: int| 0 <= q < n && #[trigger] c[q].0@ == p
}

/// `c` lists each path of `m` once, in order, with its hash.
pub open spec fn canon_ok(c: Seq<(String, String)>, m: Map<Seq<char>, Seq<char>>) -> bool {
    &&& strictly_sorted(c.map_values(|x: (String, String)| x.0@))
    &&& forall|q: int| 0 <= q < c.len() ==> m.dom().contains(#[trigger] c[q].0@) && m[c[q].0@] == c[q].1@
    &&& forall|p: Seq<char>| m.dom().contains(p) ==> exists|q: int| 0 <= q < c.len() && #[trigger] c[q].0@ == p
}

proof fn lemma_push_sorted(before: Seq<Seq<char>>, key: Seq<char>, src: Seq<(String, String)>, i: int)
    requires
        strictly_sorted(before),
        0 <= i < src.len(),
        src[i].0@ == key,
        strictly_sorted(src.map_values(|x: (String, String)| x.0@)),
        forall|k: int| 0 <= k < before.len() ==> key_in(src, i, #[trigger] before[k]),
    ensures
        strictly_sorted(before.push(key)),
{
    let keys = src.map_values(|x: (String, String)| x.0@);
    let t = before.push(key);
    assert forall|a: int, b: int| 0 <= a < b < t.len() implies lex_lt(#[trigger] t[a], #[trigger] t[b]) by {
        if b == t.len() - 1 {
            assert(key_in(src, i, before[a]));
            let q = choose|q: int| 0 <= q < i && #[trigger] src[q].0@ == before[a];
            assert(keys[q] == before[a] && keys[i] == key);
        } else {
            assert(t[a] == before[a] && t[b] == before[b]);
        }
    }
}

proof fn lemma_contains_push_or_same(before: Seq<Seq<char>>, after: Seq<Seq<char>>, key: Seq<char>)
    requires
        after == before || after == before.push(key),
    ensures
        forall|p: Seq<char>| #[trigger] after.contains(p) ==> before.contains(p) || p == key,
        forall|p: Seq<char>| before.contains(p) ==> #[trigger] after.contains(p),
        after == before.push(key) ==> after.contains(key),
{
    assert forall|p: Seq<char>| #[trigger] after.contains(p) implies before.contains(p) || p == key by {
        let k = choose|k: int| 0 <= k < after.len() && after[k] == p;
        if k < before.len() {
            assert(before[k] == p);
        }
    }
    assert forall|p: Seq<char>| before.contains(p) implies #[trigger] after.contains(p) by {
        let k = choose|k: int| 0 <= k < before.len() && before[k] == p;
        assert(after[k] == p);
    }
    if after == before.push(key) {
        assert(after[before.len() as int] == key);
    }
}

/// Position of `key` in a strictly sorted key/hash list.
fn lookup(c: &Vec<(String, String)>, key: &str) -> (r: Option<usize>)
    ensures
        r matches Some(k) ==> k < c@.len() && c@[k as int].0@ == key@,
        r is None ==> forall|q: int| 0 <= q < c@.len() ==> #[trigger] c@[q].0@ != key@,
{
    let mut i: usize = 0;
    while i < c.len()
        invariant
            i <= c@.len(),
            forall|q: int| 0 <= q < i ==> #[trigger] c@[q].0@ != key@,
        decreases c.len() - i,
    {
        if string_eq_str(&c[i].0, key) {
            return Some(i);
        }
        i = i + 1;
    }
    None
}

/// Each path of `entries` once, in order, with the hash of its last entry.
fn canonical(entries: &Vec<IndexEntry>) -> (r: Vec<(String, String)>)
    ensures
        canon_ok(r@, hash_map_of(entries@)),
{
    let mut out: Vec<(String, String)> = Vec::new();
    let mut i: usize = 0;
    let ghost s = entries@;
    while i < entries.len()
        invariant
            i <= s.len(),
            s == entries@,
            canon_ok(out@, hash_map_of(s.take(i as int))),
        decreases s.len() - i,
    {
        let e = &entries[i];
        let ghost m0 = hash_map_of(s.take(i as int));
        let ghost keys = out@.map_values(|x: (String, String)| x.0@);
        proof {
            assert(s.take(i + 1).drop_last() =~= s.take(i as int));
            assert(s.take(i + 1).last() == e);
        }
        let ghost m1 = m0.insert(e.path@, e.hash@);
        assert(hash_map_of(s.take(i + 1)) == m1);
        let ghost old_out = out@;
        match lookup(&out, e.path.as_str()) {
            Some(k) => {
                let key = out[k].0.clone();
                out.set(k, (key, e.hash.clone()));
                proof {
                    let nk = out@.map_values(|x: (String, String)| x.0@);
                    assert(nk =~= keys);
                    assert forall|p: Seq<char>| m1.dom().contains(p) implies exists|q: int| 0 <= q < out@.len() && #[trigger] out@[q].0@ == p by {
                        if p != e.path@ {
                            let q = choose|q: int| 0 <= q < old_out.len() && #[trigger] old_out[q].0@ == p;
                            assert(out@[q].0@ == p);
                        } else {
                            assert(out@[k as int].0@ == p);
                        }
                    }
                    assert forall|q: int| 0 <= q < out@.len() implies m1.dom().contains(#[trigger] out@[q].0@) && m1[out@[q].0@] == out@[q].1@ by {
                        if q != k {
                            assert(out@[q] == old_out[q]);
                            assert(keys[q] != keys[k as int]) by {
                                lemma_lex_irreflexive(keys[k as int]);
                                lemma_lex_irreflexive(keys[q]);
                            }
                        }
                    }
                }
            },
            None => {
                let mut pos: usize = 0;
                while pos < out.len() && str_lt(out[pos].0.as_str(), e.path.as_str())
                    invariant
                        pos <= out@.len(),
                        out@ == old_out,
                        keys == old_out.map_values(|x: (String, String)| x.0@),
                        forall|q: int| 0 <= q < pos ==> lex_lt(#[trigger] keys[q], e.path@),
                    decreases out.len() - pos,
                {
                    pos = pos + 1;
                }
                out.insert(pos, (e.path.clone(), e.hash.clone()));
                proof {
                    let d = e.path@;
                    if pos < old_out.len() {
                        lemma_lex_total(keys[pos as int], d);
                        assert(keys[pos as int] != d);
                        assert(lex_lt(d, keys[pos as int]));
                    }
                    let nk = out@.map_values(|x: (String, String)| x.0@);
                    assert(nk =~= keys.insert(pos as int, d));
                    assert forall|a: int, b: int| 0 <= a < b < nk.len() implies lex_lt(#[trigger] nk[a], #[trigger] nk[b]) by {
                        if b < pos {
                        } else if b == pos {
                        } else if a == pos {
                            if b - 1 > pos {
                                lemma_lex_transitive(d, keys[pos as int], keys[b - 1]);
                            }
                        } else if a < pos {
                            assert(lex_lt(keys[a], keys[b - 1]));
                        } else {
                        }
                    }
                    assert forall|p: Seq<char>| m1.dom().contains(p) implies exists|q: int| 0 <= q < out@.len() && #[trigger] out@[q].0@ == p by {
                        if p != d {
                            let q = choose|q: int| 0 <= q < old_out.len() && #[trigger] old_out[q].0@ == p;
                            let qn = if q < pos { q } else { q + 1 };
                            assert(out@[qn].0@ == p);
                        } else {
                            assert(out@[pos as int].0@ == p);
                        }
                    }
                    assert forall|q: int| 0 <= q < out@.len() implies m1.dom().contains(#[trigger] out@[q].0@) && m1[out@[q].0@] == out@[q].1@ by {
                        if q < pos {
                            assert(out@[q] == old_out[q]);
                        } else if q > pos {
                            assert(out@[q] == old_out[q - 1]);
                        }
                    }
                }
            },
        }
        i = i + 1;
    }
    assert(s.take(s.len() as int) =~= s);
    out
}

/// Inserts `k` into a strictly sorted list of strings unless it is there.
fn insert_key_sorted(keys: &mut Vec<String>, k: String)
    requires
        strictly_sorted(old(keys).deep_view()),
    ensures
        strictly_sorted(final(keys).deep_view()),
        forall|p: Seq<char>| #[trigger] final(keys).deep_view().contains(p) <==> (old(keys).deep_view().contains(p) || p == k@),
{
    let ghost ks = keys.deep_view();
    let mut pos: usize = 0;
    while pos < keys.len() && str_lt(keys[pos].as_str(), k.as_str())
        invariant
            pos <= keys@.len(),
            keys.deep_view() == ks,
            forall|q: int| 0 <= q < pos ==> lex_lt(#[trigger] ks[q], k@),
        decreases keys.len() - pos,
    {
        assert(ks[pos as int] == keys@[pos as int]@);
        pos = pos + 1;
    }
    if pos < keys.len() && string_eq(&keys[pos], &k) {
        assert(ks[pos as int] == k@);
        return;
    }
    let ghost d = k@;
    keys.insert(pos, k);
    proof {
        if pos < ks.len() {
            assert(ks[pos as int] == old(keys)@[pos as int]@);
            lemma_lex_total(ks[pos as int], d);
            assert(lex_lt(d, ks[pos as int]));
        }
        let nk = keys.deep_view();
        assert(nk =~= ks.insert(pos as int, d));
        assert forall|a: int, b: int| 0 <= a < b < nk.len() implies lex_lt(#[trigger] nk[a], #[trigger] nk[b]) by {
            if b < pos {
            } else if b == pos {
            } else if a == pos {
                if b - 1 > pos {
                    lemma_lex_transitive(d, ks[pos as int], ks[b - 1]);
                }
            } else if a < pos {
                assert(lex_lt(ks[a], ks[b - 1]));
            } else {
            }
        }
        assert forall|p: Seq<char>| #[trigger] nk.contains(p) <==> (ks.contains(p) || p == d) by {
            if nk.contains(p) {
                let q = choose|q: int| 0 <= q < nk.len() && nk[q] == p;
                if q < pos {
                    assert(ks[q] == p);
                } else if q > pos {
                    assert(ks[q - 1] == p);
                }
            }
            if ks.contains(p) {
                let q = choose|q: int| 0 <= q < ks.len() && ks[q] == p;
                if q < pos {
                    assert(nk[q] == p);
                } else {
                    assert(nk[q + 1] == p);
                }
            }
            if p == d {
                assert(nk[pos as int] == p);
            }
        }
    }
}

proof fn lemma_group_of_member(s: Seq<IndexEntry>, d: Seq<char>, k: int)
    requires
        0 <= k < s.len(),
        dir_of(s[k].path@) == d,
    ensures
        group_of(s, d).len() > 0,
    decreases s.len(),
{
    if k < s.len() - 1 {
        lemma_group_of_member(s.drop_last(), d, k);
        lemma_group_of_len_mono(s, d);
    }
}

proof fn lemma_group_of_len_mono(s: Seq<IndexEntry>, d: Seq<char>)
    requires
        s.len() > 0,
    ensures
        group_of(s, d).len() >= group_of(s.drop_last(), d).len(),
{
}

proof fn lemma_group_of_absent(s: Seq<IndexEntry>, d: Seq<char>)
    requires
        forall|k: int| 0 <= k < s.len() ==> dir_of(#[trigger] s[k].path@) != d,
    ensures
        group_of(s, d) == Seq::<IndexEntry>::empty(),
    decreases s.len(),
{
    if s.len() > 0 {
        let t = s.drop_last();
        assert forall|k: int| 0 <= k < t.len() implies dir_of(#[trigger] t[k].path@) != d by {
            assert(t[k] == s[k]);
        }
        lemma_group_of_absent(t, d);
    }
}

impl IndexDiff {
    /// Whether nothing changed.
    pub fn is_empty(&self) -> (r: bool)
        ensures
            r == (self.spec_total() == 0),
    {
        self.added.len() == 0 && self.modified.len() == 0 && self.deleted.len() == 0
    }

    /// Number of changed paths.
    pub fn total_changes(&self) -> (r: usize)
        requires
            self.spec_total() <= usize::MAX,
        ensures
            r == self.spec_total(),
    {
        self.added.len() + self.modified.len() + self.deleted.len()
    }
}

/// An index compared with itself shows no change.
pub proof fn law_diff_with_self_is_empty(idx: Index, d: IndexDiff)
    requires
        forall|p: Seq<char>|
            d.added.deep_view().contains(p) <==> (hash_map_of(idx.entries@).dom().contains(p)
                && !hash_map_of(idx.entries@).dom().contains(p)),
        forall|p: Seq<char>|
            d.modified.deep_view().contains(p) <==> (hash_map_of(idx.entries@).dom().contains(p)
                && hash_map_of(idx.entries@).dom().contains(p) && hash_map_of(idx.entries@)[p]
                != hash_map_of(idx.entries@)[p]),
        forall|p: Seq<char>|
            d.deleted.deep_view().contains(p) <==> (hash_map_of(idx.entries@).dom().contains(p)
                && !hash_map_of(idx.entries@).dom().contains(p)),
    ensures
        d.spec_total() == 0,
{
    if d.added@.len() > 0 {
        assert(d.added.deep_view().contains(d.added.deep_view()[0]));
    }
    if d.modified@.len() > 0 {
        assert(d.modified.deep_view().contains(d.modified.deep_view()[0]));
    }
    if d.deleted@.len() > 0 {
        assert(d.deleted.deep_view().contains(d.deleted.deep_view()[0]));
    }
}


/// Two strictly sorted lists of strings with the same members are the same
/// list.
proof fn lemma_sorted_same_members(a: Seq<Seq<char>>, b: Seq<Seq<char>>)
    requires
        strictly_sorted(a),
        strictly_sorted(b),
        forall|p: Seq<char>| a.contains(p) <==> b.contains(p),
    ensures
        a == b,
    decreases a.len(),
{
    if a.len() == 0 {
        if b.len() > 0 {
            assert(b.contains(b[0]));
        }
        assert(a =~= b);
    } else {
        assert(a.contains(a[0]));
        let j = choose|j: int| 0 <= j < b.len() && b[j] == a[0];
        assert(b.contains(b[0]));
        let k = choose|k: int| 0 <= k < a.len() && a[k] == b[0];
        if j > 0 {
            assert(lex_lt(b[0], b[j]));
            if k > 0 {
                assert(lex_lt(a[0], a[k]));
                lemma_lex_asymmetric(a[0], b[0]);
            } else {
                lemma_lex_irreflexive(a[0]);
            }
        }
        assert(b[0] == a[0]);
        let ta = a.drop_first();
        let tb = b.drop_first();
        assert forall|p: Seq<char>| ta.contains(p) <==> tb.contains(p) by {
            if ta.contains(p) {
                let i = choose|i: int| 0 <= i < ta.len() && ta[i] == p;
                assert(a[i + 1] == p);
                assert(lex_lt(a[0], a[i + 1]));
                lemma_lex_irreflexive(p);
                assert(a.contains(p));
                let m = choose|m: int| 0 <= m < b.len() && b[m] == p;
                assert(m != 0);
                assert(tb[m - 1] == p);
            }
            if tb.contains(p) {
                let i = choose|i: int| 0 <= i < tb.len() && tb[i] == p;
                assert(b[i + 1] == p);
                assert(lex_lt(b[0], b[i + 1]));
                lemma_lex_irreflexive(p);
                assert(b.contains(p));
                let m = choose|m: int| 0 <= m < a.len() && a[m] == p;
                assert(m != 0);
                assert(ta[m - 1] == p);
            }
        }
        assert(strictly_sorted(ta)) by {
            assert forall|i: int, j2: int| 0 <= i < j2 < ta.len() implies lex_lt(#[trigger] ta[i], #[trigger] ta[j2]) by {
                assert(ta[i] == a[i + 1] && ta[j2] == a[j2 + 1]);
            }
        }
        assert(strictly_sorted(tb)) by {
            assert forall|i: int, j2: int| 0 <= i < j2 < tb.len() implies lex_lt(#[trigger] tb[i], #[trigger] tb[j2]) by {
                assert(tb[i] == b[i + 1] && tb[j2] == b[j2 + 1]);
            }
        }
        lemma_sorted_same_members(ta, tb);
        assert(a =~= seq![a[0]] + ta);
        assert(b =~= seq![b[0]] + tb);
    }
}

/// Comparing the other way round swaps the added and the deleted paths and
/// keeps the modified ones: for `d1` as `a.diff_with(b)` states it and `d2`
/// as `b.diff_with(a)` states it, `d1.added` is `d2.deleted`, `d1.deleted`
/// is `d2.added`, and the modified lists are equal.
pub proof fn law_diff_with_swapped(a: Index, b: Index, d1: IndexDiff, d2: IndexDiff)
    requires
        strictly_sorted(d1.added.deep_view()),
        strictly_sorted(d1.modified.deep_view()),
        strictly_sorted(d1.deleted.deep_view()),
        forall|p: Seq<char>|
            d1.added.deep_view().contains(p) <==> (hash_map_of(b.entries@).dom().contains(p)
                && !hash_map_of(a.entries@).dom().contains(p)),
        forall|p: Seq<char>|
            d1.modified.deep_view().contains(p) <==> (hash_map_of(b.entries@).dom().contains(p)
                && hash_map_of(a.entries@).dom().contains(p) && hash_map_of(b.entries@)[p]
                != hash_map_of(a.entries@)[p]),
        forall|p: Seq<char>|
            d1.deleted.deep_view().contains(p) <==> (hash_map_of(a.entries@).dom().contains(p)
                && !hash_map_of(b.entries@).dom().contains(p)),
        strictly_sorted(d2.added.deep_view()),
        strictly_sorted(d2.modified.deep_view()),
        strictly_sorted(d2.deleted.deep_view()),
        forall|p: Seq<char>|
            d2.added.deep_view().contains(p) <==> (hash_map_of(a.entries@).dom().contains(p)
                && !hash_map_of(b.entries@).dom().contains(p)),
        forall|p: Seq<char>|
            d2.modified.deep_view().contains(p) <==> (hash_map_of(a.entries@).dom().contains(p)
                && hash_map_of(b.entries@).dom().contains(p) && hash_map_of(a.entries@)[p]
                != hash_map_of(b.entries@)[p]),
        forall|p: Seq<char>|
            d2.deleted.deep_view().contains(p) <==> (hash_map_of(b.entries@).dom().contains(p)
                && !hash_map_of(a.entries@).dom().contains(p)),
    ensures
        d1.added.deep_view() == d2.deleted.deep_view(),
        d1.deleted.deep_view() == d2.added.deep_view(),
        d1.modified.deep_view() == d2.modified.deep_view(),
{
    lemma_sorted_same_members(d1.added.deep_view(), d2.deleted.deep_view());
    lemma_sorted_same_members(d1.deleted.deep_view(), d2.added.deep_view());
    lemma_sorted_same_members(d1.modified.deep_view(), d2.modified.deep_view());
}

} // verus!
