//! The stash: saved changes, one numbered JSON file per entry.  This module
//! says how entries are numbered, named and ordered; the files themselves
//! are read and written by the caller.
use vstd::prelude::*;
use vstd::string::*;
use crate::object::Timestamp;
use crate::paths::{path_join, join_path};
use crate::sorting::{stable_sorted, lemma_insert_pos, lemma_stable_sorted_multiset};
use crate::text::{decimal, push_decimal, push_str, strip_suffix, u32_text_value, parse_u32};

verus! {

/// One file of a stash entry.
#[derive(Debug)]
pub struct StashedFile {
    pub path: String,
    pub content: Vec<u8>,
    pub original_hash: String,
}

/// A stash entry.
#[derive(Debug)]
pub struct StashEntry {
    pub id: u32,
    pub message: String,
    pub timestamp: Timestamp,
    pub changes: Vec<StashedFile>,
}

/// Where the stash of a repository lives.
pub struct StashManager {
    stash_dir: String,
}

pub open spec fn json_suffix() -> Seq<char> {
    seq!['.', 'j', 's', 'o', 'n']
}

/// The id a stash file name carries: the `u32` before `.json`.
pub open spec fn stash_id_of(name: Seq<char>) -> Option<u32> {
    if json_suffix().is_suffix_of(name) {
        u32_text_value(name.take(name.len() - 5))
    } else {
        None
    }
}

/// The largest id among the names.
pub open spec fn latest_id_of(names: Seq<Seq<char>>) -> Option<u32>
    decreases names.len(),
{
    if names.len() == 0 {
        None
    } else {
        let prev = latest_id_of(names.drop_last());
        match stash_id_of(names.last()) {
            Some(id) => Some(
                match prev {
                    Some(m) => if m >= id { m } else { id },
                    None => id,
                },
            ),
            None => prev,
        }
    }
}

/// The id after the latest one, or 0 for an empty stash.
pub open spec fn next_stash_id(latest: Option<u32>) -> int {
    match latest {
        Some(id) => id + 1,
        None => 0,
    }
}

proof fn lemma_latest_id_is_max(names: Seq<Seq<char>>)
    ensures
        forall|i: int| 0 <= i < names.len() && (#[trigger] stash_id_of(names[i])) is Some ==> (
            latest_id_of(names) matches Some(m) && stash_id_of(names[i])->0 <= m),
        latest_id_of(names) matches Some(m) ==> exists|i: int| 0 <= i < names.len() && #[trigger] stash_id_of(names[i]) == Some(m),
    decreases names.len(),
{
    if names.len() > 0 {
        let prev = names.drop_last();
        lemma_latest_id_is_max(prev);
        assert forall|i: int| 0 <= i < names.len() && (#[trigger] stash_id_of(names[i])) is Some implies (
            latest_id_of(names) matches Some(m) && stash_id_of(names[i])->0 <= m) by {
            if i < names.len() - 1 {
                assert(names[i] == prev[i]);
                assert(stash_id_of(prev[i]) is Some);
            }
        }
        if latest_id_of(names) is Some {
            let m = latest_id_of(names)->0;
            if stash_id_of(names.last()) == Some(m) {
                assert(stash_id_of(names[names.len() - 1]) == Some(m));
            } else {
                let j = choose|j: int| 0 <= j < prev.len() && #[trigger] stash_id_of(prev[j]) == Some(m);
                assert(names[j] == prev[j]);
                assert(stash_id_of(names[j]) == Some(m));
            }
        }
    }
}

/// A new stash entry never reuses a number: the id after the latest is
/// larger than the id of every `<id>.json` in the stash directory.
pub proof fn law_next_id_is_fresh(names: Seq<Seq<char>>)
    ensures
        forall|i: int| 0 <= i < names.len() ==> ((#[trigger] stash_id_of(names[i])) matches Some(id)
            ==> id < next_stash_id(latest_id_of(names))),
{
    lemma_latest_id_is_max(names);
}

impl StashManager {
    pub closed spec fn dir(&self) -> Seq<char> {
        self.stash_dir@
    }

    /// The manager of the `stash` directory below `fgit_dir`.
    pub fn new(fgit_dir: &str) -> (r: StashManager)
        ensures
            r.dir() == path_join(fgit_dir@, "stash"@),
    {
        StashManager { stash_dir: join_path(fgit_dir, "stash") }
    }

    /// The stash directory.
    pub fn stash_dir(&self) -> (r: String)
        ensures
            r@ == self.dir(),
    {
        self.stash_dir.clone()
    }

    /// The file of an entry: `<id>.json` in the stash directory.
    pub fn entry_path(&self, id: u32) -> (r: String)
        ensures
            r@ == path_join(self.dir(), decimal(id as nat) + ".json"@),
    {
        let mut name = String::new();
        push_decimal(&mut name, id as u64);
        push_str(&mut name, ".json");
        join_path(self.stash_dir.as_str(), name.as_str())
    }

    /// The largest id among the file names of the stash directory (names
    /// that are not `<u32>.json` are passed over).
    pub fn latest_id(names: &Vec<String>) -> (r: Option<u32>)
        ensures
            r == latest_id_of(names.deep_view()),
    {
        proof {
            reveal_strlit(".json");
            assert(".json"@ =~= json_suffix());
        }
        let mut max_id: Option<u32> = None;
        let mut i: usize = 0;
        while i < names.len()
            invariant
                i <= names@.len(),
                ".json"@ == json_suffix(),
                max_id == latest_id_of(names.deep_view().take(i as int)),
            decreases names.len() - i,
        {
            proof {
                let dv = names.deep_view();
                assert(dv.take(i + 1).drop_last() =~= dv.take(i as int));
                assert(dv.take(i + 1).last() == names@[i as int]@);
            }
            if let Some(stem) = strip_suffix(names[i].as_str(), ".json") {
                if let Some(id) = parse_u32(stem.as_str()) {
                    max_id = Some(
                        match max_id {
                            Some(m) => if m >= id { m } else { id },
                            None => id,
                        },
                    );
                }
            }
            i = i + 1;
        }
        proof {
            assert(names.deep_view().take(names@.len() as int) =~= names.deep_view());
        }
        max_id
    }

    /// The id for a new entry: one past the latest, or 0.
    pub fn next_id(latest: Option<u32>) -> (r: u32)
        requires
            latest != Some(u32::MAX),
        ensures
            r == next_stash_id(latest),
    {
        match latest {
            Some(id) => id + 1,
            None => 0,
        }
    }

    /// A new entry, stamped with the current time.
    pub fn new_entry(id: u32, message: &str, changes: Vec<StashedFile>) -> (r: StashEntry)
        ensures
            r.id == id,
            r.message@ == message@,
            r.changes@ == changes@,
    {
        StashEntry { id, message: String::from_str(message), timestamp: Timestamp::now(), changes }
    }

    /// Entries ordered by id; entries with the same id keep their order
    /// (`sort_by_key` on the id).
    pub fn sort_by_id(entries: Vec<StashEntry>) -> (r: Vec<StashEntry>)
        ensures
            r@ == stable_sorted(entries@, id_order()),
            forall|i: int, j: int| 0 <= i < j < r@.len() ==> (#[trigger] r@[i]).id <= (#[trigger] r@[j]).id,
            r@.to_multiset() == entries@.to_multiset(),
    {
        let ghost all = entries@;
        let mut rest = entries;
        let mut out: Vec<StashEntry> = Vec::new();
        let mut i: usize = 0;
        let n = rest.len();
        while i < n
            invariant
                n == all.len(),
                i <= n,
                rest@ == all.skip(i as int),
                out@ == stable_sorted(all.take(i as int), id_order()),
                forall|a: int, b: int| 0 <= a < b < out@.len() ==> (#[trigger] out@[a]).id <= (#[trigger] out@[b]).id,
            decreases n - i,
        {
            let e = rest.remove(0);
            let ghost before = out@;
            let mut pos: usize = 0;
            while pos < out.len() && !(e.id < out[pos].id)
                invariant
                    pos <= out@.len(),
                    out@ == before,
                    forall|j: int| 0 <= j < pos ==> !(e.id < (#[trigger] before[j]).id),
                decreases out.len() - pos,
            {
                pos = pos + 1;
            }
            proof {
                lemma_insert_pos(before, e, id_order(), pos as int);
                assert(all.take(i + 1).drop_last() =~= all.take(i as int));
                assert(all.take(i + 1).last() == e);
                assert(rest@ =~= all.skip(i + 1));
            }
            let ghost ev = e;
            out.insert(pos, e);
            proof {
                let t = out@;
                assert(t == before.insert(pos as int, ev));
                assert forall|a: int, b: int| 0 <= a < b < t.len() implies (#[trigger] t[a]).id <= (#[trigger] t[b]).id by {
                    if b < pos {
                        assert(t[a] == before[a] && t[b] == before[b]);
                    } else if b == pos {
                        assert(t[a] == before[a]);
                    } else if a == pos {
                        assert(t[b] == before[b - 1]);
                        assert(ev.id < before[pos as int].id);
                        if b - 1 > pos {
                            assert(before[pos as int].id <= before[b - 1].id);
                        }
                    } else if a < pos {
                        assert(t[a] == before[a] && t[b] == before[b - 1]);
                    } else {
                        assert(t[a] == before[a - 1] && t[b] == before[b - 1]);
                    }
                }
            }
            i = i + 1;
        }
        proof {
            assert(all.take(n as int) =~= all);
            lemma_stable_sorted_multiset(all, id_order());
        }
        out
    }
}

/// Entries go by id.
pub open spec fn id_order() -> spec_fn(StashEntry, StashEntry) -> bool {
    |a: StashEntry, b: StashEntry| a.id < b.id
}

} // verus!
