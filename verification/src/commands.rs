//! The decisions the command-line commands make between their reads and
//! writes: defaults, answers, walks over history and over the object graph,
//! and the small text formats the commands read and write.
use vstd::prelude::*;
use vstd::string::*;
use crate::config::UserConfig;
use crate::index::{Index, IndexEntry};
use crate::object::{FgitObject, Commit, TreeEntry, FileMode, object_bytes, object_type_of};
use crate::paths::{path_file_name, file_name_of};
use crate::text::{
    trim, trim_string, lines, split_lines, join, join_strings, push_str, push_char, str_eq,
    starts_with, replaced, replace_all, lowercase_of, to_lowercase, find_first, to_chars,
    string_of, lemma_find_first,
};
use crate::merge::string_eq;

verus! {

// ---------------------------------------------------------------------------
// Saving
// ---------------------------------------------------------------------------

/// The name and email a commit is made with: the configured ones, or
/// `Unknown` and `unknown@apexforge.dev` where they are empty.
pub open spec fn identity_defaults(name: Seq<char>, email: Seq<char>) -> (Seq<char>, Seq<char>) {
    (
        if name.len() == 0 { "Unknown"@ } else { name },
        if email.len() == 0 { "unknown@apexforge.dev"@ } else { email },
    )
}

pub fn commit_identity(user: &UserConfig) -> (r: (String, String))
    ensures
        (r.0@, r.1@) == identity_defaults(user.name@, user.email@),
{
    let name = if user.name.unicode_len() == 0 { String::from_str("Unknown") } else { user.name.clone() };
    let email = if user.email.unicode_len() == 0 {
        String::from_str("unknown@apexforge.dev")
    } else {
        user.email.clone()
    };
    (name, email)
}

/// Directories that walks of the working tree do not enter: the repository
/// directory `.fgit` and a `.git` one.
pub fn is_internal_dir(name: &str) -> (r: bool)
    ensures
        r == (name@ == ".fgit"@ || name@ == ".git"@),
{
    str_eq(name, ".fgit") || str_eq(name, ".git")
}

/// The message of a save: the one given with `-m`, else the words given
/// after the command joined by spaces.
pub fn save_message(message: Option<String>, words: &Vec<String>) -> (r: String)
    ensures
        match message {
            Some(m) => r@ == m@,
            None => r@ == join(words.deep_view(), seq![' ']),
        },
{
    proof {
        reveal_strlit(" ");
        assert(" "@ =~= seq![' ']);
    }
    match message {
        Some(m) => m,
        None => join_strings(words, " "),
    }
}

/// The hash a reflog records as the old one when there was no commit.
pub open spec fn no_commit_hash() -> Seq<char> {
    "0000000000000000"@
}

/// The old hash and the message a save writes to the reflog: the first
/// parent (or `0000000000000000` for a first commit), and `save: ` before
/// the commit message.
pub fn save_reflog(parents: &Vec<String>, message: &str) -> (r: (String, String))
    ensures
        r.0@ == if parents@.len() == 0 { no_commit_hash() } else { parents@[0]@ },
        r.1@ == "save: "@ + message@,
{
    let old = if parents.len() == 0 {
        String::from_str("0000000000000000")
    } else {
        parents[0].clone()
    };
    (old, crate::text::concat2("save: ", message))
}

/// An answer that stages a file: `y` or `Y`, blanks around it aside.
pub open spec fn is_yes(input: Seq<char>) -> bool {
    trim(input) == seq!['y'] || trim(input) == seq!['Y']
}

pub fn confirms(input: &str) -> (r: bool)
    ensures
        r == is_yes(input@),
{
    proof {
        reveal_strlit("y");
        reveal_strlit("Y");
        assert("y"@ =~= seq!['y']);
        assert("Y"@ =~= seq!['Y']);
    }
    let t = trim_string(input);
    str_eq(t.as_str(), "y") || str_eq(t.as_str(), "Y")
}

/// The mode of a reset: `hard`, else `soft`, else `mixed`.
pub fn reset_mode(soft: bool, mixed: bool, hard: bool) -> (r: String)
    ensures
        r@ == if hard { "hard"@ } else if soft { "soft"@ } else { "mixed"@ },
{
    if hard {
        String::from_str("hard")
    } else if soft {
        String::from_str("soft")
    } else {
        String::from_str("mixed")
    }
}

// ---------------------------------------------------------------------------
// Status
// ---------------------------------------------------------------------------

/// How a file of the working tree stands against the index.
#[derive(Debug, Clone, Copy, PartialEq, Eq, Structural)]
pub enum FileStatus {
    Untracked,
    Modified,
    Unchanged,
}

/// A file the index does not hold is untracked; one whose content name
/// differs from the index's is modified.
pub fn file_status(index: &Index, path: &str, hash: &str) -> (r: FileStatus)
    ensures
        index.spec_get(path@) is None ==> r == FileStatus::Untracked,
        index.spec_get(path@) matches Some(e) ==> r == if e.hash@ == hash@ {
            FileStatus::Unchanged
        } else {
            FileStatus::Modified
        },
{
    match index.get(path) {
        None => FileStatus::Untracked,
        Some(e) => {
            if str_eq(e.hash.as_str(), hash) {
                FileStatus::Unchanged
            } else {
                FileStatus::Modified
            }
        },
    }
}

// ---------------------------------------------------------------------------
// Bisect
// ---------------------------------------------------------------------------

/// One commit of the walk back from the bad commit.
#[derive(Debug)]
pub enum BisectVisit {
    /// The commit was marked good: the walk is over.
    FoundGood,
    /// The commit joins the chain; the walk goes on to its first parent.
    Continue(String),
    /// The commit joins the chain; it has no parent.
    End,
}

pub fn bisect_visit(goods: &Vec<String>, current: &String, parents: &Vec<String>) -> (r: BisectVisit)
    ensures
        goods.deep_view().contains(current@) ==> r is FoundGood,
        !goods.deep_view().contains(current@) && parents@.len() == 0 ==> r is End,
        !goods.deep_view().contains(current@) && parents@.len() > 0 ==> (r matches BisectVisit::Continue(p)
            && p@ == parents@[0]@),
{
    let mut i: usize = 0;
    while i < goods.len()
        invariant
            i <= goods@.len(),
            forall|j: int| 0 <= j < i ==> goods.deep_view()[j] != current@,
        decreases goods.len() - i,
    {
        if string_eq(&goods[i], current) {
            assert(goods.deep_view()[i as int] == current@);
            return BisectVisit::FoundGood;
        }
        i = i + 1;
    }
    if parents.len() == 0 {
        BisectVisit::End
    } else {
        BisectVisit::Continue(parents[0].clone())
    }
}

/// What bisect does once the walk is over.
#[derive(Debug, Clone, Copy, PartialEq, Eq, Structural)]
pub enum BisectStep {
    /// No good commit lies behind the bad one.
    NotDescendant,
    /// The bad commit is the first bad one.
    Finished,
    /// Check out the commit at `index` of the chain; `remaining` are left.
    Midpoint { index: usize, remaining: usize },
}

pub fn bisect_step(chain_len: usize, found_good: bool) -> (r: BisectStep)
    ensures
        !found_good ==> r == BisectStep::NotDescendant,
        found_good && chain_len <= 1 ==> r == BisectStep::Finished,
        found_good && chain_len > 1 ==> r == (BisectStep::Midpoint { index: chain_len / 2, remaining: (chain_len - 1) as usize }),
{
    if !found_good {
        BisectStep::NotDescendant
    } else if chain_len <= 1 {
        BisectStep::Finished
    } else {
        BisectStep::Midpoint { index: chain_len / 2, remaining: chain_len - 1 }
    }
}

// ---------------------------------------------------------------------------
// Walking trees
// ---------------------------------------------------------------------------

/// What a walk over a tree does with one entry: a file (regular or
/// executable) is listed under its path, a directory is walked under its
/// path, a symbolic link is passed over.
#[derive(Debug)]
pub enum EntryVisit {
    File { path: String, hash: String },
    Dir { path: String, hash: String },
    Skip,
}

/// The path of an entry below `prefix`: the name itself at the top, else
/// `prefix/name`.
pub open spec fn entry_path(prefix: Seq<char>, name: Seq<char>) -> Seq<char> {
    if prefix.len() == 0 {
        name
    } else {
        prefix + seq!['/'] + name
    }
}

/// The visit of an entry met below `prefix`.
pub fn entry_visit(prefix: &str, entry: &TreeEntry) -> (r: EntryVisit)
    ensures
        match entry.mode {
            FileMode::Regular | FileMode::Executable => r matches EntryVisit::File { path, hash } && path@
                == entry_path(prefix@, entry.name@) && hash@ == entry.hash@,
            FileMode::Directory => r matches EntryVisit::Dir { path, hash } && path@ == entry_path(
                prefix@,
                entry.name@,
            ) && hash@ == entry.hash@,
            FileMode::Symlink => r is Skip,
        },
{
    let path = if prefix.unicode_len() == 0 {
        entry.name.clone()
    } else {
        let mut p = String::from_str(prefix);
        push_char(&mut p, '/');
        push_str(&mut p, entry.name.as_str());
        p
    };
    match entry.mode {
        FileMode::Regular | FileMode::Executable => EntryVisit::File { path, hash: entry.hash.clone() },
        FileMode::Directory => EntryVisit::Dir { path, hash: entry.hash.clone() },
        FileMode::Symlink => EntryVisit::Skip,
    }
}

// ---------------------------------------------------------------------------
// Garbage collection
// ---------------------------------------------------------------------------

/// The names an object refers to: a commit its tree and parents, a tree
/// its entries; blobs and tags none.
pub open spec fn links_of(o: FgitObject) -> Seq<Seq<char>> {
    match o {
        FgitObject::Commit(c) => seq![c.tree_hash@] + c.parent_hashes.deep_view(),
        FgitObject::Tree(t) => t.entries@.map_values(|e: crate::object::TreeEntry| e.hash@),
        _ => Seq::empty(),
    }
}

/// Every entry of a tree, whatever its mode (subtrees included), and the
/// tree and every parent of a commit are links; a tree's links are its
/// entries' hashes in order, and a blob or a tag links to nothing.
pub proof fn law_links_cover_every_entry(o: FgitObject)
    ensures
        o matches FgitObject::Tree(t) ==> links_of(o).len() == t.entries@.len()
            && forall|i: int| 0 <= i < t.entries@.len() ==> links_of(o)[i] == (#[trigger] t.entries@[i]).hash@
                && links_of(o).contains(t.entries@[i].hash@),
        o matches FgitObject::Commit(c) ==> links_of(o).len() == c.parent_hashes@.len() + 1
            && links_of(o)[0] == c.tree_hash@
            && forall|i: int| 0 <= i < c.parent_hashes@.len() ==> links_of(o)[i + 1] == (#[trigger] c.parent_hashes@[i])@,
        (o is Blob || o is Tag) ==> links_of(o).len() == 0,
{
    match o {
        FgitObject::Tree(t) => {
            assert forall|i: int| 0 <= i < t.entries@.len() implies links_of(o)[i] == (#[trigger] t.entries@[i]).hash@
                && links_of(o).contains(t.entries@[i].hash@) by {
                assert(links_of(o)[i] == t.entries@[i].hash@);
            }
        },
        _ => {},
    }
}

pub fn object_links(o: &FgitObject) -> (r: Vec<String>)
    ensures
        r.deep_view() == links_of(*o),
        o matches FgitObject::Tree(t) ==> r@.len() == t.entries@.len()
            && forall|i: int| 0 <= i < t.entries@.len() ==> r@[i]@ == (#[trigger] t.entries@[i]).hash@,
{
    proof {
        law_links_cover_every_entry(*o);
    }
    let mut out: Vec<String> = Vec::new();
    match o {
        FgitObject::Commit(c) => {
            out.push(c.tree_hash.clone());
            let mut i: usize = 0;
            while i < c.parent_hashes.len()
                invariant
                    i <= c.parent_hashes@.len(),
                    out.deep_view() == seq![c.tree_hash@] + c.parent_hashes.deep_view().take(i as int),
                decreases c.parent_hashes.len() - i,
            {
                let ghost before = out.deep_view();
                out.push(c.parent_hashes[i].clone());
                assert(out.deep_view() =~= before.push(c.parent_hashes@[i as int]@));
                assert(c.parent_hashes.deep_view().take(i + 1) =~= c.parent_hashes.deep_view().take(i as int).push(c.parent_hashes@[i as int]@));
                i = i + 1;
            }
            assert(c.parent_hashes.deep_view().take(c.parent_hashes@.len() as int) =~= c.parent_hashes.deep_view());
        },
        FgitObject::Tree(t) => {
            let mut i: usize = 0;
            while i < t.entries.len()
                invariant
                    i <= t.entries@.len(),
                    out.deep_view() == t.entries@.take(i as int).map_values(|e: crate::object::TreeEntry| e.hash@),
                decreases t.entries.len() - i,
            {
                let ghost before = out.deep_view();
                out.push(t.entries[i].hash.clone());
                assert(out.deep_view() =~= before.push(t.entries@[i as int].hash@));
                assert(t.entries@.take(i + 1).map_values(|e: crate::object::TreeEntry| e.hash@) =~= t.entries@.take(i as int).map_values(|e: crate::object::TreeEntry| e.hash@).push(t.entries@[i as int].hash@));
                i = i + 1;
            }
            assert(t.entries@.take(t.entries@.len() as int) =~= t.entries@);
        },
        _ => {
            assert(out.deep_view() =~= Seq::<Seq<char>>::empty());
        },
    }
    out
}

/// Index of the last name of `visit` not yet in `reach`, or -1.
pub open spec fn last_unseen(reach: Seq<Seq<char>>, visit: Seq<Seq<char>>) -> int
    decreases visit.len(),
{
    if visit.len() == 0 {
        -1
    } else if !reach.contains(visit.last()) {
        visit.len() - 1
    } else {
        last_unseen(reach, visit.drop_last())
    }
}

proof fn lemma_last_unseen(reach: Seq<Seq<char>>, visit: Seq<Seq<char>>)
    ensures
        -1 <= last_unseen(reach, visit) < visit.len(),
        last_unseen(reach, visit) >= 0 ==> !reach.contains(visit[last_unseen(reach, visit)]),
    decreases visit.len(),
{
    if visit.len() > 0 && reach.contains(visit.last()) {
        lemma_last_unseen(reach, visit.drop_last());
    }
}

/// Marking keeps the reachable names free of repeats: the name `next`
/// marks is one not yet marked.
pub proof fn law_gc_marks_each_name_once(reach: Seq<Seq<char>>, visit: Seq<Seq<char>>)
    requires
        reach.no_duplicates(),
    ensures
        last_unseen(reach, visit) >= 0 ==> reach.push(visit[last_unseen(reach, visit)]).no_duplicates(),
{
    lemma_last_unseen(reach, visit);
    let k = last_unseen(reach, visit);
    if k >= 0 {
        let r2 = reach.push(visit[k]);
        assert forall|i: int, j: int| 0 <= i < r2.len() && 0 <= j < r2.len() && i != j implies r2[i] != r2[j] by {
            if i == reach.len() as int {
                if r2[i] == r2[j] {
                    assert(reach[j] == r2[j]);
                    assert(reach.contains(visit[k]));
                }
            } else if j == reach.len() as int {
                if r2[i] == r2[j] {
                    assert(reach[i] == r2[i]);
                    assert(reach.contains(visit[k]));
                }
            } else {
                assert(r2[i] == reach[i] && r2[j] == reach[j]);
            }
        }
    }
}

/// The mark phase of garbage collection: names found reachable, and names
/// still to look at (a stack).
pub struct GcWalk {
    pub reachable: Vec<String>,
    pub to_visit: Vec<String>,
}

impl GcWalk {
    /// A walk from the given roots.
    pub fn new(roots: Vec<String>) -> (r: GcWalk)
        ensures
            r.reachable@.len() == 0,
            r.to_visit@ == roots@,
    {
        GcWalk { reachable: Vec::new(), to_visit: roots }
    }

    /// The next name to read: the top of the stack, once names already
    /// marked are dropped from it; it is marked reachable.
    pub fn next(&mut self) -> (r: Option<String>)
        ensures
            ({
                let k = last_unseen(old(self).reachable.deep_view(), old(self).to_visit.deep_view());
                if k < 0 {
                    &&& r is None
                    &&& final(self).to_visit@.len() == 0
                    &&& final(self).reachable@ == old(self).reachable@
                } else {
                    &&& r matches Some(h) && h@ == old(self).to_visit.deep_view()[k]
                    &&& final(self).to_visit@ == old(self).to_visit@.take(k)
                    &&& final(self).reachable.deep_view() == old(self).reachable.deep_view().push(
                        old(self).to_visit.deep_view()[k],
                    )
                }
            }),
    {
        let ghost reach = self.reachable.deep_view();
        let ghost reach_raw = self.reachable@;
        let ghost visit0 = self.to_visit.deep_view();
        let ghost visit0_raw = self.to_visit@;
        assert(visit0.take(visit0.len() as int) =~= visit0);
        assert(visit0_raw.take(visit0_raw.len() as int) =~= visit0_raw);
        while self.to_visit.len() > 0
            invariant
                reach == old(self).reachable.deep_view(),
                reach_raw == old(self).reachable@,
                visit0 == old(self).to_visit.deep_view(),
                visit0_raw == old(self).to_visit@,
                self.reachable.deep_view() == reach,
                self.reachable@ == reach_raw,
                self.to_visit@.len() <= visit0.len(),
                visit0_raw.len() == visit0.len(),
                visit0 == visit0_raw.map_values(|s: String| s@),
                self.to_visit@ == visit0_raw.take(self.to_visit@.len() as int),
                last_unseen(reach, visit0) == last_unseen(reach, visit0.take(self.to_visit@.len() as int)),
            decreases self.to_visit.len(),
        {
            let ghost n = self.to_visit@.len();
            let h = self.to_visit.pop().unwrap();
            let ghost pre = visit0.take(n as int);
            proof {
                assert(h == visit0_raw[n - 1]);
                assert(pre.last() == h@);
                assert(pre.drop_last() =~= visit0.take(n - 1));
                assert(self.to_visit@ =~= visit0_raw.take(n - 1));
            }
            if !crate::text::strings_contain(&self.reachable, &h) {
                let ghost before = self.reachable.deep_view();
                self.reachable.push(h.clone());
                assert(self.reachable.deep_view() =~= before.push(h@));
                assert(last_unseen(reach, pre) == n - 1);
                assert(visit0[n - 1] == h@);
                assert(self.to_visit@ == visit0_raw.take(n - 1));
                return Some(h);
            }
        }
        assert(visit0.take(0) =~= Seq::<Seq<char>>::empty());
        None
    }

    /// Whether a stored object's name was marked reachable (gc keeps it).
    pub fn is_reachable(&self, name: &str) -> (r: bool)
        ensures
            r == self.reachable.deep_view().contains(name@),
    {
        let n = String::from_str(name);
        crate::text::strings_contain(&self.reachable, &n)
    }

    /// Puts the names an object refers to on the stack.
    pub fn add_links(&mut self, links: Vec<String>)
        ensures
            final(self).reachable@ == old(self).reachable@,
            final(self).to_visit@ == old(self).to_visit@ + links@,
    {
        let mut links = links;
        self.to_visit.append(&mut links);
    }
}

// ---------------------------------------------------------------------------
// Reflog
// ---------------------------------------------------------------------------

/// The first `k` spaces of a line split it into `k + 1` parts, the last
/// holding the rest (`str::splitn(k + 1, ' ')`).
pub open spec fn split_spaces(s: Seq<char>, k: nat) -> Seq<Seq<char>>
    decreases k,
{
    if k == 0 || find_first(s, ' ') < 0 {
        seq![s]
    } else {
        let p = find_first(s, ' ');
        seq![s.take(p)] + split_spaces(s.skip(p + 1), (k - 1) as nat)
    }
}

/// A reflog line, read as `old new time message`: the new hash and the
/// message, if the line has those four parts.
pub open spec fn reflog_fields(line: Seq<char>) -> Option<(Seq<char>, Seq<char>)> {
    let parts = split_spaces(line, 3);
    if parts.len() < 4 {
        None
    } else {
        Some((parts[1], parts[3]))
    }
}

/// Splits `s` at its first space, if it has one.
fn split_at_space(s: &String) -> (r: Option<(String, String)>)
    ensures
        find_first(s@, ' ') < 0 ==> r is None,
        find_first(s@, ' ') >= 0 ==> (r matches Some((a, b)) && a@ == s@.take(find_first(s@, ' '))
            && b@ == s@.skip(find_first(s@, ' ') + 1)),
{
    let v = to_chars(s.as_str());
    proof {
        lemma_find_first(s@, ' ');
    }
    match crate::text::find_char(v.as_slice(), ' ') {
        None => None,
        Some(p) => {
            let n = v.len();
            let a = string_of(v.as_slice(), 0, p);
            let b = string_of(v.as_slice(), p + 1, n);
            assert(a@ =~= s@.take(p as int));
            assert(b@ =~= s@.skip(p + 1));
            Some((a, b))
        },
    }
}

/// Reads a reflog line.
pub fn reflog_line(line: &String) -> (r: Option<(String, String)>)
    ensures
        match r {
            Some((h, m)) => reflog_fields(line@) == Some((h@, m@)),
            None => reflog_fields(line@) is None,
        },
{
    match split_at_space(line) {
        None => {
            assert(split_spaces(line@, 3) =~= seq![line@]);
            None
        },
        Some((_old, rest1)) => match split_at_space(&rest1) {
            None => {
                assert(split_spaces(rest1@, 2) =~= seq![rest1@]);
                None
            },
            Some((new_hash, rest2)) => match split_at_space(&rest2) {
                None => {
                    assert(split_spaces(rest2@, 1) =~= seq![rest2@]);
                    None
                },
                Some((_time, message)) => {
                    let ghost t = split_spaces(message@, 0);
                    assert(t =~= seq![message@]);
                    assert(split_spaces(rest2@, 1) =~= seq![_time@] + t);
                    assert(split_spaces(rest1@, 2) =~= seq![new_hash@] + split_spaces(rest2@, 1));
                    assert(split_spaces(line@, 3) =~= seq![_old@] + split_spaces(rest1@, 2));
                    assert(split_spaces(line@, 3)[1] == new_hash@);
                    assert(split_spaces(line@, 3)[3] == message@);
                    Some((new_hash, message))
                },
            },
        },
    }
}

/// The lines of a reflog, newest first.
pub fn reflog_lines_newest_first(content: &str) -> (r: Vec<String>)
    ensures
        r.deep_view() == lines(content@).reverse(),
{
    let ls = split_lines(content);
    let mut out: Vec<String> = Vec::new();
    let n = ls.len();
    let mut i: usize = 0;
    while i < n
        invariant
            n == ls@.len(),
            i <= n,
            ls.deep_view() == lines(content@),
            out.deep_view() == ls.deep_view().skip((n - i) as int).reverse(),
        decreases n - i,
    {
        let ghost before = out.deep_view();
        out.push(ls[n - 1 - i].clone());
        proof {
            let dv = ls.deep_view();
            assert(out.deep_view() =~= before.push(dv[n - 1 - i]));
            assert(dv.skip(n - 1 - i).reverse() =~= dv.skip((n - i) as int).reverse().push(dv[n - 1 - i]));
        }
        i = i + 1;
    }
    assert(ls.deep_view().skip(0) =~= ls.deep_view());
    out
}

// ---------------------------------------------------------------------------
// Rebase
// ---------------------------------------------------------------------------

/// What an interactive rebase does with a commit.
#[derive(Debug, Clone, Copy, PartialEq, Eq, Structural)]
pub enum RebaseAction {
    Keep,
    Drop,
    Squash,
}

/// The answer, trimmed and lowercased: `d` or `drop` drops, `s` or
/// `squash` squashes, anything else keeps.
pub open spec fn rebase_choice(input: Seq<char>) -> RebaseAction {
    let a = lowercase_of(trim(input));
    if a == seq!['d'] || a == seq!['d', 'r', 'o', 'p'] {
        RebaseAction::Drop
    } else if a == seq!['s'] || a == seq!['s', 'q', 'u', 'a', 's', 'h'] {
        RebaseAction::Squash
    } else {
        RebaseAction::Keep
    }
}

pub fn rebase_action(input: &str) -> (r: RebaseAction)
    ensures
        r == rebase_choice(input@),
{
    proof {
        reveal_strlit("d");
        reveal_strlit("drop");
        reveal_strlit("s");
        reveal_strlit("squash");
        assert("d"@ =~= seq!['d']);
        assert("drop"@ =~= seq!['d', 'r', 'o', 'p']);
        assert("s"@ =~= seq!['s']);
        assert("squash"@ =~= seq!['s', 'q', 'u', 'a', 's', 'h']);
    }
    let t = trim_string(input);
    let a = to_lowercase(t.as_str());
    if str_eq(a.as_str(), "d") || str_eq(a.as_str(), "drop") {
        RebaseAction::Drop
    } else if str_eq(a.as_str(), "s") || str_eq(a.as_str(), "squash") {
        RebaseAction::Squash
    } else {
        RebaseAction::Keep
    }
}

// ---------------------------------------------------------------------------
// Cherry-pick
// ---------------------------------------------------------------------------

/// The hash a file listing gives a path: its last occurrence.
pub open spec fn listed_hash(files: Seq<(Seq<char>, Seq<char>)>, path: Seq<char>) -> Option<Seq<char>>
    decreases files.len(),
{
    if files.len() == 0 {
        None
    } else if files.last().0 == path {
        Some(files.last().1)
    } else {
        listed_hash(files.drop_last(), path)
    }
}

pub open spec fn pairs_view(v: Seq<(String, String)>) -> Seq<(Seq<char>, Seq<char>)> {
    v.map_values(|p: (String, String)| (p.0@, p.1@))
}

/// The files a commit changed against its parent's listing: those it has
/// with another hash or that the parent lacks, in the commit's order.
pub open spec fn changed_files(parent: Seq<(Seq<char>, Seq<char>)>, cherry: Seq<(Seq<char>, Seq<char>)>) -> Seq<(Seq<char>, Seq<char>)>
    decreases cherry.len(),
{
    if cherry.len() == 0 {
        Seq::empty()
    } else {
        let rest = changed_files(parent, cherry.drop_last());
        let (p, h) = cherry.last();
        if listed_hash(parent, p) == Some(h) { rest } else { rest.push((p, h)) }
    }
}

/// The files of the parent's listing that the commit lacks, in order.
pub open spec fn removed_files(parent: Seq<(Seq<char>, Seq<char>)>, cherry: Seq<(Seq<char>, Seq<char>)>) -> Seq<Seq<char>>
    decreases parent.len(),
{
    if parent.len() == 0 {
        Seq::empty()
    } else {
        let rest = removed_files(parent.drop_last(), cherry);
        if listed_hash(cherry, parent.last().0) is None { rest.push(parent.last().0) } else { rest }
    }
}

fn lookup_listed(files: &Vec<(String, String)>, path: &String) -> (r: Option<String>)
    ensures
        match r {
            Some(h) => listed_hash(pairs_view(files@), path@) == Some(h@),
            None => listed_hash(pairs_view(files@), path@) is None,
        },
{
    let mut i = files.len();
    assert(files@.take(files@.len() as int) =~= files@);
    while i > 0
        invariant
            i <= files@.len(),
            listed_hash(pairs_view(files@), path@) == listed_hash(pairs_view(files@.take(i as int)), path@),
        decreases i,
    {
        proof {
            assert(pairs_view(files@.take(i as int)).drop_last() =~= pairs_view(files@.take(i - 1)));
        }
        if string_eq(&files[i - 1].0, path) {
            return Some(files[i - 1].1.clone());
        }
        i = i - 1;
    }
    assert(pairs_view(files@.take(0)) =~= Seq::<(Seq<char>, Seq<char>)>::empty());
    None
}

/// The files to write and the files to delete when a commit with file
/// listing `cherry` is applied over its parent's listing `parent`.
pub fn tree_changes(parent: &Vec<(String, String)>, cherry: &Vec<(String, String)>) -> (r: (Vec<(String, String)>, Vec<String>))
    ensures
        pairs_view(r.0@) == changed_files(pairs_view(parent@), pairs_view(cherry@)),
        r.1.deep_view() == removed_files(pairs_view(parent@), pairs_view(cherry@)),
{
    let ghost pv = pairs_view(parent@);
    let ghost cv = pairs_view(cherry@);
    let mut changed: Vec<(String, String)> = Vec::new();
    let mut i: usize = 0;
    assert(pairs_view(changed@) =~= Seq::<(Seq<char>, Seq<char>)>::empty());
    while i < cherry.len()
        invariant
            i <= cherry@.len(),
            pv == pairs_view(parent@),
            cv == pairs_view(cherry@),
            pairs_view(changed@) == changed_files(pv, cv.take(i as int)),
        decreases cherry.len() - i,
    {
        proof {
            assert(cv.take(i + 1).drop_last() =~= cv.take(i as int));
            assert(cv.take(i + 1).last() == (cherry@[i as int].0@, cherry@[i as int].1@));
        }
        let (p, h) = (&cherry[i].0, &cherry[i].1);
        let same = match lookup_listed(parent, p) {
            Some(ph) => string_eq(&ph, h),
            None => false,
        };
        if !same {
            let ghost before = changed@;
            changed.push((p.clone(), h.clone()));
            assert(pairs_view(changed@) =~= pairs_view(before).push((p@, h@)));
        }
        i = i + 1;
    }
    assert(cv.take(cv.len() as int) =~= cv);
    let mut deleted: Vec<String> = Vec::new();
    let mut j: usize = 0;
    assert(deleted.deep_view() =~= Seq::<Seq<char>>::empty());
    while j < parent.len()
        invariant
            j <= parent@.len(),
            pv == pairs_view(parent@),
            cv == pairs_view(cherry@),
            deleted.deep_view() == removed_files(pv.take(j as int), cv),
        decreases parent.len() - j,
    {
        proof {
            assert(pv.take(j + 1).drop_last() =~= pv.take(j as int));
            assert(pv.take(j + 1).last() == (parent@[j as int].0@, parent@[j as int].1@));
        }
        if lookup_listed(cherry, &parent[j].0).is_none() {
            let ghost before = deleted.deep_view();
            deleted.push(parent[j].0.clone());
            assert(deleted.deep_view() =~= before.push(parent@[j as int].0@));
        }
        j = j + 1;
    }
    assert(pv.take(pv.len() as int) =~= pv);
    (changed, deleted)
}

// ---------------------------------------------------------------------------
// Submodules and linked working trees
// ---------------------------------------------------------------------------

/// The entry a new submodule adds to `.fgitmodules`.
pub fn module_entry(path: &str, url: &str) -> (r: String)
    ensures
        r@ == "\n[submodule \""@ + path@ + "\"]\n\tpath = "@ + path@ + "\n\turl = "@ + url@ + "\n"@,
{
    let mut s = String::from_str("\n[submodule \"");
    push_str(&mut s, path);
    push_str(&mut s, "\"]\n\tpath = ");
    push_str(&mut s, path);
    push_str(&mut s, "\n\turl = ");
    push_str(&mut s, url);
    push_str(&mut s, "\n");
    s
}

/// The submodules `.fgitmodules` lists, read line by line: a trimmed line
/// starting `path =` sets the path, one starting `url =` the url (each with
/// every `path =` or `url =` removed and trimmed); once both are set the
/// pair is listed and both are cleared.
pub struct ModuleScan {
    pub modules: Seq<(Seq<char>, Seq<char>)>,
    pub path: Option<Seq<char>>,
    pub url: Option<Seq<char>>,
}

pub open spec fn path_key() -> Seq<char> {
    seq!['p', 'a', 't', 'h', ' ', '=']
}

pub open spec fn url_key() -> Seq<char> {
    seq!['u', 'r', 'l', ' ', '=']
}

pub open spec fn module_step(st: ModuleScan, line: Seq<char>) -> ModuleScan {
    let t = trim(line);
    let path = if path_key().is_prefix_of(t) {
        Some(trim(replaced(t, path_key(), Seq::empty())))
    } else {
        st.path
    };
    let url = if !path_key().is_prefix_of(t) && url_key().is_prefix_of(t) {
        Some(trim(replaced(t, url_key(), Seq::empty())))
    } else {
        st.url
    };
    if path is Some && url is Some {
        ModuleScan { modules: st.modules.push((path->0, url->0)), path: None, url: None }
    } else {
        ModuleScan { modules: st.modules, path, url }
    }
}

pub open spec fn module_scan(ls: Seq<Seq<char>>) -> ModuleScan
    decreases ls.len(),
{
    if ls.len() == 0 {
        ModuleScan { modules: Seq::empty(), path: None, url: None }
    } else {
        module_step(module_scan(ls.drop_last()), ls.last())
    }
}

pub fn parse_modules(text: &str) -> (r: Vec<(String, String)>)
    ensures
        pairs_view(r@) == module_scan(lines(text@)).modules,
{
    proof {
        reveal_strlit("path =");
        reveal_strlit("url =");
        reveal_strlit("");
        assert("path ="@ =~= path_key());
        assert("url ="@ =~= url_key());
        assert(""@ =~= Seq::<char>::empty());
    }
    let ls = split_lines(text);
    let mut modules: Vec<(String, String)> = Vec::new();
    let mut cur_path: Option<String> = None;
    let mut cur_url: Option<String> = None;
    let mut i: usize = 0;
    assert(pairs_view(modules@) =~= Seq::<(Seq<char>, Seq<char>)>::empty());
    while i < ls.len()
        invariant
            i <= ls@.len(),
            ls.deep_view() == lines(text@),
            "path ="@ == path_key(),
            "url ="@ == url_key(),
            ""@ == Seq::<char>::empty(),
            pairs_view(modules@) == module_scan(ls.deep_view().take(i as int)).modules,
            match cur_path {
                Some(s) => module_scan(ls.deep_view().take(i as int)).path == Some(s@),
                None => module_scan(ls.deep_view().take(i as int)).path is None,
            },
            match cur_url {
                Some(s) => module_scan(ls.deep_view().take(i as int)).url == Some(s@),
                None => module_scan(ls.deep_view().take(i as int)).url is None,
            },
        decreases ls.len() - i,
    {
        proof {
            let dv = ls.deep_view();
            assert(dv.take(i + 1).drop_last() =~= dv.take(i as int));
            assert(dv.take(i + 1).last() == ls@[i as int]@);
        }
        let t = trim_string(ls[i].as_str());
        if starts_with(t.as_str(), "path =") {
            let r = replace_all(t.as_str(), "path =", "");
            cur_path = Some(trim_string(r.as_str()));
        } else if starts_with(t.as_str(), "url =") {
            let r = replace_all(t.as_str(), "url =", "");
            cur_url = Some(trim_string(r.as_str()));
        }
        if cur_path.is_some() && cur_url.is_some() {
            let p = cur_path.unwrap();
            let u = cur_url.unwrap();
            let ghost before = modules@;
            modules.push((p, u));
            assert(pairs_view(modules@) =~= pairs_view(before).push((modules@.last().0@, modules@.last().1@)));
            cur_path = None;
            cur_url = None;
        }
        i = i + 1;
    }
    proof {
        assert(ls.deep_view().take(ls@.len() as int) =~= ls.deep_view());
    }
    modules
}

/// The content of the `.fgit` file of a linked working tree.
pub fn worktree_pointer(fgit_dir: &str) -> (r: String)
    ensures
        r@ == "gitdir: "@ + fgit_dir@,
{
    crate::text::concat2("gitdir: ", fgit_dir)
}

pub open spec fn gitdir_key() -> Seq<char> {
    seq!['g', 'i', 't', 'd', 'i', 'r', ':', ' ']
}

/// The repository directory a `.fgit` file points to: its content with
/// every `gitdir: ` removed and trimmed, if it starts with `gitdir: `.
pub fn linked_fgit_dir(content: &str) -> (r: Option<String>)
    ensures
        match r {
            Some(d) => gitdir_key().is_prefix_of(content@) && d@ == trim(replaced(content@, gitdir_key(), Seq::empty())),
            None => !gitdir_key().is_prefix_of(content@),
        },
{
    proof {
        reveal_strlit("gitdir: ");
        reveal_strlit("");
        assert("gitdir: "@ =~= gitdir_key());
        assert(""@ =~= Seq::<char>::empty());
    }
    if starts_with(content, "gitdir: ") {
        let r = replace_all(content, "gitdir: ", "");
        Some(trim_string(r.as_str()))
    } else {
        None
    }
}

/// The directory a clone goes to: the one given, else the last component
/// of the source, else `cloned_repo`.
pub fn clone_target(url: &str, dir: Option<&str>) -> (r: String)
    ensures
        match dir {
            Some(d) => r@ == d@,
            None => match path_file_name(url@) {
                Some(f) => r@ == f,
                None => r@ == "cloned_repo"@,
            },
        },
{
    match dir {
        Some(d) => String::from_str(d),
        None => match file_name_of(url) {
            Some(f) => f,
            None => String::from_str("cloned_repo"),
        },
    }
}

// ---------------------------------------------------------------------------
// Patches
// ---------------------------------------------------------------------------

/// `char::is_alphanumeric`.
pub uninterp spec fn is_alphanumeric(c: char) -> bool;

/// `char::is_alphanumeric`: the Unicode alphabetic and numeric characters.
#[verifier::external_body]
fn char_is_alphanumeric(c: char) -> (r: bool)
    ensures
        r == is_alphanumeric(c),
{
    c.is_alphanumeric()
}

/// The characters of `s` that are alphanumeric or `-`.
pub open spec fn keep_name_chars(s: Seq<char>) -> Seq<char>
    decreases s.len(),
{
    if s.len() == 0 {
        Seq::empty()
    } else {
        keep_name_chars(s.drop_last()) + if is_alphanumeric(s.last()) || s.last() == '-' {
            seq![s.last()]
        } else {
            Seq::empty()
        }
    }
}

/// The file name of a patch: `0001-`, the message with spaces turned into
/// `-`, lowercased and stripped of other characters, then `.patch`.
pub open spec fn patch_name(message: Seq<char>) -> Seq<char> {
    "0001-"@ + keep_name_chars(lowercase_of(replaced(message, seq![' '], seq!['-']))) + ".patch"@
}

pub fn patch_file_name(message: &str) -> (r: String)
    ensures
        r@ == patch_name(message@),
{
    proof {
        reveal_strlit(" ");
        reveal_strlit("-");
        assert(" "@ =~= seq![' ']);
        assert("-"@ =~= seq!['-']);
    }
    let dashed = replace_all(message, " ", "-");
    let lower = to_lowercase(dashed.as_str());
    let chars = to_chars(lower.as_str());
    let mut out = String::from_str("0001-");
    let ghost head = out@;
    let mut i: usize = 0;
    while i < chars.len()
        invariant
            i <= chars@.len(),
            chars@ == lower@,
            out@ == head + keep_name_chars(chars@.take(i as int)),
        decreases chars.len() - i,
    {
        let c = chars[i];
        proof {
            assert(chars@.take(i + 1).drop_last() =~= chars@.take(i as int));
        }
        if char_is_alphanumeric(c) || c == '-' {
            push_char(&mut out, c);
        }
        i = i + 1;
    }
    push_str(&mut out, ".patch");
    assert(chars@.take(chars@.len() as int) =~= chars@);
    out
}

/// The text of a patch file for a commit, with its author time already
/// formatted.
pub fn patch_text(hash: &str, c: &Commit, date: &str) -> (r: String)
    ensures
        r@ == "From "@ + hash@ + " Mon Sep 17 00:00:00 2001\nFrom: "@ + c.author.name@ + " <"@ + c.author.email@
            + ">\nDate: "@ + date@ + "\nSubject: [PATCH] "@ + c.message@ + "\n\n"@
            + "--- fgit MVP format-patch doesn't fully dump Myers Edit scripts yet ---\n"@ + "Tree Hash: "@
            + c.tree_hash@ + "\n"@ + "Total Parents: "@ + crate::text::decimal(c.parent_hashes@.len()) + "\n"@,
{
    let mut s = String::from_str("From ");
    push_str(&mut s, hash);
    push_str(&mut s, " Mon Sep 17 00:00:00 2001\nFrom: ");
    push_str(&mut s, c.author.name.as_str());
    push_str(&mut s, " <");
    push_str(&mut s, c.author.email.as_str());
    push_str(&mut s, ">\nDate: ");
    push_str(&mut s, date);
    push_str(&mut s, "\nSubject: [PATCH] ");
    push_str(&mut s, c.message.as_str());
    push_str(&mut s, "\n\n");
    push_str(&mut s, "--- fgit MVP format-patch doesn't fully dump Myers Edit scripts yet ---\n");
    push_str(&mut s, "Tree Hash: ");
    push_str(&mut s, c.tree_hash.as_str());
    push_str(&mut s, "\n");
    push_str(&mut s, "Total Parents: ");
    crate::text::push_decimal(&mut s, c.parent_hashes.len() as u64);
    push_str(&mut s, "\n");
    s
}

} // verus!
