//! Objects of the store: blobs, trees, commits and tags, the canonical byte
//! form of each, the `<type> <size>\0` header and the SHA-256 name.
use vstd::prelude::*;
use vstd::string::*;
use vstd::utf8::{encode_utf8, valid_utf8, decode_utf8};
use sha2::Digest;
use crate::text::{
    lex_lt, lemma_lex_irreflexive, lemma_lex_asymmetric, lemma_lex_transitive, lemma_lex_total,
    str_eq, str_lt, decimal, signed_decimal, push_char, push_str, push_decimal, push_signed_decimal,
    find_first, lemma_find_first, lemma_find_first_at, lemma_find_first_none, to_chars, string_of,
    find_char, concat2, trim, trim_string, lines, split_lines, join, join_strings, strip_prefix,
    i64_text_value, parse_i64, one_line, is_ws, is_digit, all_digits, digits_value, digit_char,
    trim_start, trim_end, strip_cr, lemma_lines_cons, lemma_join_lines,
};
use crate::tag::{Tag, TagType};
use crate::sorting::{stable_sorted, insert_pos, lemma_insert_pos, lemma_stable_sorted_multiset};

verus! {

// ---------------------------------------------------------------------------
// Object types and file modes
// ---------------------------------------------------------------------------

/// The four kinds of stored objects.
#[derive(Debug, Clone, Copy, PartialEq, Eq, Structural)]
pub enum ObjectType {
    Blob,
    Tree,
    Commit,
    Tag,
}

/// The name of an object type, as it appears in object headers.
pub open spec fn object_type_name(t: ObjectType) -> Seq<char> {
    match t {
        ObjectType::Blob => seq!['b', 'l', 'o', 'b'],
        ObjectType::Tree => seq!['t', 'r', 'e', 'e'],
        ObjectType::Commit => seq!['c', 'o', 'm', 'm', 'i', 't'],
        ObjectType::Tag => seq!['t', 'a', 'g'],
    }
}

/// The object type with the given name, if any.
pub open spec fn object_type_named(s: Seq<char>) -> Option<ObjectType> {
    if s == object_type_name(ObjectType::Blob) {
        Some(ObjectType::Blob)
    } else if s == object_type_name(ObjectType::Tree) {
        Some(ObjectType::Tree)
    } else if s == object_type_name(ObjectType::Commit) {
        Some(ObjectType::Commit)
    } else if s == object_type_name(ObjectType::Tag) {
        Some(ObjectType::Tag)
    } else {
        None
    }
}

impl ObjectType {
    /// The object type named `s` (`blob`, `tree`, `commit` or `tag`).
    pub fn from_str(s: &str) -> (r: Option<ObjectType>)
        ensures
            r == object_type_named(s@),
    {
        proof {
            reveal_strlit("blob");
            assert("blob"@ =~= seq!['b', 'l', 'o', 'b']);
            reveal_strlit("tree");
            assert("tree"@ =~= seq!['t', 'r', 'e', 'e']);
            reveal_strlit("commit");
            assert("commit"@ =~= seq!['c', 'o', 'm', 'm', 'i', 't']);
            reveal_strlit("tag");
            assert("tag"@ =~= seq!['t', 'a', 'g']);
        }
        if str_eq(s, "blob") {
            Some(ObjectType::Blob)
        } else if str_eq(s, "tree") {
            Some(ObjectType::Tree)
        } else if str_eq(s, "commit") {
            Some(ObjectType::Commit)
        } else if str_eq(s, "tag") {
            Some(ObjectType::Tag)
        } else {
            None
        }
    }

    /// The name of the type.
    pub fn to_string(&self) -> (r: String)
        ensures
            r@ == object_type_name(*self),
    {
        proof {
            reveal_strlit("blob");
            assert("blob"@ =~= seq!['b', 'l', 'o', 'b']);
            reveal_strlit("tree");
            assert("tree"@ =~= seq!['t', 'r', 'e', 'e']);
            reveal_strlit("commit");
            assert("commit"@ =~= seq!['c', 'o', 'm', 'm', 'i', 't']);
            reveal_strlit("tag");
            assert("tag"@ =~= seq!['t', 'a', 'g']);
        }
        match self {
            ObjectType::Blob => String::from_str("blob"),
            ObjectType::Tree => String::from_str("tree"),
            ObjectType::Commit => String::from_str("commit"),
            ObjectType::Tag => String::from_str("tag"),
        }
    }
}

/// Each name denotes the type it names, and each type is named by its name.
pub proof fn law_object_type_names(t: ObjectType, s: Seq<char>)
    ensures
        object_type_named(object_type_name(t)) == Some(t),
        object_type_named(s) matches Some(u) ==> object_type_name(u) == s,
{
}

/// Permissions of a tree entry.
#[derive(Debug, Clone, Copy, PartialEq, Eq, Structural)]
pub enum FileMode {
    Regular,
    Executable,
    Symlink,
    Directory,
}

/// The octal notation of a file mode.
pub open spec fn file_mode_name(m: FileMode) -> Seq<char> {
    match m {
        FileMode::Regular => seq!['1', '0', '0', '6', '4', '4'],
        FileMode::Executable => seq!['1', '0', '0', '7', '5', '5'],
        FileMode::Symlink => seq!['1', '2', '0', '0', '0', '0'],
        FileMode::Directory => seq!['0', '4', '0', '0', '0', '0'],
    }
}

/// The file mode with the given octal notation, if any.
pub open spec fn file_mode_named(s: Seq<char>) -> Option<FileMode> {
    if s == file_mode_name(FileMode::Regular) {
        Some(FileMode::Regular)
    } else if s == file_mode_name(FileMode::Executable) {
        Some(FileMode::Executable)
    } else if s == file_mode_name(FileMode::Symlink) {
        Some(FileMode::Symlink)
    } else if s == file_mode_name(FileMode::Directory) {
        Some(FileMode::Directory)
    } else {
        None
    }
}

impl FileMode {
    /// The file mode written `s` (`100644`, `100755`, `120000` or `040000`).
    pub fn from_str(s: &str) -> (r: Option<FileMode>)
        ensures
            r == file_mode_named(s@),
    {
        proof {
            reveal_strlit("100644");
            assert("100644"@ =~= seq!['1', '0', '0', '6', '4', '4']);
            reveal_strlit("100755");
            assert("100755"@ =~= seq!['1', '0', '0', '7', '5', '5']);
            reveal_strlit("120000");
            assert("120000"@ =~= seq!['1', '2', '0', '0', '0', '0']);
            reveal_strlit("040000");
            assert("040000"@ =~= seq!['0', '4', '0', '0', '0', '0']);
        }
        if str_eq(s, "100644") {
            Some(FileMode::Regular)
        } else if str_eq(s, "100755") {
            Some(FileMode::Executable)
        } else if str_eq(s, "120000") {
            Some(FileMode::Symlink)
        } else if str_eq(s, "040000") {
            Some(FileMode::Directory)
        } else {
            None
        }
    }

    /// The octal notation of the mode.
    pub fn to_string(&self) -> (r: String)
        ensures
            r@ == file_mode_name(*self),
    {
        proof {
            reveal_strlit("100644");
            assert("100644"@ =~= seq!['1', '0', '0', '6', '4', '4']);
            reveal_strlit("100755");
            assert("100755"@ =~= seq!['1', '0', '0', '7', '5', '5']);
            reveal_strlit("120000");
            assert("120000"@ =~= seq!['1', '2', '0', '0', '0', '0']);
            reveal_strlit("040000");
            assert("040000"@ =~= seq!['0', '4', '0', '0', '0', '0']);
        }
        match self {
            FileMode::Regular => String::from_str("100644"),
            FileMode::Executable => String::from_str("100755"),
            FileMode::Symlink => String::from_str("120000"),
            FileMode::Directory => String::from_str("040000"),
        }
    }
}

/// Each notation denotes the mode it writes, and each mode is written by its
/// notation.
pub proof fn law_file_mode_names(m: FileMode, s: Seq<char>)
    ensures
        file_mode_named(file_mode_name(m)) == Some(m),
        file_mode_named(s) matches Some(u) ==> file_mode_name(u) == s,
{
}

// ---------------------------------------------------------------------------
// Blobs and trees
// ---------------------------------------------------------------------------

/// A blob: the raw content of a file.
#[derive(Debug)]
pub struct Blob {
    pub content: Vec<u8>,
}

impl Blob {
    pub fn new(content: Vec<u8>) -> (r: Blob)
        ensures
            r.content@ == content@,
    {
        Blob { content }
    }

    /// The size of the content in bytes.
    pub fn size(&self) -> (r: usize)
        ensures
            r == self.content@.len(),
    {
        self.content.len()
    }
}

/// One entry of a tree: a file or a subdirectory.
#[derive(Debug)]
pub struct TreeEntry {
    pub mode: FileMode,
    pub name: String,
    pub hash: String,
}

impl Clone for TreeEntry {
    fn clone(&self) -> (r: Self)
        ensures
            r == *self,
    {
        TreeEntry { mode: self.mode, name: self.name.clone(), hash: self.hash.clone() }
    }
}

/// A tree: the snapshot of one directory.
#[derive(Debug)]
pub struct Tree {
    pub entries: Vec<TreeEntry>,
}

/// What a tree entry says.
pub struct EntryView {
    pub mode: FileMode,
    pub name: Seq<char>,
    pub hash: Seq<char>,
}

impl View for TreeEntry {
    type V = EntryView;

    open spec fn view(&self) -> EntryView {
        EntryView { mode: self.mode, name: self.name@, hash: self.hash@ }
    }
}

pub open spec fn entries_view(es: Seq<TreeEntry>) -> Seq<EntryView> {
    es.map_values(|e: TreeEntry| e@)
}

/// Directories come before files; within each group entries go by name.
pub open spec fn entry_lt(a: EntryView, b: EntryView) -> bool {
    let ad = a.mode == FileMode::Directory;
    let bd = b.mode == FileMode::Directory;
    (ad && !bd) || (ad == bd && lex_lt(a.name, b.name))
}

pub open spec fn entry_order() -> spec_fn(EntryView, EntryView) -> bool {
    |a: EntryView, b: EntryView| entry_lt(a, b)
}

/// No entry comes after one that should follow it.
pub open spec fn entries_sorted(es: Seq<EntryView>) -> bool {
    forall|i: int, j: int| 0 <= i < j < es.len() ==> !entry_lt(#[trigger] es[j], #[trigger] es[i])
}

proof fn lemma_lex_trans_all(a: Seq<char>, b: Seq<char>, c: Seq<char>)
    ensures
        lex_lt(a, b) && lex_lt(b, c) ==> lex_lt(a, c),
{
    if lex_lt(a, b) && lex_lt(b, c) {
        lemma_lex_transitive(a, b, c);
    }
}

proof fn lemma_entry_order(a: EntryView, b: EntryView, c: EntryView)
    ensures
        !entry_lt(a, a),
        entry_lt(a, b) ==> !entry_lt(b, a),
        entry_lt(a, b) && !entry_lt(c, b) ==> entry_lt(a, c),
        !entry_lt(b, a) && !entry_lt(c, b) ==> !entry_lt(c, a),
{
    lemma_lex_irreflexive(a.name);
    lemma_lex_asymmetric(a.name, b.name);
    lemma_lex_total(b.name, c.name);
    lemma_lex_total(a.name, b.name);
    lemma_lex_total(a.name, c.name);
    lemma_lex_trans_all(a.name, b.name, c.name);
    lemma_lex_trans_all(a.name, c.name, b.name);
    lemma_lex_trans_all(c.name, b.name, a.name);
    lemma_lex_trans_all(c.name, a.name, b.name);
    lemma_lex_trans_all(b.name, a.name, c.name);
    lemma_lex_trans_all(b.name, c.name, a.name);
}

impl Tree {
    pub fn new() -> (r: Tree)
        ensures
            r.entries@.len() == 0,
    {
        Tree { entries: Vec::new() }
    }

    /// Appends an entry.
    pub fn add_entry(&mut self, mode: FileMode, name: String, hash: String)
        ensures
            final(self).entries@ == old(self).entries@.push(TreeEntry { mode, name, hash }),
            entries_view(final(self).entries@) == entries_view(old(self).entries@).push(
                EntryView { mode, name: name@, hash: hash@ },
            ),
    {
        let ghost before = self.entries@;
        self.entries.push(TreeEntry { mode, name, hash });
        assert(entries_view(self.entries@) =~= entries_view(before).push(self.entries@.last()@));
    }

    /// Puts directories first and orders each group by name; entries that
    /// tie keep their order (a stable sort).
    pub fn sort_entries(&mut self)
        ensures
            entries_view(final(self).entries@) == stable_sorted(entries_view(old(self).entries@), entry_order()),
            entries_sorted(entries_view(final(self).entries@)),
            entries_view(final(self).entries@).to_multiset() == entries_view(old(self).entries@).to_multiset(),
    {
        let ghost all = entries_view(self.entries@);
        let mut out: Vec<TreeEntry> = Vec::new();
        let mut i: usize = 0;
        assert(entries_view(out@) =~= Seq::<EntryView>::empty());
        while i < self.entries.len()
            invariant
                i <= self.entries@.len(),
                all == entries_view(self.entries@),
                entries_sorted(entries_view(out@)),
                entries_view(out@) == stable_sorted(all.take(i as int), entry_order()),
            decreases self.entries.len() - i,
        {
            let e = self.entries[i].clone();
            let ghost before = entries_view(out@);
            let pos = insert_entry(&mut out, e);
            proof {
                assert(all.take(i + 1).drop_last() =~= all.take(i as int));
                assert(all.take(i + 1).last() == self.entries@[i as int]@);
            }
            i = i + 1;
        }
        proof {
            assert(all.take(all.len() as int) =~= all);
            lemma_stable_sorted_multiset(all, entry_order());
        }
        self.entries = out;
    }
}

/// Whether `a` should come before `b`.
fn entry_before(a: &TreeEntry, b: &TreeEntry) -> (r: bool)
    ensures
        r == entry_lt(a@, b@),
{
    let ad = a.mode == FileMode::Directory;
    let bd = b.mode == FileMode::Directory;
    if ad && !bd {
        true
    } else if ad == bd {
        str_lt(a.name.as_str(), b.name.as_str())
    } else {
        false
    }
}

/// Inserts `e` into a sorted vector after every entry that does not follow
/// it.
fn insert_entry(v: &mut Vec<TreeEntry>, e: TreeEntry) -> (pos: usize)
    requires
        entries_sorted(entries_view(old(v)@)),
    ensures
        pos <= old(v)@.len(),
        pos == insert_pos(entries_view(old(v)@), e@, entry_order()),
        entries_view(final(v)@) == entries_view(old(v)@).insert(pos as int, e@),
        entries_sorted(entries_view(final(v)@)),
{
    let ghost s = entries_view(v@);
    let mut pos: usize = 0;
    while pos < v.len() && !entry_before(&e, &v[pos])
        invariant
            pos <= v@.len(),
            entries_view(v@) == s,
            forall|j: int| 0 <= j < pos ==> !entry_lt(e@, #[trigger] s[j]),
        decreases v.len() - pos,
    {
        assert(s[pos as int] == v@[pos as int]@);
        pos = pos + 1;
    }
    proof {
        if pos < s.len() {
            assert(s[pos as int] == v@[pos as int]@);
        }
        assert forall|j: int| 0 <= j < pos implies !(entry_order())(e@, #[trigger] s[j]) by {}
        lemma_insert_pos(s, e@, entry_order(), pos as int);
    }
    let ghost e0 = e@;
    let ghost vv = v@;
    v.insert(pos, e);
    proof {
        let t = entries_view(v@);
        assert(t =~= s.insert(pos as int, e0)) by {
            assert(v@ == vv.insert(pos as int, v@[pos as int]));
        }
        assert forall|i: int, j: int| 0 <= i < j < t.len() implies !entry_lt(#[trigger] t[j], #[trigger] t[i]) by {
            if j < pos {
                assert(t[i] == s[i] && t[j] == s[j]);
            } else if j == pos {
                assert(t[i] == s[i]);
                lemma_entry_order(e0, s[i], s[i]);
            } else if i == pos {
                assert(t[j] == s[j - 1]);
                assert(entry_lt(e0, s[pos as int]));
                lemma_entry_order(e0, s[pos as int], s[j - 1]);
                lemma_entry_order(s[j - 1], e0, s[j - 1]);
            } else if i < pos {
                assert(t[i] == s[i] && t[j] == s[j - 1]);
            } else {
                assert(t[i] == s[i - 1] && t[j] == s[j - 1]);
            }
        }
    }
    pos
}

impl Default for Tree {
    fn default() -> (r: Self)
        ensures
            r.entries@.len() == 0,
    {
        Tree::new()
    }
}

// ---------------------------------------------------------------------------
// Timestamps
// ---------------------------------------------------------------------------

/// Whether `chrono::DateTime::from_timestamp(secs, nanos)` gives a time.
pub uninterp spec fn chrono_representable(secs: i64, nanos: u32) -> bool;

/// Whether `chrono::DateTime::from_timestamp(secs, nanos)` gives a time
/// (`is_some` of its result).  Its source checks the day and the second of
/// the day apart from the nanoseconds, so an accepted instant is accepted
/// again with no nanoseconds.
#[verifier::external_body]
fn chrono_accepts(secs: i64, nanos: u32) -> (r: bool)
    ensures
        r == chrono_representable(secs, nanos),
        r ==> chrono_representable(secs, 0),
{
    chrono::DateTime::from_timestamp(secs, nanos).is_some()
}

/// The JSON text that serde gives for the `chrono::DateTime<Utc>` made by
/// `DateTime::from_timestamp(secs, nanos)`.
pub uninterp spec fn datetime_json_text(secs: i64, nanos: u32) -> Seq<char>;

/// An instant in UTC: seconds since the Unix epoch and the nanoseconds of
/// the second; always one that `chrono` can represent, with its
/// nanoseconds and as whole seconds.
#[derive(Debug, Clone, Copy)]
pub struct Timestamp {
    secs: i64,
    nanos: u32,
}

impl Timestamp {
    #[verifier::type_invariant]
    closed spec fn representable(self) -> bool {
        &&& chrono_representable(self.secs, self.nanos)
        &&& chrono_representable(self.secs, 0)
    }

    pub closed spec fn seconds(self) -> i64 {
        self.secs
    }

    pub closed spec fn nanoseconds(self) -> u32 {
        self.nanos
    }

    /// The current time (`chrono::Utc::now`); nothing is promised of it but
    /// that `chrono` can represent it, also as whole seconds.
    #[verifier::external_body]
    pub(crate) fn now() -> (r: Timestamp)
        ensures
            chrono_representable(r.seconds(), r.nanoseconds()),
            chrono_representable(r.seconds(), 0),
    {
        let t = chrono::Utc::now();
        Timestamp { secs: t.timestamp(), nanos: t.timestamp_subsec_nanos() }
    }

    /// The instant `secs` seconds and `nanos` nanoseconds after the epoch,
    /// if `chrono` can represent it.
    pub fn from_parts(secs: i64, nanos: u32) -> (r: Option<Timestamp>)
        ensures
            r is Some <==> chrono_representable(secs, nanos),
            r matches Some(t) ==> t.seconds() == secs && t.nanoseconds() == nanos,
    {
        if chrono_accepts(secs, nanos) {
            Some(Timestamp { secs, nanos })
        } else {
            None
        }
    }

    /// The instant `secs` seconds after the epoch, if `chrono` can
    /// represent it.
    pub(crate) fn from_secs(secs: i64) -> (r: Option<Timestamp>)
        ensures
            r is Some <==> chrono_representable(secs, 0),
            r matches Some(t) ==> t.seconds() == secs && t.nanoseconds() == 0,
    {
        Timestamp::from_parts(secs, 0)
    }

    /// Seconds since the Unix epoch; `chrono` represents them as an instant.
    pub fn timestamp(&self) -> (r: i64)
        ensures
            r == self.seconds(),
            chrono_representable(r, 0),
    {
        proof {
            use_type_invariant(self);
        }
        self.secs
    }

    /// Nanoseconds of the second.
    pub fn subsec_nanos(&self) -> (r: u32)
        ensures
            r == self.nanoseconds(),
    {
        self.nanos
    }
}

/// The JSON text of an instant (serde's `Serialize` for
/// `chrono::DateTime<Utc>`, through `serde_json::to_string`).
#[verifier::external_body]
fn datetime_json(t: &Timestamp) -> (r: String)
    ensures
        r@ == datetime_json_text(t.seconds(), t.nanoseconds()),
{
    let dt = chrono::DateTime::from_timestamp(t.secs, t.nanos).unwrap();
    serde_json::to_string(&dt).unwrap()
}

// ---------------------------------------------------------------------------
// Identities and commits
// ---------------------------------------------------------------------------

/// An author or committer.
#[derive(Debug)]
pub struct Identity {
    pub name: String,
    pub email: String,
    pub timestamp: Timestamp,
}

/// `name <email> seconds`.
pub open spec fn identity_text(i: Identity) -> Seq<char> {
    i.name@ + " <"@ + i.email@ + "> "@ + signed_decimal(i.timestamp.seconds() as int)
}

impl Identity {
    /// An identity stamped with the current time.
    pub fn new(name: String, email: String) -> (r: Identity)
        ensures
            r.name == name,
            r.email == email,
    {
        Identity { name, email, timestamp: Timestamp::now() }
    }

    pub fn with_timestamp(name: String, email: String, timestamp: Timestamp) -> (r: Identity)
        ensures
            r.name == name,
            r.email == email,
            r.timestamp == timestamp,
    {
        Identity { name, email, timestamp }
    }

    /// `name <email> seconds`, as commits record it.
    pub fn to_string(&self) -> (r: String)
        ensures
            r@ == identity_text(*self),
    {
        let mut s = self.name.clone();
        push_str(&mut s, " <");
        push_str(&mut s, self.email.as_str());
        push_str(&mut s, "> ");
        push_signed_decimal(&mut s, self.timestamp.timestamp());
        s
    }
}

impl Clone for Identity {
    fn clone(&self) -> (r: Self)
        ensures
            r == *self,
    {
        Identity { name: self.name.clone(), email: self.email.clone(), timestamp: self.timestamp }
    }
}

/// A commit: a tree, its parents, who wrote it and why.
#[derive(Debug)]
pub struct Commit {
    pub tree_hash: String,
    pub parent_hashes: Vec<String>,
    pub author: Identity,
    pub committer: Identity,
    pub message: String,
}

/// One `parent <hash>` line per parent.
pub open spec fn parents_text(ps: Seq<Seq<char>>) -> Seq<char>
    decreases ps.len(),
{
    if ps.len() == 0 {
        Seq::empty()
    } else {
        parents_text(ps.drop_last()) + "parent "@ + ps.last() + "\n"@
    }
}

/// The canonical text of a commit: `tree`, `parent`, `author` and
/// `committer` lines, an empty line, then the message.
pub open spec fn commit_text(c: Commit) -> Seq<char> {
    "tree "@ + c.tree_hash@ + "\n"@ + parents_text(c.parent_hashes.deep_view()) + "author "@
        + identity_text(c.author) + "\n"@ + "committer "@ + identity_text(c.committer) + "\n"@
        + "\n"@ + c.message@
}

impl Commit {
    pub fn new(
        tree_hash: String,
        parent_hashes: Vec<String>,
        author: Identity,
        committer: Identity,
        message: String,
    ) -> (r: Commit)
        ensures
            r.tree_hash == tree_hash,
            r.parent_hashes@ == parent_hashes@,
            r.author == author,
            r.committer == committer,
            r.message == message,
    {
        Commit { tree_hash, parent_hashes, author, committer, message }
    }

    /// The canonical text of the commit, as UTF-8 bytes.
    pub fn to_bytes(&self) -> (r: Vec<u8>)
        ensures
            r@ == encode_utf8(commit_text(*self)),
    {
        let s = self.text();
        s.as_str().as_bytes_vec()
    }

    /// The canonical text of the commit.
    pub fn text(&self) -> (r: String)
        ensures
            r@ == commit_text(*self),
    {
        let mut s = String::new();
        push_str(&mut s, "tree ");
        push_str(&mut s, self.tree_hash.as_str());
        push_str(&mut s, "\n");
        let ghost head = s@;
        let mut i: usize = 0;
        while i < self.parent_hashes.len()
            invariant
                i <= self.parent_hashes@.len(),
                s@ == head + parents_text(self.parent_hashes.deep_view().take(i as int)),
            decreases self.parent_hashes.len() - i,
        {
            push_str(&mut s, "parent ");
            push_str(&mut s, self.parent_hashes[i].as_str());
            push_str(&mut s, "\n");
            proof {
                let dv = self.parent_hashes.deep_view();
                assert(dv.take(i + 1).drop_last() =~= dv.take(i as int));
                assert(dv.take(i + 1).last() == self.parent_hashes@[i as int]@);
            }
            i = i + 1;
        }
        proof {
            let dv = self.parent_hashes.deep_view();
            assert(dv.take(dv.len() as int) =~= dv);
        }
        push_str(&mut s, "author ");
        let a = self.author.to_string();
        push_str(&mut s, a.as_str());
        push_str(&mut s, "\n");
        push_str(&mut s, "committer ");
        let c = self.committer.to_string();
        push_str(&mut s, c.as_str());
        push_str(&mut s, "\n");
        push_str(&mut s, "\n");
        push_str(&mut s, self.message.as_str());
        s
    }
}

// ---------------------------------------------------------------------------
// JSON text of trees and tags
// ---------------------------------------------------------------------------

/// A lowercase hexadecimal digit (`0 <= d < 16`).
pub open spec fn hex_digit(d: int) -> char {
    if d < 10 {
        ((d + 48) as u8) as char
    } else {
        ((d + 87) as u8) as char
    }
}

/// How serde_json writes one character inside a JSON string.
pub open spec fn json_escape_char(c: char) -> Seq<char> {
    if c == '"' {
        seq!['\\', '"']
    } else if c == '\\' {
        seq!['\\', '\\']
    } else if c == '\u{8}' {
        seq!['\\', 'b']
    } else if c == '\t' {
        seq!['\\', 't']
    } else if c == '\n' {
        seq!['\\', 'n']
    } else if c == '\u{c}' {
        seq!['\\', 'f']
    } else if c == '\r' {
        seq!['\\', 'r']
    } else if (c as u32) < 0x20 {
        seq!['\\', 'u', '0', '0', hex_digit((c as u32 / 16) as int), hex_digit((c as u32 % 16) as int)]
    } else {
        seq![c]
    }
}

/// The characters of `s`, each as serde_json writes it inside a string.
pub open spec fn json_escape(s: Seq<char>) -> Seq<char>
    decreases s.len(),
{
    if s.len() == 0 {
        Seq::empty()
    } else {
        json_escape(s.drop_last()) + json_escape_char(s.last())
    }
}

/// `s` as a JSON string.
pub open spec fn json_quoted(s: Seq<char>) -> Seq<char> {
    seq!['"'] + json_escape(s) + seq!['"']
}

/// A string slice as a JSON string (`serde_json::to_string` on `&str`): in
/// double quotes, `"` and `\` behind a backslash, U+0008, U+0009, U+000A,
/// U+000C and U+000D as `\b`, `\t`, `\n`, `\f`, `\r`, the other characters
/// below U+0020 as `\u00` and two lowercase hex digits, every other
/// character as it is.
#[verifier::external_body]
fn json_string(s: &str) -> (r: String)
    ensures
        r@ == json_quoted(s@),
{
    serde_json::to_string(s).unwrap()
}

/// A file mode as serde writes the enum variant.
pub open spec fn mode_json(m: FileMode) -> Seq<char> {
    match m {
        FileMode::Regular => "\"Regular\""@,
        FileMode::Executable => "\"Executable\""@,
        FileMode::Symlink => "\"Symlink\""@,
        FileMode::Directory => "\"Directory\""@,
    }
}

/// One tree entry as a JSON object.
pub open spec fn entry_json(e: EntryView) -> Seq<char> {
    "{\"mode\":"@ + mode_json(e.mode) + ",\"name\":"@ + json_quoted(e.name) + ",\"hash\":"@
        + json_quoted(e.hash) + "}"@
}

/// The entries as JSON objects separated by commas.
pub open spec fn entries_json(es: Seq<EntryView>) -> Seq<char>
    decreases es.len(),
{
    if es.len() == 0 {
        Seq::empty()
    } else if es.len() == 1 {
        entry_json(es[0])
    } else {
        entries_json(es.drop_last()) + ","@ + entry_json(es.last())
    }
}

/// The stored form of a tree: a JSON object with its entries.
pub open spec fn tree_json(t: Tree) -> Seq<char> {
    tree_json_of(entries_view(t.entries@))
}

/// The stored form of a tree with the given entries.
pub open spec fn tree_json_of(es: Seq<EntryView>) -> Seq<char> {
    "{\"entries\":["@ + entries_json(es) + "]}"@
}

/// An identity as a JSON object.
pub open spec fn identity_json(i: Identity) -> Seq<char> {
    "{\"name\":"@ + json_quoted(i.name@) + ",\"email\":"@ + json_quoted(i.email@) + ",\"timestamp\":"@
        + datetime_json_text(i.timestamp.seconds(), i.timestamp.nanoseconds()) + "}"@
}

/// A tag type as serde writes the enum variant.
pub open spec fn tag_type_json(t: TagType) -> Seq<char> {
    match t {
        TagType::Lightweight => "\"Lightweight\""@,
        TagType::Annotated => "\"Annotated\""@,
    }
}

/// The stored form of a tag: a JSON object with its fields in order.
pub open spec fn tag_json(t: Tag) -> Seq<char> {
    "{\"name\":"@ + json_quoted(t.name@) + ",\"target_hash\":"@ + json_quoted(t.target_hash@)
        + ",\"tag_type\":"@ + tag_type_json(t.tag_type) + ",\"tagger\":"@ + match t.tagger {
        Some(i) => identity_json(i),
        None => "null"@,
    } + ",\"message\":"@ + match t.message {
        Some(m) => json_quoted(m@),
        None => "null"@,
    } + ",\"created_at\":"@ + datetime_json_text(t.created_at.seconds(), t.created_at.nanoseconds())
        + "}"@
}

/// Appends `s` as a JSON string.
fn push_json_string(out: &mut String, s: &str)
    ensures
        final(out)@ == old(out)@ + json_quoted(s@),
{
    let q = json_string(s);
    push_str(out, q.as_str());
}

/// The stored text of a tree.
pub fn tree_to_json(t: &Tree) -> (r: String)
    ensures
        r@ == tree_json(*t),
{
    let mut s = String::new();
    push_str(&mut s, "{\"entries\":[");
    let ghost head = s@;
    let mut i: usize = 0;
    while i < t.entries.len()
        invariant
            i <= t.entries@.len(),
            s@ == head + entries_json(entries_view(t.entries@).take(i as int)),
        decreases t.entries.len() - i,
    {
        let ghost before = s@;
        let ghost es = entries_view(t.entries@);
        if i > 0 {
            push_str(&mut s, ",");
        }
        push_entry_json(&mut s, &t.entries[i]);
        proof {
            assert(es.take(i + 1).drop_last() =~= es.take(i as int));
            assert(es.take(i + 1).last() == es[i as int]);
            assert(es[i as int] == t.entries@[i as int]@);
            if i == 0 {
                assert(es.take(1)[0] == es[0]);
                assert(s@ =~= head + entries_json(es.take(1)));
            } else {
                assert(s@ =~= head + (entries_json(es.take(i as int)) + ","@ + entry_json(es[i as int])));
            }
        }
        i = i + 1;
    }
    push_str(&mut s, "]}");
    proof {
        let es = entries_view(t.entries@);
        assert(es.take(es.len() as int) =~= es);
    }
    s
}

/// Appends a tree entry as a JSON object.
fn push_entry_json(s: &mut String, e: &TreeEntry)
    ensures
        final(s)@ == old(s)@ + entry_json(e@),
{
    push_str(s, "{\"mode\":");
    match e.mode {
        FileMode::Regular => push_str(s, "\"Regular\""),
        FileMode::Executable => push_str(s, "\"Executable\""),
        FileMode::Symlink => push_str(s, "\"Symlink\""),
        FileMode::Directory => push_str(s, "\"Directory\""),
    }
    push_str(s, ",\"name\":");
    push_json_string(s, e.name.as_str());
    push_str(s, ",\"hash\":");
    push_json_string(s, e.hash.as_str());
    push_str(s, "}");
}

/// Appends an identity as a JSON object.
fn push_identity_json(s: &mut String, i: &Identity)
    ensures
        final(s)@ == old(s)@ + identity_json(*i),
{
    push_str(s, "{\"name\":");
    push_json_string(s, i.name.as_str());
    push_str(s, ",\"email\":");
    push_json_string(s, i.email.as_str());
    push_str(s, ",\"timestamp\":");
    let d = datetime_json(&i.timestamp);
    push_str(s, d.as_str());
    push_str(s, "}");
}

/// The stored text of a tag.
pub fn tag_to_json(t: &Tag) -> (r: String)
    ensures
        r@ == tag_json(*t),
{
    let mut s = String::new();
    push_str(&mut s, "{\"name\":");
    push_json_string(&mut s, t.name.as_str());
    push_str(&mut s, ",\"target_hash\":");
    push_json_string(&mut s, t.target_hash.as_str());
    push_str(&mut s, ",\"tag_type\":");
    match t.tag_type {
        TagType::Lightweight => push_str(&mut s, "\"Lightweight\""),
        TagType::Annotated => push_str(&mut s, "\"Annotated\""),
    }
    push_str(&mut s, ",\"tagger\":");
    match &t.tagger {
        Some(i) => push_identity_json(&mut s, i),
        None => push_str(&mut s, "null"),
    }
    push_str(&mut s, ",\"message\":");
    match &t.message {
        Some(m) => push_json_string(&mut s, m.as_str()),
        None => push_str(&mut s, "null"),
    }
    push_str(&mut s, ",\"created_at\":");
    let d = datetime_json(&t.created_at);
    push_str(&mut s, d.as_str());
    push_str(&mut s, "}");
    s
}

// ---------------------------------------------------------------------------
// Objects: bytes, header, name
// ---------------------------------------------------------------------------

/// Any stored object.
#[derive(Debug)]
pub enum FgitObject {
    Blob(Blob),
    Tree(Tree),
    Commit(Commit),
    Tag(Tag),
}

pub open spec fn object_type_of(o: FgitObject) -> ObjectType {
    match o {
        FgitObject::Blob(_) => ObjectType::Blob,
        FgitObject::Tree(_) => ObjectType::Tree,
        FgitObject::Commit(_) => ObjectType::Commit,
        FgitObject::Tag(_) => ObjectType::Tag,
    }
}

/// The content bytes of an object: a blob's content, the JSON text of a
/// tree or tag, the canonical text of a commit.
pub open spec fn object_bytes(o: FgitObject) -> Seq<u8> {
    match o {
        FgitObject::Blob(b) => b.content@,
        FgitObject::Tree(t) => encode_utf8(tree_json(t)),
        FgitObject::Commit(c) => encode_utf8(commit_text(c)),
        FgitObject::Tag(t) => encode_utf8(tag_json(t)),
    }
}

/// The header of an object: `<type> <size>\0`.
pub open spec fn header_text(t: ObjectType, size: nat) -> Seq<char> {
    object_type_name(t) + seq![' '] + decimal(size) + seq!['\0']
}

/// Header and content, as stored.
pub open spec fn framed(t: ObjectType, content: Seq<u8>) -> Seq<u8> {
    encode_utf8(header_text(t, content.len())) + content
}

/// SHA-256 digest of `data` (`sha2::Sha256`).
pub uninterp spec fn sha256_of(data: Seq<u8>) -> Seq<u8>;

/// The SHA-256 digest of `data`: 32 bytes.
#[verifier::external_body]
fn sha256(data: &[u8]) -> (r: Vec<u8>)
    ensures
        r@ == sha256_of(data@),
        r@.len() == 32,
{
    let mut hasher = sha2::Sha256::new();
    hasher.update(data);
    hasher.finalize().to_vec()
}

/// Each byte as two lowercase hexadecimal digits.
pub open spec fn hex_lower(b: Seq<u8>) -> Seq<char>
    decreases b.len(),
{
    if b.len() == 0 {
        Seq::empty()
    } else {
        hex_lower(b.drop_last()) + seq![hex_digit((b.last() / 16) as int), hex_digit((b.last() % 16) as int)]
    }
}

/// `hex::encode`: each byte as two lowercase hexadecimal digits.
#[verifier::external_body]
fn hex_encode(data: &[u8]) -> (r: String)
    ensures
        r@ == hex_lower(data@),
{
    hex::encode(data)
}

/// The name of an object: the hex SHA-256 of its header and content.
pub open spec fn object_name(t: ObjectType, content: Seq<u8>) -> Seq<char> {
    hex_lower(sha256_of(framed(t, content)))
}

proof fn lemma_hex_lower_len(b: Seq<u8>)
    ensures
        hex_lower(b).len() == 2 * b.len(),
    decreases b.len(),
{
    if b.len() > 0 {
        lemma_hex_lower_len(b.drop_last());
    }
}

/// An object name is 64 hexadecimal digits.
pub proof fn law_object_name_length(t: ObjectType, content: Seq<u8>, digest: Seq<u8>)
    requires
        digest == sha256_of(framed(t, content)),
        digest.len() == 32,
    ensures
        object_name(t, content).len() == 64,
{
    lemma_hex_lower_len(digest);
}

/// The header of an object with `size` content bytes.
pub fn object_header(t: ObjectType, size: usize) -> (r: Vec<u8>)
    ensures
        r@ == encode_utf8(header_text(t, size as nat)),
{
    let mut s = t.to_string();
    push_char(&mut s, ' ');
    push_decimal(&mut s, size as u64);
    push_char(&mut s, '\0');
    assert(s@ =~= header_text(t, size as nat));
    s.as_str().as_bytes_vec()
}

/// Header and content, as stored.
pub fn frame_object(t: ObjectType, content: &[u8]) -> (r: Vec<u8>)
    ensures
        r@ == framed(t, content@),
{
    let mut out = object_header(t, content.len());
    let ghost h = out@;
    out.extend_from_slice(content);
    assert(out@ =~= h + content@);
    out
}

/// The name of an object with the given type and content.
pub fn hash_object(t: ObjectType, content: &[u8]) -> (r: String)
    ensures
        r@ == object_name(t, content@),
        r@.len() == 64,
{
    let data = frame_object(t, content);
    let digest = sha256(data.as_slice());
    proof {
        law_object_name_length(t, content@, digest@);
    }
    hex_encode(digest.as_slice())
}

impl FgitObject {
    pub fn object_type(&self) -> (r: ObjectType)
        ensures
            r == object_type_of(*self),
    {
        match self {
            FgitObject::Blob(_) => ObjectType::Blob,
            FgitObject::Tree(_) => ObjectType::Tree,
            FgitObject::Commit(_) => ObjectType::Commit,
            FgitObject::Tag(_) => ObjectType::Tag,
        }
    }

    /// The content bytes of the object.
    pub fn to_bytes(&self) -> (r: Vec<u8>)
        ensures
            r@ == object_bytes(*self),
    {
        match self {
            FgitObject::Blob(b) => b.content.clone(),
            FgitObject::Tree(t) => tree_to_json(t).as_str().as_bytes_vec(),
            FgitObject::Commit(c) => c.to_bytes(),
            FgitObject::Tag(t) => tag_to_json(t).as_str().as_bytes_vec(),
        }
    }

    /// The name of the object: 64 lowercase hex digits of the SHA-256 of
    /// its header and content.
    pub fn hash(&self) -> (r: String)
        ensures
            r@ == object_name(object_type_of(*self), object_bytes(*self)),
            r@.len() == 64,
    {
        let content = self.to_bytes();
        hash_object(self.object_type(), content.as_slice())
    }

    /// The stored form: header, then content.
    pub fn serialize(&self) -> (r: Vec<u8>)
        ensures
            r@ == framed(object_type_of(*self), object_bytes(*self)),
    {
        let content = self.to_bytes();
        frame_object(self.object_type(), content.as_slice())
    }
}

// ---------------------------------------------------------------------------
// Reading stored objects
// ---------------------------------------------------------------------------

/// The text that `std::str::from_utf8` gives (through `Display`) for the
/// error on bytes that are not UTF-8.
pub uninterp spec fn utf8_error_text(bytes: Seq<u8>) -> Seq<char>;

/// `std::str::from_utf8`: the text of valid UTF-8 bytes, or the error's
/// description.
#[verifier::external_body]
fn utf8_decode(bytes: &[u8]) -> (r: Result<String, String>)
    ensures
        r is Ok <==> valid_utf8(bytes@),
        r matches Ok(s) ==> s@ == decode_utf8(bytes@),
        r matches Err(e) ==> e@ == utf8_error_text(bytes@),
{
    match std::str::from_utf8(bytes) {
        Ok(s) => Ok(s.to_string()),
        Err(e) => Err(e.to_string()),
    }
}

/// Index of the first zero byte, or -1.
pub open spec fn first_zero(d: Seq<u8>) -> int
    decreases d.len(),
{
    if d.len() == 0 {
        -1
    } else if d[0] == 0 {
        0
    } else {
        let r = first_zero(d.drop_first());
        if r < 0 {
            -1
        } else {
            r + 1
        }
    }
}

proof fn lemma_first_zero(d: Seq<u8>)
    ensures
        -1 <= first_zero(d) < d.len(),
        first_zero(d) >= 0 ==> d[first_zero(d)] == 0,
        forall|j: int| 0 <= j < d.len() && (first_zero(d) < 0 || j < first_zero(d)) ==> d[j] != 0,
    decreases d.len(),
{
    if d.len() > 0 && d[0] != 0 {
        lemma_first_zero(d.drop_first());
        assert forall|j: int| 0 <= j < d.len() && (first_zero(d) < 0 || j < first_zero(d)) implies d[j] != 0 by {
            if j > 0 {
                assert(d[j] == d.drop_first()[j - 1]);
            }
        }
    }
}

proof fn lemma_first_zero_at(d: Seq<u8>, k: int)
    requires
        0 <= k < d.len(),
        d[k] == 0,
        forall|j: int| 0 <= j < k ==> d[j] != 0,
    ensures
        first_zero(d) == k,
{
    lemma_first_zero(d);
}

/// How a stored object splits into its type and content: the header runs
/// to the first zero byte, must be UTF-8, must hold a space, and must start
/// with a known type name before that space.
pub open spec fn object_split(data: Seq<u8>) -> Result<(ObjectType, Seq<u8>), Seq<char>> {
    let z = first_zero(data);
    if z < 0 {
        Err("Invalid object: no null separator found"@)
    } else if !valid_utf8(data.take(z)) {
        Err("Invalid header encoding: "@ + utf8_error_text(data.take(z)))
    } else {
        let hs = decode_utf8(data.take(z));
        let sp = find_first(hs, ' ');
        if sp < 0 {
            Err("Invalid object header format"@)
        } else {
            match object_type_named(hs.take(sp)) {
                Some(t) => Ok((t, data.skip(z + 1))),
                None => Err("Unknown object type: "@ + hs.take(sp)),
            }
        }
    }
}

pub open spec fn split_view(r: Result<(ObjectType, Vec<u8>), String>) -> Result<(ObjectType, Seq<u8>), Seq<char>> {
    match r {
        Ok((t, c)) => Ok((t, c@)),
        Err(e) => Err(e@),
    }
}

/// Splits a stored object into its type and content.
pub fn split_object(data: &[u8]) -> (r: Result<(ObjectType, Vec<u8>), String>)
    ensures
        split_view(r) == object_split(data@),
{
    let mut z: usize = 0;
    while z < data.len() && data[z] != 0
        invariant
            z <= data@.len(),
            forall|j: int| 0 <= j < z ==> data@[j] != 0,
        decreases data.len() - z,
    {
        z = z + 1;
    }
    proof {
        lemma_first_zero(data@);
        if z < data@.len() {
            lemma_first_zero_at(data@, z as int);
        }
    }
    if z == data.len() {
        return Err(String::from_str("Invalid object: no null separator found"));
    }
    let mut head: Vec<u8> = Vec::new();
    let mut i: usize = 0;
    while i < z
        invariant
            i <= z < data@.len(),
            head@ == data@.take(i as int),
        decreases z - i,
    {
        head.push(data[i]);
        assert(data@.take(i + 1) =~= data@.take(i as int).push(data@[i as int]));
        i = i + 1;
    }
    let text = match utf8_decode(head.as_slice()) {
        Ok(t) => t,
        Err(e) => {
            return Err(concat2("Invalid header encoding: ", e.as_str()));
        },
    };
    let chars = to_chars(text.as_str());
    let sp = match find_char(chars.as_slice(), ' ') {
        Some(p) => p,
        None => {
            return Err(String::from_str("Invalid object header format"));
        },
    };
    proof {
        lemma_find_first(text@, ' ');
    }
    let name = string_of(chars.as_slice(), 0, sp);
    assert(chars@.subrange(0, sp as int) =~= text@.take(sp as int));
    let t = match ObjectType::from_str(name.as_str()) {
        Some(t) => t,
        None => {
            return Err(concat2("Unknown object type: ", name.as_str()));
        },
    };
    let mut content: Vec<u8> = Vec::new();
    let mut j: usize = z + 1;
    while j < data.len()
        invariant
            z + 1 <= j <= data@.len(),
            content@ == data@.subrange(z + 1, j as int),
        decreases data.len() - j,
    {
        content.push(data[j]);
        assert(data@.subrange(z + 1, j + 1) =~= data@.subrange(z + 1, j as int).push(data@[j as int]));
        j = j + 1;
    }
    assert(content@ =~= data@.skip(z + 1));
    Ok((t, content))
}

proof fn lemma_encode_utf8_append(a: Seq<char>, b: Seq<char>)
    ensures
        encode_utf8(a + b) == encode_utf8(a) + encode_utf8(b),
    decreases a.len(),
{
    if a.len() == 0 {
        assert(a + b =~= b);
        assert(encode_utf8(a) =~= Seq::<u8>::empty());
        assert(encode_utf8(a) + encode_utf8(b) =~= encode_utf8(b));
    } else {
        assert((a + b).drop_first() =~= a.drop_first() + b);
        assert((a + b)[0] == a[0]);
        lemma_encode_utf8_append(a.drop_first(), b);
        assert(encode_utf8(a + b) =~= encode_utf8(a) + encode_utf8(b));
    }
}

proof fn lemma_decimal_digits(n: nat)
    ensures
        decimal(n).len() >= 1,
        forall|i: int| 0 <= i < decimal(n).len() ==> '0' <= #[trigger] decimal(n)[i] <= '9',
    decreases n,
{
    if n >= 10 {
        lemma_decimal_digits(n / 10);
        let d = (n % 10) as int;
        assert(digit_char_bounds(d)) by {
            assert(0 <= d < 10);
        }
    } else {
        assert(digit_char_bounds(n as int));
    }
}

spec fn digit_char_bounds(d: int) -> bool {
    0 <= d < 10 ==> '0' <= crate::text::digit_char(d) <= '9'
}

/// Splitting the stored form of an object gives back its type and content.
pub proof fn law_split_framed(t: ObjectType, content: Seq<u8>)
    ensures
        object_split(framed(t, content)) == Ok::<(ObjectType, Seq<u8>), Seq<char>>((t, content)),
{
    let name = object_type_name(t);
    let dec = decimal(content.len());
    let h1 = name + seq![' '] + dec;
    let h = header_text(t, content.len());
    assert(h =~= h1 + seq!['\0']);
    lemma_decimal_digits(content.len());
    assert(vstd::utf8::is_ascii_chars(h)) by {
        assert forall|i: int| 0 <= i < h.len() implies '\0' <= #[trigger] h[i] <= '\u{7f}' by {
            if i >= name.len() + 1 && i < name.len() + 1 + dec.len() {
                assert(h[i] == dec[i - name.len() - 1]);
            }
        }
    }
    vstd::utf8::is_ascii_chars_encode_utf8(h);
    let e = encode_utf8(h);
    let data = e + content;
    let z = h.len() - 1;
    assert(data[z] == 0) by {
        assert(h[z] == '\0');
        assert(e[z] == h[z] as u8);
    }
    assert forall|j: int| 0 <= j < z implies data[j] != 0 by {
        assert(e[j] == h[j] as u8);
        if j >= name.len() + 1 {
            assert(h[j] == dec[j - name.len() - 1]);
        }
    }
    lemma_first_zero_at(data, z);
    lemma_encode_utf8_append(h1, seq!['\0']);
    assert(e == encode_utf8(h1) + encode_utf8(seq!['\0']));
    assert(seq!['\0'].drop_first() =~= Seq::<char>::empty());
    assert(vstd::utf8::is_ascii_chars(seq!['\0']));
    vstd::utf8::is_ascii_chars_encode_utf8(seq!['\0']);
    assert(encode_utf8(seq!['\0']).len() == 1);
    assert(encode_utf8(h1).len() == z);
    assert(data.take(z) =~= encode_utf8(h1));
    vstd::utf8::encode_utf8_valid_utf8(h1);
    vstd::utf8::encode_utf8_decode_utf8(h1);
    assert forall|j: int| 0 <= j < name.len() implies h1[j] != ' ' by {}
    lemma_find_first_at(h1, ' ', name.len() as int);
    assert(h1.take(name.len() as int) =~= name);
    assert(data.skip(z + 1) =~= content);
}

// ---------------------------------------------------------------------------
// Reading commits
// ---------------------------------------------------------------------------

/// Where the `<` and `>` of an identity line lie: a `>` before the `<`
/// cannot be read (the email would run backwards).
pub open spec fn identity_ok(s: Seq<char>) -> bool {
    find_first(s, '<') < 0 || find_first(s, '>') < 0 || find_first(s, '<') < find_first(s, '>')
}

/// The timestamp text of an identity line: what follows the `>`, trimmed.
pub open spec fn identity_time_text(s: Seq<char>) -> Seq<char> {
    trim(s.skip(find_first(s, '>') + 1))
}

/// An identity line reads: it has `<` and `>`, and its timestamp text is
/// empty or a number.
pub open spec fn identity_parses(s: Seq<char>) -> bool {
    &&& find_first(s, '<') >= 0
    &&& find_first(s, '>') >= 0
    &&& (identity_time_text(s).len() == 0 || i64_text_value(identity_time_text(s)) is Some)
}

/// Reads `name <email> seconds`.  The name is trimmed; an empty or
/// unrepresentable time gives the current time.
pub fn parse_identity(s: &str) -> (r: Result<Identity, String>)
    requires
        identity_ok(s@),
    ensures
        find_first(s@, '<') < 0 ==> (r matches Err(e) && e@ == "Invalid identity: missing <"@),
        find_first(s@, '<') >= 0 && find_first(s@, '>') < 0 ==> (r matches Err(e) && e@ == "Invalid identity: missing >"@),
        find_first(s@, '<') >= 0 && find_first(s@, '>') >= 0 && identity_time_text(s@).len() > 0
            && i64_text_value(identity_time_text(s@)) is None
            ==> (r matches Err(e) && e@ == "Invalid timestamp: "@ + identity_time_text(s@)),
        r is Ok <==> identity_parses(s@),
        r matches Ok(id) ==> {
            &&& id.name@ == trim(s@.take(find_first(s@, '<')))
            &&& id.email@ == s@.subrange(find_first(s@, '<') + 1, find_first(s@, '>'))
            &&& (i64_text_value(identity_time_text(s@)) matches Some(v) ==> (chrono_representable(v, 0)
                ==> id.timestamp.seconds() == v && id.timestamp.nanoseconds() == 0))
        },
{
    let chars = to_chars(s);
    proof {
        lemma_find_first(s@, '<');
        lemma_find_first(s@, '>');
    }
    let lt = match find_char(chars.as_slice(), '<') {
        Some(p) => p,
        None => {
            return Err(String::from_str("Invalid identity: missing <"));
        },
    };
    let gt = match find_char(chars.as_slice(), '>') {
        Some(p) => p,
        None => {
            return Err(String::from_str("Invalid identity: missing >"));
        },
    };
    let n = chars.len();
    assert(lt < n && gt < n);
    let raw_name = string_of(chars.as_slice(), 0, lt);
    let name = trim_string(raw_name.as_str());
    let email = string_of(chars.as_slice(), lt + 1, gt);
    let raw_time = string_of(chars.as_slice(), gt + 1, n);
    let time_text = trim_string(raw_time.as_str());
    proof {
        assert(chars@.subrange(0, lt as int) =~= s@.take(lt as int));
        assert(chars@.subrange(gt + 1, chars@.len() as int) =~= s@.skip(gt + 1));
    }
    let timestamp = if time_text.unicode_len() == 0 {
        Timestamp::now()
    } else {
        match parse_i64(time_text.as_str()) {
            Some(n) => match Timestamp::from_secs(n) {
                Some(t) => t,
                None => Timestamp::now(),
            },
            None => {
                return Err(concat2("Invalid timestamp: ", time_text.as_str()));
            },
        }
    };
    Ok(Identity { name, email, timestamp })
}

/// The fields of a commit text as the line scan collects them.
pub struct CommitScan {
    pub tree: Seq<char>,
    pub parents: Seq<Seq<char>>,
    pub author: Seq<char>,
    pub committer: Seq<char>,
    pub message: Seq<Seq<char>>,
    pub in_message: bool,
}

pub open spec fn tree_prefix() -> Seq<char> {
    seq!['t', 'r', 'e', 'e', ' ']
}

pub open spec fn parent_prefix() -> Seq<char> {
    seq!['p', 'a', 'r', 'e', 'n', 't', ' ']
}

pub open spec fn author_prefix() -> Seq<char> {
    seq!['a', 'u', 't', 'h', 'o', 'r', ' ']
}

pub open spec fn committer_prefix() -> Seq<char> {
    seq!['c', 'o', 'm', 'm', 'i', 't', 't', 'e', 'r', ' ']
}

/// One line of the scan: after the first empty line every line belongs to
/// the message; before it, `tree `, `parent `, `author ` and `committer `
/// lines set their field (a later one wins, parents add up) and other
/// lines are skipped.
pub open spec fn commit_scan_step(st: CommitScan, line: Seq<char>) -> CommitScan {
    if st.in_message {
        CommitScan { message: st.message.push(line), ..st }
    } else if line.len() == 0 {
        CommitScan { in_message: true, ..st }
    } else if tree_prefix().is_prefix_of(line) {
        CommitScan { tree: line.skip(5), ..st }
    } else if parent_prefix().is_prefix_of(line) {
        CommitScan { parents: st.parents.push(line.skip(7)), ..st }
    } else if author_prefix().is_prefix_of(line) {
        CommitScan { author: line.skip(7), ..st }
    } else if committer_prefix().is_prefix_of(line) {
        CommitScan { committer: line.skip(10), ..st }
    } else {
        st
    }
}

pub open spec fn commit_scan(ls: Seq<Seq<char>>) -> CommitScan
    decreases ls.len(),
{
    if ls.len() == 0 {
        CommitScan {
            tree: Seq::empty(),
            parents: Seq::empty(),
            author: Seq::empty(),
            committer: Seq::empty(),
            message: Seq::empty(),
            in_message: false,
        }
    } else {
        commit_scan_step(commit_scan(ls.drop_last()), ls.last())
    }
}

/// A commit text can be read without running into a `>` before a `<`: the
/// author line is well placed, and so is the committer line wherever the
/// author line reads.
pub open spec fn commit_text_ok(text: Seq<char>) -> bool {
    let st = commit_scan(lines(text));
    identity_ok(st.author) && (identity_parses(st.author) ==> identity_ok(st.committer))
}

/// What reading a commit text gives: the fields the line scan collects,
/// names trimmed, emails between `<` and `>`, the timestamps' seconds where
/// `chrono` represents them, and the message lines joined with `\n`.
pub open spec fn commit_read_as(text: Seq<char>, c: Commit) -> bool {
    let st = commit_scan(lines(text));
    &&& c.tree_hash@ == st.tree
    &&& c.parent_hashes.deep_view() == st.parents
    &&& c.author.name@ == trim(st.author.take(find_first(st.author, '<')))
    &&& c.author.email@ == st.author.subrange(find_first(st.author, '<') + 1, find_first(st.author, '>'))
    &&& c.committer.name@ == trim(st.committer.take(find_first(st.committer, '<')))
    &&& c.committer.email@ == st.committer.subrange(find_first(st.committer, '<') + 1, find_first(st.committer, '>'))
    &&& (i64_text_value(identity_time_text(st.author)) matches Some(v) ==> (chrono_representable(v, 0)
        ==> c.author.timestamp.seconds() == v))
    &&& (i64_text_value(identity_time_text(st.committer)) matches Some(v) ==> (chrono_representable(v, 0)
        ==> c.committer.timestamp.seconds() == v))
    &&& c.message@ == join(st.message, seq!['\n'])
}

/// Reads a commit from its canonical text.
pub fn parse_commit(text: &str) -> (r: Result<Commit, String>)
    requires
        commit_text_ok(text@),
    ensures
        ({
            let st = commit_scan(lines(text@));
            &&& r is Ok <==> identity_parses(st.author) && identity_parses(st.committer)
            &&& r matches Ok(c) ==> commit_read_as(text@, c)
            &&& !identity_parses(st.author) ==> (r matches Err(e) && parse_identity_error(st.author, e@))
            &&& identity_parses(st.author) && !identity_parses(st.committer) ==> (r matches Err(e) && parse_identity_error(st.committer, e@))
        }),
{
    let ls = split_lines(text);
    let mut tree_hash = String::new();
    let mut parent_hashes: Vec<String> = Vec::new();
    let mut author_str = String::new();
    let mut committer_str = String::new();
    let mut message_lines: Vec<String> = Vec::new();
    let mut in_message = false;
    proof {
        reveal_strlit("tree ");
        reveal_strlit("parent ");
        reveal_strlit("author ");
        reveal_strlit("committer ");
        assert("tree "@ =~= tree_prefix());
        assert("parent "@ =~= parent_prefix());
        assert("author "@ =~= author_prefix());
        assert("committer "@ =~= committer_prefix());
        assert(parent_hashes.deep_view() =~= Seq::<Seq<char>>::empty());
        assert(message_lines.deep_view() =~= Seq::<Seq<char>>::empty());
    }
    let mut i: usize = 0;
    while i < ls.len()
        invariant
            i <= ls@.len(),
            ls.deep_view() == lines(text@),
            "tree "@ == tree_prefix(),
            "parent "@ == parent_prefix(),
            "author "@ == author_prefix(),
            "committer "@ == committer_prefix(),
            ({
                let st = commit_scan(ls.deep_view().take(i as int));
                &&& tree_hash@ == st.tree
                &&& parent_hashes.deep_view() == st.parents
                &&& author_str@ == st.author
                &&& committer_str@ == st.committer
                &&& message_lines.deep_view() == st.message
                &&& in_message == st.in_message
            }),
        decreases ls.len() - i,
    {
        let ghost dv = ls.deep_view();
        proof {
            assert(dv.take(i + 1).drop_last() =~= dv.take(i as int));
            assert(dv.take(i + 1).last() == ls@[i as int]@);
        }
        let line = &ls[i];
        if in_message {
            let ghost before = message_lines.deep_view();
            message_lines.push(line.clone());
            proof {
                assert(message_lines.deep_view() =~= before.push(line@));
            }
        } else if line.unicode_len() == 0 {
            in_message = true;
        } else {
            match strip_prefix(line.as_str(), "tree ") {
                Some(rest) => {
                    tree_hash = rest;
                },
                None => match strip_prefix(line.as_str(), "parent ") {
                    Some(rest) => {
                        let ghost before = parent_hashes.deep_view();
                        parent_hashes.push(rest);
                        proof {
                            assert(parent_hashes.deep_view() =~= before.push(line@.skip(7)));
                        }
                    },
                    None => match strip_prefix(line.as_str(), "author ") {
                        Some(rest) => {
                            author_str = rest;
                        },
                        None => match strip_prefix(line.as_str(), "committer ") {
                            Some(rest) => {
                                committer_str = rest;
                            },
                            None => {},
                        },
                    },
                },
            }
        }
        i = i + 1;
    }
    proof {
        assert(ls.deep_view().take(ls@.len() as int) =~= ls.deep_view());
    }
    let author = match parse_identity(author_str.as_str()) {
        Ok(a) => a,
        Err(e) => {
            return Err(e);
        },
    };
    let committer = match parse_identity(committer_str.as_str()) {
        Ok(c) => c,
        Err(e) => {
            return Err(e);
        },
    };
    let message = join_strings(&message_lines, "\n");
    proof {
        reveal_strlit("\n");
        assert("\n"@ =~= seq!['\n']);
    }
    Ok(Commit { tree_hash, parent_hashes, author, committer, message })
}

/// The error `parse_identity` gives for an identity line that does not read.
pub open spec fn parse_identity_error(s: Seq<char>, e: Seq<char>) -> bool {
    if find_first(s, '<') < 0 {
        e == "Invalid identity: missing <"@
    } else if find_first(s, '>') < 0 {
        e == "Invalid identity: missing >"@
    } else {
        e == "Invalid timestamp: "@ + identity_time_text(s)
    }
}

/// Reads a commit object's content: UTF-8 text in canonical form.
pub fn decode_commit(content: &[u8]) -> (r: Result<Commit, String>)
    requires
        valid_utf8(content@) ==> commit_text_ok(decode_utf8(content@)),
    ensures
        !valid_utf8(content@) ==> (r matches Err(e) && e@ == "Invalid commit encoding: "@ + utf8_error_text(content@)),
        valid_utf8(content@) ==> ({
            let st = commit_scan(lines(decode_utf8(content@)));
            &&& r is Ok <==> identity_parses(st.author) && identity_parses(st.committer)
            &&& r matches Ok(c) ==> commit_read_as(decode_utf8(content@), c)
            &&& !identity_parses(st.author) ==> (r matches Err(e) && parse_identity_error(st.author, e@))
            &&& identity_parses(st.author) && !identity_parses(st.committer) ==> (r matches Err(e)
                && parse_identity_error(st.committer, e@))
        }),
{
    match utf8_decode(content) {
        Ok(text) => parse_commit(text.as_str()),
        Err(e) => Err(concat2("Invalid commit encoding: ", e.as_str())),
    }
}

/// Whether a commit text can be read without a `>` before a `<`
/// (`commit_text_ok`).
pub fn commit_text_readable(text: &str) -> (r: bool)
    ensures
        r == commit_text_ok(text@),
{
    let ls = split_lines(text);
    let mut author_str = String::new();
    let mut committer_str = String::new();
    let mut in_message = false;
    proof {
        reveal_strlit("tree ");
        reveal_strlit("parent ");
        reveal_strlit("author ");
        reveal_strlit("committer ");
        assert("tree "@ =~= tree_prefix());
        assert("parent "@ =~= parent_prefix());
        assert("author "@ =~= author_prefix());
        assert("committer "@ =~= committer_prefix());
    }
    let mut i: usize = 0;
    while i < ls.len()
        invariant
            i <= ls@.len(),
            ls.deep_view() == lines(text@),
            "tree "@ == tree_prefix(),
            "parent "@ == parent_prefix(),
            "author "@ == author_prefix(),
            "committer "@ == committer_prefix(),
            ({
                let st = commit_scan(ls.deep_view().take(i as int));
                &&& author_str@ == st.author
                &&& committer_str@ == st.committer
                &&& in_message == st.in_message
            }),
        decreases ls.len() - i,
    {
        let ghost dv = ls.deep_view();
        proof {
            assert(dv.take(i + 1).drop_last() =~= dv.take(i as int));
            assert(dv.take(i + 1).last() == ls@[i as int]@);
        }
        let line = &ls[i];
        if in_message {
        } else if line.unicode_len() == 0 {
            in_message = true;
        } else if crate::text::starts_with(line.as_str(), "tree ") {
        } else if crate::text::starts_with(line.as_str(), "parent ") {
        } else {
            match strip_prefix(line.as_str(), "author ") {
                Some(rest) => {
                    author_str = rest;
                },
                None => match strip_prefix(line.as_str(), "committer ") {
                    Some(rest) => {
                        committer_str = rest;
                    },
                    None => {},
                },
            }
        }
        i = i + 1;
    }
    proof {
        assert(ls.deep_view().take(ls@.len() as int) =~= ls.deep_view());
    }
    let a_ok = identity_well_placed(author_str.as_str());
    if !a_ok {
        return false;
    }
    if !identity_reads(author_str.as_str()) {
        return true;
    }
    identity_well_placed(committer_str.as_str())
}

/// `identity_ok`.
fn identity_well_placed(s: &str) -> (r: bool)
    ensures
        r == identity_ok(s@),
{
    let chars = to_chars(s);
    match find_char(chars.as_slice(), '<') {
        None => true,
        Some(lt) => match find_char(chars.as_slice(), '>') {
            None => true,
            Some(gt) => lt < gt,
        },
    }
}

/// `identity_parses`.
fn identity_reads(s: &str) -> (r: bool)
    ensures
        r == identity_parses(s@),
{
    let chars = to_chars(s);
    proof {
        lemma_find_first(s@, '<');
        lemma_find_first(s@, '>');
    }
    match find_char(chars.as_slice(), '<') {
        None => false,
        Some(_) => match find_char(chars.as_slice(), '>') {
            None => false,
            Some(gt) => {
                let raw_time = string_of(chars.as_slice(), gt + 1, chars.len());
                assert(chars@.subrange(gt + 1, chars@.len() as int) =~= s@.skip(gt + 1));
                let time_text = trim_string(raw_time.as_str());
                time_text.unicode_len() == 0 || parse_i64(time_text.as_str()).is_some()
            },
        },
    }
}


// ---------------------------------------------------------------------------
// Reading back what was written
// ---------------------------------------------------------------------------

/// An identity that its text line gives back: name and email on one line,
/// no angle bracket in the name, no `>` in the email, no white space at
/// either end of the name.
pub open spec fn identity_storable(i: Identity) -> bool {
    &&& one_line(i.name@)
    &&& one_line(i.email@)
    &&& forall|j: int| 0 <= j < i.name@.len() ==> #[trigger] i.name@[j] != '<' && i.name@[j] != '>'
    &&& forall|j: int| 0 <= j < i.email@.len() ==> #[trigger] i.email@[j] != '>'
    &&& (i.name@.len() == 0 || (!is_ws(i.name@[0]) && !is_ws(i.name@.last())))
}

/// A commit that its text gives back: hashes and identities on one line
/// each, and a message without `\r` that does not end in `\n` (reading
/// splits the message into lines and joins them again).
pub open spec fn commit_storable(c: Commit) -> bool {
    &&& one_line(c.tree_hash@)
    &&& forall|k: int| 0 <= k < c.parent_hashes@.len() ==> one_line(#[trigger] c.parent_hashes@[k]@)
    &&& identity_storable(c.author)
    &&& identity_storable(c.committer)
    &&& forall|j: int| 0 <= j < c.message@.len() ==> #[trigger] c.message@[j] != '\r'
    &&& (c.message@.len() == 0 || c.message@.last() != '\n')
}

/// The `parent` lines of a commit text.
pub open spec fn parent_lines(ps: Seq<Seq<char>>) -> Seq<Seq<char>> {
    ps.map_values(|p: Seq<char>| parent_prefix() + p)
}

proof fn lemma_digit_char(d: int)
    requires
        0 <= d < 10,
    ensures
        digit_char(d) as int == d + 48,
        !is_ws(digit_char(d)),
        is_digit(digit_char(d)),
{
}

proof fn lemma_decimal_value(m: nat)
    ensures
        decimal(m).len() >= 1,
        all_digits(decimal(m)),
        digits_value(decimal(m)) == m,
        !is_ws(decimal(m)[0]),
        !is_ws(decimal(m).last()),
        forall|i: int| 0 <= i < decimal(m).len() ==> #[trigger] decimal(m)[i] != '\n' && decimal(m)[i] != '\r'
            && decimal(m)[i] != '<' && decimal(m)[i] != '>',
    decreases m,
{
    if m < 10 {
        lemma_digit_char(m as int);
        let d = decimal(m);
        assert(d.drop_last() =~= Seq::<char>::empty());
        assert(digits_value(d) == digits_value(d.drop_last()) * 10 + (d.last() as int - 48));
    } else {
        lemma_decimal_value(m / 10);
        lemma_digit_char((m % 10) as int);
        let d = decimal(m);
        assert(d.drop_last() =~= decimal(m / 10));
        assert(d.last() == digit_char((m % 10) as int));
        assert(digits_value(d) == digits_value(d.drop_last()) * 10 + (d.last() as int - 48));
        assert(digits_value(d) == (m / 10) * 10 + m % 10);
        assert(d[0] == decimal(m / 10)[0]);
        assert forall|i: int| 0 <= i < d.len() implies is_digit(#[trigger] d[i]) by {
            if i < d.len() - 1 {
                assert(d[i] == decimal(m / 10)[i]);
            }
        }
        assert forall|i: int| 0 <= i < d.len() implies #[trigger] d[i] != '\n' && d[i] != '\r' && d[i] != '<'
            && d[i] != '>' by {
            if i < d.len() - 1 {
                assert(d[i] == decimal(m / 10)[i]);
            }
        }
    }
}

/// The decimal text of a number reads back as the number.
proof fn lemma_signed_decimal_reads(n: i64)
    ensures
        i64_text_value(signed_decimal(n as int)) == Some(n),
        signed_decimal(n as int).len() >= 1,
        !is_ws(signed_decimal(n as int)[0]),
        !is_ws(signed_decimal(n as int).last()),
        forall|i: int| 0 <= i < signed_decimal(n as int).len() ==> #[trigger] signed_decimal(n as int)[i] != '\n'
            && signed_decimal(n as int)[i] != '\r' && signed_decimal(n as int)[i] != '<'
            && signed_decimal(n as int)[i] != '>',
{
    let sd = signed_decimal(n as int);
    if n < 0 {
        let m = (-n) as nat;
        lemma_decimal_value(m);
        assert(sd.drop_first() =~= decimal(m));
        assert(sd.last() == decimal(m).last());
        assert forall|i: int| 0 <= i < sd.len() implies #[trigger] sd[i] != '\n' && sd[i] != '\r' && sd[i] != '<'
            && sd[i] != '>' by {
            if i > 0 {
                assert(sd[i] == decimal(m)[i - 1]);
            }
        }
    } else {
        lemma_decimal_value(n as nat);
        assert(is_digit(sd[0]));
    }
}

/// `trim` gives back a name followed by one space, where the name has no
/// white space at either end.
proof fn lemma_trim_name_space(name: Seq<char>)
    requires
        name.len() == 0 || (!is_ws(name[0]) && !is_ws(name.last())),
    ensures
        trim(name + seq![' ']) == name,
{
    let s = name + seq![' '];
    if name.len() == 0 {
        assert(s.drop_first() =~= Seq::<char>::empty());
        assert(trim_start(s) == trim_start(s.drop_first()));
        assert(trim_start(s) =~= name);
    } else {
        assert(s[0] == name[0]);
        assert(trim_start(s) == s);
        assert(s.drop_last() =~= name);
        assert(trim_end(s) == trim_end(name));
        assert(trim_end(name) == name);
    }
}

/// The line of an identity reads back as the identity.
proof fn lemma_identity_reads(i: Identity)
    requires
        identity_storable(i),
    ensures
        identity_ok(identity_text(i)),
        identity_parses(identity_text(i)),
        one_line(identity_text(i)),
        trim(identity_text(i).take(find_first(identity_text(i), '<'))) == i.name@,
        identity_text(i).subrange(find_first(identity_text(i), '<') + 1, find_first(identity_text(i), '>'))
            == i.email@,
        i64_text_value(identity_time_text(identity_text(i))) == Some(i.timestamp.seconds()),
{
    reveal_strlit(" <");
    reveal_strlit("> ");
    let name = i.name@;
    let email = i.email@;
    let sd = signed_decimal(i.timestamp.seconds() as int);
    let t = identity_text(i);
    lemma_signed_decimal_reads(i.timestamp.seconds());
    assert(t =~= name + seq![' ', '<'] + email + seq!['>', ' '] + sd);
    let lt = name.len() as int + 1;
    let gt = name.len() as int + 2 + email.len() as int;
    assert(t[lt] == '<');
    assert forall|j: int| 0 <= j < lt implies t[j] != '<' by {
        if j < name.len() {
            assert(t[j] == name[j]);
        }
    }
    lemma_find_first_at(t, '<', lt);
    assert(t[gt] == '>');
    assert forall|j: int| 0 <= j < gt implies t[j] != '>' by {
        if j < name.len() {
            assert(t[j] == name[j]);
        } else if j > lt {
            assert(t[j] == email[j - lt - 1]);
        }
    }
    lemma_find_first_at(t, '>', gt);
    assert(t.take(lt) =~= name + seq![' ']);
    lemma_trim_name_space(name);
    assert(t.subrange(lt + 1, gt) =~= email);
    let after = t.skip(gt + 1);
    assert(after =~= seq![' '] + sd);
    assert(after.drop_first() =~= sd);
    assert(trim_start(after) == trim_start(sd));
    assert(trim_start(sd) == sd);
    assert(trim_end(sd) == sd);
    assert(identity_time_text(t) == sd);
    assert forall|j: int| 0 <= j < t.len() implies #[trigger] t[j] != '\n' && t[j] != '\r' by {
        if j < name.len() {
            assert(t[j] == name[j]);
        } else if j > lt && j < gt {
            assert(t[j] == email[j - lt - 1]);
        } else if j > gt + 1 {
            assert(t[j] == sd[j - gt - 2]);
        }
    }
}

/// The `parent` lines come out of the text as one line each.
proof fn lemma_parents_lines(ps: Seq<Seq<char>>, rest: Seq<char>)
    requires
        forall|k: int| 0 <= k < ps.len() ==> one_line(#[trigger] ps[k]),
    ensures
        lines(parents_text(ps) + rest) == parent_lines(ps) + lines(rest),
    decreases ps.len(),
{
    reveal_strlit("parent ");
    reveal_strlit("\n");
    if ps.len() == 0 {
        assert(parents_text(ps) + rest =~= rest);
        assert(parent_lines(ps) + lines(rest) =~= lines(rest));
    } else {
        let init = ps.drop_last();
        let last = ps.last();
        let line = parent_prefix() + last;
        let rest2 = line + seq!['\n'] + rest;
        assert(parents_text(ps) + rest =~= parents_text(init) + rest2);
        assert forall|k: int| 0 <= k < init.len() implies one_line(#[trigger] init[k]) by {
            assert(init[k] == ps[k]);
        }
        lemma_parents_lines(init, rest2);
        assert(one_line(ps[ps.len() - 1]));
        assert forall|j: int| 0 <= j < line.len() implies #[trigger] line[j] != '\n' by {
            if j >= 7 {
                assert(line[j] == last[j - 7]);
            }
        }
        lemma_lines_cons(line, rest);
        assert(strip_cr(line) == line) by {
            assert(line.last() != '\r') by {
                if last.len() > 0 {
                    assert(line.last() == last[last.len() - 1]);
                }
            }
        }
        assert(parent_lines(init).push(line) =~= parent_lines(ps));
        assert(parent_lines(init) + (seq![line] + lines(rest)) =~= parent_lines(ps) + lines(rest));
    }
}

/// The scan state after the `tree` line and the `parent` lines.
pub open spec fn header_scan(tree: Seq<char>, parents: Seq<Seq<char>>) -> CommitScan {
    CommitScan {
        tree,
        parents,
        author: Seq::empty(),
        committer: Seq::empty(),
        message: Seq::empty(),
        in_message: false,
    }
}

proof fn lemma_scan_parents(tree: Seq<char>, ps: Seq<Seq<char>>)
    ensures
        commit_scan(seq![tree_prefix() + tree] + parent_lines(ps)) == header_scan(tree, ps),
    decreases ps.len(),
{
    let ls = seq![tree_prefix() + tree] + parent_lines(ps);
    if ps.len() == 0 {
        let tl = tree_prefix() + tree;
        assert(ls =~= seq![tl]);
        assert(ls.drop_last() =~= Seq::<Seq<char>>::empty());
        assert(tl.take(5) =~= tree_prefix());
        assert(tree_prefix().is_prefix_of(tl));
        assert(tl.skip(5) =~= tree);
        assert(ps =~= Seq::<Seq<char>>::empty());
        assert(ls.last() == tl);
        assert(commit_scan(ls) == commit_scan_step(commit_scan(ls.drop_last()), ls.last()));
    } else {
        let init = ps.drop_last();
        lemma_scan_parents(tree, init);
        let pl = parent_prefix() + ps.last();
        assert(ls.drop_last() =~= seq![tree_prefix() + tree] + parent_lines(init));
        assert(ls.last() == pl);
        assert(pl[0] == 'p');
        assert(!tree_prefix().is_prefix_of(pl)) by {
            assert(pl.take(5)[0] != tree_prefix()[0]);
        }
        assert(pl.take(7) =~= parent_prefix());
        assert(parent_prefix().is_prefix_of(pl));
        assert(pl.skip(7) =~= ps.last());
        assert(init.push(ps.last()) =~= ps);
        assert(commit_scan(ls) == commit_scan_step(commit_scan(ls.drop_last()), ls.last()));
        assert(commit_scan(ls.drop_last()) == header_scan(tree, init));
        assert(commit_scan(ls) == CommitScan { parents: init.push(pl.skip(7)), ..header_scan(tree, init) });
    }
}

proof fn lemma_scan_message(h: Seq<Seq<char>>, ms: Seq<Seq<char>>)
    requires
        commit_scan(h).in_message,
    ensures
        commit_scan(h + ms) == (CommitScan { message: commit_scan(h).message + ms, ..commit_scan(h) }),
    decreases ms.len(),
{
    if ms.len() == 0 {
        assert(h + ms =~= h);
        assert(commit_scan(h).message + ms =~= commit_scan(h).message);
    } else {
        lemma_scan_message(h, ms.drop_last());
        assert((h + ms).drop_last() =~= h + ms.drop_last());
        assert((h + ms).last() == ms.last());
        assert(commit_scan(h).message + ms.drop_last() + seq![ms.last()] =~= commit_scan(h).message + ms);
        assert((commit_scan(h).message + ms.drop_last()).push(ms.last()) =~= commit_scan(h).message + ms);
    }
}

/// The header lines of a commit text: `tree`, `parent`s, `author`,
/// `committer` and the empty line.
pub open spec fn header_lines(t: Seq<char>, ps: Seq<Seq<char>>, a: Seq<char>, cm: Seq<char>) -> Seq<Seq<char>> {
    (seq![tree_prefix() + t] + parent_lines(ps)).push(author_prefix() + a).push(committer_prefix() + cm).push(
        Seq::empty(),
    )
}

proof fn lemma_header_scan(t: Seq<char>, ps: Seq<Seq<char>>, a: Seq<char>, cm: Seq<char>)
    ensures
        commit_scan(header_lines(t, ps, a, cm)) == (CommitScan {
            tree: t,
            parents: ps,
            author: a,
            committer: cm,
            message: Seq::empty(),
            in_message: true,
        }),
{
    let al = author_prefix() + a;
    let cl = committer_prefix() + cm;
    let h0 = seq![tree_prefix() + t] + parent_lines(ps);
    let h = header_lines(t, ps, a, cm);
    lemma_scan_parents(t, ps);
    let s0 = header_scan(t, ps);
    assert(al[0] == 'a' && cl[0] == 'c');
    assert(!tree_prefix().is_prefix_of(al)) by {
        assert(al.take(5)[0] != tree_prefix()[0]);
    }
    assert(!parent_prefix().is_prefix_of(al)) by {
        assert(al.take(7)[0] != parent_prefix()[0]);
    }
    assert(al.take(7) =~= author_prefix());
    assert(author_prefix().is_prefix_of(al));
    assert(al.skip(7) =~= a);
    assert(h0.push(al).drop_last() =~= h0);
    let s1 = commit_scan(h0.push(al));
    assert(s1 == commit_scan_step(s0, al));
    assert(s1 == CommitScan { author: a, ..s0 });
    assert(!tree_prefix().is_prefix_of(cl)) by {
        assert(cl.take(5)[0] != tree_prefix()[0]);
    }
    assert(!parent_prefix().is_prefix_of(cl)) by {
        assert(cl.take(7)[0] != parent_prefix()[0]);
    }
    assert(!author_prefix().is_prefix_of(cl)) by {
        assert(cl.take(7)[0] != author_prefix()[0]);
    }
    assert(cl.take(10) =~= committer_prefix());
    assert(committer_prefix().is_prefix_of(cl));
    assert(cl.skip(10) =~= cm);
    assert(h0.push(al).push(cl).drop_last() =~= h0.push(al));
    let s2 = commit_scan(h0.push(al).push(cl));
    assert(s2 == commit_scan_step(s1, cl));
    assert(s2 == CommitScan { committer: cm, ..s1 });
    assert(h.drop_last() =~= h0.push(al).push(cl));
    assert(commit_scan(h) == commit_scan_step(s2, Seq::empty()));
}

proof fn lemma_commit_lines(c: Commit)
    requires
        commit_storable(c),
    ensures
        lines(commit_text(c)) == header_lines(
            c.tree_hash@,
            c.parent_hashes.deep_view(),
            identity_text(c.author),
            identity_text(c.committer),
        ) + lines(c.message@),
{
    reveal_strlit("tree ");
    reveal_strlit("author ");
    reveal_strlit("committer ");
    reveal_strlit("\n");
    let t = c.tree_hash@;
    let ps = c.parent_hashes.deep_view();
    let a = identity_text(c.author);
    let cm = identity_text(c.committer);
    let m = c.message@;
    lemma_identity_reads(c.author);
    lemma_identity_reads(c.committer);
    let tl = tree_prefix() + t;
    let al = author_prefix() + a;
    let cl = committer_prefix() + cm;
    let r3 = Seq::<char>::empty() + seq!['\n'] + m;
    let r2 = cl + seq!['\n'] + r3;
    let r1 = al + seq!['\n'] + r2;
    assert(commit_text(c) =~= tl + seq!['\n'] + (parents_text(ps) + r1));
    assert forall|k: int| 0 <= k < ps.len() implies one_line(#[trigger] ps[k]) by {
        assert(ps[k] == c.parent_hashes@[k]@);
    }
    assert forall|j: int| 0 <= j < tl.len() implies #[trigger] tl[j] != '\n' && tl[j] != '\r' by {
        if j >= 5 {
            assert(tl[j] == t[j - 5]);
        }
    }
    assert forall|j: int| 0 <= j < al.len() implies #[trigger] al[j] != '\n' && al[j] != '\r' by {
        if j >= 7 {
            assert(al[j] == a[j - 7]);
        }
    }
    assert forall|j: int| 0 <= j < cl.len() implies #[trigger] cl[j] != '\n' && cl[j] != '\r' by {
        if j >= 10 {
            assert(cl[j] == cm[j - 10]);
        }
    }
    lemma_lines_cons(tl, parents_text(ps) + r1);
    lemma_parents_lines(ps, r1);
    lemma_lines_cons(al, r2);
    lemma_lines_cons(cl, r3);
    lemma_lines_cons(Seq::empty(), m);
    assert(strip_cr(tl) == tl);
    assert(strip_cr(al) == al);
    assert(strip_cr(cl) == cl);
    assert(strip_cr(Seq::<char>::empty()) =~= Seq::<char>::empty());
    assert(lines(commit_text(c)) =~= header_lines(t, ps, a, cm) + lines(m));
}

/// The lines of a commit text and what the scan collects from them.
proof fn lemma_commit_scan(c: Commit)
    requires
        commit_storable(c),
    ensures
        ({
            let st = commit_scan(lines(commit_text(c)));
            &&& st.tree == c.tree_hash@
            &&& st.parents == c.parent_hashes.deep_view()
            &&& st.author == identity_text(c.author)
            &&& st.committer == identity_text(c.committer)
            &&& st.message == lines(c.message@)
        }),
{
    let h = header_lines(c.tree_hash@, c.parent_hashes.deep_view(), identity_text(c.author), identity_text(c.committer));
    lemma_commit_lines(c);
    lemma_header_scan(c.tree_hash@, c.parent_hashes.deep_view(), identity_text(c.author), identity_text(c.committer));
    lemma_scan_message(h, lines(c.message@));
    assert(Seq::<Seq<char>>::empty() + lines(c.message@) =~= lines(c.message@));
}

/// Reading a commit back from its canonical text gives a commit with the
/// same text, and so the same object name: the text can be read, both
/// identities parse, and whatever commit the reading gives writes the same
/// text again.  This holds for commits whose fields survive the line format
/// (`commit_storable`) and whose timestamps `chrono` represents as whole
/// seconds, which every `Timestamp` value is (`Timestamp::timestamp` states
/// it).
pub proof fn law_commit_reads_back(c: Commit, d: Commit)
    requires
        commit_storable(c),
        chrono_representable(c.author.timestamp.seconds(), 0),
        chrono_representable(c.committer.timestamp.seconds(), 0),
    ensures
        commit_text_ok(commit_text(c)),
        identity_parses(commit_scan(lines(commit_text(c))).author),
        identity_parses(commit_scan(lines(commit_text(c))).committer),
        commit_read_as(commit_text(c), d) ==> commit_text(d) == commit_text(c),
{
    lemma_commit_scan(c);
    lemma_identity_reads(c.author);
    lemma_identity_reads(c.committer);
    if commit_read_as(commit_text(c), d) {
        lemma_join_lines(c.message@);
        assert(d.parent_hashes.deep_view() == c.parent_hashes.deep_view());
        assert(identity_text(d.author) == identity_text(c.author));
        assert(identity_text(d.committer) == identity_text(c.committer));
    }
}


/// Storing a commit and reading it back keeps its name: splitting the
/// stored form gives the commit type and the UTF-8 of its text, that text
/// decodes and can be read, and any commit read from it (such as the one
/// `decode_commit` gives back) has the same object name.  (Same conditions as `law_commit_reads_back`.)
pub proof fn law_stored_commit_keeps_its_name(c: Commit, d: Commit)
    requires
        commit_storable(c),
        chrono_representable(c.author.timestamp.seconds(), 0),
        chrono_representable(c.committer.timestamp.seconds(), 0),
    ensures
        object_split(framed(ObjectType::Commit, object_bytes(FgitObject::Commit(c))))
            == Ok::<(ObjectType, Seq<u8>), Seq<char>>((ObjectType::Commit, encode_utf8(commit_text(c)))),
        valid_utf8(encode_utf8(commit_text(c))),
        decode_utf8(encode_utf8(commit_text(c))) == commit_text(c),
        commit_text_ok(commit_text(c)),
        commit_read_as(commit_text(c), d) ==> object_name(ObjectType::Commit, object_bytes(FgitObject::Commit(d)))
            == object_name(ObjectType::Commit, object_bytes(FgitObject::Commit(c))),
{
    law_split_framed(ObjectType::Commit, encode_utf8(commit_text(c)));
    vstd::utf8::encode_utf8_valid_utf8(commit_text(c));
    vstd::utf8::encode_utf8_decode_utf8(commit_text(c));
    law_commit_reads_back(c, d);
}

} // verus!
