//! A repository: its working directory and its `.fgit` directory, the
//! errors its operations report, and the parts of its operations that
//! compute (where objects lie, the default ignore file, the trees of an
//! index).  Reading and writing files is left to the caller.
use vstd::prelude::*;
use vstd::string::*;
use crate::paths::{path_join, join_path};
use crate::refs::RefManager;
use crate::hooks::HookManager;
use vstd::utf8::{decode_utf8, is_char_boundary};
use vstd::utf8::encode_utf8;
use crate::text::{
    join, join_strings, concat2, push_str, push_char, find_first, lemma_find_first, to_chars, string_of,
    find_char, strip_prefix,
};
use crate::index::{Index, IndexEntry};
use crate::object::{
    Tree, FileMode, EntryView, ObjectType, entries_view, entry_order, tree_json_of, object_name,
    tree_to_json, hash_object,
};
use crate::sorting::{stable_sorted, lemma_stable_sorted_multiset};

verus! {

/// The name of the repository directory inside a working directory.
pub const FGIT_DIR: &'static str = ".fgit";

/// What repository operations report.
#[derive(Debug)]
pub enum RepoError {
    NotARepository(String),
    AlreadyExists(String),
    Io(String),
    ObjectNotFound(String),
    CorruptObject(String),
    InvalidRef(String),
    MergeConflict(String),
    General(String),
}

/// The message of an error.
pub open spec fn repo_error_text(e: RepoError) -> Seq<char> {
    match e {
        RepoError::NotARepository(s) => "Not an fgit repository (or any parent): "@ + s@,
        RepoError::AlreadyExists(s) => "Repository already exists at "@ + s@,
        RepoError::Io(s) => "IO error: "@ + s@,
        RepoError::ObjectNotFound(s) => "Object not found: "@ + s@,
        RepoError::CorruptObject(s) => "Corrupt object: "@ + s@,
        RepoError::InvalidRef(s) => "Invalid reference: "@ + s@,
        RepoError::MergeConflict(s) => "Merge conflict in: "@ + s@,
        RepoError::General(s) => s@,
    }
}

impl RepoError {
    /// The message of the error.
    pub fn message(&self) -> (r: String)
        ensures
            r@ == repo_error_text(*self),
    {
        match self {
            RepoError::NotARepository(s) => concat2("Not an fgit repository (or any parent): ", s.as_str()),
            RepoError::AlreadyExists(s) => concat2("Repository already exists at ", s.as_str()),
            RepoError::Io(s) => concat2("IO error: ", s.as_str()),
            RepoError::ObjectNotFound(s) => concat2("Object not found: ", s.as_str()),
            RepoError::CorruptObject(s) => concat2("Corrupt object: ", s.as_str()),
            RepoError::InvalidRef(s) => concat2("Invalid reference: ", s.as_str()),
            RepoError::MergeConflict(s) => concat2("Merge conflict in: ", s.as_str()),
            RepoError::General(s) => s.clone(),
        }
    }
}

/// A repository: the working directory and the repository directory.
#[derive(Debug)]
pub struct Repository {
    pub workdir: String,
    pub fgit_dir: String,
}

impl Repository {
    /// The references of the repository.
    pub fn refs(&self) -> (r: RefManager)
        ensures
            r.dir() == self.fgit_dir@,
    {
        RefManager::new(self.fgit_dir.clone())
    }

    /// The hooks of the repository.
    pub fn hooks(&self) -> (r: HookManager)
        ensures
            r.dir() == path_join(self.fgit_dir@, "hooks"@),
    {
        HookManager::new(self.fgit_dir.as_str())
    }

    /// Where an object lies: `objects/<first two characters>/<rest>` in
    /// the repository directory; none for names shorter than four bytes.
    pub fn object_path(&self, hash: &str) -> (r: Option<String>)
        requires
            hash.spec_bytes().len() <= usize::MAX,
            hash.spec_bytes().len() >= 4 ==> is_char_boundary(hash.spec_bytes(), 2),
        ensures
            hash.spec_bytes().len() < 4 ==> r is None,
            hash.spec_bytes().len() >= 4 ==> (r matches Some(p) && p@ == path_join(
                path_join(path_join(self.fgit_dir@, "objects"@), decode_utf8(hash.spec_bytes().take(2))),
                decode_utf8(hash.spec_bytes().skip(2)),
            )),
    {
        if hash.len() < 4 {
            return None;
        }
        let (dir_name, file_name) = hash.split_at(2);
        proof {
            vstd::utf8::encode_utf8_decode_utf8(dir_name@);
            vstd::utf8::encode_utf8_decode_utf8(file_name@);
            assert(hash.spec_bytes().take(2) =~= dir_name.spec_bytes());
            assert(hash.spec_bytes().skip(2) =~= file_name.spec_bytes());
        }
        let objects = join_path(self.fgit_dir.as_str(), "objects");
        let dir = join_path(objects.as_str(), dir_name);
        Some(join_path(dir.as_str(), file_name))
    }
}

fn push_line(lines: &mut Vec<String>, line: &str)
    ensures
        final(lines).deep_view() == old(lines).deep_view().push(line@),
{
    let ghost before = lines.deep_view();
    lines.push(String::from_str(line));
    assert(lines.deep_view() =~= before.push(line@));
}

pub open spec fn ignore_head_lines() -> Seq<Seq<char>> {
    seq![
        "# ═══════════════════════════════════════════════════"@,
        "# ApexForge Git — Auto-generated .fgitignore"@,
        "# ═══════════════════════════════════════════════════"@,
        ""@,
        "# ApexForge Git internals"@,
        ".fgit/"@,
        ""@,
        "# OS generated files"@,
        "[os]"@,
        ".DS_Store"@,
        "Thumbs.db"@,
        "*.swp"@,
        "*.swo"@,
        "*~"@,
        ""@,
        "# Editor directories and files"@,
        "[editors]"@,
        ".idea/"@,
        ".vscode/"@,
        "*.sublime-project"@,
        "*.sublime-workspace"@,
        ""@
    ]
}

pub open spec fn ignore_rust_lines() -> Seq<Seq<char>> {
    seq![
        "# Rust"@,
        "[rust]"@,
        "target/"@,
        "*.rs.bk"@,
        ""@
    ]
}

pub open spec fn ignore_node_lines() -> Seq<Seq<char>> {
    seq![
        "# Node.js"@,
        "[node]"@,
        "node_modules/"@,
        "dist/"@,
        "build/"@,
        ".env"@,
        ".env.local"@,
        "*.log"@,
        ""@
    ]
}

pub open spec fn ignore_python_lines() -> Seq<Seq<char>> {
    seq![
        "# Python"@,
        "[python]"@,
        "__pycache__/"@,
        "*.py[cod]"@,
        "*.egg-info/"@,
        ".venv/"@,
        "venv/"@,
        ""@
    ]
}

pub open spec fn ignore_go_lines() -> Seq<Seq<char>> {
    seq![
        "# Go"@,
        "[go]"@,
        "vendor/"@,
        ""@
    ]
}

pub open spec fn ignore_tail_lines() -> Seq<Seq<char>> {
    seq![
        "# Automatically ignore files larger than 50MB"@,
        "size:>50mb"@,
        ""@
    ]
}

/// The lines of the default ignore file: the common part, a part for each
/// kind of project found (Rust, Node.js, Python, Go), then the size limit.
pub open spec fn default_ignore_lines(rust: bool, node: bool, python: bool, go: bool) -> Seq<Seq<char>> {
    ignore_head_lines() + (if rust { ignore_rust_lines() } else { Seq::empty() }) + (if node {
        ignore_node_lines()
    } else {
        Seq::empty()
    }) + (if python { ignore_python_lines() } else { Seq::empty() }) + (if go {
        ignore_go_lines()
    } else {
        Seq::empty()
    }) + ignore_tail_lines()
}

fn push_head_a(lines: &mut Vec<String>)
    ensures
        final(lines).deep_view() == old(lines).deep_view() + ignore_head_lines().subrange(0, 11),
{
    let ghost acc = lines.deep_view();
    push_line(lines, "# ═══════════════════════════════════════════════════");
    push_line(lines, "# ApexForge Git — Auto-generated .fgitignore");
    push_line(lines, "# ═══════════════════════════════════════════════════");
    push_line(lines, "");
    push_line(lines, "# ApexForge Git internals");
    push_line(lines, ".fgit/");
    push_line(lines, "");
    push_line(lines, "# OS generated files");
    push_line(lines, "[os]");
    push_line(lines, ".DS_Store");
    push_line(lines, "Thumbs.db");
    assert(lines.deep_view() =~= acc + ignore_head_lines().subrange(0, 11));
}

fn push_head_b(lines: &mut Vec<String>)
    ensures
        final(lines).deep_view() == old(lines).deep_view() + ignore_head_lines().subrange(11, 22),
{
    let ghost acc = lines.deep_view();
    push_line(lines, "*.swp");
    push_line(lines, "*.swo");
    push_line(lines, "*~");
    push_line(lines, "");
    push_line(lines, "# Editor directories and files");
    push_line(lines, "[editors]");
    push_line(lines, ".idea/");
    push_line(lines, ".vscode/");
    push_line(lines, "*.sublime-project");
    push_line(lines, "*.sublime-workspace");
    push_line(lines, "");
    assert(lines.deep_view() =~= acc + ignore_head_lines().subrange(11, 22));
}

fn push_rust(lines: &mut Vec<String>)
    ensures
        final(lines).deep_view() == old(lines).deep_view() + ignore_rust_lines(),
{
    let ghost acc = lines.deep_view();
    push_line(lines, "# Rust");
    push_line(lines, "[rust]");
    push_line(lines, "target/");
    push_line(lines, "*.rs.bk");
    push_line(lines, "");
    assert(lines.deep_view() =~= acc + ignore_rust_lines());
}

fn push_node(lines: &mut Vec<String>)
    ensures
        final(lines).deep_view() == old(lines).deep_view() + ignore_node_lines(),
{
    let ghost acc = lines.deep_view();
    push_line(lines, "# Node.js");
    push_line(lines, "[node]");
    push_line(lines, "node_modules/");
    push_line(lines, "dist/");
    push_line(lines, "build/");
    push_line(lines, ".env");
    push_line(lines, ".env.local");
    push_line(lines, "*.log");
    push_line(lines, "");
    assert(lines.deep_view() =~= acc + ignore_node_lines());
}

fn push_python(lines: &mut Vec<String>)
    ensures
        final(lines).deep_view() == old(lines).deep_view() + ignore_python_lines(),
{
    let ghost acc = lines.deep_view();
    push_line(lines, "# Python");
    push_line(lines, "[python]");
    push_line(lines, "__pycache__/");
    push_line(lines, "*.py[cod]");
    push_line(lines, "*.egg-info/");
    push_line(lines, ".venv/");
    push_line(lines, "venv/");
    push_line(lines, "");
    assert(lines.deep_view() =~= acc + ignore_python_lines());
}

fn push_go(lines: &mut Vec<String>)
    ensures
        final(lines).deep_view() == old(lines).deep_view() + ignore_go_lines(),
{
    let ghost acc = lines.deep_view();
    push_line(lines, "# Go");
    push_line(lines, "[go]");
    push_line(lines, "vendor/");
    push_line(lines, "");
    assert(lines.deep_view() =~= acc + ignore_go_lines());
}

fn push_tail(lines: &mut Vec<String>)
    ensures
        final(lines).deep_view() == old(lines).deep_view() + ignore_tail_lines(),
{
    let ghost acc = lines.deep_view();
    push_line(lines, "# Automatically ignore files larger than 50MB");
    push_line(lines, "size:>50mb");
    push_line(lines, "");
    assert(lines.deep_view() =~= acc + ignore_tail_lines());
}

/// The default ignore file for a working directory that holds a
/// `Cargo.toml` (`rust`), a `package.json` (`node`), a `requirements.txt`,
/// `setup.py` or `pyproject.toml` (`python`), or a `go.mod` (`go`).
pub fn default_ignore_text(rust: bool, node: bool, python: bool, go: bool) -> (r: String)
    ensures
        r@ == join(default_ignore_lines(rust, node, python, go), "\n"@),
{
    let mut lines: Vec<String> = Vec::new();
    assert(lines.deep_view() =~= Seq::<Seq<char>>::empty());
    push_head_a(&mut lines);
    push_head_b(&mut lines);
    assert(ignore_head_lines().subrange(0, 11) + ignore_head_lines().subrange(11, 22) =~= ignore_head_lines());
    assert(lines.deep_view() =~= ignore_head_lines());
    let ghost a1 = lines.deep_view();
    if rust {
        push_rust(&mut lines);
    }
    let ghost a2 = lines.deep_view();
    if node {
        push_node(&mut lines);
    }
    let ghost a3 = lines.deep_view();
    if python {
        push_python(&mut lines);
    }
    let ghost a4 = lines.deep_view();
    if go {
        push_go(&mut lines);
    }
    let ghost a5 = lines.deep_view();
    push_tail(&mut lines);
    proof {
        assert(a2 =~= a1 + if rust { ignore_rust_lines() } else { Seq::empty() });
        assert(a3 =~= a2 + if node { ignore_node_lines() } else { Seq::empty() });
        assert(a4 =~= a3 + if python { ignore_python_lines() } else { Seq::empty() });
        assert(a5 =~= a4 + if go { ignore_go_lines() } else { Seq::empty() });
        assert(lines.deep_view() =~= default_ignore_lines(rust, node, python, go));
    }
    join_strings(&lines, "\n")
}

// ---------------------------------------------------------------------------
// Trees of an index
// ---------------------------------------------------------------------------

/// The path of an entry relative to a directory prefix, if it lies below it.
pub open spec fn rel_path(path: Seq<char>, prefix: Seq<char>) -> Option<Seq<char>> {
    if prefix.len() == 0 {
        Some(path)
    } else if (prefix + seq!['/']).is_prefix_of(path) {
        Some(path.skip(prefix.len() + 1int))
    } else {
        None
    }
}

/// The prefix of a subdirectory.
pub open spec fn child_prefix(prefix: Seq<char>, dir: Seq<char>) -> Seq<char> {
    if prefix.len() == 0 {
        dir
    } else {
        prefix + seq!['/'] + dir
    }
}

/// The entries of one directory level, the subdirectories already seen and
/// the trees stored so far, after the first `k` index entries.
pub struct LevelScan {
    pub entries: Seq<EntryView>,
    pub seen: Seq<Seq<char>>,
    pub stored: Seq<Seq<EntryView>>,
}

/// Scanning the index for the directory `prefix`: a file directly in it
/// becomes a regular entry; the first file below a subdirectory builds that
/// subdirectory's tree (storing its trees) and adds a directory entry.
/// `fuel` bounds the depth of subdirectories.
pub open spec fn level_scan(ix: Seq<IndexEntry>, prefix: Seq<char>, k: int, fuel: nat) -> LevelScan
    decreases fuel, 1int, k,
{
    if k <= 0 || k > ix.len() {
        LevelScan { entries: Seq::empty(), seen: Seq::empty(), stored: Seq::empty() }
    } else {
        let st = level_scan(ix, prefix, k - 1, fuel);
        let e = ix[k - 1];
        match rel_path(e.path@, prefix) {
            None => st,
            Some(r) => {
                let slash = find_first(r, '/');
                if slash >= 0 {
                    let dir = r.take(slash);
                    if st.seen.contains(dir) || fuel == 0 {
                        st
                    } else {
                        let child = child_prefix(prefix, dir);
                        LevelScan {
                            entries: st.entries.push(
                                EntryView {
                                    mode: FileMode::Directory,
                                    name: dir,
                                    hash: tree_hash_at(ix, child, (fuel - 1) as nat),
                                },
                            ),
                            seen: st.seen.push(dir),
                            stored: st.stored + trees_stored_at(ix, child, (fuel - 1) as nat),
                        }
                    }
                } else {
                    LevelScan {
                        entries: st.entries.push(EntryView { mode: FileMode::Regular, name: r, hash: e.hash@ }),
                        seen: st.seen,
                        stored: st.stored,
                    }
                }
            },
        }
    }
}

/// The sorted entries of the tree of directory `prefix`.
pub open spec fn tree_entries_at(ix: Seq<IndexEntry>, prefix: Seq<char>, fuel: nat) -> Seq<EntryView>
    decreases fuel, 1int, ix.len() + 1,
{
    stable_sorted(level_scan(ix, prefix, ix.len() as int, fuel).entries, entry_order())
}

/// The name of the tree of directory `prefix`.
pub open spec fn tree_hash_at(ix: Seq<IndexEntry>, prefix: Seq<char>, fuel: nat) -> Seq<char>
    decreases fuel, 2int, 0int,
{
    object_name(ObjectType::Tree, encode_utf8(tree_json_of(tree_entries_at(ix, prefix, fuel))))
}

/// The trees stored for directory `prefix`, in order: those of its
/// subdirectories, then its own.
pub open spec fn trees_stored_at(ix: Seq<IndexEntry>, prefix: Seq<char>, fuel: nat) -> Seq<Seq<EntryView>>
    decreases fuel, 2int, 0int,
{
    level_scan(ix, prefix, ix.len() as int, fuel).stored.push(tree_entries_at(ix, prefix, fuel))
}

/// The length of the longest path in the index.
pub open spec fn max_path_len(ix: Seq<IndexEntry>) -> nat
    decreases ix.len(),
{
    if ix.len() == 0 {
        0
    } else {
        let m = max_path_len(ix.drop_last());
        if ix.last().path@.len() > m { ix.last().path@.len() } else { m }
    }
}

proof fn lemma_max_path_len(ix: Seq<IndexEntry>, i: int)
    requires
        0 <= i < ix.len(),
    ensures
        ix[i].path@.len() <= max_path_len(ix),
    decreases ix.len(),
{
    if i < ix.len() - 1 {
        lemma_max_path_len(ix.drop_last(), i);
        assert(ix.drop_last()[i] == ix[i]);
    }
}

/// No index path starts with `/` (such a path would name the root
/// directory as its own subdirectory).
pub open spec fn paths_relative(ix: Seq<IndexEntry>) -> bool {
    forall|i: int| 0 <= i < ix.len() ==> !(#[trigger] ix[i].path@.len() > 0 && ix[i].path@[0] == '/')
}

/// The depth bound that lets every subdirectory of the index be built.
pub open spec fn tree_fuel(ix: Seq<IndexEntry>) -> nat {
    max_path_len(ix) + 1
}

proof fn lemma_scan_keeps_file(ix: Seq<IndexEntry>, prefix: Seq<char>, fuel: nat, i: int, k: int)
    requires
        0 <= i < k <= ix.len(),
        rel_path(ix[i].path@, prefix) is Some,
        !rel_path(ix[i].path@, prefix)->0.contains('/'),
    ensures
        level_scan(ix, prefix, k, fuel).entries.contains(
            EntryView { mode: FileMode::Regular, name: rel_path(ix[i].path@, prefix)->0, hash: ix[i].hash@ },
        ),
    decreases k,
{
    let r = rel_path(ix[i].path@, prefix)->0;
    let ev = EntryView { mode: FileMode::Regular, name: r, hash: ix[i].hash@ };
    let st = level_scan(ix, prefix, k - 1, fuel);
    let cur = level_scan(ix, prefix, k, fuel);
    if k == i + 1 {
        lemma_find_first(r, '/');
        if find_first(r, '/') >= 0 {
            assert(r.contains('/'));
        }
        assert(cur.entries == st.entries.push(ev));
        assert(cur.entries[st.entries.len() as int] == ev);
    } else {
        lemma_scan_keeps_file(ix, prefix, fuel, i, k - 1);
        let j = choose|j: int| 0 <= j < st.entries.len() && st.entries[j] == ev;
        assert(cur.entries == st.entries || exists|x: EntryView| cur.entries == st.entries.push(x));
        if cur.entries != st.entries {
            let x = choose|x: EntryView| cur.entries == st.entries.push(x);
            assert(cur.entries[j] == ev);
        }
    }
}

/// Each file of the index that lies directly in a directory is an entry of
/// that directory's tree, as a regular file with the name below the
/// directory and the hash of the blob the index staged for it.  For the
/// root (the empty prefix) that tree is the last one stored.
pub proof fn law_tree_holds_staged_files(ix: Seq<IndexEntry>, prefix: Seq<char>, fuel: nat, i: int)
    requires
        0 <= i < ix.len(),
        rel_path(ix[i].path@, prefix) is Some,
        !rel_path(ix[i].path@, prefix)->0.contains('/'),
    ensures
        tree_entries_at(ix, prefix, fuel).contains(
            EntryView { mode: FileMode::Regular, name: rel_path(ix[i].path@, prefix)->0, hash: ix[i].hash@ },
        ),
        trees_stored_at(ix, prefix, fuel).last() == tree_entries_at(ix, prefix, fuel),
        prefix.len() == 0 ==> rel_path(ix[i].path@, prefix)->0 == ix[i].path@,
{
    let ev = EntryView { mode: FileMode::Regular, name: rel_path(ix[i].path@, prefix)->0, hash: ix[i].hash@ };
    let s = level_scan(ix, prefix, ix.len() as int, fuel).entries;
    lemma_scan_keeps_file(ix, prefix, fuel, i, ix.len() as int);
    lemma_stable_sorted_multiset(s, entry_order());
    assert(s.to_multiset().count(ev) > 0) by {
        broadcast use vstd::seq_lib::group_to_multiset_ensures;
    }
    assert(tree_entries_at(ix, prefix, fuel).contains(ev)) by {
        broadcast use vstd::seq_lib::group_to_multiset_ensures;
        assert(tree_entries_at(ix, prefix, fuel).to_multiset().count(ev) > 0);
    }
}

pub open spec fn trees_view(ts: Seq<Tree>) -> Seq<Seq<EntryView>> {
    ts.map_values(|t: Tree| entries_view(t.entries@))
}

impl Repository {
    /// Builds the trees of an index: one per directory, each holding its
    /// files and its subdirectories' trees, sorted.  Gives the name of the
    /// root tree and every tree to store, subdirectories before their
    /// parents.
    pub fn build_tree_from_index(&self, index: &Index) -> (r: (String, Vec<Tree>))
        requires
            paths_relative(index.entries@),
        ensures
            r.0@ == tree_hash_at(index.entries@, Seq::empty(), tree_fuel(index.entries@)),
            trees_view(r.1@) == trees_stored_at(index.entries@, Seq::empty(), tree_fuel(index.entries@)),
            forall|i: int|
                0 <= i < index.entries@.len() && !(#[trigger] index.entries@[i]).path@.contains('/')
                    ==> trees_view(r.1@).last().contains(
                    EntryView { mode: FileMode::Regular, name: index.entries@[i].path@, hash: index.entries@[i].hash@ },
                ),
    {
        let mut trees: Vec<Tree> = Vec::new();
        assert(trees_view(trees@) =~= Seq::<Seq<EntryView>>::empty());
        let root = String::new();
        let h = build_level(index, &root, &mut trees, Ghost(tree_fuel(index.entries@)));
        assert(trees_view(trees@) =~= trees_stored_at(index.entries@, Seq::empty(), tree_fuel(index.entries@)));
        proof {
            let ix = index.entries@;
            assert forall|i: int|
                0 <= i < ix.len() && !(#[trigger] ix[i]).path@.contains('/') implies trees_view(trees@).last().contains(
                EntryView { mode: FileMode::Regular, name: ix[i].path@, hash: ix[i].hash@ },
            ) by {
                law_tree_holds_staged_files(ix, Seq::empty(), tree_fuel(ix), i);
            }
        }
        (h, trees)
    }
}

/// Builds the tree of directory `prefix`, storing its trees into `trees`.
fn build_level(index: &Index, prefix: &String, trees: &mut Vec<Tree>, Ghost(fuel): Ghost<nat>) -> (h: String)
    requires
        paths_relative(index.entries@),
        fuel + prefix@.len() > max_path_len(index.entries@),
    ensures
        h@ == tree_hash_at(index.entries@, prefix@, fuel),
        trees_view(final(trees)@) == trees_view(old(trees)@) + trees_stored_at(index.entries@, prefix@, fuel),
    decreases fuel,
{
    let ghost ix = index.entries@;
    let ghost p = prefix@;
    let ghost start = trees_view(trees@);
    let mut tree = Tree::new();
    let mut seen: Vec<String> = Vec::new();
    let mut slash_prefix = prefix.clone();
    push_char(&mut slash_prefix, '/');
    let mut k: usize = 0;
    assert(entries_view(tree.entries@) =~= Seq::<EntryView>::empty());
    assert(seen.deep_view() =~= Seq::<Seq<char>>::empty());
    assert(start + Seq::<Seq<EntryView>>::empty() =~= start);
    while k < index.entries.len()
        invariant
            ix == index.entries@,
            p == prefix@,
            slash_prefix@ == p + seq!['/'],
            paths_relative(ix),
            fuel + p.len() > max_path_len(ix),
            k <= ix.len(),
            entries_view(tree.entries@) == level_scan(ix, p, k as int, fuel).entries,
            seen.deep_view() == level_scan(ix, p, k as int, fuel).seen,
            trees_view(trees@) == start + level_scan(ix, p, k as int, fuel).stored,
        decreases index.entries.len() - k,
    {
        let e = &index.entries[k];
        let ghost st = level_scan(ix, p, k as int, fuel);
        proof {
            lemma_max_path_len(ix, k as int);
        }
        let rel: Option<String> = if prefix.unicode_len() == 0 {
            Some(e.path.clone())
        } else {
            strip_prefix(e.path.as_str(), slash_prefix.as_str())
        };
        proof {
            if rel is Some {
                assert(rel_path(e.path@, p) == Some(rel->0@));
            } else {
                assert(rel_path(e.path@, p) is None);
            }
        }
        match rel {
            None => {},
            Some(r) => {
                let rv = to_chars(r.as_str());
                proof {
                    lemma_find_first(r@, '/');
                }
                match find_char(rv.as_slice(), '/') {
                    Some(pos) => {
                        let dir = string_of(rv.as_slice(), 0, pos);
                        assert(dir@ =~= r@.take(pos as int));
                        if !crate::text::strings_contain(&seen, &dir) {
                            let ghost child = child_prefix(p, dir@);
                            proof {
                                assert(ix[k as int].path@.len() > 0 ==> ix[k as int].path@[0] != '/');
                                if p.len() == 0 {
                                    assert(pos > 0);
                                    assert(child.len() < ix[k as int].path@.len());
                                } else {
                                    assert(ix[k as int].path@ =~= p + seq!['/'] + r@);
                                    assert(child.len() < ix[k as int].path@.len());
                                }
                                assert(fuel > 0);
                            }
                            let ghost sv = seen.deep_view();
                            seen.push(dir.clone());
                            assert(seen.deep_view() =~= sv.push(dir@));
                            let sub = if prefix.unicode_len() == 0 {
                                dir.clone()
                            } else {
                                let mut s = slash_prefix.clone();
                                crate::text::push_str(&mut s, dir.as_str());
                                s
                            };
                            assert(sub@ == child);
                            let ghost before_trees = trees_view(trees@);
                            let sub_hash = build_level(index, &sub, trees, Ghost((fuel - 1) as nat));
                            assert(trees_view(trees@) =~= start + (st.stored + trees_stored_at(ix, child, (fuel - 1) as nat)));
                            tree.add_entry(FileMode::Directory, dir, sub_hash);
                        }
                    },
                    None => {
                        tree.add_entry(FileMode::Regular, r, e.hash.clone());
                    },
                }
            },
        }
        k = k + 1;
    }
    tree.sort_entries();
    let json = tree_to_json(&tree);
    let bytes = json.as_str().as_bytes_vec();
    let h = hash_object(ObjectType::Tree, bytes.as_slice());
    let ghost tv = entries_view(tree.entries@);
    let ghost before_push = trees_view(trees@);
    trees.push(tree);
    proof {
        assert(trees_view(trees@) =~= before_push.push(tv));
        assert(trees_view(trees@) =~= start + trees_stored_at(ix, p, fuel));
    }
    h
}

} // verus!
