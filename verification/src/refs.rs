//! References: HEAD, branches and the reflog, held as files below the
//! repository directory.  This module says what those files hold and how
//! they are read; reading and writing them is left to the caller.
use vstd::prelude::*;
use vstd::string::*;
use crate::paths::{path_join, join_path};
use crate::text::{trim, trim_start, trim_end, is_ws, trim_string, strip_prefix, push_str, concat2, lex_lt, str_lt};

verus! {

/// Where the references of a repository live.
#[derive(Debug)]
pub struct RefManager {
    fgit_dir: String,
}

/// What HEAD points at: a reference (such as `refs/heads/main`) or, when
/// detached, a commit hash.
#[derive(Debug)]
pub enum HeadTarget {
    Ref(String),
    Detached(String),
}

pub open spec fn ref_prefix() -> Seq<char> {
    seq!['r', 'e', 'f', ':', ' ']
}

pub open spec fn branch_ref_prefix() -> Seq<char> {
    ref_prefix() + seq!['r', 'e', 'f', 's', '/', 'h', 'e', 'a', 'd', 's', '/']
}

/// The branch that a HEAD file names, if it names one.
pub open spec fn head_branch(head: Seq<char>) -> Option<Seq<char>> {
    let t = trim(head);
    if branch_ref_prefix().is_prefix_of(t) {
        Some(t.skip(branch_ref_prefix().len() as int))
    } else {
        None
    }
}

/// A reflog line: old and new hash, the time and the message, separated by
/// spaces and ended by a line end.
pub open spec fn reflog_text(old_hash: Seq<char>, new_hash: Seq<char>, time: Seq<char>, msg: Seq<char>) -> Seq<char> {
    old_hash + " "@ + new_hash + " "@ + time + " "@ + msg + "\n"@
}

/// The HEAD file that names a branch: `ref: refs/heads/<branch>` and a
/// line end.
pub open spec fn head_text(branch: Seq<char>) -> Seq<char> {
    branch_ref_prefix() + branch + seq!['\n']
}

/// Writing a branch into HEAD and reading it back gives the branch, for
/// every branch name that does not end in white space (`str::trim` would
/// cut it).
pub proof fn law_head_names_branch(branch: Seq<char>)
    requires
        branch.len() == 0 || !is_ws(branch.last()),
    ensures
        head_branch(head_text(branch)) == Some(branch),
{
    let p = branch_ref_prefix();
    let body = p + branch;
    let h = head_text(branch);
    assert(h =~= body.push('\n'));
    assert(!is_ws(h[0]));
    assert(trim_start(h) == h);
    assert(h.drop_last() =~= body);
    assert(is_ws(h.last()));
    assert(!is_ws(body.last())) by {
        if branch.len() == 0 {
            assert(body =~= p);
        } else {
            assert(body.last() == branch.last());
        }
    }
    assert(trim_end(body) == body);
    assert(trim_end(h) == body);
    assert(p.is_prefix_of(body)) by {
        assert(body.take(p.len() as int) =~= p);
    }
    assert(body.skip(p.len() as int) =~= branch);
}

/// A hash written to a file with `hash_line` reads back with `read_hash`,
/// for every hash without white space at either end.
pub proof fn law_hash_line_reads_back(hash: Seq<char>)
    requires
        hash.len() == 0 || (!is_ws(hash[0]) && !is_ws(hash.last())),
    ensures
        trim(hash + "\n"@) == hash,
{
    reveal_strlit("\n");
    let s = hash + "\n"@;
    assert(s =~= hash.push('\n'));
    assert(s.drop_last() =~= hash);
    if hash.len() == 0 {
        assert(s.drop_first() =~= Seq::<char>::empty());
        assert(trim_start(s) == trim_start(s.drop_first()));
        assert(trim_start(s) =~= hash);
    } else {
        assert(s[0] == hash[0]);
        assert(trim_start(s) == s);
        assert(trim_end(s) == trim_end(hash));
        assert(trim_end(hash) == hash);
    }
}

impl RefManager {
    pub closed spec fn dir(&self) -> Seq<char> {
        self.fgit_dir@
    }

    pub fn new(fgit_dir: String) -> (r: RefManager)
        ensures
            r.dir() == fgit_dir@,
    {
        RefManager { fgit_dir }
    }

    /// The repository directory the references live in.
    pub fn fgit_dir(&self) -> (r: String)
        ensures
            r@ == self.dir(),
    {
        self.fgit_dir.clone()
    }

    /// The HEAD file.
    pub fn head_path(&self) -> (r: String)
        ensures
            r@ == path_join(self.dir(), "HEAD"@),
    {
        join_path(self.fgit_dir.as_str(), "HEAD")
    }

    /// The file of a branch.
    pub fn branch_path(&self, name: &str) -> (r: String)
        ensures
            r@ == path_join(path_join(self.dir(), "refs/heads"@), name@),
    {
        let heads = join_path(self.fgit_dir.as_str(), "refs/heads");
        join_path(heads.as_str(), name)
    }

    /// The current branch, from the contents of the HEAD file: the name
    /// after `ref: refs/heads/`, or none when HEAD is detached.
    pub fn current_branch(&self, head: &str) -> (r: Option<String>)
        ensures
            match r {
                Some(b) => head_branch(head@) == Some(b@),
                None => head_branch(head@) is None,
            },
    {
        proof {
            reveal_strlit("ref: refs/heads/");
            assert("ref: refs/heads/"@ =~= branch_ref_prefix());
        }
        let t = trim_string(head);
        strip_prefix(t.as_str(), "ref: refs/heads/")
    }

    /// What the HEAD file points at: the reference after `ref: `, or the
    /// (trimmed) contents as a commit hash.
    pub fn head_target(head: &str) -> (r: HeadTarget)
        ensures
            match r {
                HeadTarget::Ref(p) => ref_prefix().is_prefix_of(trim(head@)) && p@ == trim(head@).skip(5),
                HeadTarget::Detached(h) => !ref_prefix().is_prefix_of(trim(head@)) && h@ == trim(head@),
            },
    {
        proof {
            reveal_strlit("ref: ");
            assert("ref: "@ =~= ref_prefix());
        }
        let t = trim_string(head);
        match strip_prefix(t.as_str(), "ref: ") {
            Some(p) => HeadTarget::Ref(p),
            None => HeadTarget::Detached(t),
        }
    }

    /// The contents of a HEAD file that names a branch.
    pub fn branch_head_text(branch: &str) -> (r: String)
        ensures
            r@ == head_text(branch@),
    {
        proof {
            reveal_strlit("ref: refs/heads/");
            reveal_strlit("\n");
            assert("ref: refs/heads/"@ =~= branch_ref_prefix());
            assert("\n"@ =~= seq!['\n']);
        }
        let mut s = String::from_str("ref: refs/heads/");
        push_str(&mut s, branch);
        push_str(&mut s, "\n");
        s
    }

    /// The contents of a file that holds one hash.
    pub fn hash_line(hash: &str) -> (r: String)
        ensures
            r@ == hash@ + "\n"@,
    {
        concat2(hash, "\n")
    }

    /// The hash that a branch file (or a detached HEAD) holds: its contents,
    /// trimmed.
    pub fn read_hash(contents: &str) -> (r: String)
        ensures
            r@ == trim(contents@),
    {
        trim_string(contents)
    }

    /// Whether a branch may be deleted: not the current one.
    pub fn check_delete(current: Option<&str>, name: &str) -> (r: Result<(), String>)
        ensures
            r is Err <==> (current matches Some(c) && c@ == name@),
            r matches Err(e) ==> e@ == "Cannot delete current branch '"@ + name@ + "'"@,
    {
        match current {
            Some(c) => {
                if crate::text::str_eq(c, name) {
                    let mut s = String::from_str("Cannot delete current branch '");
                    push_str(&mut s, name);
                    push_str(&mut s, "'");
                    Err(s)
                } else {
                    Ok(())
                }
            },
            None => Ok(()),
        }
    }

    /// One line of the reflog: old and new hash, the time, the message.
    pub fn reflog_entry(old_hash: &str, new_hash: &str, time: &str, msg: &str) -> (r: String)
        ensures
            r@ == reflog_text(old_hash@, new_hash@, time@, msg@),
    {
        let mut s = String::new();
        push_str(&mut s, old_hash);
        push_str(&mut s, " ");
        push_str(&mut s, new_hash);
        push_str(&mut s, " ");
        push_str(&mut s, time);
        push_str(&mut s, " ");
        push_str(&mut s, msg);
        push_str(&mut s, "\n");
        s
    }
}

/// The current time in RFC 3339 (`chrono::Utc::now().to_rfc3339()`);
/// nothing is promised of it.
#[verifier::external_body]
fn now_rfc3339() -> String {
    chrono::Utc::now().to_rfc3339()
}

impl RefManager {
    /// A reflog line stamped with the current time.
    pub fn reflog_entry_now(old_hash: &str, new_hash: &str, msg: &str) -> (r: String)
        ensures
            exists|time: Seq<char>| r@ == #[trigger] reflog_text(old_hash@, new_hash@, time, msg@),
    {
        let time = now_rfc3339();
        RefManager::reflog_entry(old_hash, new_hash, time.as_str(), msg)
    }
}

/// Names in ascending order, every name as often as given.
pub open spec fn names_sorted(s: Seq<Seq<char>>) -> bool {
    forall|i: int, j: int| 0 <= i < j < s.len() ==> !lex_lt(#[trigger] s[j], #[trigger] s[i])
}

/// Sorts branch names (`Vec::sort` on strings).
pub fn sort_names(names: Vec<String>) -> (r: Vec<String>)
    ensures
        names_sorted(r.deep_view()),
        r.deep_view().to_multiset() == names.deep_view().to_multiset(),
{
    broadcast use vstd::seq_lib::group_to_multiset_ensures;
    let mut out: Vec<String> = Vec::new();
    let mut i: usize = 0;
    assert(out.deep_view() =~= Seq::<Seq<char>>::empty());
    while i < names.len()
        invariant
            i <= names@.len(),
            names_sorted(out.deep_view()),
            out.deep_view().to_multiset() == names.deep_view().take(i as int).to_multiset(),
        decreases names.len() - i,
    {
        let e = names[i].clone();
        let ghost before = out.deep_view();
        let mut pos: usize = 0;
        while pos < out.len() && !str_lt(e.as_str(), out[pos].as_str())
            invariant
                pos <= out@.len(),
                out.deep_view() == before,
                forall|j: int| 0 <= j < pos ==> !lex_lt(e@, #[trigger] before[j]),
            decreases out.len() - pos,
        {
            pos = pos + 1;
        }
        let ghost ev = e@;
        out.insert(pos, e);
        proof {
            let t = out.deep_view();
            assert(t =~= before.insert(pos as int, ev));
            assert forall|a: int, b: int| 0 <= a < b < t.len() implies !lex_lt(#[trigger] t[b], #[trigger] t[a]) by {
                crate::text::lemma_lex_asymmetric(t[a], t[b]);
                if b < pos {
                    assert(t[a] == before[a] && t[b] == before[b]);
                } else if b == pos {
                    assert(t[a] == before[a]);
                    crate::text::lemma_lex_total(ev, before[a]);
                } else if a == pos {
                    assert(t[b] == before[b - 1]);
                    assert(lex_lt(ev, before[pos as int]));
                    if b - 1 > pos {
                        crate::text::lemma_lex_total(before[pos as int], before[b - 1]);
                        if lex_lt(before[pos as int], before[b - 1]) {
                            crate::text::lemma_lex_transitive(ev, before[pos as int], before[b - 1]);
                        }
                    }
                    crate::text::lemma_lex_asymmetric(ev, before[b - 1]);
                } else if a < pos {
                    assert(t[a] == before[a] && t[b] == before[b - 1]);
                } else {
                    assert(t[a] == before[a - 1] && t[b] == before[b - 1]);
                }
            }
            vstd::seq_lib::to_multiset_insert(before, pos as int, ev);
            assert(names.deep_view().take(i + 1) =~= names.deep_view().take(i as int).push(names.deep_view()[i as int]));
            vstd::seq_lib::to_multiset_build(names.deep_view().take(i as int), names.deep_view()[i as int]);
        }
        i = i + 1;
    }
    proof {
        assert(names.deep_view().take(names@.len() as int) =~= names.deep_view());
    }
    out
}

} // verus!
