//! Synchronising with remotes.  This module decides how a remote is
//! reached and which directories a push or a pull copies where; copying
//! the files (and keeping those already there) is left to the caller.
use vstd::prelude::*;
use vstd::string::*;
use crate::text::starts_with;
use crate::paths::{path_join, join_path};

verus! {

/// Synchronisation with remotes.
pub struct NetworkEngine;

pub open spec fn http_prefix() -> Seq<char> {
    seq!['h', 't', 't', 'p', ':', '/', '/']
}

pub open spec fn https_prefix() -> Seq<char> {
    seq!['h', 't', 't', 'p', 's', ':', '/', '/']
}

/// Copies as `(from, to)` directory pairs, as plain text.
pub open spec fn copies_view(cs: Seq<(String, String)>) -> Seq<(Seq<char>, Seq<char>)> {
    cs.map_values(|c: (String, String)| (c.0@, c.1@))
}

/// What a pull copies: the remote's objects into ours, its branches into
/// `refs/remotes/origin`, its tags into our tags.
pub open spec fn pull_copies(fgit_dir: Seq<char>, remote_fgit: Seq<char>) -> Seq<(Seq<char>, Seq<char>)> {
    seq![
        (path_join(remote_fgit, "objects"@), path_join(fgit_dir, "objects"@)),
        (path_join(remote_fgit, "refs/heads"@), path_join(fgit_dir, "refs/remotes/origin"@)),
        (path_join(remote_fgit, "refs/tags"@), path_join(fgit_dir, "refs/tags"@)),
    ]
}

/// What a push copies: our objects, branches and tags into the remote's.
pub open spec fn push_copies(fgit_dir: Seq<char>, remote_fgit: Seq<char>) -> Seq<(Seq<char>, Seq<char>)> {
    seq![
        (path_join(fgit_dir, "objects"@), path_join(remote_fgit, "objects"@)),
        (path_join(fgit_dir, "refs/heads"@), path_join(remote_fgit, "refs/heads"@)),
        (path_join(fgit_dir, "refs/tags"@), path_join(remote_fgit, "refs/tags"@)),
    ]
}

fn copy_pair(from_dir: &str, from: &str, to_dir: &str, to: &str) -> (r: (String, String))
    ensures
        r.0@ == path_join(from_dir@, from@),
        r.1@ == path_join(to_dir@, to@),
{
    (join_path(from_dir, from), join_path(to_dir, to))
}

impl NetworkEngine {
    /// The directories a pull from the repository directory `remote_fgit`
    /// copies into `fgit_dir`, in order.
    pub fn pull(fgit_dir: &str, remote_fgit: &str) -> (r: Vec<(String, String)>)
        ensures
            copies_view(r@) == pull_copies(fgit_dir@, remote_fgit@),
    {
        let mut r = Vec::new();
        r.push(copy_pair(remote_fgit, "objects", fgit_dir, "objects"));
        r.push(copy_pair(remote_fgit, "refs/heads", fgit_dir, "refs/remotes/origin"));
        r.push(copy_pair(remote_fgit, "refs/tags", fgit_dir, "refs/tags"));
        assert(copies_view(r@) =~= pull_copies(fgit_dir@, remote_fgit@));
        r
    }

    /// The directories a push copies from `fgit_dir` into the repository
    /// directory `remote_fgit`, in order.
    pub fn push(fgit_dir: &str, remote_fgit: &str) -> (r: Vec<(String, String)>)
        ensures
            copies_view(r@) == push_copies(fgit_dir@, remote_fgit@),
    {
        let mut r = Vec::new();
        r.push(copy_pair(fgit_dir, "objects", remote_fgit, "objects"));
        r.push(copy_pair(fgit_dir, "refs/heads", remote_fgit, "refs/heads"));
        r.push(copy_pair(fgit_dir, "refs/tags", remote_fgit, "refs/tags"));
        assert(copies_view(r@) =~= push_copies(fgit_dir@, remote_fgit@));
        r
    }

    /// Whether a remote is reached over HTTP (`http://` or `https://`)
    /// rather than as a local path.
    pub fn is_http_remote(remote: &str) -> (r: bool)
        ensures
            r == (http_prefix().is_prefix_of(remote@) || https_prefix().is_prefix_of(remote@)),
    {
        proof {
            reveal_strlit("http://");
            reveal_strlit("https://");
            assert("http://"@ =~= http_prefix());
            assert("https://"@ =~= https_prefix());
        }
        starts_with(remote, "http://") || starts_with(remote, "https://")
    }
}

} // verus!
