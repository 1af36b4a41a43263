//! Paths held as strings, joined as `std::path::Path::join` joins them.
use vstd::prelude::*;
use vstd::string::*;
use crate::text::{starts_with, ends_with, push_str};

verus! {

/// `Path::new(base).join(part)` on Unix, as a string: an absolute `part`
/// (one starting with `/`) replaces `base`; otherwise `part` follows
/// `base`, with a `/` between them unless `base` is empty or already ends
/// in `/`.
pub open spec fn path_join(base: Seq<char>, part: Seq<char>) -> Seq<char> {
    if part.len() > 0 && part[0] == '/' {
        part
    } else if base.len() == 0 || base.last() == '/' {
        base + part
    } else {
        base + seq!['/'] + part
    }
}

/// `Path::join` on paths held as strings (`path_join`).
pub(crate) fn join_path(base: &str, part: &str) -> (r: String)
    ensures
        r@ == path_join(base@, part@),
{
    proof {
        reveal_strlit("/");
        assert("/"@ =~= seq!['/']);
    }
    if starts_with(part, "/") {
        proof {
            assert(part@.subrange(0, 1)[0] == part@[0]);
            assert(seq!['/'][0] == '/');
        }
        return String::from_str(part);
    }
    let mut r = String::from_str(base);
    if base.unicode_len() > 0 && !ends_with(base, "/") {
        push_str(&mut r, "/");
    }
    push_str(&mut r, part);
    proof {
        if part@.len() > 0 && part@[0] == '/' {
            assert(seq!['/'].is_prefix_of(part@)) by {
                assert(part@.take(1) =~= seq!['/']);
            }
        }
        if base@.len() > 0 {
            let n = base@.len() as int;
            assert(base@.subrange(n - 1, n)[0] == base@.last());
            assert(seq!['/'][0] == '/');
            if base@.last() == '/' {
                assert(base@.subrange(n - 1, n) =~= seq!['/']);
            }
            assert(seq!['/'].is_suffix_of(base@) == (base@.last() == '/'));
        }
    }
    r
}

/// The strings of `Path::new(path).ancestors()`, in order.
pub uninterp spec fn path_ancestors(path: Seq<char>) -> Seq<Seq<char>>;

/// `Path::new(path).file_name()`, as a string.
pub uninterp spec fn path_file_name(path: Seq<char>) -> Option<Seq<char>>;

/// The ancestors of a path (`Path::ancestors`), each as a string.
#[verifier::external_body]
pub(crate) fn ancestors_of(path: &str) -> (r: Vec<String>)
    ensures
        r.deep_view() == path_ancestors(path@),
{
    std::path::Path::new(path).ancestors().map(|a| a.to_string_lossy().into_owned()).collect()
}

/// The last component of a path (`Path::file_name`), as a string.
#[verifier::external_body]
pub(crate) fn file_name_of(path: &str) -> (r: Option<String>)
    ensures
        match r {
            Some(f) => path_file_name(path@) == Some(f@),
            None => path_file_name(path@) is None,
        },
{
    std::path::Path::new(path).file_name().map(|f| f.to_string_lossy().into_owned())
}

} // verus!
