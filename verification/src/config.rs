//! Repository configuration: user identity, core settings and remotes.
use vstd::prelude::*;
use vstd::string::*;
use crate::merge::string_eq;

verus! {

/// Who commits.
#[derive(Debug)]
pub struct UserConfig {
    pub name: String,
    pub email: String,
}

/// Core settings.
#[derive(Debug)]
pub struct CoreConfig {
    /// Hash algorithm: "sha256" (the only option for now).
    pub hash_algorithm: String,
    /// Compression algorithm: "zstd".
    pub compression: String,
    /// Default branch name.
    pub default_branch: String,
    /// Automatic synchronisation.
    pub auto_sync: bool,
    /// Size in bytes above which committing a file warns.
    pub large_file_threshold: u64,
}

/// A remote repository.
#[derive(Debug)]
pub struct RemoteConfig {
    pub url: String,
    pub fetch: Option<String>,
}

/// The whole configuration.  Remotes are kept by name, in the order they
/// were added; a name is looked up at its first occurrence.
#[derive(Debug)]
pub struct FgitConfig {
    pub user: UserConfig,
    pub core: CoreConfig,
    pub remote: Vec<(String, RemoteConfig)>,
}

impl Clone for UserConfig {
    fn clone(&self) -> (r: Self)
        ensures
            r == *self,
    {
        UserConfig { name: self.name.clone(), email: self.email.clone() }
    }
}

impl Clone for CoreConfig {
    fn clone(&self) -> (r: Self)
        ensures
            r == *self,
    {
        CoreConfig {
            hash_algorithm: self.hash_algorithm.clone(),
            compression: self.compression.clone(),
            default_branch: self.default_branch.clone(),
            auto_sync: self.auto_sync,
            large_file_threshold: self.large_file_threshold,
        }
    }
}

impl Clone for RemoteConfig {
    fn clone(&self) -> (r: Self)
        ensures
            r == *self,
    {
        let fetch = match &self.fetch {
            Some(f) => Some(f.clone()),
            None => None,
        };
        RemoteConfig { url: self.url.clone(), fetch }
    }
}

/// The remote called `name` in `s` (its first occurrence).
pub open spec fn remote_lookup(s: Seq<(String, RemoteConfig)>, name: Seq<char>) -> Option<RemoteConfig>
    decreases s.len(),
{
    if s.len() == 0 {
        None
    } else if s[0].0@ == name {
        Some(s[0].1)
    } else {
        remote_lookup(s.drop_first(), name)
    }
}

/// Each remote name occurs once.
pub open spec fn names_unique(s: Seq<(String, RemoteConfig)>) -> bool {
    forall|i: int, j: int| 0 <= i < j < s.len() ==> #[trigger] s[i].0@ != #[trigger] s[j].0@
}

/// The remotes of `s` not called `name`, in order.
pub open spec fn without_remote(s: Seq<(String, RemoteConfig)>, name: Seq<char>) -> Seq<(String, RemoteConfig)>
    decreases s.len(),
{
    if s.len() == 0 {
        s
    } else {
        let r = without_remote(s.drop_last(), name);
        if s.last().0@ != name {
            r.push(s.last())
        } else {
            r
        }
    }
}

proof fn lemma_lookup_append(a: Seq<(String, RemoteConfig)>, b: Seq<(String, RemoteConfig)>, n: Seq<char>)
    ensures
        remote_lookup(a + b, n) == match remote_lookup(a, n) {
            Some(c) => Some(c),
            None => remote_lookup(b, n),
        },
    decreases a.len(),
{
    if a.len() > 0 {
        assert((a + b).drop_first() =~= a.drop_first() + b);
        lemma_lookup_append(a.drop_first(), b, n);
    } else {
        assert(a + b =~= b);
    }
}

proof fn lemma_lookup_single(x: (String, RemoteConfig), n: Seq<char>)
    ensures
        remote_lookup(seq![x], n) == if x.0@ == n { Some(x.1) } else { None },
{
    reveal_with_fuel(remote_lookup, 2);
    assert(seq![x].drop_first() =~= Seq::<(String, RemoteConfig)>::empty());
}

proof fn lemma_without_remote(s: Seq<(String, RemoteConfig)>, name: Seq<char>)
    ensures
        remote_lookup(without_remote(s, name), name) is None,
        forall|n: Seq<char>| n != name ==> #[trigger] remote_lookup(without_remote(s, name), n) == remote_lookup(s, n),
        without_remote(s, name).len() <= s.len(),
        (without_remote(s, name).len() < s.len()) == (remote_lookup(s, name) is Some),
        names_unique(s) ==> names_unique(without_remote(s, name)),
        forall|i: int| 0 <= i < without_remote(s, name).len() ==> #[trigger] without_remote(s, name)[i].0@ != name,
        forall|x: (String, RemoteConfig)| #[trigger] without_remote(s, name).contains(x) ==> s.contains(x),
    decreases s.len(),
{
    if s.len() > 0 {
        let d = s.drop_last();
        let x = s.last();
        lemma_without_remote(d, name);
        let r = without_remote(d, name);
        assert(s =~= d + seq![x]);
        lemma_lookup_append(d, seq![x], name);
        lemma_lookup_single(x, name);
        let w = without_remote(s, name);
        if x.0@ != name {
            assert(w == r + seq![x]);
            lemma_lookup_append(r, seq![x], name);
            assert forall|n: Seq<char>| n != name implies #[trigger] remote_lookup(w, n) == remote_lookup(s, n) by {
                lemma_lookup_append(r, seq![x], n);
                lemma_lookup_append(d, seq![x], n);
                lemma_lookup_single(x, n);
            }
        } else {
            assert forall|n: Seq<char>| n != name implies #[trigger] remote_lookup(w, n) == remote_lookup(s, n) by {
                lemma_lookup_append(d, seq![x], n);
                lemma_lookup_single(x, n);
            }
        }
        assert forall|y: (String, RemoteConfig)| #[trigger] w.contains(y) implies s.contains(y) by {
            let k = choose|k: int| 0 <= k < w.len() && w[k] == y;
            if k < r.len() {
                assert(r[k] == y);
                assert(r.contains(y));
                let k2 = choose|k2: int| 0 <= k2 < d.len() && d[k2] == y;
                assert(s[k2] == y);
            } else {
                assert(s[s.len() - 1] == y);
            }
        }
        if names_unique(s) {
            assert(names_unique(d));
            if x.0@ != name {
                assert forall|i: int, j: int| 0 <= i < j < w.len() implies #[trigger] w[i].0@ != #[trigger] w[j].0@ by {
                    if j == w.len() - 1 {
                        assert(w[i] == r[i]);
                        assert(r.contains(w[i]));
                        let k = choose|k: int| 0 <= k < d.len() && d[k] == w[i];
                        assert(s[k] == d[k]);
                    } else {
                        assert(w[i] == r[i] && w[j] == r[j]);
                    }
                }
            }
        }
        assert forall|i: int| 0 <= i < w.len() implies #[trigger] w[i].0@ != name by {
            if i < r.len() {
                assert(w[i] == r[i]);
            }
        }
    }
}

/// The remotes of `v` not called `name`, in order.
fn filter_remotes(v: &Vec<(String, RemoteConfig)>, name: &str) -> (r: Vec<(String, RemoteConfig)>)
    ensures
        r@ == without_remote(v@, name@),
{
    let key = String::from_str(name);
    let mut out: Vec<(String, RemoteConfig)> = Vec::new();
    let mut i: usize = 0;
    while i < v.len()
        invariant
            i <= v@.len(),
            key@ == name@,
            out@ == without_remote(v@.take(i as int), name@),
        decreases v.len() - i,
    {
        assert(v@.take(i + 1).drop_last() =~= v@.take(i as int));
        if !string_eq(&v[i].0, &key) {
            out.push((v[i].0.clone(), v[i].1.clone()));
        }
        i = i + 1;
    }
    assert(v@.take(v@.len() as int) =~= v@);
    out
}

impl FgitConfig {
    /// The remotes each occur once.
    pub open spec fn wf(&self) -> bool {
        names_unique(self.remote@)
    }

    /// The default configuration: empty user, SHA-256, Zstd, branch "main",
    /// no automatic sync, 50 MiB large-file threshold, no remotes.
    pub fn default() -> (r: FgitConfig)
        ensures
            r.user.name@ == Seq::<char>::empty(),
            r.user.email@ == Seq::<char>::empty(),
            r.core.hash_algorithm@ == "sha256"@,
            r.core.compression@ == "zstd"@,
            r.core.default_branch@ == "main"@,
            !r.core.auto_sync,
            r.core.large_file_threshold == 50 * 1024 * 1024,
            r.remote@.len() == 0,
            r.wf(),
    {
        FgitConfig {
            user: UserConfig { name: String::new(), email: String::new() },
            core: CoreConfig {
                hash_algorithm: String::from_str("sha256"),
                compression: String::from_str("zstd"),
                default_branch: String::from_str("main"),
                auto_sync: false,
                large_file_threshold: 50 * 1024 * 1024,
            },
            remote: Vec::new(),
        }
    }

    /// Sets the user name and email.
    pub fn set_user(&mut self, name: String, email: String)
        ensures
            final(self).user.name == name,
            final(self).user.email == email,
            final(self).core == old(self).core,
            final(self).remote == old(self).remote,
    {
        self.user.name = name;
        self.user.email = email;
    }

    /// Adds the remote `name` with `url`, replacing one of that name.
    pub fn add_remote(&mut self, name: String, url: String)
        ensures
            final(self).user == old(self).user,
            final(self).core == old(self).core,
            remote_lookup(final(self).remote@, name@) == Some(RemoteConfig { url, fetch: None }),
            forall|n: Seq<char>|
                n != name@ ==> #[trigger] remote_lookup(final(self).remote@, n) == remote_lookup(
                    old(self).remote@,
                    n,
                ),
            old(self).wf() ==> final(self).wf(),
    {
        let ghost old_r = self.remote@;
        let mut kept = filter_remotes(&self.remote, name.as_str());
        proof {
            lemma_without_remote(old_r, name@);
        }
        let ghost k = kept@;
        let ghost nm = name@;
        let cfg = RemoteConfig { url, fetch: None };
        let ghost c = cfg;
        let ghost x = (name, cfg);
        kept.push((name, cfg));
        proof {
            assert(kept@ =~= k + seq![x]);
            lemma_lookup_append(k, seq![x], nm);
            lemma_lookup_single(x, nm);
            assert forall|n: Seq<char>| n != nm implies #[trigger] remote_lookup(kept@, n) == remote_lookup(old_r, n) by {
                lemma_lookup_append(k, seq![x], n);
                lemma_lookup_single(x, n);
            }
            if names_unique(old_r) {
                assert forall|i: int, j: int| 0 <= i < j < kept@.len() implies #[trigger] kept@[i].0@ != #[trigger] kept@[j].0@ by {
                    if j == kept@.len() - 1 {
                        assert(kept@[i] == k[i]);
                    } else {
                        assert(kept@[i] == k[i] && kept@[j] == k[j]);
                    }
                }
            }
        }
        self.remote = kept;
    }

    /// Removes the remote `name`; true when there was one.
    pub fn remove_remote(&mut self, name: &str) -> (r: bool)
        ensures
            final(self).user == old(self).user,
            final(self).core == old(self).core,
            r == (remote_lookup(old(self).remote@, name@) is Some),
            remote_lookup(final(self).remote@, name@) is None,
            forall|n: Seq<char>|
                n != name@ ==> #[trigger] remote_lookup(final(self).remote@, n) == remote_lookup(
                    old(self).remote@,
                    n,
                ),
            old(self).wf() ==> final(self).wf(),
    {
        let before = self.remote.len();
        let kept = filter_remotes(&self.remote, name);
        proof {
            lemma_without_remote(self.remote@, name@);
        }
        self.remote = kept;
        self.remote.len() < before
    }

    /// The remote called `name`.
    pub fn get_remote(&self, name: &str) -> (r: Option<&RemoteConfig>)
        ensures
            r matches Some(c) ==> remote_lookup(self.remote@, name@) == Some(*c),
            r is None ==> remote_lookup(self.remote@, name@) is None,
    {
        let key = String::from_str(name);
        let mut i: usize = 0;
        let ghost s = self.remote@;
        assert(s.skip(0) =~= s);
        while i < self.remote.len()
            invariant
                i <= s.len(),
                s == self.remote@,
                key@ == name@,
                remote_lookup(s, name@) == remote_lookup(s.skip(i as int), name@),
            decreases s.len() - i,
        {
            if string_eq(&self.remote[i].0, &key) {
                return Some(&self.remote[i].1);
            }
            assert(s.skip(i as int).drop_first() =~= s.skip(i + 1));
            i = i + 1;
        }
        None
    }
}

} // verus!
