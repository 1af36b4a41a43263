//! Hooks: scripts in the hooks directory run before certain commands.
use vstd::prelude::*;
use crate::paths::{path_join, join_path};
use crate::text::{signed_decimal, push_str, push_signed_decimal};

verus! {

/// Finds hook scripts in the hooks directory of a repository.
pub struct HookManager {
    hooks_dir: String,
}

impl HookManager {
    /// The directory the hooks live in.
    pub closed spec fn dir(&self) -> Seq<char> {
        self.hooks_dir@
    }

    /// The manager of the `hooks` directory below `fgit_dir`.
    pub fn new(fgit_dir: &str) -> (r: HookManager)
        ensures
            r.dir() == path_join(fgit_dir@, "hooks"@),
    {
        HookManager { hooks_dir: join_path(fgit_dir, "hooks") }
    }

    /// The directory the hooks live in.
    pub fn hooks_dir(&self) -> (r: String)
        ensures
            r@ == self.dir(),
    {
        self.hooks_dir.clone()
    }

    /// Where the script of a hook lies.
    pub fn hook_path(&self, hook_name: &str) -> (r: String)
        ensures
            r@ == path_join(self.dir(), hook_name@),
    {
        join_path(self.hooks_dir.as_str(), hook_name)
    }
}

/// A file mode lets someone execute the file (`mode & 0o111 != 0`).
pub fn is_executable_mode(mode: u32) -> (r: bool)
    ensures
        r == (mode & 0o111u32 != 0),
{
    mode & 0o111u32 != 0
}

/// What a failed hook reports: its name and exit code (-1 where the
/// process gave none).
pub open spec fn hook_failure_text(hook_name: Seq<char>, code: Option<i32>) -> Seq<char> {
    "Hook '"@ + hook_name + "' failed with status: "@ + signed_decimal(
        match code {
            Some(c) => c as int,
            None => -1,
        },
    )
}

pub fn hook_failure_message(hook_name: &str, code: Option<i32>) -> (r: String)
    ensures
        r@ == hook_failure_text(hook_name@, code),
{
    let mut s = String::new();
    push_str(&mut s, "Hook '");
    push_str(&mut s, hook_name);
    push_str(&mut s, "' failed with status: ");
    let c: i64 = match code {
        Some(c) => c as i64,
        None => -1,
    };
    push_signed_decimal(&mut s, c);
    s
}

} // verus!
