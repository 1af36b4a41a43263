# fgit_core

The core of `fgit`, a small content-addressed version control system
(SHA-256 object names, Zstd-compressed objects, a JSON index, TOML config),
written in Verus: the library's functions state what they return in
contracts, and the contracts are proved (a random key, which nothing but its
length can describe, is the exception).

## Layout

- `src/` — the verified library.
  - `object.rs`: blobs, trees, commits and tags, their canonical bytes, the
    `<type> <size>\0` framing and the object name; reading a stored object
    and a commit text back.
  - `diff.rs`: the Myers search (proved to give a shortest edit script) and
    the grouping of a script into hunks.
  - `merge.rs`: three-way merge with conflict markers.
  - `pack.rs`: Zstd compression and byte deltas.
  - `index.rs`, `config.rs`, `ignore.rs`, `refs.rs`, `stash.rs`, `hooks.rs`,
    `repository.rs`, `network.rs`: the staging index, configuration, ignore
    rules, references, the stash, hooks, trees of the index and the copies
    a push or pull makes.
  - `commands.rs`: the decisions the command line makes (identities,
    bisection, garbage collection marking, reflog reading, cherry-pick
    changes, submodules, patches).
  - `text.rs`, `paths.rs`, `sorting.rs`, `crypto.rs`, `tag.rs`: text and
    path helpers, stable sorting, AES-256-GCM.
- `tests/` — tests of the library on concrete values.
- `app/` — the `fgit` program: argument handling, file system work, serde
  forms of the stored types, terminal output.

Calls into outside crates (SHA-256, hex, Zstd, AES-GCM, regex, chrono,
serde_json) go through small wrappers whose contracts are trusted; each one
says in its doc comment what it claims.
