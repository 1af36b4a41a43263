use fgit_core::commands::{
    entry_visit, is_internal_dir, EntryVisit,
    bisect_step, bisect_visit, clone_target, commit_identity, confirms, file_status, linked_fgit_dir,
    module_entry, object_links, parse_modules, patch_file_name, rebase_action, reflog_line,
    reflog_lines_newest_first, reset_mode, save_message, save_reflog, tree_changes, worktree_pointer, BisectStep,
    BisectVisit, FileStatus, GcWalk, RebaseAction,
};
use fgit_core::config::UserConfig;
use fgit_core::index::{Index, IndexEntry};
use fgit_core::object::{Blob, Commit, FgitObject, FileMode, Identity, Tree};
use fgit_core::text::replace_all;

#[test]
fn identity_defaults() {
    let empty = UserConfig { name: String::new(), email: String::new() };
    assert_eq!(commit_identity(&empty), ("Unknown".to_string(), "unknown@apexforge.dev".to_string()));
    let set = UserConfig { name: "Neo".to_string(), email: "n@x".to_string() };
    assert_eq!(commit_identity(&set), ("Neo".to_string(), "n@x".to_string()));
}

#[test]
fn save_message_sources() {
    assert_eq!(save_message(Some("m".to_string()), &vec!["a".to_string()]), "m");
    assert_eq!(save_message(None, &vec!["fix".to_string(), "bug".to_string()]), "fix bug");
    assert_eq!(save_message(None, &vec![]), "");
}

#[test]
fn answers() {
    assert!(confirms(" y\n"));
    assert!(confirms("Y"));
    assert!(!confirms("yes"));
    assert_eq!(rebase_action("D\n"), RebaseAction::Drop);
    assert_eq!(rebase_action("squash"), RebaseAction::Squash);
    assert_eq!(rebase_action(""), RebaseAction::Keep);
    assert_eq!(reset_mode(true, false, true), "hard");
    assert_eq!(reset_mode(true, false, false), "soft");
    assert_eq!(reset_mode(false, false, false), "mixed");
}

#[test]
fn status_of_files() {
    let mut idx = Index::new();
    idx.add(IndexEntry { path: "a".to_string(), hash: "h".to_string(), size: 0, mtime: 0, mode: "100644".to_string() });
    assert_eq!(file_status(&idx, "a", "h"), FileStatus::Unchanged);
    assert_eq!(file_status(&idx, "a", "g"), FileStatus::Modified);
    assert_eq!(file_status(&idx, "b", "h"), FileStatus::Untracked);
}

#[test]
fn bisect_decisions() {
    let goods = vec!["g1".to_string()];
    assert!(matches!(bisect_visit(&goods, &"g1".to_string(), &vec![]), BisectVisit::FoundGood));
    assert!(matches!(bisect_visit(&goods, &"x".to_string(), &vec![]), BisectVisit::End));
    match bisect_visit(&goods, &"x".to_string(), &vec!["p".to_string(), "q".to_string()]) {
        BisectVisit::Continue(p) => assert_eq!(p, "p"),
        _ => panic!("expected to go on"),
    }
    assert_eq!(bisect_step(5, false), BisectStep::NotDescendant);
    assert_eq!(bisect_step(1, true), BisectStep::Finished);
    assert_eq!(bisect_step(5, true), BisectStep::Midpoint { index: 2, remaining: 4 });
}

#[test]
fn gc_walk_marks_each_name_once() {
    let mut walk = GcWalk::new(vec!["a".to_string(), "b".to_string(), "a".to_string()]);
    assert_eq!(walk.next(), Some("a".to_string()));
    walk.add_links(vec!["c".to_string(), "a".to_string()]);
    assert_eq!(walk.next(), Some("c".to_string()));
    assert_eq!(walk.next(), Some("b".to_string()));
    assert_eq!(walk.next(), None);
    assert_eq!(walk.reachable, vec!["a", "c", "b"]);
}

#[test]
fn links_of_objects() {
    let c = Commit::new(
        "t".to_string(),
        vec!["p1".to_string(), "p2".to_string()],
        Identity::new("A".to_string(), "a@x".to_string()),
        Identity::new("A".to_string(), "a@x".to_string()),
        "m".to_string(),
    );
    assert_eq!(object_links(&FgitObject::Commit(c)), vec!["t", "p1", "p2"]);
    let mut t = Tree::new();
    t.add_entry(FileMode::Regular, "f".to_string(), "h1".to_string());
    assert_eq!(object_links(&FgitObject::Tree(t)), vec!["h1"]);
    assert!(object_links(&FgitObject::Blob(Blob::new(vec![1]))).is_empty());
}

#[test]
fn reflog_reading() {
    let line = "old new 2024-01-01T00:00:00+00:00 save: first commit".to_string();
    assert_eq!(reflog_line(&line), Some(("new".to_string(), "save: first commit".to_string())));
    assert_eq!(reflog_line(&"a b c".to_string()), None);
    assert_eq!(reflog_lines_newest_first("1\n2\n3\n"), vec!["3", "2", "1"]);
}

#[test]
fn cherry_pick_changes() {
    let parent = vec![("a".to_string(), "1".to_string()), ("b".to_string(), "2".to_string())];
    let cherry = vec![("a".to_string(), "1".to_string()), ("b".to_string(), "3".to_string()), ("c".to_string(), "4".to_string())];
    let (changed, deleted) = tree_changes(&parent, &cherry);
    assert_eq!(changed, vec![("b".to_string(), "3".to_string()), ("c".to_string(), "4".to_string())]);
    assert!(deleted.is_empty());
    let (changed, deleted) = tree_changes(&cherry, &parent);
    assert_eq!(changed, vec![("b".to_string(), "2".to_string())]);
    assert_eq!(deleted, vec!["c"]);
}

#[test]
fn modules_file() {
    let entry = module_entry("lib/x", "/src/x");
    assert_eq!(entry, "\n[submodule \"lib/x\"]\n\tpath = lib/x\n\turl = /src/x\n");
    let text = format!("{}{}", entry, module_entry("y", "/src/y"));
    assert_eq!(
        parse_modules(&text),
        vec![("lib/x".to_string(), "/src/x".to_string()), ("y".to_string(), "/src/y".to_string())]
    );
}

#[test]
fn linked_trees_and_clone_targets() {
    assert_eq!(worktree_pointer("/r/.fgit"), "gitdir: /r/.fgit");
    assert_eq!(linked_fgit_dir("gitdir: /r/.fgit\n"), Some("/r/.fgit".to_string()));
    assert_eq!(linked_fgit_dir("something else"), None);
    assert_eq!(clone_target("/a/b/proj", None), "proj");
    assert_eq!(clone_target("/a/b/proj", Some("here")), "here");
    assert_eq!(clone_target("/", None), "cloned_repo");
}

#[test]
fn patch_names_and_replace() {
    assert_eq!(patch_file_name("Fix the Bug!"), "0001-fix-the-bug.patch");
    assert_eq!(replace_all("a-b-c", "-", "+"), "a+b+c");
    assert_eq!(replace_all("aaa", "aa", "b"), "ba");
}

#[test]
fn tree_walk_visits() {
    let mut t = Tree::new();
    t.add_entry(FileMode::Regular, "a.txt".to_string(), "h1".to_string());
    t.add_entry(FileMode::Directory, "src".to_string(), "h2".to_string());
    t.add_entry(FileMode::Symlink, "ln".to_string(), "h3".to_string());
    t.add_entry(FileMode::Executable, "run.sh".to_string(), "h4".to_string());
    match entry_visit("", &t.entries[0]) {
        EntryVisit::File { path, hash } => assert_eq!((path.as_str(), hash.as_str()), ("a.txt", "h1")),
        v => panic!("unexpected {:?}", v),
    }
    match entry_visit("top/mid", &t.entries[1]) {
        EntryVisit::Dir { path, hash } => assert_eq!((path.as_str(), hash.as_str()), ("top/mid/src", "h2")),
        v => panic!("unexpected {:?}", v),
    }
    assert!(matches!(entry_visit("x", &t.entries[2]), EntryVisit::Skip));
    match entry_visit("bin", &t.entries[3]) {
        EntryVisit::File { path, .. } => assert_eq!(path, "bin/run.sh"),
        v => panic!("unexpected {:?}", v),
    }
}

#[test]
fn walks_and_marks() {
    assert!(is_internal_dir(".fgit"));
    assert!(is_internal_dir(".git"));
    assert!(!is_internal_dir("src"));
    assert!(!is_internal_dir(".fgitignore"));
    let mut walk = GcWalk::new(vec!["r1".to_string()]);
    assert!(!walk.is_reachable("r1"));
    assert_eq!(walk.next(), Some("r1".to_string()));
    assert!(walk.is_reachable("r1"));
    assert!(!walk.is_reachable("r2"));
}

#[test]
fn save_reflog_entries() {
    let (old, msg) = save_reflog(&vec![], "first");
    assert_eq!(old, "0000000000000000");
    assert_eq!(msg, "save: first");
    let (old, msg) = save_reflog(&vec!["abc123".to_string(), "def456".to_string()], "more");
    assert_eq!(old, "abc123");
    assert_eq!(msg, "save: more");
}
