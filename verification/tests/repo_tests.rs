use fgit_core::hooks::{hook_failure_message, is_executable_mode, HookManager};
use fgit_core::index::{Index, IndexEntry};
use fgit_core::network::NetworkEngine;
use fgit_core::object::{FgitObject, FileMode, Tree};
use fgit_core::refs::{sort_names, HeadTarget, RefManager};
use fgit_core::repository::{default_ignore_text, RepoError, Repository};
use fgit_core::stash::StashManager;

fn repo() -> Repository {
    Repository { workdir: "/work".to_string(), fgit_dir: "/work/.fgit".to_string() }
}

fn entry(path: &str, hash: &str) -> IndexEntry {
    IndexEntry { path: path.to_string(), hash: hash.to_string(), size: 1, mtime: 0, mode: "100644".to_string() }
}

#[test]
fn test_current_branch() {
    let refs = repo().refs();
    assert_eq!(refs.current_branch("ref: refs/heads/main\n"), Some("main".to_string()));
    assert_eq!(refs.current_branch("0123abcd\n"), None);
}

#[test]
fn head_targets_and_texts() {
    match RefManager::head_target("ref: refs/heads/dev\n") {
        HeadTarget::Ref(p) => assert_eq!(p, "refs/heads/dev"),
        _ => panic!("expected a reference"),
    }
    match RefManager::head_target("  abc \n") {
        HeadTarget::Detached(h) => assert_eq!(h, "abc"),
        _ => panic!("expected a detached head"),
    }
    assert_eq!(RefManager::branch_head_text("main"), "ref: refs/heads/main\n");
    assert_eq!(RefManager::hash_line("abc"), "abc\n");
    assert_eq!(RefManager::reflog_entry("a", "b", "t", "m"), "a b t m\n");
    assert_eq!(repo().refs().branch_path("feature"), "/work/.fgit/refs/heads/feature");
    assert_eq!(repo().refs().head_path(), "/work/.fgit/HEAD");
}

#[test]
fn test_cannot_delete_current_branch() {
    assert_eq!(
        RefManager::check_delete(Some("main"), "main").unwrap_err(),
        "Cannot delete current branch 'main'"
    );
    assert!(RefManager::check_delete(Some("main"), "temp").is_ok());
    assert!(RefManager::check_delete(None, "main").is_ok());
}

#[test]
fn test_list_branches() {
    let names = vec!["beta".to_string(), "alpha".to_string()];
    assert_eq!(sort_names(names), vec!["alpha", "beta"]);
}

#[test]
fn test_auto_detect_rust_ignore() {
    let text = default_ignore_text(true, false, false, false);
    assert!(text.contains("target/"));
    assert!(text.starts_with("# ═══"));
    assert!(text.ends_with("size:>50mb\n"));
    let plain = default_ignore_text(false, false, false, false);
    assert!(!plain.contains("target/"));
    assert!(default_ignore_text(false, true, true, true).contains("node_modules/"));
    assert!(default_ignore_text(false, false, true, false).contains("__pycache__/"));
    assert!(default_ignore_text(false, false, false, true).contains("vendor/"));
}

#[test]
fn repo_paths_and_errors() {
    let r = repo();
    assert_eq!(r.object_path("abcdef").unwrap(), "/work/.fgit/objects/ab/cdef");
    assert!(r.object_path("abc").is_none());
    assert_eq!(r.hooks().hook_path("pre-save"), "/work/.fgit/hooks/pre-save");
    assert_eq!(HookManager::new("/x").hooks_dir(), "/x/hooks");
    assert_eq!(RepoError::NotARepository("/tmp".to_string()).message(), "Not an fgit repository (or any parent): /tmp");
    assert_eq!(RepoError::ObjectNotFound("ab".to_string()).message(), "Object not found: ab");
    assert_eq!(RepoError::General("plain".to_string()).message(), "plain");
}

#[test]
fn hooks_helpers() {
    assert!(is_executable_mode(0o755));
    assert!(!is_executable_mode(0o644));
    assert_eq!(hook_failure_message("pre-save", Some(1)), "Hook 'pre-save' failed with status: 1");
    assert_eq!(hook_failure_message("h", None), "Hook 'h' failed with status: -1");
}

#[test]
fn stash_numbering() {
    let names = vec!["3.json".to_string(), "x.json".to_string(), "10.json".to_string(), "7.txt".to_string()];
    assert_eq!(StashManager::latest_id(&names), Some(10));
    assert_eq!(StashManager::latest_id(&vec![]), None);
    assert_eq!(StashManager::next_id(Some(10)), 11);
    assert_eq!(StashManager::next_id(None), 0);
    let m = StashManager::new("/r/.fgit");
    assert_eq!(m.entry_path(4), "/r/.fgit/stash/4.json");
    let a = StashManager::new_entry(2, "second", vec![]);
    let b = StashManager::new_entry(1, "first", vec![]);
    let sorted = StashManager::sort_by_id(vec![a, b]);
    assert_eq!(sorted[0].message, "first");
    assert_eq!(sorted[1].id, 2);
}

#[test]
fn network_remote_kind() {
    assert!(NetworkEngine::is_http_remote("https://forge.dev/repo"));
    assert!(NetworkEngine::is_http_remote("http://x"));
    assert!(!NetworkEngine::is_http_remote("/mnt/backup"));
}

#[test]
fn build_trees_of_index() {
    let mut idx = Index::new();
    idx.add(entry("src/main.rs", "h1"));
    idx.add(entry("README.md", "h2"));
    idx.add(entry("src/util/x.rs", "h3"));
    let (root, trees) = repo().build_tree_from_index(&idx);
    assert_eq!(trees.len(), 3);
    assert_eq!(trees[0].entries.len(), 1);
    assert_eq!(trees[0].entries[0].name, "x.rs");
    assert_eq!(trees[1].entries[0].name, "util");
    assert_eq!(trees[1].entries[0].mode, FileMode::Directory);
    assert_eq!(trees[1].entries[1].name, "main.rs");
    assert_eq!(trees[2].entries[0].name, "src");
    assert_eq!(trees[2].entries[1].name, "README.md");
    let mut again = Tree::new();
    for e in &trees[2].entries {
        again.add_entry(e.mode, e.name.clone(), e.hash.clone());
    }
    assert_eq!(root, FgitObject::Tree(again).hash());
    let sub = FgitObject::Tree(Tree { entries: trees[1].entries.clone() }).hash();
    assert_eq!(trees[2].entries[0].hash, sub);
}

#[test]
fn head_and_hash_files_read_back() {
    let text = RefManager::branch_head_text("feature/x");
    assert_eq!(repo().refs().current_branch(&text), Some("feature/x".to_string()));
    let line = RefManager::hash_line("0123abcd");
    assert_eq!(RefManager::read_hash(&line), "0123abcd");
    assert_eq!(RefManager::read_hash("  ff\r\n"), "ff");
}

#[test]
fn next_stash_id_is_fresh() {
    let names = vec!["0.json".to_string(), "12.json".to_string(), "5.json".to_string(), "note.json".to_string()];
    let next = StashManager::next_id(StashManager::latest_id(&names));
    assert_eq!(next, 13);
    assert!(["0", "12", "5"].iter().all(|n| n.parse::<u32>().unwrap() < next));
}

#[test]
fn push_and_pull_copy_plans() {
    let pulled = NetworkEngine::pull("/here/.fgit", "/there/.fgit");
    assert_eq!(
        pulled,
        vec![
            ("/there/.fgit/objects".to_string(), "/here/.fgit/objects".to_string()),
            ("/there/.fgit/refs/heads".to_string(), "/here/.fgit/refs/remotes/origin".to_string()),
            ("/there/.fgit/refs/tags".to_string(), "/here/.fgit/refs/tags".to_string()),
        ]
    );
    let pushed = NetworkEngine::push("/here/.fgit", "/there/.fgit");
    assert_eq!(pushed[0], ("/here/.fgit/objects".to_string(), "/there/.fgit/objects".to_string()));
    assert_eq!(pushed[1], ("/here/.fgit/refs/heads".to_string(), "/there/.fgit/refs/heads".to_string()));
    assert_eq!(pushed[2], ("/here/.fgit/refs/tags".to_string(), "/there/.fgit/refs/tags".to_string()));
}

#[test]
fn test_create_and_resolve_branch() {
    let contents = RefManager::hash_line("abc123");
    assert_eq!(RefManager::read_hash(&contents), "abc123".to_string());
}

#[test]
fn test_init_head_points_to_main() {
    let head = RefManager::branch_head_text("main");
    assert_eq!(head.trim(), "ref: refs/heads/main");
    assert_eq!(repo().refs().current_branch(&head), Some("main".to_string()));
}

#[test]
fn reflog_entry_is_stamped() {
    let e = RefManager::reflog_entry_now("old1", "new2", "save: first");
    assert!(e.starts_with("old1 new2 "));
    assert!(e.ends_with(" save: first\n"));
    let time = &e["old1 new2 ".len()..e.len() - " save: first\n".len()];
    assert!(!time.is_empty() && !time.contains(' '));
}

#[test]
fn path_joining() {
    assert_eq!(RefManager::new("/r/".to_string()).head_path(), "/r/HEAD");
    assert_eq!(RefManager::new(String::new()).head_path(), "HEAD");
    assert_eq!(HookManager::new("/r/.fgit").hook_path("/abs/hook"), "/abs/hook");
    assert_eq!(HookManager::new("/r/.fgit").hook_path("pre-save"), "/r/.fgit/hooks/pre-save");
}
