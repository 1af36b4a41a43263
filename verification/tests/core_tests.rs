use fgit_core::config::FgitConfig;
use fgit_core::diff::{DiffEngine, DiffLineType};
use fgit_core::index::{Index, IndexEntry};
use fgit_core::merge::{MergeEngine, MergeResult};
use fgit_core::pack::{DeltaOp, PackEngine};

fn make_entry(path: &str, hash: &str) -> IndexEntry {
    IndexEntry {
        path: path.to_string(),
        hash: hash.to_string(),
        size: 100,
        mtime: 1234567890,
        mode: "100644".to_string(),
    }
}

#[test]
fn test_default_config() {
    let config = FgitConfig::default();
    assert_eq!(config.core.hash_algorithm, "sha256");
    assert_eq!(config.core.compression, "zstd");
    assert_eq!(config.core.default_branch, "main");
    assert!(!config.core.auto_sync);
}

#[test]
fn test_add_remove_remote() {
    let mut config = FgitConfig::default();
    config.add_remote("origin".to_string(), "https://example.com".to_string());
    assert!(config.get_remote("origin").is_some());

    config.remove_remote("origin");
    assert!(config.get_remote("origin").is_none());
}

#[test]
fn config_add_remote_replaces_url() {
    let mut config = FgitConfig::default();
    config.add_remote("origin".to_string(), "https://a.example".to_string());
    config.add_remote("origin".to_string(), "https://b.example".to_string());
    assert_eq!(config.get_remote("origin").unwrap().url, "https://b.example");
    assert!(config.remove_remote("origin"));
    assert!(!config.remove_remote("origin"));
}

#[test]
fn config_set_user() {
    let mut config = FgitConfig::default();
    config.set_user("Neo".to_string(), "neo@apexforge.dev".to_string());
    assert_eq!(config.user.name, "Neo");
    assert_eq!(config.user.email, "neo@apexforge.dev");
}

#[test]
fn test_identical_no_diff() {
    let hunks = DiffEngine::diff("hello\nworld\n", "hello\nworld\n");
    assert!(hunks.is_empty() || hunks.iter().all(|h|
        h.lines.iter().all(|l| l.line_type == DiffLineType::Context)));
}

#[test]
fn test_added_line() {
    let hunks = DiffEngine::diff("line1\n", "line1\nline2\n");
    assert!(!hunks.is_empty());
    let has_add = hunks.iter().any(|h|
        h.lines.iter().any(|l| l.line_type == DiffLineType::Added));
    assert!(has_add);
}

#[test]
fn test_removed_line() {
    let hunks = DiffEngine::diff("line1\nline2\n", "line1\n");
    let has_remove = hunks.iter().any(|h|
        h.lines.iter().any(|l| l.line_type == DiffLineType::Removed));
    assert!(has_remove);
}

#[test]
fn test_word_diff() {
    let result = DiffEngine::word_diff("hello world", "hello rust world");
    assert!(result.iter().any(|r| r.0 == DiffLineType::Added && r.1 == "rust"));
}

#[test]
fn diff_identical_gives_no_hunks() {
    assert!(DiffEngine::diff("a\nb\nc\n", "a\nb\nc\n").is_empty());
    assert!(DiffEngine::diff("", "").is_empty());
}

#[test]
fn diff_hunk_numbers_and_text() {
    let hunks = DiffEngine::diff("a\nb\nc\n", "a\nx\nc\n");
    assert_eq!(hunks.len(), 1);
    let h = &hunks[0];
    assert_eq!(h.old_start, 0);
    assert_eq!(h.new_start, 0);
    assert_eq!(h.old_count, 2);
    assert_eq!(h.new_count, 2);
    assert_eq!(h.lines.len(), 3);
    assert_eq!(h.lines[0].line_type, DiffLineType::Removed);
    assert_eq!(h.lines[0].content, "b");
    assert_eq!(h.lines[0].old_lineno, Some(2));
    assert_eq!(h.lines[1].line_type, DiffLineType::Added);
    assert_eq!(h.lines[1].content, "x");
    assert_eq!(h.lines[1].new_lineno, Some(2));
    assert_eq!(h.lines[2].line_type, DiffLineType::Context);
    assert_eq!(h.to_string(), "@@ -0,2 +0,2 @@\n-b\n+x\n c\n");
}

#[test]
fn diff_from_empty() {
    let hunks = DiffEngine::diff("", "one\ntwo\n");
    assert_eq!(hunks.len(), 1);
    assert_eq!(hunks[0].new_count, 2);
    assert_eq!(hunks[0].old_count, 0);
    assert!(hunks[0].lines.iter().all(|l| l.line_type == DiffLineType::Added));
}

#[test]
fn word_diff_identical_is_all_context() {
    let result = DiffEngine::word_diff("same words here", "same words here");
    assert_eq!(result.len(), 3);
    assert!(result.iter().all(|r| r.0 == DiffLineType::Context));
}

#[test]
fn test_add_and_get() {
    let mut idx = Index::new();
    idx.add(make_entry("src/main.rs", "abc123"));
    assert_eq!(idx.len(), 1);
    assert!(idx.contains("src/main.rs"));
}

#[test]
fn test_update_existing() {
    let mut idx = Index::new();
    idx.add(make_entry("f.txt", "h1"));
    idx.add(make_entry("f.txt", "h2"));
    assert_eq!(idx.len(), 1);
    assert_eq!(idx.get("f.txt").unwrap().hash, "h2");
}

#[test]
fn test_remove() {
    let mut idx = Index::new();
    idx.add(make_entry("f.txt", "h1"));
    assert!(idx.remove("f.txt"));
    assert!(!idx.contains("f.txt"));
}

#[test]
fn test_diff_with() {
    let mut old = Index::new();
    old.add(make_entry("keep.txt", "same"));
    old.add(make_entry("mod.txt", "old"));
    old.add(make_entry("del.txt", "del"));

    let mut new = Index::new();
    new.add(make_entry("keep.txt", "same"));
    new.add(make_entry("mod.txt", "new"));
    new.add(make_entry("add.txt", "add"));

    let diff = old.diff_with(&new);
    assert_eq!(diff.added, vec!["add.txt"]);
    assert_eq!(diff.modified, vec!["mod.txt"]);
    assert_eq!(diff.deleted, vec!["del.txt"]);
}

#[test]
fn index_keeps_paths_sorted() {
    let mut idx = Index::new();
    idx.add(make_entry("b.txt", "1"));
    idx.add(make_entry("a.txt", "2"));
    idx.add(make_entry("c/d.txt", "3"));
    assert_eq!(idx.paths(), vec!["a.txt", "b.txt", "c/d.txt"]);
    assert!(!idx.remove("zzz"));
    idx.clear();
    assert!(idx.is_empty());
}

#[test]
fn index_diff_with_swapped() {
    let mut a = Index::new();
    a.add(make_entry("x", "1"));
    a.add(make_entry("y", "2"));
    a.add(make_entry("w", "5"));
    let mut b = Index::new();
    b.add(make_entry("y", "3"));
    b.add(make_entry("z", "4"));
    b.add(make_entry("w", "5"));
    let d1 = a.diff_with(&b);
    let d2 = b.diff_with(&a);
    assert_eq!(d1.added, vec!["z"]);
    assert_eq!(d1.deleted, vec!["x"]);
    assert_eq!(d1.added, d2.deleted);
    assert_eq!(d1.deleted, d2.added);
    assert_eq!(d1.modified, vec!["y"]);
    assert_eq!(d1.modified, d2.modified);
}

#[test]
fn index_diff_with_self_is_empty() {
    let mut idx = Index::new();
    idx.add(make_entry("a", "1"));
    idx.add(make_entry("b", "2"));
    let d = idx.diff_with(&idx);
    assert!(d.is_empty());
    assert_eq!(d.total_changes(), 0);
}

#[test]
fn index_entries_by_directory() {
    let mut idx = Index::new();
    idx.add(make_entry("src/a.rs", "1"));
    idx.add(make_entry("README.md", "2"));
    idx.add(make_entry("src/b.rs", "3"));
    let groups = idx.entries_by_directory();
    assert_eq!(groups.len(), 2);
    assert_eq!(groups[0].0, ".");
    assert_eq!(groups[0].1.len(), 1);
    assert_eq!(groups[1].0, "src");
    assert_eq!(groups[1].1.len(), 2);
}

#[test]
fn test_clean_merge_no_changes() {
    let base = "line1\nline2\nline3";
    let result = MergeEngine::merge3(base, base, base);
    assert_eq!(result, MergeResult::Clean(base.to_string()));
}

#[test]
fn test_clean_merge_one_side_changed() {
    let base = "line1\nline2\nline3";
    let ours = "line1\nMODIFIED\nline3";
    let result = MergeEngine::merge3(base, ours, base);
    assert_eq!(result, MergeResult::Clean(ours.to_string()));
}

#[test]
fn test_conflict() {
    let base = "line1\nline2\nline3";
    let ours = "line1\nOURS_CHANGE\nline3";
    let theirs = "line1\nTHEIRS_CHANGE\nline3";
    let result = MergeEngine::merge3(base, ours, theirs);
    match result {
        MergeResult::Conflict(text) => {
            assert!(text.contains("<<<<<<< OURS"));
            assert!(text.contains("OURS_CHANGE"));
            assert!(text.contains("THEIRS_CHANGE"));
            assert!(text.contains(">>>>>>> THEIRS"));
        }
        _ => panic!("Expected conflict"),
    }
}

#[test]
fn test_both_add_same_line() {
    let base = "line1";
    let ours = "line1\nnew_line";
    let theirs = "line1\nnew_line";
    let result = MergeEngine::merge3(base, ours, theirs);
    assert_eq!(result, MergeResult::Clean("line1\nnew_line".to_string()));
}

#[test]
fn merge_theirs_only_and_conflict_markers() {
    let base = "a\nb";
    let theirs = "a\nc";
    assert_eq!(MergeEngine::merge3(base, base, theirs), MergeResult::Clean(theirs.to_string()));
    let r = MergeEngine::merge3("x", "y", "z");
    assert_eq!(r, MergeResult::Conflict("<<<<<<< OURS\ny\n=======\nz\n>>>>>>> THEIRS".to_string()));
    if let MergeResult::Conflict(t) = r {
        assert!(MergeEngine::has_conflicts(&t));
    }
    assert!(!MergeEngine::has_conflicts("plain text"));
}

#[test]
fn test_compress_decompress() {
    let data = b"Hello ApexForge Git! This is a test of compression.";
    let compressed = PackEngine::compress(data).unwrap();
    let decompressed = PackEngine::decompress(&compressed).unwrap();
    assert_eq!(&decompressed, data);
}

#[test]
fn compress_changes_bytes_and_decompress_rejects_garbage() {
    let data = vec![7u8; 1000];
    let compressed = PackEngine::compress(&data).unwrap();
    assert_ne!(compressed, data);
    let err = PackEngine::decompress(b"not zstd at all").unwrap_err();
    assert!(err.starts_with("Decompression failed: "));
}

#[test]
fn test_delta_roundtrip() {
    let base = b"Hello World! This is line one.\nSecond line here.\n";
    let target = b"Hello World! This is line one.\nModified second line.\n";
    let delta = PackEngine::compute_delta(base, target);
    let reconstructed = PackEngine::apply_delta(base, &delta);
    assert_eq!(reconstructed, target);
}

#[test]
fn delta_copy_and_insert_steps() {
    let base = b"abcdefgh";
    let target = b"XYabcdefZ";
    let delta = PackEngine::compute_delta(base, target);
    assert_eq!(delta.len(), 3);
    match &delta[0] {
        DeltaOp::Insert(d) => assert_eq!(d, b"XY"),
        _ => panic!("expected an insert"),
    }
    match &delta[1] {
        DeltaOp::Copy { offset, len } => {
            assert_eq!(*offset, 0);
            assert_eq!(*len, 6);
        }
        _ => panic!("expected a copy"),
    }
    assert_eq!(PackEngine::apply_delta(base, &delta), target.to_vec());
    assert!(PackEngine::compute_delta(base, b"").is_empty());
}

#[test]
fn diff_scripts_are_shortest() {
    let words = DiffEngine::word_diff("a b c d", "b c d e");
    let changes = words.iter().filter(|(t, _)| *t != DiffLineType::Context).count();
    assert_eq!(changes, 2);
    let hunks = DiffEngine::diff("x\na\nb\nc\nd\n", "a\nb\nc\nd\ny\n");
    let changed: usize = hunks
        .iter()
        .map(|h| h.lines.iter().filter(|l| l.line_type != DiffLineType::Context).count())
        .sum();
    assert_eq!(changed, 2);
}

#[test]
fn merge_is_symmetric_in_the_sides() {
    let base = "a\nb\nc";
    let ours = "a\nB\nc";
    let theirs = "a\nb\nC";
    assert_eq!(MergeEngine::merge3(base, ours, theirs), MergeEngine::merge3(base, theirs, ours));
    let ours2 = "x\nb\nc";
    let theirs2 = "y\nb\nc";
    assert!(matches!(MergeEngine::merge3(base, ours2, theirs2), MergeResult::Conflict(_)));
    assert!(matches!(MergeEngine::merge3(base, theirs2, ours2), MergeResult::Conflict(_)));
}

#[test]
fn index_add_keeps_the_order_of_ties() {
    let mut index = Index::new();
    index.entries = vec![make_entry("b", "h1"), make_entry("a", "h2"), make_entry("b", "h3")];
    index.add(make_entry("c", "h4"));
    let got: Vec<(&str, &str)> = index.entries.iter().map(|e| (e.path.as_str(), e.hash.as_str())).collect();
    assert_eq!(got, vec![("a", "h2"), ("b", "h1"), ("b", "h3"), ("c", "h4")]);
}

#[test]
fn merge_takes_a_one_sided_deletion() {
    let base = "a\nb";
    assert_eq!(MergeEngine::merge3(base, "a", base), MergeResult::Clean("a".to_string()));
    assert_eq!(MergeEngine::merge3(base, base, "b"), MergeResult::Clean("b".to_string()));
    assert_eq!(MergeEngine::merge3(base, "", base), MergeResult::Clean(String::new()));
    assert_eq!(MergeEngine::merge3("a\nb\n", "a\nb", "x\ny\nz\n"), MergeResult::Clean("x\ny\nz".to_string()));
}
