use fgit_core::object::{
    Blob, Commit, FgitObject, FileMode, Identity, ObjectType, Tree, decode_commit, hash_object,
    split_object, parse_commit, commit_text_readable,
};
use fgit_core::tag::{Tag, TagType};

fn blob(content: &[u8]) -> FgitObject {
    FgitObject::Blob(Blob::new(content.to_vec()))
}

#[test]
fn test_blob_hash_deterministic() {
    let blob1 = blob(b"hello world");
    let blob2 = blob(b"hello world");
    assert_eq!(blob1.hash(), blob2.hash());
}

#[test]
fn test_blob_different_content_different_hash() {
    let blob1 = blob(b"hello");
    let blob2 = blob(b"world");
    assert_ne!(blob1.hash(), blob2.hash());
}

#[test]
fn test_blob_hash_is_sha256() {
    let hash = blob(b"test").hash();
    assert_eq!(hash.len(), 64);
}

#[test]
fn blob_hash_known_value() {
    // SHA-256 of "blob 11\0hello world"
    assert_eq!(
        blob(b"hello world").hash(),
        "fee53a18d32820613c0527aa79be5cb30173c823a9b448fa4817767cc84c6f03"
    );
    assert_eq!(hash_object(ObjectType::Blob, b"hello world"), blob(b"hello world").hash());
}

#[test]
fn test_blob_serialize_deserialize() {
    let original = blob(b"hello fgit");
    let serialized = original.serialize();
    let (ty, content) = split_object(&serialized).unwrap();
    assert_eq!(ty, ObjectType::Blob);
    let deserialized = FgitObject::Blob(Blob::new(content));
    assert_eq!(original.hash(), deserialized.hash());
}

#[test]
fn serialize_has_header() {
    let s = blob(b"abc").serialize();
    assert_eq!(s, b"blob 3\0abc".to_vec());
    assert_eq!(blob(b"abc").to_bytes(), b"abc".to_vec());
}

#[test]
fn split_object_errors() {
    assert_eq!(split_object(b"blob 3abc").unwrap_err(), "Invalid object: no null separator found");
    assert_eq!(split_object(b"blob\0abc").unwrap_err(), "Invalid object header format");
    assert_eq!(split_object(b"thing 3\0abc").unwrap_err(), "Unknown object type: thing");
    assert!(split_object(b"\xff\xfe 1\0a").unwrap_err().starts_with("Invalid header encoding: "));
    let (t, c) = split_object(b"tree 0\0").unwrap();
    assert_eq!(t, ObjectType::Tree);
    assert!(c.is_empty());
}

#[test]
fn test_tree_entries() {
    let mut tree = Tree::new();
    tree.add_entry(FileMode::Regular, "README.md".to_string(), "abc123".to_string());
    tree.add_entry(FileMode::Directory, "src".to_string(), "def456".to_string());
    tree.sort_entries();
    assert_eq!(tree.entries[0].name, "src");
    assert_eq!(tree.entries[1].name, "README.md");
}

#[test]
fn tree_sort_is_stable_and_by_name() {
    let mut tree = Tree::new();
    tree.add_entry(FileMode::Regular, "b".to_string(), "1".to_string());
    tree.add_entry(FileMode::Regular, "a".to_string(), "2".to_string());
    tree.add_entry(FileMode::Directory, "z".to_string(), "3".to_string());
    tree.add_entry(FileMode::Regular, "a".to_string(), "4".to_string());
    tree.sort_entries();
    let names: Vec<&str> = tree.entries.iter().map(|e| e.name.as_str()).collect();
    assert_eq!(names, vec!["z", "a", "a", "b"]);
    assert_eq!(tree.entries[1].hash, "2");
    assert_eq!(tree.entries[2].hash, "4");
}

#[test]
fn tree_json_form() {
    let mut tree = Tree::new();
    tree.add_entry(FileMode::Regular, "a\"b".to_string(), "h1".to_string());
    tree.add_entry(FileMode::Directory, "d".to_string(), "h2".to_string());
    let obj = FgitObject::Tree(tree);
    let text = String::from_utf8(obj.to_bytes()).unwrap();
    assert_eq!(
        text,
        "{\"entries\":[{\"mode\":\"Regular\",\"name\":\"a\\\"b\",\"hash\":\"h1\"},{\"mode\":\"Directory\",\"name\":\"d\",\"hash\":\"h2\"}]}"
    );
    assert_eq!(String::from_utf8(FgitObject::Tree(Tree::new()).to_bytes()).unwrap(), "{\"entries\":[]}");
}

#[test]
fn test_commit_serialize_deserialize() {
    let commit = Commit::new(
        "abc123def456".to_string(),
        vec![],
        Identity::new("Neo".to_string(), "neo@apexforge.dev".to_string()),
        Identity::new("Neo".to_string(), "neo@apexforge.dev".to_string()),
        "Initial commit".to_string(),
    );
    let obj = FgitObject::Commit(commit);
    let serialized = obj.serialize();
    let (ty, content) = split_object(&serialized).unwrap();
    assert_eq!(ty, ObjectType::Commit);
    let deserialized = FgitObject::Commit(decode_commit(&content).unwrap());
    assert_eq!(obj.hash(), deserialized.hash());
}

#[test]
fn commit_text_form() {
    let c = parse_commit("tree t1\nparent p1\nparent p2\nauthor A B <a@b> 100\ncommitter C <c@d> -5\n\nline one\nline two").unwrap();
    assert_eq!(c.tree_hash, "t1");
    assert_eq!(c.parent_hashes, vec!["p1".to_string(), "p2".to_string()]);
    assert_eq!(c.author.name, "A B");
    assert_eq!(c.author.email, "a@b");
    assert_eq!(c.author.timestamp.timestamp(), 100);
    assert_eq!(c.committer.timestamp.timestamp(), -5);
    assert_eq!(c.message, "line one\nline two");
    let text = String::from_utf8(c.to_bytes()).unwrap();
    assert_eq!(text, "tree t1\nparent p1\nparent p2\nauthor A B <a@b> 100\ncommitter C <c@d> -5\n\nline one\nline two");
}

#[test]
fn commit_identity_errors() {
    assert_eq!(parse_commit("tree t\nauthor nobody\n\nm").unwrap_err(), "Invalid identity: missing <");
    assert_eq!(parse_commit("author A <a\n\nm").unwrap_err(), "Invalid identity: missing >");
    assert_eq!(
        parse_commit("author A <a> 1\ncommitter B <b> soon\n\nm").unwrap_err(),
        "Invalid timestamp: soon"
    );
    assert!(decode_commit(b"\xff").unwrap_err().starts_with("Invalid commit encoding: "));
    assert!(commit_text_readable("author A <a> 1\ncommitter B <b> 2\n\nm"));
    assert!(!commit_text_readable("author A >a< 1\n\nm"));
}

#[test]
fn identity_text() {
    let c = parse_commit("author Ann <ann@x> 42\ncommitter Ann <ann@x> 42\n\n").unwrap();
    assert_eq!(c.author.to_string(), "Ann <ann@x> 42");
}

#[test]
fn test_object_type_display() {
    assert_eq!(ObjectType::Blob.to_string(), "blob");
    assert_eq!(ObjectType::Tree.to_string(), "tree");
    assert_eq!(ObjectType::Commit.to_string(), "commit");
    assert_eq!(ObjectType::Tag.to_string(), "tag");
}

#[test]
fn object_type_and_mode_names() {
    assert_eq!(ObjectType::from_str("commit"), Some(ObjectType::Commit));
    assert_eq!(ObjectType::from_str("Commit"), None);
    assert_eq!(FileMode::from_str("040000"), Some(FileMode::Directory));
    assert_eq!(FileMode::from_str("644"), None);
    assert_eq!(FileMode::Executable.to_string(), "100755");
    assert_eq!(blob(b"").object_type(), ObjectType::Blob);
    assert_eq!(Blob::new(vec![1, 2, 3]).size(), 3);
}

#[test]
fn test_lightweight_tag() {
    let tag = Tag::lightweight("v1.0".to_string(), "abc123".to_string());
    assert_eq!(tag.tag_type, TagType::Lightweight);
    assert!(tag.message.is_none());
}

#[test]
fn test_annotated_tag() {
    let tagger = Identity::new("Neo".to_string(), "neo@apexforge.dev".to_string());
    let tag = Tag::annotated("v2.0".to_string(), "def456".to_string(), tagger, "Release 2.0".to_string());
    assert_eq!(tag.tag_type, TagType::Annotated);
    assert_eq!(tag.message.as_deref(), Some("Release 2.0"));
}

#[test]
fn tag_json_form() {
    let tag = Tag::lightweight("v1".to_string(), "h".to_string());
    let text = String::from_utf8(FgitObject::Tag(tag).to_bytes()).unwrap();
    assert!(text.starts_with("{\"name\":\"v1\",\"target_hash\":\"h\",\"tag_type\":\"Lightweight\",\"tagger\":null,\"message\":null,\"created_at\":\""));
    assert!(text.ends_with("Z\"}"));
}
