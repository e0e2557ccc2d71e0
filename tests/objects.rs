use gitnext::legacy::{legacy_digest, to_legacy_bytes};
use gitnext::object::canonical_encode;
use gitnext::{
    Blob, BlobBuilder, Commit, CommitBuilder, CompatHashDeriver, FileMode, GitHash, GitHashType, GitNextError,
    GitObject, ObjectError, ObjectId, ObjectOps, ObjectType, Signature, Tag, Tree, TreeBuilder, TreeEntry,
};

fn signature(name: &str, email: &str, timestamp: i64, tz: i16) -> Signature {
    Signature { name: name.to_string(), email: email.to_string(), timestamp, timezone_offset: tz }
}

fn entry(name: &str, mode: FileMode, hash: ObjectId, entry_type: ObjectType) -> TreeEntry {
    TreeEntry { name: name.to_string(), mode, hash, entry_type }
}

fn author_sig() -> Signature {
    signature("Test Author", "test@example.com", 1234567890, 0)
}

fn hex(b: &[u8]) -> String {
    b.iter().map(|x| format!("{:02x}", x)).collect()
}

#[test]
fn test_object_id_creation() {
    let content = b"hello world";
    let id = ObjectId::from_canonical_bytes(content);
    let id2 = ObjectId::from_canonical_bytes(content);
    assert_eq!(id, id2);
    let id3 = ObjectId::from_canonical_bytes(b"different content");
    assert_ne!(id, id3);
}

#[test]
fn test_git_hash_derivation() {
    let blob = Blob::new(b"hello world".to_vec());
    let object = GitObject::Blob(blob);
    let mut deriver = CompatHashDeriver::new();
    let git_hash = deriver.derive_git_hash(&object, GitHashType::Sha1, &vec![]).unwrap();
    let git_hash2 = deriver.derive_git_hash(&object, GitHashType::Sha1, &vec![]).unwrap();
    assert_eq!(git_hash, git_hash2);
}

#[test]
fn test_canonical_serialization() {
    let blob = Blob::new(b"test content".to_vec());
    let object = GitObject::Blob(blob);
    let bytes1 = object.canonical_serialize().unwrap();
    let bytes2 = object.canonical_serialize().unwrap();
    assert_eq!(bytes1, bytes2);
    let hash1 = object.canonical_hash();
    let hash2 = object.canonical_hash();
    assert_eq!(hash1, hash2);
}

#[test]
fn test_signature_validation() {
    let valid_sig = signature("Test User", "test@example.com", 1234567890, 0);
    assert!(valid_sig.validate().is_ok());
    let invalid_sig = signature("Test User", "invalid-email", 1234567890, 0);
    assert!(invalid_sig.validate().is_err());
}

#[test]
fn test_tree_entry_validation() {
    let hash = ObjectId::from_canonical_bytes(b"test");
    let valid_entry = entry("valid-name.txt", FileMode::Normal, hash, ObjectType::Blob);
    assert!(valid_entry.validate().is_ok());
    let invalid_entry = entry("invalid/name.txt", FileMode::Normal, hash, ObjectType::Blob);
    assert!(invalid_entry.validate().is_err());
}

#[test]
fn blob_canonical_bytes_are_exact() {
    let object = GitObject::Blob(Blob { content: Some(b"hello world".to_vec()), size: 11 });
    let mut expected = vec![0u8, 0, 0, 0, 1, 11, 0, 0, 0, 0, 0, 0, 0];
    expected.extend_from_slice(b"hello world");
    expected.extend_from_slice(&[11, 0, 0, 0, 0, 0, 0, 0]);
    assert_eq!(canonical_encode(&object), expected);
    assert_eq!(object.canonical_hash(), ObjectId::from_canonical_bytes(&expected));
}

#[test]
fn blob_without_content_encodes_a_zero_flag() {
    let object = GitObject::Blob(Blob { content: None, size: 3 });
    assert_eq!(canonical_encode(&object), vec![0u8, 0, 0, 0, 0, 3, 0, 0, 0, 0, 0, 0, 0]);
}

#[test]
fn tree_canonical_bytes_are_exact() {
    let id = ObjectId::from_blake3_bytes([7u8; 32]);
    let tree = Tree::new(vec![entry("a", FileMode::Executable, id, ObjectType::Blob)]);
    let bytes = canonical_encode(&GitObject::Tree(tree));
    let mut expected = vec![1u8, 0, 0, 0, 1, 0, 0, 0, 0, 0, 0, 0, 1, 0, 0, 0, 0, 0, 0, 0, b'a', 1, 0, 0, 0];
    expected.extend_from_slice(&[7u8; 32]);
    expected.extend_from_slice(&[0, 0, 0, 0]);
    assert_eq!(bytes, expected);
}

#[test]
fn commit_canonical_bytes_encode_signed_integers() {
    let tree = ObjectId::from_blake3_bytes([1u8; 32]);
    let commit = Commit {
        tree,
        parents: vec![],
        author: signature("A", "a@b", -1, -60),
        committer: signature("A", "a@b", 2, 0),
        message: "m".to_string(),
    };
    let bytes = canonical_encode(&GitObject::Commit(commit));
    let mut expected = vec![2u8, 0, 0, 0];
    expected.extend_from_slice(&[1u8; 32]);
    expected.extend_from_slice(&[0; 8]);
    expected.extend_from_slice(&[1, 0, 0, 0, 0, 0, 0, 0, b'A', 3, 0, 0, 0, 0, 0, 0, 0, b'a', b'@', b'b']);
    expected.extend_from_slice(&[0xff; 8]);
    expected.extend_from_slice(&[0xc4, 0xff]);
    expected.extend_from_slice(&[1, 0, 0, 0, 0, 0, 0, 0, b'A', 3, 0, 0, 0, 0, 0, 0, 0, b'a', b'@', b'b']);
    expected.extend_from_slice(&[2, 0, 0, 0, 0, 0, 0, 0]);
    expected.extend_from_slice(&[0, 0]);
    expected.extend_from_slice(&[1, 0, 0, 0, 0, 0, 0, 0, b'm']);
    assert_eq!(bytes, expected);
}

#[test]
fn legacy_blob_digest_matches_git() {
    let object = GitObject::Blob(Blob::new(b"hello world".to_vec()));
    let bytes = to_legacy_bytes(&object, GitHashType::Sha1, &vec![]).unwrap();
    assert_eq!(bytes, b"blob 11\0hello world".to_vec());
    let digest = legacy_digest(&object, GitHashType::Sha1, &vec![]).unwrap();
    assert_eq!(hex(digest.as_bytes()), "95d09f2b10159347eece71399a7e2e907ea3df4f");
    assert_eq!(digest, GitHash::from_git_bytes(b"blob 11\0hello world", GitHashType::Sha1));
}

#[test]
fn legacy_sha256_digest_hashes_legacy_bytes() {
    let object = GitObject::Blob(Blob::new(b"hello world".to_vec()));
    let digest = legacy_digest(&object, GitHashType::Sha256, &vec![]).unwrap();
    assert_eq!(digest.as_bytes().len(), 32);
    assert!(matches!(digest, GitHash::Sha256(_)));
    assert_eq!(digest, GitHash::from_git_bytes(b"blob 11\0hello world", GitHashType::Sha256));
}

#[test]
fn deriver_keeps_algorithms_apart() {
    let object = GitObject::Blob(Blob::new(b"abc".to_vec()));
    let mut deriver = CompatHashDeriver::new();
    let sha1 = deriver.derive_git_hash(&object, GitHashType::Sha1, &vec![]).unwrap();
    let sha256 = deriver.derive_git_hash(&object, GitHashType::Sha256, &vec![]).unwrap();
    assert!(matches!(sha1, GitHash::Sha1(_)));
    assert!(matches!(sha256, GitHash::Sha256(_)));
    assert_eq!(sha256, deriver.derive_git_hash(&object, GitHashType::Sha256, &vec![]).unwrap());
    assert_eq!(sha1, legacy_digest(&object, GitHashType::Sha1, &vec![]).unwrap());
}

#[test]
fn legacy_blob_without_content_is_refused() {
    let object = GitObject::Blob(Blob { content: None, size: 0 });
    assert!(matches!(to_legacy_bytes(&object, GitHashType::Sha1, &vec![]), Err(GitNextError::InvalidFormat(_))));
    let mut deriver = CompatHashDeriver::new();
    assert!(deriver.derive_git_hash(&object, GitHashType::Sha1, &vec![]).is_err());
}

#[test]
fn legacy_tree_bytes_are_exact() {
    let id = ObjectId::from_blake3_bytes([9u8; 32]);
    let tree = Tree::new(vec![
        entry("sub", FileMode::Tree, id, ObjectType::Tree),
        entry("run.sh", FileMode::Executable, id, ObjectType::Blob),
    ]);
    let object = GitObject::Tree(tree);
    let children = vec![GitHash::Sha1([1u8; 20]), GitHash::Sha1([2u8; 20])];
    let bytes = to_legacy_bytes(&object, GitHashType::Sha1, &children).unwrap();
    let mut payload = b"100755 run.sh\0".to_vec();
    payload.extend_from_slice(&[1u8; 20]);
    payload.extend_from_slice(b"40000 sub\0");
    payload.extend_from_slice(&[2u8; 20]);
    let mut expected = format!("tree {}\0", payload.len()).into_bytes();
    expected.extend_from_slice(&payload);
    assert_eq!(bytes, expected);
    assert!(matches!(to_legacy_bytes(&object, GitHashType::Sha1, &vec![]), Err(GitNextError::InvalidFormat(_))));
    assert!(matches!(to_legacy_bytes(&object, GitHashType::Sha256, &children), Err(GitNextError::InvalidFormat(_))));
    let digest = legacy_digest(&object, GitHashType::Sha1, &children).unwrap();
    assert_eq!(digest, GitHash::from_git_bytes(&expected, GitHashType::Sha1));
}

#[test]
fn legacy_commit_bytes_are_exact() {
    let tree = ObjectId::from_blake3_bytes([0xabu8; 32]);
    let parent = ObjectId::from_blake3_bytes([0x01u8; 32]);
    let commit = Commit {
        tree,
        parents: vec![parent],
        author: signature("Ann", "ann@x.org", 1700000000, -300),
        committer: signature("Bob", "bob@x.org", -5, 90),
        message: "Hello\n".to_string(),
    };
    let bytes = to_legacy_bytes(&GitObject::Commit(commit), GitHashType::Sha1, &vec![]).unwrap();
    let payload = format!(
        "tree {}\nparent {}\nauthor Ann <ann@x.org> 1700000000 -0500\ncommitter Bob <bob@x.org> -5 +0130\n\nHello\n",
        "ab".repeat(32),
        "01".repeat(32)
    );
    let expected = format!("commit {}\0{}", payload.len(), payload).into_bytes();
    assert_eq!(bytes, expected);
}

#[test]
fn legacy_tag_bytes_are_exact() {
    let target = ObjectId::from_blake3_bytes([0x10u8; 32]);
    let tag = Tag {
        target,
        target_type: ObjectType::Commit,
        name: "v1".to_string(),
        tagger: signature("T", "t@t", 0, 0),
        message: "release".to_string(),
    };
    let bytes = to_legacy_bytes(&GitObject::Tag(tag), GitHashType::Sha256, &vec![]).unwrap();
    let payload = format!("object {}\ntype commit\ntag v1\ntagger T <t@t> 0 +0000\n\nrelease", "10".repeat(32));
    let expected = format!("tag {}\0{}", payload.len(), payload).into_bytes();
    assert_eq!(bytes, expected);
}

#[test]
fn tree_new_sorts_entries_by_name() {
    let id = ObjectId::from_canonical_bytes(b"x");
    let tree = TreeBuilder::new()
        .entry("b.txt".to_string(), FileMode::Normal, id, ObjectType::Blob)
        .entry("a.txt".to_string(), FileMode::Normal, id, ObjectType::Blob)
        .entry("c".to_string(), FileMode::Tree, id, ObjectType::Tree)
        .build();
    let names: Vec<&str> = tree.entries.iter().map(|e| e.name.as_str()).collect();
    assert_eq!(names, vec!["a.txt", "b.txt", "c"]);
    assert!(tree.validate().is_ok());
    assert!(!tree.is_empty());
    assert_eq!(tree.size(), (5 + 40) + (5 + 40) + (1 + 40));
}

#[test]
fn tree_validation_rejects_duplicates_and_disorder() {
    let id = ObjectId::from_canonical_bytes(b"x");
    let dup = Tree::new(vec![
        entry("same", FileMode::Normal, id, ObjectType::Blob),
        entry("same", FileMode::Normal, id, ObjectType::Blob),
    ]);
    assert!(matches!(dup.validate(), Err(ObjectError::InvalidTreeEntry(_))));
    let unsorted = Tree {
        entries: vec![entry("b", FileMode::Normal, id, ObjectType::Blob), entry("a", FileMode::Normal, id, ObjectType::Blob)],
    };
    assert!(unsorted.validate().is_err());
    let mismatch = Tree { entries: vec![entry("d", FileMode::Tree, id, ObjectType::Blob)] };
    assert!(matches!(mismatch.validate(), Err(ObjectError::InvalidTreeEntry(_))));
    let nul = entry("a\0b", FileMode::Normal, id, ObjectType::Blob);
    assert!(nul.validate().is_err());
    let empty = entry("", FileMode::Normal, id, ObjectType::Blob);
    assert!(empty.validate().is_err());
}

#[test]
fn signature_rules() {
    assert!(matches!(signature("", "a@b", 0, 0).validate(), Err(ObjectError::InvalidSignature(_))));
    assert!(signature("A", "", 0, 0).validate().is_err());
    assert!(signature("A", "a@b", 0, 1440).validate().is_ok());
    assert!(signature("A", "a@b", 0, -1440).validate().is_ok());
    assert!(signature("A", "a@b", 0, 1441).validate().is_err());
    assert_eq!(signature("Ann", "a@b", 0, 0).size(), 3 + 3 + 16);
    assert!(signature("", "a@b", 0, 0).is_empty());
}

#[test]
fn blob_builder_and_size_checks() {
    let blob = BlobBuilder::new().content(b"hello world".to_vec()).build();
    assert_eq!(blob.size(), 11);
    assert!(!blob.is_empty());
    assert!(blob.validate().is_ok());
    let bad = Blob { content: Some(vec![1, 2]), size: 3 };
    assert!(matches!(bad.validate(), Err(ObjectError::InvalidType(_))));
    let empty = BlobBuilder::new().build();
    assert_eq!(empty.size(), 0);
    assert!(empty.is_empty());
}

#[test]
fn commit_builder_requires_fields() {
    let tree_hash = ObjectId::from_canonical_bytes(b"tree");
    let author = signature("Test Author", "test@example.com", 1234567890, 0);
    let commit = CommitBuilder::new()
        .tree(tree_hash)
        .parent(tree_hash)
        .author(author.clone())
        .committer(author.clone())
        .message("Test commit".to_string())
        .build()
        .unwrap();
    assert!(!commit.is_empty());
    assert!(commit.validate().is_ok());
    assert_eq!(commit.parents, vec![tree_hash]);
    assert_eq!(commit.size(), 32 + 32 + (11 + 16 + 16) * 2 + 11);
    let missing = CommitBuilder::new().author(author.clone()).committer(author).build();
    assert!(matches!(missing, Err(ObjectError::MissingField(_))));
    let bad_email = CommitBuilder::new()
        .tree(tree_hash)
        .author(signature("A", "nobody", 0, 0))
        .committer(author_sig())
        .message("m".to_string())
        .build();
    assert!(matches!(bad_email, Err(ObjectError::InvalidSignature(_))));
    let empty_message = CommitBuilder::new().tree(tree_hash).author(author_sig()).committer(author_sig()).build();
    assert!(matches!(empty_message, Err(ObjectError::MissingField(_))));
    let no_message = Commit { message: String::new(), ..commit };
    assert!(matches!(no_message.validate(), Err(ObjectError::MissingField(_))));
}

#[test]
fn tag_validation() {
    let tag = Tag {
        target: ObjectId::from_canonical_bytes(b"t"),
        target_type: ObjectType::Blob,
        name: "v1".to_string(),
        tagger: signature("T", "t@t", 0, 0),
        message: String::new(),
    };
    assert!(matches!(tag.validate(), Err(ObjectError::MissingField(_))));
    assert!(tag.is_empty());
    let object = GitObject::Tag(tag);
    assert_eq!(object.object_type(), ObjectType::Tag);
}

#[test]
fn identities_render_as_hex() {
    let id = ObjectId::from_blake3_bytes([0xabu8; 32]);
    assert_eq!(id.to_hex(), "ab".repeat(32));
    let object = GitObject::Blob(Blob::new(b"hello world".to_vec()));
    let digest = legacy_digest(&object, GitHashType::Sha1, &vec![]).unwrap();
    assert_eq!(digest.to_hex(), "95d09f2b10159347eece71399a7e2e907ea3df4f");
    let mut deriver = CompatHashDeriver::default();
    assert_eq!(deriver.derive_git_hash(&object, GitHashType::Sha1, &vec![]).unwrap().to_hex(), digest.to_hex());
    assert_eq!(object.canonical_hash().to_hex().len(), 64);
}
