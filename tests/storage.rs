use gitnext::codec::{decode_object, object_row, reference_from_row, target_row};
use gitnext::object::canonical_encode;
use gitnext::storage::Reference;
use gitnext::{
    Blob, Commit, FileMode, GitObject, MemoryStorage, ObjectId, ObjectType, ReferenceTarget, Signature, StorageError, Tree,
    TreeEntry,
};

fn blob(text: &str) -> GitObject {
    GitObject::Blob(Blob::new(text.as_bytes().to_vec()))
}

#[test]
fn test_memory_storage_basic_operations() {
    let mut storage = MemoryStorage::new();
    let object = blob("hello world");
    let id = object.canonical_hash();
    storage.store_object(&id, &object).unwrap();
    let loaded = storage.load_object(&id).unwrap();
    assert!(loaded.is_some());
    assert_eq!(storage.object_count(), 1);
    storage.update_ref("refs/heads/main", &id).unwrap();
    let refs = storage.list_refs().unwrap();
    assert_eq!(refs.len(), 1);
    assert_eq!(refs[0].name, "refs/heads/main");
    match &refs[0].target {
        ReferenceTarget::Direct(target_id) => assert_eq!(*target_id, id),
        _ => panic!("Expected direct reference"),
    }
}

#[test]
fn test_memory_storage_hash_validation() {
    let mut storage = MemoryStorage::new();
    let object = blob("test content");
    let correct_id = object.canonical_hash();
    storage.store_object(&correct_id, &object).unwrap();
    let wrong_id = ObjectId::from_canonical_bytes(b"wrong hash");
    let result = storage.store_object(&wrong_id, &object);
    assert!(result.is_err());
    match result.unwrap_err() {
        StorageError::CorruptionDetected { .. } => {}
        _ => panic!("Expected corruption detected error"),
    }
}

#[test]
fn test_memory_transaction_commit() {
    let mut storage = MemoryStorage::new();
    let object1 = blob("content 1");
    let id1 = object1.canonical_hash();
    let object2 = blob("content 2");
    let id2 = object2.canonical_hash();
    let mut tx = storage.transaction().unwrap();
    tx.store_object(&id1, &object1).unwrap();
    tx.store_object(&id2, &object2).unwrap();
    tx.update_ref("refs/heads/main", &id1).unwrap();
    assert_eq!(storage.object_count(), 0);
    assert_eq!(storage.reference_count(), 0);
    tx.commit(&mut storage).unwrap();
    assert_eq!(storage.object_count(), 2);
    assert_eq!(storage.reference_count(), 1);
    let loaded1 = storage.load_object(&id1).unwrap();
    assert!(loaded1.is_some());
    let loaded2 = storage.load_object(&id2).unwrap();
    assert!(loaded2.is_some());
    let refs = storage.list_refs().unwrap();
    assert_eq!(refs.len(), 1);
    assert_eq!(refs[0].name, "refs/heads/main");
}

#[test]
fn test_memory_transaction_rollback() {
    let mut storage = MemoryStorage::new();
    let object = blob("test content");
    let id = object.canonical_hash();
    let mut tx = storage.transaction().unwrap();
    tx.store_object(&id, &object).unwrap();
    tx.update_ref("refs/heads/main", &id).unwrap();
    assert_eq!(storage.object_count(), 0);
    assert_eq!(storage.reference_count(), 0);
    tx.rollback().unwrap();
    assert_eq!(storage.object_count(), 0);
    assert_eq!(storage.reference_count(), 0);
    let loaded = storage.load_object(&id).unwrap();
    assert!(loaded.is_none());
    let refs = storage.list_refs().unwrap();
    assert_eq!(refs.len(), 0);
}

#[test]
fn test_memory_transaction_completed_operations_fail() {
    let mut storage = MemoryStorage::new();
    let object = blob("test content");
    let id = object.canonical_hash();
    let mut tx = storage.transaction().unwrap();
    tx.store_object(&id, &object).unwrap();
    tx.commit(&mut storage).unwrap();
    assert!(matches!(tx.store_object(&id, &object), Err(StorageError::TransactionFailed { .. })));
    assert!(matches!(tx.update_ref("refs/heads/x", &id), Err(StorageError::TransactionFailed { .. })));
    assert!(matches!(tx.commit(&mut storage), Err(StorageError::TransactionFailed { .. })));
    assert!(matches!(tx.rollback(), Err(StorageError::TransactionFailed { .. })));
}

#[test]
fn put_then_get_returns_byte_equal_object() {
    let mut storage = MemoryStorage::new();
    let object = blob("payload");
    let id = object.canonical_hash();
    storage.store_object(&id, &object).unwrap();
    storage.store_object(&id, &object).unwrap();
    assert_eq!(storage.object_count(), 1);
    let loaded = storage.load_object(&id).unwrap().unwrap();
    assert_eq!(loaded.canonical_serialize().unwrap(), object.canonical_serialize().unwrap());
}

#[test]
fn wrong_address_leaves_store_unchanged() {
    let mut storage = MemoryStorage::new();
    let object = blob("payload");
    let wrong = ObjectId::from_blake3_bytes([0u8; 32]);
    assert!(matches!(storage.store_object(&wrong, &object), Err(StorageError::CorruptionDetected { .. })));
    assert_eq!(storage.object_count(), 0);
    assert!(storage.load_object(&wrong).unwrap().is_none());
    let mut tx = storage.transaction().unwrap();
    assert!(matches!(tx.store_object(&wrong, &object), Err(StorageError::CorruptionDetected { .. })));
}

#[test]
fn transaction_rollback_hides_everything() {
    let mut storage = MemoryStorage::new();
    let object = blob("a");
    let id = object.canonical_hash();
    let mut tx = storage.transaction().unwrap();
    tx.store_object(&id, &object).unwrap();
    tx.update_ref("refs/heads/tmp", &id).unwrap();
    tx.rollback().unwrap();
    assert!(storage.load_object(&id).unwrap().is_none());
    assert!(storage.get_ref("refs/heads/tmp").is_none());
}

#[test]
fn references_update_and_delete() {
    let mut storage = MemoryStorage::new();
    let a = ObjectId::from_blake3_bytes([1u8; 32]);
    let b = ObjectId::from_blake3_bytes([2u8; 32]);
    storage.update_ref("refs/heads/x", &a).unwrap();
    storage.update_ref("refs/heads/x", &b).unwrap();
    assert_eq!(storage.reference_count(), 1);
    assert!(matches!(storage.get_ref("refs/heads/x"), Some(ReferenceTarget::Direct(id)) if id == b));
    storage.update_symbolic_ref("HEAD", "refs/heads/x").unwrap();
    assert!(matches!(storage.get_ref("HEAD"), Some(ReferenceTarget::Symbolic(s)) if s == "refs/heads/x"));
    storage.delete_ref("refs/heads/x").unwrap();
    assert!(matches!(storage.delete_ref("refs/heads/x"), Err(StorageError::RefNotFound { .. })));
    let names: Vec<String> = storage.list_refs().unwrap().into_iter().map(|r: Reference| r.name).collect();
    assert_eq!(names, vec!["HEAD".to_string()]);
    storage.clear();
    assert_eq!(storage.reference_count(), 0);
}

#[test]
fn canonical_bytes_decode_to_the_same_object() {
    let id = ObjectId::from_blake3_bytes([5u8; 32]);
    let sig = Signature { name: "Zoë".to_string(), email: "z@e".to_string(), timestamp: -42, timezone_offset: -90 };
    let objects = vec![
        blob("hello world"),
        GitObject::Blob(Blob { content: None, size: 4 }),
        GitObject::Tree(Tree::new(vec![TreeEntry {
            name: "f".to_string(),
            mode: FileMode::Symlink,
            hash: id,
            entry_type: ObjectType::Blob,
        }])),
        GitObject::Commit(Commit {
            tree: id,
            parents: vec![id, id],
            author: sig.clone(),
            committer: sig,
            message: "msg".to_string(),
        }),
    ];
    for object in &objects {
        let bytes = canonical_encode(object);
        let back = decode_object(&bytes).unwrap();
        assert_eq!(canonical_encode(&back), bytes);
        assert_eq!(back.canonical_hash(), object.canonical_hash());
    }
    let mut bytes = canonical_encode(&objects[0]);
    bytes.push(0);
    assert!(matches!(decode_object(&bytes), Err(StorageError::Serialization(_))));
    assert!(matches!(decode_object(&[9, 0, 0, 0]), Err(StorageError::Serialization(_))));
}

#[test]
fn rows_round_trip() {
    let object = blob("row");
    let id = object.canonical_hash();
    let (key, kind, data) = object_row(&id, &object).unwrap();
    assert_eq!(key, id.as_bytes().to_vec());
    assert_eq!(kind, 1);
    assert_eq!(data, object.canonical_serialize().unwrap());
    let wrong = ObjectId::from_blake3_bytes([0u8; 32]);
    assert!(matches!(object_row(&wrong, &object), Err(StorageError::CorruptionDetected { .. })));
    let (k, v) = target_row(&ReferenceTarget::Direct(id));
    assert_eq!(k, 0);
    let r = reference_from_row("refs/heads/main".to_string(), k, v).unwrap();
    assert!(matches!(r.target, ReferenceTarget::Direct(x) if x == id));
    let (k, v) = target_row(&ReferenceTarget::Symbolic("refs/heads/main".to_string()));
    assert_eq!((k, v.clone()), (1, b"refs/heads/main".to_vec()));
    let r = reference_from_row("HEAD".to_string(), k, v).unwrap();
    assert!(matches!(r.target, ReferenceTarget::Symbolic(ref s) if s == "refs/heads/main"));
    assert!(matches!(reference_from_row("x".to_string(), 0, vec![1, 2]), Err(StorageError::CorruptionDetected { .. })));
    assert!(matches!(reference_from_row("x".to_string(), 1, vec![0xff]), Err(StorageError::Serialization(_))));
    assert!(matches!(reference_from_row("x".to_string(), 7, vec![]), Err(StorageError::CorruptionDetected { .. })));
}
