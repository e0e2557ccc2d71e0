use gitnext::oplog::{CommandIntent, RepositoryState, UserMetadata};
use gitnext::{GitObject, LogEntry, MemoryStorage, ObjectId, Operation, OperationLog, Repository, Signature, StorageError, Tree};

fn init() -> Repository {
    Repository::init(MemoryStorage::new()).unwrap()
}

fn has_ref(repo: &Repository, name: &str) -> bool {
    repo.storage().list_refs().unwrap().iter().any(|r| r.name == name)
}

fn author() -> Signature {
    Signature {
        name: "Test Author".to_string(),
        email: "test@example.com".to_string(),
        timestamp: 1700000000,
        timezone_offset: 0,
    }
}

fn empty_tree_id(repo: &mut Repository) -> ObjectId {
    let tree_object = GitObject::Tree(Tree::new(vec![]));
    let tree_id = tree_object.canonical_hash();
    repo.store_object(&tree_id, &tree_object).unwrap();
    tree_id
}

#[test]
fn test_repository_init() {
    let repo = init();
    let head = repo.head().unwrap();
    assert_eq!(head.as_bytes().len(), 32);
}

#[test]
fn test_create_branch() {
    let mut repo = init();
    let head = repo.head().unwrap();
    repo.create_branch("feature", &head).unwrap();
    let refs = repo.storage().list_refs().unwrap();
    let feature_ref = refs.iter().find(|r| r.name == "refs/heads/feature");
    assert!(feature_ref.is_some());
}

#[test]
fn test_switch_branch() {
    let mut repo = init();
    let head = repo.head().unwrap();
    repo.create_branch("feature", &head).unwrap();
    repo.switch_branch("feature").unwrap();
    let new_head = repo.head().unwrap();
    assert_eq!(head, new_head);
}

#[test]
fn test_delete_branch() {
    let mut repo = init();
    let head = repo.head().unwrap();
    repo.create_branch("feature", &head).unwrap();
    assert!(has_ref(&repo, "refs/heads/feature"));
    repo.delete_branch("feature").unwrap();
    assert!(!has_ref(&repo, "refs/heads/feature"));
}

#[test]
fn test_delete_current_branch_fails() {
    let mut repo = init();
    let head = repo.head().unwrap();
    repo.create_branch("feature", &head).unwrap();
    repo.switch_branch("feature").unwrap();
    let result = repo.delete_branch("feature");
    assert!(result.is_err());
    match result.unwrap_err() {
        StorageError::Backend(msg) => {
            assert!(msg.contains("Cannot delete current branch"));
        }
        _ => panic!("Expected backend error for deleting current branch"),
    }
}

#[test]
fn test_undo_redo() {
    let mut repo = init();
    let initial_head = repo.head().unwrap();
    let initial_position = repo.operation_log_position();
    repo.create_branch("test-branch", &initial_head).unwrap();
    assert!(has_ref(&repo, "refs/heads/test-branch"));
    assert!(repo.can_undo());
    assert!(!repo.can_redo());
    let undone_op = repo.undo().unwrap();
    assert!(undone_op.is_some());
    assert!(!has_ref(&repo, "refs/heads/test-branch"));
    assert_eq!(repo.operation_log_position(), initial_position);
    assert!(repo.can_undo());
    assert!(repo.can_redo());
    let redone_op = repo.redo().unwrap();
    assert!(redone_op.is_some());
    assert!(has_ref(&repo, "refs/heads/test-branch"));
    assert!(repo.can_undo());
    assert!(!repo.can_redo());
}

#[test]
fn test_undo_redo_commit() {
    let mut repo = init();
    let initial_head = repo.head().unwrap();
    let tree_id = empty_tree_id(&mut repo);
    let commit_id = repo
        .commit(&tree_id, vec![initial_head], author(), author(), "Test commit for undo/redo".to_string())
        .unwrap();
    let new_head = repo.head().unwrap();
    assert_eq!(new_head, commit_id);
    assert!(repo.can_undo());
    let undone_op = repo.undo().unwrap();
    assert!(undone_op.is_some());
    let head_after_undo = repo.head().unwrap();
    assert_eq!(head_after_undo, initial_head);
    assert!(repo.can_redo());
    let redone_op = repo.redo().unwrap();
    assert!(redone_op.is_some());
    let head_after_redo = repo.head().unwrap();
    assert_eq!(head_after_redo, commit_id);
}

#[test]
fn test_undo_redo_branch_switch() {
    let mut repo = init();
    let initial_head = repo.head().unwrap();
    repo.create_branch("feature", &initial_head).unwrap();
    repo.switch_branch("feature").unwrap();
    let current_branch = repo.get_current_branch().unwrap();
    assert_eq!(current_branch, Some("feature".to_string()));
    let undone_op = repo.undo().unwrap();
    assert!(undone_op.is_some());
    let head_after_undo = repo.head().unwrap();
    assert_eq!(head_after_undo, initial_head);
    let redone_op = repo.redo().unwrap();
    assert!(redone_op.is_some());
    let head_after_redo = repo.head().unwrap();
    assert_eq!(head_after_redo, initial_head);
    let current_branch_after_redo = repo.get_current_branch().unwrap();
    assert_eq!(current_branch_after_redo, Some("feature".to_string()));
}

#[test]
fn test_multiple_undo_redo_operations() {
    let mut repo = init();
    let initial_head = repo.head().unwrap();
    repo.create_branch("branch1", &initial_head).unwrap();
    repo.create_branch("branch2", &initial_head).unwrap();
    repo.create_branch("branch3", &initial_head).unwrap();
    assert!(has_ref(&repo, "refs/heads/branch1"));
    assert!(has_ref(&repo, "refs/heads/branch2"));
    assert!(has_ref(&repo, "refs/heads/branch3"));
    repo.undo().unwrap();
    repo.undo().unwrap();
    repo.undo().unwrap();
    assert!(!has_ref(&repo, "refs/heads/branch1"));
    assert!(!has_ref(&repo, "refs/heads/branch2"));
    assert!(!has_ref(&repo, "refs/heads/branch3"));
    repo.redo().unwrap();
    repo.redo().unwrap();
    assert!(has_ref(&repo, "refs/heads/branch1"));
    assert!(has_ref(&repo, "refs/heads/branch2"));
    assert!(!has_ref(&repo, "refs/heads/branch3"));
    assert!(repo.can_redo());
    repo.redo().unwrap();
    assert!(has_ref(&repo, "refs/heads/branch1"));
    assert!(has_ref(&repo, "refs/heads/branch2"));
    assert!(has_ref(&repo, "refs/heads/branch3"));
    assert!(!repo.can_redo());
}

#[test]
fn test_undo_redo_state_consistency() {
    let mut repo = init();
    let initial_head = repo.head().unwrap();
    let initial_position = repo.operation_log_position();
    let initial_size = repo.operation_log_size();
    repo.create_branch("test", &initial_head).unwrap();
    let after_create_position = repo.operation_log_position();
    let after_create_size = repo.operation_log_size();
    assert_eq!(after_create_position, initial_position + 1);
    assert_eq!(after_create_size, initial_size + 1);
    repo.undo().unwrap();
    let after_undo_position = repo.operation_log_position();
    let after_undo_size = repo.operation_log_size();
    assert_eq!(after_undo_position, initial_position);
    assert_eq!(after_undo_size, after_create_size);
    repo.redo().unwrap();
    let after_redo_position = repo.operation_log_position();
    let after_redo_size = repo.operation_log_size();
    assert_eq!(after_redo_position, after_create_position);
    assert_eq!(after_redo_size, after_create_size);
}

#[test]
fn repository_test_commit_operations() {
    let mut repo = init();
    let tree_id = empty_tree_id(&mut repo);
    let parent_commit = repo.head().unwrap();
    let commit_id = repo
        .commit(&tree_id, vec![parent_commit], author(), author(), "Test commit message".to_string())
        .unwrap();
    let new_head = repo.head().unwrap();
    assert_eq!(new_head, commit_id);
    let commit_object = repo.storage().load_object(&commit_id).unwrap();
    assert!(commit_object.is_some());
    if let Some(GitObject::Commit(commit)) = commit_object {
        assert_eq!(commit.tree, tree_id);
        assert_eq!(commit.parents, vec![parent_commit]);
        assert_eq!(commit.message, "Test commit message");
        assert_eq!(commit.author.name, "Test Author");
        assert_eq!(commit.committer.name, "Test Author");
    } else {
        panic!("Expected commit object");
    }
}

#[test]
fn init_then_read() {
    let repo = init();
    let c0 = repo.head().unwrap();
    match repo.storage().load_object(&c0).unwrap() {
        Some(GitObject::Commit(commit)) => {
            assert!(commit.parents.is_empty());
            assert_eq!(commit.message, "Initial commit");
            match repo.storage().load_object(&commit.tree).unwrap() {
                Some(GitObject::Tree(tree)) => assert_eq!(tree.entries.len(), 0),
                _ => panic!("the first commit's tree is missing"),
            }
        }
        _ => panic!("HEAD does not lead to a commit"),
    }
    assert_eq!(repo.operation_log_size(), 1);
    assert_eq!(repo.get_current_branch().unwrap(), Some("main".to_string()));
}

#[test]
fn branch_lifecycle() {
    let mut repo = init();
    let head = repo.head().unwrap();
    repo.create_branch("feature", &head).unwrap();
    assert_eq!(repo.resolve("refs/heads/feature"), Some(head));
    assert_eq!(repo.operation_log_size(), 2);
    repo.delete_branch("feature").unwrap();
    assert!(!has_ref(&repo, "refs/heads/feature"));
    assert_eq!(repo.operation_log_size(), 3);
    let position = repo.operation_log_position();
    assert!(matches!(repo.undo().unwrap(), Some(Operation::DeleteBranch { .. })));
    assert!(has_ref(&repo, "refs/heads/feature"));
    assert_eq!(repo.operation_log_position(), position - 1);
    repo.redo().unwrap();
    assert!(!has_ref(&repo, "refs/heads/feature"));
}

#[test]
fn cannot_delete_current_branch_changes_nothing() {
    let mut repo = init();
    let head = repo.head().unwrap();
    repo.create_branch("x", &head).unwrap();
    repo.switch_branch("x").unwrap();
    let size = repo.operation_log_size();
    let position = repo.operation_log_position();
    let refs_before = repo.storage().reference_count();
    assert!(repo.delete_branch("x").is_err());
    assert_eq!(repo.operation_log_size(), size);
    assert_eq!(repo.operation_log_position(), position);
    assert_eq!(repo.storage().reference_count(), refs_before);
    assert!(has_ref(&repo, "refs/heads/x"));
}

#[test]
fn commit_moves_branch_not_head() {
    let mut repo = init();
    let c0 = repo.head().unwrap();
    let tree_id = empty_tree_id(&mut repo);
    let c1 = repo.commit(&tree_id, vec![c0], author(), author(), "second".to_string()).unwrap();
    assert_eq!(repo.resolve("refs/heads/main"), Some(c1));
    assert_eq!(repo.get_current_branch().unwrap(), Some("main".to_string()));
    let bad = Signature { email: "nobody".to_string(), ..author() };
    let size = repo.operation_log_size();
    assert!(matches!(
        repo.commit(&tree_id, vec![c1], bad, author(), "x".to_string()),
        Err(StorageError::InvalidObject { .. })
    ));
    assert_eq!(repo.operation_log_size(), size);
}

#[test]
fn new_record_after_undo_truncates() {
    let mut repo = init();
    let head = repo.head().unwrap();
    repo.create_branch("a", &head).unwrap();
    repo.create_branch("b", &head).unwrap();
    repo.create_branch("c", &head).unwrap();
    repo.undo().unwrap();
    repo.undo().unwrap();
    repo.create_branch("d", &head).unwrap();
    assert_eq!(repo.operation_log_size(), 3);
    assert_eq!(repo.operation_log_position(), 3);
    assert!(matches!(repo.peek_undo(), Some(Operation::CreateBranch { name, .. }) if name == "d"));
    assert!(repo.redo().unwrap().is_none());
    assert!(!has_ref(&repo, "refs/heads/b"));
    assert!(!has_ref(&repo, "refs/heads/c"));
    assert!(has_ref(&repo, "refs/heads/a"));
    assert!(has_ref(&repo, "refs/heads/d"));
}

#[test]
fn undo_of_first_commit_is_refused() {
    let mut repo = init();
    assert!(matches!(repo.undo(), Err(StorageError::CannotUndoInitial)));
    assert_eq!(repo.operation_log_position(), 1);
    assert!(repo.head().is_ok());
}

#[test]
fn undo_and_redo_at_the_ends_do_nothing() {
    let mut repo = Repository::open(MemoryStorage::new()).unwrap();
    assert!(repo.undo().unwrap().is_none());
    assert!(repo.redo().unwrap().is_none());
    assert!(repo.peek_undo().is_none());
    assert!(repo.peek_redo().is_none());
    assert!(matches!(repo.head(), Err(StorageError::RefNotFound { .. })));
}

#[test]
fn branch_creation_errors() {
    let mut repo = init();
    let head = repo.head().unwrap();
    for bad in ["", "has space", "a..b", "-x", "x/", "tab\tname"] {
        assert!(matches!(repo.create_branch(bad, &head), Err(StorageError::InvalidRefName { .. })), "{bad}");
    }
    let missing = ObjectId::from_blake3_bytes([3u8; 32]);
    assert!(matches!(repo.create_branch("ok", &missing), Err(StorageError::ObjectNotFound { .. })));
    assert!(matches!(repo.create_branch("main", &head), Err(StorageError::RefExists { .. })));
    assert!(matches!(repo.delete_branch("nope"), Err(StorageError::RefNotFound { .. })));
    assert!(matches!(repo.switch_branch("nope"), Err(StorageError::RefNotFound { .. })));
    assert_eq!(repo.operation_log_size(), 1);
}

#[test]
fn undo_restores_every_reference() {
    let mut repo = init();
    let start: Vec<(String, String)> = snapshot(&repo);
    let head = repo.head().unwrap();
    let tree_id = empty_tree_id(&mut repo);
    repo.create_branch("f", &head).unwrap();
    repo.switch_branch("f").unwrap();
    repo.commit(&tree_id, vec![head], author(), author(), "on f".to_string()).unwrap();
    repo.switch_branch("main").unwrap();
    repo.delete_branch("f").unwrap();
    let end = snapshot(&repo);
    for _ in 0..5 {
        repo.undo().unwrap().unwrap();
    }
    assert_eq!(snapshot(&repo), start);
    for _ in 0..5 {
        repo.redo().unwrap().unwrap();
    }
    assert_eq!(snapshot(&repo), end);
}

fn snapshot(repo: &Repository) -> Vec<(String, String)> {
    let mut v: Vec<(String, String)> = repo
        .storage()
        .list_refs()
        .unwrap()
        .into_iter()
        .filter(|r| r.name != "refs/logs/chain")
        .map(|r| (r.name, format!("{:?}", r.target)))
        .collect();
    v.sort();
    v
}

#[test]
fn commit_ancestry() {
    let mut repo = init();
    let c0 = repo.head().unwrap();
    let tree_id = empty_tree_id(&mut repo);
    let c1 = repo.commit(&tree_id, vec![c0], author(), author(), "c1".to_string()).unwrap();
    assert!(repo.is_ancestor(&c0, &c1));
    assert!(!repo.is_ancestor(&c1, &c0));
    assert!(repo.is_ancestor(&c1, &c1));
    assert_eq!(repo.merge_base(&c0, &c1), Some(c0));
    let c2 = repo.commit(&tree_id, vec![c1], author(), author(), "c2".to_string()).unwrap();
    repo.create_branch("side", &c0).unwrap();
    repo.switch_branch("side").unwrap();
    let s1 = repo.commit(&tree_id, vec![c0], author(), author(), "s1".to_string()).unwrap();
    assert!(repo.is_ancestor(&c0, &c2));
    assert!(!repo.is_ancestor(&s1, &c2));
    assert_eq!(repo.merge_base(&c2, &s1), Some(c0));
    let stray = ObjectId::from_blake3_bytes([4u8; 32]);
    assert_eq!(repo.merge_base(&stray, &c2), None);
    assert!(!repo.is_ancestor(&stray, &c2));
}

fn entry_for(name: &str) -> LogEntry {
    LogEntry {
        id: 7,
        timestamp: 0,
        operation: Operation::CreateBranch {
            name: name.to_string(),
            target: ObjectId::from_blake3_bytes([1u8; 32]),
            before_refs: vec![],
        },
        before_state: RepositoryState { head: None, refs: vec![], index_state: None },
        after_state: RepositoryState { head: None, refs: vec![], index_state: None },
        command_intent: CommandIntent { command: "branch".to_string(), args: vec![], working_directory: ".".to_string() },
        user_metadata: UserMetadata { user_name: None, user_email: None, session_id: None },
    }
}

#[test]
fn log_cursor_laws_and_compaction() {
    let mut log = OperationLog::new();
    let mut storage = MemoryStorage::new();
    assert!(log.current_entry().is_none());
    for name in ["a", "b", "c", "d"] {
        log.record(entry_for(name));
        assert_eq!(log.current_position(), log.total_operations());
    }
    assert!(matches!(&log.current_entry().unwrap().operation, Operation::CreateBranch { name, .. } if name == "d"));
    // Undoing a branch that is not in the store is refused and moves nothing.
    assert!(matches!(log.undo(&mut storage), Err(StorageError::RefNotFound { .. })));
    assert_eq!(log.current_position(), 4);
    for _ in 0..4 {
        log.redo(&mut storage).unwrap();
    }
    assert_eq!(log.current_position(), 4);
    log.compact(2);
    assert_eq!(log.total_operations(), 2);
    assert_eq!(log.current_position(), 2);
    assert!(matches!(log.peek_undo(), Some(Operation::CreateBranch { name, .. }) if name == "d"));
    log.compact(5);
    assert_eq!(log.total_operations(), 2);
}

#[test]
fn reopened_repository_continues_the_log() {
    let mut repo = init();
    let head = repo.head().unwrap();
    repo.create_branch("a", &head).unwrap();
    repo.create_branch("b", &head).unwrap();
    repo.undo().unwrap();
    assert!(has_ref(&repo, "refs/logs/chain"));
    let storage = repo.into_storage();
    let mut again = Repository::open(storage).unwrap();
    assert_eq!(again.operation_log_size(), 3);
    assert_eq!(again.operation_log_position(), 2);
    assert!(matches!(again.peek_redo(), Some(Operation::CreateBranch { name, .. }) if name == "b"));
    assert!(matches!(again.redo().unwrap(), Some(Operation::CreateBranch { .. })));
    assert!(has_ref(&again, "refs/heads/b"));
    assert_eq!(again.head().unwrap(), head);
    let storage = again.into_storage();
    let third = Repository::open(storage).unwrap();
    assert_eq!(third.operation_log_position(), 3);
}

#[test]
fn open_refuses_a_damaged_log() {
    let mut storage = MemoryStorage::new();
    let garbage = GitObject::Blob(gitnext::Blob::new(vec![1, 2, 3]));
    let id = garbage.canonical_hash();
    storage.store_object(&id, &garbage).unwrap();
    storage.update_ref("refs/logs/chain", &id).unwrap();
    assert!(matches!(Repository::open(storage), Err(StorageError::Serialization(_))));
    let fresh = Repository::open(MemoryStorage::new()).unwrap();
    assert_eq!(fresh.operation_log_size(), 0);
    assert!(has_ref(&fresh, "refs/logs/chain"));
}
