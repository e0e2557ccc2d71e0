//! A content-addressed object and reference store with a transactional
//! mutation log that drives undo and redo.

pub mod encoding;
pub mod object;
pub mod validate;
pub mod builder;
pub mod legacy;
pub mod storage;
pub mod refs;
pub mod oplog;
pub mod repository;
pub mod codec;
pub mod ancestry;
pub mod logcodec;

pub use builder::{BlobBuilder, CommitBuilder, TreeBuilder};
pub use legacy::{CompatHashDeriver, GitHash, GitHashType};
pub use object::{Blob, Commit, FileMode, GitNextError, GitObject, ObjectId, ObjectType, Signature, Tag, Tree, TreeEntry};
pub use oplog::{LogEntry, Operation, OperationLog};
pub use repository::Repository;
pub use storage::{MemoryStorage, MemoryTransaction, ReferenceTarget, StorageError};
pub use validate::{ObjectError, ObjectOps};
