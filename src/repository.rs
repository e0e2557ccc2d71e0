//! The repository: user-level operations over a store, each recorded in the
//! operation log so that it can be undone and redone.

use vstd::prelude::*;
use vstd::string::StringSliceAdditionalSpecFns;
use crate::ancestry::is_ancestor_of;
use crate::encoding::{le_bytes, lemma_le_bytes_len, length_prefixed};
use crate::logcodec::{decode_log, encode_log, log_bytes};
use crate::codec::{at, lemma_at_join, lemma_at_same, lemma_at_split, read_bytes, read_count, read_index};
use crate::object::{canonical_encode, content_address, copy_ids, tag_field, Blob, Commit, GitObject, ObjectId, Signature, Tree};
use crate::oplog::{
    id_view, lemma_effects_visible, recorded_from, redo_effect, redo_possible, same_operation,
    set_position, undo_effect, undo_possible, CommandIntent, LogEntry, Operation, OperationLog,
    RepositoryState, UserMetadata,
};
use crate::refs::{
    branch_of_head, branch_ref, branch_ref_name, chain_name, check_branch_name, current_branch,
    head_name, head_of, lemma_chain_is_no_user_name, lemma_current_branch_ref,
    lemma_current_branch_visible, lemma_head_is_no_branch, lemma_resolve_visible, resolve,
    resolve_ref, valid_branch_name, visible, MAX_SYMBOLIC_DEPTH,
};
use crate::storage::{listing_matches, MemoryStorage, Reference, ReferenceTarget, StorageError, TargetView};
use crate::validate::{commit_valid, ObjectOps};

verus! {

/// Relies on `uuid::Uuid::new_v4`: a random identifier; nothing is promised
/// of its value.
#[verifier::external_body]
fn fresh_entry_id() -> (r: u128) {
    uuid::Uuid::new_v4().as_u128()
}

/// Relies on `chrono::Utc::now`: the current time as seconds since the epoch;
/// nothing is promised of its value.
#[verifier::external_body]
fn now_seconds() -> (r: i64) {
    chrono::Utc::now().timestamp()
}

/// `s` describes the references `refs`.
pub open spec fn state_describes(s: RepositoryState, refs: Map<Seq<char>, TargetView>) -> bool {
    &&& listing_matches(s.refs@, refs)
    &&& id_view(s.head) == head_of(refs)
}

/// The current position is a direct reference: `HEAD` itself, or the branch
/// `HEAD` names.
pub open spec fn position_direct(refs: Map<Seq<char>, TargetView>) -> bool {
    match current_branch(refs) {
        Some(b) => refs.contains_key(branch_ref(b)) && refs[branch_ref(b)] is Direct,
        None => refs.contains_key(head_name()) && refs[head_name()] is Direct,
    }
}

/// The references a user sees, each once.
fn visible_refs(storage: &MemoryStorage) -> (r: Vec<Reference>)
    requires
        storage.wf(),
    ensures
        listing_matches(r@, visible(storage.refs())),
{
    let mut all = match storage.list_refs() {
        Ok(v) => v,
        Err(_) => Vec::new(),
    };
    let chain = "refs/logs/chain".to_owned();
    let mut i: usize = 0;
    while i < all.len() && all[i].name != chain
        invariant
            i <= all@.len(),
            chain@ == chain_name(),
            forall|k: int| 0 <= k < i ==> (#[trigger] all@[k]).name@ != chain_name(),
        decreases all@.len() - i,
    {
        i = i + 1;
    }
    let ghost v = all@;
    let ghost full = storage.refs();
    if i < all.len() {
        all.remove(i);
        proof {
            lemma_listing_without(v, full, i as int);
        }
    } else {
        proof {
            assert(!full.contains_key(chain_name())) by {
                if full.contains_key(chain_name()) {
                    let j = choose|j: int| 0 <= j < v.len() && #[trigger] v[j].name@ == chain_name();
                    assert(v[j].name@ != chain_name());
                }
            }
            assert(visible(full) =~= full);
        }
    }
    all
}

proof fn lemma_listing_without(v: Seq<Reference>, full: Map<Seq<char>, TargetView>, i: int)
    requires
        listing_matches(v, full),
        0 <= i < v.len(),
        v[i].name@ == chain_name(),
    ensures
        listing_matches(v.remove(i), visible(full)),
{
    let w = v.remove(i);
    let m = visible(full);
    assert forall|a: int| 0 <= a < w.len() implies #[trigger] m.contains_key(w[a].name@) && m[w[a].name@] == w[a].target@ by {
        let b = if a < i { a } else { a + 1 };
        assert(w[a] == v[b]);
        assert(v[b].name@ != v[i].name@);
        assert(full.contains_key(v[b].name@));
    }
    assert forall|k: Seq<char>| #[trigger] m.contains_key(k) implies exists|j: int| 0 <= j < w.len() && #[trigger] w[j].name@ == k by {
        assert(full.contains_key(k));
        let j = choose|j: int| 0 <= j < v.len() && #[trigger] v[j].name@ == k;
        assert(j != i);
        if j < i {
            assert(w[j].name@ == k);
        } else {
            assert(w[j - 1].name@ == k);
        }
    }
    assert forall|a: int, b: int| 0 <= a < b < w.len() implies (#[trigger] w[a].name@) != (#[trigger] w[b].name@) by {
        let a0 = if a < i { a } else { a + 1 };
        let b0 = if b < i { b } else { b + 1 };
        assert(v[a0].name@ != v[b0].name@);
    }
}

fn snapshot(storage: &MemoryStorage) -> (r: RepositoryState)
    requires
        storage.wf(),
    ensures
        state_describes(r, visible(storage.refs())),
{
    let head = resolve_ref(storage, "HEAD");
    proof {
        lemma_resolve_visible(storage.refs(), head_name(), MAX_SYMBOLIC_DEPTH as nat);
    }
    let refs = visible_refs(storage);
    RepositoryState { head, refs, index_state: None }
}

/// The canonical bytes of the blob that holds a log's stored form.
pub open spec fn stored_log(cursor: nat, entries: Seq<LogEntry>) -> Seq<u8> {
    let b = log_bytes(cursor, entries);
    tag_field(0) + seq![1u8] + length_prefixed(b) + le_bytes(b.len(), 8)
}

/// The log's reference leads directly to a blob holding the stored form of a
/// log whose cursor lies within its entries.
pub open spec fn keeps_a_log(refs: Map<Seq<char>, TargetView>, objects: Map<Seq<u8>, Seq<u8>>) -> bool {
    &&& refs.contains_key(chain_name())
    &&& match refs[chain_name()] {
        TargetView::Direct(a) => objects.contains_key(a) && exists|c: nat, es: Seq<LogEntry>|
            c <= es.len() && #[trigger] stored_log(c, es) == objects[a],
        TargetView::Symbolic(_) => false,
    }
}

/// The canonical bytes of a blob holding `x`.
pub open spec fn blob_of(x: Seq<u8>) -> Seq<u8> {
    tag_field(0) + seq![1u8] + length_prefixed(x) + le_bytes(x.len(), 8)
}

/// The content of a blob, read from its canonical bytes.
#[verifier::rlimit(60)]
fn blob_payload(b: &[u8], Ghost(x): Ghost<Seq<u8>>) -> (r: Option<Vec<u8>>)
    ensures
        r matches Some(v) ==> b@ == blob_of(v@),
        b@ == blob_of(x) ==> (r matches Some(v) && v@ == x),
{
    let ghost exp = b@ == blob_of(x);
    proof {
        lemma_le_bytes_len(0, 4);
        lemma_le_bytes_len(x.len(), 8);
        reveal_with_fuel(le_bytes, 2);
        assert(le_bytes(1, 1) =~= seq![1u8]);
        if exp {
            assert(b@.subrange(0, b@.len() as int) =~= b@);
            let p = tag_field(0) + le_bytes(1, 1);
            assert(b@ =~= p + le_bytes(x.len(), 8) + x + le_bytes(x.len(), 8));
            lemma_at_split(b@, 0, p + le_bytes(x.len(), 8) + x, le_bytes(x.len(), 8));
            lemma_at_split(b@, 0, p + le_bytes(x.len(), 8), x);
            lemma_at_split(b@, 0, p, le_bytes(x.len(), 8));
            lemma_at_split(b@, 0, tag_field(0), le_bytes(1, 1));
        }
    }
    let (tag, p1) = read_index(b, 0, 4, Ghost(0))?;
    let (flag, p2) = read_index(b, p1, 1, Ghost(1))?;
    if tag != 0 || flag != 1 {
        return None;
    }
    let (len, p3) = read_count(b, p2, Ghost(x.len()))?;
    let (payload, p4) = read_bytes(b, p3, len)?;
    let (size, p5) = read_count(b, p4, Ghost(x.len()))?;
    if size != len || p5 != b.len() {
        return None;
    }
    proof {
        lemma_le_bytes_len(len as nat, 8);
        lemma_le_bytes_len(size as nat, 8);
        reveal_with_fuel(le_bytes, 2);
        if exp {
            lemma_at_same(b@, 13, payload@, x);
        }
        let p = tag_field(0) + le_bytes(1, 1);
        lemma_at_join(b@, 0, tag_field(0), le_bytes(1, 1));
        lemma_at_join(b@, 0, p, le_bytes(len as nat, 8));
        lemma_at_join(b@, 0, p + le_bytes(len as nat, 8), payload@);
        lemma_at_join(b@, 0, p + le_bytes(len as nat, 8) + payload@, le_bytes(size as nat, 8));
        assert(b@ =~= blob_of(payload@));
    }
    Some(payload)
}

/// The log held by the blob at `id`. It is found exactly when that blob holds
/// the stored form of a log whose cursor lies within its entries.
fn read_stored_log(storage: &MemoryStorage, id: &ObjectId) -> (r: Option<OperationLog>)
    requires
        storage.wf(),
    ensures
        r matches Some(log) ==> log.wf() && storage.objects().contains_key(id@) && storage.objects()[id@]
            == stored_log(log.cursor(), log.entries()),
        storage.objects().contains_key(id@) && (exists|c: nat, es: Seq<LogEntry>|
            c <= es.len() && #[trigger] stored_log(c, es) == storage.objects()[id@]) ==> r is Some,
{
    let ghost objs = storage.objects();
    let loaded = match storage.load_object(id) {
        Ok(o) => o,
        Err(_) => None,
    };
    let o = loaded?;
    let bytes = canonical_encode(&o);
    let ghost found = exists|c: nat, es: Seq<LogEntry>| c <= es.len() && #[trigger] stored_log(c, es) == objs[id@];
    let ghost (ec, ees) = if found {
        choose|c: nat, es: Seq<LogEntry>| c <= es.len() && #[trigger] stored_log(c, es) == objs[id@]
    } else {
        (0nat, Seq::<LogEntry>::empty())
    };
    let payload = blob_payload(bytes.as_slice(), Ghost(log_bytes(ec, ees)))?;
    let (cursor, entries) = decode_log(payload.as_slice())?;
    Some(OperationLog::from_parts(cursor, entries))
}

/// Writes the log as a blob and points the log's reference at it.
fn persist_log(storage: &mut MemoryStorage, log: &OperationLog)
    requires
        old(storage).wf(),
        log.wf(),
    ensures
        final(storage).wf(),
        visible(final(storage).refs()) == visible(old(storage).refs()),
        final(storage).refs().contains_key(chain_name()),
        final(storage).refs()[chain_name()] matches TargetView::Direct(a) && final(storage).objects()
            == old(storage).objects().insert(a, stored_log(log.cursor(), log.entries())),
{
    let bytes = encode_log(log.current_position(), log.entry_list());
    let ghost b = bytes@;
    let blob = GitObject::Blob(Blob::new(bytes));
    let id = blob.canonical_hash();
    let _ = storage.store_object(&id, &blob);
    let _ = storage.update_ref("refs/logs/chain", &id);
    proof {
        assert(blob@ == stored_log(log.cursor(), log.entries()));
        assert(visible(storage.refs()) =~= visible(old(storage).refs()));
    }
}

fn new_entry(operation: Operation, before_state: RepositoryState, after_state: RepositoryState, command: &str, args: Vec<String>) -> (r: LogEntry)
    ensures
        r.operation == operation,
        r.before_state == before_state,
        r.after_state == after_state,
{
    LogEntry {
        id: fresh_entry_id(),
        timestamp: now_seconds(),
        operation,
        before_state,
        after_state,
        command_intent: CommandIntent { command: command.to_owned(), args, working_directory: ".".to_owned() },
        user_metadata: UserMetadata { user_name: None, user_email: None, session_id: None },
    }
}

/// A store with its operation log. The log is kept in the store itself, as
/// one blob under `refs/logs/chain` holding the cursor and every entry, and is
/// written again whenever it changes.
pub struct Repository {
    storage: MemoryStorage,
    operation_log: OperationLog,
}

impl Repository {
    /// The references, all but the one under which the log is kept.
    pub closed spec fn refs(&self) -> Map<Seq<char>, TargetView> {
        visible(self.storage.refs())
    }

    /// Where the stored log is, when it is stored.
    pub closed spec fn log_address(&self) -> Seq<u8> {
        match self.storage.refs()[chain_name()] {
            TargetView::Direct(a) => a,
            TargetView::Symbolic(_) => Seq::empty(),
        }
    }

    /// The canonical bytes of the blob that holds this log.
    pub open spec fn log_blob(&self) -> Seq<u8> {
        stored_log(self.cursor(), self.log())
    }

    /// The store holds this log, under the log's reference.
    pub closed spec fn log_stored(&self) -> bool {
        &&& self.storage.refs().contains_key(chain_name())
        &&& self.storage.refs()[chain_name()] is Direct
        &&& self.storage.objects().contains_key(self.log_address())
        &&& self.storage.objects()[self.log_address()] == self.log_blob()
    }

    pub closed spec fn objects(&self) -> Map<Seq<u8>, Seq<u8>> {
        self.storage.objects()
    }

    pub closed spec fn log(&self) -> Seq<LogEntry> {
        self.operation_log.entries()
    }

    pub closed spec fn cursor(&self) -> nat {
        self.operation_log.cursor()
    }

    pub closed spec fn wf(&self) -> bool {
        self.storage.wf() && self.operation_log.wf()
    }

    /// One entry was recorded for a step from `old` to `new`: the undone
    /// entries were dropped, the new one appended with the cursor after it,
    /// the references moved as the entry says, and the entry's snapshots
    /// describe the references before and after.
    pub open spec fn logged_step(old: Repository, new: Repository) -> bool {
        let e = new.log().last();
        &&& new.log().len() == old.cursor() + 1
        &&& new.log() == old.log().subrange(0, old.cursor() as int).push(e)
        &&& new.cursor() == new.log().len()
        &&& new.refs() == redo_effect(old.refs(), e.operation)
        &&& state_describes(e.before_state, old.refs())
        &&& state_describes(e.after_state, new.refs())
        &&& new.log_stored()
    }

    /// Nothing observable changed.
    pub open spec fn unchanged(old: Repository, new: Repository) -> bool {
        &&& new.refs() == old.refs()
        &&& new.objects() == old.objects()
        &&& new.log() == old.log()
        &&& new.cursor() == old.cursor()
    }

    fn record(&mut self, operation: Operation, before_state: RepositoryState, command: &str, args: Vec<String>)
        requires
            old(self).wf(),
        ensures
            final(self).wf(),
            final(self).refs() == old(self).refs(),
            final(self).objects() == old(self).objects().insert(final(self).log_address(), final(self).log_blob()),
            final(self).log() == old(self).log().subrange(0, old(self).cursor() as int).push(final(self).log().last()),
            final(self).cursor() == final(self).log().len(),
            final(self).log().last().operation == operation,
            final(self).log().last().before_state == before_state,
            state_describes(final(self).log().last().after_state, final(self).refs()),
            final(self).log_stored(),
    {
        let after_state = snapshot(&self.storage);
        let entry = new_entry(operation, before_state, after_state, command, args);
        self.operation_log.record(entry);
        persist_log(&mut self.storage, &self.operation_log);
    }

    /// Writes the log again after the cursor moved.
    fn store_log(&mut self)
        requires
            old(self).wf(),
        ensures
            final(self).wf(),
            final(self).refs() == old(self).refs(),
            final(self).log() == old(self).log(),
            final(self).cursor() == old(self).cursor(),
            final(self).objects() == old(self).objects().insert(final(self).log_address(), final(self).log_blob()),
            final(self).log_stored(),
    {
        persist_log(&mut self.storage, &self.operation_log);
    }

    /// Creates an empty tree and a first commit over it, points the branch
    /// `main` at that commit and `HEAD` at `main`, and records the commit as
    /// the first entry of the log.
    #[verifier::rlimit(30)]
    pub fn init(storage: MemoryStorage) -> (r: Result<Repository, StorageError>)
        requires
            storage.wf(),
        ensures
            r matches Ok(repo) && repo.wf() && repo.log().len() == 1 && repo.cursor() == 1 && repo.log_stored()
                && state_describes(repo.log()[0].before_state, visible(storage.refs())) && state_describes(
                repo.log()[0].after_state,
                repo.refs(),
            ) && (
            repo.log()[0].operation matches Operation::Commit { before_head, after_head, tree, .. } && before_head
                is None && repo.refs() == visible(storage.refs()).insert(
                branch_ref("main"@),
                TargetView::Direct(after_head@),
            ).insert(head_name(), TargetView::Symbolic(branch_ref("main"@))) && head_of(repo.refs()) == Some(
                after_head@,
            ) && (exists|t: Tree, c: Commit|
                #![trigger GitObject::Tree(t)@, GitObject::Commit(c)@]
                t.entries@.len() == 0 && content_address(GitObject::Tree(t)) == tree@ && c.tree == tree
                    && c.parents@.len() == 0 && c.message@ == "Initial commit"@ && repo.objects()
                    == storage.objects().insert(tree@, GitObject::Tree(t)@).insert(
                    after_head@,
                    GitObject::Commit(c)@,
                ).insert(repo.log_address(), repo.log_blob()))),
    {
        let mut storage = storage;
        let ghost r0 = storage.refs();
        let ghost o0 = storage.objects();
        let before_state = snapshot(&storage);
        let empty = Tree::new(Vec::new());
        let ghost t0 = empty;
        let empty_tree = GitObject::Tree(empty);
        let tree_id = empty_tree.canonical_hash();
        let _ = storage.store_object(&tree_id, &empty_tree);
        let author = Signature {
            name: "GitNext".to_owned(),
            email: "gitnext@system".to_owned(),
            timestamp: now_seconds(),
            timezone_offset: 0,
        };
        let committer = author.clone();
        let initial = Commit {
            tree: tree_id,
            parents: Vec::new(),
            author,
            committer,
            message: "Initial commit".to_owned(),
        };
        let ghost c0 = initial;
        let commit_object = GitObject::Commit(initial);
        let commit_id = commit_object.canonical_hash();
        let _ = storage.store_object(&commit_id, &commit_object);
        let main_ref = branch_ref_name("main");
        let _ = storage.update_ref(main_ref.as_str(), &commit_id);
        let _ = storage.update_symbolic_ref("HEAD", main_ref.as_str());
        proof {
            lemma_head_is_no_branch("main"@);
            lemma_chain_is_no_user_name("main"@);
            reveal_with_fuel(resolve, 3);
            assert(visible(storage.refs()) =~= visible(r0).insert(branch_ref("main"@), TargetView::Direct(commit_id@)).insert(
                head_name(),
                TargetView::Symbolic(branch_ref("main"@)),
            ));
            lemma_resolve_visible(storage.refs(), head_name(), MAX_SYMBOLIC_DEPTH as nat);
        }
        let operation = Operation::Commit {
            before_head: None,
            after_head: commit_id,
            tree: tree_id,
            message: "Initial commit".to_owned(),
            parents: Vec::new(),
        };
        let mut repo = Repository { storage, operation_log: OperationLog::new() };
        repo.record(operation, before_state, "init", Vec::new());
        assert(content_address(GitObject::Tree(t0)) == tree_id@);
        assert(repo.objects() == o0.insert(tree_id@, GitObject::Tree(t0)@).insert(commit_id@, GitObject::Commit(c0)@).insert(
            repo.log_address(),
            repo.log_blob(),
        ));
        Ok(repo)
    }

    /// A repository over an existing store. A log kept in the store is read
    /// back and continued; a store without one gets an empty log, which is
    /// written to it. A log reference that does not lead to a well-formed log
    /// is reported with `Serialization`.
    pub fn open(storage: MemoryStorage) -> (r: Result<Repository, StorageError>)
        requires
            storage.wf(),
        ensures
            r matches Ok(repo) ==> repo.wf() && repo.refs() == visible(storage.refs()) && repo.log_stored(),
            !storage.refs().contains_key(chain_name()) ==> (r matches Ok(repo) && repo.log().len() == 0
                && repo.cursor() == 0 && repo.objects() == storage.objects().insert(repo.log_address(), repo.log_blob())),
            storage.refs().contains_key(chain_name()) ==> (r matches Ok(repo) ==> repo.objects() == storage.objects()
                && storage.refs()[chain_name()] == TargetView::Direct(repo.log_address())),
            keeps_a_log(storage.refs(), storage.objects()) ==> (r matches Ok(repo) && repo.log_blob()
                == storage.objects()[repo.log_address()]),
            r matches Err(e) ==> e is Serialization && storage.refs().contains_key(chain_name()),
    {
        let mut storage = storage;
        let stored = storage.get_ref("refs/logs/chain");
        match stored {
            None => {
                let log = OperationLog::new();
                persist_log(&mut storage, &log);
                Ok(Repository { storage, operation_log: log })
            },
            Some(ReferenceTarget::Direct(id)) => match read_stored_log(&storage, &id) {
                Some(log) => {
                    let repo = Repository { storage, operation_log: log };
                    assert(repo.log_stored());
                    Ok(repo)
                },
                None => Err(StorageError::Serialization("Malformed operation log".to_owned())),
            },
            Some(ReferenceTarget::Symbolic(_)) => Err(StorageError::Serialization("Malformed operation log".to_owned())),
        }
    }

    /// The store, given up.
    pub fn into_storage(self) -> (r: MemoryStorage)
        ensures
            self.wf() ==> r.wf(),
            visible(r.refs()) == self.refs(),
            r.objects() == self.objects(),
    {
        self.storage
    }

    /// The store, for reading.
    pub fn storage(&self) -> (r: &MemoryStorage)
        ensures
            self.wf() ==> r.wf(),
            visible(r.refs()) == self.refs(),
            r.objects() == self.objects(),
    {
        &self.storage
    }

    /// Stores an object under its claimed identity; see
    /// `MemoryStorage::store_object`.
    pub fn store_object(&mut self, id: &ObjectId, object: &GitObject) -> (r: Result<(), StorageError>)
        requires
            old(self).wf(),
        ensures
            final(self).wf(),
            final(self).refs() == old(self).refs(),
            final(self).log() == old(self).log(),
            final(self).cursor() == old(self).cursor(),
            r is Ok <==> id@ == content_address(*object),
            r is Ok ==> final(self).objects() == old(self).objects().insert(id@, object@),
            r matches Err(e) ==> (e matches StorageError::CorruptionDetected { id: i, .. } && i == *id)
                && final(self).objects() == old(self).objects(),
    {
        self.storage.store_object(id, object)
    }

    /// The commit `HEAD` leads to.
    pub fn head(&self) -> (r: Result<ObjectId, StorageError>)
        requires
            self.wf(),
        ensures
            head_of(self.refs()) matches Some(h) ==> (r matches Ok(id) && id@ == h),
            head_of(self.refs()) is None ==> (r matches Err(e) && e is RefNotFound),
    {
        proof {
            lemma_resolve_visible(self.storage.refs(), head_name(), MAX_SYMBOLIC_DEPTH as nat);
        }
        match resolve_ref(&self.storage, "HEAD") {
            Some(id) => Ok(id),
            None => Err(StorageError::RefNotFound { name: "HEAD".to_owned() }),
        }
    }

    /// Follows a reference to an object.
    pub fn resolve(&self, name: &str) -> (r: Option<ObjectId>)
        requires
            self.wf(),
        ensures
            id_view(r) == resolve(self.refs(), name@, MAX_SYMBOLIC_DEPTH as nat),
    {
        proof {
            lemma_resolve_visible(self.storage.refs(), name@, MAX_SYMBOLIC_DEPTH as nat);
        }
        resolve_ref(&self.storage, name)
    }

    /// The branch `HEAD` names, if any.
    pub fn get_current_branch(&self) -> (r: Result<Option<String>, StorageError>)
        requires
            self.wf(),
        ensures
            r matches Ok(b) && (b matches Some(s) ==> current_branch(self.refs()) == Some(s@)) && (b is None
                ==> current_branch(self.refs()) is None),
    {
        proof {
            lemma_current_branch_visible(self.storage.refs());
        }
        Ok(branch_of_head(&self.storage))
    }

    /// Creates the branch `name` at `target`. The name must follow the naming
    /// rules (`InvalidRefName`), the target must be stored (`ObjectNotFound`),
    /// and the branch must not exist yet (`RefExists`); on any of these nothing
    /// changes.
    #[verifier::rlimit(30)]
    pub fn create_branch(&mut self, name: &str, target: &ObjectId) -> (r: Result<(), StorageError>)
        requires
            old(self).wf(),
        ensures
            final(self).wf(),
            r is Ok <==> valid_branch_name(name.spec_bytes()) && old(self).objects().contains_key(target@)
                && !old(self).refs().contains_key(branch_ref(name@)),
            r matches Err(e) ==> Self::unchanged(*old(self), *final(self)) && (if !valid_branch_name(
                name.spec_bytes(),
            ) {
                e is InvalidRefName
            } else if !old(self).objects().contains_key(target@) {
                e is ObjectNotFound
            } else {
                e is RefExists
            }),
            r is Ok ==> Self::logged_step(*old(self), *final(self)) && final(self).objects() == old(self).objects().insert(
                final(self).log_address(),
                final(self).log_blob(),
            ) && final(self).refs() == old(self).refs().insert(branch_ref(name@), TargetView::Direct(target@))
                && recorded_from(old(self).refs(), final(self).log().last().operation)
                && (final(self).log().last().operation matches Operation::CreateBranch { name: n, target: t, .. }
                && n@ == name@ && t == *target),
    {
        check_branch_name(name)?;
        match self.storage.load_object(target) {
            Ok(Some(_)) => {},
            _ => {
                return Err(StorageError::ObjectNotFound { id: *target });
            },
        }
        let branch = branch_ref_name(name);
        proof {
            lemma_chain_is_no_user_name(name@);
        }
        if self.storage.get_ref(branch.as_str()).is_some() {
            return Err(StorageError::RefExists { name: branch });
        }
        let before_state = snapshot(&self.storage);
        let before_refs = visible_refs(&self.storage);
        let ghost r0 = self.storage.refs();
        let _ = self.storage.update_ref(branch.as_str(), target);
        proof {
            assert(visible(self.storage.refs()) =~= visible(r0).insert(branch_ref(name@), TargetView::Direct(target@)));
        }
        let operation = Operation::CreateBranch { name: name.to_owned(), target: *target, before_refs };
        let mut args: Vec<String> = Vec::new();
        args.push(name.to_owned());
        self.record(operation, before_state, "branch", args);
        Ok(())
    }

    /// Deletes the branch `name`. A branch that does not exist as a direct
    /// reference is reported with `RefNotFound`; the branch `HEAD` is on cannot
    /// be deleted (`Backend`). On either, nothing changes.
    #[verifier::rlimit(30)]
    pub fn delete_branch(&mut self, name: &str) -> (r: Result<(), StorageError>)
        requires
            old(self).wf(),
        ensures
            final(self).wf(),
            ({
                let br = branch_ref(name@);
                let present = old(self).refs().contains_key(br) && old(self).refs()[br] is Direct;
                &&& r is Ok <==> present && current_branch(old(self).refs()) != Some(name@)
                &&& r matches Err(e) ==> Self::unchanged(*old(self), *final(self)) && (if !present {
                    e is RefNotFound
                } else {
                    e is Backend
                })
                &&& r is Ok ==> Self::logged_step(*old(self), *final(self)) && final(self).objects()
                    == old(self).objects().insert(final(self).log_address(), final(self).log_blob()) && final(self).refs() == old(self).refs().remove(br) && recorded_from(
                    old(self).refs(),
                    final(self).log().last().operation,
                ) && (final(self).log().last().operation matches Operation::DeleteBranch {
                    name: n,
                    deleted_target: t,
                    ..
                } && n@ == name@ && old(self).refs()[br] == TargetView::Direct(t@))
            }),
    {
        let branch = branch_ref_name(name);
        proof {
            lemma_chain_is_no_user_name(name@);
            lemma_current_branch_visible(self.storage.refs());
        }
        let deleted_target = match self.storage.get_ref(branch.as_str()) {
            Some(ReferenceTarget::Direct(id)) => id,
            _ => {
                return Err(StorageError::RefNotFound { name: branch });
            },
        };
        match branch_of_head(&self.storage) {
            Some(current) => {
                if current == name.to_owned() {
                    return Err(StorageError::Backend("Cannot delete current branch".to_owned()));
                }
            },
            None => {},
        }
        let before_state = snapshot(&self.storage);
        let before_refs = visible_refs(&self.storage);
        let ghost r0 = self.storage.refs();
        let _ = self.storage.delete_ref(branch.as_str());
        proof {
            assert(visible(self.storage.refs()) =~= visible(r0).remove(branch_ref(name@)));
        }
        let operation = Operation::DeleteBranch { name: name.to_owned(), deleted_target, before_refs };
        let mut args: Vec<String> = Vec::new();
        args.push("-d".to_owned());
        args.push(name.to_owned());
        self.record(operation, before_state, "branch", args);
        Ok(())
    }

    /// Puts `HEAD` on the branch `name`. `HEAD` must lead to a commit and the
    /// branch must exist as a direct reference (`RefNotFound` otherwise, and
    /// nothing changes).
    #[verifier::rlimit(30)]
    pub fn switch_branch(&mut self, name: &str) -> (r: Result<(), StorageError>)
        requires
            old(self).wf(),
        ensures
            final(self).wf(),
            ({
                let br = branch_ref(name@);
                let present = old(self).refs().contains_key(br) && old(self).refs()[br] is Direct;
                &&& r is Ok <==> head_of(old(self).refs()) is Some && present
                &&& r matches Err(e) ==> Self::unchanged(*old(self), *final(self)) && (e matches StorageError::RefNotFound {
                    name: n,
                } && n@ == (if head_of(old(self).refs()) is None {
                    head_name()
                } else {
                    br
                }))
                &&& r is Ok ==> Self::logged_step(*old(self), *final(self)) && final(self).objects()
                    == old(self).objects().insert(final(self).log_address(), final(self).log_blob()) && final(self).refs() == old(self).refs().insert(head_name(), TargetView::Symbolic(br)) && (final(self).log().last().operation matches Operation::SwitchBranch {
                    to_branch,
                    before_head,
                    after_head,
                    ..
                } && to_branch@ == name@ && head_of(old(self).refs()) == Some(before_head@) && old(self).refs()[br]
                    == TargetView::Direct(after_head@)) && (position_direct(old(self).refs()) ==> recorded_from(
                    old(self).refs(),
                    final(self).log().last().operation,
                ))
            }),
    {
        proof {
            lemma_chain_is_no_user_name(name@);
            lemma_current_branch_visible(self.storage.refs());
            lemma_resolve_visible(self.storage.refs(), head_name(), MAX_SYMBOLIC_DEPTH as nat);
        }
        let before_head = match resolve_ref(&self.storage, "HEAD") {
            Some(h) => h,
            None => {
                return Err(StorageError::RefNotFound { name: "HEAD".to_owned() });
            },
        };
        let branch = branch_ref_name(name);
        let target_commit = match self.storage.get_ref(branch.as_str()) {
            Some(ReferenceTarget::Direct(id)) => id,
            _ => {
                return Err(StorageError::RefNotFound { name: branch });
            },
        };
        let from_branch = branch_of_head(&self.storage);
        proof {
            reveal_with_fuel(resolve, 3);
            if current_branch(self.storage.refs()) is Some {
                lemma_current_branch_ref(self.storage.refs());
            }
        }
        let before_state = snapshot(&self.storage);
        let ghost r0 = self.storage.refs();
        let _ = self.storage.update_symbolic_ref("HEAD", branch.as_str());
        let operation = Operation::SwitchBranch {
            from_branch,
            to_branch: name.to_owned(),
            before_head,
            after_head: target_commit,
        };
        proof {
            lemma_effects_visible(r0, operation);
            assert(self.storage.refs() == redo_effect(r0, operation));
        }
        let mut args: Vec<String> = Vec::new();
        args.push(name.to_owned());
        self.record(operation, before_state, "switch", args);
        Ok(())
    }

    /// Writes a commit and moves the current position to it: the branch
    /// `HEAD` is on, or `HEAD` itself when it names no branch. The object and
    /// the reference change together, in one transaction. A commit that breaks
    /// the validation rules is refused with `InvalidObject` and nothing
    /// changes.
    #[verifier::rlimit(30)]
    pub fn commit(
        &mut self,
        tree: &ObjectId,
        parents: Vec<ObjectId>,
        author: Signature,
        committer: Signature,
        message: String,
    ) -> (r: Result<ObjectId, StorageError>)
        requires
            old(self).wf(),
        ensures
            final(self).wf(),
            ({
                let c = Commit { tree: *tree, parents, author, committer, message };
                let o = GitObject::Commit(c);
                &&& r is Ok <==> commit_valid(c)
                &&& r matches Err(e) ==> Self::unchanged(*old(self), *final(self)) && e is InvalidObject
                &&& r matches Ok(id) ==> id@ == content_address(o) && Self::logged_step(*old(self), *final(self))
                    && final(self).objects() == old(self).objects().insert(id@, o@).insert(
                    final(self).log_address(),
                    final(self).log_blob(),
                ) && final(self).refs()
                    == set_position(old(self).refs(), id@) && (final(self).log().last().operation matches Operation::Commit {
                    before_head,
                    after_head,
                    ..
                } && after_head == id && id_view(before_head) == head_of(old(self).refs())) && (position_direct(
                    old(self).refs(),
                ) ==> recorded_from(old(self).refs(), final(self).log().last().operation))
            }),
    {
        let ghost c0 = Commit { tree: *tree, parents, author, committer, message };
        let log_message = message.clone();
        let log_parents = copy_ids(&parents);
        let commit = Commit { tree: *tree, parents, author, committer, message };
        match commit.validate() {
            Ok(()) => {},
            Err(_) => {
                return Err(StorageError::InvalidObject { reason: "Invalid commit".to_owned() });
            },
        }
        proof {
            lemma_current_branch_visible(self.storage.refs());
            lemma_resolve_visible(self.storage.refs(), head_name(), MAX_SYMBOLIC_DEPTH as nat);
        }
        let before_head = resolve_ref(&self.storage, "HEAD");
        let commit_object = GitObject::Commit(commit);
        let commit_id = commit_object.canonical_hash();
        let before_state = snapshot(&self.storage);
        let mut tx = match self.storage.transaction() {
            Ok(t) => t,
            Err(e) => {
                return Err(e);
            },
        };
        let _ = tx.store_object(&commit_id, &commit_object);
        let position = match branch_of_head(&self.storage) {
            Some(b) => branch_ref_name(b.as_str()),
            None => "HEAD".to_owned(),
        };
        let _ = tx.update_ref(position.as_str(), &commit_id);
        let ghost o0 = self.storage.objects();
        let ghost r0 = self.storage.refs();
        let _ = tx.commit(&mut self.storage);
        proof {
            assert(self.storage.objects() =~= o0.insert(commit_id@, commit_object@));
            assert(self.storage.refs() =~= set_position(r0, commit_id@));
            reveal_with_fuel(resolve, 3);
            if current_branch(r0) is Some {
                lemma_current_branch_ref(r0);
            }
        }
        let operation = Operation::Commit {
            before_head,
            after_head: commit_id,
            tree: *tree,
            message: log_message,
            parents: log_parents,
        };
        proof {
            lemma_effects_visible(r0, operation);
        }
        let mut args: Vec<String> = Vec::new();
        args.push("-m".to_owned());
        self.record(operation, before_state, "commit", args);
        Ok(commit_id)
    }

    /// Whether `a` is `d` or one of its ancestors through parent links.
    pub fn is_ancestor(&self, a: &ObjectId, d: &ObjectId) -> (r: bool)
        requires
            self.wf(),
        ensures
            r == is_ancestor_of(self.objects(), a@, d@),
    {
        crate::ancestry::is_ancestor(&self.storage, a, d)
    }

    /// A common ancestor of `a` and `b`, or none when they have none.
    pub fn merge_base(&self, a: &ObjectId, b: &ObjectId) -> (r: Option<ObjectId>)
        requires
            self.wf(),
        ensures
            r matches Some(m) ==> is_ancestor_of(self.objects(), m@, a@) && is_ancestor_of(self.objects(), m@, b@),
            r is None ==> forall|x: Seq<u8>|
                !(#[trigger] is_ancestor_of(self.objects(), x, a@) && is_ancestor_of(self.objects(), x, b@)),
    {
        crate::ancestry::merge_base(&self.storage, a, b)
    }

    /// Undoes the latest operation in effect and keeps the log's new cursor
    /// in the store; see `OperationLog::undo`.
    pub fn undo(&mut self) -> (r: Result<Option<Operation>, StorageError>)
        requires
            old(self).wf(),
        ensures
            final(self).wf(),
            final(self).log() == old(self).log(),
            old(self).cursor() == 0 ==> (r matches Ok(None) && Self::unchanged(*old(self), *final(self))),
            old(self).cursor() > 0 ==> {
                let op = old(self).log()[old(self).cursor() - 1].operation;
                &&& (r is Ok <==> undo_possible(old(self).refs(), op))
                &&& r matches Ok(found) ==> (found matches Some(o) && same_operation(o, op))
                    && final(self).cursor() == old(self).cursor() - 1 && final(self).refs() == undo_effect(
                    old(self).refs(),
                    op,
                ) && final(self).objects() == old(self).objects().insert(
                    final(self).log_address(),
                    final(self).log_blob(),
                ) && final(self).log_stored()
                &&& r is Err ==> Self::unchanged(*old(self), *final(self))
            },
    {
        let ghost r0 = self.storage.refs();
        if self.operation_log.current_position() > 0 {
            proof {
                lemma_effects_visible(r0, self.operation_log.entries()[self.operation_log.cursor() - 1].operation);
            }
        }
        let r = self.operation_log.undo(&mut self.storage);
        match r {
            Ok(Some(_)) => self.store_log(),
            _ => {},
        }
        r
    }

    /// Redoes the first undone operation and keeps the log's new cursor in
    /// the store; see `OperationLog::redo`.
    pub fn redo(&mut self) -> (r: Result<Option<Operation>, StorageError>)
        requires
            old(self).wf(),
        ensures
            final(self).wf(),
            final(self).log() == old(self).log(),
            old(self).cursor() == old(self).log().len() ==> (r matches Ok(None) && Self::unchanged(
                *old(self),
                *final(self),
            )),
            old(self).cursor() < old(self).log().len() ==> {
                let op = old(self).log()[old(self).cursor() as int].operation;
                &&& (r is Ok <==> redo_possible(old(self).refs(), op))
                &&& r matches Ok(found) ==> (found matches Some(o) && same_operation(o, op))
                    && final(self).cursor() == old(self).cursor() + 1 && final(self).refs() == redo_effect(
                    old(self).refs(),
                    op,
                ) && final(self).objects() == old(self).objects().insert(
                    final(self).log_address(),
                    final(self).log_blob(),
                ) && final(self).log_stored()
                &&& r is Err ==> Self::unchanged(*old(self), *final(self))
            },
    {
        let ghost r0 = self.storage.refs();
        if self.operation_log.current_position() < self.operation_log.total_operations() {
            proof {
                lemma_effects_visible(r0, self.operation_log.entries()[self.operation_log.cursor() as int].operation);
            }
        }
        let r = self.operation_log.redo(&mut self.storage);
        match r {
            Ok(Some(_)) => self.store_log(),
            _ => {},
        }
        r
    }

    pub fn can_undo(&self) -> (r: bool)
        ensures
            r == (self.cursor() > 0),
    {
        self.operation_log.can_undo()
    }

    pub fn can_redo(&self) -> (r: bool)
        ensures
            r == (self.cursor() < self.log().len()),
    {
        self.operation_log.can_redo()
    }

    pub fn peek_undo(&self) -> (r: Option<Operation>)
        requires
            self.wf(),
        ensures
            self.cursor() == 0 ==> r is None,
            self.cursor() > 0 ==> (r matches Some(op) && same_operation(op, self.log()[self.cursor() - 1].operation)),
    {
        self.operation_log.peek_undo()
    }

    pub fn peek_redo(&self) -> (r: Option<Operation>)
        requires
            self.wf(),
        ensures
            self.cursor() == self.log().len() ==> r is None,
            self.cursor() < self.log().len() ==> (r matches Some(op) && same_operation(
                op,
                self.log()[self.cursor() as int].operation,
            )),
    {
        self.operation_log.peek_redo()
    }

    pub fn operation_log_position(&self) -> (r: usize)
        ensures
            r == self.cursor(),
    {
        self.operation_log.current_position()
    }

    pub fn operation_log_size(&self) -> (r: usize)
        ensures
            r == self.log().len(),
    {
        self.operation_log.total_operations()
    }
}

} // verus!
