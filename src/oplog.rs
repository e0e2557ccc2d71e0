//! The operation log: what each state-changing operation did, enough to undo
//! it, and a cursor that undo and redo move along the log.

use vstd::prelude::*;
use crate::object::{copy_ids, ObjectId};
use crate::refs::{
    branch_of_head, branch_ref, branch_ref_name, current_branch, head_name, lemma_chain_is_no_user_name, lemma_current_branch_of_branch_ref, lemma_current_branch_ref,
    lemma_current_branch_visible, lemma_head_is_no_branch, visible,
};
use crate::storage::{MemoryStorage, Reference, StorageError, TargetView};

verus! {

#[derive(Clone, Copy, Debug, PartialEq, Eq, Structural)]
pub enum MergeStrategy {
    ThreeWay,
    Ours,
    Theirs,
    Recursive,
}

#[derive(Debug)]
pub enum MergeResult {
    Success { commit: ObjectId },
    Conflicts { conflicted_files: Vec<String> },
}

/// A recorded operation, with what undoing it needs.
#[derive(Debug)]
#[allow(inconsistent_fields)]
pub enum Operation {
    Commit {
        before_head: Option<ObjectId>,
        after_head: ObjectId,
        tree: ObjectId,
        message: String,
        parents: Vec<ObjectId>,
    },
    CreateBranch { name: String, target: ObjectId, before_refs: Vec<Reference> },
    DeleteBranch { name: String, deleted_target: ObjectId, before_refs: Vec<Reference> },
    /// `from_branch` is the branch `HEAD` named before, or none when `HEAD`
    /// pointed straight at `before_head`.
    SwitchBranch { from_branch: Option<String>, to_branch: String, before_head: ObjectId, after_head: ObjectId },
    Merge { branch: String, before_head: ObjectId, after_head: ObjectId, strategy: MergeStrategy },
}

#[derive(Debug)]
pub struct IndexState {
    pub entries: Vec<(String, ObjectId)>,
}

/// The references and the commit `HEAD` led to at one moment.
#[derive(Debug)]
pub struct RepositoryState {
    pub head: Option<ObjectId>,
    pub refs: Vec<Reference>,
    pub index_state: Option<IndexState>,
}

#[derive(Debug)]
pub struct CommandIntent {
    pub command: String,
    pub args: Vec<String>,
    pub working_directory: String,
}

#[derive(Debug)]
pub struct UserMetadata {
    pub user_name: Option<String>,
    pub user_email: Option<String>,
    pub session_id: Option<String>,
}

/// One record of the log.
#[derive(Debug)]
pub struct LogEntry {
    pub id: u128,
    /// Seconds since the epoch.
    pub timestamp: i64,
    pub operation: Operation,
    pub before_state: RepositoryState,
    pub after_state: RepositoryState,
    pub command_intent: CommandIntent,
    pub user_metadata: UserMetadata,
}

pub open spec fn id_view(h: Option<ObjectId>) -> Option<Seq<u8>> {
    match h {
        Some(id) => Some(id@),
        None => None,
    }
}

/// Two operations record the same thing.
pub open spec fn same_operation(a: Operation, b: Operation) -> bool {
    match (a, b) {
        (
            Operation::Commit { before_head: h1, after_head: a1, tree: t1, message: m1, parents: p1 },
            Operation::Commit { before_head: h2, after_head: a2, tree: t2, message: m2, parents: p2 },
        ) => h1 == h2 && a1 == a2 && t1 == t2 && m1 == m2 && p1@ == p2@,
        (
            Operation::CreateBranch { name: n1, target: t1, before_refs: r1 },
            Operation::CreateBranch { name: n2, target: t2, before_refs: r2 },
        ) => n1 == n2 && t1 == t2 && r1@ == r2@,
        (
            Operation::DeleteBranch { name: n1, deleted_target: t1, before_refs: r1 },
            Operation::DeleteBranch { name: n2, deleted_target: t2, before_refs: r2 },
        ) => n1 == n2 && t1 == t2 && r1@ == r2@,
        (Operation::SwitchBranch { .. }, Operation::SwitchBranch { .. }) => a == b,
        (Operation::Merge { .. }, Operation::Merge { .. }) => a == b,
        _ => false,
    }
}

fn copy_refs(v: &Vec<Reference>) -> (r: Vec<Reference>)
    ensures
        r@ == v@,
{
    let mut out: Vec<Reference> = Vec::new();
    let mut i: usize = 0;
    while i < v.len()
        invariant
            i <= v@.len(),
            out@ == v@.subrange(0, i as int),
        decreases v@.len() - i,
    {
        out.push(v[i].clone());
        assert(v@.subrange(0, i + 1) == v@.subrange(0, i as int).push(v@[i as int]));
        i = i + 1;
    }
    assert(v@.subrange(0, v@.len() as int) == v@);
    out
}

impl Clone for Operation {
    fn clone(&self) -> (r: Operation)
        ensures
            same_operation(r, *self),
    {
        match self {
            Operation::Commit { before_head, after_head, tree, message, parents } => Operation::Commit {
                before_head: *before_head,
                after_head: *after_head,
                tree: *tree,
                message: message.clone(),
                parents: copy_ids(parents),
            },
            Operation::CreateBranch { name, target, before_refs } => Operation::CreateBranch {
                name: name.clone(),
                target: *target,
                before_refs: copy_refs(before_refs),
            },
            Operation::DeleteBranch { name, deleted_target, before_refs } => Operation::DeleteBranch {
                name: name.clone(),
                deleted_target: *deleted_target,
                before_refs: copy_refs(before_refs),
            },
            Operation::SwitchBranch { from_branch, to_branch, before_head, after_head } => {
                let from = match from_branch {
                    Some(b) => Some(b.clone()),
                    None => None,
                };
                Operation::SwitchBranch {
                    from_branch: from,
                    to_branch: to_branch.clone(),
                    before_head: *before_head,
                    after_head: *after_head,
                }
            },
            Operation::Merge { branch, before_head, after_head, strategy } => Operation::Merge {
                branch: branch.clone(),
                before_head: *before_head,
                after_head: *after_head,
                strategy: *strategy,
            },
        }
    }
}

// ---------------------------------------------------------------------------
// What operations do to the references
// ---------------------------------------------------------------------------

/// Moves the current position to `id`: the branch `HEAD` is on, or `HEAD`
/// itself when it names no branch.
pub open spec fn set_position(refs: Map<Seq<char>, TargetView>, id: Seq<u8>) -> Map<Seq<char>, TargetView> {
    match current_branch(refs) {
        Some(b) => refs.insert(branch_ref(b), TargetView::Direct(id)),
        None => refs.insert(head_name(), TargetView::Direct(id)),
    }
}

/// The current position is `id`.
pub open spec fn at_position(refs: Map<Seq<char>, TargetView>, id: Seq<u8>) -> bool {
    match current_branch(refs) {
        Some(b) => refs.contains_key(branch_ref(b)) && refs[branch_ref(b)] == TargetView::Direct(id),
        None => refs.contains_key(head_name()) && refs[head_name()] == TargetView::Direct(id),
    }
}

/// What `HEAD` held before a switch.
pub open spec fn prior_head(from_branch: Option<String>, before_head: ObjectId) -> TargetView {
    match from_branch {
        Some(b) => TargetView::Symbolic(branch_ref(b@)),
        None => TargetView::Direct(before_head@),
    }
}

/// The references after performing, or redoing, `op`.
pub open spec fn redo_effect(refs: Map<Seq<char>, TargetView>, op: Operation) -> Map<Seq<char>, TargetView> {
    match op {
        Operation::CreateBranch { name, target, .. } => refs.insert(branch_ref(name@), TargetView::Direct(target@)),
        Operation::DeleteBranch { name, .. } => refs.remove(branch_ref(name@)),
        Operation::SwitchBranch { to_branch, .. } => refs.insert(head_name(), TargetView::Symbolic(branch_ref(to_branch@))),
        Operation::Commit { after_head, .. } => set_position(refs, after_head@),
        Operation::Merge { after_head, .. } => set_position(refs, after_head@),
    }
}

/// The references after undoing `op`.
pub open spec fn undo_effect(refs: Map<Seq<char>, TargetView>, op: Operation) -> Map<Seq<char>, TargetView> {
    match op {
        Operation::CreateBranch { name, .. } => refs.remove(branch_ref(name@)),
        Operation::DeleteBranch { name, deleted_target, .. } => refs.insert(
            branch_ref(name@),
            TargetView::Direct(deleted_target@),
        ),
        Operation::SwitchBranch { from_branch, before_head, .. } => refs.insert(
            head_name(),
            prior_head(from_branch, before_head),
        ),
        Operation::Commit { before_head, .. } => match before_head {
            Some(h) => set_position(refs, h@),
            None => refs,
        },
        Operation::Merge { before_head, .. } => set_position(refs, before_head@),
    }
}

/// Undoing `op` can be carried out on `refs`.
pub open spec fn undo_possible(refs: Map<Seq<char>, TargetView>, op: Operation) -> bool {
    match op {
        Operation::CreateBranch { name, .. } => refs.contains_key(branch_ref(name@)),
        Operation::Commit { before_head, .. } => before_head is Some,
        _ => true,
    }
}

/// Redoing `op` can be carried out on `refs`.
pub open spec fn redo_possible(refs: Map<Seq<char>, TargetView>, op: Operation) -> bool {
    match op {
        Operation::DeleteBranch { name, .. } => refs.contains_key(branch_ref(name@)),
        _ => true,
    }
}

/// What `op` recorded of the state before it matches `refs`.
pub open spec fn recorded_from(refs: Map<Seq<char>, TargetView>, op: Operation) -> bool {
    match op {
        Operation::CreateBranch { name, .. } => !refs.contains_key(branch_ref(name@)),
        Operation::DeleteBranch { name, deleted_target, .. } => refs.contains_key(branch_ref(name@))
            && refs[branch_ref(name@)] == TargetView::Direct(deleted_target@),
        Operation::SwitchBranch { from_branch, before_head, .. } => refs.contains_key(head_name())
            && refs[head_name()] == prior_head(from_branch, before_head),
        Operation::Commit { before_head, .. } => match before_head {
            Some(h) => at_position(refs, h@),
            None => false,
        },
        Operation::Merge { before_head, .. } => at_position(refs, before_head@),
    }
}

proof fn lemma_set_position_keeps_branch(refs: Map<Seq<char>, TargetView>, id: Seq<u8>)
    ensures
        current_branch(set_position(refs, id)) == current_branch(refs),
{
    match current_branch(refs) {
        Some(b) => {
            lemma_head_is_no_branch(b);
            lemma_current_branch_ref(refs);
            lemma_current_branch_of_branch_ref(set_position(refs, id), b);
        },
        None => {},
    }
}

/// Undo inverts an operation: from any state that an operation's record
/// matches, performing it and then undoing it gives back the same references,
/// and redoing it again gives the state after it.
pub proof fn law_undo_inverts(refs: Map<Seq<char>, TargetView>, op: Operation)
    requires
        recorded_from(refs, op),
    ensures
        undo_possible(redo_effect(refs, op), op),
        undo_effect(redo_effect(refs, op), op) == refs,
        redo_effect(undo_effect(redo_effect(refs, op), op), op) == redo_effect(refs, op),
{
    match op {
        Operation::CreateBranch { name, target, .. } => {
            assert(refs.insert(branch_ref(name@), TargetView::Direct(target@)).remove(branch_ref(name@)) =~= refs);
        },
        Operation::DeleteBranch { name, deleted_target, .. } => {
            assert(refs.remove(branch_ref(name@)).insert(branch_ref(name@), TargetView::Direct(deleted_target@))
                =~= refs);
        },
        Operation::SwitchBranch { from_branch, to_branch, before_head, .. } => {
            assert(refs.insert(head_name(), TargetView::Symbolic(branch_ref(to_branch@))).insert(
                head_name(),
                prior_head(from_branch, before_head),
            ) =~= refs);
        },
        Operation::Commit { before_head, after_head, .. } => {
            let h = before_head->Some_0;
            lemma_set_position_keeps_branch(refs, after_head@);
            assert(set_position(set_position(refs, after_head@), h@) =~= refs);
        },
        Operation::Merge { before_head, after_head, .. } => {
            lemma_set_position_keeps_branch(refs, after_head@);
            assert(set_position(set_position(refs, after_head@), before_head@) =~= refs);
        },
    }
}

/// Operations neither read nor write the log's reference: their effects
/// and conditions are the same on the references a user sees.
pub proof fn lemma_effects_visible(refs: Map<Seq<char>, TargetView>, op: Operation)
    ensures
        redo_effect(visible(refs), op) == visible(redo_effect(refs, op)),
        undo_effect(visible(refs), op) == visible(undo_effect(refs, op)),
        undo_possible(visible(refs), op) == undo_possible(refs, op),
        redo_possible(visible(refs), op) == redo_possible(refs, op),
        recorded_from(visible(refs), op) == recorded_from(refs, op),
{
    lemma_current_branch_visible(refs);
    let v = visible(refs);
    match current_branch(refs) {
        Some(b) => lemma_chain_is_no_user_name(b),
        None => lemma_chain_is_no_user_name(Seq::empty()),
    }
    match op {
        Operation::CreateBranch { name, target, .. } => {
            lemma_chain_is_no_user_name(name@);
            assert(v.insert(branch_ref(name@), TargetView::Direct(target@)) =~= visible(
                refs.insert(branch_ref(name@), TargetView::Direct(target@)),
            ));
            assert(v.remove(branch_ref(name@)) =~= visible(refs.remove(branch_ref(name@))));
        },
        Operation::DeleteBranch { name, deleted_target, .. } => {
            lemma_chain_is_no_user_name(name@);
            assert(v.remove(branch_ref(name@)) =~= visible(refs.remove(branch_ref(name@))));
            assert(v.insert(branch_ref(name@), TargetView::Direct(deleted_target@)) =~= visible(
                refs.insert(branch_ref(name@), TargetView::Direct(deleted_target@)),
            ));
        },
        Operation::SwitchBranch { from_branch, to_branch, before_head, .. } => {
            assert(v.insert(head_name(), TargetView::Symbolic(branch_ref(to_branch@))) =~= visible(
                refs.insert(head_name(), TargetView::Symbolic(branch_ref(to_branch@))),
            ));
            assert(v.insert(head_name(), prior_head(from_branch, before_head)) =~= visible(
                refs.insert(head_name(), prior_head(from_branch, before_head)),
            ));
        },
        Operation::Commit { before_head, after_head, .. } => {
            assert(set_position(v, after_head@) =~= visible(set_position(refs, after_head@)));
            if let Some(h) = before_head {
                assert(set_position(v, h@) =~= visible(set_position(refs, h@)));
            }
        },
        Operation::Merge { before_head, after_head, .. } => {
            assert(set_position(v, after_head@) =~= visible(set_position(refs, after_head@)));
            assert(set_position(v, before_head@) =~= visible(set_position(refs, before_head@)));
        },
    }
}

/// The references after performing each operation of `ops` in order.
pub open spec fn redo_all(refs: Map<Seq<char>, TargetView>, ops: Seq<Operation>) -> Map<Seq<char>, TargetView>
    decreases ops.len(),
{
    if ops.len() == 0 {
        refs
    } else {
        redo_effect(redo_all(refs, ops.drop_last()), ops.last())
    }
}

/// The references after undoing each operation of `ops`, the last one first.
pub open spec fn undo_all(refs: Map<Seq<char>, TargetView>, ops: Seq<Operation>) -> Map<Seq<char>, TargetView>
    decreases ops.len(),
{
    if ops.len() == 0 {
        refs
    } else {
        undo_all(undo_effect(refs, ops.last()), ops.drop_last())
    }
}

/// Each operation of `ops` was recorded from the state the ones before it left.
pub open spec fn recorded_chain(refs: Map<Seq<char>, TargetView>, ops: Seq<Operation>) -> bool {
    forall|i: int| 0 <= i < ops.len() ==> recorded_from(#[trigger] redo_all(refs, ops.take(i)), ops[i])
}

/// Undo and redo are inverse over a sequence: performing a conflict-free
/// sequence of operations and then undoing each, the last first, gives back
/// the starting references; redoing them all again in order gives the state
/// after the sequence.
pub proof fn law_undo_redo_sequence(refs: Map<Seq<char>, TargetView>, ops: Seq<Operation>)
    requires
        recorded_chain(refs, ops),
    ensures
        undo_all(redo_all(refs, ops), ops) == refs,
        redo_all(undo_all(redo_all(refs, ops), ops), ops) == redo_all(refs, ops),
    decreases ops.len(),
{
    if ops.len() > 0 {
        let init = ops.drop_last();
        let n = ops.len() - 1;
        assert forall|i: int| 0 <= i < init.len() implies recorded_from(#[trigger] redo_all(refs, init.take(i)), init[i]) by {
            assert(init.take(i) == ops.take(i));
            assert(recorded_from(redo_all(refs, ops.take(i)), ops[i]));
        }
        assert(ops.take(n) == init);
        assert(recorded_from(redo_all(refs, ops.take(n)), ops[n]));
        law_undo_inverts(redo_all(refs, init), ops.last());
        law_undo_redo_sequence(refs, init);
    }
}

// ---------------------------------------------------------------------------
// The log and its cursor
// ---------------------------------------------------------------------------

/// The log of operations and the cursor: entries before the cursor are in
/// effect, entries from it on have been undone.
pub struct OperationLog {
    current_position: usize,
    log_chain: Vec<LogEntry>,
}

/// Moves the current position to `id`.
fn move_position(storage: &mut MemoryStorage, id: &ObjectId)
    requires
        old(storage).wf(),
    ensures
        final(storage).wf(),
        final(storage).objects() == old(storage).objects(),
        final(storage).refs() == set_position(old(storage).refs(), id@),
{
    match branch_of_head(storage) {
        Some(b) => {
            let name = branch_ref_name(b.as_str());
            let _ = storage.update_ref(name.as_str(), id);
        },
        None => {
            let _ = storage.update_ref("HEAD", id);
        },
    }
}

impl OperationLog {
    pub closed spec fn entries(&self) -> Seq<LogEntry> {
        self.log_chain@
    }

    pub closed spec fn cursor(&self) -> nat {
        self.current_position as nat
    }

    pub open spec fn wf(&self) -> bool {
        self.cursor() <= self.entries().len()
    }

    pub fn new() -> (r: OperationLog)
        ensures
            r.wf(),
            r.entries() == Seq::<LogEntry>::empty(),
            r.cursor() == 0,
    {
        OperationLog { current_position: 0, log_chain: Vec::new() }
    }

    pub(crate) fn from_parts(cursor: usize, entries: Vec<LogEntry>) -> (r: OperationLog)
        requires
            cursor <= entries@.len(),
        ensures
            r.wf(),
            r.entries() == entries@,
            r.cursor() == cursor,
    {
        OperationLog { current_position: cursor, log_chain: entries }
    }

    pub(crate) fn entry_list(&self) -> (r: &Vec<LogEntry>)
        ensures
            r@ == self.entries(),
    {
        &self.log_chain
    }

    pub fn current_position(&self) -> (r: usize)
        ensures
            r == self.cursor(),
    {
        self.current_position
    }

    pub fn total_operations(&self) -> (r: usize)
        ensures
            r == self.entries().len(),
    {
        self.log_chain.len()
    }

    pub fn can_undo(&self) -> (r: bool)
        ensures
            r == (self.cursor() > 0),
    {
        self.current_position > 0
    }

    pub fn can_redo(&self) -> (r: bool)
        ensures
            r == (self.cursor() < self.entries().len()),
    {
        self.current_position < self.log_chain.len()
    }

    /// The operation undo would reverse.
    pub fn peek_undo(&self) -> (r: Option<Operation>)
        requires
            self.wf(),
        ensures
            self.cursor() == 0 ==> r is None,
            self.cursor() > 0 ==> (r matches Some(op) && same_operation(
                op,
                self.entries()[self.cursor() - 1].operation,
            )),
    {
        if self.current_position == 0 {
            return None;
        }
        Some(self.log_chain[self.current_position - 1].operation.clone())
    }

    /// The operation redo would carry out again.
    pub fn peek_redo(&self) -> (r: Option<Operation>)
        requires
            self.wf(),
        ensures
            self.cursor() == self.entries().len() ==> r is None,
            self.cursor() < self.entries().len() ==> (r matches Some(op) && same_operation(
                op,
                self.entries()[self.cursor() as int].operation,
            )),
    {
        if self.current_position >= self.log_chain.len() {
            return None;
        }
        Some(self.log_chain[self.current_position].operation.clone())
    }

    /// The latest entry in effect.
    pub fn current_entry(&self) -> (r: Option<&LogEntry>)
        requires
            self.wf(),
        ensures
            self.cursor() == 0 ==> r is None,
            self.cursor() > 0 ==> (r matches Some(e) && *e == self.entries()[self.cursor() - 1]),
    {
        if self.current_position == 0 {
            return None;
        }
        Some(&self.log_chain[self.current_position - 1])
    }

    /// Appends an entry after the cursor, first dropping every entry that had
    /// been undone, and moves the cursor to the end.
    pub fn record(&mut self, entry: LogEntry)
        requires
            old(self).wf(),
        ensures
            final(self).wf(),
            final(self).entries() == old(self).entries().subrange(0, old(self).cursor() as int).push(entry),
            final(self).cursor() == final(self).entries().len(),
    {
        self.log_chain.truncate(self.current_position);
        self.log_chain.push(entry);
        self.current_position = self.log_chain.len();
    }

    /// Reverses the latest operation in effect and moves the cursor back by
    /// one. At the start of the log there is nothing to undo and nothing
    /// changes. An entry that cannot be reversed (the first commit, or a
    /// branch that is gone) is reported and nothing changes.
    #[verifier::rlimit(30)]
    pub fn undo(&mut self, storage: &mut MemoryStorage) -> (r: Result<Option<Operation>, StorageError>)
        requires
            old(self).wf(),
            old(storage).wf(),
        ensures
            final(self).wf(),
            final(storage).wf(),
            final(self).entries() == old(self).entries(),
            final(storage).objects() == old(storage).objects(),
            old(self).cursor() == 0 ==> (r matches Ok(None) && *final(self) == *old(self) && final(storage).refs()
                == old(storage).refs()),
            old(self).cursor() > 0 ==> {
                let op = old(self).entries()[old(self).cursor() - 1].operation;
                &&& (r is Ok <==> undo_possible(old(storage).refs(), op))
                &&& r matches Ok(found) ==> (found matches Some(o) && same_operation(o, op))
                    && final(self).cursor() == old(self).cursor() - 1 && final(storage).refs() == undo_effect(
                    old(storage).refs(),
                    op,
                )
                &&& r is Err ==> final(self).cursor() == old(self).cursor() && final(storage).refs() == old(
                    storage,
                ).refs()
            },
    {
        if self.current_position == 0 {
            return Ok(None);
        }
        let entry = &self.log_chain[self.current_position - 1];
        match &entry.operation {
            Operation::CreateBranch { name, .. } => {
                let branch = branch_ref_name(name.as_str());
                match storage.delete_ref(branch.as_str()) {
                    Ok(()) => {},
                    Err(e) => {
                        return Err(e);
                    },
                }
            },
            Operation::DeleteBranch { name, deleted_target, .. } => {
                let branch = branch_ref_name(name.as_str());
                let _ = storage.update_ref(branch.as_str(), deleted_target);
            },
            Operation::SwitchBranch { from_branch, before_head, .. } => match from_branch {
                Some(b) => {
                    let branch = branch_ref_name(b.as_str());
                    let _ = storage.update_symbolic_ref("HEAD", branch.as_str());
                },
                None => {
                    let _ = storage.update_ref("HEAD", before_head);
                },
            },
            Operation::Commit { before_head, .. } => match before_head {
                Some(h) => move_position(storage, h),
                None => {
                    return Err(StorageError::CannotUndoInitial);
                },
            },
            Operation::Merge { before_head, .. } => move_position(storage, before_head),
        }
        let op = entry.operation.clone();
        self.current_position = self.current_position - 1;
        Ok(Some(op))
    }

    /// Carries out again the first undone operation and moves the cursor
    /// forward by one. At the end of the log there is nothing to redo and
    /// nothing changes. A branch deletion whose branch is gone is reported and
    /// nothing changes.
    #[verifier::rlimit(30)]
    pub fn redo(&mut self, storage: &mut MemoryStorage) -> (r: Result<Option<Operation>, StorageError>)
        requires
            old(self).wf(),
            old(storage).wf(),
        ensures
            final(self).wf(),
            final(storage).wf(),
            final(self).entries() == old(self).entries(),
            final(storage).objects() == old(storage).objects(),
            old(self).cursor() == old(self).entries().len() ==> (r matches Ok(None) && *final(self) == *old(self)
                && final(storage).refs() == old(storage).refs()),
            old(self).cursor() < old(self).entries().len() ==> {
                let op = old(self).entries()[old(self).cursor() as int].operation;
                &&& (r is Ok <==> redo_possible(old(storage).refs(), op))
                &&& r matches Ok(found) ==> (found matches Some(o) && same_operation(o, op))
                    && final(self).cursor() == old(self).cursor() + 1 && final(storage).refs() == redo_effect(
                    old(storage).refs(),
                    op,
                )
                &&& r is Err ==> final(self).cursor() == old(self).cursor() && final(storage).refs() == old(
                    storage,
                ).refs()
            },
    {
        if self.current_position >= self.log_chain.len() {
            return Ok(None);
        }
        let entry = &self.log_chain[self.current_position];
        match &entry.operation {
            Operation::CreateBranch { name, target, .. } => {
                let branch = branch_ref_name(name.as_str());
                let _ = storage.update_ref(branch.as_str(), target);
            },
            Operation::DeleteBranch { name, .. } => {
                let branch = branch_ref_name(name.as_str());
                match storage.delete_ref(branch.as_str()) {
                    Ok(()) => {},
                    Err(e) => {
                        return Err(e);
                    },
                }
            },
            Operation::SwitchBranch { to_branch, .. } => {
                let branch = branch_ref_name(to_branch.as_str());
                let _ = storage.update_symbolic_ref("HEAD", branch.as_str());
            },
            Operation::Commit { after_head, .. } => move_position(storage, after_head),
            Operation::Merge { after_head, .. } => move_position(storage, after_head),
        }
        let op = entry.operation.clone();
        self.current_position = self.current_position + 1;
        Ok(Some(op))
    }

    /// Keeps only the `keep_entries` latest entries; the cursor keeps its
    /// place among those that stay, or goes to the start.
    pub fn compact(&mut self, keep_entries: usize)
        requires
            old(self).wf(),
        ensures
            final(self).wf(),
            old(self).entries().len() <= keep_entries ==> *final(self) == *old(self),
            old(self).entries().len() > keep_entries ==> {
                let removed = old(self).entries().len() - keep_entries;
                &&& final(self).entries() == old(self).entries().subrange(removed, old(self).entries().len() as int)
                &&& final(self).cursor() == if old(self).cursor() > removed {
                    old(self).cursor() - removed
                } else {
                    0
                }
            },
    {
        let n = self.log_chain.len();
        if n <= keep_entries {
            return;
        }
        let remove_count = n - keep_entries;
        let mut kept: Vec<LogEntry> = Vec::new();
        let mut old_chain: Vec<LogEntry> = Vec::new();
        std::mem::swap(&mut old_chain, &mut self.log_chain);
        let ghost all = old_chain@;
        let mut rest = old_chain.split_off(remove_count);
        assert(rest@ == all.subrange(remove_count as int, n as int));
        std::mem::swap(&mut kept, &mut rest);
        self.log_chain = kept;
        if self.current_position > remove_count {
            self.current_position = self.current_position - remove_count;
        } else {
            self.current_position = 0;
        }
    }
}

} // verus!
