//! Step-by-step construction of objects.

use vstd::prelude::*;
use crate::object::{Blob, Commit, FileMode, ObjectId, ObjectType, Signature, Tree, TreeEntry, names_sorted};
use crate::validate::{commit_valid, signature_valid, ObjectError, ObjectOps};

verus! {

/// Builds a blob from its content.
pub struct BlobBuilder {
    content: Option<Vec<u8>>,
}

impl BlobBuilder {
    /// The content given so far, if any.
    pub closed spec fn pending(&self) -> Option<Seq<u8>> {
        match self.content {
            Some(c) => Some(c@),
            None => None,
        }
    }

    pub fn new() -> (r: BlobBuilder)
        ensures
            r.pending() is None,
    {
        BlobBuilder { content: None }
    }

    pub fn content(self, content: Vec<u8>) -> (r: BlobBuilder)
        ensures
            r.pending() == Some(content@),
    {
        BlobBuilder { content: Some(content) }
    }

    /// The blob over the given content, or over no bytes if none was given.
    pub fn build(self) -> (r: Blob)
        ensures
            r.content matches Some(c) && c@ == (match self.pending() {
                Some(p) => p,
                None => Seq::empty(),
            }),
            r.size == r.content->Some_0@.len(),
    {
        let content = match self.content {
            Some(c) => c,
            None => Vec::new(),
        };
        Blob::new(content)
    }
}

/// Builds a tree from entries given in any order.
pub struct TreeBuilder {
    entries: Vec<TreeEntry>,
}

impl TreeBuilder {
    /// The entries given so far, in the order given.
    pub closed spec fn pending(&self) -> Seq<TreeEntry> {
        self.entries@
    }

    pub fn new() -> (r: TreeBuilder)
        ensures
            r.pending() == Seq::<TreeEntry>::empty(),
    {
        TreeBuilder { entries: Vec::new() }
    }

    pub fn entry(self, name: String, mode: FileMode, hash: ObjectId, entry_type: ObjectType) -> (r: TreeBuilder)
        ensures
            r.pending() == self.pending().push(TreeEntry { name, mode, hash, entry_type }),
    {
        let mut entries = self.entries;
        entries.push(TreeEntry { name, mode, hash, entry_type });
        TreeBuilder { entries }
    }

    /// The tree over the given entries, sorted by name.
    pub fn build(self) -> (r: Tree)
        ensures
            names_sorted(r.entries@),
            r.entries@.to_multiset() == self.pending().to_multiset(),
    {
        Tree::new(self.entries)
    }
}

/// Builds a commit; tree, author and committer are required.
pub struct CommitBuilder {
    tree: Option<ObjectId>,
    parents: Vec<ObjectId>,
    author: Option<Signature>,
    committer: Option<Signature>,
    message: String,
}

impl CommitBuilder {
    pub closed spec fn pending_tree(&self) -> Option<ObjectId> {
        self.tree
    }

    pub closed spec fn pending_parents(&self) -> Seq<ObjectId> {
        self.parents@
    }

    pub closed spec fn pending_author(&self) -> Option<Signature> {
        self.author
    }

    pub closed spec fn pending_committer(&self) -> Option<Signature> {
        self.committer
    }

    pub closed spec fn pending_message(&self) -> Seq<char> {
        self.message@
    }

    pub fn new() -> (r: CommitBuilder)
        ensures
            r.pending_tree() is None,
            r.pending_parents() == Seq::<ObjectId>::empty(),
            r.pending_author() is None,
            r.pending_committer() is None,
            r.pending_message() == Seq::<char>::empty(),
    {
        CommitBuilder { tree: None, parents: Vec::new(), author: None, committer: None, message: String::new() }
    }

    pub fn tree(self, tree: ObjectId) -> (r: CommitBuilder)
        ensures
            r.pending_tree() == Some(tree),
            r.pending_parents() == self.pending_parents(),
            r.pending_author() == self.pending_author(),
            r.pending_committer() == self.pending_committer(),
            r.pending_message() == self.pending_message(),
    {
        CommitBuilder { tree: Some(tree), ..self }
    }

    /// Adds a parent after those given so far.
    pub fn parent(self, parent: ObjectId) -> (r: CommitBuilder)
        ensures
            r.pending_tree() == self.pending_tree(),
            r.pending_parents() == self.pending_parents().push(parent),
            r.pending_author() == self.pending_author(),
            r.pending_committer() == self.pending_committer(),
            r.pending_message() == self.pending_message(),
    {
        let mut parents = self.parents;
        parents.push(parent);
        CommitBuilder { parents, ..self }
    }

    pub fn author(self, author: Signature) -> (r: CommitBuilder)
        ensures
            r.pending_tree() == self.pending_tree(),
            r.pending_parents() == self.pending_parents(),
            r.pending_author() == Some(author),
            r.pending_committer() == self.pending_committer(),
            r.pending_message() == self.pending_message(),
    {
        CommitBuilder { author: Some(author), ..self }
    }

    pub fn committer(self, committer: Signature) -> (r: CommitBuilder)
        ensures
            r.pending_tree() == self.pending_tree(),
            r.pending_parents() == self.pending_parents(),
            r.pending_author() == self.pending_author(),
            r.pending_committer() == Some(committer),
            r.pending_message() == self.pending_message(),
    {
        CommitBuilder { committer: Some(committer), ..self }
    }

    pub fn message(self, message: String) -> (r: CommitBuilder)
        ensures
            r.pending_tree() == self.pending_tree(),
            r.pending_parents() == self.pending_parents(),
            r.pending_author() == self.pending_author(),
            r.pending_committer() == self.pending_committer(),
            r.pending_message() == message@,
    {
        CommitBuilder { message, ..self }
    }

    /// The commit, once it passes validation. A missing tree, author or
    /// committer is reported first, with `MissingField`; then an empty message
    /// (`MissingField`) or an invalid signature (`InvalidSignature`).
    pub fn build(self) -> (r: Result<Commit, ObjectError>)
        ensures
            r is Ok <==> (self.pending_tree() is Some && self.pending_author() is Some
                && self.pending_committer() is Some && self.pending_message().len() > 0 && signature_valid(
                self.pending_author()->Some_0,
            ) && signature_valid(self.pending_committer()->Some_0)),
            r matches Ok(c) ==> c.tree == self.pending_tree()->Some_0 && c.parents@ == self.pending_parents()
                && c.author == self.pending_author()->Some_0 && c.committer
                == self.pending_committer()->Some_0 && c.message@ == self.pending_message() && commit_valid(c),
            r matches Err(e) ==> (if self.pending_tree() is None || self.pending_author() is None
                || self.pending_committer() is None || self.pending_message().len() == 0 {
                e is MissingField
            } else {
                e is InvalidSignature
            }),
    {
        let tree = match self.tree {
            Some(t) => t,
            None => {
                return Err(ObjectError::MissingField("tree".to_owned()));
            },
        };
        let author = match self.author {
            Some(a) => a,
            None => {
                return Err(ObjectError::MissingField("author".to_owned()));
            },
        };
        let committer = match self.committer {
            Some(c) => c,
            None => {
                return Err(ObjectError::MissingField("committer".to_owned()));
            },
        };
        let commit = Commit { tree, parents: self.parents, author, committer, message: self.message };
        match commit.validate() {
            Ok(()) => Ok(commit),
            Err(e) => Err(e),
        }
    }
}

impl Default for BlobBuilder {
    fn default() -> (r: BlobBuilder)
        ensures
            r.pending() is None,
    {
        BlobBuilder::new()
    }
}

impl Default for TreeBuilder {
    fn default() -> (r: TreeBuilder)
        ensures
            r.pending() == Seq::<TreeEntry>::empty(),
    {
        TreeBuilder::new()
    }
}

impl Default for CommitBuilder {
    fn default() -> (r: CommitBuilder)
        ensures
            r.pending_tree() is None,
            r.pending_parents() == Seq::<ObjectId>::empty(),
            r.pending_author() is None,
            r.pending_committer() is None,
            r.pending_message() == Seq::<char>::empty(),
    {
        CommitBuilder::new()
    }
}

} // verus!
