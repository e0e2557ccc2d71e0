//! Well-formedness of objects, and their approximate sizes.

use vstd::prelude::*;
use crate::encoding::{bytes_lt, bytes_less, has_byte, contains_byte, lemma_bytes_lt_transitive};
use crate::object::{utf8, Blob, Commit, FileMode, GitObject, ObjectType, Signature, Tag, Tree, TreeEntry};

verus! {

/// Why an object is not well formed.
#[derive(Debug)]
pub enum ObjectError {
    InvalidType(String),
    MissingField(String),
    InvalidSignature(String),
    InvalidTreeEntry(String),
}

/// Checks and measures shared by every object kind.
pub trait ObjectOps {
    /// The validation rules of this kind hold.
    spec fn well_formed(&self) -> bool;

    /// `e` is an error that validation of this value may report.
    spec fn fails_as(&self, e: ObjectError) -> bool;

    /// The approximate size in bytes.
    spec fn size_spec(&self) -> int;

    /// The value is empty or minimal.
    spec fn empty_spec(&self) -> bool;

    fn validate(&self) -> (r: Result<(), ObjectError>)
        ensures
            r is Ok <==> self.well_formed(),
            r matches Err(e) ==> self.fails_as(e),
    ;

    fn size(&self) -> (r: u64)
        requires
            self.size_spec() <= u64::MAX,
        ensures
            r == self.size_spec(),
    ;

    fn is_empty(&self) -> (r: bool)
        ensures
            r == self.empty_spec(),
    ;
}

pub const MAX_TIMEZONE_OFFSET: i16 = 1440;

/// The byte `@`.
pub const AT_SIGN: u8 = 64;

/// The byte `/`.
pub const SLASH: u8 = 47;

pub open spec fn signature_valid(s: Signature) -> bool {
    &&& s.name@.len() > 0
    &&& s.email@.len() > 0
    &&& has_byte(utf8(&s.email), AT_SIGN)
    &&& -MAX_TIMEZONE_OFFSET <= s.timezone_offset <= MAX_TIMEZONE_OFFSET
}

pub open spec fn mode_matches_kind(m: FileMode, t: ObjectType) -> bool {
    match m {
        FileMode::Tree => t == ObjectType::Tree,
        _ => t == ObjectType::Blob,
    }
}

pub open spec fn entry_valid(e: TreeEntry) -> bool {
    &&& e.name@.len() > 0
    &&& !has_byte(utf8(&e.name), SLASH)
    &&& !has_byte(utf8(&e.name), 0)
    &&& mode_matches_kind(e.mode, e.entry_type)
}

/// Each name comes strictly after the one before it.
pub open spec fn names_ascending(s: Seq<TreeEntry>) -> bool {
    forall|i: int| 0 < i < s.len() ==> bytes_lt(#[trigger] utf8(&s[i - 1].name), utf8(&s[i].name))
}

pub open spec fn tree_valid(t: Tree) -> bool {
    &&& names_ascending(t.entries@)
    &&& forall|i: int| 0 <= i < t.entries@.len() ==> entry_valid(#[trigger] t.entries@[i])
}

pub open spec fn blob_valid(b: Blob) -> bool {
    b.content matches Some(c) ==> c@.len() == b.size
}

pub open spec fn commit_valid(c: Commit) -> bool {
    &&& c.message@.len() > 0
    &&& signature_valid(c.author)
    &&& signature_valid(c.committer)
}

pub open spec fn tag_valid(t: Tag) -> bool {
    &&& t.name@.len() > 0
    &&& t.message@.len() > 0
    &&& signature_valid(t.tagger)
}

pub open spec fn object_valid(o: GitObject) -> bool {
    match o {
        GitObject::Blob(b) => blob_valid(b),
        GitObject::Tree(t) => tree_valid(t),
        GitObject::Commit(c) => commit_valid(c),
        GitObject::Tag(t) => tag_valid(t),
    }
}

pub open spec fn entry_size(e: TreeEntry) -> int {
    utf8(&e.name).len() as int + 40
}

pub open spec fn entries_size(s: Seq<TreeEntry>) -> int
    decreases s.len(),
{
    if s.len() == 0 {
        0
    } else {
        entries_size(s.drop_last()) + entry_size(s.last())
    }
}

pub open spec fn signature_size(s: Signature) -> int {
    utf8(&s.name).len() as int + utf8(&s.email).len() as int + 16
}

pub open spec fn commit_size(c: Commit) -> int {
    32 + 32 * c.parents@.len() + signature_size(c.author) + signature_size(c.committer) + utf8(
        &c.message,
    ).len()
}

pub open spec fn tag_size(t: Tag) -> int {
    32 + utf8(&t.name).len() + signature_size(t.tagger) + utf8(&t.message).len()
}

pub open spec fn object_size(o: GitObject) -> int {
    match o {
        GitObject::Blob(b) => b.size as int,
        GitObject::Tree(t) => entries_size(t.entries@),
        GitObject::Commit(c) => commit_size(c),
        GitObject::Tag(t) => tag_size(t),
    }
}

pub open spec fn object_empty(o: GitObject) -> bool {
    match o {
        GitObject::Blob(b) => b.size == 0,
        GitObject::Tree(t) => t.entries@.len() == 0,
        GitObject::Commit(c) => c.message@.len() == 0,
        GitObject::Tag(t) => t.name@.len() == 0 || t.message@.len() == 0,
    }
}

fn text(s: &str) -> String {
    s.to_owned()
}

impl ObjectOps for Signature {
    open spec fn well_formed(&self) -> bool {
        signature_valid(*self)
    }

    open spec fn fails_as(&self, e: ObjectError) -> bool {
        e is InvalidSignature
    }

    open spec fn size_spec(&self) -> int {
        signature_size(*self)
    }

    open spec fn empty_spec(&self) -> bool {
        self.name@.len() == 0 || self.email@.len() == 0
    }

    fn validate(&self) -> (r: Result<(), ObjectError>) {
        if self.name.as_str().is_empty() {
            return Err(ObjectError::InvalidSignature(text("Empty name")));
        }
        if self.email.as_str().is_empty() {
            return Err(ObjectError::InvalidSignature(text("Empty email")));
        }
        if !contains_byte(self.email.as_str().as_bytes(), AT_SIGN) {
            return Err(ObjectError::InvalidSignature(text("Invalid email format")));
        }
        if self.timezone_offset < -MAX_TIMEZONE_OFFSET || self.timezone_offset > MAX_TIMEZONE_OFFSET {
            return Err(ObjectError::InvalidSignature(text("Timezone offset out of range")));
        }
        Ok(())
    }

    fn size(&self) -> (r: u64) {
        self.name.as_str().as_bytes().len() as u64 + self.email.as_str().as_bytes().len() as u64 + 16
    }

    fn is_empty(&self) -> (r: bool) {
        self.name.as_str().is_empty() || self.email.as_str().is_empty()
    }
}

impl ObjectOps for TreeEntry {
    open spec fn well_formed(&self) -> bool {
        entry_valid(*self)
    }

    open spec fn fails_as(&self, e: ObjectError) -> bool {
        e is InvalidTreeEntry
    }

    open spec fn size_spec(&self) -> int {
        entry_size(*self)
    }

    open spec fn empty_spec(&self) -> bool {
        self.name@.len() == 0
    }

    fn validate(&self) -> (r: Result<(), ObjectError>) {
        if self.name.as_str().is_empty() {
            return Err(ObjectError::InvalidTreeEntry(text("Empty name")));
        }
        let b = self.name.as_str().as_bytes();
        if contains_byte(b, SLASH) || contains_byte(b, 0) {
            return Err(ObjectError::InvalidTreeEntry(text("Invalid characters in name")));
        }
        let ok = match self.mode {
            FileMode::Tree => self.entry_type == ObjectType::Tree,
            _ => self.entry_type == ObjectType::Blob,
        };
        if !ok {
            return Err(ObjectError::InvalidTreeEntry(text("Mode does not match type")));
        }
        Ok(())
    }

    fn size(&self) -> (r: u64) {
        self.name.as_str().as_bytes().len() as u64 + 40
    }

    fn is_empty(&self) -> (r: bool) {
        self.name.as_str().is_empty()
    }
}

impl ObjectOps for Tree {
    open spec fn well_formed(&self) -> bool {
        tree_valid(*self)
    }

    open spec fn fails_as(&self, e: ObjectError) -> bool {
        e is InvalidTreeEntry
    }

    open spec fn size_spec(&self) -> int {
        entries_size(self.entries@)
    }

    open spec fn empty_spec(&self) -> bool {
        self.entries@.len() == 0
    }

    fn validate(&self) -> (r: Result<(), ObjectError>) {
        let n = self.entries.len();
        let mut i: usize = 1;
        while i < n
            invariant
                n == self.entries@.len(),
                1 <= i,
                forall|k: int|
                    0 < k < i && k < n ==> bytes_lt(
                        #[trigger] utf8(&self.entries@[k - 1].name),
                        utf8(&self.entries@[k].name),
                    ),
            decreases n - i,
        {
            let a = self.entries[i - 1].name.as_str().as_bytes();
            let b = self.entries[i].name.as_str().as_bytes();
            if !bytes_less(a, b) {
                return Err(ObjectError::InvalidTreeEntry(text("Tree entries not sorted")));
            }
            i = i + 1;
        }
        let mut j: usize = 0;
        while j < n
            invariant
                n == self.entries@.len(),
                names_ascending(self.entries@),
                forall|k: int| 0 <= k < j ==> entry_valid(#[trigger] self.entries@[k]),
            decreases n - j,
        {
            match self.entries[j].validate() {
                Ok(()) => {},
                Err(e) => {
                    return Err(e);
                },
            }
            j = j + 1;
        }
        Ok(())
    }

    fn size(&self) -> (r: u64) {
        let mut total: u64 = 0;
        let mut i: usize = 0;
        while i < self.entries.len()
            invariant
                i <= self.entries@.len(),
                total == entries_size(self.entries@.subrange(0, i as int)),
                entries_size(self.entries@) <= u64::MAX,
            decreases self.entries@.len() - i,
        {
            proof {
                lemma_entries_size_prefix(self.entries@, i as int + 1);
                let next = self.entries@.subrange(0, i + 1);
                assert(next.drop_last() == self.entries@.subrange(0, i as int));
            }
            total = total + self.entries[i].name.as_str().as_bytes().len() as u64 + 40;
            i = i + 1;
        }
        assert(self.entries@.subrange(0, self.entries@.len() as int) == self.entries@);
        total
    }

    fn is_empty(&self) -> (r: bool) {
        self.entries.len() == 0
    }
}

proof fn lemma_entries_size_prefix(s: Seq<TreeEntry>, n: int)
    requires
        0 <= n <= s.len(),
    ensures
        0 <= entries_size(s.subrange(0, n)) <= entries_size(s),
    decreases s.len(),
{
    if n < s.len() {
        assert(s.drop_last().subrange(0, n) == s.subrange(0, n));
        lemma_entries_size_prefix(s.drop_last(), n);
    } else {
        assert(s.subrange(0, n) == s);
        lemma_entries_size_nonneg(s);
    }
}

proof fn lemma_entries_size_nonneg(s: Seq<TreeEntry>)
    ensures
        entries_size(s) >= 0,
    decreases s.len(),
{
    if s.len() > 0 {
        lemma_entries_size_nonneg(s.drop_last());
    }
}

impl ObjectOps for Blob {
    open spec fn well_formed(&self) -> bool {
        blob_valid(*self)
    }

    open spec fn fails_as(&self, e: ObjectError) -> bool {
        e is InvalidType
    }

    open spec fn size_spec(&self) -> int {
        self.size as int
    }

    open spec fn empty_spec(&self) -> bool {
        self.size == 0
    }

    fn validate(&self) -> (r: Result<(), ObjectError>) {
        match &self.content {
            Some(c) => {
                if c.len() as u64 != self.size {
                    return Err(ObjectError::InvalidType(text("Blob size mismatch")));
                }
            },
            None => {},
        }
        Ok(())
    }

    fn size(&self) -> (r: u64) {
        self.size
    }

    fn is_empty(&self) -> (r: bool) {
        self.size == 0
    }
}

impl ObjectOps for Commit {
    open spec fn well_formed(&self) -> bool {
        commit_valid(*self)
    }

    open spec fn fails_as(&self, e: ObjectError) -> bool {
        if self.message@.len() == 0 {
            e is MissingField
        } else {
            e is InvalidSignature
        }
    }

    open spec fn size_spec(&self) -> int {
        commit_size(*self)
    }

    open spec fn empty_spec(&self) -> bool {
        self.message@.len() == 0
    }

    fn validate(&self) -> (r: Result<(), ObjectError>) {
        if self.message.as_str().is_empty() {
            return Err(ObjectError::MissingField(text("message")));
        }
        self.author.validate()?;
        self.committer.validate()?;
        Ok(())
    }

    fn size(&self) -> (r: u64) {
        32 + self.parents.len() as u64 * 32 + self.author.size() + self.committer.size()
            + self.message.as_str().as_bytes().len() as u64
    }

    fn is_empty(&self) -> (r: bool) {
        self.message.as_str().is_empty()
    }
}

impl ObjectOps for Tag {
    open spec fn well_formed(&self) -> bool {
        tag_valid(*self)
    }

    open spec fn fails_as(&self, e: ObjectError) -> bool {
        if self.name@.len() == 0 || self.message@.len() == 0 {
            e is MissingField
        } else {
            e is InvalidSignature
        }
    }

    open spec fn size_spec(&self) -> int {
        tag_size(*self)
    }

    open spec fn empty_spec(&self) -> bool {
        self.name@.len() == 0 || self.message@.len() == 0
    }

    fn validate(&self) -> (r: Result<(), ObjectError>) {
        if self.name.as_str().is_empty() {
            return Err(ObjectError::MissingField(text("name")));
        }
        if self.message.as_str().is_empty() {
            return Err(ObjectError::MissingField(text("message")));
        }
        self.tagger.validate()?;
        Ok(())
    }

    fn size(&self) -> (r: u64) {
        32 + self.name.as_str().as_bytes().len() as u64 + self.tagger.size() + self.message.as_str().as_bytes().len() as u64
    }

    fn is_empty(&self) -> (r: bool) {
        self.name.as_str().is_empty() || self.message.as_str().is_empty()
    }
}

impl ObjectOps for GitObject {
    open spec fn well_formed(&self) -> bool {
        object_valid(*self)
    }

    open spec fn fails_as(&self, e: ObjectError) -> bool {
        match *self {
            GitObject::Blob(b) => b.fails_as(e),
            GitObject::Tree(t) => t.fails_as(e),
            GitObject::Commit(c) => c.fails_as(e),
            GitObject::Tag(t) => t.fails_as(e),
        }
    }

    open spec fn size_spec(&self) -> int {
        object_size(*self)
    }

    open spec fn empty_spec(&self) -> bool {
        object_empty(*self)
    }

    fn validate(&self) -> (r: Result<(), ObjectError>) {
        match self {
            GitObject::Blob(b) => b.validate(),
            GitObject::Tree(t) => t.validate(),
            GitObject::Commit(c) => c.validate(),
            GitObject::Tag(t) => t.validate(),
        }
    }

    fn size(&self) -> (r: u64) {
        match self {
            GitObject::Blob(b) => b.size(),
            GitObject::Tree(t) => t.size(),
            GitObject::Commit(c) => c.size(),
            GitObject::Tag(t) => t.size(),
        }
    }

    fn is_empty(&self) -> (r: bool) {
        match self {
            GitObject::Blob(b) => b.is_empty(),
            GitObject::Tree(t) => t.is_empty(),
            GitObject::Commit(c) => c.is_empty(),
            GitObject::Tag(t) => t.is_empty(),
        }
    }
}

/// A tree that passes validation has strictly ascending, hence unique, entry
/// names: any earlier entry's name comes strictly before any later one's.
pub proof fn lemma_valid_tree_names_strictly_ascending(t: Tree, i: int, j: int)
    requires
        tree_valid(t),
        0 <= i < j < t.entries@.len(),
    ensures
        bytes_lt(utf8(&t.entries@[i].name), utf8(&t.entries@[j].name)),
        t.entries@[i].name@ != t.entries@[j].name@,
    decreases j - i,
{
    let s = t.entries@;
    assert(bytes_lt(utf8(&s[j - 1].name), utf8(&s[j].name)));
    if i < j - 1 {
        lemma_valid_tree_names_strictly_ascending(t, i, j - 1);
        lemma_bytes_lt_transitive(utf8(&s[i].name), utf8(&s[j - 1].name), utf8(&s[j].name));
    }
    if s[i].name@ == s[j].name@ {
        crate::encoding::lemma_bytes_lt_irreflexive(utf8(&s[i].name));
    }
}

} // verus!
