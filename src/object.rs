//! The object model: identities, the four object kinds, and their canonical
//! byte form, whose BLAKE3 digest is an object's address.

use vstd::prelude::*;
use vstd::multiset::Multiset;
use crate::encoding::{
    bytes_less, bytes_lt, le_bytes, lemma_bytes_lt_irreflexive, lemma_bytes_lt_transitive, lemma_le_bytes_len,
    length_prefixed, push_all, push_le, push_length_prefixed,
};

verus! {

/// Errors of the object model.
#[derive(Debug)]
pub enum GitNextError {
    Serialization(String),
    HashDerivation(String),
    InvalidFormat(String),
}

/// A 256-bit content address: the BLAKE3 digest of an object's canonical bytes.
#[derive(Clone, Copy, Debug, Eq, Hash, PartialOrd, Ord)]
pub struct ObjectId {
    blake3_hash: [u8; 32],
}

impl View for ObjectId {
    type V = Seq<u8>;

    closed spec fn view(&self) -> Seq<u8> {
        self.blake3_hash@
    }
}

impl PartialEq for ObjectId {
    fn eq(&self, other: &ObjectId) -> (r: bool) {
        self.same_as(other)
    }
}

impl vstd::std_specs::cmp::PartialEqSpecImpl for ObjectId {
    open spec fn obeys_eq_spec() -> bool {
        true
    }

    open spec fn eq_spec(&self, other: &ObjectId) -> bool {
        self@ == other@
    }
}

/// What BLAKE3 gives for a byte string.
pub uninterp spec fn blake3_of(data: Seq<u8>) -> Seq<u8>;

/// Relies on `blake3::hash`: the 32-byte digest of the input, which depends on
/// the input bytes alone.
#[verifier::external_body]
fn blake3_digest(data: &[u8]) -> (r: [u8; 32])
    ensures
        r@ == blake3_of(data@),
{
    *blake3::hash(data).as_bytes()
}

impl ObjectId {
    /// The identity of the given canonical bytes.
    pub fn from_canonical_bytes(bytes: &[u8]) -> (r: ObjectId)
        ensures
            r@ == blake3_of(bytes@),
    {
        ObjectId { blake3_hash: blake3_digest(bytes) }
    }

    pub fn as_bytes(&self) -> (r: &[u8; 32])
        ensures
            r@ == self@,
    {
        &self.blake3_hash
    }

    pub fn from_blake3_bytes(bytes: [u8; 32]) -> (r: ObjectId)
        ensures
            r@ == bytes@,
    {
        ObjectId { blake3_hash: bytes }
    }

    /// Two identities are equal exactly when their bytes are.
    pub fn same_as(&self, other: &ObjectId) -> (r: bool)
        ensures
            r == (self@ == other@),
    {
        let mut i: usize = 0;
        while i < 32
            invariant
                i <= 32,
                forall|j: int| 0 <= j < i ==> self@[j] == other@[j],
            decreases 32 - i,
        {
            if self.blake3_hash[i] != other.blake3_hash[i] {
                return false;
            }
            i = i + 1;
        }
        assert(self@ =~= other@);
        true
    }
}

/// The four object kinds.
#[derive(Clone, Copy, Debug, PartialEq, Eq, Structural, Hash)]
pub enum ObjectType {
    Blob,
    Tree,
    Commit,
    Tag,
}

/// The mode of a tree entry.
#[derive(Clone, Copy, Debug, PartialEq, Eq, Structural, Hash)]
pub enum FileMode {
    Normal,
    Executable,
    Symlink,
    Tree,
}

/// Raw content with its declared length.
#[derive(Debug)]
pub struct Blob {
    pub content: Option<Vec<u8>>,
    pub size: u64,
}

/// A directory: entries kept in ascending order of name.
#[derive(Debug)]
pub struct Tree {
    pub entries: Vec<TreeEntry>,
}

#[derive(Debug, PartialEq, Eq)]
pub struct TreeEntry {
    pub name: String,
    pub mode: FileMode,
    pub hash: ObjectId,
    pub entry_type: ObjectType,
}

/// A snapshot with its history; the first parent is the mainline.
#[derive(Debug)]
pub struct Commit {
    pub tree: ObjectId,
    pub parents: Vec<ObjectId>,
    pub author: Signature,
    pub committer: Signature,
    pub message: String,
}

/// Who did something and when: seconds since the epoch and an offset in minutes.
#[derive(Debug)]
pub struct Signature {
    pub name: String,
    pub email: String,
    pub timestamp: i64,
    pub timezone_offset: i16,
}

/// A named pointer to another object.
#[derive(Debug)]
pub struct Tag {
    pub target: ObjectId,
    pub target_type: ObjectType,
    pub name: String,
    pub tagger: Signature,
    pub message: String,
}

/// A stored object: a closed union of the four kinds.
#[derive(Debug)]
pub enum GitObject {
    Blob(Blob),
    Tree(Tree),
    Commit(Commit),
    Tag(Tag),
}

/// A reference target as the object model sees it.
#[derive(Debug)]
pub enum Reference {
    Direct(ObjectId),
    Symbolic(String),
}

// ---------------------------------------------------------------------------
// Canonical form
// ---------------------------------------------------------------------------

/// The UTF-8 bytes of a string.
pub open spec fn utf8(s: &String) -> Seq<u8> {
    vstd::utf8::encode_utf8(s@)
}

/// A string field: its byte length, then its UTF-8 bytes.
pub open spec fn string_field(s: &String) -> Seq<u8> {
    length_prefixed(utf8(s))
}

pub open spec fn tag_field(t: nat) -> Seq<u8> {
    le_bytes(t, 4)
}

pub open spec fn object_type_index(t: ObjectType) -> nat {
    match t {
        ObjectType::Blob => 0,
        ObjectType::Tree => 1,
        ObjectType::Commit => 2,
        ObjectType::Tag => 3,
    }
}

pub open spec fn file_mode_index(m: FileMode) -> nat {
    match m {
        FileMode::Normal => 0,
        FileMode::Executable => 1,
        FileMode::Symlink => 2,
        FileMode::Tree => 3,
    }
}

pub open spec fn signature_bytes(s: Signature) -> Seq<u8> {
    string_field(&s.name) + string_field(&s.email) + le_bytes((s.timestamp as u64) as nat, 8)
        + le_bytes((s.timezone_offset as u16) as nat, 2)
}

pub open spec fn entry_bytes(e: TreeEntry) -> Seq<u8> {
    string_field(&e.name) + tag_field(file_mode_index(e.mode)) + e.hash@ + tag_field(
        object_type_index(e.entry_type),
    )
}

pub open spec fn entries_bytes(s: Seq<TreeEntry>) -> Seq<u8>
    decreases s.len(),
{
    if s.len() == 0 {
        Seq::empty()
    } else {
        entries_bytes(s.drop_last()) + entry_bytes(s.last())
    }
}

pub open spec fn ids_bytes(s: Seq<ObjectId>) -> Seq<u8>
    decreases s.len(),
{
    if s.len() == 0 {
        Seq::empty()
    } else {
        ids_bytes(s.drop_last()) + s.last()@
    }
}

pub open spec fn blob_content_bytes(c: Option<Vec<u8>>) -> Seq<u8> {
    match c {
        None => seq![0u8],
        Some(b) => seq![1u8] + length_prefixed(b@),
    }
}

/// The canonical byte form of an object: a four-byte variant tag, fixed-width
/// little-endian integers, length-prefixed byte and string fields, and the
/// tree entries in their stored order.
pub open spec fn canonical_bytes(o: GitObject) -> Seq<u8> {
    match o {
        GitObject::Blob(b) => tag_field(0) + blob_content_bytes(b.content) + le_bytes(b.size as nat, 8),
        GitObject::Tree(t) => tag_field(1) + le_bytes(t.entries@.len(), 8) + entries_bytes(t.entries@),
        GitObject::Commit(c) => tag_field(2) + c.tree@ + le_bytes(c.parents@.len(), 8) + ids_bytes(
            c.parents@,
        ) + signature_bytes(c.author) + signature_bytes(c.committer) + string_field(&c.message),
        GitObject::Tag(t) => tag_field(3) + t.target@ + tag_field(object_type_index(t.target_type))
            + string_field(&t.name) + signature_bytes(t.tagger) + string_field(&t.message),
    }
}

/// Two objects are the same exactly when their canonical bytes are.
impl View for GitObject {
    type V = Seq<u8>;

    open spec fn view(&self) -> Seq<u8> {
        canonical_bytes(*self)
    }
}

/// The address of an object: the BLAKE3 digest of its canonical bytes.
pub open spec fn content_address(o: GitObject) -> Seq<u8> {
    blake3_of(canonical_bytes(o))
}

fn push_string(out: &mut Vec<u8>, s: &String)
    ensures
        final(out)@ == old(out)@ + string_field(s),
{
    let b = s.as_str().as_bytes();
    push_length_prefixed(out, b);
}

fn push_signature(out: &mut Vec<u8>, s: &Signature)
    ensures
        final(out)@ == old(out)@ + signature_bytes(*s),
{
    let ghost start = out@;
    push_string(out, &s.name);
    push_string(out, &s.email);
    push_le(out, s.timestamp as u64, 8);
    push_le(out, s.timezone_offset as u16 as u64, 2);
    assert(out@ == start + signature_bytes(*s));
}

fn object_type_tag(t: ObjectType) -> (r: u64)
    ensures
        r as nat == object_type_index(t),
{
    match t {
        ObjectType::Blob => 0,
        ObjectType::Tree => 1,
        ObjectType::Commit => 2,
        ObjectType::Tag => 3,
    }
}

fn file_mode_tag(m: FileMode) -> (r: u64)
    ensures
        r as nat == file_mode_index(m),
{
    match m {
        FileMode::Normal => 0,
        FileMode::Executable => 1,
        FileMode::Symlink => 2,
        FileMode::Tree => 3,
    }
}

fn push_entries(out: &mut Vec<u8>, entries: &Vec<TreeEntry>)
    ensures
        final(out)@ == old(out)@ + entries_bytes(entries@),
{
    let mut i: usize = 0;
    while i < entries.len()
        invariant
            i <= entries@.len(),
            out@ == old(out)@ + entries_bytes(entries@.subrange(0, i as int)),
        decreases entries@.len() - i,
    {
        let ghost before = out@;
        let e = &entries[i];
        push_string(out, &e.name);
        push_le(out, file_mode_tag(e.mode), 4);
        push_all(out, e.hash.as_bytes());
        push_le(out, object_type_tag(e.entry_type), 4);
        proof {
            let next = entries@.subrange(0, i + 1);
            assert(next.drop_last() == entries@.subrange(0, i as int));
            assert(next.last() == *e);
            assert(out@ == before + entry_bytes(*e));
        }
        i = i + 1;
    }
    assert(entries@.subrange(0, entries@.len() as int) == entries@);
}

fn push_ids(out: &mut Vec<u8>, ids: &Vec<ObjectId>)
    ensures
        final(out)@ == old(out)@ + ids_bytes(ids@),
{
    let mut i: usize = 0;
    while i < ids.len()
        invariant
            i <= ids@.len(),
            out@ == old(out)@ + ids_bytes(ids@.subrange(0, i as int)),
        decreases ids@.len() - i,
    {
        push_all(out, ids[i].as_bytes());
        proof {
            let next = ids@.subrange(0, i + 1);
            assert(next.drop_last() == ids@.subrange(0, i as int));
        }
        i = i + 1;
    }
    assert(ids@.subrange(0, ids@.len() as int) == ids@);
}

/// Writes the canonical bytes of an object.
pub fn canonical_encode(o: &GitObject) -> (r: Vec<u8>)
    ensures
        r@ == o@,
{
    let mut out: Vec<u8> = Vec::new();
    match o {
        GitObject::Blob(b) => {
            push_le(&mut out, 0, 4);
            match &b.content {
                None => out.push(0u8),
                Some(c) => {
                    out.push(1u8);
                    push_length_prefixed(&mut out, c.as_slice());
                },
            }
            push_le(&mut out, b.size, 8);
        },
        GitObject::Tree(t) => {
            push_le(&mut out, 1, 4);
            push_le(&mut out, t.entries.len() as u64, 8);
            push_entries(&mut out, &t.entries);
        },
        GitObject::Commit(c) => {
            push_le(&mut out, 2, 4);
            push_all(&mut out, c.tree.as_bytes());
            push_le(&mut out, c.parents.len() as u64, 8);
            push_ids(&mut out, &c.parents);
            push_signature(&mut out, &c.author);
            push_signature(&mut out, &c.committer);
            push_string(&mut out, &c.message);
        },
        GitObject::Tag(t) => {
            push_le(&mut out, 3, 4);
            push_all(&mut out, t.target.as_bytes());
            push_le(&mut out, object_type_tag(t.target_type), 4);
            push_string(&mut out, &t.name);
            push_signature(&mut out, &t.tagger);
            push_string(&mut out, &t.message);
        },
    }
    out
}

impl GitObject {
    /// The address of this object.
    pub fn canonical_hash(&self) -> (r: ObjectId)
        ensures
            r@ == content_address(*self),
    {
        let bytes = canonical_encode(self);
        ObjectId::from_canonical_bytes(bytes.as_slice())
    }

    /// The canonical bytes of this object; this never fails.
    pub fn canonical_serialize(&self) -> (r: Result<Vec<u8>, GitNextError>)
        ensures
            r matches Ok(b) && b@ == self@,
    {
        Ok(canonical_encode(self))
    }

    pub fn object_type(&self) -> (r: ObjectType)
        ensures
            r == kind_of(*self),
    {
        match self {
            GitObject::Blob(_) => ObjectType::Blob,
            GitObject::Tree(_) => ObjectType::Tree,
            GitObject::Commit(_) => ObjectType::Commit,
            GitObject::Tag(_) => ObjectType::Tag,
        }
    }
}

pub open spec fn kind_of(o: GitObject) -> ObjectType {
    match o {
        GitObject::Blob(_) => ObjectType::Blob,
        GitObject::Tree(_) => ObjectType::Tree,
        GitObject::Commit(_) => ObjectType::Commit,
        GitObject::Tag(_) => ObjectType::Tag,
    }
}

impl Blob {
    /// A blob holding `content`, with its length as the declared size.
    pub fn new(content: Vec<u8>) -> (r: Blob)
        ensures
            r.content matches Some(c) && c@ == content@,
            r.size == content@.len(),
    {
        let size = content.len() as u64;
        Blob { content: Some(content), size }
    }
}

/// No entry's name comes strictly before that of an entry ahead of it.
pub open spec fn names_sorted(s: Seq<TreeEntry>) -> bool {
    forall|i: int, j: int|
        0 <= i < j < s.len() ==> !bytes_lt(#[trigger] utf8(&s[j].name), #[trigger] utf8(&s[i].name))
}

impl Tree {
    /// A tree over the given entries, sorted by name. Nothing is removed:
    /// entries with equal names all stay, and validation refuses such a tree.
    #[verifier::rlimit(30)]
    pub fn new(entries: Vec<TreeEntry>) -> (r: Tree)
        ensures
            names_sorted(r.entries@),
            r.entries@.to_multiset() == entries@.to_multiset(),
            r.entries@.len() == entries@.len(),
    {
        broadcast use vstd::seq_lib::group_to_multiset_ensures;
        broadcast use vstd::multiset::group_multiset_axioms;

        let mut rest = entries;
        let mut sorted: Vec<TreeEntry> = Vec::new();
        assert(sorted@.to_multiset() =~= Multiset::empty());
        while rest.len() > 0
            invariant
                names_sorted(sorted@),
                sorted@.to_multiset().add(rest@.to_multiset()) == entries@.to_multiset(),
            decreases rest@.len(),
        {
            let ghost rest0 = rest@;
            let e = rest.remove(0);
            let mut pos: usize = 0;
            while pos < sorted.len() && !bytes_less(
                e.name.as_str().as_bytes(),
                sorted[pos].name.as_str().as_bytes(),
            )
                invariant
                    pos <= sorted@.len(),
                    forall|k: int| 0 <= k < pos ==> !bytes_lt(utf8(&e.name), #[trigger] utf8(&sorted@[k].name)),
                decreases sorted@.len() - pos,
            {
                pos = pos + 1;
            }
            let ghost s = sorted@;
            proof {
                assert forall|k: int| pos <= k < s.len() implies !bytes_lt(
                    #[trigger] utf8(&s[k].name),
                    utf8(&e.name),
                ) by {
                    if bytes_lt(utf8(&s[k].name), utf8(&e.name)) {
                        lemma_bytes_lt_transitive(utf8(&s[k].name), utf8(&e.name), utf8(&s[pos as int].name));
                        lemma_bytes_lt_irreflexive(utf8(&s[k].name));
                    }
                }
            }
            sorted.insert(pos, e);
            proof {
                let t = sorted@;
                assert(t == s.insert(pos as int, e));
                assert forall|i: int, j: int| 0 <= i < j < t.len() implies !bytes_lt(
                    #[trigger] utf8(&t[j].name),
                    #[trigger] utf8(&t[i].name),
                ) by {
                    if j < pos {
                        assert(t[i] == s[i] && t[j] == s[j]);
                    } else if j == pos {
                        assert(t[i] == s[i]);
                    } else if i == pos {
                        assert(t[j] == s[j - 1]);
                    } else if i < pos {
                        assert(t[i] == s[i] && t[j] == s[j - 1]);
                    } else {
                        assert(t[i] == s[i - 1] && t[j] == s[j - 1]);
                    }
                }
                assert(rest0.remove(0) == rest@);
                vstd::seq_lib::to_multiset_insert(s, pos as int, e);
                vstd::seq_lib::to_multiset_remove(rest0, 0);
                vstd::seq_lib::to_multiset_contains(rest0, rest0[0]);
                assert(rest0.contains(rest0[0]));
                assert(rest0.to_multiset().count(e) > 0);
                assert(sorted@.to_multiset().add(rest@.to_multiset()) =~= entries@.to_multiset());
            }
        }
        assert(rest@.to_multiset() =~= Multiset::empty());
        assert(sorted@.to_multiset().add(rest@.to_multiset()) =~= sorted@.to_multiset());
        proof {
            vstd::seq_lib::to_multiset_len(sorted@);
            vstd::seq_lib::to_multiset_len(entries@);
        }
        Tree { entries: sorted }
    }
}

impl Clone for TreeEntry {
    fn clone(&self) -> (r: TreeEntry)
        ensures
            r == *self,
    {
        TreeEntry { name: self.name.clone(), mode: self.mode, hash: self.hash, entry_type: self.entry_type }
    }
}

impl Clone for Signature {
    fn clone(&self) -> (r: Signature)
        ensures
            r == *self,
    {
        Signature {
            name: self.name.clone(),
            email: self.email.clone(),
            timestamp: self.timestamp,
            timezone_offset: self.timezone_offset,
        }
    }
}

/// A copy of a list of identities.
pub fn copy_ids(ids: &Vec<ObjectId>) -> (r: Vec<ObjectId>)
    ensures
        r@ == ids@,
{
    let mut out: Vec<ObjectId> = Vec::new();
    let mut i: usize = 0;
    while i < ids.len()
        invariant
            i <= ids@.len(),
            out@ == ids@.subrange(0, i as int),
        decreases ids@.len() - i,
    {
        out.push(ids[i]);
        assert(ids@.subrange(0, i + 1) == ids@.subrange(0, i as int).push(ids@[i as int]));
        i = i + 1;
    }
    assert(ids@.subrange(0, ids@.len() as int) == ids@);
    out
}

/// A copy of a byte string.
pub fn copy_bytes(b: &[u8]) -> (r: Vec<u8>)
    ensures
        r@ == b@,
{
    let mut out: Vec<u8> = Vec::new();
    push_all(&mut out, b);
    out
}

impl Clone for Tree {
    fn clone(&self) -> (r: Tree)
        ensures
            r.entries@ == self.entries@,
    {
        let mut out: Vec<TreeEntry> = Vec::new();
        let mut i: usize = 0;
        while i < self.entries.len()
            invariant
                i <= self.entries@.len(),
                out@ == self.entries@.subrange(0, i as int),
            decreases self.entries@.len() - i,
        {
            out.push(self.entries[i].clone());
            assert(self.entries@.subrange(0, i + 1) == self.entries@.subrange(0, i as int).push(
                self.entries@[i as int],
            ));
            i = i + 1;
        }
        assert(self.entries@.subrange(0, self.entries@.len() as int) == self.entries@);
        Tree { entries: out }
    }
}

impl Clone for Blob {
    fn clone(&self) -> (r: Blob)
        ensures
            r.size == self.size,
            blob_content_bytes(r.content) == blob_content_bytes(self.content),
            r.content is Some <==> self.content is Some,
            r.content matches Some(c) ==> c@ == self.content->Some_0@,
    {
        let content = match &self.content {
            Some(c) => Some(copy_bytes(c.as_slice())),
            None => None,
        };
        Blob { content, size: self.size }
    }
}

impl Clone for Commit {
    fn clone(&self) -> (r: Commit)
        ensures
            r.tree == self.tree,
            r.parents@ == self.parents@,
            r.author == self.author,
            r.committer == self.committer,
            r.message == self.message,
    {
        Commit {
            tree: self.tree,
            parents: copy_ids(&self.parents),
            author: self.author.clone(),
            committer: self.committer.clone(),
            message: self.message.clone(),
        }
    }
}

impl Clone for Tag {
    fn clone(&self) -> (r: Tag)
        ensures
            r == *self,
    {
        Tag {
            target: self.target,
            target_type: self.target_type,
            name: self.name.clone(),
            tagger: self.tagger.clone(),
            message: self.message.clone(),
        }
    }
}

impl Clone for GitObject {
    fn clone(&self) -> (r: GitObject)
        ensures
            r@ == self@,
            kind_of(r) == kind_of(*self),
    {
        match self {
            GitObject::Blob(b) => GitObject::Blob(b.clone()),
            GitObject::Tree(t) => GitObject::Tree(t.clone()),
            GitObject::Commit(c) => GitObject::Commit(c.clone()),
            GitObject::Tag(t) => GitObject::Tag(t.clone()),
        }
    }
}

pub proof fn lemma_id_len(id: ObjectId)
    ensures
        id@.len() == 32,
{
}

proof fn lemma_ids_bytes(ps: Seq<ObjectId>)
    ensures
        ids_bytes(ps).len() == 32 * ps.len(),
        forall|i: int| #![auto] 0 <= i < ps.len() ==> ids_bytes(ps).subrange(32 * i, 32 * i + 32) == ps[i]@,
    decreases ps.len(),
{
    if ps.len() > 0 {
        let init = ps.drop_last();
        lemma_ids_bytes(init);
        lemma_id_len(ps.last());
        let b = ids_bytes(ps);
        assert(b == ids_bytes(init) + ps.last()@);
        assert forall|i: int| #![auto] 0 <= i < ps.len() implies b.subrange(32 * i, 32 * i + 32) == ps[i]@ by {
            if i < ps.len() - 1 {
                assert(init[i] == ps[i]);
                assert(b.subrange(32 * i, 32 * i + 32) =~= ids_bytes(init).subrange(32 * i, 32 * i + 32));
            } else {
                assert(b.subrange(32 * i, 32 * i + 32) =~= ps.last()@);
            }
        }
    }
}

pub open spec fn pow256(n: nat) -> nat
    decreases n,
{
    if n == 0 {
        1
    } else {
        256 * pow256((n - 1) as nat)
    }
}

pub proof fn lemma_le_bytes_injective(x: nat, y: nat, n: nat)
    requires
        x < pow256(n),
        y < pow256(n),
        le_bytes(x, n) == le_bytes(y, n),
    ensures
        x == y,
    decreases n,
{
    if n == 0 {
    } else {
        let p = pow256((n - 1) as nat);
        lemma_le_bytes_len(x, n);
        lemma_le_bytes_len(y, n);
        assert(le_bytes(x, n)[0] == le_bytes(y, n)[0]);
        assert(le_bytes(x, n)[0] == (x % 256) as u8);
        assert(le_bytes(y, n)[0] == (y % 256) as u8);
        assert(x % 256 == y % 256);
        assert(le_bytes(x / 256, (n - 1) as nat) =~= le_bytes(x, n).subrange(1, n as int));
        assert(le_bytes(y / 256, (n - 1) as nat) =~= le_bytes(y, n).subrange(1, n as int));
        assert(x / 256 < p) by (nonlinear_arith)
            requires
                x < 256 * p,
        ;
        assert(y / 256 < p) by (nonlinear_arith)
            requires
                y < 256 * p,
        ;
        lemma_le_bytes_injective(x / 256, y / 256, (n - 1) as nat);
        assert(x == 256 * (x / 256) + x % 256) by (nonlinear_arith);
        assert(y == 256 * (y / 256) + y % 256) by (nonlinear_arith);
    }
}

/// Only a commit has the canonical bytes of a commit.
pub proof fn lemma_commit_bytes_only_from_commits(o: GitObject, c: Commit)
    requires
        canonical_bytes(o) == canonical_bytes(GitObject::Commit(c)),
    ensures
        o is Commit,
{
    let b = canonical_bytes(o);
    let bc = canonical_bytes(GitObject::Commit(c));
    lemma_le_bytes_len(0, 4);
    lemma_le_bytes_len(1, 4);
    lemma_le_bytes_len(2, 4);
    lemma_le_bytes_len(3, 4);
    assert(bc[0] == tag_field(2)[0]);
    match o {
        GitObject::Blob(x) => {
            assert(b[0] == tag_field(0)[0]);
        },
        GitObject::Tree(x) => {
            assert(b[0] == tag_field(1)[0]);
        },
        GitObject::Tag(x) => {
            assert(b[0] == tag_field(3)[0]);
        },
        GitObject::Commit(_) => {},
    }
}

/// The parents of a commit are determined by its canonical bytes.
pub proof fn lemma_commit_parents_determined(c1: Commit, c2: Commit)
    requires
        canonical_bytes(GitObject::Commit(c1)) == canonical_bytes(GitObject::Commit(c2)),
    ensures
        c1.parents@.len() == c2.parents@.len(),
        forall|i: int| #![auto] 0 <= i < c1.parents@.len() ==> c1.parents@[i]@ == c2.parents@[i]@,
{
    let b1 = canonical_bytes(GitObject::Commit(c1));
    let b2 = canonical_bytes(GitObject::Commit(c2));
    let n1 = c1.parents@.len();
    let n2 = c2.parents@.len();
    lemma_le_bytes_len(0, 4);
    lemma_le_bytes_len(2, 4);
    lemma_le_bytes_len(n1, 8);
    lemma_le_bytes_len(n2, 8);
    lemma_id_len(c1.tree);
    lemma_id_len(c2.tree);
    lemma_ids_bytes(c1.parents@);
    lemma_ids_bytes(c2.parents@);
    let rest1 = signature_bytes(c1.author) + signature_bytes(c1.committer) + string_field(&c1.message);
    let rest2 = signature_bytes(c2.author) + signature_bytes(c2.committer) + string_field(&c2.message);
    let head1 = tag_field(2) + c1.tree@ + le_bytes(n1, 8);
    let head2 = tag_field(2) + c2.tree@ + le_bytes(n2, 8);
    assert(b1 =~= head1 + ids_bytes(c1.parents@) + rest1);
    assert(b2 =~= head2 + ids_bytes(c2.parents@) + rest2);
    assert(head1.len() == 44);
    assert(le_bytes(n1, 8) =~= b1.subrange(36, 44));
    assert(le_bytes(n2, 8) =~= b2.subrange(36, 44));
    vstd::std_specs::vec::axiom_spec_len(&c1.parents);
    vstd::std_specs::vec::axiom_spec_len(&c2.parents);
    reveal_with_fuel(pow256, 9);
    assert(pow256(8) == 18446744073709551616);
    lemma_le_bytes_injective(n1, n2, 8);
    assert forall|i: int| #![auto] 0 <= i < n1 implies c1.parents@[i]@ == c2.parents@[i]@ by {
        assert(32 * i + 32 <= 32 * n1) by (nonlinear_arith)
            requires
                i < n1,
        ;
        assert(c1.parents@[i]@ =~= b1.subrange(44 + 32 * i, 44 + 32 * i + 32));
        assert(c2.parents@[i]@ =~= b2.subrange(44 + 32 * i, 44 + 32 * i + 32));
    }
}

} // verus!
