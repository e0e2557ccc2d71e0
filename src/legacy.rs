//! Re-emission of objects in the historical Git wire format, and the SHA-1 or
//! SHA-256 digests computed over it.

use vstd::prelude::*;
use vstd::string::StringSliceAdditionalSpecFns;
use crate::encoding::push_all;
use crate::object::{
    content_address, utf8, Blob, Commit, FileMode, GitNextError,
    GitObject, ObjectId, ObjectType, Signature, Tag, Tree, TreeEntry,
};

verus! {

/// The UTF-8 bytes of a piece of fixed text.
pub open spec fn text(s: &str) -> Seq<u8> {
    s.spec_bytes()
}

pub open spec fn newline() -> Seq<u8> {
    seq![10u8]
}

pub open spec fn nul() -> Seq<u8> {
    seq![0u8]
}

/// The ASCII decimal digits of `n`, without leading zeros.
pub open spec fn decimal(n: nat) -> Seq<u8>
    decreases n,
{
    if n < 10 {
        seq![(48 + n) as u8]
    } else {
        decimal(n / 10) + seq![(48 + n % 10) as u8]
    }
}

/// A signed integer in decimal, with a leading `-` when negative.
pub open spec fn signed_decimal(x: int) -> Seq<u8> {
    if x < 0 {
        text("-") + decimal((-x) as nat)
    } else {
        decimal(x as nat)
    }
}

/// At least two decimal digits.
pub open spec fn two_digits(n: nat) -> Seq<u8> {
    if n < 10 {
        seq![48u8] + decimal(n)
    } else {
        decimal(n)
    }
}

/// A timezone offset in minutes as `±HHMM`.
pub open spec fn timezone_text(minutes: int) -> Seq<u8> {
    let m: nat = if minutes < 0 { (-minutes) as nat } else { minutes as nat };
    (if minutes < 0 { text("-") } else { text("+") }) + two_digits(m / 60) + two_digits(m % 60)
}

/// `Name <email> seconds ±HHMM`.
pub open spec fn signature_text(s: Signature) -> Seq<u8> {
    utf8(&s.name) + text(" <") + utf8(&s.email) + text("> ") + signed_decimal(s.timestamp as int)
        + text(" ") + timezone_text(s.timezone_offset as int)
}

/// Two lowercase hexadecimal digits for a value below 16.
pub open spec fn hex_digit(n: nat) -> u8 {
    if n < 10 {
        (48 + n) as u8
    } else {
        (87 + n) as u8
    }
}

/// Two lowercase hexadecimal digits per byte, high nibble first.
pub open spec fn hex_text(b: Seq<u8>) -> Seq<u8>
    decreases b.len(),
{
    if b.len() == 0 {
        Seq::empty()
    } else {
        hex_text(b.drop_last()) + seq![hex_digit(b.last() as nat / 16), hex_digit(b.last() as nat % 16)]
    }
}

pub open spec fn mode_text(m: FileMode) -> Seq<u8> {
    match m {
        FileMode::Normal => text("100644"),
        FileMode::Executable => text("100755"),
        FileMode::Symlink => text("120000"),
        FileMode::Tree => text("40000"),
    }
}

pub open spec fn type_text(t: ObjectType) -> Seq<u8> {
    match t {
        ObjectType::Blob => text("blob"),
        ObjectType::Tree => text("tree"),
        ObjectType::Commit => text("commit"),
        ObjectType::Tag => text("tag"),
    }
}

/// A header `<kind> <payload length>` and a NUL, then the payload.
pub open spec fn framed(kind: Seq<u8>, payload: Seq<u8>) -> Seq<u8> {
    kind + decimal(payload.len()) + nul() + payload
}

/// A tree entry: mode, name and the legacy digest of the child.
pub open spec fn entry_text(e: TreeEntry, child: GitHash) -> Seq<u8> {
    mode_text(e.mode) + text(" ") + utf8(&e.name) + nul() + digest_bytes(child)
}

/// The entries of a tree, each with the legacy digest of its child.
pub open spec fn tree_payload(s: Seq<TreeEntry>, children: Seq<GitHash>) -> Seq<u8>
    decreases s.len(),
{
    if s.len() == 0 {
        Seq::empty()
    } else {
        tree_payload(s.drop_last(), children.drop_last()) + entry_text(s.last(), children.last())
    }
}

pub open spec fn hash_kind(h: GitHash) -> GitHashType {
    match h {
        GitHash::Sha1(_) => GitHashType::Sha1,
        GitHash::Sha256(_) => GitHashType::Sha256,
    }
}

/// One digest under `t` for each of `n` entries.
pub open spec fn digests_fit(children: Seq<GitHash>, n: nat, t: GitHashType) -> bool {
    children.len() == n && forall|i: int| 0 <= i < children.len() ==> hash_kind(#[trigger] children[i]) == t
}

pub open spec fn parent_lines(s: Seq<ObjectId>) -> Seq<u8>
    decreases s.len(),
{
    if s.len() == 0 {
        Seq::empty()
    } else {
        parent_lines(s.drop_last()) + text("parent ") + hex_text(s.last()@) + newline()
    }
}

pub open spec fn commit_payload(c: Commit) -> Seq<u8> {
    text("tree ") + hex_text(c.tree@) + newline() + parent_lines(c.parents@) + text("author ")
        + signature_text(c.author) + newline() + text("committer ") + signature_text(c.committer)
        + newline() + newline() + utf8(&c.message)
}

pub open spec fn tag_payload(t: Tag) -> Seq<u8> {
    text("object ") + hex_text(t.target@) + newline() + text("type ") + type_text(t.target_type)
        + newline() + text("tag ") + utf8(&t.name) + newline() + text("tagger ") + signature_text(
        t.tagger,
    ) + newline() + newline() + utf8(&t.message)
}

/// The legacy bytes of an object under the algorithm `t`. A tree needs the
/// legacy digests of its children under `t`, in the order of its entries;
/// without them, as for a blob without content, there are none.
pub open spec fn legacy_bytes(o: GitObject, t: GitHashType, children: Seq<GitHash>) -> Option<Seq<u8>> {
    match o {
        GitObject::Blob(b) => match b.content {
            Some(c) => Some(framed(text("blob "), c@)),
            None => None,
        },
        GitObject::Tree(tr) => if digests_fit(children, tr.entries@.len(), t) {
            Some(framed(text("tree "), tree_payload(tr.entries@, children)))
        } else {
            None
        },
        GitObject::Commit(c) => Some(framed(text("commit "), commit_payload(c))),
        GitObject::Tag(t) => Some(framed(text("tag "), tag_payload(t))),
    }
}

fn push_text(out: &mut Vec<u8>, s: &str)
    ensures
        final(out)@ == old(out)@ + text(s),
{
    push_all(out, s.as_bytes());
}

fn push_string(out: &mut Vec<u8>, s: &String)
    ensures
        final(out)@ == old(out)@ + utf8(s),
{
    push_all(out, s.as_str().as_bytes());
}

/// Appends `n` in decimal.
pub fn push_decimal(out: &mut Vec<u8>, n: u64)
    ensures
        final(out)@ == old(out)@ + decimal(n as nat),
    decreases n,
{
    if n >= 10 {
        push_decimal(out, n / 10);
    }
    out.push((48 + n % 10) as u8);
}

fn push_two_digits(out: &mut Vec<u8>, n: u64)
    ensures
        final(out)@ == old(out)@ + two_digits(n as nat),
{
    if n < 10 {
        out.push(48u8);
    }
    push_decimal(out, n);
}

fn push_signed_decimal(out: &mut Vec<u8>, x: i64)
    ensures
        final(out)@ == old(out)@ + signed_decimal(x as int),
{
    if x < 0 {
        push_text(out, "-");
        push_decimal(out, (-(x as i128)) as u64);
    } else {
        push_decimal(out, x as u64);
    }
}

fn push_timezone(out: &mut Vec<u8>, minutes: i16)
    ensures
        final(out)@ == old(out)@ + timezone_text(minutes as int),
{
    let m: u64 = if minutes < 0 { (-(minutes as i32)) as u64 } else { minutes as u64 };
    if minutes < 0 {
        push_text(out, "-");
    } else {
        push_text(out, "+");
    }
    push_two_digits(out, m / 60);
    push_two_digits(out, m % 60);
}

/// Appends `Name <email> seconds ±HHMM`.
fn push_signature(out: &mut Vec<u8>, s: &Signature)
    ensures
        final(out)@ == old(out)@ + signature_text(*s),
{
    let ghost start = out@;
    push_string(out, &s.name);
    push_text(out, " <");
    push_string(out, &s.email);
    push_text(out, "> ");
    push_signed_decimal(out, s.timestamp);
    push_text(out, " ");
    push_timezone(out, s.timezone_offset);
    assert(out@ == start + signature_text(*s));
}


/// Relies on `hex::encode`: two lowercase hexadecimal digits per input byte,
/// high nibble first.
#[verifier::external_body]
pub(crate) fn hex_encode(b: &[u8]) -> (r: String)
    ensures
        utf8(&r) == hex_text(b@),
{
    hex::encode(b)
}

fn push_hex(out: &mut Vec<u8>, id: &ObjectId)
    ensures
        final(out)@ == old(out)@ + hex_text(id@),
{
    let h = hex_encode(id.as_bytes());
    push_all(out, h.as_str().as_bytes());
}

impl ObjectId {
    /// The identity as 64 lowercase hexadecimal digits.
    pub fn to_hex(&self) -> (r: String)
        ensures
            utf8(&r) == hex_text(self@),
    {
        hex_encode(self.as_bytes())
    }
}

/// Prepends the header `<kind><length>\0` to a payload.
fn frame(kind: &str, payload: &Vec<u8>) -> (r: Vec<u8>)
    ensures
        r@ == framed(text(kind), payload@),
{
    let mut out: Vec<u8> = Vec::new();
    push_text(&mut out, kind);
    push_decimal(&mut out, payload.len() as u64);
    out.push(0u8);
    push_all(&mut out, payload.as_slice());
    assert(out@ == text(kind) + decimal(payload@.len()) + nul() + payload@);
    out
}

fn push_mode(out: &mut Vec<u8>, m: FileMode)
    ensures
        final(out)@ == old(out)@ + mode_text(m),
{
    match m {
        FileMode::Normal => push_text(out, "100644"),
        FileMode::Executable => push_text(out, "100755"),
        FileMode::Symlink => push_text(out, "120000"),
        FileMode::Tree => push_text(out, "40000"),
    }
}

fn push_type(out: &mut Vec<u8>, t: ObjectType)
    ensures
        final(out)@ == old(out)@ + type_text(t),
{
    match t {
        ObjectType::Blob => push_text(out, "blob"),
        ObjectType::Tree => push_text(out, "tree"),
        ObjectType::Commit => push_text(out, "commit"),
        ObjectType::Tag => push_text(out, "tag"),
    }
}

fn blob_to_git(blob: &Blob) -> (r: Result<Vec<u8>, GitNextError>)
    ensures
        blob.content matches Some(c) ==> (r matches Ok(v) && v@ == framed(text("blob "), c@)),
        blob.content is None ==> r matches Err(GitNextError::InvalidFormat(_)),
{
    match &blob.content {
        Some(c) => Ok(frame("blob ", c)),
        None => Err(GitNextError::InvalidFormat("Blob missing content for Git export".to_owned())),
    }
}

fn tree_to_git(tree: &Tree, hash_type: GitHashType, children: &Vec<GitHash>) -> (r: Result<Vec<u8>, GitNextError>)
    ensures
        digests_fit(children@, tree.entries@.len(), hash_type) ==> (r matches Ok(v) && v@ == framed(
            text("tree "),
            tree_payload(tree.entries@, children@),
        )),
        !digests_fit(children@, tree.entries@.len(), hash_type) ==> r matches Err(GitNextError::InvalidFormat(_)),
{
    if children.len() != tree.entries.len() {
        return Err(GitNextError::InvalidFormat("One child digest per tree entry is needed".to_owned()));
    }
    let mut k: usize = 0;
    while k < children.len()
        invariant
            k <= children@.len(),
            forall|j: int| 0 <= j < k ==> hash_kind(#[trigger] children@[j]) == hash_type,
        decreases children@.len() - k,
    {
        let fits = match (&children[k], hash_type) {
            (GitHash::Sha1(_), GitHashType::Sha1) => true,
            (GitHash::Sha256(_), GitHashType::Sha256) => true,
            _ => false,
        };
        if !fits {
            assert(hash_kind(children@[k as int]) != hash_type);
            return Err(GitNextError::InvalidFormat("Child digest of another algorithm".to_owned()));
        }
        k = k + 1;
    }
    let mut content: Vec<u8> = Vec::new();
    let mut i: usize = 0;
    while i < tree.entries.len()
        invariant
            i <= tree.entries@.len(),
            children@.len() == tree.entries@.len(),
            content@ == tree_payload(tree.entries@.subrange(0, i as int), children@.subrange(0, i as int)),
        decreases tree.entries@.len() - i,
    {
        let ghost before = content@;
        let e = &tree.entries[i];
        push_mode(&mut content, e.mode);
        push_text(&mut content, " ");
        push_string(&mut content, &e.name);
        content.push(0u8);
        push_all(&mut content, children[i].as_bytes());
        proof {
            let next = tree.entries@.subrange(0, i + 1);
            let dn = children@.subrange(0, i + 1);
            assert(next.drop_last() == tree.entries@.subrange(0, i as int));
            assert(dn.drop_last() == children@.subrange(0, i as int));
            assert(content@ == before + entry_text(*e, children@[i as int]));
        }
        i = i + 1;
    }
    assert(tree.entries@.subrange(0, tree.entries@.len() as int) == tree.entries@);
    assert(children@.subrange(0, children@.len() as int) == children@);
    Ok(frame("tree ", &content))
}

fn commit_to_git(commit: &Commit) -> (r: Vec<u8>)
    ensures
        r@ == framed(text("commit "), commit_payload(*commit)),
{
    let mut content: Vec<u8> = Vec::new();
    push_text(&mut content, "tree ");
    push_hex(&mut content, &commit.tree);
    content.push(10u8);
    let ghost head = content@;
    let mut i: usize = 0;
    while i < commit.parents.len()
        invariant
            i <= commit.parents@.len(),
            content@ == head + parent_lines(commit.parents@.subrange(0, i as int)),
        decreases commit.parents@.len() - i,
    {
        let ghost before = content@;
        push_text(&mut content, "parent ");
        push_hex(&mut content, &commit.parents[i]);
        content.push(10u8);
        proof {
            let next = commit.parents@.subrange(0, i + 1);
            assert(next.drop_last() == commit.parents@.subrange(0, i as int));
            assert(content@ == before + text("parent ") + hex_text(commit.parents@[i as int]@) + newline());
        }
        i = i + 1;
    }
    assert(commit.parents@.subrange(0, commit.parents@.len() as int) == commit.parents@);
    push_text(&mut content, "author ");
    push_signature(&mut content, &commit.author);
    content.push(10u8);
    push_text(&mut content, "committer ");
    push_signature(&mut content, &commit.committer);
    content.push(10u8);
    content.push(10u8);
    push_string(&mut content, &commit.message);
    assert(content@ == commit_payload(*commit));
    frame("commit ", &content)
}

fn tag_to_git(tag: &Tag) -> (r: Vec<u8>)
    ensures
        r@ == framed(text("tag "), tag_payload(*tag)),
{
    let mut content: Vec<u8> = Vec::new();
    push_text(&mut content, "object ");
    push_hex(&mut content, &tag.target);
    content.push(10u8);
    push_text(&mut content, "type ");
    push_type(&mut content, tag.target_type);
    content.push(10u8);
    push_text(&mut content, "tag ");
    push_string(&mut content, &tag.name);
    content.push(10u8);
    push_text(&mut content, "tagger ");
    push_signature(&mut content, &tag.tagger);
    content.push(10u8);
    content.push(10u8);
    push_string(&mut content, &tag.message);
    assert(content@ == tag_payload(*tag));
    frame("tag ", &content)
}

/// Writes the legacy bytes of an object under `hash_type`. A tree takes the
/// legacy digests of its children under the same algorithm, one per entry in
/// entry order, as `children`. A blob without content, or a tree whose
/// children's digests do not fit, is refused with `InvalidFormat`.
pub fn to_legacy_bytes(object: &GitObject, hash_type: GitHashType, children: &Vec<GitHash>) -> (r: Result<Vec<u8>, GitNextError>)
    ensures
        legacy_bytes(*object, hash_type, children@) matches Some(b) ==> r matches Ok(v) && v@ == b,
        legacy_bytes(*object, hash_type, children@) is None ==> r matches Err(GitNextError::InvalidFormat(_)),
{
    match object {
        GitObject::Blob(b) => blob_to_git(b),
        GitObject::Tree(t) => tree_to_git(t, hash_type, children),
        GitObject::Commit(c) => Ok(commit_to_git(c)),
        GitObject::Tag(t) => Ok(tag_to_git(t)),
    }
}

/// The legacy digest algorithms.
#[derive(Clone, Copy, Debug, PartialEq, Eq, Structural)]
pub enum GitHashType {
    Sha1,
    Sha256,
}

/// A legacy digest: 160 or 256 bits.
#[derive(Clone, Copy, Debug, PartialEq, Eq, Hash)]
pub enum GitHash {
    Sha1([u8; 20]),
    Sha256([u8; 32]),
}

/// What SHA-1 gives for a byte string.
pub uninterp spec fn sha1_of(data: Seq<u8>) -> Seq<u8>;

/// What SHA-256 gives for a byte string.
pub uninterp spec fn sha256_of(data: Seq<u8>) -> Seq<u8>;

/// Relies on `sha1::Sha1::digest`: the 20-byte SHA-1 digest of the input,
/// which depends on the input bytes alone.
#[verifier::external_body]
fn sha1_digest(data: &[u8]) -> (r: [u8; 20])
    ensures
        r@ == sha1_of(data@),
{
    let result = <sha1::Sha1 as sha1::Digest>::digest(data);
    let mut bytes = [0u8; 20];
    bytes.copy_from_slice(&result);
    bytes
}

/// Relies on `sha2::Sha256::digest`: the 32-byte SHA-256 digest of the input,
/// which depends on the input bytes alone.
#[verifier::external_body]
fn sha256_digest(data: &[u8]) -> (r: [u8; 32])
    ensures
        r@ == sha256_of(data@),
{
    let result = <sha2::Sha256 as sha2::Digest>::digest(data);
    let mut bytes = [0u8; 32];
    bytes.copy_from_slice(&result);
    bytes
}

/// The bytes of a legacy digest.
pub open spec fn digest_bytes(h: GitHash) -> Seq<u8> {
    match h {
        GitHash::Sha1(b) => b@,
        GitHash::Sha256(b) => b@,
    }
}

/// `h` is the digest of `data` under `t`.
pub open spec fn is_digest_of(h: GitHash, t: GitHashType, data: Seq<u8>) -> bool {
    match t {
        GitHashType::Sha1 => h is Sha1 && digest_bytes(h) == sha1_of(data),
        GitHashType::Sha256 => h is Sha256 && digest_bytes(h) == sha256_of(data),
    }
}

/// `h` is the legacy digest of `o` under `t`, given its children's digests.
pub open spec fn is_legacy_digest(h: GitHash, o: GitObject, t: GitHashType, children: Seq<GitHash>) -> bool {
    legacy_bytes(o, t, children) matches Some(b) && is_digest_of(h, t, b)
}

impl GitHash {
    /// The digest of the given legacy bytes.
    pub fn from_git_bytes(bytes: &[u8], hash_type: GitHashType) -> (r: GitHash)
        ensures
            is_digest_of(r, hash_type, bytes@),
    {
        match hash_type {
            GitHashType::Sha1 => GitHash::Sha1(sha1_digest(bytes)),
            GitHashType::Sha256 => GitHash::Sha256(sha256_digest(bytes)),
        }
    }

    /// The digest as lowercase hexadecimal digits.
    pub fn to_hex(&self) -> (r: String)
        ensures
            utf8(&r) == hex_text(digest_bytes(*self)),
    {
        hex_encode(self.as_bytes())
    }

    pub fn as_bytes(&self) -> (r: &[u8])
        ensures
            r@ == digest_bytes(*self),
    {
        match self {
            GitHash::Sha1(b) => b.as_slice(),
            GitHash::Sha256(b) => b.as_slice(),
        }
    }
}

/// The legacy digest of an object: its legacy bytes hashed under `hash_type`.
pub fn legacy_digest(object: &GitObject, hash_type: GitHashType, children: &Vec<GitHash>) -> (r: Result<GitHash, GitNextError>)
    ensures
        legacy_bytes(*object, hash_type, children@) is Some <==> r is Ok,
        r matches Ok(h) ==> is_legacy_digest(h, *object, hash_type, children@),
        r matches Err(e) ==> e is InvalidFormat,
{
    let bytes = to_legacy_bytes(object, hash_type, children)?;
    Ok(GitHash::from_git_bytes(bytes.as_slice(), hash_type))
}

/// Some object at address `e.0` has `e.2` as its legacy digest under `e.1`.
pub open spec fn digest_at_address(e: (Seq<u8>, GitHashType, GitHash)) -> bool {
    exists|o: GitObject, ds: Seq<GitHash>| content_address(o) == e.0 && #[trigger] is_legacy_digest(e.2, o, e.1, ds)
}

pub open spec fn slot_in(c: Seq<(Seq<u8>, GitHashType, GitHash)>, id: Seq<u8>, t: GitHashType) -> Option<int> {
    if exists|i: int| 0 <= i < c.len() && #[trigger] c[i].0 == id && c[i].1 == t {
        Some(choose|i: int| 0 <= i < c.len() && #[trigger] c[i].0 == id && c[i].1 == t)
    } else {
        None
    }
}

pub open spec fn keys_unique(c: Seq<(Seq<u8>, GitHashType, GitHash)>) -> bool {
    forall|i: int, j: int| 0 <= i < j < c.len() ==> (#[trigger] c[i].0, c[i].1) != (#[trigger] c[j].0, c[j].1)
}

proof fn lemma_first_slot(c: Seq<(Seq<u8>, GitHashType, GitHash)>, id: Seq<u8>, t: GitHashType, i: int)
    requires
        keys_unique(c),
        0 <= i < c.len(),
        c[i].0 == id && c[i].1 == t,
    ensures
        slot_in(c, id, t) == Some(i),
{
    let j = choose|j: int| 0 <= j < c.len() && #[trigger] c[j].0 == id && c[j].1 == t;
    if j < i {
        assert((c[j].0, c[j].1) != (c[i].0, c[i].1));
    } else if j > i {
        assert((c[i].0, c[i].1) != (c[j].0, c[j].1));
    }
}

proof fn lemma_no_slot(c: Seq<(Seq<u8>, GitHashType, GitHash)>, id: Seq<u8>, t: GitHashType)
    requires
        forall|k: int| 0 <= k < c.len() ==> !(#[trigger] c[k].0 == id && c[k].1 == t),
    ensures
        slot_in(c, id, t) is None,
{
}

struct CacheEntry {
    id: ObjectId,
    kind: GitHashType,
    hash: GitHash,
}

/// Computes legacy digests, remembering each one by object address and
/// algorithm; both sides are content-addressed, so nothing ever goes stale.
pub struct CompatHashDeriver {
    cache: Vec<CacheEntry>,
}

impl CompatHashDeriver {
    /// The remembered digests.
    pub closed spec fn cached(&self) -> Seq<(Seq<u8>, GitHashType, GitHash)> {
        self.cache@.map_values(|e: CacheEntry| (e.id@, e.kind, e.hash))
    }

    /// Each remembered digest belongs to some object at its address, and no
    /// address and algorithm is remembered twice.
    pub open spec fn wf(&self) -> bool {
        &&& forall|i: int| 0 <= i < self.cached().len() ==> digest_at_address(#[trigger] self.cached()[i])
        &&& keys_unique(self.cached())
    }

    /// The position of the digest remembered for an address and algorithm.
    pub open spec fn slot(&self, id: Seq<u8>, t: GitHashType) -> Option<int> {
        slot_in(self.cached(), id, t)
    }

    pub fn new() -> (r: CompatHashDeriver)
        ensures
            r.wf(),
            r.cached().len() == 0,
    {
        CompatHashDeriver { cache: Vec::new() }
    }

    /// The legacy digest of an object. When one is remembered for the
    /// object's address and the algorithm, that one is returned; otherwise it
    /// is computed from the object's legacy bytes and remembered.
    pub fn derive_git_hash(&mut self, object: &GitObject, hash_type: GitHashType, children: &Vec<GitHash>) -> (r: Result<GitHash, GitNextError>)
        requires
            old(self).wf(),
        ensures
            final(self).wf(),
            old(self).slot(content_address(*object), hash_type) matches Some(i) ==> r == Ok::<GitHash, GitNextError>(old(self).cached()[i].2)
                && final(self).cached() == old(self).cached(),
            old(self).slot(content_address(*object), hash_type) is None ==> {
                &&& (legacy_bytes(*object, hash_type, children@) is Some <==> r is Ok)
                &&& (r matches Ok(h) ==> is_legacy_digest(h, *object, hash_type, children@)
                    && final(self).cached() == old(self).cached().push((content_address(*object), hash_type, h)))
                &&& (r matches Err(e) ==> e is InvalidFormat && final(self).cached() == old(self).cached())
            },
    {
        let object_id = object.canonical_hash();
        match self.find(&object_id, hash_type) {
            Some(h) => {
                return Ok(h);
            },
            None => {},
        }
        let bytes = to_legacy_bytes(object, hash_type, children)?;
        let git_hash = GitHash::from_git_bytes(bytes.as_slice(), hash_type);
        let ghost before = self.cached();
        self.cache.push(CacheEntry { id: object_id, kind: hash_type, hash: git_hash });
        proof {
            let c = self.cached();
            assert(c == before.push((object_id@, hash_type, git_hash)));
            assert forall|a: int, b: int| 0 <= a < b < c.len() implies (#[trigger] c[a].0, c[a].1) != (#[trigger] c[b].0, c[b].1) by {
                if b == before.len() {
                    assert(c[a] == before[a]);
                }
            }
            assert forall|k: int| 0 <= k < c.len() implies digest_at_address(#[trigger] c[k]) by {
                if k == before.len() {
                    assert(content_address(*object) == c[k].0 && is_legacy_digest(c[k].2, *object, c[k].1, children@));
                } else {
                    assert(c[k] == before[k]);
                }
            }
        }
        Ok(git_hash)
    }

    fn find(&self, id: &ObjectId, t: GitHashType) -> (r: Option<GitHash>)
        requires
            self.wf(),
        ensures
            self.slot(id@, t) matches Some(i) ==> r == Some(self.cached()[i].2),
            self.slot(id@, t) is None ==> r is None,
    {
        let mut i: usize = 0;
        while i < self.cache.len()
            invariant
                i <= self.cache@.len(),
                self.wf(),
                forall|k: int| 0 <= k < i ==> !(#[trigger] self.cached()[k].0 == id@ && self.cached()[k].1 == t),
            decreases self.cache@.len() - i,
        {
            let e = &self.cache[i];
            if e.id.same_as(id) && e.kind == t {
                proof {
                    lemma_first_slot(self.cached(), id@, t, i as int);
                }
                return Some(e.hash);
            }
            i = i + 1;
        }
        proof {
            lemma_no_slot(self.cached(), id@, t);
        }
        None
    }

    /// Writes the legacy bytes of an object.
    pub fn serialize_to_git_format(&self, object: &GitObject, hash_type: GitHashType, children: &Vec<GitHash>) -> (r: Result<Vec<u8>, GitNextError>)
        ensures
            legacy_bytes(*object, hash_type, children@) matches Some(b) ==> r matches Ok(v) && v@ == b,
            legacy_bytes(*object, hash_type, children@) is None ==> r matches Err(GitNextError::InvalidFormat(_)),
    {
        to_legacy_bytes(object, hash_type, children)
    }
}

impl Default for CompatHashDeriver {
    fn default() -> (r: CompatHashDeriver)
        ensures
            r.wf(),
            r.cached().len() == 0,
    {
        CompatHashDeriver::new()
    }
}

/// Legacy digests are determined by the object, the algorithm and the
/// children's digests: any two such digests are equal, and each is the hash of
/// the object's legacy bytes.
pub proof fn law_legacy_digest_deterministic(
    h1: GitHash,
    h2: GitHash,
    o: GitObject,
    t: GitHashType,
    children: Seq<GitHash>,
)
    requires
        is_legacy_digest(h1, o, t, children),
        is_legacy_digest(h2, o, t, children),
    ensures
        h1 == h2,
        legacy_bytes(o, t, children) matches Some(b) && is_digest_of(h1, t, b),
{
    match (h1, h2) {
        (GitHash::Sha1(a), GitHash::Sha1(b)) => {
            assert(a@ =~= b@);
            vstd::array::axiom_array_ext_equal(a, b);
        },
        (GitHash::Sha256(a), GitHash::Sha256(b)) => {
            assert(a@ =~= b@);
            vstd::array::axiom_array_ext_equal(a, b);
        },
        _ => {},
    }
}

/// Once a digest has been computed for an object and an algorithm, asking the
/// deriver again for the same address and algorithm finds that digest.
pub proof fn law_deriver_remembers(d: CompatHashDeriver, o: GitObject, t: GitHashType, h: GitHash)
    requires
        d.wf(),
        d.cached().len() > 0,
        d.cached().last() == (content_address(o), t, h),
    ensures
        d.slot(content_address(o), t) == Some((d.cached().len() - 1) as int),
        d.cached()[d.cached().len() - 1].2 == h,
{
    lemma_first_slot(d.cached(), content_address(o), t, d.cached().len() - 1);
}

} // verus!
