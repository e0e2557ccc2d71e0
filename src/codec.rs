//! Reading the canonical form back, and the row forms in which a table-backed
//! store keeps objects and references.

use vstd::prelude::*;
use crate::encoding::{le_bytes, lemma_le_bytes_len, length_prefixed};
use crate::object::{
    blob_content_bytes, canonical_bytes, canonical_encode, content_address, entries_bytes, entry_bytes,
    file_mode_index, ids_bytes, kind_of, lemma_id_len, lemma_le_bytes_injective, object_type_index, pow256,
    signature_bytes, string_field, tag_field, utf8, Blob, Commit, FileMode, GitObject, ObjectId, ObjectType,
    Signature, Tag, Tree, TreeEntry,
};
use crate::validate::{object_valid, ObjectOps};
use crate::storage::{Reference, ReferenceTarget, StorageError, TargetView};

verus! {

/// Relies on `String::from_utf8`: the string whose UTF-8 bytes are `b` when
/// `b` is valid UTF-8, and nothing otherwise.
#[verifier::external_body]
fn string_from_utf8(b: Vec<u8>) -> (r: Option<String>)
    ensures
        r matches Some(s) ==> utf8(&s) == b@,
        r is Some <==> vstd::utf8::valid_utf8(b@),
{
    String::from_utf8(b).ok()
}

/// `x` stands in `b` at `pos`.
pub open spec fn at(b: Seq<u8>, pos: int, x: Seq<u8>) -> bool {
    0 <= pos && pos + x.len() <= b.len() && b.subrange(pos, pos + x.len()) == x
}

pub proof fn lemma_at_split(b: Seq<u8>, pos: int, x: Seq<u8>, y: Seq<u8>)
    requires
        at(b, pos, x + y),
    ensures
        at(b, pos, x),
        at(b, pos + x.len(), y),
{
    let w = b.subrange(pos, pos + x.len() + y.len());
    assert(w == x + y);
    assert(b.subrange(pos, pos + x.len()) =~= w.subrange(0, x.len() as int));
    assert(w.subrange(0, x.len() as int) =~= x);
    assert(b.subrange(pos + x.len(), pos + x.len() + y.len()) =~= w.subrange(x.len() as int, w.len() as int));
    assert(w.subrange(x.len() as int, w.len() as int) =~= y);
}

pub proof fn lemma_at_join(b: Seq<u8>, pos: int, x: Seq<u8>, y: Seq<u8>)
    requires
        at(b, pos, x),
        at(b, pos + x.len(), y),
    ensures
        at(b, pos, x + y),
{
    assert(b.subrange(pos, pos + x.len() + y.len()) =~= x + y);
}

proof fn lemma_pow256_mono(a: nat, c: nat)
    requires
        a <= c,
    ensures
        pow256(a) <= pow256(c),
    decreases c,
{
    if a < c {
        lemma_pow256_mono(a, (c - 1) as nat);
    }
}

pub proof fn lemma_pow256_8()
    ensures
        pow256(8) == 0x1_0000_0000_0000_0000,
{
    reveal_with_fuel(pow256, 9);
}

/// A value read as `n` little-endian bytes where `le_bytes(x, n)` stands is `x`.
pub proof fn lemma_read_value(v: nat, x: nat, n: nat)
    requires
        v < pow256(n),
        x < pow256(n),
        le_bytes(v, n) == le_bytes(x, n),
    ensures
        v == x,
{
    lemma_le_bytes_injective(v, x, n);
}

/// Reads `n` bytes at `pos` as a little-endian number.
pub(crate) fn read_le(b: &[u8], pos: usize, n: usize) -> (r: Option<(u64, usize)>)
    requires
        n <= 8,
    ensures
        r matches Some((v, p)) ==> p == pos + n && p <= b@.len() && at(b@, pos as int, le_bytes(v as nat, n as nat))
            && (v as nat) < pow256(n as nat),
        pos + n <= b@.len() ==> r is Some,
{
    if pos > b.len() || n > b.len() - pos {
        return None;
    }
    let end: usize = pos + n;
    let mut v: u64 = 0;
    let mut k: usize = n;
    proof {
        lemma_pow256_8();
        lemma_le_bytes_len(0, 0);
    }
    while k > 0
        invariant
            k <= n,
            n <= 8,
            end == pos + n,
            end <= b@.len(),
            pow256(8) == 0x1_0000_0000_0000_0000,
            le_bytes(v as nat, (n - k) as nat) == b@.subrange(pos + k, end as int),
            (v as nat) < pow256((n - k) as nat),
        decreases k,
    {
        let x = b[pos + k - 1];
        let ghost m: nat = (n - k) as nat;
        proof {
            lemma_pow256_mono(m + 1, 8);
            assert((v as nat) * 256 + (x as nat) < pow256(m + 1)) by (nonlinear_arith)
                requires
                    (v as nat) < pow256(m),
                    (x as nat) < 256,
                    pow256(m + 1) == 256 * pow256(m),
            ;
        }
        let w: u64 = v * 256 + x as u64;
        proof {
            assert((w as nat) % 256 == x as nat && (w as nat) / 256 == v as nat) by (nonlinear_arith)
                requires
                    w as nat == (v as nat) * 256 + (x as nat),
                    (x as nat) < 256,
            ;
            assert(le_bytes(w as nat, m + 1) == seq![((w as nat) % 256) as u8] + le_bytes((w as nat) / 256, m));
            assert(b@.subrange(pos + k - 1, end as int) =~= seq![x] + b@.subrange(pos + k, end as int));
        }
        v = w;
        k = k - 1;
    }
    proof {
        lemma_le_bytes_len(v as nat, n as nat);
    }
    Some((v, end))
}

/// Copies `len` bytes at `pos`.
pub(crate) fn read_bytes(b: &[u8], pos: usize, len: u64) -> (r: Option<(Vec<u8>, usize)>)
    ensures
        r matches Some((v, p)) ==> p == pos + len && p <= b@.len() && v@.len() == len && at(b@, pos as int, v@),
        pos + len <= b@.len() ==> r is Some,
{
    if pos > b.len() || len > (b.len() - pos) as u64 {
        return None;
    }
    let n = len as usize;
    let end: usize = pos + n;
    let mut out: Vec<u8> = Vec::new();
    let mut i: usize = 0;
    while i < n
        invariant
            i <= n,
            end == pos + n,
            end <= b@.len(),
            out@ == b@.subrange(pos as int, pos + i),
        decreases n - i,
    {
        out.push(b[pos + i]);
        assert(b@.subrange(pos as int, pos + i + 1) == b@.subrange(pos as int, pos + i).push(b@[pos + i]));
        i = i + 1;
    }
    Some((out, end))
}

pub(crate) fn read_id(b: &[u8], pos: usize) -> (r: Option<(ObjectId, usize)>)
    ensures
        r matches Some((id, p)) ==> p == pos + 32 && p <= b@.len() && at(b@, pos as int, id@),
        pos + 32 <= b@.len() ==> r is Some,
{
    if pos > b.len() || 32 > b.len() - pos {
        return None;
    }
    let end: usize = pos + 32;
    let mut a = [0u8; 32];
    let mut i: usize = 0;
    while i < 32
        invariant
            i <= 32,
            end == pos + 32,
            end <= b@.len(),
            forall|j: int| 0 <= j < i ==> a@[j] == b@[pos + j],
        decreases 32 - i,
    {
        a[i] = b[pos + i];
        i = i + 1;
    }
    let id = ObjectId::from_blake3_bytes(a);
    assert(a@ =~= b@.subrange(pos as int, pos + 32));
    Some((id, end))
}

/// Reads a string field. Where `string_field(expected)` stands at `pos`, a
/// string with the same bytes is read.
pub(crate) fn read_string(b: &[u8], pos: usize, Ghost(expected): Ghost<String>) -> (r: Option<(String, usize)>)
    ensures
        r matches Some((s, p)) ==> pos <= p <= b@.len() && p == pos + string_field(&s).len() && at(
            b@,
            pos as int,
            string_field(&s),
        ),
        at(b@, pos as int, string_field(&expected)) ==> (r matches Some((s, p)) && utf8(&s) == utf8(&expected)),
{
    let blen = b.len();
    let ghost exp = at(b@, pos as int, string_field(&expected));
    let ghost eb = utf8(&expected);
    proof {
        lemma_le_bytes_len(eb.len(), 8);
        if exp {
            lemma_at_split(b@, pos as int, le_bytes(eb.len(), 8), eb);
        }
    }
    let (len, p) = read_le(b, pos, 8)?;
    proof {
        lemma_le_bytes_len(len as nat, 8);
        if exp {
            lemma_pow256_8();
            lemma_at_same(b@, pos as int, le_bytes(len as nat, 8), le_bytes(eb.len(), 8));
            lemma_read_value(len as nat, eb.len(), 8);
        }
    }
    let (raw, q) = read_bytes(b, p, len)?;
    let ghost raw_view = raw@;
    proof {
        if exp {
            lemma_at_same(b@, p as int, raw@, eb);
            vstd::utf8::encode_utf8_valid_utf8(expected@);
        }
    }
    let s = string_from_utf8(raw)?;
    proof {
        lemma_at_join(b@, pos as int, le_bytes(len as nat, 8), raw_view);
        lemma_le_bytes_len(len as nat, 8);
        lemma_le_bytes_len(utf8(&s).len(), 8);
        assert(utf8(&s).len() == len);
    }
    Some((s, q))
}

/// Two byte strings of one length at one place are equal.
pub proof fn lemma_at_same(b: Seq<u8>, pos: int, x: Seq<u8>, y: Seq<u8>)
    requires
        at(b, pos, x),
        at(b, pos, y),
        x.len() == y.len(),
    ensures
        x == y,
{
}

fn read_signature(b: &[u8], pos: usize, Ghost(expected): Ghost<Signature>) -> (r: Option<(Signature, usize)>)
    ensures
        r matches Some((s, p)) ==> p == pos + signature_bytes(s).len() && at(b@, pos as int, signature_bytes(s)),
        at(b@, pos as int, signature_bytes(expected)) ==> (r matches Some((s, p)) && signature_bytes(s)
            == signature_bytes(expected)),
{
    let ghost e = expected;
    let ghost sa = string_field(&e.name);
    let ghost sb = string_field(&e.email);
    let ghost sc = le_bytes((e.timestamp as u64) as nat, 8);
    let ghost sd = le_bytes((e.timezone_offset as u16) as nat, 2);
    let ghost exp = at(b@, pos as int, signature_bytes(expected));
    proof {
        lemma_le_bytes_len((e.timestamp as u64) as nat, 8);
        lemma_le_bytes_len((e.timezone_offset as u16) as nat, 2);
        if exp {
            assert(signature_bytes(e) == sa + sb + sc + sd);
            lemma_at_split(b@, pos as int, sa + sb + sc, sd);
            lemma_at_split(b@, pos as int, sa + sb, sc);
            lemma_at_split(b@, pos as int, sa, sb);
        }
    }
    let (name, p1) = read_string(b, pos, Ghost(e.name))?;
    let (email, p2) = read_string(b, p1, Ghost(e.email))?;
    let (ts, p3) = read_le(b, p2, 8)?;
    let (tz, p4) = read_le(b, p3, 2)?;
    let sig = Signature { name, email, timestamp: ts as i64, timezone_offset: tz as u16 as i16 };
    proof {
        reveal_with_fuel(pow256, 3);
        assert((ts as i64) as u64 == ts) by (bit_vector);
        assert(((tz as u16) as i16) as u16 == tz as u16) by (bit_vector);
        assert((tz as u16) as u64 == tz) by (bit_vector)
            requires
                tz < 65536,
        ;
        lemma_le_bytes_len(ts as nat, 8);
        lemma_le_bytes_len(tz as nat, 2);
        let x1 = string_field(&sig.name);
        let x2 = string_field(&sig.email);
        let x3 = le_bytes(ts as nat, 8);
        let x4 = le_bytes(tz as nat, 2);
        lemma_at_join(b@, pos as int, x1, x2);
        lemma_at_join(b@, pos as int, x1 + x2, x3);
        lemma_at_join(b@, pos as int, x1 + x2 + x3, x4);
        assert(signature_bytes(sig) == x1 + x2 + x3 + x4);
        if exp {
            lemma_at_same(b@, p2 as int, x3, sc);
            lemma_at_same(b@, p3 as int, x4, sd);
        }
    }
    Some((sig, p4))
}

fn object_type_from(x: u64) -> (r: Option<ObjectType>)
    ensures
        r matches Some(t) ==> object_type_index(t) == x,
        x < 4 ==> r is Some,
{
    if x == 0 {
        Some(ObjectType::Blob)
    } else if x == 1 {
        Some(ObjectType::Tree)
    } else if x == 2 {
        Some(ObjectType::Commit)
    } else if x == 3 {
        Some(ObjectType::Tag)
    } else {
        None
    }
}

fn file_mode_from(x: u64) -> (r: Option<FileMode>)
    ensures
        r matches Some(m) ==> file_mode_index(m) == x,
        x < 4 ==> r is Some,
{
    if x == 0 {
        Some(FileMode::Normal)
    } else if x == 1 {
        Some(FileMode::Executable)
    } else if x == 2 {
        Some(FileMode::Symlink)
    } else if x == 3 {
        Some(FileMode::Tree)
    } else {
        None
    }
}

/// Reads a small index of `n` bytes where `le_bytes(expected, n)` may stand.
pub(crate) fn read_index(b: &[u8], pos: usize, n: usize, Ghost(expected): Ghost<nat>) -> (r: Option<(u64, usize)>)
    requires
        1 <= n <= 4,
        expected < 256,
    ensures
        r matches Some((v, p)) ==> p == pos + n && at(b@, pos as int, le_bytes(v as nat, n as nat)),
        at(b@, pos as int, le_bytes(expected, n as nat)) ==> (r matches Some((v, p)) && v == expected),
{
    let res = read_le(b, pos, n);
    proof {
        lemma_le_bytes_len(expected, n as nat);
        reveal_with_fuel(pow256, 5);
        lemma_pow256_mono(1, n as nat);
        if let Some((v, p)) = res {
            lemma_le_bytes_len(v as nat, n as nat);
            if at(b@, pos as int, le_bytes(expected, n as nat)) {
                lemma_at_same(b@, pos as int, le_bytes(v as nat, n as nat), le_bytes(expected, n as nat));
                lemma_read_value(v as nat, expected, n as nat);
            }
        }
    }
    res
}

/// Reads a length of 8 bytes where `le_bytes(expected, 8)` may stand.
pub(crate) fn read_count(b: &[u8], pos: usize, Ghost(expected): Ghost<nat>) -> (r: Option<(u64, usize)>)
    ensures
        r matches Some((v, p)) ==> p == pos + 8 && at(b@, pos as int, le_bytes(v as nat, 8)),
        at(b@, pos as int, le_bytes(expected, 8)) && expected <= b@.len() ==> (r matches Some((v, p)) && v
            == expected),
{
    let blen = b.len();
    let res = read_le(b, pos, 8);
    proof {
        lemma_le_bytes_len(expected, 8);
        lemma_pow256_8();
        if let Some((v, p)) = res {
            lemma_le_bytes_len(v as nat, 8);
            if at(b@, pos as int, le_bytes(expected, 8)) && expected <= b@.len() {
                lemma_at_same(b@, pos as int, le_bytes(v as nat, 8), le_bytes(expected, 8));
                lemma_read_value(v as nat, expected, 8);
            }
        }
    }
    res
}

proof fn lemma_entries_prefix(s: Seq<TreeEntry>, i: int)
    requires
        0 <= i <= s.len(),
    ensures
        entries_bytes(s) == entries_bytes(s.take(i)) + entries_bytes(s).subrange(
            entries_bytes(s.take(i)).len() as int,
            entries_bytes(s).len() as int,
        ),
        entries_bytes(s.take(i)).len() <= entries_bytes(s).len(),
    decreases s.len() - i,
{
    if i == s.len() {
        assert(s.take(i) == s);
    } else {
        lemma_entries_prefix(s, i + 1);
        assert(s.take(i + 1).drop_last() == s.take(i));
        assert(s.take(i + 1).last() == s[i]);
        let t = entries_bytes(s);
        let a = entries_bytes(s.take(i));
        let a1 = entries_bytes(s.take(i + 1));
        assert(a1 == a + entry_bytes(s[i]));
        assert(t =~= a + t.subrange(a.len() as int, t.len() as int));
    }
}

proof fn lemma_ids_prefix(s: Seq<ObjectId>, i: int)
    requires
        0 <= i <= s.len(),
    ensures
        ids_bytes(s) == ids_bytes(s.take(i)) + ids_bytes(s).subrange(
            ids_bytes(s.take(i)).len() as int,
            ids_bytes(s).len() as int,
        ),
        ids_bytes(s.take(i)).len() <= ids_bytes(s).len(),
    decreases s.len() - i,
{
    if i == s.len() {
        assert(s.take(i) == s);
    } else {
        lemma_ids_prefix(s, i + 1);
        assert(s.take(i + 1).drop_last() == s.take(i));
        assert(s.take(i + 1).last() == s[i]);
        let t = ids_bytes(s);
        let a = ids_bytes(s.take(i));
        assert(ids_bytes(s.take(i + 1)) == a + s[i]@);
        assert(t =~= a + t.subrange(a.len() as int, t.len() as int));
    }
}

fn read_entry(b: &[u8], pos: usize, Ghost(expected): Ghost<TreeEntry>) -> (r: Option<(TreeEntry, usize)>)
    ensures
        r matches Some((e, p)) ==> p == pos + entry_bytes(e).len() && at(b@, pos as int, entry_bytes(e)),
        at(b@, pos as int, entry_bytes(expected)) ==> (r matches Some((e, p)) && entry_bytes(e) == entry_bytes(
            expected,
        )),
{
    let ghost x = expected;
    let ghost sa = string_field(&x.name);
    let ghost sb = tag_field(file_mode_index(x.mode));
    let ghost sc = x.hash@;
    let ghost sd = tag_field(object_type_index(x.entry_type));
    let ghost exp = at(b@, pos as int, entry_bytes(x));
    proof {
        lemma_id_len(x.hash);
        lemma_le_bytes_len(file_mode_index(x.mode), 4);
        lemma_le_bytes_len(object_type_index(x.entry_type), 4);
        if exp {
            lemma_at_split(b@, pos as int, sa + sb + sc, sd);
            lemma_at_split(b@, pos as int, sa + sb, sc);
            lemma_at_split(b@, pos as int, sa, sb);
        }
    }
    let (name, p1) = read_string(b, pos, Ghost(x.name))?;
    let (mode_ix, p2) = read_index(b, p1, 4, Ghost(file_mode_index(x.mode)))?;
    let (hash, p3) = read_id(b, p2)?;
    let (kind_ix, p4) = read_index(b, p3, 4, Ghost(object_type_index(x.entry_type)))?;
    let mode = file_mode_from(mode_ix)?;
    let entry_type = object_type_from(kind_ix)?;
    let e = TreeEntry { name, mode, hash, entry_type };
    proof {
        lemma_id_len(hash);
        lemma_le_bytes_len(mode_ix as nat, 4);
        lemma_le_bytes_len(kind_ix as nat, 4);
        let x1 = string_field(&e.name);
        lemma_at_join(b@, pos as int, x1, tag_field(mode_ix as nat));
        lemma_at_join(b@, pos as int, x1 + tag_field(mode_ix as nat), hash@);
        lemma_at_join(b@, pos as int, x1 + tag_field(mode_ix as nat) + hash@, tag_field(kind_ix as nat));
        if exp {
            lemma_at_same(b@, p2 as int, hash@, sc);
        }
    }
    Some((e, p4))
}

pub open spec fn entries_field(s: Seq<TreeEntry>) -> Seq<u8> {
    le_bytes(s.len(), 8) + entries_bytes(s)
}

pub open spec fn ids_field(s: Seq<ObjectId>) -> Seq<u8> {
    le_bytes(s.len(), 8) + ids_bytes(s)
}

fn read_entries(b: &[u8], pos: usize, Ghost(es): Ghost<Seq<TreeEntry>>) -> (r: Option<(Vec<TreeEntry>, usize)>)
    ensures
        r matches Some((v, p)) ==> p == pos + entries_field(v@).len() && at(b@, pos as int, entries_field(v@)),
        at(b@, pos as int, entries_field(es)) ==> (r matches Some((v, p)) && entries_field(v@) == entries_field(es)),
{
    let ghost exp = at(b@, pos as int, entries_field(es));
    proof {
        lemma_le_bytes_len(es.len(), 8);
        if exp {
            lemma_at_split(b@, pos as int, le_bytes(es.len(), 8), entries_bytes(es));
            lemma_entries_len(es);
        }
    }
    let (count, start) = read_count(b, pos, Ghost(es.len()))?;
    proof {
        lemma_le_bytes_len(count as nat, 8);
    }
    let mut p = start;
    let mut entries: Vec<TreeEntry> = Vec::new();
    assert(b@.subrange(start as int, start as int) =~= Seq::<u8>::empty());
    assert(entries_bytes(entries@) =~= Seq::<u8>::empty());
    assert(es.take(0) =~= Seq::<TreeEntry>::empty());
    let mut i: u64 = 0;
    while i < count
        invariant
            start == pos + 8,
            start <= b@.len(),
            exp == at(b@, pos as int, entries_field(es)),
            i <= count,
            entries@.len() == i,
            p == start + entries_bytes(entries@).len(),
            at(b@, start as int, entries_bytes(entries@)),
            exp ==> count == es.len() && at(b@, start as int, entries_bytes(es)) && entries_bytes(entries@)
                == entries_bytes(es.take(i as int)),
        decreases count - i,
    {
        let ghost want = if exp { es[i as int] } else { arbitrary() };
        proof {
            if exp {
                lemma_entries_prefix(es, i as int + 1);
                let t = es.take(i as int + 1);
                assert(t.drop_last() == es.take(i as int));
                assert(t.last() == es[i as int]);
                let a = entries_bytes(t);
                assert(a == entries_bytes(es.take(i as int)) + entry_bytes(es[i as int]));
                lemma_at_split(b@, start as int, a, entries_bytes(es).subrange(a.len() as int, entries_bytes(es).len() as int));
                lemma_at_split(b@, start as int, entries_bytes(es.take(i as int)), entry_bytes(es[i as int]));
            }
        }
        let (e, q) = read_entry(b, p, Ghost(want))?;
        let ghost before = entries@;
        entries.push(e);
        proof {
            assert(entries@.drop_last() == before);
            lemma_at_join(b@, start as int, entries_bytes(before), entry_bytes(e));
            if exp {
                let t = es.take(i as int + 1);
                assert(t.drop_last() == es.take(i as int));
                assert(t.last() == es[i as int]);
            }
        }
        p = q;
        i = i + 1;
    }
    proof {
        lemma_at_join(b@, pos as int, le_bytes(count as nat, 8), entries_bytes(entries@));
        if exp {
            assert(es.take(es.len() as int) == es);
        }
    }
    Some((entries, p))
}

pub(crate) fn read_parents(b: &[u8], pos: usize, Ghost(ps): Ghost<Seq<ObjectId>>) -> (r: Option<(Vec<ObjectId>, usize)>)
    ensures
        r matches Some((v, p)) ==> p == pos + ids_field(v@).len() && at(b@, pos as int, ids_field(v@)),
        at(b@, pos as int, ids_field(ps)) ==> (r matches Some((v, p)) && ids_field(v@) == ids_field(ps)),
{
    let ghost exp = at(b@, pos as int, ids_field(ps));
    proof {
        lemma_le_bytes_len(ps.len(), 8);
        if exp {
            lemma_at_split(b@, pos as int, le_bytes(ps.len(), 8), ids_bytes(ps));
            lemma_ids_len(ps);
        }
    }
    let (count, start) = read_count(b, pos, Ghost(ps.len()))?;
    proof {
        lemma_le_bytes_len(count as nat, 8);
    }
    let mut p = start;
    let mut parents: Vec<ObjectId> = Vec::new();
    assert(b@.subrange(start as int, start as int) =~= Seq::<u8>::empty());
    assert(ids_bytes(parents@) =~= Seq::<u8>::empty());
    assert(ps.take(0) =~= Seq::<ObjectId>::empty());
    let mut i: u64 = 0;
    while i < count
        invariant
            start == pos + 8,
            start <= b@.len(),
            exp == at(b@, pos as int, ids_field(ps)),
            i <= count,
            parents@.len() == i,
            p == start + ids_bytes(parents@).len(),
            at(b@, start as int, ids_bytes(parents@)),
            exp ==> count == ps.len() && at(b@, start as int, ids_bytes(ps)) && ids_bytes(parents@) == ids_bytes(
                ps.take(i as int),
            ),
        decreases count - i,
    {
        proof {
            if exp {
                lemma_ids_prefix(ps, i as int + 1);
                let t = ps.take(i as int + 1);
                assert(t.drop_last() == ps.take(i as int));
                assert(t.last() == ps[i as int]);
                let a = ids_bytes(t);
                assert(a == ids_bytes(ps.take(i as int)) + ps[i as int]@);
                lemma_at_split(b@, start as int, a, ids_bytes(ps).subrange(a.len() as int, ids_bytes(ps).len() as int));
                lemma_at_split(b@, start as int, ids_bytes(ps.take(i as int)), ps[i as int]@);
                lemma_id_len(ps[i as int]);
            }
        }
        let (id, q) = read_id(b, p)?;
        let ghost before = parents@;
        parents.push(id);
        proof {
            lemma_id_len(id);
            assert(parents@.drop_last() == before);
            lemma_at_join(b@, start as int, ids_bytes(before), id@);
            if exp {
                let t = ps.take(i as int + 1);
                assert(t.drop_last() == ps.take(i as int));
                assert(t.last() == ps[i as int]);
                lemma_at_same(b@, p as int, id@, ps[i as int]@);
            }
        }
        p = q;
        i = i + 1;
    }
    proof {
        lemma_at_join(b@, pos as int, le_bytes(count as nat, 8), ids_bytes(parents@));
        if exp {
            assert(ps.take(ps.len() as int) == ps);
        }
    }
    Some((parents, p))
}

pub open spec fn blob_body(x: Blob) -> Seq<u8> {
    blob_content_bytes(x.content) + le_bytes(x.size as nat, 8)
}

fn read_blob(b: &[u8], pos: usize, Ghost(xb): Ghost<Blob>) -> (r: Option<(Blob, usize)>)
    ensures
        r matches Some((v, p)) ==> p == pos + blob_body(v).len() && at(b@, pos as int, blob_body(v)),
        at(b@, pos as int, blob_body(xb)) ==> (r matches Some((v, p)) && blob_body(v) == blob_body(xb)),
{
    let ghost exp = at(b@, pos as int, blob_body(xb));
    let ghost cb = blob_content_bytes(xb.content);
    let ghost sb = le_bytes(xb.size as nat, 8);
    let ghost fl: nat = if xb.content is Some { 1 } else { 0 };
    let ghost cv = match xb.content {
        Some(c) => c@,
        None => Seq::empty(),
    };
    proof {
        lemma_le_bytes_len(xb.size as nat, 8);
        lemma_le_bytes_len(cv.len(), 8);
        reveal_with_fuel(le_bytes, 2);
        assert(le_bytes(0, 1) =~= seq![0u8]);
        assert(le_bytes(1, 1) =~= seq![1u8]);
        if exp {
            lemma_at_split(b@, pos as int, cb, sb);
            assert(cb =~= le_bytes(fl, 1) + cb.subrange(1, cb.len() as int));
            lemma_at_split(b@, pos as int, le_bytes(fl, 1), cb.subrange(1, cb.len() as int));
        }
    }
    let (flag, p) = read_index(b, pos, 1, Ghost(fl))?;
    let (content, p) = if flag == 0 {
        (None, p)
    } else if flag == 1 {
        proof {
            if exp {
                let tail = cb.subrange(1, cb.len() as int);
                assert(tail =~= le_bytes(cv.len(), 8) + cv);
                lemma_at_split(b@, pos + 1, le_bytes(cv.len(), 8), cv);
            }
        }
        let (len, q) = read_count(b, p, Ghost(cv.len()))?;
        let (c, q) = read_bytes(b, q, len)?;
        proof {
            lemma_le_bytes_len(len as nat, 8);
            lemma_at_join(b@, pos + 1, le_bytes(len as nat, 8), c@);
            lemma_at_join(b@, pos as int, seq![1u8], le_bytes(len as nat, 8) + c@);
            assert(seq![1u8] + (le_bytes(len as nat, 8) + c@) =~= seq![1u8] + length_prefixed(c@));
            if exp {
                lemma_at_same(b@, pos + 9, c@, cv);
            }
        }
        (Some(c), q)
    } else {
        return None;
    };
    proof {
        if exp {
            lemma_at_split(b@, pos as int, cb, sb);
        }
    }
    let (size, q) = read_le(b, p, 8)?;
    let ghost cg = content;
    let v = Blob { content, size };
    proof {
        lemma_le_bytes_len(size as nat, 8);
        assert(blob_content_bytes(cg) == blob_content_bytes(v.content));
        lemma_at_join(b@, pos as int, blob_content_bytes(v.content), le_bytes(size as nat, 8));
        if exp {
            lemma_at_same(b@, p as int, le_bytes(size as nat, 8), sb);
        }
    }
    Some((v, q))
}

pub open spec fn commit_body(c: Commit) -> Seq<u8> {
    c.tree@ + ids_field(c.parents@) + signature_bytes(c.author) + signature_bytes(c.committer) + string_field(
        &c.message,
    )
}

fn read_commit(b: &[u8], pos: usize, Ghost(xc): Ghost<Commit>) -> (r: Option<(Commit, usize)>)
    ensures
        r matches Some((v, p)) ==> p == pos + commit_body(v).len() && at(b@, pos as int, commit_body(v)),
        at(b@, pos as int, commit_body(xc)) ==> (r matches Some((v, p)) && commit_body(v) == commit_body(xc)),
{
    let ghost exp = at(b@, pos as int, commit_body(xc));
    let ghost g1 = xc.tree@;
    let ghost g2 = ids_field(xc.parents@);
    let ghost g3 = signature_bytes(xc.author);
    let ghost g4 = signature_bytes(xc.committer);
    let ghost g5 = string_field(&xc.message);
    proof {
        lemma_id_len(xc.tree);
        if exp {
            lemma_at_split(b@, pos as int, g1 + g2 + g3 + g4, g5);
            lemma_at_split(b@, pos as int, g1 + g2 + g3, g4);
            lemma_at_split(b@, pos as int, g1 + g2, g3);
            lemma_at_split(b@, pos as int, g1, g2);
        }
    }
    let (tree, p1) = read_id(b, pos)?;
    proof {
        lemma_id_len(tree);
        if exp {
            lemma_at_same(b@, pos as int, tree@, g1);
        }
    }
    let (parents, p2) = read_parents(b, p1, Ghost(xc.parents@))?;
    let (author, p3) = read_signature(b, p2, Ghost(xc.author))?;
    let (committer, p4) = read_signature(b, p3, Ghost(xc.committer))?;
    let (message, p5) = read_string(b, p4, Ghost(xc.message))?;
    let v = Commit { tree, parents, author, committer, message };
    proof {
        lemma_id_len(tree);
        let h1 = v.tree@;
        let h2 = ids_field(v.parents@);
        let h3 = signature_bytes(v.author);
        let h4 = signature_bytes(v.committer);
        let h5 = string_field(&v.message);
        lemma_at_join(b@, pos as int, h1, h2);
        lemma_at_join(b@, pos as int, h1 + h2, h3);
        lemma_at_join(b@, pos as int, h1 + h2 + h3, h4);
        lemma_at_join(b@, pos as int, h1 + h2 + h3 + h4, h5);
    }
    Some((v, p5))
}

pub open spec fn tag_body(t: Tag) -> Seq<u8> {
    t.target@ + tag_field(object_type_index(t.target_type)) + string_field(&t.name) + signature_bytes(t.tagger)
        + string_field(&t.message)
}

fn read_tag(b: &[u8], pos: usize, Ghost(xt): Ghost<Tag>) -> (r: Option<(Tag, usize)>)
    ensures
        r matches Some((v, p)) ==> p == pos + tag_body(v).len() && at(b@, pos as int, tag_body(v)),
        at(b@, pos as int, tag_body(xt)) ==> (r matches Some((v, p)) && tag_body(v) == tag_body(xt)),
{
    let ghost exp = at(b@, pos as int, tag_body(xt));
    let ghost g1 = xt.target@;
    let ghost g2 = tag_field(object_type_index(xt.target_type));
    let ghost g3 = string_field(&xt.name);
    let ghost g4 = signature_bytes(xt.tagger);
    let ghost g5 = string_field(&xt.message);
    proof {
        lemma_id_len(xt.target);
        lemma_le_bytes_len(object_type_index(xt.target_type), 4);
        if exp {
            lemma_at_split(b@, pos as int, g1 + g2 + g3 + g4, g5);
            lemma_at_split(b@, pos as int, g1 + g2 + g3, g4);
            lemma_at_split(b@, pos as int, g1 + g2, g3);
            lemma_at_split(b@, pos as int, g1, g2);
        }
    }
    let (target, p1) = read_id(b, pos)?;
    proof {
        lemma_id_len(target);
        if exp {
            lemma_at_same(b@, pos as int, target@, g1);
        }
    }
    let (kind, p2) = read_index(b, p1, 4, Ghost(object_type_index(xt.target_type)))?;
    let target_type = object_type_from(kind)?;
    let (name, p3) = read_string(b, p2, Ghost(xt.name))?;
    let (tagger, p4) = read_signature(b, p3, Ghost(xt.tagger))?;
    let (message, p5) = read_string(b, p4, Ghost(xt.message))?;
    let v = Tag { target, target_type, name, tagger, message };
    proof {
        lemma_id_len(target);
        lemma_le_bytes_len(kind as nat, 4);
        let h1 = v.target@;
        let h2 = tag_field(kind as nat);
        let h3 = string_field(&v.name);
        let h4 = signature_bytes(v.tagger);
        let h5 = string_field(&v.message);
        lemma_at_join(b@, pos as int, h1, h2);
        lemma_at_join(b@, pos as int, h1 + h2, h3);
        lemma_at_join(b@, pos as int, h1 + h2 + h3, h4);
        lemma_at_join(b@, pos as int, h1 + h2 + h3 + h4, h5);
    }
    Some((v, p5))
}

pub open spec fn object_index(o: GitObject) -> nat {
    match o {
        GitObject::Blob(_) => 0,
        GitObject::Tree(_) => 1,
        GitObject::Commit(_) => 2,
        GitObject::Tag(_) => 3,
    }
}

pub open spec fn object_body(o: GitObject) -> Seq<u8> {
    match o {
        GitObject::Blob(v) => blob_body(v),
        GitObject::Tree(v) => entries_field(v.entries@),
        GitObject::Commit(v) => commit_body(v),
        GitObject::Tag(v) => tag_body(v),
    }
}

proof fn lemma_object_parts(o: GitObject)
    ensures
        canonical_bytes(o) == tag_field(object_index(o)) + object_body(o),
        object_index(o) < 4,
        tag_field(object_index(o)).len() == 4,
{
    lemma_le_bytes_len(object_index(o), 4);
    assert(canonical_bytes(o) =~= tag_field(object_index(o)) + object_body(o));
}

#[verifier::rlimit(60)]
fn read_object(b: &[u8], Ghost(expected): Ghost<GitObject>) -> (r: Option<(GitObject, usize)>)
    ensures
        r matches Some((o, p)) ==> p == canonical_bytes(o).len() && at(b@, 0, canonical_bytes(o)),
        at(b@, 0, canonical_bytes(expected)) ==> (r matches Some((o, p)) && canonical_bytes(o) == canonical_bytes(
            expected,
        )),
{
    let ghost x = expected;
    let ghost exp = at(b@, 0, canonical_bytes(x));
    let ghost ix = object_index(x);
    proof {
        lemma_object_parts(x);
        if exp {
            lemma_at_split(b@, 0, tag_field(ix), object_body(x));
        }
    }
    let (tag, p) = read_index(b, 0, 4, Ghost(ix))?;
    proof {
        lemma_le_bytes_len(tag as nat, 4);
    }
    if tag == 0 {
        let ghost xb = match x {
            GitObject::Blob(v) => v,
            _ => arbitrary(),
        };
        let (v, q) = read_blob(b, p, Ghost(xb))?;
        let ghost vg = v;
        let o = GitObject::Blob(v);
        proof {
            lemma_at_join(b@, 0, tag_field(0), blob_body(vg));
            assert(canonical_bytes(o) =~= tag_field(0) + blob_body(vg));
        }
        Some((o, q))
    } else if tag == 1 {
        let ghost es = match x {
            GitObject::Tree(v) => v.entries@,
            _ => arbitrary(),
        };
        let (entries, q) = read_entries(b, p, Ghost(es))?;
        let ghost ev = entries@;
        let o = GitObject::Tree(Tree { entries });
        proof {
            lemma_at_join(b@, 0, tag_field(1), entries_field(ev));
            assert(canonical_bytes(o) =~= tag_field(1) + entries_field(ev));
        }
        Some((o, q))
    } else if tag == 2 {
        let ghost xc = match x {
            GitObject::Commit(v) => v,
            _ => arbitrary(),
        };
        let (v, q) = read_commit(b, p, Ghost(xc))?;
        let ghost vg = v;
        let o = GitObject::Commit(v);
        proof {
            lemma_at_join(b@, 0, tag_field(2), commit_body(vg));
            assert(canonical_bytes(o) =~= tag_field(2) + commit_body(vg));
        }
        Some((o, q))
    } else if tag == 3 {
        let ghost xt = match x {
            GitObject::Tag(v) => v,
            _ => arbitrary(),
        };
        let (v, q) = read_tag(b, p, Ghost(xt))?;
        let ghost vg = v;
        let o = GitObject::Tag(v);
        proof {
            lemma_at_join(b@, 0, tag_field(3), tag_body(vg));
            assert(canonical_bytes(o) =~= tag_field(3) + tag_body(vg));
        }
        Some((o, q))
    } else {
        None
    }
}

proof fn lemma_entries_len(s: Seq<TreeEntry>)
    ensures
        s.len() <= entries_bytes(s).len(),
    decreases s.len(),
{
    if s.len() > 0 {
        lemma_entries_len(s.drop_last());
        lemma_id_len(s.last().hash);
    }
}

proof fn lemma_ids_len(s: Seq<ObjectId>)
    ensures
        ids_bytes(s).len() == 32 * s.len(),
    decreases s.len(),
{
    if s.len() > 0 {
        lemma_ids_len(s.drop_last());
        lemma_id_len(s.last());
    }
}

/// Reads an object back from its canonical bytes and checks it against the
/// validation rules. Canonical bytes of a well-formed object are always read
/// back; bytes that are the canonical form of an object that breaks the rules
/// are refused with `InvalidObject`; all other bytes with `Serialization`.
pub fn decode_object(bytes: &[u8]) -> (r: Result<GitObject, StorageError>)
    ensures
        r matches Ok(o) ==> o@ == bytes@ && object_valid(o),
        (exists|o: GitObject| o@ == bytes@) <==> (r is Ok || r matches Err(StorageError::InvalidObject { .. })),
        r matches Err(StorageError::InvalidObject { .. }) ==> exists|o: GitObject| o@ == bytes@ && !object_valid(o),
        r matches Err(e) ==> e is Serialization || e is InvalidObject,
{
    let ghost expected = if exists|o: GitObject| o@ == bytes@ {
        choose|o: GitObject| o@ == bytes@
    } else {
        arbitrary()
    };
    proof {
        if exists|o: GitObject| o@ == bytes@ {
            assert(bytes@.subrange(0, bytes@.len() as int) =~= bytes@);
        }
    }
    match read_object(bytes, Ghost(expected)) {
        Some((o, p)) => {
            if p == bytes.len() {
                assert(canonical_bytes(o) =~= bytes@);
                assert(o@ == bytes@);
                match o.validate() {
                    Ok(()) => Ok(o),
                    Err(_) => Err(StorageError::InvalidObject { reason: "Stored object breaks the validation rules".to_owned() }),
                }
            } else {
                Err(StorageError::Serialization("Trailing bytes after an object".to_owned()))
            }
        },
        None => Err(StorageError::Serialization("Malformed object bytes".to_owned())),
    }
}

/// The row kind of an object: 1 for a blob, 2 for a tree, 3 for a commit and
/// 4 for a tag.
pub open spec fn kind_code(t: ObjectType) -> i64 {
    match t {
        ObjectType::Blob => 1,
        ObjectType::Tree => 2,
        ObjectType::Commit => 3,
        ObjectType::Tag => 4,
    }
}

/// The row of an object: its identity's bytes, its kind and its canonical
/// bytes. The identity is checked as a store checks it, and a wrong one is
/// refused with `CorruptionDetected`.
pub fn object_row(id: &ObjectId, object: &GitObject) -> (r: Result<(Vec<u8>, i64, Vec<u8>), StorageError>)
    ensures
        r is Ok <==> id@ == content_address(*object),
        r matches Ok((key, kind, data)) ==> key@ == id@ && kind == kind_code(kind_of(*object)) && data@ == object@,
        r matches Err(e) ==> e is CorruptionDetected,
{
    let computed = object.canonical_hash();
    if !computed.same_as(id) {
        return Err(StorageError::CorruptionDetected { id: *id, details: "Object hash mismatch".to_owned() });
    }
    let mut key: Vec<u8> = Vec::new();
    crate::encoding::push_all(&mut key, id.as_bytes().as_slice());
    let kind: i64 = match object.object_type() {
        ObjectType::Blob => 1,
        ObjectType::Tree => 2,
        ObjectType::Commit => 3,
        ObjectType::Tag => 4,
    };
    Ok((key, kind, canonical_encode(object)))
}

/// The row of a reference target: 0 and the object's bytes for a direct one,
/// 1 and the UTF-8 bytes of the name for a symbolic one.
pub fn target_row(target: &ReferenceTarget) -> (r: (i64, Vec<u8>))
    ensures
        target@ matches TargetView::Direct(id) ==> r.0 == 0 && r.1@ == id,
        target@ matches TargetView::Symbolic(name) ==> r.0 == 1 && r.1@ == vstd::utf8::encode_utf8(name),
{
    match target {
        ReferenceTarget::Direct(id) => {
            let mut v: Vec<u8> = Vec::new();
            crate::encoding::push_all(&mut v, id.as_bytes().as_slice());
            (0, v)
        },
        ReferenceTarget::Symbolic(s) => {
            let mut v: Vec<u8> = Vec::new();
            crate::encoding::push_all(&mut v, s.as_str().as_bytes());
            (1, v)
        },
    }
}

/// A reference read back from its row. A direct target must hold 32 bytes and
/// a symbolic one valid UTF-8; any other kind is refused.
pub fn reference_from_row(name: String, target_kind: i64, value: Vec<u8>) -> (r: Result<Reference, StorageError>)
    ensures
        r is Ok <==> (target_kind == 0 && value@.len() == 32) || (target_kind == 1 && vstd::utf8::valid_utf8(
            value@,
        )),
        r matches Ok(reference) ==> reference.name == name && (target_kind == 0 ==> reference.target@
            == TargetView::Direct(value@)) && (target_kind == 1 ==> (reference.target@ matches TargetView::Symbolic(
            s,
        ) && vstd::utf8::encode_utf8(s) == value@)),
        r matches Err(e) ==> (if target_kind == 1 {
            e is Serialization
        } else {
            e is CorruptionDetected
        }),
{
    if target_kind == 0 {
        if value.len() != 32 {
            return Err(StorageError::CorruptionDetected {
                id: ObjectId::from_canonical_bytes("invalid".as_bytes()),
                details: "Invalid ObjectId length".to_owned(),
            });
        }
        let mut a = [0u8; 32];
        let mut i: usize = 0;
        while i < 32
            invariant
                i <= 32,
                value@.len() == 32,
                forall|j: int| 0 <= j < i ==> a@[j] == value@[j],
            decreases 32 - i,
        {
            a[i] = value[i];
            i = i + 1;
        }
        assert(a@ =~= value@);
        Ok(Reference { name, target: ReferenceTarget::Direct(ObjectId::from_blake3_bytes(a)) })
    } else if target_kind == 1 {
        match string_from_utf8(value) {
            Some(s) => Ok(Reference { name, target: ReferenceTarget::Symbolic(s) }),
            None => Err(StorageError::Serialization("Invalid UTF-8 in symbolic reference".to_owned())),
        }
    } else {
        Err(StorageError::CorruptionDetected {
            id: ObjectId::from_canonical_bytes("invalid".as_bytes()),
            details: "Invalid reference target type".to_owned(),
        })
    }
}

/// A symbolic target written as a row reads back as the same name: its bytes
/// are valid UTF-8, and no other name has the same bytes.
pub proof fn law_symbolic_row_round_trip(name: Seq<char>, read: Seq<char>)
    requires
        vstd::utf8::encode_utf8(read) == vstd::utf8::encode_utf8(name),
    ensures
        vstd::utf8::valid_utf8(vstd::utf8::encode_utf8(name)),
        read == name,
{
    vstd::utf8::encode_utf8_valid_utf8(name);
    vstd::utf8::encode_utf8_decode_utf8(name);
    vstd::utf8::encode_utf8_decode_utf8(read);
}

} // verus!
