//! Byte-level building blocks shared by the canonical and the legacy formats.

use vstd::prelude::*;

verus! {

/// The `n` low-order bytes of `x`, least significant first.
pub open spec fn le_bytes(x: nat, n: nat) -> Seq<u8>
    decreases n,
{
    if n == 0 {
        Seq::empty()
    } else {
        seq![(x % 256) as u8] + le_bytes(x / 256, (n - 1) as nat)
    }
}

pub proof fn lemma_le_bytes_len(x: nat, n: nat)
    ensures
        le_bytes(x, n).len() == n,
    decreases n,
{
    if n > 0 {
        lemma_le_bytes_len(x / 256, (n - 1) as nat);
    }
}

/// A byte string preceded by its length as eight little-endian bytes.
pub open spec fn length_prefixed(b: Seq<u8>) -> Seq<u8> {
    le_bytes(b.len(), 8) + b
}

/// Appends the `n` low-order bytes of `x`, least significant first.
pub fn push_le(out: &mut Vec<u8>, x: u64, n: usize)
    ensures
        final(out)@ == old(out)@ + le_bytes(x as nat, n as nat),
{
    let mut v: u64 = x;
    let mut i: usize = 0;
    while i < n
        invariant
            i <= n,
            old(out)@ + le_bytes(x as nat, n as nat) == out@ + le_bytes(v as nat, (n - i) as nat),
        decreases n - i,
    {
        let ghost before = out@;
        out.push((v % 256) as u8);
        proof {
            let k = (n - i) as nat;
            assert(le_bytes(v as nat, k) == seq![(v as nat % 256) as u8] + le_bytes(
                v as nat / 256,
                (k - 1) as nat,
            ));
            assert(before + (seq![(v as nat % 256) as u8] + le_bytes(v as nat / 256, (k - 1) as nat))
                == out@ + le_bytes(v as nat / 256, (k - 1) as nat));
        }
        v = v / 256;
        i = i + 1;
    }
    assert(le_bytes(v as nat, 0) == Seq::<u8>::empty());
    assert(out@ + Seq::<u8>::empty() == out@);
}

/// Appends every byte of `b`.
pub fn push_all(out: &mut Vec<u8>, b: &[u8])
    ensures
        final(out)@ == old(out)@ + b@,
{
    let mut i: usize = 0;
    while i < b.len()
        invariant
            i <= b@.len(),
            out@ == old(out)@ + b@.subrange(0, i as int),
        decreases b@.len() - i,
    {
        out.push(b[i]);
        assert(b@.subrange(0, i + 1) == b@.subrange(0, i as int).push(b@[i as int]));
        i = i + 1;
    }
    assert(b@.subrange(0, b@.len() as int) == b@);
}

/// Appends a byte string preceded by its length.
pub fn push_length_prefixed(out: &mut Vec<u8>, b: &[u8])
    ensures
        final(out)@ == old(out)@ + length_prefixed(b@),
{
    push_le(out, b.len() as u64, 8);
    push_all(out, b);
    assert(old(out)@ + le_bytes(b@.len(), 8) + b@ == old(out)@ + length_prefixed(b@));
}

/// `a` and `b` agree on their first `n` bytes.
pub open spec fn agree_below(a: Seq<u8>, b: Seq<u8>, n: int) -> bool {
    forall|j: int| 0 <= j < n ==> a[j] == b[j]
}

/// Strict lexicographic order on byte strings; a proper prefix comes first.
pub open spec fn bytes_lt(a: Seq<u8>, b: Seq<u8>) -> bool {
    ||| exists|i: int|
        0 <= i < a.len() && i < b.len() && a[i] < b[i] && #[trigger] agree_below(a, b, i)
    ||| a.len() < b.len() && agree_below(a, b, a.len() as int)
}

pub proof fn lemma_bytes_lt_irreflexive(a: Seq<u8>)
    ensures
        !bytes_lt(a, a),
{
}

/// The position where `a` first leaves `b` when `a` comes first.
spec fn first_step(a: Seq<u8>, b: Seq<u8>) -> int {
    if exists|i: int| 0 <= i < a.len() && i < b.len() && a[i] < b[i] && #[trigger] agree_below(a, b, i) {
        choose|i: int| 0 <= i < a.len() && i < b.len() && a[i] < b[i] && #[trigger] agree_below(a, b, i)
    } else {
        a.len() as int
    }
}

pub proof fn lemma_bytes_lt_transitive(a: Seq<u8>, b: Seq<u8>, c: Seq<u8>)
    requires
        bytes_lt(a, b),
        bytes_lt(b, c),
    ensures
        bytes_lt(a, c),
{
    let i = first_step(a, b);
    let k = first_step(b, c);
    let a_diff = i < a.len();
    let b_diff = k < b.len();
    assert(agree_below(a, b, i));
    assert(agree_below(b, c, k));
    if i < k {
        assert(agree_below(a, c, i));
        if a_diff {
            assert(a[i] < c[i]);
        } else {
            assert(i < c.len());
        }
    } else if k < i {
        assert(agree_below(a, c, k));
        if b_diff {
            assert(a[k] == b[k]);
            assert(a[k] < c[k]);
        }
    } else {
        assert(agree_below(a, c, i));
        if a_diff && b_diff {
            assert(a[i] < c[i]);
        }
    }
}

/// Compares two byte strings in lexicographic order.
pub fn bytes_less(a: &[u8], b: &[u8]) -> (r: bool)
    ensures
        r == bytes_lt(a@, b@),
{
    let mut i: usize = 0;
    while i < a.len() && i < b.len() && a[i] == b[i]
        invariant
            i <= a@.len(),
            i <= b@.len(),
            agree_below(a@, b@, i as int),
        decreases a@.len() - i,
    {
        i = i + 1;
    }
    if i < a.len() && i < b.len() {
        if a[i] < b[i] {
            assert(agree_below(a@, b@, i as int));
            true
        } else {
            assert forall|k: int|
                0 <= k < a@.len() && k < b@.len() && a@[k] < b@[k] implies !#[trigger] agree_below(
                a@,
                b@,
                k,
            ) by {
                if k < i {
                } else if k > i {
                    assert(a@[i as int] != b@[i as int]);
                }
            }
            assert(!agree_below(a@, b@, a@.len() as int) || a@.len() >= b@.len()) by {
                if a@.len() < b@.len() {
                    assert(a@[i as int] != b@[i as int]);
                }
            }
            false
        }
    } else {
        assert forall|k: int|
            0 <= k < a@.len() && k < b@.len() && a@[k] < b@[k] implies !#[trigger] agree_below(
            a@,
            b@,
            k,
        ) by {
            assert(k < i);
        }
        a.len() < b.len()
    }
}

/// Whether `b` holds the byte `x`.
pub open spec fn has_byte(b: Seq<u8>, x: u8) -> bool {
    exists|i: int| 0 <= i < b.len() && b[i] == x
}

/// Looks for the byte `x` in `b`.
pub fn contains_byte(b: &[u8], x: u8) -> (r: bool)
    ensures
        r == has_byte(b@, x),
{
    let mut i: usize = 0;
    while i < b.len()
        invariant
            i <= b@.len(),
            forall|j: int| 0 <= j < i ==> b@[j] != x,
        decreases b@.len() - i,
    {
        if b[i] == x {
            return true;
        }
        i = i + 1;
    }
    false
}

} // verus!
