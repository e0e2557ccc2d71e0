//! Ancestry over the commit graph: which commits lead, through parent links,
//! to which.

use vstd::prelude::*;
use crate::object::{canonical_bytes, lemma_commit_bytes_only_from_commits, lemma_commit_parents_determined, Commit, GitObject, ObjectId};
use crate::storage::MemoryStorage;

verus! {

/// The object stored at `child` is a commit with `parent` among its parents.
pub open spec fn is_parent(objects: Map<Seq<u8>, Seq<u8>>, child: Seq<u8>, parent: Seq<u8>) -> bool {
    &&& objects.contains_key(child)
    &&& exists|c: Commit, i: int|
        #![trigger canonical_bytes(GitObject::Commit(c)), c.parents@[i]]
        canonical_bytes(GitObject::Commit(c)) == objects[child] && 0 <= i < c.parents@.len() && c.parents@[i]@
            == parent
}

/// `to` is reached from `from` in at most `n` steps from child to parent.
pub open spec fn reaches(objects: Map<Seq<u8>, Seq<u8>>, from: Seq<u8>, to: Seq<u8>, n: nat) -> bool
    decreases n,
{
    from == to || (n > 0 && exists|x: Seq<u8>| #[trigger] is_parent(objects, x, to) && reaches(objects, from, x, (n - 1) as nat))
}

/// `a` is `d` or an ancestor of it.
pub open spec fn is_ancestor_of(objects: Map<Seq<u8>, Seq<u8>>, a: Seq<u8>, d: Seq<u8>) -> bool {
    exists|n: nat| reaches(objects, d, a, n)
}

pub open spec fn views(s: Seq<ObjectId>) -> Seq<Seq<u8>> {
    s.map_values(|id: ObjectId| id@)
}

pub open spec fn holds(s: Seq<ObjectId>, x: Seq<u8>) -> bool {
    exists|i: int| 0 <= i < s.len() && #[trigger] s[i]@ == x
}

fn holds_id(v: &Vec<ObjectId>, id: &ObjectId) -> (r: bool)
    ensures
        r == holds(v@, id@),
{
    let mut i: usize = 0;
    while i < v.len()
        invariant
            i <= v@.len(),
            forall|k: int| 0 <= k < i ==> v@[k]@ != id@,
        decreases v@.len() - i,
    {
        if v[i].same_as(id) {
            return true;
        }
        i = i + 1;
    }
    false
}

proof fn lemma_reaches_step(objects: Map<Seq<u8>, Seq<u8>>, from: Seq<u8>, x: Seq<u8>, p: Seq<u8>)
    requires
        is_ancestor_of(objects, x, from),
        is_parent(objects, x, p),
    ensures
        is_ancestor_of(objects, p, from),
{
    let n = choose|n: nat| reaches(objects, from, x, n);
    assert(reaches(objects, from, p, n + 1));
}

proof fn lemma_found_bound(found: Seq<ObjectId>, dom: Set<Seq<u8>>, start: Seq<u8>, p: Seq<u8>)
    requires
        dom.finite(),
        views(found).no_duplicates(),
        forall|i: int| 0 <= i < found.len() ==> #[trigger] dom.insert(start).contains(found[i]@),
        dom.contains(p),
        !holds(found, p),
    ensures
        found.len() + 1 <= dom.len() + 1,
{
    let ext = views(found).push(p);
    assert forall|i: int, j: int| 0 <= i < j < ext.len() implies ext[i] != ext[j] by {
        if j == found.len() {
            assert(ext[i] == found[i]@);
        } else {
            assert(views(found)[i] != views(found)[j]);
        }
    }
    assert(ext.no_duplicates());
    ext.unique_seq_to_set();
    assert forall|x: Seq<u8>| ext.to_set().contains(x) implies dom.insert(start).contains(x) by {
        let i = choose|i: int| 0 <= i < ext.len() && ext[i] == x;
        if i < found.len() {
            assert(dom.insert(start).contains(found[i]@));
        }
    }
    vstd::set_lib::lemma_len_subset(ext.to_set(), dom.insert(start));
}

/// Every commit that `start` leads to through parent links, `start` included.
#[verifier::rlimit(30)]
pub fn ancestors(storage: &MemoryStorage, start: &ObjectId) -> (r: Vec<ObjectId>)
    requires
        storage.wf(),
    ensures
        forall|x: Seq<u8>| holds(r@, x) <==> is_ancestor_of(storage.objects(), x, start@),
{
    let ghost objects = storage.objects();
    let ghost dom = objects.dom();
    proof {
        storage.lemma_finite();
        assert(reaches(objects, start@, start@, 0));
    }
    let mut found: Vec<ObjectId> = Vec::new();
    found.push(*start);
    let mut leaves: Vec<ObjectId> = Vec::new();
    let mut next: usize = 0;
    proof {
        assert(views(found@).no_duplicates());
    }
    while next < found.len()
        invariant
            storage.wf(),
            objects == storage.objects(),
            dom == objects.dom(),
            dom.finite(),
            next <= found@.len(),
            found@.len() >= 1,
            found@[0]@ == start@,
            found@.len() <= dom.len() + 1,
            views(found@).no_duplicates(),
            forall|i: int| 0 <= i < found@.len() ==> #[trigger] dom.insert(start@).contains(found@[i]@),
            forall|i: int| 0 <= i < found@.len() ==> is_ancestor_of(objects, #[trigger] found@[i]@, start@),
            forall|j: int| 0 <= j < leaves@.len() ==> is_ancestor_of(objects, #[trigger] leaves@[j]@, start@)
                && !objects.contains_key(leaves@[j]@),
            forall|i: int, p: Seq<u8>|
                0 <= i < next && #[trigger] is_parent(objects, found@[i]@, p) ==> holds(found@, p) || holds(leaves@, p),
        decreases dom.len() + 1 - found@.len(), found@.len() - next,
    {
        let x = found[next];
        let loaded = match storage.load_object(&x) {
            Ok(o) => o,
            Err(_) => None,
        };
        let ghost before_len = found@.len();
        match loaded {
            Some(GitObject::Commit(c)) => {
                let mut j: usize = 0;
                while j < c.parents.len()
                    invariant
                        storage.wf(),
                        objects == storage.objects(),
                        dom == objects.dom(),
                        dom.finite(),
                        next < found@.len(),
                        found@[next as int] == x,
                        found@.len() >= before_len,
                        found@.len() >= 1,
                        found@[0]@ == start@,
                        found@.len() <= dom.len() + 1,
                        views(found@).no_duplicates(),
                        canonical_bytes(GitObject::Commit(c)) == objects[x@],
                        objects.contains_key(x@),
                        forall|i: int| 0 <= i < found@.len() ==> #[trigger] dom.insert(start@).contains(found@[i]@),
                        forall|i: int| 0 <= i < found@.len() ==> is_ancestor_of(objects, #[trigger] found@[i]@, start@),
                        forall|k: int| 0 <= k < leaves@.len() ==> is_ancestor_of(objects, #[trigger] leaves@[k]@, start@)
                            && !objects.contains_key(leaves@[k]@),
                        forall|i: int, p: Seq<u8>|
                            0 <= i < next && #[trigger] is_parent(objects, found@[i]@, p) ==> holds(found@, p) || holds(
                                leaves@,
                                p,
                            ),
                        forall|k: int| 0 <= k < j ==> holds(found@, #[trigger] c.parents@[k]@) || holds(leaves@, c.parents@[k]@),
                    decreases c.parents@.len() - j,
                {
                    let p = c.parents[j];
                    proof {
                        assert(is_parent(objects, x@, p@)) by {
                            assert(canonical_bytes(GitObject::Commit(c)) == objects[x@] && 0 <= j < c.parents@.len()
                                && c.parents@[j as int]@ == p@);
                        }
                        lemma_reaches_step(objects, start@, x@, p@);
                    }
                    if holds_id(&found, &p) {
                    } else if storage.contains_object(&p) {
                        proof {
                            lemma_found_bound(found@, dom, start@, p@);
                        }
                        let ghost f0 = found@;
                        found.push(p);
                        proof {
                            assert(f0.len() < found@.len());
                            assert forall|a: int, b: int| 0 <= a < b < found@.len() implies views(found@)[a] != views(found@)[b] by {
                                if b == f0.len() {
                                    assert(views(found@)[a] == f0[a]@);
                                } else {
                                    assert(views(f0)[a] != views(f0)[b]);
                                }
                            }
                            assert forall|i: int, q: Seq<u8>|
                                0 <= i < next && #[trigger] is_parent(objects, found@[i]@, q) implies holds(found@, q) || holds(leaves@, q) by {
                                assert(found@[i] == f0[i]);
                                if holds(f0, q) {
                                    let k = choose|k: int| 0 <= k < f0.len() && #[trigger] f0[k]@ == q;
                                    assert(found@[k]@ == q);
                                }
                            }
                            assert forall|k: int| 0 <= k <= j implies holds(found@, #[trigger] c.parents@[k]@) || holds(leaves@, c.parents@[k]@) by {
                                if k == j {
                                    assert(found@[f0.len() as int]@ == p@);
                                } else if holds(f0, c.parents@[k]@) {
                                    let m = choose|m: int| 0 <= m < f0.len() && #[trigger] f0[m]@ == c.parents@[k]@;
                                    assert(found@[m]@ == c.parents@[k]@);
                                }
                            }
                        }
                    } else {
                        let ghost l0 = leaves@;
                        leaves.push(p);
                        proof {
                            assert forall|i: int, q: Seq<u8>|
                                0 <= i < next && #[trigger] is_parent(objects, found@[i]@, q) implies holds(found@, q) || holds(leaves@, q) by {
                                if holds(l0, q) {
                                    let k = choose|k: int| 0 <= k < l0.len() && #[trigger] l0[k]@ == q;
                                    assert(leaves@[k]@ == q);
                                }
                            }
                            assert forall|k: int| 0 <= k <= j implies holds(found@, #[trigger] c.parents@[k]@) || holds(leaves@, c.parents@[k]@) by {
                                if k == j {
                                    assert(leaves@[l0.len() as int]@ == p@);
                                } else if holds(l0, c.parents@[k]@) {
                                    let m = choose|m: int| 0 <= m < l0.len() && #[trigger] l0[m]@ == c.parents@[k]@;
                                    assert(leaves@[m]@ == c.parents@[k]@);
                                }
                            }
                        }
                    }
                    j = j + 1;
                }
                proof {
                    assert forall|q: Seq<u8>| #[trigger] is_parent(objects, x@, q) implies holds(found@, q) || holds(leaves@, q) by {
                        let (c2, i) = choose|c2: Commit, i: int|
                            #![trigger canonical_bytes(GitObject::Commit(c2)), c2.parents@[i]]
                            canonical_bytes(GitObject::Commit(c2)) == objects[x@] && 0 <= i < c2.parents@.len()
                                && c2.parents@[i]@ == q;
                        lemma_commit_parents_determined(c, c2);
                        assert(c.parents@[i]@ == q);
                    }
                }
            },
            Some(o) => {
                proof {
                    assert forall|q: Seq<u8>| #[trigger] is_parent(objects, x@, q) implies false by {
                        let (c2, i) = choose|c2: Commit, i: int|
                            #![trigger canonical_bytes(GitObject::Commit(c2)), c2.parents@[i]]
                            canonical_bytes(GitObject::Commit(c2)) == objects[x@] && 0 <= i < c2.parents@.len()
                                && c2.parents@[i]@ == q;
                        lemma_commit_bytes_only_from_commits(o, c2);
                    }
                }
            },
            None => {},
        }
        next = next + 1;
    }
    proof {
        assert forall|n: nat, y: Seq<u8>| #[trigger] reaches(objects, start@, y, n) implies holds(found@, y) || holds(leaves@, y) by {
            lemma_closed(objects, start@, found@, leaves@, y, n);
        }
    }
    let ghost f = found@;
    let ghost l = leaves@;
    let mut all = found;
    let mut k: usize = 0;
    while k < leaves.len()
        invariant
            k <= l.len(),
            leaves@ == l,
            all@ == f + l.subrange(0, k as int),
        decreases l.len() - k,
    {
        all.push(leaves[k]);
        assert(l.subrange(0, k + 1) == l.subrange(0, k as int).push(l[k as int]));
        k = k + 1;
    }
    proof {
        assert(l.subrange(0, l.len() as int) == l);
        assert forall|x: Seq<u8>| holds(all@, x) <==> is_ancestor_of(objects, x, start@) by {
            if holds(all@, x) {
                let i = choose|i: int| 0 <= i < all@.len() && #[trigger] all@[i]@ == x;
                if i < f.len() {
                    assert(f[i] == all@[i]);
                } else {
                    assert(l[i - f.len()] == all@[i]);
                }
            }
            if is_ancestor_of(objects, x, start@) {
                let n = choose|n: nat| reaches(objects, start@, x, n);
                if holds(f, x) {
                    let i = choose|i: int| 0 <= i < f.len() && #[trigger] f[i]@ == x;
                    assert(all@[i] == f[i]);
                } else {
                    let i = choose|i: int| 0 <= i < l.len() && #[trigger] l[i]@ == x;
                    assert(all@[f.len() + i] == l[i]);
                }
            }
        }
    }
    all
}

proof fn lemma_closed(
    objects: Map<Seq<u8>, Seq<u8>>,
    start: Seq<u8>,
    found: Seq<ObjectId>,
    leaves: Seq<ObjectId>,
    y: Seq<u8>,
    n: nat,
)
    requires
        found.len() >= 1,
        found[0]@ == start,
        forall|j: int| 0 <= j < leaves.len() ==> !objects.contains_key(#[trigger] leaves[j]@),
        forall|i: int, p: Seq<u8>|
            0 <= i < found.len() && #[trigger] is_parent(objects, found[i]@, p) ==> holds(found, p) || holds(leaves, p),
        reaches(objects, start, y, n),
    ensures
        holds(found, y) || holds(leaves, y),
    decreases n,
{
    if y == start {
        assert(found[0]@ == y);
    } else {
        let x = choose|x: Seq<u8>| #[trigger] is_parent(objects, x, y) && reaches(objects, start, x, (n - 1) as nat);
        lemma_closed(objects, start, found, leaves, x, (n - 1) as nat);
        if holds(found, x) {
            let i = choose|i: int| 0 <= i < found.len() && #[trigger] found[i]@ == x;
            assert(is_parent(objects, found[i]@, y));
        } else {
            let j = choose|j: int| 0 <= j < leaves.len() && #[trigger] leaves[j]@ == x;
            assert(!objects.contains_key(leaves[j]@));
        }
    }
}

/// Whether `a` is `d` or one of its ancestors.
pub fn is_ancestor(storage: &MemoryStorage, a: &ObjectId, d: &ObjectId) -> (r: bool)
    requires
        storage.wf(),
    ensures
        r == is_ancestor_of(storage.objects(), a@, d@),
{
    let all = ancestors(storage, d);
    holds_id(&all, a)
}

/// A common ancestor of `a` and `b`, the first met going from `b` towards its
/// roots, or none when they share no ancestor.
pub fn merge_base(storage: &MemoryStorage, a: &ObjectId, b: &ObjectId) -> (r: Option<ObjectId>)
    requires
        storage.wf(),
    ensures
        r matches Some(m) ==> is_ancestor_of(storage.objects(), m@, a@) && is_ancestor_of(storage.objects(), m@, b@),
        r is None ==> forall|x: Seq<u8>|
            !(#[trigger] is_ancestor_of(storage.objects(), x, a@) && is_ancestor_of(storage.objects(), x, b@)),
{
    let from_a = ancestors(storage, a);
    let from_b = ancestors(storage, b);
    let mut i: usize = 0;
    while i < from_b.len()
        invariant
            i <= from_b@.len(),
            forall|x: Seq<u8>| holds(from_a@, x) <==> is_ancestor_of(storage.objects(), x, a@),
            forall|x: Seq<u8>| holds(from_b@, x) <==> is_ancestor_of(storage.objects(), x, b@),
            forall|k: int| 0 <= k < i ==> !holds(from_a@, #[trigger] from_b@[k]@),
        decreases from_b@.len() - i,
    {
        if holds_id(&from_a, &from_b[i]) {
            assert(holds(from_b@, from_b@[i as int]@));
            return Some(from_b[i]);
        }
        i = i + 1;
    }
    proof {
        assert forall|x: Seq<u8>|
            !(#[trigger] is_ancestor_of(storage.objects(), x, a@) && is_ancestor_of(storage.objects(), x, b@)) by {
            if is_ancestor_of(storage.objects(), x, a@) && is_ancestor_of(storage.objects(), x, b@) {
                assert(holds(from_b@, x));
                assert(holds(from_a@, x));
                let k = choose|k: int| 0 <= k < from_b@.len() && #[trigger] from_b@[k]@ == x;
                assert(!holds(from_a@, from_b@[k]@));
            }
        }
    }
    None
}

} // verus!
