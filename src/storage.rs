//! The storage contract and its in-memory backend: objects by address,
//! references by name, and transactions that stage changes until commit.

use vstd::prelude::*;
use crate::object::{content_address, GitObject, ObjectId};

verus! {

/// Errors of the storage layer.
#[derive(Debug)]
pub enum StorageError {
    ObjectNotFound { id: ObjectId },
    RefNotFound { name: String },
    TransactionFailed { reason: String },
    /// The claimed identity is not the address of the object.
    CorruptionDetected { id: ObjectId, details: String },
    BackendUnavailable { backend: String },
    ConcurrentModification,
    Backend(String),
    Serialization(String),
    /// A reference that must be new already exists.
    RefExists { name: String },
    /// A branch name breaks the naming rules.
    InvalidRefName { name: String },
    /// The first entry of the log has no earlier state to return to.
    CannotUndoInitial,
    /// An object given to be written breaks the validation rules.
    InvalidObject { reason: String },
}

/// Where a reference points: at an object, or at another reference by name.
#[derive(Debug)]
pub enum ReferenceTarget {
    Direct(ObjectId),
    Symbolic(String),
}

/// A reference target as plain values.
pub ghost enum TargetView {
    Direct(Seq<u8>),
    Symbolic(Seq<char>),
}

impl View for ReferenceTarget {
    type V = TargetView;

    open spec fn view(&self) -> TargetView {
        match self {
            ReferenceTarget::Direct(id) => TargetView::Direct(id@),
            ReferenceTarget::Symbolic(s) => TargetView::Symbolic(s@),
        }
    }
}

impl Clone for ReferenceTarget {
    fn clone(&self) -> (r: ReferenceTarget)
        ensures
            r == *self,
    {
        match self {
            ReferenceTarget::Direct(id) => ReferenceTarget::Direct(*id),
            ReferenceTarget::Symbolic(s) => ReferenceTarget::Symbolic(s.clone()),
        }
    }
}

/// A named reference.
#[derive(Debug)]
pub struct Reference {
    pub name: String,
    pub target: ReferenceTarget,
}

impl Clone for Reference {
    fn clone(&self) -> (r: Reference)
        ensures
            r == *self,
    {
        Reference { name: self.name.clone(), target: self.target.clone() }
    }
}

/// The references of a listing, as a map from name to target.
pub open spec fn listing_matches(v: Seq<Reference>, refs: Map<Seq<char>, TargetView>) -> bool {
    &&& forall|i: int| 0 <= i < v.len() ==> #[trigger] refs.contains_key(v[i].name@) && refs[v[i].name@] == v[i].target@
    &&& forall|k: Seq<char>| #[trigger] refs.contains_key(k) ==> exists|i: int| 0 <= i < v.len() && #[trigger] v[i].name@ == k
    &&& forall|i: int, j: int| 0 <= i < j < v.len() ==> (#[trigger] v[i].name@) != (#[trigger] v[j].name@)
}

/// The in-memory backend: objects by address and references by name.
pub struct MemoryStorage {
    objects: Vec<(ObjectId, GitObject)>,
    references: Vec<Reference>,
    object_map: Ghost<Map<Seq<u8>, Seq<u8>>>,
    ref_map: Ghost<Map<Seq<char>, TargetView>>,
}

impl MemoryStorage {
    /// The stored objects: address to canonical bytes.
    pub closed spec fn objects(&self) -> Map<Seq<u8>, Seq<u8>> {
        self.object_map@
    }

    /// The references: name to target.
    pub closed spec fn refs(&self) -> Map<Seq<char>, TargetView> {
        self.ref_map@
    }

    pub closed spec fn wf(&self) -> bool {
        &&& self.object_map@.dom().finite()
        &&& self.ref_map@.dom().finite()
        &&& self.object_map@.dom().len() == self.objects@.len()
        &&& self.ref_map@.dom().len() == self.references@.len()
        &&& forall|i: int|
            0 <= i < self.objects@.len() ==> #[trigger] self.object_map@.contains_key(self.objects@[i].0@)
                && self.object_map@[self.objects@[i].0@] == self.objects@[i].1@
        &&& forall|k: Seq<u8>|
            #[trigger] self.object_map@.contains_key(k) ==> exists|i: int|
                0 <= i < self.objects@.len() && #[trigger] self.objects@[i].0@ == k
        &&& forall|i: int, j: int|
            0 <= i < j < self.objects@.len() ==> (#[trigger] self.objects@[i].0@) != (#[trigger] self.objects@[j].0@)
        &&& listing_matches(self.references@, self.ref_map@)
    }

    pub proof fn lemma_finite(&self)
        requires
            self.wf(),
        ensures
            self.objects().dom().finite(),
            self.refs().dom().finite(),
    {
    }

    /// Whether an object is stored at `id`.
    pub fn contains_object(&self, id: &ObjectId) -> (r: bool)
        requires
            self.wf(),
        ensures
            r == self.objects().contains_key(id@),
    {
        self.find_object(id).is_some()
    }

    /// An empty store.
    pub fn new() -> (r: MemoryStorage)
        ensures
            r.wf(),
            r.objects() == Map::<Seq<u8>, Seq<u8>>::empty(),
            r.refs() == Map::<Seq<char>, TargetView>::empty(),
    {
        MemoryStorage {
            objects: Vec::new(),
            references: Vec::new(),
            object_map: Ghost(Map::empty()),
            ref_map: Ghost(Map::empty()),
        }
    }

    fn find_object(&self, id: &ObjectId) -> (r: Option<usize>)
        requires
            self.wf(),
        ensures
            r matches Some(i) ==> i < self.objects@.len() && self.objects@[i as int].0@ == id@,
            r is None ==> !self.objects().contains_key(id@),
    {
        let mut i: usize = 0;
        while i < self.objects.len()
            invariant
                self.wf(),
                i <= self.objects@.len(),
                forall|k: int| 0 <= k < i ==> self.objects@[k].0@ != id@,
            decreases self.objects@.len() - i,
        {
            if self.objects[i].0.same_as(id) {
                return Some(i);
            }
            i = i + 1;
        }
        None
    }

    fn find_ref(&self, name: &String) -> (r: Option<usize>)
        requires
            self.wf(),
        ensures
            r matches Some(i) ==> i < self.references@.len() && self.references@[i as int].name@ == name@,
            r is None ==> !self.refs().contains_key(name@),
    {
        let mut i: usize = 0;
        while i < self.references.len()
            invariant
                self.wf(),
                i <= self.references@.len(),
                forall|k: int| 0 <= k < i ==> self.references@[k].name@ != name@,
            decreases self.references@.len() - i,
        {
            if self.references[i].name == *name {
                return Some(i);
            }
            i = i + 1;
        }
        None
    }

    /// Puts an object at an address without checking it.
    #[verifier::rlimit(30)]
    fn put(&mut self, id: ObjectId, object: GitObject)
        requires
            old(self).wf(),
        ensures
            final(self).wf(),
            final(self).objects() == old(self).objects().insert(id@, object@),
            final(self).refs() == old(self).refs(),
    {
        let ghost old_map = self.object_map@;
        let ghost v = object@;
        match self.find_object(&id) {
            Some(i) => {
                self.objects.set(i, (id, object));
                proof {
                    self.object_map@ = old_map.insert(id@, v);
                    assert(old_map.dom().insert(id@) =~= old_map.dom());
                    assert forall|k: Seq<u8>| #[trigger] self.object_map@.contains_key(k) implies exists|j: int|
                        0 <= j < self.objects@.len() && #[trigger] self.objects@[j].0@ == k by {
                        if k != id@ {
                            let j = choose|j: int| 0 <= j < self.objects@.len() && #[trigger] old(self).objects@[j].0@ == k;
                            assert(self.objects@[j].0@ == k);
                        } else {
                            assert(self.objects@[i as int].0@ == k);
                        }
                    }
                    assert forall|a: int, b: int| 0 <= a < b < self.objects@.len() implies
                        (#[trigger] self.objects@[a].0@) != (#[trigger] self.objects@[b].0@) by {
                        assert(old(self).objects@[a].0@ != old(self).objects@[b].0@);
                    }
                }
            },
            None => {
                self.objects.push((id, object));
                proof {
                    self.object_map@ = old_map.insert(id@, v);
                    let n = old(self).objects@.len() as int;
                    assert forall|k: Seq<u8>| #[trigger] self.object_map@.contains_key(k) implies exists|j: int|
                        0 <= j < self.objects@.len() && #[trigger] self.objects@[j].0@ == k by {
                        if k != id@ {
                            let j = choose|j: int| 0 <= j < old(self).objects@.len() && #[trigger] old(self).objects@[j].0@ == k;
                            assert(self.objects@[j].0@ == k);
                        } else {
                            assert(self.objects@[n].0@ == k);
                        }
                    }
                    assert forall|a: int, b: int| 0 <= a < b < self.objects@.len() implies
                        (#[trigger] self.objects@[a].0@) != (#[trigger] self.objects@[b].0@) by {
                        if b == n {
                            assert(old_map.contains_key(self.objects@[a].0@));
                        } else {
                            assert(old(self).objects@[a].0@ != old(self).objects@[b].0@);
                        }
                    }
                }
            },
        }
    }

    /// Stores an object under its claimed identity. The claim is checked: an
    /// identity that is not the object's address is refused with
    /// `CorruptionDetected`, and nothing changes.
    pub fn store_object(&mut self, id: &ObjectId, object: &GitObject) -> (r: Result<(), StorageError>)
        requires
            old(self).wf(),
        ensures
            final(self).wf(),
            final(self).refs() == old(self).refs(),
            r is Ok <==> id@ == content_address(*object),
            r is Ok ==> final(self).objects() == old(self).objects().insert(id@, object@),
            r matches Err(e) ==> (e matches StorageError::CorruptionDetected { id: i, .. } && i == *id)
                && final(self).objects() == old(self).objects(),
    {
        let computed = object.canonical_hash();
        if !computed.same_as(id) {
            return Err(StorageError::CorruptionDetected {
                id: *id,
                details: "Object hash mismatch".to_owned(),
            });
        }
        self.put(*id, object.clone());
        Ok(())
    }

    /// The object stored at an address, if any.
    pub fn load_object(&self, id: &ObjectId) -> (r: Result<Option<GitObject>, StorageError>)
        requires
            self.wf(),
        ensures
            r is Ok,
            r matches Ok(found) ==> (self.objects().contains_key(id@) ==> (found matches Some(o) && o@
                == self.objects()[id@])),
            r matches Ok(found) ==> (!self.objects().contains_key(id@) ==> found is None),
    {
        match self.find_object(id) {
            Some(i) => Ok(Some(self.objects[i].1.clone())),
            None => Ok(None),
        }
    }

    /// The target of a reference, if it exists.
    pub fn get_ref(&self, name: &str) -> (r: Option<ReferenceTarget>)
        requires
            self.wf(),
        ensures
            self.refs().contains_key(name@) ==> (r matches Some(t) && t@ == self.refs()[name@]),
            !self.refs().contains_key(name@) ==> r is None,
    {
        let key = name.to_owned();
        match self.find_ref(&key) {
            Some(i) => Some(self.references[i].target.clone()),
            None => None,
        }
    }

    /// Every reference, each once, in no particular order.
    pub fn list_refs(&self) -> (r: Result<Vec<Reference>, StorageError>)
        requires
            self.wf(),
        ensures
            r matches Ok(v) && listing_matches(v@, self.refs()),
    {
        let mut out: Vec<Reference> = Vec::new();
        let mut i: usize = 0;
        while i < self.references.len()
            invariant
                self.wf(),
                i <= self.references@.len(),
                out@ == self.references@.subrange(0, i as int),
            decreases self.references@.len() - i,
        {
            out.push(self.references[i].clone());
            assert(self.references@.subrange(0, i + 1) == self.references@.subrange(0, i as int).push(
                self.references@[i as int],
            ));
            i = i + 1;
        }
        assert(self.references@.subrange(0, self.references@.len() as int) == self.references@);
        Ok(out)
    }

    /// Points a reference at a target, creating it if needed.
    #[verifier::rlimit(30)]
    fn set_ref(&mut self, name: String, target: ReferenceTarget)
        requires
            old(self).wf(),
        ensures
            final(self).wf(),
            final(self).refs() == old(self).refs().insert(name@, target@),
            final(self).objects() == old(self).objects(),
    {
        let ghost old_map = self.ref_map@;
        let ghost key = name@;
        let ghost tv = target@;
        match self.find_ref(&name) {
            Some(i) => {
                self.references.set(i, Reference { name, target });
                proof {
                    self.ref_map@ = old_map.insert(key, tv);
                    assert(old_map.dom().insert(key) =~= old_map.dom());
                    let v = self.references@;
                    assert forall|a: int| 0 <= a < v.len() implies #[trigger] self.ref_map@.contains_key(v[a].name@)
                        && self.ref_map@[v[a].name@] == v[a].target@ by {
                        if a != i {
                            assert(v[a] == old(self).references@[a]);
                            assert(old(self).references@[a].name@ != old(self).references@[i as int].name@);
                            assert(old_map.contains_key(old(self).references@[a].name@));
                        } else {
                            assert(v[a].name@ == key && v[a].target@ == tv);
                        }
                    }
                    assert forall|k: Seq<char>| #[trigger] self.ref_map@.contains_key(k) implies exists|j: int|
                        0 <= j < v.len() && #[trigger] v[j].name@ == k by {
                        if k != key {
                            let j = choose|j: int| 0 <= j < v.len() && #[trigger] old(self).references@[j].name@ == k;
                            assert(v[j].name@ == k);
                        } else {
                            assert(v[i as int].name@ == k);
                        }
                    }
                    assert forall|a: int, b: int| 0 <= a < b < v.len() implies (#[trigger] v[a].name@) != (
                    #[trigger] v[b].name@) by {
                        assert(old(self).references@[a].name@ != old(self).references@[b].name@);
                    }
                }
            },
            None => {
                self.references.push(Reference { name, target });
                proof {
                    self.ref_map@ = old_map.insert(key, tv);
                    let v = self.references@;
                    let n = old(self).references@.len() as int;
                    assert forall|a: int| 0 <= a < v.len() implies #[trigger] self.ref_map@.contains_key(v[a].name@)
                        && self.ref_map@[v[a].name@] == v[a].target@ by {
                        if a != n {
                            assert(v[a] == old(self).references@[a]);
                        }
                    }
                    assert forall|k: Seq<char>| #[trigger] self.ref_map@.contains_key(k) implies exists|j: int|
                        0 <= j < v.len() && #[trigger] v[j].name@ == k by {
                        if k != key {
                            let j = choose|j: int| 0 <= j < n && #[trigger] old(self).references@[j].name@ == k;
                            assert(v[j].name@ == k);
                        } else {
                            assert(v[n].name@ == k);
                        }
                    }
                    assert forall|a: int, b: int| 0 <= a < b < v.len() implies (#[trigger] v[a].name@) != (
                    #[trigger] v[b].name@) by {
                        if b == n {
                            assert(old_map.contains_key(v[a].name@));
                        } else {
                            assert(old(self).references@[a].name@ != old(self).references@[b].name@);
                        }
                    }
                }
            },
        }
    }

    /// Points a reference directly at an object.
    pub fn update_ref(&mut self, name: &str, target: &ObjectId) -> (r: Result<(), StorageError>)
        requires
            old(self).wf(),
        ensures
            r is Ok,
            final(self).wf(),
            final(self).refs() == old(self).refs().insert(name@, TargetView::Direct(target@)),
            final(self).objects() == old(self).objects(),
    {
        self.set_ref(name.to_owned(), ReferenceTarget::Direct(*target));
        Ok(())
    }

    /// Points a reference at another reference by name.
    pub fn update_symbolic_ref(&mut self, name: &str, target: &str) -> (r: Result<(), StorageError>)
        requires
            old(self).wf(),
        ensures
            r is Ok,
            final(self).wf(),
            final(self).refs() == old(self).refs().insert(name@, TargetView::Symbolic(target@)),
            final(self).objects() == old(self).objects(),
    {
        self.set_ref(name.to_owned(), ReferenceTarget::Symbolic(target.to_owned()));
        Ok(())
    }

    /// Removes a reference; one that does not exist is reported with
    /// `RefNotFound` and nothing changes.
    #[verifier::rlimit(30)]
    pub fn delete_ref(&mut self, name: &str) -> (r: Result<(), StorageError>)
        requires
            old(self).wf(),
        ensures
            final(self).wf(),
            final(self).objects() == old(self).objects(),
            r is Ok <==> old(self).refs().contains_key(name@),
            r is Ok ==> final(self).refs() == old(self).refs().remove(name@),
            r matches Err(e) ==> e is RefNotFound && final(self).refs() == old(self).refs(),
    {
        let key = name.to_owned();
        match self.find_ref(&key) {
            None => Err(StorageError::RefNotFound { name: key }),
            Some(i) => {
                let ghost old_map = self.ref_map@;
                let ghost v0 = self.references@;
                self.references.remove(i);
                proof {
                    self.ref_map@ = old_map.remove(key@);
                    let v = self.references@;
                    assert(v == v0.remove(i as int));
                    assert forall|a: int| 0 <= a < v.len() implies #[trigger] self.ref_map@.contains_key(v[a].name@)
                        && self.ref_map@[v[a].name@] == v[a].target@ by {
                        let b = if a < i { a } else { a + 1 };
                        assert(v[a] == v0[b]);
                        assert(v0[b].name@ != v0[i as int].name@);
                        assert(old_map.contains_key(v0[b].name@));
                    }
                    assert forall|k: Seq<char>| #[trigger] self.ref_map@.contains_key(k) implies exists|j: int|
                        0 <= j < v.len() && #[trigger] v[j].name@ == k by {
                        let j = choose|j: int| 0 <= j < v0.len() && #[trigger] v0[j].name@ == k;
                        assert(j != i);
                        if j < i {
                            assert(v[j].name@ == k);
                        } else {
                            assert(v[j - 1].name@ == k);
                        }
                    }
                    assert forall|a: int, b: int| 0 <= a < b < v.len() implies (#[trigger] v[a].name@) != (
                    #[trigger] v[b].name@) by {
                        let a0 = if a < i { a } else { a + 1 };
                        let b0 = if b < i { b } else { b + 1 };
                        assert(v0[a0].name@ != v0[b0].name@);
                    }
                }
                Ok(())
            },
        }
    }

    /// The number of stored objects.
    pub fn object_count(&self) -> (r: usize)
        requires
            self.wf(),
        ensures
            r == self.objects().dom().len(),
    {
        self.objects.len()
    }

    /// The number of references.
    pub fn reference_count(&self) -> (r: usize)
        requires
            self.wf(),
        ensures
            r == self.refs().dom().len(),
    {
        self.references.len()
    }

    /// Copies every object and reference of `other` in, replacing what is
    /// there under the same address or name.
    #[verifier::rlimit(30)]
    fn apply(&mut self, other: &MemoryStorage)
        requires
            old(self).wf(),
            other.wf(),
        ensures
            final(self).wf(),
            final(self).objects() == old(self).objects().union_prefer_right(other.objects()),
            final(self).refs() == old(self).refs().union_prefer_right(other.refs()),
    {
        let ghost o0 = self.objects();
        let ghost r0 = self.refs();
        let mut i: usize = 0;
        while i < other.objects.len()
            invariant
                self.wf(),
                other.wf(),
                i <= other.objects@.len(),
                self.refs() == r0,
                forall|k: Seq<u8>| #[trigger] self.objects().contains_key(k) <==> (o0.contains_key(k) || exists|j: int|
                    0 <= j < i && #[trigger] other.objects@[j].0@ == k),
                forall|k: Seq<u8>| #[trigger] self.objects().contains_key(k) ==> self.objects()[k] == (if exists|j: int|
                    0 <= j < i && #[trigger] other.objects@[j].0@ == k { other.objects()[k] } else { o0[k] }),
            decreases other.objects@.len() - i,
        {
            let ghost before = self.objects();
            let id = other.objects[i].0;
            self.put(id, other.objects[i].1.clone());
            proof {
                assert(other.objects().contains_key(other.objects@[i as int].0@));
                assert forall|k: Seq<u8>| #[trigger] self.objects().contains_key(k) <==> (o0.contains_key(k) || exists|j: int|
                    0 <= j < i + 1 && #[trigger] other.objects@[j].0@ == k) by {
                    if k == id@ {
                        assert(other.objects@[i as int].0@ == k);
                    } else if exists|j: int| 0 <= j < i + 1 && #[trigger] other.objects@[j].0@ == k {
                        let j = choose|j: int| 0 <= j < i + 1 && #[trigger] other.objects@[j].0@ == k;
                        assert(j < i);
                    }
                }
                assert forall|k: Seq<u8>| #[trigger] self.objects().contains_key(k) implies self.objects()[k] == (if exists|j: int|
                    0 <= j < i + 1 && #[trigger] other.objects@[j].0@ == k { other.objects()[k] } else { o0[k] }) by {
                    if k == id@ {
                        assert(other.objects@[i as int].0@ == k);
                    } else if exists|j: int| 0 <= j < i + 1 && #[trigger] other.objects@[j].0@ == k {
                        let j = choose|j: int| 0 <= j < i + 1 && #[trigger] other.objects@[j].0@ == k;
                        assert(j < i);
                    }
                }
            }
            i = i + 1;
        }
        proof {
            assert forall|k: Seq<u8>| other.objects().contains_key(k) <==> exists|j: int|
                0 <= j < other.objects@.len() && #[trigger] other.objects@[j].0@ == k by {
                if exists|j: int| 0 <= j < other.objects@.len() && #[trigger] other.objects@[j].0@ == k {
                    let j = choose|j: int| 0 <= j < other.objects@.len() && #[trigger] other.objects@[j].0@ == k;
                    assert(other.objects().contains_key(other.objects@[j].0@));
                }
            }
            assert(self.objects() =~= o0.union_prefer_right(other.objects()));
        }
        let ghost o1 = self.objects();
        let mut i: usize = 0;
        while i < other.references.len()
            invariant
                self.wf(),
                other.wf(),
                i <= other.references@.len(),
                self.objects() == o1,
                forall|k: Seq<char>| #[trigger] self.refs().contains_key(k) <==> (r0.contains_key(k) || exists|j: int|
                    0 <= j < i && #[trigger] other.references@[j].name@ == k),
                forall|k: Seq<char>| #[trigger] self.refs().contains_key(k) ==> self.refs()[k] == (if exists|j: int|
                    0 <= j < i && #[trigger] other.references@[j].name@ == k { other.refs()[k] } else { r0[k] }),
            decreases other.references@.len() - i,
        {
            let name = other.references[i].name.clone();
            let target = other.references[i].target.clone();
            let ghost key = name@;
            self.set_ref(name, target);
            proof {
                assert(other.refs().contains_key(other.references@[i as int].name@));
                assert forall|k: Seq<char>| #[trigger] self.refs().contains_key(k) <==> (r0.contains_key(k) || exists|j: int|
                    0 <= j < i + 1 && #[trigger] other.references@[j].name@ == k) by {
                    if k == key {
                        assert(other.references@[i as int].name@ == k);
                    } else if exists|j: int| 0 <= j < i + 1 && #[trigger] other.references@[j].name@ == k {
                        let j = choose|j: int| 0 <= j < i + 1 && #[trigger] other.references@[j].name@ == k;
                        assert(j < i);
                    }
                }
                assert forall|k: Seq<char>| #[trigger] self.refs().contains_key(k) implies self.refs()[k] == (if exists|j: int|
                    0 <= j < i + 1 && #[trigger] other.references@[j].name@ == k { other.refs()[k] } else { r0[k] }) by {
                    if k == key {
                        assert(other.references@[i as int].name@ == k);
                    } else if exists|j: int| 0 <= j < i + 1 && #[trigger] other.references@[j].name@ == k {
                        let j = choose|j: int| 0 <= j < i + 1 && #[trigger] other.references@[j].name@ == k;
                        assert(j < i);
                    }
                }
            }
            i = i + 1;
        }
        proof {
            assert forall|k: Seq<char>| other.refs().contains_key(k) <==> exists|j: int|
                0 <= j < other.references@.len() && #[trigger] other.references@[j].name@ == k by {
                if exists|j: int| 0 <= j < other.references@.len() && #[trigger] other.references@[j].name@ == k {
                    let j = choose|j: int| 0 <= j < other.references@.len() && #[trigger] other.references@[j].name@ == k;
                    assert(other.refs().contains_key(other.references@[j].name@));
                }
            }
            assert(self.refs() =~= r0.union_prefer_right(other.refs()));
        }
    }

    /// Opens a transaction with nothing staged.
    pub fn transaction(&self) -> (r: Result<MemoryTransaction, StorageError>)
        ensures
            r matches Ok(t) && t.wf() && !t.is_completed() && t.staged_objects() == Map::<Seq<u8>, Seq<u8>>::empty()
                && t.staged_refs() == Map::<Seq<char>, TargetView>::empty(),
    {
        Ok(MemoryTransaction { staged: MemoryStorage::new(), completed: false })
    }

    /// Removes every object and reference.
    pub fn clear(&mut self)
        ensures
            final(self).wf(),
            final(self).objects() == Map::<Seq<u8>, Seq<u8>>::empty(),
            final(self).refs() == Map::<Seq<char>, TargetView>::empty(),
    {
        *self = MemoryStorage::new();
    }
}

impl Default for MemoryStorage {
    fn default() -> (r: MemoryStorage)
        ensures
            r.wf(),
            r.objects() == Map::<Seq<u8>, Seq<u8>>::empty(),
            r.refs() == Map::<Seq<char>, TargetView>::empty(),
    {
        MemoryStorage::new()
    }
}

/// Changes staged apart from the store they are meant for. Nothing staged is
/// visible in the store until `commit`; `rollback` discards it. After either,
/// the transaction refuses every further use with `TransactionFailed`.
pub struct MemoryTransaction {
    staged: MemoryStorage,
    completed: bool,
}

impl MemoryTransaction {
    pub closed spec fn staged_objects(&self) -> Map<Seq<u8>, Seq<u8>> {
        self.staged.objects()
    }

    pub closed spec fn staged_refs(&self) -> Map<Seq<char>, TargetView> {
        self.staged.refs()
    }

    pub closed spec fn is_completed(&self) -> bool {
        self.completed
    }

    pub closed spec fn wf(&self) -> bool {
        self.staged.wf()
    }

    /// Stages an object, checking its identity as the store does.
    pub fn store_object(&mut self, id: &ObjectId, object: &GitObject) -> (r: Result<(), StorageError>)
        requires
            old(self).wf(),
        ensures
            final(self).wf(),
            final(self).is_completed() == old(self).is_completed(),
            final(self).staged_refs() == old(self).staged_refs(),
            old(self).is_completed() ==> (r matches Err(e) && e is TransactionFailed) && final(self).staged_objects()
                == old(self).staged_objects(),
            !old(self).is_completed() ==> (r is Ok <==> id@ == content_address(*object)),
            !old(self).is_completed() && r is Ok ==> final(self).staged_objects() == old(self).staged_objects().insert(
                id@,
                object@,
            ),
            !old(self).is_completed() && r is Err ==> (r matches Err(StorageError::CorruptionDetected { id: i, .. }) && i == *id)
                && final(self).staged_objects() == old(self).staged_objects(),
    {
        if self.completed {
            return Err(StorageError::TransactionFailed { reason: "Transaction already completed".to_owned() });
        }
        self.staged.store_object(id, object)
    }

    /// Stages pointing a reference directly at an object.
    pub fn update_ref(&mut self, name: &str, target: &ObjectId) -> (r: Result<(), StorageError>)
        requires
            old(self).wf(),
        ensures
            final(self).wf(),
            final(self).is_completed() == old(self).is_completed(),
            final(self).staged_objects() == old(self).staged_objects(),
            old(self).is_completed() ==> (r matches Err(e) && e is TransactionFailed) && final(self).staged_refs()
                == old(self).staged_refs(),
            !old(self).is_completed() ==> r is Ok && final(self).staged_refs() == old(self).staged_refs().insert(
                name@,
                TargetView::Direct(target@),
            ),
    {
        if self.completed {
            return Err(StorageError::TransactionFailed { reason: "Transaction already completed".to_owned() });
        }
        self.staged.update_ref(name, target)
    }

    /// Makes every staged change visible in `storage` at once.
    pub fn commit(&mut self, storage: &mut MemoryStorage) -> (r: Result<(), StorageError>)
        requires
            old(self).wf(),
            old(storage).wf(),
        ensures
            final(self).wf(),
            final(storage).wf(),
            final(self).is_completed(),
            old(self).is_completed() ==> (r matches Err(e) && e is TransactionFailed) && *final(storage) == *old(
                storage,
            ),
            !old(self).is_completed() ==> r is Ok && final(storage).objects() == old(storage).objects().union_prefer_right(
                old(self).staged_objects(),
            ) && final(storage).refs() == old(storage).refs().union_prefer_right(old(self).staged_refs()),
    {
        if self.completed {
            return Err(StorageError::TransactionFailed { reason: "Transaction already completed".to_owned() });
        }
        storage.apply(&self.staged);
        self.staged = MemoryStorage::new();
        self.completed = true;
        Ok(())
    }

    /// Discards every staged change.
    pub fn rollback(&mut self) -> (r: Result<(), StorageError>)
        requires
            old(self).wf(),
        ensures
            final(self).wf(),
            final(self).is_completed(),
            old(self).is_completed() ==> (r matches Err(e) && e is TransactionFailed),
            !old(self).is_completed() ==> r is Ok && final(self).staged_objects() == Map::<Seq<u8>, Seq<u8>>::empty()
                && final(self).staged_refs() == Map::<Seq<char>, TargetView>::empty(),
    {
        if self.completed {
            return Err(StorageError::TransactionFailed { reason: "Transaction already completed".to_owned() });
        }
        self.staged = MemoryStorage::new();
        self.completed = true;
        Ok(())
    }
}

/// Address integrity: once an object has been stored under its own address,
/// that address holds exactly the object's canonical bytes, so loading it gives
/// back an object byte-equal to the one stored.
pub proof fn law_address_integrity(before: MemoryStorage, after: MemoryStorage, o: GitObject)
    requires
        after.objects() == before.objects().insert(content_address(o), o@),
    ensures
        after.objects().contains_key(content_address(o)),
        after.objects()[content_address(o)] == o@,
        forall|k: Seq<u8>| k != content_address(o) ==> #[trigger] after.objects().contains_key(k)
            == before.objects().contains_key(k),
{
}

} // verus!
