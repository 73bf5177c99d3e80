//! An object store held in memory: each object once, under the hash of its
//! canonical text. Decoded packs land here before they are written out.

use vstd::prelude::*;

use crate::buf::bytes_equal;
use crate::digest::sha1_digest;
use crate::object::{object_hash, serialize_object, ObjectKind};

verus! {

/// One stored object and the hash that names it.
#[derive(Clone, Debug)]
pub struct StoredObject {
    pub hash: Vec<u8>,
    pub kind: ObjectKind,
    pub payload: Vec<u8>,
}

/// A store entry as a mathematical value: hash, kind, payload.
pub type EntrySpec = (Seq<u8>, ObjectKind, Seq<u8>);

/// Objects in the order in which they were first written.
#[derive(Clone, Debug)]
pub struct ObjectStore {
    objects: Vec<StoredObject>,
}

/// Whether some entry carries `hash`.
pub open spec fn holds_hash(s: Seq<EntrySpec>, hash: Seq<u8>) -> bool {
    exists|i: int| 0 <= i < s.len() && (#[trigger] s[i]).0 == hash
}

/// Writing an entry: nothing changes where its hash is present already;
/// otherwise it is added at the end.
pub open spec fn store_write(s: Seq<EntrySpec>, e: EntrySpec) -> Seq<EntrySpec> {
    if holds_hash(s, e.0) {
        s
    } else {
        s.push(e)
    }
}

/// Every entry is named by the hash of its canonical text, and no hash
/// occurs twice.
pub open spec fn store_wf(s: Seq<EntrySpec>) -> bool {
    &&& forall|i: int| 0 <= i < s.len() ==> (#[trigger] s[i]).0 == object_hash(s[i].1, s[i].2)
    &&& forall|i: int, j: int| 0 <= i < j < s.len() ==> (#[trigger] s[i]).0 != (#[trigger] s[j]).0
}

/// Writing the same object a second time leaves the store as the first
/// write left it.
pub proof fn lemma_write_idempotent(s: Seq<EntrySpec>, e: EntrySpec)
    ensures
        store_write(store_write(s, e), e) == store_write(s, e),
{
    if !holds_hash(s, e.0) {
        let t = s.push(e);
        assert(t[s.len() as int].0 == e.0);
    }
}

impl View for ObjectStore {
    type V = Seq<EntrySpec>;

    closed spec fn view(&self) -> Seq<EntrySpec> {
        self.objects@.map_values(|o: StoredObject| (o.hash@, o.kind, o.payload@))
    }
}

impl ObjectStore {
    pub open spec fn wf(&self) -> bool {
        store_wf(self@)
    }

    /// An empty store.
    pub fn new() -> (r: Self)
        ensures
            r@ == Seq::<EntrySpec>::empty(),
            r.wf(),
    {
        let r = ObjectStore { objects: Vec::new() };
        assert(r@ =~= Seq::<EntrySpec>::empty());
        r
    }

    /// How many objects the store holds.
    pub fn len(&self) -> (r: usize)
        ensures
            r == self@.len(),
    {
        self.objects.len()
    }

    /// The `i`-th object written.
    pub fn get(&self, i: usize) -> (r: &StoredObject)
        requires
            i < self@.len(),
        ensures
            (r.hash@, r.kind, r.payload@) == self@[i as int],
    {
        &self.objects[i]
    }

    /// The position of the object named `hash`, if present.
    pub fn find(&self, hash: &[u8]) -> (r: Option<usize>)
        ensures
            r matches Some(i) ==> i < self@.len() && self@[i as int].0 == hash@,
            r is None ==> !holds_hash(self@, hash@),
    {
        let mut i: usize = 0;
        while i < self.objects.len()
            invariant
                i <= self@.len(),
                self@.len() == self.objects@.len(),
                forall|j: int| 0 <= j < i ==> (#[trigger] self@[j]).0 != hash@,
            decreases self@.len() - i,
        {
            if bytes_equal(self.objects[i].hash.as_slice(), hash) {
                return Some(i);
            }
            i = i + 1;
        }
        None
    }

    /// Writes an object unless one with the same hash is present, and
    /// returns its hash.
    pub fn write(&mut self, kind: ObjectKind, payload: Vec<u8>) -> (r: Vec<u8>)
        requires
            old(self).wf(),
        ensures
            final(self).wf(),
            r@ == object_hash(kind, payload@),
            final(self)@ == store_write(old(self)@, (r@, kind, payload@)),
    {
        let text = serialize_object(kind, payload.as_slice());
        let hash = sha1_digest(&text);
        match self.find(&hash) {
            Some(_) => {},
            None => {
                let ghost before = self@;
                let ghost e = (hash@, kind, payload@);
                self.objects.push(StoredObject { hash: hash.clone(), kind, payload });
                assert(self@ =~= before.push(e));
            },
        }
        hash
    }
}

} // verus!
