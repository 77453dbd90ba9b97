//! The object store: content-addressed, append-only.

use vstd::prelude::*;
use crate::error::{EngineError, ErrorKind, Operation, Subject};
use crate::object::{Object, ObjectView};
use crate::oid::ObjectId;

verus! {

/// Objects by id. Nothing is ever removed or replaced.
#[derive(Clone, Debug)]
pub struct ObjectStore {
    ids: Vec<ObjectId>,
    objects: Vec<Object>,
}

/// What a store binds each id to.
pub type Objects = Map<ObjectId, ObjectView>;

/// The outcome of reading `id`: the object, `NotFound` where the id is not
/// bound, `Corrupt` where the object bound to it does not hash to it.
pub open spec fn read(m: Objects, id: ObjectId) -> Result<ObjectView, ErrorKind> {
    if !m.contains_key(id) {
        Err(ErrorKind::NotFound)
    } else if m[id].id() != Some(id) {
        Err(ErrorKind::Corrupt)
    } else {
        Ok(m[id])
    }
}

/// The outcome of storing `o`: its id and the store afterwards. Content that
/// cannot be hashed is refused as `InvalidArgument`; an id that is already
/// bound to another object is `Corrupt`.
pub open spec fn stored(m: Objects, o: ObjectView) -> Result<(ObjectId, Objects), ErrorKind> {
    match o.id() {
        None => Err(ErrorKind::InvalidArgument),
        Some(id) => if m.contains_key(id) && m[id] != o {
            Err(ErrorKind::Corrupt)
        } else {
            Ok((id, m.insert(id, o)))
        },
    }
}

/// Every object in `m` is well formed.
pub open spec fn objects_wf(m: Objects) -> bool {
    forall|id: ObjectId| m.contains_key(id) ==> (#[trigger] m[id]).wf()
}

/// Where `id` stands among `ids`.
pub open spec fn place(ids: Seq<ObjectId>, id: ObjectId) -> int {
    choose|i: int| 0 <= i < ids.len() && ids[i] == id
}

impl View for ObjectStore {
    type V = Objects;

    closed spec fn view(&self) -> Objects {
        Map::new(
            |id: ObjectId| self.ids@.contains(id),
            |id: ObjectId| self.objects@[place(self.ids@, id)]@,
        )
    }
}

impl ObjectStore {
    /// The invariant of the type: no id occurs twice, and every object is
    /// well formed.
    pub closed spec fn wf(&self) -> bool {
        &&& self.ids@.len() == self.objects@.len()
        &&& self.ids@.no_duplicates()
        &&& forall|i: int| 0 <= i < self.objects@.len() ==> (#[trigger] self.objects@[i]).wf()
    }

    /// The number of objects.
    pub closed spec fn count(&self) -> nat {
        self.ids@.len()
    }

    /// A well-formed store holds finitely many well-formed objects, as many
    /// as `count` says.
    pub proof fn lemma_wf(&self)
        requires
            self.wf(),
        ensures
            objects_wf(self@),
            self@.dom().finite(),
            self@.dom().len() == self.count(),
    {
        assert forall|id: ObjectId| self@.contains_key(id) implies (#[trigger] self@[id]).wf() by {
            let i = place(self.ids@, id);
            assert(self.objects@[i].wf());
        }
        self.ids@.unique_seq_to_set();
        assert(self@.dom() =~= self.ids@.to_set());
    }

    proof fn lemma_at(&self, i: int)
        requires
            self.wf(),
            0 <= i < self.ids@.len(),
        ensures
            self@.contains_key(self.ids@[i]),
            self@[self.ids@[i]] == self.objects@[i]@,
    {
        let id = self.ids@[i];
        let j = place(self.ids@, id);
        assert(self.ids@[j] == id);
    }

    /// The empty store.
    pub fn new() -> (s: ObjectStore)
        ensures
            s.wf(),
            s@ == Map::<ObjectId, ObjectView>::empty(),
            s.count() == 0,
    {
        let s = ObjectStore { ids: Vec::new(), objects: Vec::new() };
        assert(s@ =~= Map::<ObjectId, ObjectView>::empty());
        s
    }

    /// The number of objects.
    pub fn len(&self) -> (n: usize)
        requires
            self.wf(),
        ensures
            n == self.count(),
    {
        self.ids.len()
    }

    fn find(&self, id: ObjectId) -> (r: Option<usize>)
        requires
            self.wf(),
        ensures
            match r {
                Some(i) => i < self.ids@.len() && self.ids@[i as int] == id && self@.contains_key(
                    id,
                ) && self@[id] == self.objects@[i as int]@,
                None => !self@.contains_key(id),
            },
    {
        let mut i: usize = 0;
        while i < self.ids.len()
            invariant
                self.wf(),
                i <= self.ids@.len(),
                forall|j: int| 0 <= j < i ==> self.ids@[j] != id,
            decreases self.ids@.len() - i,
        {
            if self.ids[i] == id {
                proof {
                    self.lemma_at(i as int);
                }
                return Some(i);
            }
            i += 1;
        }
        None
    }

    /// Whether an object is stored under `id`.
    pub fn contains(&self, id: ObjectId) -> (r: bool)
        requires
            self.wf(),
        ensures
            r == self@.contains_key(id),
    {
        self.find(id).is_some()
    }

    /// The object stored under `id`, after checking that it hashes to `id`.
    pub fn get(&self, id: ObjectId) -> (r: Result<&Object, EngineError>)
        requires
            self.wf(),
        ensures
            r matches Err(e) ==> e.operation == Operation::Get,
            match r {
                Ok(o) => read(self@, id) == Ok::<ObjectView, ErrorKind>(o@) && o.wf(),
                Err(e) => read(self@, id) == Err::<ObjectView, ErrorKind>(e.kind) && e.operation
                    == Operation::Get && e.subject == Subject::Object(id),
            },
    {
        match self.find(id) {
            None => Err(EngineError::about_object(ErrorKind::NotFound, Operation::Get, id)),
            Some(i) => {
                let o = &self.objects[i];
                match o.id() {
                    Ok(actual) => {
                        if actual == id {
                            Ok(o)
                        } else {
                            Err(EngineError::about_object(ErrorKind::Corrupt, Operation::Get, id))
                        }
                    },
                    Err(_) => Err(
                        EngineError::about_object(ErrorKind::Corrupt, Operation::Get, id),
                    ),
                }
            },
        }
    }

    /// Stores `object` under the hash of its content and returns that id.
    /// Storing the same object again changes nothing and returns the same
    /// id.
    pub fn put(&mut self, object: Object) -> (r: Result<ObjectId, EngineError>)
        requires
            old(self).wf(),
            object.wf(),
        ensures
            r matches Err(e) ==> e.operation == Operation::Put,
            final(self).wf(),
            old(self)@.submap_of(final(self)@),
            match r {
                Ok(id) => stored(old(self)@, object@) == Ok::<(ObjectId, Objects), ErrorKind>(
                    (id, final(self)@),
                ),
                Err(e) => stored(old(self)@, object@) == Err::<(ObjectId, Objects), ErrorKind>(
                    e.kind,
                ) && final(self)@ == old(self)@,
            },
    {
        let id = match object.id() {
            Ok(id) => id,
            Err(e) => {
                return Err(e.during(Operation::Put));
            },
        };
        match self.find(id) {
            Some(i) => {
                if self.objects[i].same(&object) {
                    assert(self@ =~= self@.insert(id, object@));
                    Ok(id)
                } else {
                    Err(EngineError::about_object(ErrorKind::Corrupt, Operation::Put, id))
                }
            },
            None => {
                self.append(id, object);
                Ok(id)
            },
        }
    }

    fn append(&mut self, id: ObjectId, object: Object)
        requires
            old(self).wf(),
            object.wf(),
            !old(self)@.contains_key(id),
        ensures
            final(self).wf(),
            final(self)@ == old(self)@.insert(id, object@),
            final(self).count() == old(self).count() + 1,
    {
        let ghost before = *self;
        self.ids.push(id);
        self.objects.push(object);
        proof {
            assert(self.ids@.no_duplicates());
            assert forall|k: ObjectId| #[trigger] self@.contains_key(k) == before@.insert(id, object@).contains_key(k)
                && (self@.contains_key(k) ==> self@[k] == before@.insert(id, object@)[k]) by {
                if k == id {
                    assert(self.ids@[before.ids@.len() as int] == id);
                    self.lemma_at(before.ids@.len() as int);
                } else if before.ids@.contains(k) {
                    let i = place(before.ids@, k);
                    assert(self.ids@[i] == k);
                    self.lemma_at(i);
                    before.lemma_at(i);
                } else if self.ids@.contains(k) {
                    let i = place(self.ids@, k);
                    assert(before.ids@[i] == k);
                }
            }
            assert(self@ =~= before@.insert(id, object@));
        }
    }

    /// Takes over a record of a storage backend as it is: `object` under
    /// `id`, without hashing it. Reading it later checks it. Nothing
    /// changes where `id` is bound already, and the result says so.
    pub fn load(&mut self, id: ObjectId, object: Object) -> (added: bool)
        requires
            old(self).wf(),
            object.wf(),
        ensures
            final(self).wf(),
            old(self)@.submap_of(final(self)@),
            added == !old(self)@.contains_key(id),
            final(self)@ == (if added {
                old(self)@.insert(id, object@)
            } else {
                old(self)@
            }),
    {
        match self.find(id) {
            Some(_) => false,
            None => {
                self.append(id, object);
                true
            },
        }
    }

    /// The record at position `i` of the store, in the order of arrival:
    /// an id and the object stored under it, as it is, unchecked.
    pub fn record_at(&self, i: usize) -> (r: (ObjectId, &Object))
        requires
            self.wf(),
            i < self.count(),
        ensures
            self@.contains_key(r.0),
            self@[r.0] == r.1@,
            r.1.wf(),
    {
        proof {
            self.lemma_at(i as int);
        }
        (self.ids[i], &self.objects[i])
    }
}

/// Objects are never changed or deleted: storing keeps every binding, and
/// whatever read well before reads the same afterwards.
pub proof fn lemma_stored_extends(m: Objects, o: ObjectView)
    requires
        stored(m, o) is Ok,
    ensures
        m.submap_of(stored(m, o)->Ok_0.1),
        forall|id: ObjectId| read(m, id) is Ok ==> #[trigger] read(stored(m, o)->Ok_0.1, id) == read(m, id),
{
}

/// Growth of a store is transitive.
pub proof fn lemma_extends_twice(a: Objects, b: Objects, c: Objects)
    requires
        a.submap_of(b),
        b.submap_of(c),
    ensures
        a.submap_of(c),
{
    assert forall|id: ObjectId| #[trigger] a.dom().contains(id) implies c.dom().contains(id) && a[id]
        == c[id] by {
        assert(b.dom().contains(id));
    }
}

/// Storing an object twice gives the same id both times and leaves the
/// store, after the first time, as it is.
pub proof fn lemma_put_idempotent(m: Objects, o: ObjectView)
    requires
        stored(m, o) is Ok,
    ensures
        stored(stored(m, o)->Ok_0.1, o) == stored(m, o),
{
    let id = stored(m, o)->Ok_0.0;
    let m1 = stored(m, o)->Ok_0.1;
    assert(m1.insert(id, o) =~= m1);
}

/// The id that storing gives does not depend on the store.
pub proof fn lemma_put_same_id(m1: Objects, m2: Objects, o: ObjectView)
    requires
        stored(m1, o) is Ok,
        stored(m2, o) is Ok,
    ensures
        stored(m1, o)->Ok_0.0 == stored(m2, o)->Ok_0.0,
        Some(stored(m1, o)->Ok_0.0) == o.id(),
{
}

/// What was stored can be read back, and everything else reads as before
/// unless it was absent.
pub proof fn lemma_put_then_read(m: Objects, o: ObjectView, other: ObjectId)
    requires
        stored(m, o) is Ok,
    ensures
        read(stored(m, o)->Ok_0.1, stored(m, o)->Ok_0.0) == Ok::<ObjectView, ErrorKind>(o),
        m.contains_key(other) ==> read(stored(m, o)->Ok_0.1, other) == read(m, other),
{
}

} // verus!
