use vstd::prelude::*;
use std::collections::BTreeMap;
use crate::content::ObjectId;
use crate::object::{DictView, ObjectView, PdfDictionary, PdfObject, obj_view};
use crate::bridge::{pruned_ids, unused_object_ids};
use vstd::std_specs::iter::IteratorSpec;
use vstd::std_specs::cmp::OrdSpec;

verus! {

broadcast use vstd::std_specs::btree::group_btree_axioms;

/// Errors of document operations.
#[derive(Debug, Clone, Copy, PartialEq, Eq)]
pub enum PdfError {
    /// A content stream could not be decoded.
    ContentDecode,
    /// A required dictionary key is missing.
    DictKey,
    /// An object was not where its id said.
    ObjectIdMismatch,
    /// A required object is missing.
    ObjectNotFound,
    /// The page with this number does not exist.
    PageNumberNotFound(u32),
    /// A chain of references is too long.
    ReferenceLimit,
    /// An object does not have the expected type.
    Type,
    /// Writing a content stream failed.
    ContentEncode,
}

/// A PDF document: its version, trailer, and objects by id.
#[derive(Debug)]
pub struct PdfDocument {
    pub version: String,
    pub trailer: PdfDictionary,
    pub objects: BTreeMap<ObjectId, PdfObject>,
    /// The largest object number handed out so far.
    pub max_id: u32,
}

/// The most references followed when an object is looked up.
pub open spec fn deref_limit() -> nat {
    128
}

/// The object that id `id` leads to once references are followed, starting
/// after `count` references were already followed: the id of the object that
/// is not a reference, or the error of the lookup.
pub open spec fn follow(objects: Map<ObjectId, PdfObject>, id: ObjectId, count: nat) -> Result<ObjectId, PdfError>
    decreases deref_limit() - count,
{
    if count > deref_limit() {
        Err(PdfError::ReferenceLimit)
    } else {
        match objects[id] {
            PdfObject::Reference(next) => {
                if !objects.contains_key(next) {
                    Err(PdfError::ObjectNotFound)
                } else if count + 1 > deref_limit() {
                    Err(PdfError::ReferenceLimit)
                } else {
                    follow(objects, next, count + 1)
                }
            },
            _ => Ok(id),
        }
    }
}

/// The id of the object that `get_object(id)` gives: `id` itself, or where
/// the chain of references that starts there ends.
pub open spec fn resolve(objects: Map<ObjectId, PdfObject>, id: ObjectId) -> Result<ObjectId, PdfError> {
    if !objects.contains_key(id) {
        Err(PdfError::ObjectNotFound)
    } else {
        follow(objects, id, 0)
    }
}

/// The object that `get_object(id)` gives, by its model, or the lookup's error.
pub open spec fn object_at(objects: Map<ObjectId, PdfObject>, id: ObjectId) -> Result<ObjectView, PdfError> {
    match resolve(objects, id) {
        Ok(t) => Ok(obj_view(objects[t])),
        Err(e) => Err(e),
    }
}

/// The model of a document's objects.
pub open spec fn objects_view(m: Map<ObjectId, PdfObject>) -> Map<ObjectId, ObjectView> {
    m.map_values(|o: PdfObject| obj_view(o))
}

/// [`follow`] on the models of the objects.
pub open spec fn follow_view(objects: Map<ObjectId, ObjectView>, id: ObjectId, count: nat) -> Result<ObjectId, PdfError>
    decreases deref_limit() - count,
{
    if count > deref_limit() {
        Err(PdfError::ReferenceLimit)
    } else {
        match objects[id] {
            ObjectView::Reference(next) => {
                if !objects.contains_key(next) {
                    Err(PdfError::ObjectNotFound)
                } else if count + 1 > deref_limit() {
                    Err(PdfError::ReferenceLimit)
                } else {
                    follow_view(objects, next, count + 1)
                }
            },
            _ => Ok(id),
        }
    }
}

/// [`resolve`] on the models of the objects.
pub open spec fn resolve_view(objects: Map<ObjectId, ObjectView>, id: ObjectId) -> Result<ObjectId, PdfError> {
    if !objects.contains_key(id) {
        Err(PdfError::ObjectNotFound)
    } else {
        follow_view(objects, id, 0)
    }
}

proof fn lemma_follow_view(objects: Map<ObjectId, PdfObject>, id: ObjectId, count: nat)
    requires
        objects.contains_key(id),
    ensures
        follow(objects, id, count) == follow_view(objects_view(objects), id, count),
    decreases deref_limit() - count,
{
    let v = objects_view(objects);
    assert(v[id] == obj_view(objects[id]));
    if count <= deref_limit() {
        match objects[id] {
            PdfObject::Reference(next) => {
                assert(v.contains_key(next) == objects.contains_key(next));
                if objects.contains_key(next) && count + 1 <= deref_limit() {
                    lemma_follow_view(objects, next, count + 1);
                }
            },
            _ => {},
        }
    }
}

/// Looking up an object gives the same on the models.
pub proof fn lemma_resolve_view(objects: Map<ObjectId, PdfObject>, id: ObjectId)
    ensures
        resolve(objects, id) == resolve_view(objects_view(objects), id),
        resolve(objects, id) matches Ok(t) ==> objects.contains_key(t) && objects_view(objects)[t] == obj_view(objects[t]) && !(objects_view(objects)[t] is Reference),
{
    if objects.contains_key(id) {
        lemma_follow_view(objects, id, 0);
        lemma_follow_found(objects, id, 0);
    }
}

proof fn lemma_follow_view_insert(ov: Map<ObjectId, ObjectView>, id: ObjectId, count: nat, t: ObjectId, x: ObjectView)
    requires
        ov.contains_key(id),
        follow_view(ov, id, count) == Ok::<ObjectId, PdfError>(t),
        !(x is Reference),
    ensures
        follow_view(ov.insert(t, x), id, count) == Ok::<ObjectId, PdfError>(t),
    decreases deref_limit() - count,
{
    if id != t {
        match ov[id] {
            ObjectView::Reference(next) => {
                lemma_follow_view_insert(ov, next, count + 1, t, x);
            },
            _ => {},
        }
    }
}

/// Replacing the object that an id leads to by another object that is not
/// a reference leaves the lookup where it was.
pub proof fn lemma_resolve_view_insert(ov: Map<ObjectId, ObjectView>, id: ObjectId, t: ObjectId, x: ObjectView)
    requires
        resolve_view(ov, id) == Ok::<ObjectId, PdfError>(t),
        !(x is Reference),
    ensures
        resolve_view(ov.insert(t, x), id) == Ok::<ObjectId, PdfError>(t),
{
    lemma_follow_view_insert(ov, id, 0, t, x);
}

/// The objects without those that pruning removes.
pub open spec fn pruned(ov: Map<ObjectId, ObjectView>, trailer: DictView) -> Map<ObjectId, ObjectView> {
    ov.remove_keys(pruned_ids(ov, trailer).to_set())
}

/// Setting an object sets its model.
pub proof fn lemma_objects_view_insert(objects: Map<ObjectId, PdfObject>, k: ObjectId, o: PdfObject)
    ensures
        objects_view(objects.insert(k, o)) == objects_view(objects).insert(k, obj_view(o)),
{
    assert(objects_view(objects.insert(k, o)) =~= objects_view(objects).insert(k, obj_view(o)));
}

proof fn lemma_follow_found(objects: Map<ObjectId, PdfObject>, id: ObjectId, count: nat)
    requires
        objects.contains_key(id),
    ensures
        follow(objects, id, count) matches Ok(t) ==> objects.contains_key(t) && !(objects[t] is Reference),
    decreases deref_limit() - count,
{
    if count <= deref_limit() {
        match objects[id] {
            PdfObject::Reference(next) => {
                if objects.contains_key(next) && count + 1 <= deref_limit() {
                    lemma_follow_found(objects, next, count + 1);
                }
            },
            _ => {},
        }
    }
}

/// Object ids ordered as `BTreeMap` orders them: by number, then generation.
pub open spec fn id_less(a: ObjectId, b: ObjectId) -> bool {
    a.0 < b.0 || (a.0 == b.0 && a.1 < b.1)
}

/// The keys of the objects in increasing order, as a `BTreeMap` yields them.
fn sorted_keys(objects: &BTreeMap<ObjectId, PdfObject>) -> (r: Vec<ObjectId>)
    ensures
        r@.to_set() == objects@.dom(),
        r@.no_duplicates(),
        forall|i: int, j: int| 0 <= i < j < r@.len() ==> id_less(#[trigger] r@[i], #[trigger] r@[j]),
{
    proof {
        broadcast use vstd::laws_cmp::group_laws_cmp;
        assert(vstd::laws_cmp::obeys_cmp::<(u32, u16)>());
    }
    let ghost ks = vstd::std_specs::btree::spec_keys_iter(objects).remaining();
    let mut r: Vec<ObjectId> = Vec::new();
    for k in it: objects.keys()
        invariant
            it.seq() == ks,
            r@.len() == it.index(),
            forall|i: int| 0 <= i < it.index() ==> r@[i] == *ks[i],
    {
        r.push(*k);
    }
    proof {
        assert(r@ =~= ks.unref());
        assert(vstd::laws_cmp::obeys_cmp::<&(u32, u16)>());
        assert(vstd::std_specs::btree::increasing_seq(ks));
        assert forall|i: int, j: int| 0 <= i < j < r@.len() implies id_less(#[trigger] r@[i], #[trigger] r@[j]) by {
            assert(OrdSpec::cmp_spec(&ks[i], &ks[j]) is Less);
        }
    }
    r
}

impl PdfDocument {
    /// An empty document of the given version.
    pub fn with_version(version: String) -> (d: PdfDocument)
        ensures
            d.version@ == version@,
            d.trailer@ == Seq::<(Seq<u8>, crate::object::ObjectView)>::empty(),
            d.objects@ == Map::<ObjectId, PdfObject>::empty(),
            d.max_id == 0,
    {
        PdfDocument { version, trailer: PdfDictionary::new(), objects: BTreeMap::new(), max_id: 0 }
    }

    /// The ids of the objects, in increasing order.
    pub fn object_ids(&self) -> (r: Vec<ObjectId>)
        ensures
            r@.to_set() == self.objects@.dom(),
            r@.no_duplicates(),
            forall|i: int, j: int| 0 <= i < j < r@.len() ==> id_less(#[trigger] r@[i], #[trigger] r@[j]),
    {
        sorted_keys(&self.objects)
    }

    /// The id of the object that `id` leads to once references are followed.
    pub fn resolve(&self, id: ObjectId) -> (r: Result<ObjectId, PdfError>)
        ensures
            r == resolve(self.objects@, id),
            r matches Ok(t) ==> self.objects@.contains_key(t) && !(self.objects@[t] is Reference),
    {
        let ghost m = self.objects@;
        if !self.objects.contains_key(&id) {
            return Err(PdfError::ObjectNotFound);
        }
        proof {
            lemma_follow_found(m, id, 0);
        }
        let mut current = id;
        let mut count: usize = 0;
        loop
            invariant
                m == self.objects@,
                m.contains_key(current),
                m.contains_key(id),
                count <= 128,
                follow(m, id, 0) == follow(m, current, count as nat),
            decreases 129 - count,
        {
            let found = self.objects.get(&current);
            assert(found == Some(&m[current]));
            let next = match found {
                Some(PdfObject::Reference(next)) => *next,
                _ => {
                    assert(!(m[current] is Reference));
                    assert(follow(m, current, count as nat) == Ok::<ObjectId, PdfError>(current));
                    assert(resolve(m, id) == Ok::<ObjectId, PdfError>(current));
                    return Ok(current);
                },
            };
            assert(m[current] == PdfObject::Reference(next));
            if !self.objects.contains_key(&next) {
                return Err(PdfError::ObjectNotFound);
            }
            if count + 1 > 128 {
                return Err(PdfError::ReferenceLimit);
            }
            current = next;
            count = count + 1;
        }
    }

    /// The object that `id` leads to once references are followed.
    pub fn get_object(&self, id: ObjectId) -> (r: Result<&PdfObject, PdfError>)
        ensures
            r matches Ok(o) ==> resolve(self.objects@, id) matches Ok(t) && *o == self.objects@[t],
            r matches Err(e) ==> resolve(self.objects@, id) == Err::<ObjectId, PdfError>(e),
            r matches Ok(o) ==> object_at(self.objects@, id) == Ok::<ObjectView, PdfError>(obj_view(*o)),
            r matches Err(e) ==> object_at(self.objects@, id) == Err::<ObjectView, PdfError>(e),
    {
        match self.resolve(id) {
            Ok(t) => {
                match self.objects.get(&t) {
                    Some(o) => Ok(o),
                    None => Err(PdfError::ObjectNotFound),
                }
            },
            Err(e) => Err(e),
        }
    }

    /// A new object id, one past the largest.
    pub fn new_object_id(&mut self) -> (id: ObjectId)
        requires
            old(self).max_id < u32::MAX,
        ensures
            final(self).max_id == old(self).max_id + 1,
            id == (final(self).max_id, 0u16),
            final(self).objects@ == old(self).objects@,
            final(self).trailer@ == old(self).trailer@,
            final(self).version@ == old(self).version@,
    {
        self.max_id = self.max_id + 1;
        (self.max_id, 0)
    }

    /// Adds an object under a new id, one past the largest.
    pub fn add_object(&mut self, object: PdfObject) -> (id: ObjectId)
        requires
            old(self).max_id < u32::MAX,
        ensures
            final(self).max_id == old(self).max_id + 1,
            id == (final(self).max_id, 0u16),
            final(self).objects@ == old(self).objects@.insert(id, object),
            final(self).trailer@ == old(self).trailer@,
            final(self).version@ == old(self).version@,
    {
        self.max_id = self.max_id + 1;
        let id = (self.max_id, 0u16);
        self.objects.insert(id, object);
        id
    }

    /// Removes the objects that no reference reached from the trailer leads
    /// to (those that `lopdf`'s pruning finds), and gives back their ids.
    pub fn prune_objects(&mut self) -> (r: Vec<ObjectId>)
        ensures
            r@ == pruned_ids(objects_view(old(self).objects@), old(self).trailer@),
            objects_view(final(self).objects@) == pruned(objects_view(old(self).objects@), old(self).trailer@),
            final(self).trailer@ == old(self).trailer@,
            final(self).version@ == old(self).version@,
            final(self).max_id == old(self).max_id,
    {
        let ids = unused_object_ids(self);
        let ghost m0 = self.objects@;
        let mut i: usize = 0;
        assert(m0.remove_keys(ids@.take(0).to_set()) =~= m0);
        while i < ids.len()
            invariant
                i <= ids@.len(),
                self.objects@ == m0.remove_keys(ids@.take(i as int).to_set()),
                self.trailer@ == old(self).trailer@,
                self.version@ == old(self).version@,
                self.max_id == old(self).max_id,
            decreases ids@.len() - i,
        {
            let ghost before = self.objects@;
            self.objects.remove(&ids[i]);
            proof {
                assert(ids@.take(i + 1) =~= ids@.take(i as int).push(ids@[i as int]));
                ids@.take(i as int).lemma_push_to_set_commute(ids@[i as int]);
                assert(self.objects@ =~= m0.remove_keys(ids@.take(i + 1).to_set()));
            }
            i = i + 1;
        }
        proof {
            assert(ids@.take(ids@.len() as int) =~= ids@);
            assert(objects_view(self.objects@) =~= objects_view(m0).remove_keys(ids@.to_set()));
        }
        ids
    }
}

} // verus!
