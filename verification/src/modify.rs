use vstd::prelude::*;
use vstd::slice::slice_to_vec;
use vstd::string::StrSliceExecFns;
use vstd::string::StringSliceAdditionalSpecFns;
use crate::bridge::{creation_date, decompress, decompress_safe, decompressed, is_date};
use crate::content::ObjectId;
use crate::document::{
    PdfDocument, PdfError, lemma_objects_view_insert, lemma_resolve_view, objects_view, resolve, resolve_view,
};
use crate::map::Mapper;
use crate::analyze::{Marks, ResourcesPlace, map_model, modify_map, modify_map_spec};
use crate::bridge::page_tree;
use crate::constants::{CREATOR, PRODUCER};
use crate::map::ascending_ids;
use crate::traverse::{Pass, apply_pass_to_document, pass_all};
use crate::object::{
    DictView, ObjectView, PdfDictionary, PdfObject, PdfStream, StrFormat, bytes_eq, dict_get, dict_put, entries_view,
    key, lemma_entries_view, obj_view,
};

verus! {

broadcast use vstd::std_specs::btree::group_btree_axioms;

/// The model of an optional object.
pub open spec fn opt_view(o: Option<PdfObject>) -> Option<ObjectView> {
    match o {
        Some(x) => Some(obj_view(x)),
        None => None,
    }
}

/// The object with key `k` set to `v` where it stands (or added at the end),
/// and the value it replaces; `None` when the object is not a dictionary,
/// where the change is refused.
pub open spec fn put_entry(o: ObjectView, k: Seq<u8>, v: ObjectView) -> Option<(ObjectView, Option<ObjectView>)> {
    match o {
        ObjectView::Dictionary(d) => Some((ObjectView::Dictionary(dict_put(d, k, v)), dict_get(d, k))),
        _ => None,
    }
}

/// Sets key `k` of a dictionary object to `value` where it stands (or adds it
/// at the end), and gives back the value it replaces.
pub fn modify_obj(obj: &mut PdfObject, k: &[u8], value: PdfObject) -> (r: Option<PdfObject>)
    requires
        put_entry(obj_view(*old(obj)), k@, obj_view(value)) is Some,
    ensures
        put_entry(obj_view(*old(obj)), k@, obj_view(value)) == Some((obj_view(*final(obj)), opt_view(r))),
{
    match obj {
        PdfObject::Dictionary(d) => d.put(slice_to_vec(k), value),
        _ => {
            proof {
                assert(false);
            }
            None
        },
    }
}

/// A reference to the object numbered `n`.
pub open spec fn reference_to(n: u32) -> ObjectView {
    ObjectView::Reference((n, 0u16))
}

/// A page with its parent set to object 3 and its resources to object 7,
/// and the resources it had; `None` where the page is not a dictionary.
pub open spec fn page_put(o: ObjectView) -> Option<(ObjectView, Option<ObjectView>)> {
    match put_entry(o, key("Parent"@), reference_to(3)) {
        None => None,
        Some((o1, _)) => put_entry(o1, key("Resources"@), reference_to(7)),
    }
}

/// Points a page at its parent, object 3, and at its resources, object 7;
/// gives back the resources it had.
pub fn modify_page_obj(page_obj: &mut PdfObject) -> (r: Option<PdfObject>)
    requires
        page_put(obj_view(*old(page_obj))) is Some,
    ensures
        page_put(obj_view(*old(page_obj))) == Some((obj_view(*final(page_obj)), opt_view(r))),
{
    let parent = key_bytes_of("Parent");
    modify_obj(page_obj, parent.as_slice(), PdfObject::Reference((3, 0)));
    let resources = key_bytes_of("Resources");
    modify_obj(page_obj, resources.as_slice(), PdfObject::Reference((7, 0)))
}

fn key_bytes_of(s: &str) -> (r: Vec<u8>)
    ensures
        r@ == key(s@),
{
    crate::object::key_bytes(s)
}

/// Points resources at their fonts, object 8; gives back the fonts they had.
pub fn get_fonts(resources_obj: &mut PdfObject) -> (r: Option<PdfObject>)
    requires
        put_entry(obj_view(*old(resources_obj)), key("Font"@), reference_to(8)) is Some,
    ensures
        put_entry(obj_view(*old(resources_obj)), key("Font"@), reference_to(8)) == Some(
            (obj_view(*final(resources_obj)), opt_view(r)),
        ),
{
    let k = key_bytes_of("Font");
    modify_obj(resources_obj, k.as_slice(), PdfObject::Reference((8, 0)))
}

/// Points resources at their graphics states, object 9; gives back the ones
/// they had.
pub fn get_extgstate(resources_obj: &mut PdfObject) -> (r: Option<PdfObject>)
    requires
        put_entry(obj_view(*old(resources_obj)), key("ExtGState"@), reference_to(9)) is Some,
    ensures
        put_entry(obj_view(*old(resources_obj)), key("ExtGState"@), reference_to(9)) == Some(
            (obj_view(*final(resources_obj)), opt_view(r)),
        ),
{
    let k = key_bytes_of("ExtGState");
    modify_obj(resources_obj, k.as_slice(), PdfObject::Reference((9, 0)))
}

// ------------------------------------------------------------ the catalog

/// The entries of a dictionary with every value whose key is not among
/// `preserve` replaced by a null reference.
pub open spec fn purged(d: DictView, preserve: Seq<Seq<u8>>) -> DictView {
    d.map_values(
        |e: (Seq<u8>, ObjectView)|
            if preserve.contains(e.0) {
                e
            } else {
                (e.0, ObjectView::Reference((0u32, 0u16)))
            },
    )
}

/// The models of a list of byte strings.
pub open spec fn keys_view(v: Seq<Vec<u8>>) -> Seq<Seq<u8>> {
    v.map_values(|k: Vec<u8>| k@)
}

fn holds_key(keys: &Vec<Vec<u8>>, k: &[u8]) -> (r: bool)
    ensures
        r == keys_view(keys@).contains(k@),
{
    let mut i: usize = 0;
    while i < keys.len()
        invariant
            i <= keys@.len(),
            forall|j: int| 0 <= j < i ==> keys@[j]@ != k@,
        decreases keys@.len() - i,
    {
        if bytes_eq(keys[i].as_slice(), k) {
            proof {
                assert(keys_view(keys@)[i as int] == k@);
            }
            return true;
        }
        i = i + 1;
    }
    proof {
        if keys_view(keys@).contains(k@) {
            let j = choose|j: int| 0 <= j < keys_view(keys@).len() && keys_view(keys@)[j] == k@;
            assert(keys@[j]@ == k@);
        }
    }
    false
}

/// Replaces by a null reference every value of the catalog whose key is not
/// among `preserve`; refused with a type error when it is not a dictionary.
pub fn purge_root(root_obj: &mut PdfObject, preserve: Vec<Vec<u8>>) -> (r: Result<(), PdfError>)
    ensures
        match obj_view(*old(root_obj)) {
            ObjectView::Dictionary(d) => r is Ok && obj_view(*final(root_obj)) == ObjectView::Dictionary(
                purged(d, keys_view(preserve@)),
            ),
            _ => r == Err::<(), PdfError>(PdfError::Type) && *final(root_obj) == *old(root_obj),
        },
{
    match root_obj {
        PdfObject::Dictionary(d) => {
            let ghost before = d.entries@;
            let ghost pv = keys_view(preserve@);
            proof {
                lemma_entries_view(before);
            }
            let mut i: usize = 0;
            while i < d.entries.len()
                invariant
                    i <= d.entries@.len(),
                    d.entries@.len() == before.len(),
                    pv == keys_view(preserve@),
                    forall|j: int|
                        0 <= j < before.len() ==> (#[trigger] d.entries@[j]).0@ == before[j].0@ && obj_view(d.entries@[j].1) == if j < i && !pv.contains(before[j].0@) {
                            ObjectView::Reference((0u32, 0u16))
                        } else {
                            obj_view(before[j].1)
                        },
                decreases before.len() - i,
            {
                if !holds_key(&preserve, d.entries[i].0.as_slice()) {
                    let k = d.entries[i].0.clone();
                    d.entries.set(i, (k, PdfObject::Reference((0, 0))));
                }
                i = i + 1;
            }
            proof {
                lemma_entries_view(d.entries@);
                assert(entries_view(d.entries@) =~= purged(entries_view(before), pv));
            }
            Ok(())
        },
        _ => Err(PdfError::Type),
    }
}

// ------------------------------------------------------------ the info dictionary

/// The information dictionary: creator, producer and a creation date.
pub open spec fn is_info(o: ObjectView, creator: Seq<u8>, producer: Seq<u8>) -> bool {
    &&& o matches ObjectView::Dictionary(d)
    &&& d.len() == 3
    &&& d[0] == (key("Creator"@), ObjectView::String(creator, StrFormat::Literal))
    &&& d[1] == (key("Producer"@), ObjectView::String(producer, StrFormat::Literal))
    &&& d[2].0 == key("CreationDate"@)
    &&& is_date(d[2].1)
}

/// The information dictionary naming `creater` and `producer`, dated now.
pub fn create_info_obj(creater: &str, producer: &str) -> (o: PdfObject)
    ensures
        is_info(obj_view(o), creater.spec_bytes(), producer.spec_bytes()),
{
    let mut entries: Vec<(Vec<u8>, PdfObject)> = Vec::new();
    entries.push((key_bytes_of("Creator"), PdfObject::String(creater.as_bytes_vec(), StrFormat::Literal)));
    entries.push((key_bytes_of("Producer"), PdfObject::string_literal(producer.as_bytes_vec())));
    entries.push((key_bytes_of("CreationDate"), creation_date()));
    proof {
        lemma_entries_view(entries@);
    }
    PdfObject::Dictionary(PdfDictionary { entries })
}

// ------------------------------------------------------------ content streams

/// One step of collecting the page's content: the stream that `id` leads to
/// is decompressed and emptied, and its content, after a line feed, is
/// what the step gives; anything else gives nothing.
pub open spec fn collect_step(objects: Map<ObjectId, ObjectView>, id: ObjectId) -> (Map<ObjectId, ObjectView>, Seq<u8>) {
    match resolve_view(objects, id) {
        Ok(t) => match objects[t] {
            ObjectView::Stream(d, c, a, p) => {
                let dc = decompressed(d, c);
                (objects.insert(t, ObjectView::Stream(dc.0, Seq::empty(), a, p)), seq![10u8] + dc.1)
            },
            _ => (objects, Seq::empty()),
        },
        Err(_) => (objects, Seq::empty()),
    }
}

/// The objects after collecting the streams `ids`, in order, and the bytes
/// collected.
pub open spec fn collected(objects: Map<ObjectId, ObjectView>, ids: Seq<ObjectId>) -> (Map<ObjectId, ObjectView>, Seq<u8>)
    decreases ids.len(),
{
    if ids.len() == 0 {
        (objects, Seq::empty())
    } else {
        let prev = collected(objects, ids.drop_last());
        let step = collect_step(prev.0, ids.last());
        (step.0, prev.1 + step.1)
    }
}

/// Whether each step of collecting the streams `ids` can decompress the
/// stream it meets (see [`decompress_safe`]).
pub open spec fn collect_safe(objects: Map<ObjectId, ObjectView>, ids: Seq<ObjectId>) -> bool
    decreases ids.len(),
{
    if ids.len() == 0 {
        true
    } else {
        let prev = collected(objects, ids.drop_last()).0;
        &&& collect_safe(objects, ids.drop_last())
        &&& match resolve_view(prev, ids.last()) {
            Ok(t) => match prev[t] {
                ObjectView::Stream(d, _, _, _) => decompress_safe(d),
                _ => true,
            },
            Err(_) => true,
        }
    }
}

proof fn lemma_collect_safe_prefix(objects: Map<ObjectId, ObjectView>, ids: Seq<ObjectId>, n: int)
    requires
        collect_safe(objects, ids),
        0 <= n <= ids.len(),
    ensures
        collect_safe(objects, ids.take(n)),
    decreases ids.len(),
{
    if n == ids.len() {
        assert(ids.take(n) =~= ids);
    } else {
        lemma_collect_safe_prefix(objects, ids.drop_last(), n);
        assert(ids.drop_last().take(n) =~= ids.take(n));
    }
}

/// A stream with an empty dictionary and the given content.
pub open spec fn plain_stream(content: Seq<u8>) -> ObjectView {
    ObjectView::Stream(Seq::empty(), content, true, None)
}

/// Joins the page's content streams into one: each stream that an id leads
/// to is decompressed and its content, after a line feed, moved into the new
/// stream.
pub fn collect_streams(doc: &mut PdfDocument, stream_id: &Vec<ObjectId>) -> (r: PdfObject)
    requires
        collect_safe(objects_view(old(doc).objects@), stream_id@),
    ensures
        ({
            let c = collected(objects_view(old(doc).objects@), stream_id@);
            &&& objects_view(final(doc).objects@) == c.0
            &&& obj_view(r) == plain_stream(c.1)
        }),
        final(doc).trailer == old(doc).trailer,
        final(doc).version == old(doc).version,
        final(doc).max_id == old(doc).max_id,
{
    let mut streams: Vec<u8> = Vec::new();
    let mut i: usize = 0;
    while i < stream_id.len()
        invariant
            i <= stream_id@.len(),
            ({
                let c = collected(objects_view(old(doc).objects@), stream_id@.take(i as int));
                &&& objects_view(doc.objects@) == c.0
                &&& streams@ == c.1
            }),
            doc.trailer == old(doc).trailer,
            doc.version == old(doc).version,
            doc.max_id == old(doc).max_id,
            collect_safe(objects_view(old(doc).objects@), stream_id@),
        decreases stream_id@.len() - i,
    {
        let id = stream_id[i];
        let ghost before = doc.objects@;
        proof {
            assert(stream_id@.take(i + 1).drop_last() =~= stream_id@.take(i as int));
            lemma_resolve_view(before, id);
            lemma_collect_safe_prefix(objects_view(old(doc).objects@), stream_id@, i + 1);
        }
        match doc.resolve(id) {
            Ok(t) => {
                let taken = doc.objects.remove(&t);
                match taken {
                    Some(PdfObject::Stream(mut s)) => {
                        decompress(&mut s);
                        streams.push(10u8);
                        streams.append(&mut s.content);
                        let ghost s2 = s;
                        doc.objects.insert(t, PdfObject::Stream(s));
                        proof {
                            assert(before.remove(t).insert(t, PdfObject::Stream(s2)) =~= before.insert(t, PdfObject::Stream(s2)));
                            lemma_objects_view_insert(before, t, PdfObject::Stream(s2));
                        }
                    },
                    Some(other) => {
                        doc.objects.insert(t, other);
                        proof {
                            assert(before.remove(t).insert(t, other) =~= before);
                        }
                    },
                    None => {},
                }
            },
            Err(_) => {},
        }
        i = i + 1;
    }
    proof {
        assert(stream_id@.take(stream_id@.len() as int) =~= stream_id@);
    }
    PdfObject::Stream(
        PdfStream {
            dict: PdfDictionary::new(),
            content: streams,
            allows_compression: true,
            start_position: None,
        },
    )
}

// ------------------------------------------------------------ renumbering

/// The objects left behind and the objects moved after taking, for each
/// position `i` of the map in turn, the object its id leads to and putting it
/// at `(i, 0)`, a null in its place.
pub open spec fn moved(objects: Map<ObjectId, ObjectView>, entries: Seq<Option<ObjectId>>) -> (
    Map<ObjectId, ObjectView>,
    Map<ObjectId, ObjectView>,
)
    decreases entries.len(),
{
    if entries.len() == 0 {
        (objects, Map::empty())
    } else {
        let prev = moved(objects, entries.drop_last());
        let i = entries.len() - 1;
        match entries.last() {
            Some(id) => match resolve_view(prev.0, id) {
                Ok(t) => (prev.0.insert(t, ObjectView::Null), prev.1.insert((i as u32, 0u16), prev.0[t])),
                Err(_) => prev,
            },
            None => prev,
        }
    }
}

/// A new document (version 1.4) holding the objects of `doc` at their new
/// numbers: the object that the id at position `i` of the map leads to
/// becomes object `(i, 0)`; the largest id is the largest new number.
pub fn remap_objects(doc: PdfDocument, mapper: &Mapper) -> (patched: PdfDocument)
    requires
        1 <= mapper.entries().len() <= u32::MAX + 1,
    ensures
        objects_view(patched.objects@) == moved(objects_view(doc.objects@), mapper.entries()).1,
        patched.version@ == "1.4"@,
        patched.trailer@ == Seq::<(Seq<u8>, ObjectView)>::empty(),
        patched.max_id == mapper.entries().len() - 1,
{
    let mut doc = doc;
    let ghost start = objects_view(doc.objects@);
    let mut patched_doc = PdfDocument::with_version("1.4".to_string());
    let n = mapper.len();
    let mut k: usize = 0;
    while k < n
        invariant
            k <= n,
            n == mapper.entries().len() - 1,
            n <= u32::MAX,
            patched_doc.max_id == k,
            patched_doc.objects@ == Map::<ObjectId, PdfObject>::empty(),
            patched_doc.version@ == "1.4"@,
            patched_doc.trailer@ == Seq::<(Seq<u8>, ObjectView)>::empty(),
        decreases n - k,
    {
        patched_doc.new_object_id();
        k = k + 1;
    }
    let entries = mapper.iter();
    let mut i: usize = 0;
    proof {
        assert(objects_view(patched_doc.objects@) =~= Map::<ObjectId, ObjectView>::empty());
        assert(entries@.take(0) =~= Seq::<Option<ObjectId>>::empty());
    }
    while i < entries.len()
        invariant
            i <= entries@.len(),
            entries@ == mapper.entries(),
            entries@.len() <= u32::MAX + 1,
            ({
                let m = moved(start, entries@.take(i as int));
                &&& objects_view(doc.objects@) == m.0
                &&& objects_view(patched_doc.objects@) == m.1
            }),
            patched_doc.max_id == n,
            patched_doc.version@ == "1.4"@,
            patched_doc.trailer@ == Seq::<(Seq<u8>, ObjectView)>::empty(),
        decreases entries@.len() - i,
    {
        proof {
            assert(entries@.take(i + 1).drop_last() =~= entries@.take(i as int));
        }
        if let Some(id) = entries[i] {
            let ghost before = doc.objects@;
            proof {
                lemma_resolve_view(before, id);
            }
            match doc.resolve(id) {
                Ok(t) => {
                    let taken = doc.objects.remove(&t);
                    doc.objects.insert(t, PdfObject::Null);
                    proof {
                        assert(before.remove(t).insert(t, PdfObject::Null) =~= before.insert(t, PdfObject::Null));
                        lemma_objects_view_insert(before, t, PdfObject::Null);
                    }
                    match taken {
                        Some(obj) => {
                            let ghost pb = patched_doc.objects@;
                            patched_doc.objects.insert((i as u32, 0), obj);
                            proof {
                                lemma_objects_view_insert(pb, (i as u32, 0u16), obj);
                            }
                        },
                        None => {},
                    }
                },
                Err(_) => {},
            }
        }
        i = i + 1;
    }
    proof {
        assert(entries@.take(entries@.len() as int) =~= entries@);
    }
    patched_doc
}

/// The model of a document's objects after its references are renumbered
/// by the map and the null references and empty arrays left are cleaned up.
pub open spec fn refs_remapped(ov: Map<ObjectId, ObjectView>, map: Seq<Option<ObjectId>>) -> Map<ObjectId, ObjectView> {
    pass_all(pass_all(pass_all(ov, Pass::Renumber, map), Pass::CleanArrays, map), Pass::CleanDicts, map)
}

/// Renumbers every reference of the document's objects by the map, then
/// cleans up the null references left.
pub fn remap_refrences(doc: &mut PdfDocument, mapper: &Mapper)
    ensures
        objects_view(final(doc).objects@) == refs_remapped(objects_view(old(doc).objects@), mapper.entries()),
        final(doc).trailer == old(doc).trailer,
        final(doc).version == old(doc).version,
        final(doc).max_id == old(doc).max_id,
{
    apply_pass_to_document(doc, Pass::Renumber, mapper);
    clean_doc(doc, mapper);
}

/// Drops the null references at the front of every array, then every
/// dictionary entry that is a null reference or an empty array.
pub fn clean_doc(doc: &mut PdfDocument, mapper: &Mapper)
    ensures
        objects_view(final(doc).objects@) == pass_all(
            pass_all(objects_view(old(doc).objects@), Pass::CleanArrays, mapper.entries()),
            Pass::CleanDicts,
            mapper.entries(),
        ),
        final(doc).trailer == old(doc).trailer,
        final(doc).version == old(doc).version,
        final(doc).max_id == old(doc).max_id,
{
    apply_pass_to_document(doc, Pass::CleanArrays, mapper);
    apply_pass_to_document(doc, Pass::CleanDicts, mapper);
}

// ------------------------------------------------------------ marks

/// An empty dictionary.
pub open spec fn empty_dict() -> ObjectView {
    ObjectView::Dictionary(Seq::empty())
}

/// The document's objects with the object that `id` leads to changed by
/// setting `k1` to `v1`, then `k2` to `v2`; unchanged when `id` leads nowhere;
/// `None` when that object is not a dictionary.
pub open spec fn put2_at(
    ov: Map<ObjectId, ObjectView>,
    id: ObjectId,
    k1: Seq<u8>,
    v1: ObjectView,
    k2: Seq<u8>,
    v2: ObjectView,
) -> Option<Map<ObjectId, ObjectView>> {
    match resolve_view(ov, id) {
        Ok(t) => match put_entry(ov[t], k1, v1) {
            None => None,
            Some((o1, _)) => match put_entry(o1, k2, v2) {
                None => None,
                Some((o2, _)) => Some(ov.insert(t, o2)),
            },
        },
        Err(_) => Some(ov),
    }
}

/// The document's objects with the object that `id` leads to changed by
/// setting `k` to `v`; as [`put2_at`] otherwise.
pub open spec fn put_at(ov: Map<ObjectId, ObjectView>, id: ObjectId, k: Seq<u8>, v: ObjectView) -> Option<
    Map<ObjectId, ObjectView>,
> {
    match resolve_view(ov, id) {
        Ok(t) => match put_entry(ov[t], k, v) {
            None => None,
            Some((o1, _)) => Some(ov.insert(t, o1)),
        },
        Err(_) => Some(ov),
    }
}

/// When `flag`, the object that `id` leads to gets its entry `k` pointed at
/// object `n`, and what the entry held becomes object `n`.
pub open spec fn take_out(ov: Map<ObjectId, ObjectView>, id: ObjectId, k: Seq<u8>, n: u32, flag: bool) -> Option<
    Map<ObjectId, ObjectView>,
> {
    if !flag {
        Some(ov)
    } else {
        match resolve_view(ov, id) {
            Ok(t) => match put_entry(ov[t], k, reference_to(n)) {
                None => None,
                Some((o1, old)) => Some(
                    match old {
                        Some(f) => ov.insert(t, o1).insert((n, 0u16), f),
                        None => ov.insert(t, o1),
                    },
                ),
            },
            Err(_) => Some(ov),
        }
    }
}

/// When `flag`, the page that `id` leads to is pointed at objects 3 and 7,
/// and the resources it held become object 7 (an empty dictionary when it
/// held none).
pub open spec fn extract_resources(ov: Map<ObjectId, ObjectView>, id: ObjectId, flag: bool) -> Option<Map<ObjectId, ObjectView>> {
    if !flag {
        Some(ov)
    } else {
        match resolve_view(ov, id) {
            Ok(t) => match page_put(ov[t]) {
                None => None,
                Some((o1, old)) => Some(
                    ov.insert(t, o1).insert(
                        (7u32, 0u16),
                        match old {
                            Some(r) => r,
                            None => empty_dict(),
                        },
                    ),
                ),
            },
            Err(_) => Some(ov),
        }
    }
}

/// The page tree root (what object 3 leads to) without its resources.
pub open spec fn root_without_resources(ov: Map<ObjectId, ObjectView>) -> Map<ObjectId, ObjectView> {
    match resolve_view(ov, (3u32, 0u16)) {
        Ok(t) => match ov[t] {
            ObjectView::Dictionary(d) => ov.insert(t, ObjectView::Dictionary(crate::object::dict_remove(d, key("Resources"@)))),
            _ => ov,
        },
        Err(_) => ov,
    }
}

/// The objects with an empty dictionary at `id` when there is no object there.
pub open spec fn with_default(ov: Map<ObjectId, ObjectView>, id: ObjectId) -> Map<ObjectId, ObjectView> {
    if ov.contains_key(id) {
        ov
    } else {
        ov.insert(id, empty_dict())
    }
}

/// The id of the object that holds the resources, once renumbered.
pub open spec fn resources_id_of(place: ResourcesPlace, max_id: u32) -> ObjectId {
    match place {
        ResourcesPlace::RootPage => (3u32, 0u16),
        ResourcesPlace::CurrentPage => (4u32, 0u16),
        ResourcesPlace::LastObject => (max_id, 0u16),
    }
}

/// An array of references to the given numbers.
pub open spec fn refs(ns: Seq<u32>) -> ObjectView {
    ObjectView::Array(ns.map_values(|n: u32| reference_to(n)))
}

/// What `apply_marks` makes of the objects of a renumbered document: the
/// objects after each of its steps in turn; `None` where a step is refused
/// (an object to change is not a dictionary).
pub open spec fn apply_marks_spec(ov: Map<ObjectId, ObjectView>, max_id: u32, marks: Marks) -> Option<Map<ObjectId, ObjectView>> {
    let rid = resources_id_of(marks.resources_object_dereference, max_id);
    match extract_resources(ov, rid, marks.from_page_extract_resources) {
        None => None,
        Some(o1) => match put2_at(o1, (4u32, 0u16), key("Parent"@), reference_to(3), key("Resources"@), reference_to(7)) {
            None => None,
            Some(o2) => {
                let o4 = with_default(root_without_resources(o2), (8u32, 0u16));
                match take_out(o4, (7u32, 0u16), key("Font"@), 8, marks.from_resources_extract_fonts) {
                    None => None,
                    Some(o5) => {
                        let o6 = with_default(o5, (9u32, 0u16));
                        match take_out(o6, (7u32, 0u16), key("ExtGState"@), 9, marks.from_resources_extract_extgstate) {
                            None => None,
                            Some(o7) => match put2_at(
                                o7,
                                (7u32, 0u16),
                                key("Font"@),
                                reference_to(8),
                                key("ExtGState"@),
                                reference_to(9),
                            ) {
                                None => None,
                                Some(o8) => match put2_at(
                                    o8,
                                    (3u32, 0u16),
                                    key("Kids"@),
                                    refs(seq![4u32]),
                                    key("Count"@),
                                    ObjectView::Integer(1),
                                ) {
                                    None => None,
                                    Some(o9) => put_at(o9, (4u32, 0u16), key("Contents"@), refs(seq![5u32, 6u32])),
                                },
                            },
                        }
                    },
                }
            },
        }
    }
}

/// The document changed only in its objects.
pub open spec fn same_frame(a: PdfDocument, b: PdfDocument) -> bool {
    &&& a.trailer == b.trailer
    &&& a.version == b.version
    &&& a.max_id == b.max_id
}

/// Takes the object that `id` leads to out of the document, changes it, and
/// puts it back.
fn put2_in(doc: &mut PdfDocument, id: ObjectId, k1: &[u8], v1: PdfObject, k2: &[u8], v2: PdfObject)
    requires
        put2_at(objects_view(old(doc).objects@), id, k1@, obj_view(v1), k2@, obj_view(v2)) is Some,
    ensures
        objects_view(final(doc).objects@) == put2_at(objects_view(old(doc).objects@), id, k1@, obj_view(v1), k2@, obj_view(v2))->0,
        same_frame(*final(doc), *old(doc)),
{
    let ghost before = doc.objects@;
    proof {
        lemma_resolve_view(before, id);
    }
    match doc.resolve(id) {
        Ok(t) => {
            match doc.objects.remove(&t) {
                Some(mut o) => {
                    modify_obj(&mut o, k1, v1);
                    modify_obj(&mut o, k2, v2);
                    doc.objects.insert(t, o);
                    proof {
                        assert(before.remove(t).insert(t, o) =~= before.insert(t, o));
                        lemma_objects_view_insert(before, t, o);
                    }
                },
                None => {},
            }
        },
        Err(_) => {},
    }
}

fn put_in(doc: &mut PdfDocument, id: ObjectId, k: &[u8], v: PdfObject)
    requires
        put_at(objects_view(old(doc).objects@), id, k@, obj_view(v)) is Some,
    ensures
        objects_view(final(doc).objects@) == put_at(objects_view(old(doc).objects@), id, k@, obj_view(v))->0,
        same_frame(*final(doc), *old(doc)),
{
    let ghost before = doc.objects@;
    proof {
        lemma_resolve_view(before, id);
    }
    match doc.resolve(id) {
        Ok(t) => {
            match doc.objects.remove(&t) {
                Some(mut o) => {
                    modify_obj(&mut o, k, v);
                    doc.objects.insert(t, o);
                    proof {
                        assert(before.remove(t).insert(t, o) =~= before.insert(t, o));
                        lemma_objects_view_insert(before, t, o);
                    }
                },
                None => {},
            }
        },
        Err(_) => {},
    }
}

fn take_out_in(doc: &mut PdfDocument, id: ObjectId, k: &[u8], n: u32, flag: bool)
    requires
        take_out(objects_view(old(doc).objects@), id, k@, n, flag) is Some,
    ensures
        objects_view(final(doc).objects@) == take_out(objects_view(old(doc).objects@), id, k@, n, flag)->0,
        same_frame(*final(doc), *old(doc)),
{
    if !flag {
        return;
    }
    let ghost before = doc.objects@;
    proof {
        lemma_resolve_view(before, id);
    }
    match doc.resolve(id) {
        Ok(t) => {
            match doc.objects.remove(&t) {
                Some(mut o) => {
                    let old_value = modify_obj(&mut o, k, PdfObject::Reference((n, 0)));
                    doc.objects.insert(t, o);
                    proof {
                        assert(before.remove(t).insert(t, o) =~= before.insert(t, o));
                        lemma_objects_view_insert(before, t, o);
                    }
                    match old_value {
                        Some(f) => {
                            let ghost mid = doc.objects@;
                            doc.objects.insert((n, 0), f);
                            proof {
                                lemma_objects_view_insert(mid, (n, 0u16), f);
                            }
                        },
                        None => {},
                    }
                },
                None => {},
            }
        },
        Err(_) => {},
    }
}

fn extract_resources_in(doc: &mut PdfDocument, id: ObjectId, flag: bool)
    requires
        extract_resources(objects_view(old(doc).objects@), id, flag) is Some,
    ensures
        objects_view(final(doc).objects@) == extract_resources(objects_view(old(doc).objects@), id, flag)->0,
        same_frame(*final(doc), *old(doc)),
{
    if !flag {
        return;
    }
    let ghost before = doc.objects@;
    proof {
        lemma_resolve_view(before, id);
    }
    match doc.resolve(id) {
        Ok(t) => {
            match doc.objects.remove(&t) {
                Some(mut o) => {
                    let old_value = modify_page_obj(&mut o);
                    doc.objects.insert(t, o);
                    proof {
                        assert(before.remove(t).insert(t, o) =~= before.insert(t, o));
                        lemma_objects_view_insert(before, t, o);
                    }
                    let ghost mid = doc.objects@;
                    let value = match old_value {
                        Some(r) => r,
                        None => PdfObject::Dictionary(PdfDictionary::new()),
                    };
                    doc.objects.insert((7, 0), value);
                    proof {
                        lemma_objects_view_insert(mid, (7u32, 0u16), value);
                    }
                },
                None => {},
            }
        },
        Err(_) => {},
    }
}

fn drop_root_resources(doc: &mut PdfDocument)
    ensures
        objects_view(final(doc).objects@) == root_without_resources(objects_view(old(doc).objects@)),
        same_frame(*final(doc), *old(doc)),
{
    let ghost before = doc.objects@;
    proof {
        lemma_resolve_view(before, (3u32, 0u16));
    }
    match doc.resolve((3, 0)) {
        Ok(t) => {
            match doc.objects.remove(&t) {
                Some(mut o) => {
                    let k = key_bytes_of("Resources");
                    if let PdfObject::Dictionary(d) = &mut o {
                        d.remove(k.as_slice());
                    }
                    doc.objects.insert(t, o);
                    proof {
                        assert(before.remove(t).insert(t, o) =~= before.insert(t, o));
                        lemma_objects_view_insert(before, t, o);
                    }
                },
                None => {},
            }
        },
        Err(_) => {},
    }
}

fn insert_default(doc: &mut PdfDocument, id: ObjectId)
    ensures
        objects_view(final(doc).objects@) == with_default(objects_view(old(doc).objects@), id),
        same_frame(*final(doc), *old(doc)),
{
    if !doc.objects.contains_key(&id) {
        let ghost before = doc.objects@;
        let value = PdfObject::Dictionary(PdfDictionary::new());
        doc.objects.insert(id, value);
        proof {
            lemma_objects_view_insert(before, id, value);
        }
    }
}

fn refs_array(ns: Vec<u32>) -> (r: PdfObject)
    ensures
        obj_view(r) == refs(ns@),
{
    let mut v: Vec<PdfObject> = Vec::new();
    let mut i: usize = 0;
    while i < ns.len()
        invariant
            i <= ns@.len(),
            v@.len() == i,
            forall|j: int| 0 <= j < i ==> obj_view(#[trigger] v@[j]) == reference_to(ns@[j]),
        decreases ns@.len() - i,
    {
        v.push(PdfObject::Reference((ns[i], 0)));
        i = i + 1;
    }
    proof {
        crate::object::lemma_array_view(v@);
        assert(crate::object::array_view(v@) =~= ns@.map_values(|n: u32| reference_to(n)));
    }
    PdfObject::Array(v)
}

/// Applies the marks to a renumbered document: the page points at its parent
/// (3) and resources (7), the resources at their fonts (8) and graphics
/// states (9), what was inline is taken out to those numbers, the page tree
/// root holds only the page, and the page's contents are objects 5 and 6.
pub fn apply_marks(doc: &mut PdfDocument, marks: &Marks)
    requires
        apply_marks_spec(objects_view(old(doc).objects@), old(doc).max_id, *marks) is Some,
    ensures
        objects_view(final(doc).objects@) == apply_marks_spec(objects_view(old(doc).objects@), old(doc).max_id, *marks)->0,
        same_frame(*final(doc), *old(doc)),
{
    let resources_id = match marks.resources_object_dereference {
        ResourcesPlace::RootPage => (3u32, 0u16),
        ResourcesPlace::CurrentPage => (4u32, 0u16),
        ResourcesPlace::LastObject => (doc.max_id, 0u16),
    };
    extract_resources_in(doc, resources_id, marks.from_page_extract_resources);
    let parent = key_bytes_of("Parent");
    let resources = key_bytes_of("Resources");
    put2_in(doc, (4, 0), parent.as_slice(), PdfObject::Reference((3, 0)), resources.as_slice(), PdfObject::Reference((7, 0)));
    drop_root_resources(doc);
    insert_default(doc, (8, 0));
    let font = key_bytes_of("Font");
    take_out_in(doc, (7, 0), font.as_slice(), 8, marks.from_resources_extract_fonts);
    insert_default(doc, (9, 0));
    let extgstate = key_bytes_of("ExtGState");
    take_out_in(doc, (7, 0), extgstate.as_slice(), 9, marks.from_resources_extract_extgstate);
    put2_in(doc, (7, 0), font.as_slice(), PdfObject::Reference((8, 0)), extgstate.as_slice(), PdfObject::Reference((9, 0)));
    let kids = key_bytes_of("Kids");
    let count = key_bytes_of("Count");
    let mut four: Vec<u32> = Vec::new();
    four.push(4);
    assert(four@ =~= seq![4u32]);
    put2_in(doc, (3, 0), kids.as_slice(), refs_array(four), count.as_slice(), PdfObject::Integer(1));
    let contents = key_bytes_of("Contents");
    let mut five_six: Vec<u32> = Vec::new();
    five_six.push(5);
    five_six.push(6);
    assert(five_six@ =~= seq![5u32, 6u32]);
    put_in(doc, (4, 0), contents.as_slice(), refs_array(five_six));
}

// ------------------------------------------------------------ the patched document

/// The keys of the catalog that patching keeps.
pub open spec fn catalog_keys() -> Seq<Seq<u8>> {
    seq![key("Type"@), key("Pages"@), key("Lang"@)]
}

/// The objects with the catalog (what object 2 leads to) purged of all but
/// its kept keys.
pub open spec fn catalog_purged(ov: Map<ObjectId, ObjectView>) -> Map<ObjectId, ObjectView> {
    match resolve_view(ov, (2u32, 0u16)) {
        Ok(t) => match ov[t] {
            ObjectView::Dictionary(d) => ov.insert(t, ObjectView::Dictionary(purged(d, catalog_keys()))),
            _ => ov,
        },
        Err(_) => ov,
    }
}

/// The trailer of a patched document: the catalog is object 2, the
/// information dictionary object 1.
pub open spec fn patched_trailer() -> DictView {
    seq![(key("Root"@), reference_to(2)), (key("Info"@), reference_to(1))]
}

/// The objects of the document made from `ov` with the map `entries` and the
/// content streams `streams`, but its information dictionary: the streams are
/// collected into object 5, the objects renumbered, the catalog purged, the
/// references renumbered and cleaned.
pub open spec fn created_objects(ov: Map<ObjectId, ObjectView>, entries: Seq<Option<ObjectId>>, streams: Seq<ObjectId>) -> Map<
    ObjectId,
    ObjectView,
> {
    let c = collected(ov, streams);
    let m = moved(c.0, entries).1;
    refs_remapped(catalog_purged(m), entries).insert((5u32, 0u16), plain_stream(c.1))
}

fn purge_catalog(doc: &mut PdfDocument)
    ensures
        objects_view(final(doc).objects@) == catalog_purged(objects_view(old(doc).objects@)),
        same_frame(*final(doc), *old(doc)),
{
    let ghost before = doc.objects@;
    proof {
        lemma_resolve_view(before, (2u32, 0u16));
    }
    match doc.resolve((2, 0)) {
        Ok(t) => {
            match doc.objects.remove(&t) {
                Some(mut o) => {
                    let mut preserve: Vec<Vec<u8>> = Vec::new();
                    preserve.push(key_bytes_of("Type"));
                    preserve.push(key_bytes_of("Pages"));
                    preserve.push(key_bytes_of("Lang"));
                    assert(keys_view(preserve@) =~= catalog_keys());
                    let _ = purge_root(&mut o, preserve);
                    doc.objects.insert(t, o);
                    proof {
                        assert(before.remove(t).insert(t, o) =~= before.insert(t, o));
                        lemma_objects_view_insert(before, t, o);
                    }
                },
                None => {},
            }
        },
        Err(_) => {},
    }
}

/// Builds the patched document from the original and its map: the content
/// streams joined into object 5, the objects at their new numbers, the
/// catalog purged, the references renumbered and cleaned, the trailer naming
/// the catalog (2) and a new information dictionary (1).
pub fn create_doc(input_doc: PdfDocument, mapper: Mapper) -> (patched: PdfDocument)
    requires
        1 <= mapper.entries().len() <= u32::MAX + 1,
        collect_safe(objects_view(input_doc.objects@), mapper.streams()),
    ensures
        objects_view(patched.objects@) == created_objects(objects_view(input_doc.objects@), mapper.entries(), mapper.streams()).insert(
            (1u32, 0u16),
            objects_view(patched.objects@)[(1u32, 0u16)],
        ),
        is_info(objects_view(patched.objects@)[(1u32, 0u16)], CREATOR.spec_bytes(), PRODUCER.spec_bytes()),
        patched.trailer@ == patched_trailer(),
        patched.version@ == "1.4"@,
        patched.max_id == mapper.entries().len() - 1,
{
    let mut input_doc = input_doc;
    let ghost ov = objects_view(input_doc.objects@);
    let stream = collect_streams(&mut input_doc, mapper.get_stream_ids());
    let mut patched_doc = remap_objects(input_doc, &mapper);
    purge_catalog(&mut patched_doc);
    remap_refrences(&mut patched_doc, &mapper);
    let root_key = key_bytes_of("Root");
    let info_key = key_bytes_of("Info");
    let ghost t0 = patched_doc.trailer@;
    patched_doc.trailer.set(root_key, PdfObject::Reference((2, 0)));
    proof {
        crate::object::lemma_key_index_none(t0, key("Root"@));
        reveal_strlit("Root");
        reveal_strlit("Info");
        let t1 = patched_doc.trailer@;
        assert(t1 =~= seq![(key("Root"@), reference_to(2))]);
        assert(t1[0].0[0] != key("Info"@)[0]);
        crate::object::lemma_key_index_none(t1, key("Info"@));
    }
    patched_doc.trailer.set(info_key, PdfObject::Reference((1, 0)));
    assert(patched_doc.trailer@ =~= patched_trailer());
    let info_obj = create_info_obj(CREATOR, PRODUCER);
    let ghost b1 = patched_doc.objects@;
    patched_doc.objects.insert((1, 0), info_obj);
    let ghost b2 = patched_doc.objects@;
    let stream_view = Ghost(obj_view(stream));
    patched_doc.objects.insert((5, 0), stream);
    proof {
        lemma_objects_view_insert(b1, (1u32, 0u16), info_obj);
        lemma_objects_view_insert(b2, (5u32, 0u16), stream);
        let base = objects_view(b1);
        assert(objects_view(patched_doc.objects@) =~= base.insert((5u32, 0u16), stream_view@).insert((1u32, 0u16), obj_view(info_obj)));
    }
    patched_doc
}

/// The map that `Mapper::new` makes for a document whose ids are `dom`.
pub open spec fn fresh_map(e: Seq<Option<ObjectId>>, dom: Set<ObjectId>) -> bool {
    &&& e.len() == dom.len() + 1
    &&& e[0] is None
    &&& ascending_ids(e.drop_first().map_values(|x: Option<ObjectId>| x->0), dom)
    &&& forall|i: int| 1 <= i < e.len() ==> #[trigger] e[i] is Some
}

/// What patching page `x` of `doc` gives, for the fresh map `e` and the
/// information dictionary `info`: the objects of the patched document or the
/// error; `None` where a step is refused.
#[verifier::opaque]
pub open spec fn patched_spec(doc: PdfDocument, e: Seq<Option<ObjectId>>, x: u32, info: ObjectView) -> Option<
    Result<Map<ObjectId, ObjectView>, PdfError>,
> {
    match modify_map_spec(doc.objects@, doc.trailer@, page_tree(objects_view(doc.objects@), doc.trailer@), (e, Seq::empty()), x) {
        None => None,
        Some((Err(err), _)) => Some(Err(err)),
        Some((Ok(marks), m)) => if 1 <= m.0.len() <= u32::MAX + 1 && collect_safe(objects_view(doc.objects@), m.1) {
            let ov = created_objects(objects_view(doc.objects@), m.0, m.1).insert((1u32, 0u16), info);
            match apply_marks_spec(ov, (m.0.len() - 1) as u32, marks) {
                None => None,
                Some(o) => Some(Ok(o)),
            }
        } else {
            None
        },
    }
}

/// Patches page `x` of a document: renumbers its objects so that the
/// catalog, page tree root, page, contents, resources and fonts have fixed
/// numbers, joins the page's content into one stream, and points the page
/// at fixed objects; gives the new document, or the error met on the way.
pub fn modify_main(input_doc: PdfDocument, page: u32) -> (r: Result<PdfDocument, PdfError>)
    requires
        forall|e: Seq<Option<ObjectId>>, info: ObjectView|
            #![trigger patched_spec(input_doc, e, page, info)]
            fresh_map(e, input_doc.objects@.dom()) && is_info(info, CREATOR.spec_bytes(), PRODUCER.spec_bytes())
                ==> patched_spec(input_doc, e, page, info) is Some,
    ensures
        exists|e: Seq<Option<ObjectId>>, info: ObjectView|
            #![trigger patched_spec(input_doc, e, page, info)]
            {
                &&& fresh_map(e, input_doc.objects@.dom())
                &&& is_info(info, CREATOR.spec_bytes(), PRODUCER.spec_bytes())
                &&& match patched_spec(input_doc, e, page, info)->0 {
                    Ok(o) => r matches Ok(d) && objects_view(d.objects@) == o && d.trailer@ == patched_trailer()
                        && d.version@ == "1.4"@,
                    Err(err) => r == Err::<PdfDocument, PdfError>(err),
                }
            },
{
    reveal(patched_spec);
    let ghost doc0 = input_doc;
    let mut map = Mapper::new(&input_doc);
    let ghost e = map.entries();
    assert(fresh_map(e, input_doc.objects@.dom()));
    assert(map.streams() =~= Seq::<ObjectId>::empty());
    assert(map_model(map) == (e, Seq::<ObjectId>::empty()));
    let ghost some_info = ObjectView::Dictionary(
        seq![
            (key("Creator"@), ObjectView::String(CREATOR.spec_bytes(), StrFormat::Literal)),
            (key("Producer"@), ObjectView::String(PRODUCER.spec_bytes(), StrFormat::Literal)),
            (key("CreationDate"@), ObjectView::String(seq![68u8, 58u8], StrFormat::Literal)),
        ],
    );
    assert(is_info(some_info, CREATOR.spec_bytes(), PRODUCER.spec_bytes()));
    assert(patched_spec(doc0, e, page, some_info) is Some);
    let mark = match modify_map(&input_doc, &mut map, page) {
        Ok(m) => m,
        Err(err) => {
            assert(patched_spec(doc0, e, page, some_info)->0 == Err::<Map<ObjectId, ObjectView>, PdfError>(err));
            return Err(err);
        },
    };
    let ghost m = map_model(map);
    let mut patched_doc = create_doc(input_doc, map);
    let ghost info = objects_view(patched_doc.objects@)[(1u32, 0u16)];
    assert(patched_spec(doc0, e, page, info) is Some);
    apply_marks(&mut patched_doc, &mark);
    assert(patched_spec(doc0, e, page, info)->0 == Ok::<Map<ObjectId, ObjectView>, PdfError>(objects_view(patched_doc.objects@)));
    Ok(patched_doc)
}

} // verus!
