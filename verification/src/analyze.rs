use vstd::prelude::*;
use crate::constants::Error;
use crate::content::ObjectId;
use crate::document::{PdfDocument, PdfError, object_at, objects_view};
use crate::object::{
    DictView, ObjectView, PdfDictionary, PdfObject, array_view, dict_get, key, key_bytes, key_index, lemma_array_view,
    obj_view,
};
use crate::bridge::{page_ids, page_tree};
use crate::map::{Mapper, first_index, free_after, free_in, last_in, remap_in, take_streams, with_free_numbers};
use crate::map::{lemma_last_keeps_prefix, lemma_remap_keeps_prefix, lemma_streams_keep_prefix, lemma_first_index_props};

verus! {

/// Where the resources of the patched page are found.
#[derive(Debug, Clone, Copy, PartialEq, Eq)]
pub enum ResourcesPlace {
    /// In the page tree's root (object 3 after patching).
    RootPage,
    /// In the page itself (object 4 after patching).
    CurrentPage,
    /// In another ancestor, which is moved to the last number.
    LastObject,
}

/// What has to be taken out of the document once its objects are renumbered.
#[derive(Debug)]
pub struct Marks {
    pub from_root_extract_pages: bool,
    /// The page's resources are a dictionary inside it, not a reference.
    pub from_page_extract_resources: bool,
    /// The resources' fonts are a dictionary inside them, not a reference.
    pub from_resources_extract_fonts: bool,
    /// The resources' graphics states are a dictionary inside them.
    pub from_resources_extract_extgstate: bool,
    pub resources_object_dereference: ResourcesPlace,
}

/// Marks that ask for nothing, with resources in the page.
pub open spec fn no_marks() -> Marks {
    Marks {
        from_root_extract_pages: false,
        from_page_extract_resources: false,
        from_resources_extract_fonts: false,
        from_resources_extract_extgstate: false,
        resources_object_dereference: ResourcesPlace::CurrentPage,
    }
}

impl Marks {
    /// Marks that ask for nothing, with resources in the page.
    pub fn new() -> (m: Marks)
        ensures
            m == no_marks(),
    {
        Marks {
            from_root_extract_pages: false,
            from_page_extract_resources: false,
            from_resources_extract_fonts: false,
            from_resources_extract_extgstate: false,
            resources_object_dereference: ResourcesPlace::CurrentPage,
        }
    }
}

// ------------------------------------------------------------ lookups

/// The entry `key` of a dictionary object: `None` when the object is not a
/// dictionary (the lookup is then refused), else the entry if there is one.
pub open spec fn field(o: ObjectView, k: Seq<u8>) -> Option<Option<ObjectView>> {
    match o {
        ObjectView::Dictionary(d) => Some(dict_get(d, k)),
        _ => None,
    }
}

/// A reference gives its id, an inline dictionary nothing; anything else is
/// refused (`None`).
pub open spec fn id_or_inline(o: ObjectView) -> Option<Option<ObjectId>> {
    match o {
        ObjectView::Reference(id) => Some(Some(id)),
        ObjectView::Dictionary(_) => Some(None),
        _ => None,
    }
}

/// The id of the information dictionary named by the trailer, if it is a
/// reference; refused (`None`) when the entry is neither a reference nor a dictionary.
pub open spec fn info_id_of(trailer: DictView) -> Option<Option<ObjectId>> {
    match dict_get(trailer, key("Info"@)) {
        Some(o) => id_or_inline(o),
        None => Some(None),
    }
}

/// The id of the catalog, which the trailer must name by reference.
pub open spec fn root_id_of(trailer: DictView) -> Option<ObjectId> {
    match dict_get(trailer, key("Root"@)) {
        Some(ObjectView::Reference(id)) => Some(id),
        _ => None,
    }
}

/// The entry `Pages` of the catalog, which must be a dictionary holding it.
pub open spec fn pages_entry(root: ObjectView) -> Option<ObjectView> {
    match field(root, key("Pages"@)) {
        Some(Some(p)) => Some(p),
        _ => None,
    }
}

/// The entry `key` of an object that must be a dictionary.
pub fn get_obj<'a>(obj: &'a PdfObject, k: &[u8]) -> (r: Result<&'a PdfObject, Error>)
    requires
        field(obj_view(*obj), k@) is Some,
    ensures
        r matches Ok(o) ==> field(obj_view(*obj), k@) == Some(Some(obj_view(*o))),
        r is Err ==> field(obj_view(*obj), k@) == Some(None::<ObjectView>),
        r matches Err(e) ==> e == Error::KeyNotPresent,
{
    match obj {
        PdfObject::Dictionary(d) => match d.get(k) {
            Some(o) => Ok(o),
            None => Err(Error::KeyNotPresent),
        },
        _ => {
            proof {
                assert(false);
            }
            Err(Error::KeyNotPresent)
        },
    }
}

/// The id of a reference; `None` for an inline dictionary.
pub fn match_on_id(obj: &PdfObject) -> (r: Option<ObjectId>)
    requires
        id_or_inline(obj_view(*obj)) is Some,
    ensures
        Some(r) == id_or_inline(obj_view(*obj)),
{
    match obj {
        PdfObject::Reference(id) => Some(*id),
        _ => None,
    }
}

/// The id of the information dictionary, when the trailer names it by reference.
pub fn get_info_id(trailer: &PdfDictionary) -> (r: Option<ObjectId>)
    requires
        info_id_of(trailer@) is Some,
    ensures
        Some(r) == info_id_of(trailer@),
{
    let k = key_bytes("Info");
    match trailer.get(k.as_slice()) {
        Some(o) => match_on_id(o),
        None => None,
    }
}

/// The id of the catalog.
pub fn get_root_id(trailer: &PdfDictionary) -> (r: ObjectId)
    requires
        root_id_of(trailer@) is Some,
    ensures
        Some(r) == root_id_of(trailer@),
{
    let k = key_bytes("Root");
    match trailer.get(k.as_slice()) {
        Some(PdfObject::Reference(id)) => *id,
        _ => {
            proof {
                assert(false);
            }
            (0, 0)
        },
    }
}

/// The `Pages` entry of the catalog.
pub fn get_pages_obj(root_obj: &PdfObject) -> (r: &PdfObject)
    requires
        pages_entry(obj_view(*root_obj)) is Some,
    ensures
        pages_entry(obj_view(*root_obj)) == Some(obj_view(*r)),
{
    let k = key_bytes("Pages");
    match get_obj(root_obj, k.as_slice()) {
        Ok(o) => o,
        Err(_) => {
            proof {
                assert(false);
            }
            root_obj
        },
    }
}

/// The `Resources` entry of a page, if it has one.
pub fn get_page_resources(page_obj: &PdfObject) -> (r: Option<&PdfObject>)
    requires
        field(obj_view(*page_obj), key("Resources"@)) is Some,
    ensures
        field(obj_view(*page_obj), key("Resources"@)) == Some(
            match r {
                Some(o) => Some(obj_view(*o)),
                None => None,
            },
        ),
{
    let k = key_bytes("Resources");
    match get_obj(page_obj, k.as_slice()) {
        Ok(o) => Some(o),
        Err(_) => None,
    }
}

/// The `Font` entry of a resources dictionary, if it has one.
pub fn get_fonts_obj(resources_obj: &PdfObject) -> (r: Option<&PdfObject>)
    requires
        field(obj_view(*resources_obj), key("Font"@)) is Some,
    ensures
        field(obj_view(*resources_obj), key("Font"@)) == Some(
            match r {
                Some(o) => Some(obj_view(*o)),
                None => None,
            },
        ),
{
    let k = key_bytes("Font");
    match get_obj(resources_obj, k.as_slice()) {
        Ok(o) => Some(o),
        Err(_) => None,
    }
}

/// Where the resources found in object `resources` sit, for a page `page`
/// under the page tree root `pages`.
pub open spec fn place_of(pages: ObjectId, page: ObjectId, resources: ObjectId) -> ResourcesPlace {
    if resources == page {
        ResourcesPlace::CurrentPage
    } else if resources == pages {
        ResourcesPlace::RootPage
    } else {
        ResourcesPlace::LastObject
    }
}

/// Where the resources found in object `resources` sit.
pub fn check_resources(pages: ObjectId, page: ObjectId, resources: ObjectId) -> (r: ResourcesPlace)
    ensures
        r == place_of(pages, page, resources),
{
    if resources.0 == page.0 && resources.1 == page.1 {
        ResourcesPlace::CurrentPage
    } else if resources.0 == pages.0 && resources.1 == pages.1 {
        ResourcesPlace::RootPage
    } else {
        ResourcesPlace::LastObject
    }
}

// ------------------------------------------------------------ pages

/// The page numbered `x` (from 1) among `pages`, with its id, when it exists
/// and its object can be looked up.
pub open spec fn page_x(objects: Map<ObjectId, PdfObject>, pages: Seq<ObjectId>, x: u32) -> Option<(ObjectView, ObjectId)> {
    if 1 <= x && x - 1 < pages.len() {
        match object_at(objects, pages[x - 1]) {
            Ok(o) => Some((o, pages[x - 1])),
            Err(_) => None,
        }
    } else {
        None
    }
}

/// The page numbered `x` (from 1) and its id.
pub fn get_page_x_obj(doc: &PdfDocument, x: u32) -> (r: Option<(&PdfObject, ObjectId)>)
    requires
        1 <= x,
    ensures
        page_x(doc.objects@, page_tree(objects_view(doc.objects@), doc.trailer@), x) == match r {
            Some((o, id)) => Some((obj_view(*o), id)),
            None => None,
        },
{
    let pages = page_ids(doc);
    let i = (x - 1) as usize;
    if i < pages.len() {
        let id = pages[i];
        match doc.get_object(id) {
            Ok(obj) => Some((obj, id)),
            Err(_) => None,
        }
    } else {
        None
    }
}

/// The id held by a reference.
pub open spec fn ref_id(o: ObjectView) -> ObjectId {
    match o {
        ObjectView::Reference(id) => id,
        _ => (0u32, 0u16),
    }
}

/// A page's `Contents` entry, with a reference to an array of streams
/// followed; refused (`None`) when the reference leads elsewhere.
pub open spec fn contents_target(objects: Map<ObjectId, PdfObject>, c: ObjectView) -> Option<ObjectView> {
    match c {
        ObjectView::Reference(r) => match object_at(objects, r) {
            Ok(ObjectView::Array(a)) => Some(ObjectView::Array(a)),
            Ok(ObjectView::Stream(_, _, _, _)) => Some(c),
            _ => None,
        },
        _ => Some(c),
    }
}

/// The ids that a page's contents name, once any reference to an array is
/// followed; refused (`None`) for anything but a reference, an array of
/// references, or nothing.
pub open spec fn ids_of_target(t: Option<ObjectView>) -> Option<Seq<ObjectId>> {
    match t {
        Some(ObjectView::Array(a)) => if forall|i: int| 0 <= i < a.len() ==> (#[trigger] a[i]) is Reference {
            Some(a.map_values(|o: ObjectView| ref_id(o)))
        } else {
            None
        },
        Some(ObjectView::Reference(id)) => Some(seq![id]),
        Some(ObjectView::Null) => Some(Seq::<ObjectId>::empty()),
        _ => None,
    }
}

/// An entry's value, or null when it is absent.
pub open spec fn or_null(entry: Option<ObjectView>) -> ObjectView {
    match entry {
        Some(c) => c,
        None => ObjectView::Null,
    }
}

/// The ids of the content streams of a page: refused (`None`) when the page
/// is not a dictionary or its contents are neither a reference, an array of
/// references, nor absent.
pub open spec fn content_ids(objects: Map<ObjectId, PdfObject>, page: ObjectView) -> Option<Seq<ObjectId>> {
    match field(page, key("Contents"@)) {
        None => None,
        Some(entry) => ids_of_target(contents_target(objects, or_null(entry))),
    }
}

/// The ids of the content streams of a page.
pub fn get_page_contents(doc: &PdfDocument, page_obj: &PdfObject) -> (r: Vec<ObjectId>)
    requires
        content_ids(doc.objects@, obj_view(*page_obj)) is Some,
    ensures
        content_ids(doc.objects@, obj_view(*page_obj)) == Some(r@),
{
    let k = key_bytes("Contents");
    let null_obj = PdfObject::Null;
    let content_obj: &PdfObject = match get_obj(page_obj, k.as_slice()) {
        Ok(o) => o,
        Err(_) => &null_obj,
    };
    let ghost c0 = obj_view(*content_obj);
    assert(content_ids(doc.objects@, obj_view(*page_obj)) == ids_of_target(contents_target(doc.objects@, c0)));
    let content_obj: &PdfObject = match content_obj {
        PdfObject::Reference(content_ref) => match doc.get_object(*content_ref) {
            Ok(referenced) => match referenced {
                PdfObject::Array(_) => referenced,
                PdfObject::Stream(_) => content_obj,
                _ => {
                    proof {
                        assert(false);
                    }
                    content_obj
                },
            },
            Err(_) => {
                proof {
                    assert(false);
                }
                content_obj
            },
        },
        _ => content_obj,
    };
    assert(contents_target(doc.objects@, c0) == Some(obj_view(*content_obj)));
    let mut obj_id_vec: Vec<ObjectId> = Vec::new();
    match content_obj {
        PdfObject::Array(ids_vec) => {
            proof {
                lemma_array_view(ids_vec@);
            }
            let ghost a = array_view(ids_vec@);
            assert(obj_view(*content_obj) == ObjectView::Array(a));
            let mut i: usize = 0;
            while i < ids_vec.len()
                invariant
                    i <= ids_vec@.len(),
                    a == array_view(ids_vec@),
                    a.len() == ids_vec@.len(),
                    forall|j: int| 0 <= j < ids_vec@.len() ==> #[trigger] a[j] == obj_view(ids_vec@[j]),
                    forall|j: int| 0 <= j < a.len() ==> (#[trigger] a[j]) is Reference,
                    obj_id_vec@ == a.take(i as int).map_values(|o: ObjectView| ref_id(o)),
                decreases ids_vec@.len() - i,
            {
                match &ids_vec[i] {
                    PdfObject::Reference(id) => {
                        obj_id_vec.push(*id);
                    },
                    _ => {
                        proof {
                            assert(a[i as int] is Reference);
                        }
                    },
                }
                proof {
                    assert(a.take(i + 1) =~= a.take(i as int).push(a[i as int]));
                    assert(obj_id_vec@ =~= a.take(i + 1).map_values(|o: ObjectView| ref_id(o)));
                }
                i = i + 1;
            }
            proof {
                assert(a.take(a.len() as int) =~= a);
            }
        },
        PdfObject::Reference(single_obj_id) => {
            obj_id_vec.push(*single_obj_id);
            assert(obj_id_vec@ =~= seq![*single_obj_id]);
        },
        PdfObject::Null => {
            assert(obj_id_vec@ =~= Seq::<ObjectId>::empty());
        },
        _ => {
            proof {
                assert(false);
            }
        },
    }
    obj_id_vec
}

// ------------------------------------------------------------ resources

/// Which object holds the resources of page `id`, following `Parent` links
/// at most `fuel` times: `None` when that is not enough; `Some(None)` when the
/// walk ends without resources.
pub open spec fn holder_within(objects: Map<ObjectId, PdfObject>, id: ObjectId, fuel: nat) -> Option<Option<ObjectId>>
    decreases fuel,
{
    match object_at(objects, id) {
        Ok(ObjectView::Dictionary(d)) => if key_index(d, key("Resources"@)) is Some {
            Some(Some(id))
        } else {
            match dict_get(d, key("Parent"@)) {
                Some(ObjectView::Reference(p)) => if fuel == 0 {
                    None
                } else {
                    holder_within(objects, p, (fuel - 1) as nat)
                },
                _ => Some(None),
            }
        },
        _ => Some(None),
    }
}

/// Which object holds the resources of page `id`: `None` when the walk up
/// the `Parent` links never ends.
pub open spec fn resources_holder(objects: Map<ObjectId, PdfObject>, id: ObjectId) -> Option<Option<ObjectId>> {
    if exists|n: nat| (#[trigger] holder_within(objects, id, n)) is Some {
        holder_within(objects, id, choose|n: nat| (#[trigger] holder_within(objects, id, n)) is Some)
    } else {
        None
    }
}

/// A walk that ends within some fuel ends the same way with more.
pub proof fn lemma_holder_within_more(objects: Map<ObjectId, PdfObject>, id: ObjectId, n: nat, m: nat)
    requires
        n <= m,
        holder_within(objects, id, n) is Some,
    ensures
        holder_within(objects, id, m) == holder_within(objects, id, n),
    decreases n,
{
    match object_at(objects, id) {
        Ok(ObjectView::Dictionary(d)) => {
            if key_index(d, key("Resources"@)) is None {
                match dict_get(d, key("Parent"@)) {
                    Some(ObjectView::Reference(p)) => {
                        lemma_holder_within_more(objects, p, (n - 1) as nat, (m - 1) as nat);
                    },
                    _ => {},
                }
            }
        },
        _ => {},
    }
}

/// The object that holds the resources of a page: the page itself or the
/// nearest ancestor with a `Resources` entry.
pub fn get_page_containing_resources(doc: &PdfDocument, page_id: ObjectId) -> (r: Option<ObjectId>)
    requires
        resources_holder(doc.objects@, page_id) is Some,
    ensures
        resources_holder(doc.objects@, page_id) == Some(r),
{
    let ghost m = doc.objects@;
    let ghost n = choose|n: nat| (#[trigger] holder_within(m, page_id, n)) is Some;
    let ghost mut fuel: nat = n;
    let res_key = key_bytes("Resources");
    let parent_key = key_bytes("Parent");
    let mut cur = page_id;
    loop
        invariant
            m == doc.objects@,
            res_key@ == key("Resources"@),
            parent_key@ == key("Parent"@),
            holder_within(m, cur, fuel) is Some,
            holder_within(m, cur, fuel) == resources_holder(m, page_id),
        decreases fuel,
    {
        let current_page = match doc.get_object(cur) {
            Ok(PdfObject::Dictionary(d)) => d,
            _ => {
                return None;
            },
        };
        if current_page.has(res_key.as_slice()) {
            return Some(cur);
        }
        let parent = match current_page.get(parent_key.as_slice()) {
            Some(PdfObject::Reference(p)) => *p,
            _ => {
                return None;
            },
        };
        proof {
            fuel = (fuel - 1) as nat;
        }
        cur = parent;
    }
}

// ------------------------------------------------------------ the map

/// A renumbering map and the ids of the content streams taken off it.
pub type MapModel = (Seq<Option<ObjectId>>, Seq<ObjectId>);

/// Marks for resources found at `place`, taken out of the page when
/// `resources_inline`, with fonts taken out when `fonts_inline`.
pub open spec fn marks_with(place: ResourcesPlace, resources_inline: bool, fonts_inline: bool) -> Marks {
    Marks {
        from_root_extract_pages: false,
        from_page_extract_resources: resources_inline,
        from_resources_extract_fonts: fonts_inline,
        from_resources_extract_extgstate: false,
        resources_object_dereference: place,
    }
}

/// The first steps of the renumbering: the information dictionary to number
/// 1 (or 1 left free), the catalog to 2, the page tree root to 3. Gives the
/// map and the root's id, or the error and the map at that point; `None` where
/// a step is refused.
pub open spec fn catalog_numbering(
    objects: Map<ObjectId, PdfObject>,
    trailer: DictView,
    s: Seq<Option<ObjectId>>,
) -> Option<Result<(Seq<Option<ObjectId>>, ObjectId), (PdfError, Seq<Option<ObjectId>>)>> {
    match info_id_of(trailer) {
        None => None,
        Some(info) => match (match info {
            Some(id) => remap_in(s, id, 1),
            None => free_in(s, 1),
        }) {
            None => None,
            Some(s1) => match root_id_of(trailer) {
                None => None,
                Some(root) => match remap_in(s1, root, 2) {
                    None => None,
                    Some(s2) => match object_at(objects, root) {
                        Err(e) => Some(Err((e, s2))),
                        Ok(ro) => match pages_entry(ro) {
                            None => None,
                            Some(p) => match id_or_inline(p) {
                                None => None,
                                Some(None) => Some(Err((PdfError::ObjectIdMismatch, s2))),
                                Some(Some(pid)) => match remap_in(s2, pid, 3) {
                                    None => None,
                                    Some(s3) => Some(Ok((s3, pid))),
                                },
                            },
                        },
                    },
                },
            },
        },
    }
}

/// The page steps: page `x` to number 4, its content streams taken off the
/// map, numbers 5 and 6 left free. Gives the map, streams and page id, or the
/// error and the map at that point; `None` where a step is refused.
pub open spec fn page_numbering(
    objects: Map<ObjectId, PdfObject>,
    pages: Seq<ObjectId>,
    m: MapModel,
    x: u32,
) -> Option<Result<(MapModel, ObjectId), (PdfError, MapModel)>> {
    if x == 0 {
        None
    } else {
        match page_x(objects, pages, x) {
            None => Some(Err((PdfError::PageNumberNotFound(x), m))),
            Some((po, pid)) => match remap_in(m.0, pid, 4) {
                None => None,
                Some(s4) => match content_ids(objects, po) {
                    None => None,
                    Some(ids) => {
                        let t = take_streams(s4, m.1, ids);
                        match free_in(t.0, 5) {
                            None => None,
                            Some(s6) => match free_in(s6, 6) {
                                None => None,
                                Some(s7) => Some(Ok(((s7, t.1), pid))),
                            },
                        }
                    },
                },
            },
        }
    }
}

/// The font steps for the resources `r`: their fonts to number 8 (or 8 left
/// free), then numbers 9 to 17 left free.
pub open spec fn fonts_numbering(r: ObjectView, m: MapModel, place: ResourcesPlace, resources_inline: bool) -> Option<
    (Result<Marks, PdfError>, MapModel),
> {
    match field(r, key("Font"@)) {
        None => None,
        Some(entry) => {
            let step = match entry {
                None => Some((free_in(m.0, 8), false)),
                Some(f) => match id_or_inline(f) {
                    None => None,
                    Some(Some(fid)) => Some((remap_in(m.0, fid, 8), false)),
                    Some(None) => Some((free_in(m.0, 8), true)),
                },
            };
            match step {
                None => None,
                Some((s1, fonts_inline)) => match s1 {
                    None => None,
                    Some(s1) => match free_after(s1, 8, 9) {
                        None => None,
                        Some(s2) => Some((Ok(marks_with(place, resources_inline, fonts_inline)), (s2, m.1))),
                    },
                },
            }
        },
    }
}

/// The resource steps: the object holding the page's resources moved last
/// when it is neither the page nor the root, the resources to number 7 (or 7
/// left free), then the font steps; without resources, numbers 7 to 17 left free.
pub open spec fn resources_numbering(
    objects: Map<ObjectId, PdfObject>,
    m: MapModel,
    pages_id: ObjectId,
    page_id: ObjectId,
) -> Option<(Result<Marks, PdfError>, MapModel)> {
    match resources_holder(objects, page_id) {
        None => None,
        Some(None) => Some((Err(PdfError::ObjectNotFound), m)),
        Some(Some(cr)) => {
            let place = place_of(pages_id, page_id, cr);
            match (if place == ResourcesPlace::LastObject {
                last_in(m.0, cr)
            } else {
                Some(m.0)
            }) {
                None => None,
                Some(s1) => match object_at(objects, cr) {
                    Err(e) => Some((Err(e), (s1, m.1))),
                    Ok(co) => match field(co, key("Resources"@)) {
                        None => None,
                        Some(None) => match free_after(s1, 6, 11) {
                            None => None,
                            Some(s2) => Some((Ok(marks_with(place, false, false)), (s2, m.1))),
                        },
                        Some(Some(ro)) => match id_or_inline(ro) {
                            None => None,
                            Some(Some(rid)) => match remap_in(s1, rid, 7) {
                                None => None,
                                Some(s2) => match object_at(objects, rid) {
                                    Err(e) => Some((Err(e), (s2, m.1))),
                                    Ok(r) => fonts_numbering(r, (s2, m.1), place, false),
                                },
                            },
                            Some(None) => match free_in(s1, 7) {
                                None => None,
                                Some(s2) => fonts_numbering(ro, (s2, m.1), place, true),
                            },
                        },
                    },
                },
            }
        },
    }
}

/// What `modify_map` does with a map `m` for page `x`: the result and the map
/// and stream list after it; `None` where one of its steps is refused.
pub open spec fn modify_map_spec(
    objects: Map<ObjectId, PdfObject>,
    trailer: DictView,
    pages: Seq<ObjectId>,
    m: MapModel,
    x: u32,
) -> Option<(Result<Marks, PdfError>, MapModel)> {
    match catalog_numbering(objects, trailer, m.0) {
        None => None,
        Some(Err((e, s1))) => Some((Err(e), (s1, m.1))),
        Some(Ok((s1, pid))) => match page_numbering(objects, pages, (s1, m.1), x) {
            None => None,
            Some(Err((e, m2))) => Some((Err(e), m2)),
            Some(Ok((m2, page))) => resources_numbering(objects, m2, pid, page),
        },
    }
}

/// The catalog steps number their objects: number 1 is the information
/// dictionary (free when the trailer names none by reference), number 2 the
/// catalog and number 3 the page tree root, when these are different objects
/// and number 0 was free.
pub proof fn lemma_catalog_numbers(objects: Map<ObjectId, PdfObject>, trailer: DictView, s: Seq<Option<ObjectId>>)
    requires
        s.len() >= 1,
        s[0] is None,
        catalog_numbering(objects, trailer, s) matches Some(Ok((_, pid))) && info_id_of(trailer)->0 != Some(
            root_id_of(trailer)->0,
        ) && info_id_of(trailer)->0 != Some(pid) && root_id_of(trailer)->0 != pid,
    ensures
        catalog_numbering(objects, trailer, s) matches Some(Ok((t, pid))) && t.len() >= 4 && t[0] is None && t[1]
            == info_id_of(trailer)->0 && t[2] == Some(root_id_of(trailer)->0) && t[3] == Some(pid),
{
    let info = info_id_of(trailer)->0;
    let root = root_id_of(trailer)->0;
    let s1 = match info {
        Some(id) => remap_in(s, id, 1)->0,
        None => free_in(s, 1)->0,
    };
    match info {
        Some(id) => {
            lemma_remap_keeps_prefix(s, id, 1);
            assert(s1[0] == s1.take(1)[0]);
        },
        None => {},
    }
    assert(s1[0] is None && s1[1] == info);
    lemma_remap_keeps_prefix(s1, root, 2);
    let s2 = remap_in(s1, root, 2)->0;
    assert(s2[0] == s2.take(2)[0] && s2[1] == s2.take(2)[1]);
    let pid = catalog_numbering(objects, trailer, s)->0->Ok_0.1;
    lemma_remap_keeps_prefix(s2, pid, 3);
    let t = remap_in(s2, pid, 3)->0;
    assert(t[0] == t.take(3)[0] && t[1] == t.take(3)[1] && t[2] == t.take(3)[2]);
}

/// The page steps number the page: it gets number 4, numbers 5 and 6 are
/// free, and the numbers before 4 stay, when neither the page nor one of its
/// content streams had one of them and no content stream is the page.
pub proof fn lemma_page_numbers(objects: Map<ObjectId, PdfObject>, pages: Seq<ObjectId>, m: MapModel, x: u32)
    requires
        m.0.len() >= 4,
        page_numbering(objects, pages, m, x) matches Some(Ok(_)),
        ({
            let (po, page) = page_x(objects, pages, x)->0;
            let ids = content_ids(objects, po)->0;
            &&& forall|j: int| 0 <= j < 4 ==> m.0[j] != Some(page)
            &&& forall|i: int| 0 <= i < ids.len() ==> #[trigger] ids[i] != page
            &&& forall|i: int, j: int| 0 <= i < ids.len() && 0 <= j < 4 ==> #[trigger] m.0[j] != Some(#[trigger] ids[i])
        }),
    ensures
        page_numbering(objects, pages, m, x) matches Some(Ok(((t, _), page))) && page == (page_x(objects, pages, x)->0).1
            && t.len() >= 7 && t.take(4) == m.0.take(4) && t[4] == Some(page) && t[5] is None && t[6] is None,
{
    let (po, page) = page_x(objects, pages, x)->0;
    let ids = content_ids(objects, po)->0;
    lemma_remap_keeps_prefix(m.0, page, 4);
    let s4 = remap_in(m.0, page, 4)->0;
    assert forall|i: int, j: int| 0 <= i < ids.len() && 0 <= j < 5 implies #[trigger] s4[j] != Some(#[trigger] ids[i]) by {
        if j < 4 {
            assert(s4[j] == s4.take(4)[j]);
            assert(m.0[j] == m.0.take(4)[j]);
        }
    }
    lemma_streams_keep_prefix(s4, m.1, ids, 5);
    let t0 = take_streams(s4, m.1, ids).0;
    let t = t0.insert(5, None).insert(6, None);
    assert forall|j: int| 0 <= j < 4 implies #[trigger] t[j] == m.0[j] by {
        assert(t[j] == t0[j]);
        assert(t0[j] == t0.take(5)[j]);
        assert(s4[j] == s4.take(5)[j]);
        assert(s4[j] == s4.take(4)[j]);
        assert(m.0[j] == m.0.take(4)[j]);
    }
    assert(t0[4] == t0.take(5)[4] && s4[4] == s4.take(5)[4]);
    assert(t.take(4) =~= m.0.take(4));
}

/// The id of the fonts of resources `r`, when they name them by reference.
pub open spec fn font_ref(r: ObjectView) -> Option<ObjectId> {
    match field(r, key("Font"@)) {
        Some(Some(f)) => match id_or_inline(f) {
            Some(Some(fid)) => Some(fid),
            _ => None,
        },
        _ => None,
    }
}

/// The object that holds the resources of page `page_id`.
pub open spec fn holder_id(objects: Map<ObjectId, PdfObject>, page_id: ObjectId) -> ObjectId {
    resources_holder(objects, page_id)->0->0
}

/// The resources entry of the object that holds the page's resources.
pub open spec fn resources_of(objects: Map<ObjectId, PdfObject>, page_id: ObjectId) -> Option<ObjectView> {
    match object_at(objects, holder_id(objects, page_id)) {
        Ok(co) => match field(co, key("Resources"@)) {
            Some(e) => e,
            None => None,
        },
        Err(_) => None,
    }
}

/// The id of the page's resources, when they are named by reference.
pub open spec fn resources_ref(objects: Map<ObjectId, PdfObject>, page_id: ObjectId) -> Option<ObjectId> {
    match resources_of(objects, page_id) {
        Some(ro) => match id_or_inline(ro) {
            Some(Some(rid)) => Some(rid),
            _ => None,
        },
        None => None,
    }
}

/// The id of the page's fonts, when they are named by reference.
pub open spec fn fonts_ref(objects: Map<ObjectId, PdfObject>, page_id: ObjectId) -> Option<ObjectId> {
    match resources_of(objects, page_id) {
        Some(ro) => match id_or_inline(ro) {
            Some(Some(rid)) => match object_at(objects, rid) {
                Ok(r) => font_ref(r),
                Err(_) => None,
            },
            _ => font_ref(ro),
        },
        None => None,
    }
}

proof fn lemma_fonts_numbers(r: ObjectView, m: MapModel, place: ResourcesPlace, inline: bool)
    requires
        m.0.len() >= 8,
        fonts_numbering(r, m, place, inline) matches Some((Ok(_), _)),
        font_ref(r) matches Some(fid) ==> forall|j: int| 0 <= j < 8 ==> m.0[j] != Some(fid),
    ensures
        fonts_numbering(r, m, place, inline) matches Some((Ok(_), (t, _))) && t.len() >= 18 && t.take(8) == m.0.take(8)
            && t[8] == font_ref(r) && forall|i: int| 9 <= i < 18 ==> #[trigger] t[i] is None,
{
    let s1 = match font_ref(r) {
        Some(fid) => remap_in(m.0, fid, 8)->0,
        None => m.0.insert(8, None),
    };
    match font_ref(r) {
        Some(fid) => {
            lemma_remap_keeps_prefix(m.0, fid, 8);
        },
        None => {
            assert(s1.take(8) =~= m.0.take(8));
        },
    }
    let t = with_free_numbers(s1, 8, 9);
    assert(t.take(8) =~= s1.take(8));
    assert(t[8] == s1[8]);
}

/// The resource steps number the page's resources: number 7 is the resources
/// (free when they are inline or absent), number 8 their fonts (free when
/// inline or absent), numbers 9 to 17 are free, and the numbers before 7
/// stay, when none of these objects (nor the object holding the resources,
/// where it is moved last) had one of them and the fonts are not the
/// resources.
pub proof fn lemma_resources_numbers(objects: Map<ObjectId, PdfObject>, m: MapModel, pages_id: ObjectId, page_id: ObjectId)
    requires
        m.0.len() >= 7,
        resources_numbering(objects, m, pages_id, page_id) matches Some((Ok(_), _)),
        place_of(pages_id, page_id, holder_id(objects, page_id)) == ResourcesPlace::LastObject ==> forall|j: int|
            0 <= j < 7 ==> m.0[j] != Some(holder_id(objects, page_id)),
        resources_ref(objects, page_id) matches Some(rid) ==> forall|j: int| 0 <= j < 7 ==> m.0[j] != Some(rid),
        fonts_ref(objects, page_id) matches Some(fid) ==> (forall|j: int| 0 <= j < 7 ==> m.0[j] != Some(fid)) && resources_ref(
            objects,
            page_id,
        ) != Some(fid),
    ensures
        resources_numbering(objects, m, pages_id, page_id) matches Some((Ok(_), (t, _))) && t.len() >= 18 && t.take(7)
            == m.0.take(7) && t[7] == resources_ref(objects, page_id) && t[8] == fonts_ref(objects, page_id) && forall|i: int|
            9 <= i < 18 ==> #[trigger] t[i] is None,
{
    let cr = holder_id(objects, page_id);
    let place = place_of(pages_id, page_id, cr);
    let s1 = if place == ResourcesPlace::LastObject {
        last_in(m.0, cr)->0
    } else {
        m.0
    };
    if place == ResourcesPlace::LastObject {
        lemma_last_keeps_prefix(m.0, cr, 7);
    }
    assert forall|j: int| 0 <= j < 7 implies #[trigger] s1[j] == m.0[j] by {
        assert(s1[j] == s1.take(7)[j]);
        assert(m.0[j] == m.0.take(7)[j]);
    }
    let co = object_at(objects, cr)->Ok_0;
    match field(co, key("Resources"@))->0 {
        None => {
            let t = with_free_numbers(s1, 6, 11);
            assert(t.take(7) =~= m.0.take(7));
        },
        Some(ro) => {
            match id_or_inline(ro)->0 {
                Some(rid) => {
                    lemma_remap_keeps_prefix(s1, rid, 7);
                    let s2 = remap_in(s1, rid, 7)->0;
                    let r = object_at(objects, rid)->Ok_0;
                    assert forall|j: int| 0 <= j < 7 implies #[trigger] s2[j] == m.0[j] by {
                        assert(s2[j] == s2.take(7)[j]);
                    }
                    lemma_fonts_numbers(r, (s2, m.1), place, false);
                    let (_, (t, _)) = fonts_numbering(r, (s2, m.1), place, false)->0;
                    assert forall|j: int| 0 <= j < 7 implies #[trigger] t[j] == m.0[j] by {
                        assert(t[j] == t.take(8)[j]);
                    }
                    assert(t[7] == t.take(8)[7]);
                    assert(t.take(7) =~= m.0.take(7));
                },
                None => {
                    let s2 = s1.insert(7, None);
                    lemma_fonts_numbers(ro, (s2, m.1), place, true);
                    let (_, (t, _)) = fonts_numbering(ro, (s2, m.1), place, true)->0;
                    assert forall|j: int| 0 <= j < 7 implies #[trigger] t[j] == m.0[j] by {
                        assert(t[j] == t.take(8)[j]);
                    }
                    assert(t[7] == t.take(8)[7]);
                    assert(t.take(7) =~= m.0.take(7));
                },
            }
        },
    }
}

/// The id of the page tree root, which the catalog names by reference.
pub open spec fn pages_ref(objects: Map<ObjectId, PdfObject>, trailer: DictView) -> ObjectId {
    id_or_inline(pages_entry(object_at(objects, root_id_of(trailer)->0)->Ok_0)->0)->0->0
}

/// The id of page `x`.
pub open spec fn page_ref(objects: Map<ObjectId, PdfObject>, pages: Seq<ObjectId>, x: u32) -> ObjectId {
    (page_x(objects, pages, x)->0).1
}

/// The ids of the content streams of page `x`.
pub open spec fn content_refs(objects: Map<ObjectId, PdfObject>, pages: Seq<ObjectId>, x: u32) -> Seq<ObjectId> {
    content_ids(objects, (page_x(objects, pages, x)->0).0)->0
}

/// No entry of `s` is `id`.
pub open spec fn apart(s: Seq<Option<ObjectId>>, id: ObjectId) -> bool {
    forall|j: int| 0 <= j < s.len() ==> s[j] != Some(id)
}

/// The numbers of a patched page's objects, up to number 8: none at 0, the
/// information dictionary, the catalog, the page tree root, the page, two
/// free numbers, the resources and the fonts.
pub open spec fn patched_numbers(
    objects: Map<ObjectId, PdfObject>,
    trailer: DictView,
    pages: Seq<ObjectId>,
    x: u32,
) -> Seq<Option<ObjectId>> {
    let page = page_ref(objects, pages, x);
    seq![
        None,
        info_id_of(trailer)->0,
        Some(root_id_of(trailer)->0),
        Some(pages_ref(objects, trailer)),
        Some(page),
        None,
        None,
        resources_ref(objects, page),
        fonts_ref(objects, page),
    ]
}

/// Renumbering gives a page's objects the numbers that patching relies on:
/// after a successful `modify_map` for page `x`, numbers 0 to 8 hold
/// [`patched_numbers`] and numbers 9 to 17 are free, when number 0 was free
/// and the objects given numbers are different objects: each one is none of
/// those numbered before it, no content stream of the page is one of them
/// before the resources, and the object holding the resources, when it is
/// moved last, is neither the information dictionary nor the catalog.
pub proof fn lemma_patched_numbers(
    objects: Map<ObjectId, PdfObject>,
    trailer: DictView,
    pages: Seq<ObjectId>,
    m: MapModel,
    x: u32,
)
    requires
        m.0.len() >= 1,
        m.0[0] is None,
        modify_map_spec(objects, trailer, pages, m, x) matches Some((Ok(_), _)),
        ({
            let n = patched_numbers(objects, trailer, pages, x);
            let page = page_ref(objects, pages, x);
            let cr = holder_id(objects, page);
            &&& apart(n.take(2), root_id_of(trailer)->0)
            &&& apart(n.take(3), pages_ref(objects, trailer))
            &&& apart(n.take(4), page)
            &&& forall|i: int| 0 <= i < content_refs(objects, pages, x).len() ==> apart(n.take(5), #[trigger] content_refs(objects, pages, x)[i])
            &&& place_of(pages_ref(objects, trailer), page, cr) == ResourcesPlace::LastObject ==> apart(n.take(3), cr)
            &&& resources_ref(objects, page) matches Some(rid) ==> apart(n.take(7), rid)
            &&& fonts_ref(objects, page) matches Some(fid) ==> apart(n.take(8), fid)
        }),
    ensures
        modify_map_spec(objects, trailer, pages, m, x) matches Some((Ok(_), (t, _))) && t.len() >= 18 && t.take(9)
            == patched_numbers(objects, trailer, pages, x) && forall|i: int| 9 <= i < 18 ==> #[trigger] t[i] is None,
{
    let n = patched_numbers(objects, trailer, pages, x);
    let page = page_ref(objects, pages, x);
    let pid = pages_ref(objects, trailer);
    let root = root_id_of(trailer)->0;
    let info = info_id_of(trailer)->0;
    assert(n[1] == info && n[2] == Some(root) && n[3] == Some(pid) && n[4] == Some(page));
    assert(n.take(2)[1] == info && n.take(3)[1] == info && n.take(3)[2] == Some(root));
    assert(info != Some(root));
    assert(info != Some(pid) && Some(root) != Some(pid));
    lemma_catalog_numbers(objects, trailer, m.0);
    let (s3, pid3) = catalog_numbering(objects, trailer, m.0)->0->Ok_0;
    assert(pid3 == pid);
    assert(s3.take(4) =~= n.take(4));
    let m3 = (s3, m.1);
    assert forall|j: int| 0 <= j < 4 implies m3.0[j] != Some(page) by {
        assert(n.take(4)[j] != Some(page));
        assert(s3.take(4)[j] == s3[j]);
    }
    let ids = content_refs(objects, pages, x);
    assert forall|i: int| 0 <= i < ids.len() implies #[trigger] ids[i] != page by {
        assert(apart(n.take(5), ids[i]));
        assert(n.take(5)[4] == Some(page));
    }
    assert forall|i: int, j: int| 0 <= i < ids.len() && 0 <= j < 4 implies #[trigger] m3.0[j] != Some(#[trigger] ids[i]) by {
        assert(apart(n.take(5), ids[i]));
        assert(n.take(5)[j] == n.take(4)[j]);
        assert(s3.take(4)[j] == s3[j]);
    }
    lemma_page_numbers(objects, pages, m3, x);
    let ((s7, st7), page7) = page_numbering(objects, pages, m3, x)->0->Ok_0;
    assert(s7.take(7) =~= n.take(7)) by {
        assert forall|j: int| 0 <= j < 7 implies #[trigger] s7.take(7)[j] == n.take(7)[j] by {
            if j < 4 {
                assert(s7.take(4)[j] == s7[j]);
                assert(s3.take(4)[j] == n.take(4)[j]);
            }
        }
    }
    let m7 = (s7, st7);
    let cr = holder_id(objects, page);
    assert(place_of(pid, page, cr) == ResourcesPlace::LastObject ==> forall|j: int| 0 <= j < 7 ==> m7.0[j] != Some(cr)) by {
        if place_of(pid, page, cr) == ResourcesPlace::LastObject {
            assert forall|j: int| 0 <= j < 7 implies m7.0[j] != Some(cr) by {
                assert(s7[j] == s7.take(7)[j]);
                if j < 3 {
                    assert(n.take(3)[j] == n[j]);
                }
            }
        }
    }
    assert(resources_ref(objects, page) matches Some(rid) ==> forall|j: int| 0 <= j < 7 ==> m7.0[j] != Some(rid)) by {
        if resources_ref(objects, page) is Some {
            let rid = resources_ref(objects, page)->0;
            assert forall|j: int| 0 <= j < 7 implies m7.0[j] != Some(rid) by {
                assert(s7[j] == s7.take(7)[j]);
                assert(n.take(7)[j] == n[j]);
            }
        }
    }
    assert(fonts_ref(objects, page) matches Some(fid) ==> (forall|j: int| 0 <= j < 7 ==> m7.0[j] != Some(fid))
        && resources_ref(objects, page) != Some(fid)) by {
        if fonts_ref(objects, page) is Some {
            let fid = fonts_ref(objects, page)->0;
            assert forall|j: int| 0 <= j < 7 implies m7.0[j] != Some(fid) by {
                assert(s7[j] == s7.take(7)[j]);
                assert(n.take(8)[j] == n[j]);
            }
            assert(n.take(8)[7] == n[7]);
        }
    }
    lemma_resources_numbers(objects, m7, pid, page);
    let (_, (t, _)) = resources_numbering(objects, m7, pid, page)->0;
    assert(t.take(9) =~= n) by {
        assert forall|j: int| 0 <= j < 9 implies #[trigger] t.take(9)[j] == n[j] by {
            if j < 7 {
                assert(t.take(7)[j] == t[j]);
                assert(s7.take(7)[j] == s7[j]);
            }
        }
    }
}

proof fn lemma_remove_keeps(s: Seq<Option<ObjectId>>, u: int, v: Option<ObjectId>)
    requires
        0 <= u < s.len(),
        s.contains(v),
        s[u] != v,
    ensures
        s.remove(u).contains(v),
{
    let j = choose|j: int| 0 <= j < s.len() && s[j] == v;
    if j < u {
        assert(s.remove(u)[j] == v);
    } else {
        assert(s.remove(u)[j - 1] == v);
    }
}

proof fn lemma_take_streams_in_order(s: Seq<Option<ObjectId>>, st: Seq<ObjectId>, ids: Seq<ObjectId>)
    requires
        ids.no_duplicates(),
        forall|i: int| 0 <= i < ids.len() ==> s.contains(Some(#[trigger] ids[i])),
    ensures
        take_streams(s, st, ids).1 == st + ids,
        forall|y: ObjectId| s.contains(Some(y)) && !ids.contains(y) ==> #[trigger] take_streams(s, st, ids).0.contains(Some(y)),
    decreases ids.len(),
{
    if ids.len() == 0 {
        assert(st + ids =~= st);
    } else {
        let rest = ids.drop_last();
        let last = ids.last();
        assert forall|i: int| 0 <= i < rest.len() implies s.contains(Some(#[trigger] rest[i])) by {
            assert(rest[i] == ids[i]);
        }
        lemma_take_streams_in_order(s, st, rest);
        let prev = take_streams(s, st, rest);
        assert(!rest.contains(last)) by {
            if rest.contains(last) {
                let k = choose|k: int| 0 <= k < rest.len() && rest[k] == last;
                assert(ids[k] == ids[ids.len() - 1]);
            }
        }
        assert(s.contains(Some(last))) by {
            assert(s.contains(Some(ids[ids.len() - 1])));
        }
        assert(prev.0.contains(Some(last)));
        lemma_first_index_props(prev.0, Some(last));
        if first_index(prev.0, Some(last)) is None {
            let k = choose|k: int| 0 <= k < prev.0.len() && prev.0[k] == Some(last);
            assert(prev.0[k] != Some(last));
        }
        let u = first_index(prev.0, Some(last))->0;
        assert(take_streams(s, st, ids).1 == prev.1.push(last));
        assert(st + ids =~= (st + rest).push(last));
        assert forall|y: ObjectId| s.contains(Some(y)) && !ids.contains(y) implies #[trigger] take_streams(s, st, ids).0.contains(
            Some(y),
        ) by {
            assert(!rest.contains(y)) by {
                if rest.contains(y) {
                    let k = choose|k: int| 0 <= k < rest.len() && rest[k] == y;
                    assert(ids[k] == y);
                }
            }
            assert(y != last) by {
                assert(ids[ids.len() - 1] == last);
            }
            lemma_remove_keeps(prev.0, u, Some(y));
        }
    }
}

/// The page's content streams are collected in the order its `Contents`
/// lists them: after a successful page numbering, the stream ids kept are
/// those kept before followed by the page's content ids in `Contents` order,
/// when these ids are distinct objects of the map other than the page.
pub proof fn lemma_page_streams_in_order(objects: Map<ObjectId, PdfObject>, pages: Seq<ObjectId>, m: MapModel, x: u32)
    requires
        page_numbering(objects, pages, m, x) matches Some(Ok(_)),
        content_refs(objects, pages, x).no_duplicates(),
        forall|i: int|
            0 <= i < content_refs(objects, pages, x).len() ==> m.0.contains(Some(#[trigger] content_refs(objects, pages, x)[i]))
                && content_refs(objects, pages, x)[i] != page_ref(objects, pages, x),
    ensures
        page_numbering(objects, pages, m, x) matches Some(Ok(((_, st), _))) && st == m.1 + content_refs(objects, pages, x),
{
    let page = page_ref(objects, pages, x);
    let ids = content_refs(objects, pages, x);
    lemma_first_index_props(m.0, Some(page));
    let u = first_index(m.0, Some(page))->0;
    let s4 = remap_in(m.0, page, 4)->0;
    assert(s4 == m.0.remove(u).insert(4, Some(page)));
    assert forall|i: int| 0 <= i < ids.len() implies s4.contains(Some(#[trigger] ids[i])) by {
        let y = ids[i];
        assert(m.0.contains(Some(y)));
        lemma_remove_keeps(m.0, u, Some(y));
        let r = m.0.remove(u);
        let j = choose|j: int| 0 <= j < r.len() && r[j] == Some(y);
        if j < 4 {
            assert(s4[j] == Some(y));
        } else {
            assert(s4[j + 1] == Some(y));
        }
    }
    lemma_take_streams_in_order(s4, m.1, ids);
}

/// The model of a map.
pub open spec fn map_model(m: Mapper) -> MapModel {
    (m.entries(), m.streams())
}

fn number_catalog(doc: &PdfDocument, obj_map: &mut Mapper) -> (r: Result<ObjectId, PdfError>)
    requires
        catalog_numbering(doc.objects@, doc.trailer@, old(obj_map).entries()) is Some,
    ensures
        final(obj_map).streams() == old(obj_map).streams(),
        match catalog_numbering(doc.objects@, doc.trailer@, old(obj_map).entries())->0 {
            Ok((s, pid)) => r == Ok::<ObjectId, PdfError>(pid) && final(obj_map).entries() == s,
            Err((e, s)) => r == Err::<ObjectId, PdfError>(e) && final(obj_map).entries() == s,
        },
{
    match get_info_id(&doc.trailer) {
        Some(id) => {
            obj_map.remap(id, 1);
        },
        None => {
            obj_map.free_id_at(1);
        },
    }
    let root_obj_id = get_root_id(&doc.trailer);
    obj_map.remap(root_obj_id, 2);
    let root_obj = match doc.get_object(root_obj_id) {
        Ok(o) => o,
        Err(e) => {
            return Err(e);
        },
    };
    let pages_obj = get_pages_obj(root_obj);
    let pages_id = match match_on_id(pages_obj) {
        Some(id) => id,
        None => {
            return Err(PdfError::ObjectIdMismatch);
        },
    };
    obj_map.remap(pages_id, 3);
    Ok(pages_id)
}

fn number_page(doc: &PdfDocument, obj_map: &mut Mapper, x: u32) -> (r: Result<ObjectId, PdfError>)
    requires
        page_numbering(doc.objects@, page_tree(objects_view(doc.objects@), doc.trailer@), map_model(*old(obj_map)), x) is Some,
    ensures
        match page_numbering(doc.objects@, page_tree(objects_view(doc.objects@), doc.trailer@), map_model(*old(obj_map)), x)->0 {
            Ok((m, pid)) => r == Ok::<ObjectId, PdfError>(pid) && map_model(*final(obj_map)) == m,
            Err((e, m)) => r == Err::<ObjectId, PdfError>(e) && map_model(*final(obj_map)) == m,
        },
{
    let (page_obj, page_id) = match get_page_x_obj(doc, x) {
        Some(page_x) => page_x,
        None => {
            return Err(PdfError::PageNumberNotFound(x));
        },
    };
    obj_map.remap(page_id, 4);
    let page_content_ids = get_page_contents(doc, page_obj);
    let ghost s4 = obj_map.entries();
    let ghost st = obj_map.streams();
    let mut i: usize = 0;
    while i < page_content_ids.len()
        invariant
            i <= page_content_ids@.len(),
            map_model(*obj_map) == take_streams(s4, st, page_content_ids@.take(i as int)),
        decreases page_content_ids@.len() - i,
    {
        proof {
            assert(page_content_ids@.take(i + 1).drop_last() =~= page_content_ids@.take(i as int));
        }
        obj_map.remove_id_at(&page_content_ids[i], true);
        i = i + 1;
    }
    proof {
        assert(page_content_ids@.take(page_content_ids@.len() as int) =~= page_content_ids@);
    }
    obj_map.free_id_at(5);
    obj_map.free_id_at(6);
    Ok(page_id)
}

fn number_fonts(resources_obj: &PdfObject, obj_map: &mut Mapper, place: ResourcesPlace, resources_inline: bool) -> (r:
    Result<Marks, PdfError>)
    requires
        fonts_numbering(obj_view(*resources_obj), map_model(*old(obj_map)), place, resources_inline) is Some,
    ensures
        fonts_numbering(obj_view(*resources_obj), map_model(*old(obj_map)), place, resources_inline) == Some(
            (r, map_model(*final(obj_map))),
        ),
{
    let mut mark = Marks::new();
    mark.resources_object_dereference = place;
    mark.from_page_extract_resources = resources_inline;
    match get_fonts_obj(resources_obj) {
        Some(fonts_obj) => {
            match match_on_id(fonts_obj) {
                Some(id) => {
                    obj_map.remap(id, 8);
                },
                None => {
                    mark.from_resources_extract_fonts = true;
                    obj_map.free_id_at(8);
                },
            }
        },
        None => obj_map.free_id_at(8),
    };
    obj_map.free_ids_starting_from(8, 9);
    Ok(mark)
}

fn number_resources(doc: &PdfDocument, obj_map: &mut Mapper, pages_id: ObjectId, page_id: ObjectId) -> (r: Result<
    Marks,
    PdfError,
>)
    requires
        resources_numbering(doc.objects@, map_model(*old(obj_map)), pages_id, page_id) is Some,
    ensures
        resources_numbering(doc.objects@, map_model(*old(obj_map)), pages_id, page_id) == Some(
            (r, map_model(*final(obj_map))),
        ),
{
    let containing_resources = match get_page_containing_resources(doc, page_id) {
        Some(id) => id,
        None => {
            return Err(PdfError::ObjectNotFound);
        },
    };
    let place = check_resources(pages_id, page_id, containing_resources);
    if let ResourcesPlace::LastObject = place {
        obj_map.map_to_last(containing_resources);
    }
    let containing = match doc.get_object(containing_resources) {
        Ok(o) => o,
        Err(e) => {
            return Err(e);
        },
    };
    match get_page_resources(containing) {
        Some(resources_obj) => {
            match match_on_id(resources_obj) {
                Some(id) => {
                    obj_map.remap(id, 7);
                    let r = match doc.get_object(id) {
                        Ok(o) => o,
                        Err(e) => {
                            return Err(e);
                        },
                    };
                    number_fonts(r, obj_map, place, false)
                },
                None => {
                    obj_map.free_id_at(7);
                    number_fonts(resources_obj, obj_map, place, true)
                },
            }
        },
        None => {
            obj_map.free_ids_starting_from(6, 11);
            let mut mark = Marks::new();
            mark.resources_object_dereference = place;
            Ok(mark)
        },
    }
}

/// Marks the objects of page `x` of a document for the patched document: the
/// information dictionary, catalog, page tree root and page get numbers 1 to
/// 4, the page's content streams leave the map (their ids are kept), numbers
/// 5 and 6 are left free, the page's resources get 7 and their fonts 8, and
/// numbers up to 17 are left free; the marks say what is inline and where the
/// resources were found.
pub fn modify_map(doc: &PdfDocument, obj_map: &mut Mapper, x: u32) -> (r: Result<Marks, PdfError>)
    requires
        modify_map_spec(
            doc.objects@,
            doc.trailer@,
            page_tree(objects_view(doc.objects@), doc.trailer@),
            map_model(*old(obj_map)),
            x,
        ) is Some,
    ensures
        modify_map_spec(
            doc.objects@,
            doc.trailer@,
            page_tree(objects_view(doc.objects@), doc.trailer@),
            map_model(*old(obj_map)),
            x,
        ) == Some((r, map_model(*final(obj_map)))),
{
    let pages_id = match number_catalog(doc, obj_map) {
        Ok(id) => id,
        Err(e) => {
            return Err(e);
        },
    };
    let page_id = match number_page(doc, obj_map, x) {
        Ok(id) => id,
        Err(e) => {
            return Err(e);
        },
    };
    number_resources(doc, obj_map, pages_id, page_id)
}

} // verus!
