use vstd::prelude::*;
use crate::bridge::{page_ids, page_tree, renumber_objects_with, renumbered_from};
use crate::constants::{CREATOR, PRODUCER};
use crate::content::ObjectId;
use crate::document::{PdfDocument, PdfError, lemma_objects_view_insert, lemma_resolve_view, objects_view, resolve_view};
use crate::map::{key_order, lemma_key_order};
use crate::modify::{create_info_obj, is_info};
use crate::object::{
    DictView, ObjectView, PdfDictionary, PdfObject, dict_get, dict_remove, dict_set, entries_view, key, key_bytes,
    lemma_entries_view, obj_view,
};
use vstd::string::StringSliceAdditionalSpecFns;

verus! {

broadcast use vstd::std_specs::btree::group_btree_axioms;

/// The two shared fonts of a merged document: the first ids seen are kept
/// for every page.
pub struct LazyFontId {
    f1: Option<ObjectId>,
    f2: Option<ObjectId>,
}

/// `x`'s id if it has one, else `y`.
pub open spec fn or_first(x: Option<ObjectId>, y: ObjectId) -> ObjectId {
    match x {
        Some(id) => id,
        None => y,
    }
}

impl LazyFontId {
    /// The id kept for the first font, once one was seen.
    pub closed spec fn first_f1(&self) -> Option<ObjectId> {
        self.f1
    }

    /// The id kept for the second font, once one was seen.
    pub closed spec fn first_f2(&self) -> Option<ObjectId> {
        self.f2
    }

    /// No font seen yet.
    pub fn new() -> (r: LazyFontId)
        ensures
            r.first_f1() is None,
            r.first_f2() is None,
    {
        LazyFontId { f1: None, f2: None }
    }

    /// The id to use for the first font: the first one ever given.
    pub fn get_f1(&mut self, f1: ObjectId) -> (r: ObjectId)
        ensures
            r == or_first(old(self).first_f1(), f1),
            final(self).first_f1() == Some(r),
            final(self).first_f2() == old(self).first_f2(),
    {
        if self.f1.is_none() {
            self.f1 = Some(f1);
            f1
        } else {
            self.f1.unwrap()
        }
    }

    /// The id to use for the second font: the first one ever given.
    pub fn get_f2(&mut self, f2: ObjectId) -> (r: ObjectId)
        ensures
            r == or_first(old(self).first_f2(), f2),
            final(self).first_f2() == Some(r),
            final(self).first_f1() == old(self).first_f1(),
    {
        if self.f2.is_none() {
            self.f2 = Some(f2);
            f2
        } else {
            self.f2.unwrap()
        }
    }
}

/// The model of a document to merge: its objects and trailer.
pub type DocModel = (Map<ObjectId, ObjectView>, DictView);

/// The state of a merge: the objects so far, the largest id, the pages, their
/// count, and the two shared fonts.
pub type MergeState = (Map<ObjectId, ObjectView>, u32, Seq<ObjectView>, int, Option<ObjectId>, Option<ObjectId>);

/// The models of the documents to merge.
pub open spec fn docs_view(docs: Seq<PdfDocument>) -> Seq<DocModel> {
    docs.map_values(|d: PdfDocument| (objects_view(d.objects@), d.trailer@))
}

/// A font dictionary that names the shared fonts first, then its other fonts.
pub open spec fn fonts_after(rest: DictView, f1: ObjectId, f2: ObjectId) -> DictView {
    seq![(key("F1"@), ObjectView::Reference(f1)), (key("F2"@), ObjectView::Reference(f2))] + rest
}

/// The objects with `vals` added one by one under the numbers after `max_id`.
pub open spec fn add_all(objs: Map<ObjectId, ObjectView>, max_id: u32, vals: Seq<ObjectView>) -> Map<ObjectId, ObjectView>
    decreases vals.len(),
{
    if vals.len() == 0 {
        objs
    } else {
        add_all(objs, max_id, vals.drop_last()).insert(((max_id + vals.len()) as u32, 0u16), vals.last())
    }
}

/// The objects of a map in the order of their ids.
pub open spec fn values_in_order(m: Map<ObjectId, ObjectView>) -> Seq<ObjectView> {
    key_order(m.dom()).map_values(|k: ObjectId| m[k])
}

/// Merging one more document: renumbered after the objects so far, its
/// first page is moved under the new page tree (object 3) with its fonts
/// `F1` and `F2` replaced by the shared ones, and its other objects are
/// added in the order of their ids. `None` where the merge cannot go on (an
/// id or the page count would overflow).
pub open spec fn merge_step(st: MergeState, d: DocModel) -> Option<Result<MergeState, PdfError>> {
    if !(st.1 < u32::MAX && st.1 + 1 + d.0.dom().len() <= u32::MAX && st.3 < i32::MAX) {
        None
    } else {
        let start = (st.1 + 1) as u32;
        let r = renumbered_from(d.0, d.1, start);
        let ro = r.0;
        let pages = page_tree(r.0, r.1);
        if pages.len() == 0 {
            Some(Err(PdfError::PageNumberNotFound(1)))
        } else if !ro.contains_key(pages[0]) {
            Some(Err(PdfError::ObjectNotFound))
        } else {
            let page_id = pages[0];
            let o1 = ro.remove(page_id);
            match ro[page_id] {
                ObjectView::Dictionary(pd) => match dict_get(pd, key("Resources"@)) {
                    None => Some(Err(PdfError::DictKey)),
                    Some(ObjectView::Reference(rid)) => match resolve_view(o1, rid) {
                        Err(e) => Some(Err(e)),
                        Ok(rt) => match o1[rt] {
                            ObjectView::Dictionary(rd) => match dict_get(rd, key("Font"@)) {
                                None => Some(Err(PdfError::DictKey)),
                                Some(ObjectView::Reference(fid)) => match resolve_view(o1, fid) {
                                    Err(e) => Some(Err(e)),
                                    Ok(ft) => match o1[ft] {
                                        ObjectView::Dictionary(fd) => match dict_get(fd, key("F1"@)) {
                                            None => Some(Err(PdfError::DictKey)),
                                            Some(ObjectView::Reference(a)) => {
                                                let fd1 = dict_remove(fd, key("F1"@));
                                                match dict_get(fd1, key("F2"@)) {
                                                    None => Some(Err(PdfError::DictKey)),
                                                    Some(ObjectView::Reference(b)) => {
                                                        let fd2 = dict_remove(fd1, key("F2"@));
                                                        let n1 = or_first(st.4, a);
                                                        let n2 = or_first(st.5, b);
                                                        let o2 = o1.insert(ft, ObjectView::Dictionary(fonts_after(fd2, n1, n2)));
                                                        let page = ObjectView::Dictionary(
                                                            dict_set(pd, key("Parent"@), ObjectView::Reference((3u32, 0u16))),
                                                        );
                                                        let objs1 = st.0.insert((start, 0u16), page);
                                                        let vals = values_in_order(o2);
                                                        Some(
                                                            Ok(
                                                                (
                                                                    add_all(objs1, start, vals),
                                                                    (start + vals.len()) as u32,
                                                                    st.2.push(ObjectView::Reference((start, 0u16))),
                                                                    st.3 + 1,
                                                                    Some(n1),
                                                                    Some(n2),
                                                                ),
                                                            ),
                                                        )
                                                    },
                                                    Some(_) => Some(Err(PdfError::Type)),
                                                }
                                            },
                                            Some(_) => Some(Err(PdfError::Type)),
                                        },
                                        _ => Some(Err(PdfError::Type)),
                                    },
                                },
                                Some(_) => Some(Err(PdfError::Type)),
                            },
                            _ => Some(Err(PdfError::Type)),
                        },
                    },
                    Some(_) => Some(Err(PdfError::Type)),
                },
                _ => Some(Err(PdfError::Type)),
            }
        }
    }
}

/// Merging the documents one after the other.
pub open spec fn merge_fold(st: MergeState, docs: Seq<DocModel>) -> Option<Result<MergeState, PdfError>>
    decreases docs.len(),
{
    if docs.len() == 0 {
        Some(Ok(st))
    } else {
        match merge_fold(st, docs.drop_last()) {
            None => None,
            Some(Err(e)) => Some(Err(e)),
            Some(Ok(s1)) => merge_step(s1, docs.last()),
        }
    }
}

/// The catalog of a merged document: its pages are object 3.
pub open spec fn merged_catalog() -> ObjectView {
    ObjectView::Dictionary(
        seq![(key("Type"@), ObjectView::Name(key("Catalog"@))), (key("Pages"@), ObjectView::Reference((3u32, 0u16)))],
    )
}

/// The page tree root of a merged document.
pub open spec fn merged_pages(kids: Seq<ObjectView>, count: int) -> ObjectView {
    ObjectView::Dictionary(
        seq![
            (key("Type"@), ObjectView::Name(key("Pages"@))),
            (key("Kids"@), ObjectView::Array(kids)),
            (key("Count"@), ObjectView::Integer(count as i64)),
        ],
    )
}

/// The trailer of a merged document: information dictionary 1, catalog 2.
pub open spec fn merged_trailer() -> DictView {
    seq![(key("Info"@), ObjectView::Reference((1u32, 0u16))), (key("Root"@), ObjectView::Reference((2u32, 0u16)))]
}

/// The state before the first document: the information dictionary (1),
/// the catalog (2), and number 3 kept for the page tree root.
pub open spec fn merge_start(info: ObjectView) -> MergeState {
    (
        Map::<ObjectId, ObjectView>::empty().insert((1u32, 0u16), info).insert((2u32, 0u16), merged_catalog()),
        3u32,
        Seq::empty(),
        0,
        None,
        None,
    )
}

/// What merging gives, for the information dictionary `info`: the objects,
/// trailer and largest id of the merged document once its unused objects are
/// pruned and the rest renumbered from 1, or the error; `None` where the
/// merge cannot go on.
pub open spec fn merge_spec(docs: Seq<DocModel>, info: ObjectView) -> Option<
    Result<(Map<ObjectId, ObjectView>, DictView, u32), PdfError>,
> {
    match merge_fold(merge_start(info), docs) {
        None => None,
        Some(Err(e)) => Some(Err(e)),
        Some(Ok(st)) => {
            let objs = st.0.insert((3u32, 0u16), merged_pages(st.2, st.3));
            let kept = crate::document::pruned(objs, merged_trailer());
            if 1 + kept.dom().len() <= u32::MAX {
                let r = renumbered_from(kept, merged_trailer(), 1);
                Some(Ok((r.0, r.1, kept.dom().len() as u32)))
            } else {
                None
            }
        },
    }
}

/// The state of a merge in progress.
pub open spec fn state_of(d: PdfDocument, fonts: LazyFontId, kids: Seq<PdfObject>, count: i32) -> MergeState {
    (
        objects_view(d.objects@),
        d.max_id,
        kids.map_values(|k: PdfObject| obj_view(k)),
        count as int,
        fonts.first_f1(),
        fonts.first_f2(),
    )
}

fn take_reference(o: Option<PdfObject>) -> (r: Result<ObjectId, PdfError>)
    ensures
        match o {
            None => r == Err::<ObjectId, PdfError>(PdfError::DictKey),
            Some(PdfObject::Reference(id)) => r == Ok::<ObjectId, PdfError>(id),
            Some(_) => r == Err::<ObjectId, PdfError>(PdfError::Type),
        },
{
    match o {
        Some(PdfObject::Reference(id)) => Ok(id),
        Some(_) => Err(PdfError::Type),
        None => Err(PdfError::DictKey),
    }
}

fn reference_in(d: &PdfDictionary, k: &[u8]) -> (r: Result<ObjectId, PdfError>)
    ensures
        match dict_get(d@, k@) {
            None => r == Err::<ObjectId, PdfError>(PdfError::DictKey),
            Some(ObjectView::Reference(id)) => r == Ok::<ObjectId, PdfError>(id),
            Some(_) => r == Err::<ObjectId, PdfError>(PdfError::Type),
        },
{
    match d.get(k) {
        Some(PdfObject::Reference(id)) => Ok(*id),
        Some(_) => Err(PdfError::Type),
        None => Err(PdfError::DictKey),
    }
}

/// Merges one document into `final_doc` (see [`merge_step`]).
fn merge_one(
    final_doc: &mut PdfDocument,
    fonts: &mut LazyFontId,
    kids: &mut Vec<PdfObject>,
    count: &mut i32,
    doc: PdfDocument,
    pages: ObjectId,
) -> (r: Result<(), PdfError>)
    requires
        pages == (3u32, 0u16),
        merge_step(state_of(*old(final_doc), *old(fonts), old(kids)@, *old(count)), (objects_view(doc.objects@), doc.trailer@))
            is Some,
    ensures
        final(final_doc).version@ == old(final_doc).version@,
        final(final_doc).trailer@ == old(final_doc).trailer@,
        match merge_step(state_of(*old(final_doc), *old(fonts), old(kids)@, *old(count)), (objects_view(doc.objects@), doc.trailer@))->0 {
            Ok(st) => r is Ok && state_of(*final(final_doc), *final(fonts), final(kids)@, *final(count)) == st,
            Err(e) => r == Err::<(), PdfError>(e),
        },
{
    let ghost st = state_of(*final_doc, *fonts, kids@, *count);
    let ghost d0 = (objects_view(doc.objects@), doc.trailer@);
    let mut doc = doc;
    assert(objects_view(doc.objects@).dom() =~= doc.objects@.dom());
    let start = final_doc.max_id + 1;
    renumber_objects_with(&mut doc, start);
    let ghost ro = objects_view(doc.objects@);
    let ghost before_remove = doc.objects@;
    let pages_found = page_ids(&doc);
    if pages_found.len() == 0 {
        return Err(PdfError::PageNumberNotFound(1));
    }
    let page_id = pages_found[0];
    let page_obj = match doc.objects.remove(&page_id) {
        Some(o) => o,
        None => {
            return Err(PdfError::ObjectNotFound);
        },
    };
    proof {
        assert(objects_view(doc.objects@) =~= ro.remove(page_id));
    }
    let ghost o1 = objects_view(doc.objects@);
    let res_key = key_bytes("Resources");
    let rid = match &page_obj {
        PdfObject::Dictionary(pd) => match reference_in(pd, res_key.as_slice()) {
            Ok(id) => id,
            Err(e) => {
                return Err(e);
            },
        },
        _ => {
            return Err(PdfError::Type);
        },
    };
    proof {
        lemma_resolve_view(doc.objects@, rid);
    }
    let rt = match doc.resolve(rid) {
        Ok(t) => t,
        Err(e) => {
            return Err(e);
        },
    };
    let font_key = key_bytes("Font");
    let fid = match doc.objects.get(&rt) {
        Some(PdfObject::Dictionary(rd)) => match reference_in(rd, font_key.as_slice()) {
            Ok(id) => id,
            Err(e) => {
                return Err(e);
            },
        },
        _ => {
            return Err(PdfError::Type);
        },
    };
    proof {
        lemma_resolve_view(doc.objects@, fid);
    }
    let ft = match doc.resolve(fid) {
        Ok(t) => t,
        Err(e) => {
            return Err(e);
        },
    };
    let ghost before_fonts = doc.objects@;
    let fo = match doc.objects.remove(&ft) {
        Some(o) => o,
        None => {
            return Err(PdfError::ObjectNotFound);
        },
    };
    let mut fd = match fo {
        PdfObject::Dictionary(fd) => fd,
        _ => {
            return Err(PdfError::Type);
        },
    };
    let f1_key = key_bytes("F1");
    let f2_key = key_bytes("F2");
    let a = match take_reference(fd.remove(f1_key.as_slice())) {
        Ok(id) => id,
        Err(e) => {
            return Err(e);
        },
    };
    let b = match take_reference(fd.remove(f2_key.as_slice())) {
        Ok(id) => id,
        Err(e) => {
            return Err(e);
        },
    };
    let n1 = fonts.get_f1(a);
    let n2 = fonts.get_f2(b);
    let ghost rest_view = fd@;
    let mut entries: Vec<(Vec<u8>, PdfObject)> = Vec::new();
    entries.push((f1_key, PdfObject::Reference(n1)));
    entries.push((f2_key, PdfObject::Reference(n2)));
    let mut rest = fd.entries;
    entries.append(&mut rest);
    let font_dict = PdfObject::Dictionary(PdfDictionary { entries });
    proof {
        lemma_entries_view(entries@);
        lemma_entries_view(fd.entries@);
        assert(entries_view(entries@) =~= fonts_after(rest_view, n1, n2));
    }
    let ghost fv = obj_view(font_dict);
    doc.objects.insert(ft, font_dict);
    proof {
        assert(before_fonts.remove(ft).insert(ft, font_dict) =~= before_fonts.insert(ft, font_dict));
        lemma_objects_view_insert(before_fonts, ft, font_dict);
    }
    let ghost o2 = objects_view(doc.objects@);
    let mut page_obj = page_obj;
    let parent_key = key_bytes("Parent");
    match &mut page_obj {
        PdfObject::Dictionary(pd) => {
            pd.set(parent_key, PdfObject::Reference(pages));
        },
        _ => {},
    }
    let ghost b1 = final_doc.objects@;
    let new_page_id = final_doc.add_object(page_obj);
    proof {
        lemma_objects_view_insert(b1, new_page_id, page_obj);
    }
    let ghost objs1 = objects_view(final_doc.objects@);
    kids.push(PdfObject::Reference(new_page_id));
    *count = *count + 1;
    let ids = doc.object_ids();
    proof {
        assert(o2.dom() =~= doc.objects@.dom());
        lemma_key_order(ids@, o2.dom());
        ids@.unique_seq_to_set();
        assert(doc.objects@.dom() =~= before_remove.dom().remove(page_id));
        assert(ids@.len() == before_remove.dom().len() - 1);
    }
    let ghost vals = values_in_order(o2);
    let mut i: usize = 0;
    while i < ids.len()
        invariant
            i <= ids@.len(),
            ids@ == key_order(o2.dom()),
            vals == ids@.map_values(|k: ObjectId| o2[k]),
            ids@.no_duplicates(),
            ids@.to_set() == o2.dom(),
            start == st.1 + 1,
            start + ids@.len() <= u32::MAX,
            final_doc.max_id == start + i,
            objects_view(final_doc.objects@) == add_all(objs1, start, vals.take(i as int)),
            forall|j: int|
                #![trigger ids@[j]]
                i <= j < ids@.len() ==> doc.objects@.contains_key(ids@[j]) && obj_view(doc.objects@[ids@[j]]) == o2[ids@[j]],
            final_doc.version@ == old(final_doc).version@,
            final_doc.trailer@ == old(final_doc).trailer@,
        decreases ids@.len() - i,
    {
        let id = ids[i];
        let ghost before_take = doc.objects@;
        let taken = doc.objects.remove(&id);
        proof {
            assert forall|j: int| i < j < ids@.len() implies ids@[j] != id && doc.objects@.contains_key(ids@[j]) && doc.objects@[ids@[j]] == before_take[ids@[j]] by {
                assert(ids@[j] != ids@[i as int]);
            }
            assert(vals.take(i + 1).drop_last() =~= vals.take(i as int));
        }
        match taken {
            Some(o) => {
                let ghost b = final_doc.objects@;
                final_doc.add_object(o);
                proof {
                    lemma_objects_view_insert(b, ((start + i + 1) as u32, 0u16), o);
                }
            },
            None => {
                proof {
                    assert(false);
                }
            },
        }
        i = i + 1;
    }
    proof {
        assert(vals.take(ids@.len() as int) =~= vals);
        assert(kids@.map_values(|k: PdfObject| obj_view(k)) =~= st.2.push(ObjectView::Reference((start, 0u16))));
    }
    Ok(())
}

proof fn lemma_fold_prefix(st: MergeState, docs: Seq<DocModel>, i: int)
    requires
        0 <= i <= docs.len(),
        merge_fold(st, docs) is Some,
    ensures
        merge_fold(st, docs.take(i)) is Some,
        merge_fold(st, docs.take(i)) matches Some(Err(e)) ==> merge_fold(st, docs) == Some(Err::<MergeState, PdfError>(e)),
    decreases docs.len(),
{
    if i == docs.len() {
        assert(docs.take(i) =~= docs);
    } else {
        lemma_fold_prefix(st, docs.drop_last(), i);
        assert(docs.drop_last().take(i) =~= docs.take(i));
    }
}

/// [`merge_patched_docs`] where it can go on: `None` where an object number
/// or the page count would overflow (where `merge_spec` gives `None`).
pub fn merge_patched_docs_checked(files: Vec<PdfDocument>) -> (r: Option<Result<PdfDocument, PdfError>>)
    ensures
        exists|info: ObjectView|
            #![trigger merge_spec(docs_view(files@), info)]
            {
                &&& is_info(info, CREATOR.spec_bytes(), PRODUCER.spec_bytes())
                &&& match merge_spec(docs_view(files@), info) {
                    None => r is None,
                    Some(Ok((o, t, m))) => r matches Some(Ok(d)) && objects_view(d.objects@) == o && d.trailer@ == t
                        && d.max_id == m && d.version@ == "1.7"@,
                    Some(Err(e)) => r == Some(Err::<PdfDocument, PdfError>(e)),
                }
            },
{
    let ghost docs = docs_view(files@);
    let mut fonts = LazyFontId::new();
    let mut final_doc = PdfDocument::with_version("1.7".to_string());
    let info_obj = create_info_obj(CREATOR, PRODUCER);
    let ghost info = obj_view(info_obj);
    let ghost b0 = final_doc.objects@;
    let info_id = final_doc.add_object(info_obj);
    proof {
        lemma_objects_view_insert(b0, info_id, info_obj);
    }
    let mut catalog_entries: Vec<(Vec<u8>, PdfObject)> = Vec::new();
    catalog_entries.push((key_bytes("Type"), PdfObject::Name(key_bytes("Catalog"))));
    catalog_entries.push((key_bytes("Pages"), PdfObject::Reference((3, 0))));
    proof {
        lemma_entries_view(catalog_entries@);
    }
    assert(entries_view(catalog_entries@) =~= seq![
        (key("Type"@), ObjectView::Name(key("Catalog"@))),
        (key("Pages"@), ObjectView::Reference((3u32, 0u16))),
    ]);
    let catalog = PdfObject::Dictionary(PdfDictionary { entries: catalog_entries });
    assert(obj_view(catalog) == merged_catalog());
    let ghost b1 = final_doc.objects@;
    let root = final_doc.add_object(catalog);
    proof {
        lemma_objects_view_insert(b1, root, catalog);
        assert(objects_view(b0) =~= Map::<ObjectId, ObjectView>::empty());
    }
    let pages = final_doc.new_object_id();
    let mut kids: Vec<PdfObject> = Vec::new();
    let mut count: i32 = 0;
    proof {
        assert(kids@.map_values(|k: PdfObject| obj_view(k)) =~= Seq::<ObjectView>::empty());
        assert(state_of(final_doc, fonts, kids@, count) == merge_start(info));
        assert(docs.take(0) =~= Seq::<DocModel>::empty());
    }
    let total = files.len();
    let mut rest = files;
    let ghost n = docs.len();
    let mut i: usize = 0;
    while rest.len() > 0
        invariant
            docs == docs_view(files@),
            n == docs.len(),
            n == files@.len(),
            n == total,
            is_info(info, CREATOR.spec_bytes(), PRODUCER.spec_bytes()),
            i <= n,
            rest@ == files@.skip(i as int),
            merge_fold(merge_start(info), docs.take(i as int)) == Some(Ok::<MergeState, PdfError>(state_of(final_doc, fonts, kids@, count))),
            pages == (3u32, 0u16),
            info_id == (1u32, 0u16),
            root == (2u32, 0u16),
            final_doc.version@ == "1.7"@,
            final_doc.trailer@ == Seq::<(Seq<u8>, ObjectView)>::empty(),
        decreases rest@.len(),
    {
        assert(i < n);
        let doc = rest.remove(0);
        proof {
            assert(files@.skip(i as int)[0] == files@[i as int]);
            assert(rest@ =~= files@.skip(i + 1));
            assert(docs.take(i + 1).drop_last() =~= docs.take(i as int));
            assert(docs.take(i + 1).last() == docs[i as int]);
            assert(docs[i as int] == (objects_view(doc.objects@), doc.trailer@));
            assert(objects_view(doc.objects@).dom() =~= doc.objects@.dom());
        }
        let n_objects = doc.objects.len();
        if !(final_doc.max_id < u32::MAX && n_objects as u64 <= (u32::MAX - final_doc.max_id - 1) as u64 && count < i32::MAX) {
            proof {
                assert(merge_fold(merge_start(info), docs.take(i + 1)) is None);
                lemma_fold_stops(merge_start(info), docs, i + 1);
            }
            return None;
        }
        match merge_one(&mut final_doc, &mut fonts, &mut kids, &mut count, doc, pages) {
            Ok(()) => {},
            Err(e) => {
                proof {
                    assert(merge_fold(merge_start(info), docs.take(i + 1)) == Some(Err::<MergeState, PdfError>(e)));
                    lemma_fold_stops(merge_start(info), docs, i + 1);
                    assert(merge_fold(merge_start(info), docs) == Some(Err::<MergeState, PdfError>(e)));
                    assert(merge_spec(docs_view(files@), info) == Some(Err::<(Map<ObjectId, ObjectView>, DictView, u32), PdfError>(e)));
                    assert(is_info(info, CREATOR.spec_bytes(), PRODUCER.spec_bytes()));
                }
                return Some(Err(e));
            },
        }
        i = i + 1;
    }
    proof {
        assert(docs.take(i as int) =~= docs);
    }
    let ghost st = state_of(final_doc, fonts, kids@, count);
    let mut page_entries: Vec<(Vec<u8>, PdfObject)> = Vec::new();
    page_entries.push((key_bytes("Type"), PdfObject::Name(key_bytes("Pages"))));
    page_entries.push((key_bytes("Kids"), PdfObject::Array(kids)));
    page_entries.push((key_bytes("Count"), PdfObject::Integer(count as i64)));
    proof {
        lemma_entries_view(page_entries@);
        crate::object::lemma_array_view(kids@);
        assert(crate::object::array_view(kids@) =~= st.2);
    }
    assert(entries_view(page_entries@) =~= seq![
        (key("Type"@), ObjectView::Name(key("Pages"@))),
        (key("Kids"@), ObjectView::Array(st.2)),
        (key("Count"@), ObjectView::Integer(st.3 as i64)),
    ]);
    let pages_obj = PdfObject::Dictionary(PdfDictionary { entries: page_entries });
    assert(obj_view(pages_obj) == merged_pages(st.2, st.3));
    let ghost b2 = final_doc.objects@;
    final_doc.objects.insert(pages, pages_obj);
    proof {
        lemma_objects_view_insert(b2, pages, pages_obj);
    }
    let ghost t0 = final_doc.trailer@;
    final_doc.trailer.set(key_bytes("Info"), PdfObject::Reference(info_id));
    proof {
        crate::object::lemma_key_index_none(t0, key("Info"@));
        reveal_strlit("Root");
        reveal_strlit("Info");
        let t1 = final_doc.trailer@;
        assert(t1 =~= seq![(key("Info"@), ObjectView::Reference((1u32, 0u16)))]);
        assert(t1[0].0[0] != key("Root"@)[0]);
        crate::object::lemma_key_index_none(t1, key("Root"@));
    }
    final_doc.trailer.set(key_bytes("Root"), PdfObject::Reference(root));
    assert(final_doc.trailer@ =~= merged_trailer());
    let ghost objs = objects_view(final_doc.objects@);
    assert(objs == st.0.insert((3u32, 0u16), merged_pages(st.2, st.3)));
    final_doc.prune_objects();
    assert(objects_view(final_doc.objects@).dom() =~= final_doc.objects@.dom());
    assert(objects_view(final_doc.objects@) == crate::document::pruned(objs, merged_trailer()));
    if final_doc.objects.len() >= u32::MAX as usize {
        assert(merge_spec(docs, info) is None);
        return None;
    }
    renumber_objects_with(&mut final_doc, 1);
    assert(merge_spec(docs, info) is Some);
    Some(Ok(final_doc))
}

/// Merges patched documents, one page each, into one document: each
/// document's first page joins the new page tree in order, its fonts `F1`
/// and `F2` are replaced by those of the first document, its other objects
/// follow it; the unused objects are pruned and the rest renumbered from 1.
pub fn merge_patched_docs(files: Vec<PdfDocument>) -> (r: Result<PdfDocument, PdfError>)
    requires
        forall|info: ObjectView|
            #![trigger merge_spec(docs_view(files@), info)]
            is_info(info, CREATOR.spec_bytes(), PRODUCER.spec_bytes()) ==> merge_spec(docs_view(files@), info) is Some,
    ensures
        exists|info: ObjectView|
            #![trigger merge_spec(docs_view(files@), info)]
            {
                &&& is_info(info, CREATOR.spec_bytes(), PRODUCER.spec_bytes())
                &&& match merge_spec(docs_view(files@), info)->0 {
                    Ok((o, t, m)) => r matches Ok(d) && objects_view(d.objects@) == o && d.trailer@ == t && d.max_id == m
                        && d.version@ == "1.7"@,
                    Err(e) => r == Err::<PdfDocument, PdfError>(e),
                }
            },
{
    let ghost docs = docs_view(files@);
    match merge_patched_docs_checked(files) {
        Some(res) => res,
        None => {
            proof {
                let info = choose|info: ObjectView|
                    #![trigger merge_spec(docs, info)]
                    {
                        &&& is_info(info, CREATOR.spec_bytes(), PRODUCER.spec_bytes())
                        &&& match merge_spec(docs, info) {
                            None => true,
                            Some(_) => false,
                        }
                    };
                assert(merge_spec(docs, info) is Some);
            }
            Err(PdfError::ObjectNotFound)
        },
    }
}

/// A merge that stops (refused, or with an error) after the first `i`
/// documents stops the same way for all of them.
proof fn lemma_fold_stops(st: MergeState, docs: Seq<DocModel>, i: int)
    requires
        0 <= i <= docs.len(),
        !(merge_fold(st, docs.take(i)) matches Some(Ok(_))),
    ensures
        merge_fold(st, docs) == merge_fold(st, docs.take(i)),
    decreases docs.len(),
{
    if i == docs.len() {
        assert(docs.take(i) =~= docs);
    } else {
        assert(docs.drop_last().take(i) =~= docs.take(i));
        lemma_fold_stops(st, docs.drop_last(), i);
    }
}

/// Merging never changes the shared fonts once chosen: a merge step that
/// starts with a first font and a second font keeps them.
pub proof fn lemma_merge_step_keeps_fonts(st: MergeState, d: DocModel)
    requires
        st.4 is Some,
        st.5 is Some,
        merge_step(st, d) matches Some(Ok(s2)),
    ensures
        merge_step(st, d) matches Some(Ok(s2)) && s2.4 == st.4 && s2.5 == st.5,
{
}

/// Every document merged after the first shares the first document's fonts:
/// once the merge has chosen its two fonts, merging more documents keeps
/// them.
pub proof fn lemma_merge_keeps_fonts(st: MergeState, docs: Seq<DocModel>)
    requires
        st.4 is Some,
        st.5 is Some,
        merge_fold(st, docs) matches Some(Ok(s2)),
    ensures
        merge_fold(st, docs) matches Some(Ok(s2)) && s2.4 == st.4 && s2.5 == st.5,
    decreases docs.len(),
{
    if docs.len() > 0 {
        lemma_merge_keeps_fonts(st, docs.drop_last());
        let s1 = merge_fold(st, docs.drop_last())->Some_0->Ok_0;
        lemma_merge_step_keeps_fonts(s1, docs.last());
    }
}

/// After the first document is merged, the shared fonts are chosen.
pub proof fn lemma_first_merge_chooses_fonts(st: MergeState, d: DocModel)
    requires
        merge_step(st, d) matches Some(Ok(s2)),
    ensures
        merge_step(st, d) matches Some(Ok(s2)) && s2.4 is Some && s2.5 is Some,
{
}

} // verus!
