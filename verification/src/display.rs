use vstd::prelude::*;
use crate::bridge::{page_ids, page_tree};
use crate::traverse::clone_real;
use crate::command::Information;
use crate::content::ObjectId;
use crate::document::{PdfDocument, PdfError, object_at, objects_view};
use crate::object::{ObjectView, PdfObject, dict_get, key, key_bytes, lemma_array_view, obj_view};

verus! {

/// One side of a page box: a whole number, or a real number as it was read
/// (which is shown in single precision).
#[derive(Debug)]
pub enum Dimension {
    Whole(i32),
    Real(lopdf::Object),
}

/// The model of a side of a page box.
pub enum DimensionView {
    Whole(i32),
    Real(lopdf::Object),
}

impl View for Dimension {
    type V = DimensionView;

    open spec fn view(&self) -> DimensionView {
        match self {
            Dimension::Whole(i) => DimensionView::Whole(*i),
            Dimension::Real(r) => DimensionView::Real(*r),
        }
    }
}

/// A number of a page box: an integer cut to 32 bits, or a real; anything
/// else is a type error.
pub open spec fn number_of(o: ObjectView) -> Result<DimensionView, PdfError> {
    match o {
        ObjectView::Real(r) => Ok(DimensionView::Real(r)),
        ObjectView::Integer(i) => Ok(DimensionView::Whole(i as i32)),
        _ => Err(PdfError::Type),
    }
}

/// The number an object holds.
pub fn to_number(num: &PdfObject) -> (r: Result<Dimension, PdfError>)
    ensures
        number_of(obj_view(*num)) == match r {
            Ok(d) => Ok::<DimensionView, PdfError>(d@),
            Err(e) => Err(e),
        },
{
    match num {
        PdfObject::Real(width) => Ok(Dimension::Real(clone_real(width))),
        PdfObject::Integer(width) => Ok(Dimension::Whole(*width as i32)),
        _ => Err(PdfError::Type),
    }
}

/// One extent of a page (its width or its height): the difference of two
/// whole numbers, or the two numbers themselves when one of them is a real,
/// for the difference to be taken in floating point.
#[derive(Debug)]
pub enum Extent {
    Whole(i64),
    /// From the low side to the high side: the extent is `high - low`.
    Between(Dimension, Dimension),
}

/// The model of an extent.
pub enum ExtentView {
    Whole(i64),
    Between(DimensionView, DimensionView),
}

impl View for Extent {
    type V = ExtentView;

    open spec fn view(&self) -> ExtentView {
        match self {
            Extent::Whole(i) => ExtentView::Whole(*i),
            Extent::Between(lo, hi) => ExtentView::Between(lo@, hi@),
        }
    }
}

/// The extent from `lo` to `hi`: `hi - lo` when both are whole numbers.
pub open spec fn extent_of(lo: DimensionView, hi: DimensionView) -> ExtentView {
    match (lo, hi) {
        (DimensionView::Whole(l), DimensionView::Whole(h)) => ExtentView::Whole((h - l) as i64),
        _ => ExtentView::Between(lo, hi),
    }
}

/// Whether a media box, where it is an array, has its four numbers.
pub open spec fn box_complete(b: ObjectView) -> bool {
    b matches ObjectView::Array(a) ==> a.len() >= 4
}

/// The size of a page whose media box is `b` (`[llx lly urx ury]`): the
/// width `urx - llx` and the height `ury - lly`; a type error where the box
/// is not an array or one of its four entries is not a number.
pub open spec fn box_size(b: ObjectView) -> Result<(ExtentView, ExtentView), PdfError> {
    match b {
        ObjectView::Array(a) => match number_of(a[0]) {
            Err(e) => Err(e),
            Ok(llx) => match number_of(a[1]) {
                Err(e) => Err(e),
                Ok(lly) => match number_of(a[2]) {
                    Err(e) => Err(e),
                    Ok(urx) => match number_of(a[3]) {
                        Err(e) => Err(e),
                        Ok(ury) => Ok((extent_of(llx, urx), extent_of(lly, ury))),
                    },
                },
            },
        },
        _ => Err(PdfError::Type),
    }
}

/// The page's own media box entry, if it is a dictionary with one.
pub open spec fn own_box(page: ObjectView) -> Option<ObjectView> {
    match page {
        ObjectView::Dictionary(d) => dict_get(d, key("MediaBox"@)),
        _ => None,
    }
}

/// Whether a page's own media box, where it is an array, has its four numbers.
pub open spec fn media_box_complete(page: ObjectView) -> bool {
    own_box(page) matches Some(b) ==> box_complete(b)
}

/// The size of a page from its own media box, or the error met on the way.
pub open spec fn page_width_height(page: ObjectView) -> Result<(ExtentView, ExtentView), PdfError> {
    match page {
        ObjectView::Dictionary(d) => match own_box(page) {
            Some(b) => box_size(b),
            None => Err(PdfError::DictKey),
        },
        _ => Err(PdfError::Type),
    }
}

fn extent(lo: Dimension, hi: Dimension) -> (r: Extent)
    ensures
        r@ == extent_of(lo@, hi@),
{
    match (lo, hi) {
        (Dimension::Whole(l), Dimension::Whole(h)) => Extent::Whole(h as i64 - l as i64),
        (lo, hi) => Extent::Between(lo, hi),
    }
}

/// The size of a page whose media box is `media_box`.
pub fn get_box_size(media_box: &PdfObject) -> (r: Result<(Extent, Extent), PdfError>)
    requires
        box_complete(obj_view(*media_box)),
    ensures
        box_size(obj_view(*media_box)) == match r {
            Ok((w, h)) => Ok::<(ExtentView, ExtentView), PdfError>((w@, h@)),
            Err(e) => Err(e),
        },
{
    let a = match media_box {
        PdfObject::Array(a) => a,
        _ => {
            return Err(PdfError::Type);
        },
    };
    proof {
        lemma_array_view(a@);
    }
    let llx = match to_number(&a[0]) {
        Ok(v) => v,
        Err(e) => {
            return Err(e);
        },
    };
    let lly = match to_number(&a[1]) {
        Ok(v) => v,
        Err(e) => {
            return Err(e);
        },
    };
    let urx = match to_number(&a[2]) {
        Ok(v) => v,
        Err(e) => {
            return Err(e);
        },
    };
    let ury = match to_number(&a[3]) {
        Ok(v) => v,
        Err(e) => {
            return Err(e);
        },
    };
    Ok((extent(llx, urx), extent(lly, ury)))
}

/// The width and height of a page from its own media box.
pub fn get_page_width_height(page_obj: &PdfObject) -> (r: Result<(Extent, Extent), PdfError>)
    requires
        media_box_complete(obj_view(*page_obj)),
    ensures
        page_width_height(obj_view(*page_obj)) == match r {
            Ok((w, h)) => Ok::<(ExtentView, ExtentView), PdfError>((w@, h@)),
            Err(e) => Err(e),
        },
{
    let k = key_bytes("MediaBox");
    let d = match page_obj {
        PdfObject::Dictionary(d) => d,
        _ => {
            return Err(PdfError::Type);
        },
    };
    match d.get(k.as_slice()) {
        Some(b) => get_box_size(b),
        None => Err(PdfError::DictKey),
    }
}

/// The media box that applies to a page: its own, or else the nearest one
/// among the page tree nodes above it, following `Parent` references at most
/// `fuel` times.
pub open spec fn inherited_box(objects: Map<ObjectId, PdfObject>, node: ObjectView, fuel: nat) -> Option<ObjectView>
    decreases fuel,
{
    match node {
        ObjectView::Dictionary(d) => match dict_get(d, key("MediaBox"@)) {
            Some(b) => Some(b),
            None => match dict_get(d, key("Parent"@)) {
                Some(ObjectView::Reference(pid)) => if fuel == 0 {
                    None
                } else {
                    match object_at(objects, pid) {
                        Ok(p) => inherited_box(objects, p, (fuel - 1) as nat),
                        Err(_) => None,
                    }
                },
                _ => None,
            },
        },
        _ => None,
    }
}

/// The media box of a page of a document: followed up as many levels as the
/// document has objects, which a chain of distinct page tree nodes never
/// exceeds.
pub open spec fn page_box(doc: PdfDocument, page: ObjectView) -> Option<ObjectView> {
    inherited_box(doc.objects@, page, doc.objects@.dom().len())
}

/// A page's own media box comes first: when the page dictionary has a
/// `MediaBox` entry, that entry is the box used for it, whatever its page
/// tree ancestors hold. A page without one takes the box of its parent when
/// the parent has its own.
pub proof fn lemma_own_box_first(doc: PdfDocument, page: ObjectView, pid: ObjectId, parent: ObjectView)
    ensures
        own_box(page) matches Some(b) ==> page_box(doc, page) == Some(b),
        page is Dictionary && own_box(page) is None && dict_get(page->Dictionary_0, key("Parent"@)) == Some(
            ObjectView::Reference(pid),
        ) && object_at(doc.objects@, pid) == Ok::<ObjectView, PdfError>(parent) && own_box(parent) is Some ==> page_box(
            doc,
            page,
        ) == own_box(parent),
{
    if page is Dictionary && own_box(page) is None && dict_get(page->Dictionary_0, key("Parent"@)) == Some(
        ObjectView::Reference(pid),
    ) && object_at(doc.objects@, pid) == Ok::<ObjectView, PdfError>(parent) && own_box(parent) is Some {
        assert(doc.objects@.dom().contains(pid));
        assert(doc.objects@.dom().len() >= 1) by {
            vstd::set_lib::lemma_len_subset(set![pid], doc.objects@.dom());
        }
        let n = doc.objects@.dom().len();
        assert(inherited_box(doc.objects@, parent, (n - 1) as nat) == own_box(parent));
    }
}

/// The size of a page of a document, its media box inherited where the page
/// has none; a key error where no media box applies.
pub open spec fn page_size(doc: PdfDocument, page: ObjectView) -> Result<(ExtentView, ExtentView), PdfError> {
    match page_box(doc, page) {
        Some(b) => box_size(b),
        None => Err(PdfError::DictKey),
    }
}

fn find_box<'a>(doc: &'a PdfDocument, page_obj: &'a PdfObject) -> (r: Option<&'a PdfObject>)
    ensures
        page_box(*doc, obj_view(*page_obj)) == match r {
            Some(b) => Some(obj_view(*b)),
            None => None,
        },
{
    let mut node = page_obj;
    let n = doc.objects.len();
    let mut fuel = n;
    let k = key_bytes("MediaBox");
    let p = key_bytes("Parent");
    loop
        invariant
            page_box(*doc, obj_view(*page_obj)) == inherited_box(doc.objects@, obj_view(*node), fuel as nat),
            k@ == key("MediaBox"@),
            p@ == key("Parent"@),
        decreases fuel,
    {
        let d = match node {
            PdfObject::Dictionary(d) => d,
            _ => {
                return None;
            },
        };
        match d.get(k.as_slice()) {
            Some(b) => {
                return Some(b);
            },
            None => {},
        }
        let pid = match d.get(p.as_slice()) {
            Some(PdfObject::Reference(pid)) => *pid,
            _ => {
                return None;
            },
        };
        if fuel == 0 {
            return None;
        }
        match doc.get_object(pid) {
            Ok(o) => {
                node = o;
            },
            Err(_) => {
                return None;
            },
        }
        fuel = fuel - 1;
    }
}

/// The size of a page of a document (see [`page_size`]).
pub fn get_page_size(doc: &PdfDocument, page_obj: &PdfObject) -> (r: Result<(Extent, Extent), PdfError>)
    requires
        page_box(*doc, obj_view(*page_obj)) matches Some(b) ==> box_complete(b),
    ensures
        page_size(*doc, obj_view(*page_obj)) == match r {
            Ok((w, h)) => Ok::<(ExtentView, ExtentView), PdfError>((w@, h@)),
            Err(e) => Err(e),
        },
{
    match find_box(doc, page_obj) {
        Some(b) => get_box_size(b),
        None => Err(PdfError::DictKey),
    }
}

/// [`get_page_size`] where it can answer: `None` when the media box that
/// applies to the page is an array of fewer than four entries.
pub fn get_page_size_checked(doc: &PdfDocument, page_obj: &PdfObject) -> (r: Option<Result<(Extent, Extent), PdfError>>)
    ensures
        r is Some <==> (page_box(*doc, obj_view(*page_obj)) matches Some(b) ==> box_complete(b)),
        r matches Some(res) ==> page_size(*doc, obj_view(*page_obj)) == match res {
            Ok((w, h)) => Ok::<(ExtentView, ExtentView), PdfError>((w@, h@)),
            Err(e) => Err(e),
        },
{
    if let Some(PdfObject::Array(a)) = find_box(doc, page_obj) {
        proof {
            lemma_array_view(a@);
        }
        if a.len() < 4 {
            return None;
        }
    }
    Some(get_page_size(doc, page_obj))
}

/// The page that `page` numbers (from 1) among the pages of a document.
pub open spec fn numbered_page(doc: PdfDocument, page: u32) -> ObjectId {
    page_tree(objects_view(doc.objects@), doc.trailer@)[page - 1]
}

/// Whether the page size of page `page` can be read without a refusal: the
/// page exists and the media box that applies to it, if an array, has four
/// numbers.
pub open spec fn page_size_readable(doc: PdfDocument, page: u32) -> bool {
    &&& 1 <= page <= page_tree(objects_view(doc.objects@), doc.trailer@).len()
    &&& (object_at(doc.objects@, numbered_page(doc, page)) matches Ok(o) ==> (page_box(doc, o) matches Some(b)
        ==> box_complete(b)))
}

/// What `info` reports of a document: for the page size, the width and
/// height of the page from the media box that applies to it (its own or an
/// inherited one), `None` when they cannot be read, or the error of looking
/// the page up.
pub fn from_file(about: &Information, doc: &PdfDocument) -> (r: Result<Option<(Extent, Extent)>, PdfError>)
    requires
        match about {
            Information::PageSize { page, file } => page_size_readable(*doc, *page),
        },
    ensures
        match about {
            Information::PageSize { page, file } => match object_at(doc.objects@, numbered_page(*doc, *page)) {
                Err(e) => r == Err::<Option<(Extent, Extent)>, PdfError>(e),
                Ok(o) => r matches Ok(size) && match page_size(*doc, o) {
                    Ok((w, h)) => size matches Some((a, b)) && a@ == w && b@ == h,
                    Err(_) => size is None,
                },
            },
        },
{
    match about {
        Information::PageSize { page, file: _ } => {
            let pages = page_ids(doc);
            let page_id = pages[(*page - 1) as usize];
            let page_obj = match doc.get_object(page_id) {
                Ok(o) => o,
                Err(e) => {
                    return Err(e);
                },
            };
            match get_page_size(doc, page_obj) {
                Ok(size) => Ok(Some(size)),
                Err(_) => Ok(None),
            }
        },
    }
}

/// [`from_file`] where it can answer: `None` when the page does not exist or
/// the media box that applies to it is too short, where `from_file` would
/// refuse.
pub fn from_file_checked(about: &Information, doc: &PdfDocument) -> (r: Option<Result<Option<(Extent, Extent)>, PdfError>>)
    ensures
        match about {
            Information::PageSize { page, file } => (r is Some <==> page_size_readable(*doc, *page)),
        },
        r matches Some(res) ==> match about {
            Information::PageSize { page, file } => match object_at(doc.objects@, numbered_page(*doc, *page)) {
                Err(e) => res == Err::<Option<(Extent, Extent)>, PdfError>(e),
                Ok(o) => res matches Ok(size) && match page_size(*doc, o) {
                    Ok((w, h)) => size matches Some((a, b)) && a@ == w && b@ == h,
                    Err(_) => size is None,
                },
            },
        },
{
    match about {
        Information::PageSize { page, file: _ } => {
            let pages = page_ids(doc);
            if *page < 1 || (*page - 1) as usize >= pages.len() {
                return None;
            }
            let page_id = pages[(*page - 1) as usize];
            match doc.get_object(page_id) {
                Ok(page_obj) => {
                    if let Some(PdfObject::Array(a)) = find_box(doc, page_obj) {
                        proof {
                            lemma_array_view(a@);
                        }
                        if a.len() < 4 {
                            return None;
                        }
                    }
                },
                Err(_) => {},
            }
            Some(from_file(about, doc))
        },
    }
}

} // verus!
