use vstd::prelude::*;
use std::collections::BTreeMap;
use crate::content::{ObjectId, PdfOperation};
use crate::document::{PdfDocument, PdfError, objects_view};
use crate::object::{DictView, ObjectView, PdfDictionary, PdfObject, PdfStream, StrFormat, array_view, key, obj_view};

verus! {

/// `lopdf`'s dictionary type.
#[verifier::external_type_specification]
#[verifier::external_body]
pub struct ExLopdfDictionary(lopdf::Dictionary);

/// `lopdf`'s stream type.
#[verifier::external_type_specification]
#[verifier::external_body]
pub struct ExLopdfStream(lopdf::Stream);

/// `lopdf`'s string format type.
#[verifier::external_type_specification]
#[verifier::external_body]
pub struct ExLopdfStrFormat(lopdf::StringFormat);

/// `lopdf`'s content-stream operation type.
#[verifier::external_type_specification]
#[verifier::external_body]
pub struct ExLopdfOperation(lopdf::content::Operation);

/// `lopdf`'s document type.
#[verifier::external_type_specification]
#[verifier::external_body]
pub struct ExLopdfDocument(lopdf::Document);

// ------------------------------------------------------------ conversions
// Each of these changes a value's type one for one, field by field.

/// `lopdf`'s string format of the same name.
#[verifier::external_body]
fn lopdf_format(f: StrFormat) -> lopdf::StringFormat {
    match f {
        StrFormat::Literal => lopdf::StringFormat::Literal,
        StrFormat::Hexadecimal => lopdf::StringFormat::Hexadecimal,
    }
}

/// The string format of the same name as `lopdf`'s.
#[verifier::external_body]
fn pdf_format(f: &lopdf::StringFormat) -> StrFormat {
    match f {
        lopdf::StringFormat::Literal => StrFormat::Literal,
        lopdf::StringFormat::Hexadecimal => StrFormat::Hexadecimal,
    }
}

/// The `lopdf` object with the same contents.
#[verifier::external_body]
fn lopdf_object(o: &PdfObject) -> lopdf::Object {
    match o {
        PdfObject::Null => lopdf::Object::Null,
        PdfObject::Boolean(b) => lopdf::Object::Boolean(*b),
        PdfObject::Integer(i) => lopdf::Object::Integer(*i),
        PdfObject::Real(r) => r.clone(),
        PdfObject::Name(n) => lopdf::Object::Name(n.clone()),
        PdfObject::String(s, f) => lopdf::Object::String(s.clone(), lopdf_format(*f)),
        PdfObject::Array(v) => lopdf::Object::Array(v.iter().map(lopdf_object).collect()),
        PdfObject::Dictionary(d) => lopdf::Object::Dictionary(lopdf_dictionary(d)),
        PdfObject::Stream(s) => lopdf::Object::Stream(lopdf_stream(s)),
        PdfObject::Reference(id) => lopdf::Object::Reference(*id),
    }
}

/// The `lopdf` dictionary with the same entries, in the same order.
#[verifier::external_body]
fn lopdf_dictionary(d: &PdfDictionary) -> lopdf::Dictionary {
    d.entries.iter().map(|(k, v)| (k.clone(), lopdf_object(v))).collect()
}

/// The `lopdf` stream with the same dictionary and content.
#[verifier::external_body]
fn lopdf_stream(s: &PdfStream) -> lopdf::Stream {
    lopdf::Stream {
        dict: lopdf_dictionary(&s.dict),
        content: s.content.clone(),
        allows_compression: s.allows_compression,
        start_position: s.start_position,
    }
}

/// The `lopdf` document with the same version, trailer, objects and largest id.
#[verifier::external_body]
fn lopdf_document(doc: &PdfDocument) -> lopdf::Document {
    let mut out = lopdf::Document::new();
    out.version = doc.version.clone();
    out.trailer = lopdf_dictionary(&doc.trailer);
    out.objects = doc.objects.iter().map(|(k, v)| (*k, lopdf_object(v))).collect();
    out.max_id = doc.max_id;
    out
}

/// The object with the same contents as an `lopdf` object.
#[verifier::external_body]
fn pdf_object(o: &lopdf::Object) -> PdfObject {
    match o {
        lopdf::Object::Null => PdfObject::Null,
        lopdf::Object::Boolean(b) => PdfObject::Boolean(*b),
        lopdf::Object::Integer(i) => PdfObject::Integer(*i),
        lopdf::Object::Real(_) => PdfObject::Real(o.clone()),
        lopdf::Object::Name(n) => PdfObject::Name(n.clone()),
        lopdf::Object::String(s, f) => PdfObject::String(s.clone(), pdf_format(f)),
        lopdf::Object::Array(v) => PdfObject::Array(v.iter().map(pdf_object).collect()),
        lopdf::Object::Dictionary(d) => PdfObject::Dictionary(pdf_dictionary(d)),
        lopdf::Object::Stream(s) => PdfObject::Stream(pdf_stream(s)),
        lopdf::Object::Reference(id) => PdfObject::Reference(*id),
    }
}

/// The dictionary with the same entries as an `lopdf` dictionary, in order.
#[verifier::external_body]
fn pdf_dictionary(d: &lopdf::Dictionary) -> PdfDictionary {
    PdfDictionary { entries: d.iter().map(|(k, v)| (k.clone(), pdf_object(v))).collect() }
}

/// The stream with the same dictionary and content as an `lopdf` stream.
#[verifier::external_body]
fn pdf_stream(s: &lopdf::Stream) -> PdfStream {
    PdfStream {
        dict: pdf_dictionary(&s.dict),
        content: s.content.clone(),
        allows_compression: s.allows_compression,
        start_position: s.start_position,
    }
}

/// The objects of an `lopdf` document, by id.
#[verifier::external_body]
fn pdf_objects(doc: &lopdf::Document) -> BTreeMap<ObjectId, PdfObject> {
    doc.objects.iter().map(|(k, v)| (*k, pdf_object(v))).collect()
}

/// The `lopdf` operation with the same operator and operands.
#[verifier::external_body]
fn lopdf_operation(o: &PdfOperation<PdfObject>) -> lopdf::content::Operation {
    lopdf::content::Operation { operator: o.operator.clone(), operands: o.operands.iter().map(lopdf_object).collect() }
}

/// The operation with the same operator and operands as an `lopdf` one.
#[verifier::external_body]
fn pdf_operation(o: &lopdf::content::Operation) -> PdfOperation<PdfObject> {
    PdfOperation { operator: o.operator.clone(), operands: o.operands.iter().map(pdf_object).collect() }
}

// ------------------------------------------------------------ calls

/// The model of a content-stream operation on objects: operator and operands.
pub type OpModel = (Seq<char>, Seq<ObjectView>);

/// The model of an operation.
pub open spec fn op_model(o: PdfOperation<PdfObject>) -> OpModel {
    (o.operator@, array_view(o.operands@))
}

/// The models of a list of operations.
pub open spec fn ops_model(v: Seq<PdfOperation<PdfObject>>) -> Seq<OpModel> {
    v.map_values(|o: PdfOperation<PdfObject>| op_model(o))
}

/// The operations `lopdf` reads from content bytes; `None` where they do not
/// parse (a function of the bytes).
pub uninterp spec fn decoded_content(content: Seq<u8>) -> Option<Seq<OpModel>>;

/// `lopdf`'s `Content::decode` (which `Stream::decode_content` applies to a
/// stream's content): the operations of the content, or a content-decoding
/// error where the bytes do not parse.
#[verifier::external_body]
pub(crate) fn decode_content(content: &Vec<u8>) -> (r: Result<Vec<PdfOperation<PdfObject>>, PdfError>)
    ensures
        match decoded_content(content@) {
            Some(ops) => r matches Ok(v) && ops_model(v@) == ops,
            None => r == Err::<Vec<PdfOperation<PdfObject>>, PdfError>(PdfError::ContentDecode),
        },
{
    match lopdf::content::Content::decode(content) {
        Ok(c) => Ok(c.operations.iter().map(pdf_operation).collect()),
        Err(_) => Err(PdfError::ContentDecode),
    }
}

/// The bytes `lopdf` writes for operations; `None` where writing fails (a
/// function of the operations).
pub uninterp spec fn encoded_content(ops: Seq<OpModel>) -> Option<Seq<u8>>;

/// `lopdf`'s `Content::encode`: the bytes of the operations, each written as
/// its operands and operator on a line.
#[verifier::external_body]
pub(crate) fn encode_content(ops: &Vec<PdfOperation<PdfObject>>) -> (r: Result<Vec<u8>, PdfError>)
    ensures
        match encoded_content(ops_model(ops@)) {
            Some(b) => r matches Ok(v) && v@ == b,
            None => r == Err::<Vec<u8>, PdfError>(PdfError::ContentEncode),
        },
{
    let content = lopdf::content::Content { operations: ops.iter().map(lopdf_operation).collect::<Vec<_>>() };
    content.encode().map_err(|_| PdfError::ContentEncode)
}


/// The ids of the pages of a document, in page order, as `lopdf`'s page tree
/// walk finds them (a function of the objects and the trailer).
pub uninterp spec fn page_tree(objects: Map<ObjectId, ObjectView>, trailer: DictView) -> Seq<ObjectId>;

/// `lopdf`'s `Document::page_iter`: the ids of the pages, in order, found by
/// walking the page tree from the catalog. Nothing more is claimed of the
/// result than that it is the walk's result on these objects and trailer.
#[verifier::external_body]
pub(crate) fn page_ids(doc: &PdfDocument) -> (r: Vec<ObjectId>)
    ensures
        r@ == page_tree(objects_view(doc.objects@), doc.trailer@),
{
    lopdf_document(doc).page_iter().collect()
}

/// The dictionary and content of a stream once `lopdf` has undone its
/// filters, or both unchanged where it cannot (a function of the two).
pub uninterp spec fn decompressed(dict: DictView, content: Seq<u8>) -> (DictView, Seq<u8>);

/// An integer entry of a predictor's parameters lies in `lo..=hi`; an entry
/// that is not an integer is read as its default, which does.
pub open spec fn int_within(o: ObjectView, lo: int, hi: int) -> bool {
    o matches ObjectView::Integer(v) ==> lo <= v <= hi
}

/// A `Predictor` value that selects a PNG predictor.
pub open spec fn selects_predictor(o: ObjectView) -> bool {
    o matches ObjectView::Integer(v) && 10 <= v <= 15
}

/// Decoding parameters that `lopdf` can undo a PNG predictor with: when a
/// `Predictor` entry selects one (10 to 15), every `Columns` entry is an
/// integer from 0 to 65536 and every `Colors` and `BitsPerComponent` entry
/// one from 0 to 64 (or not an integer). Outside these, `lopdf` converts a
/// negative or huge value to a row size whose allocation panics.
pub open spec fn predictor_params_safe(p: DictView) -> bool {
    (exists|j: int| 0 <= j < p.len() && (#[trigger] p[j]).0 == key("Predictor"@) && selects_predictor(p[j].1)) ==> forall|j: int|
        0 <= j < p.len() ==> {
            &&& (#[trigger] p[j]).0 == key("Columns"@) ==> int_within(p[j].1, 0, 65536)
            &&& p[j].0 == key("Colors"@) ==> int_within(p[j].1, 0, 64)
            &&& p[j].0 == key("BitsPerComponent"@) ==> int_within(p[j].1, 0, 64)
        }
}

/// A stream dictionary whose every `DecodeParms` dictionary is safe for
/// [`predictor_params_safe`].
pub open spec fn decompress_safe(d: DictView) -> bool {
    forall|i: int|
        0 <= i < d.len() && (#[trigger] d[i]).0 == key("DecodeParms"@) ==> (d[i].1 matches ObjectView::Dictionary(p)
            ==> predictor_params_safe(p))
}

/// `lopdf`'s `Stream::decompress`: undoes the stream's filters where it can,
/// which changes its dictionary and content only. A stream whose decoding
/// parameters would make `lopdf` panic is left out (see [`decompress_safe`]).
#[verifier::external_body]
pub(crate) fn decompress(stream: &mut PdfStream)
    requires
        decompress_safe(old(stream).dict@),
    ensures
        (final(stream).dict@, final(stream).content@) == decompressed(old(stream).dict@, old(stream).content@),
        final(stream).allows_compression == old(stream).allows_compression,
        final(stream).start_position == old(stream).start_position,
{
    let mut s = lopdf_stream(stream);
    s.decompress();
    *stream = pdf_stream(&s);
}

/// The ids of the objects that `lopdf`'s pruning removes: those that no
/// reference reached from the trailer leads to (a function of the objects
/// and the trailer).
pub uninterp spec fn pruned_ids(objects: Map<ObjectId, ObjectView>, trailer: DictView) -> Seq<ObjectId>;

/// `lopdf`'s `Document::prune_objects`, run on a copy of the document: the
/// ids of the objects it removes. Which ids those are is left to the name
/// [`pruned_ids`].
#[verifier::external_body]
pub(crate) fn unused_object_ids(doc: &PdfDocument) -> (r: Vec<ObjectId>)
    ensures
        r@ == pruned_ids(objects_view(doc.objects@), doc.trailer@),
{
    lopdf_document(doc).prune_objects()
}

/// The objects and trailer after `lopdf` renumbers a document from `start`: the
/// objects get consecutive numbers in the order of their ids, and the
/// references in the trailer and in the objects reached from it are changed
/// to match.
pub uninterp spec fn renumbered_from(objects: Map<ObjectId, ObjectView>, trailer: DictView, start: u32) -> (
    Map<ObjectId, ObjectView>,
    DictView,
);

/// `lopdf`'s `Document::renumber_objects_with`: gives the objects consecutive
/// numbers from `start`, one each (so their count stays), changes the
/// references reached from the trailer to match, and sets the largest id to
/// the last number given. Which references those are is left to the name
/// [`renumbered_from`].
#[verifier::external_body]
pub(crate) fn renumber_objects_with(doc: &mut PdfDocument, start: u32)
    requires
        1 <= start,
        start + old(doc).objects@.dom().len() <= u32::MAX,
    ensures
        ({
            let r = renumbered_from(objects_view(old(doc).objects@), old(doc).trailer@, start);
            &&& objects_view(final(doc).objects@) == r.0
            &&& final(doc).trailer@ == r.1
        }),
        final(doc).objects@.dom().len() == old(doc).objects@.dom().len(),
        final(doc).max_id == start + old(doc).objects@.dom().len() - 1,
        final(doc).version@ == old(doc).version@,
{
    let mut d = lopdf_document(doc);
    d.renumber_objects_with(start);
    doc.objects = pdf_objects(&d);
    doc.trailer = pdf_dictionary(&d.trailer);
    doc.max_id = d.max_id;
}

/// A date as `lopdf` writes one: a literal string that starts with `D:`.
pub open spec fn is_date(o: ObjectView) -> bool {
    o matches ObjectView::String(s, StrFormat::Literal) && s.len() >= 2 && s[0] == 68u8 && s[1] == 58u8
}

/// The time of the call as `lopdf` writes a date (`chrono`'s local time):
/// a literal string that starts with `D:`. Which time it holds is not claimed.
#[verifier::external_body]
pub(crate) fn creation_date() -> (r: PdfObject)
    ensures
        is_date(obj_view(r)),
{
    pdf_object(&lopdf::Object::from(chrono::Local::now()))
}

} // verus!
