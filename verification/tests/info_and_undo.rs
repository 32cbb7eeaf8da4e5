use std::collections::BTreeMap;

use leafedit::apply::edits_on_doc;
use leafedit::command::Information;
use leafedit::display::{from_file, from_file_checked, get_page_width_height, to_number, Dimension, Extent};
use leafedit::document::{PdfDocument, PdfError};
use leafedit::object::{PdfDictionary, PdfObject, PdfStream};
use leafedit::undo::{remove_last, undo_last, undo_last_checked};

fn name(s: &str) -> PdfObject {
    PdfObject::Name(s.as_bytes().to_vec())
}

fn dobj(entries: Vec<(&str, PdfObject)>) -> PdfObject {
    PdfObject::Dictionary(PdfDictionary { entries: entries.into_iter().map(|(k, v)| (k.as_bytes().to_vec(), v)).collect() })
}

fn real_obj(x: f64) -> PdfObject {
    PdfObject::Real(lopdf::Object::Real(x))
}

fn one_page_doc(media_box: PdfObject) -> PdfDocument {
    let mut objects = BTreeMap::new();
    objects.insert((1, 0), dobj(vec![("Type", name("Catalog")), ("Pages", PdfObject::Reference((2, 0)))]));
    objects.insert(
        (2, 0),
        dobj(vec![("Type", name("Pages")), ("Kids", PdfObject::Array(vec![PdfObject::Reference((3, 0))])), ("Count", PdfObject::Integer(1))]),
    );
    objects.insert((3, 0), dobj(vec![("Type", name("Page")), ("Parent", PdfObject::Reference((2, 0))), ("MediaBox", media_box)]));
    let trailer = PdfDictionary { entries: vec![(b"Root".to_vec(), PdfObject::Reference((1, 0)))] };
    PdfDocument { version: "1.5".to_string(), trailer, objects, max_id: 3 }
}

fn edit_doc(content: &[u8]) -> PdfDocument {
    let mut objects = BTreeMap::new();
    objects.insert(
        (6, 0),
        PdfObject::Stream(PdfStream {
            dict: PdfDictionary { entries: vec![(b"Length".to_vec(), PdfObject::Integer(content.len() as i64))] },
            content: content.to_vec(),
            allows_compression: true,
            start_position: None,
        }),
    );
    PdfDocument { version: "1.4".to_string(), trailer: PdfDictionary::new(), objects, max_id: 6 }
}

fn edit_content(doc: &PdfDocument) -> String {
    match doc.objects.get(&(6, 0)) {
        Some(PdfObject::Stream(s)) => String::from_utf8(s.content.clone()).unwrap(),
        other => panic!("unexpected {:?}", other),
    }
}

fn size_of(about: Information, doc: &PdfDocument) -> Option<(Extent, Extent)> {
    from_file(&about, doc).unwrap()
}

#[test]
fn page_size_of_whole_numbers() {
    let doc = one_page_doc(PdfObject::Array(vec![
        PdfObject::Integer(0),
        PdfObject::Integer(0),
        PdfObject::Integer(595),
        PdfObject::Integer(842),
    ]));
    let about = Information::PageSize { page: 1, file: "a.pdf".to_string() };
    match size_of(about, &doc) {
        Some((Extent::Whole(595), Extent::Whole(842))) => {}
        other => panic!("unexpected {:?}", other),
    }
}

#[test]
fn page_size_of_reals() {
    let doc = one_page_doc(PdfObject::Array(vec![PdfObject::Integer(0), PdfObject::Integer(0), real_obj(612.5), real_obj(792.25)]));
    let about = Information::PageSize { page: 1, file: String::new() };
    match size_of(about, &doc) {
        Some((
            Extent::Between(Dimension::Whole(0), Dimension::Real(lopdf::Object::Real(w))),
            Extent::Between(Dimension::Whole(0), Dimension::Real(lopdf::Object::Real(h))),
        )) => {
            assert_eq!(w, 612.5);
            assert_eq!(h, 792.25);
        }
        other => panic!("unexpected {:?}", other),
    }
}

#[test]
fn page_size_not_numbers_is_none() {
    let doc = one_page_doc(PdfObject::Array(vec![PdfObject::Integer(0), PdfObject::Integer(0), name("x"), PdfObject::Integer(1)]));
    let about = Information::PageSize { page: 1, file: String::new() };
    assert!(size_of(about, &doc).is_none());
}

#[test]
fn page_size_checked_refuses_missing_page() {
    let doc = one_page_doc(PdfObject::Array(vec![PdfObject::Integer(0), PdfObject::Integer(0), PdfObject::Integer(1), PdfObject::Integer(2)]));
    assert!(from_file_checked(&Information::PageSize { page: 2, file: String::new() }, &doc).is_none());
    assert!(from_file_checked(&Information::PageSize { page: 0, file: String::new() }, &doc).is_none());
    let short = one_page_doc(PdfObject::Array(vec![PdfObject::Integer(0)]));
    assert!(from_file_checked(&Information::PageSize { page: 1, file: String::new() }, &short).is_none());
    assert!(from_file_checked(&Information::PageSize { page: 1, file: String::new() }, &doc).is_some());
}

#[test]
fn width_height_errors() {
    assert_eq!(get_page_width_height(&PdfObject::Integer(1)).err(), Some(PdfError::Type));
    assert_eq!(get_page_width_height(&dobj(vec![])).err(), Some(PdfError::DictKey));
    assert_eq!(get_page_width_height(&dobj(vec![("MediaBox", PdfObject::Null)])).err(), Some(PdfError::Type));
    assert!(matches!(to_number(&PdfObject::Integer(1 << 33)), Ok(Dimension::Whole(0))));
    assert_eq!(to_number(&PdfObject::Null).err(), Some(PdfError::Type));
}

#[test]
fn edits_append_to_edit_stream() {
    let mut doc = edit_doc(b"q 1 w Q\n");
    edits_on_doc(&mut doc, b"q 2 w Q\n".to_vec()).unwrap();
    assert_eq!(edit_content(&doc), "q 1 w Q\nq 2 w Q\n");
    match doc.objects.get(&(6, 0)) {
        Some(PdfObject::Stream(s)) => assert!(matches!(s.dict.get(b"Length"), Some(PdfObject::Integer(16)))),
        other => panic!("unexpected {:?}", other),
    }
}

#[test]
fn edits_need_edit_stream() {
    let mut doc = edit_doc(b"");
    doc.objects.insert((6, 0), PdfObject::Null);
    assert_eq!(edits_on_doc(&mut doc, vec![]), Err(PdfError::Type));
    doc.objects.clear();
    assert_eq!(edits_on_doc(&mut doc, vec![]), Err(PdfError::ObjectNotFound));
}

#[test]
fn undo_last_removes_last_edit() {
    let mut doc = edit_doc(b"q 1 w Q\nq 2 w q 3 w Q Q\n");
    undo_last(&mut doc).unwrap();
    let left = edit_content(&doc);
    assert!(left.contains("1 w"));
    assert!(!left.contains("2 w"));
    assert!(!left.contains("3 w"));
}

#[test]
fn undo_last_of_empty_stream_changes_nothing() {
    let mut doc = edit_doc(b"");
    assert_eq!(undo_last(&mut doc), Ok(()));
    assert_eq!(edit_content(&doc), "");
}

#[test]
fn undo_last_errors() {
    // lopdf reads no operation from bytes that do not start with one
    let mut bad = edit_doc(b"1 2 (never closed");
    assert_eq!(undo_last(&mut bad), Ok(()));
    assert_eq!(edit_content(&bad), "");
    let mut not_stream = PdfObject::Integer(1);
    assert_eq!(remove_last(&mut not_stream), Err(PdfError::Type));
    let mut empty = edit_doc(b"");
    empty.objects.clear();
    assert_eq!(undo_last(&mut empty), Err(PdfError::ObjectNotFound));
}

#[test]
fn undo_last_checked_answers() {
    let mut doc = edit_doc(b"q 1 w Q\n");
    assert_eq!(undo_last_checked(&mut doc), Some(Ok(())));
    assert_eq!(edit_content(&doc), "");
}

#[test]
fn page_size_is_box_width_and_height() {
    let doc = one_page_doc(PdfObject::Array(vec![
        PdfObject::Integer(10),
        PdfObject::Integer(10),
        PdfObject::Integer(622),
        PdfObject::Integer(802),
    ]));
    let about = Information::PageSize { page: 1, file: String::new() };
    match size_of(about, &doc) {
        Some((Extent::Whole(612), Extent::Whole(792))) => {}
        other => panic!("unexpected {:?}", other),
    }
}

#[test]
fn page_size_inherited_from_page_tree() {
    let mut doc = one_page_doc(PdfObject::Null);
    doc.objects.insert((3, 0), dobj(vec![("Type", name("Page")), ("Parent", PdfObject::Reference((2, 0)))]));
    doc.objects.insert(
        (2, 0),
        dobj(vec![
            ("Type", name("Pages")),
            ("Kids", PdfObject::Array(vec![PdfObject::Reference((3, 0))])),
            ("Count", PdfObject::Integer(1)),
            (
                "MediaBox",
                PdfObject::Array(vec![
                    PdfObject::Integer(0),
                    PdfObject::Integer(0),
                    PdfObject::Integer(612),
                    PdfObject::Integer(792),
                ]),
            ),
        ]),
    );
    let about = Information::PageSize { page: 1, file: String::new() };
    match size_of(about, &doc) {
        Some((Extent::Whole(612), Extent::Whole(792))) => {}
        other => panic!("unexpected {:?}", other),
    }
}

#[test]
fn page_size_without_any_media_box_is_none() {
    let mut doc = one_page_doc(PdfObject::Null);
    doc.objects.insert((3, 0), dobj(vec![("Type", name("Page")), ("Parent", PdfObject::Reference((2, 0)))]));
    let about = Information::PageSize { page: 1, file: String::new() };
    assert!(size_of(about, &doc).is_none());
}
