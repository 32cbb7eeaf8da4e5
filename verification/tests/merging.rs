use std::collections::BTreeMap;

use leafedit::document::{PdfDocument, PdfError};
use leafedit::merger::{merge_patched_docs, merge_patched_docs_checked, LazyFontId};
use leafedit::object::{PdfDictionary, PdfObject};

fn name(s: &str) -> PdfObject {
    PdfObject::Name(s.as_bytes().to_vec())
}

fn dobj(entries: Vec<(&str, PdfObject)>) -> PdfObject {
    PdfObject::Dictionary(PdfDictionary { entries: entries.into_iter().map(|(k, v)| (k.as_bytes().to_vec(), v)).collect() })
}

/// A patched one-page document: catalog 2, page tree 3, page 4, resources 7,
/// fonts 8 (F1 -> 10, F2 -> 11, F3 -> 12), fonts 10 to 12.
fn patched_doc(label: &str) -> PdfDocument {
    let mut objects = BTreeMap::new();
    objects.insert((2, 0), dobj(vec![("Type", name("Catalog")), ("Pages", PdfObject::Reference((3, 0)))]));
    objects.insert(
        (3, 0),
        dobj(vec![("Type", name("Pages")), ("Kids", PdfObject::Array(vec![PdfObject::Reference((4, 0))])), ("Count", PdfObject::Integer(1))]),
    );
    objects.insert(
        (4, 0),
        dobj(vec![("Type", name("Page")), ("Parent", PdfObject::Reference((3, 0))), ("Resources", PdfObject::Reference((7, 0)))]),
    );
    objects.insert((7, 0), dobj(vec![("Font", PdfObject::Reference((8, 0)))]));
    objects.insert(
        (8, 0),
        dobj(vec![
            ("F1", PdfObject::Reference((10, 0))),
            ("F2", PdfObject::Reference((11, 0))),
            ("F3", PdfObject::Reference((12, 0))),
        ]),
    );
    objects.insert((10, 0), dobj(vec![("Type", name("Font")), ("BaseFont", name("First"))]));
    objects.insert((11, 0), dobj(vec![("Type", name("Font")), ("BaseFont", name("Second"))]));
    objects.insert((12, 0), dobj(vec![("Type", name("Font")), ("BaseFont", name(label))]));
    let trailer = PdfDictionary {
        entries: vec![(b"Root".to_vec(), PdfObject::Reference((2, 0)))],
    };
    PdfDocument { version: "1.4".to_string(), trailer, objects, max_id: 12 }
}

fn dict_of<'a>(doc: &'a PdfDocument, id: (u32, u16)) -> &'a PdfDictionary {
    match doc.objects.get(&id) {
        Some(PdfObject::Dictionary(d)) => d,
        other => panic!("not a dictionary at {:?}: {:?}", id, other),
    }
}

fn resolve_dict<'a>(doc: &'a PdfDocument, o: Option<&PdfObject>) -> &'a PdfDictionary {
    match o {
        Some(PdfObject::Reference(id)) => dict_of(doc, *id),
        other => panic!("not a reference: {:?}", other),
    }
}

#[test]
fn lazy_font_keeps_first_ids() {
    let mut fonts = LazyFontId::new();
    assert_eq!(fonts.get_f1((10, 0)), (10, 0));
    assert_eq!(fonts.get_f1((30, 0)), (10, 0));
    assert_eq!(fonts.get_f2((11, 0)), (11, 0));
    assert_eq!(fonts.get_f2((31, 0)), (11, 0));
    assert_eq!(fonts.get_f1((40, 0)), (10, 0));
}

#[test]
fn merge_two_documents_shares_fonts() {
    let merged = merge_patched_docs(vec![patched_doc("One"), patched_doc("Two")]).ok().unwrap();
    assert_eq!(merged.version, "1.7");
    let root = resolve_dict(&merged, merged.trailer.get(b"Root"));
    let pages = resolve_dict(&merged, root.get(b"Pages"));
    assert!(matches!(pages.get(b"Count"), Some(PdfObject::Integer(2))));
    let kids = match pages.get(b"Kids") {
        Some(PdfObject::Array(k)) => k,
        other => panic!("unexpected {:?}", other),
    };
    assert_eq!(kids.len(), 2);
    let mut first_fonts = vec![];
    let mut labels = vec![];
    for kid in kids {
        let page = resolve_dict(&merged, Some(kid));
        let resources = resolve_dict(&merged, page.get(b"Resources"));
        let fonts = resolve_dict(&merged, resources.get(b"Font"));
        let keys: Vec<Vec<u8>> = fonts.entries.iter().map(|(k, _)| k.clone()).collect();
        assert_eq!(keys, vec![b"F1".to_vec(), b"F2".to_vec(), b"F3".to_vec()]);
        first_fonts.push((fonts.get(b"F1").unwrap().as_reference(), fonts.get(b"F2").unwrap().as_reference()));
        let own = resolve_dict(&merged, fonts.get(b"F3"));
        labels.push(own.get(b"BaseFont").map(|o| match o {
            PdfObject::Name(n) => n.clone(),
            _ => vec![],
        }));
    }
    assert_eq!(first_fonts[0], first_fonts[1]);
    assert_eq!(labels, vec![Some(b"One".to_vec()), Some(b"Two".to_vec())]);
    assert!(merged.trailer.get(b"Info").is_some());
    assert_eq!(merged.max_id as usize, merged.objects.len());
}

#[test]
fn merge_nothing_gives_empty_page_tree() {
    let merged = merge_patched_docs(vec![]).ok().unwrap();
    let root = resolve_dict(&merged, merged.trailer.get(b"Root"));
    let pages = resolve_dict(&merged, root.get(b"Pages"));
    assert!(matches!(pages.get(b"Count"), Some(PdfObject::Integer(0))));
}

#[test]
fn merge_without_pages_fails() {
    let mut doc = patched_doc("One");
    doc.trailer = PdfDictionary::new();
    assert_eq!(merge_patched_docs(vec![doc]).err(), Some(PdfError::PageNumberNotFound(1)));
}

#[test]
fn merge_without_second_font_fails() {
    let mut doc = patched_doc("One");
    doc.objects.insert((8, 0), dobj(vec![("F1", PdfObject::Reference((10, 0)))]));
    assert_eq!(merge_patched_docs(vec![doc]).err(), Some(PdfError::DictKey));
}

#[test]
fn merge_with_inline_resources_fails() {
    let mut doc = patched_doc("One");
    doc.objects.insert(
        (4, 0),
        dobj(vec![("Type", name("Page")), ("Parent", PdfObject::Reference((3, 0))), ("Resources", dobj(vec![]))]),
    );
    assert_eq!(merge_patched_docs(vec![doc]).err(), Some(PdfError::Type));
}

#[test]
fn merge_checked_answers_small_merges() {
    match merge_patched_docs_checked(vec![patched_doc("One"), patched_doc("Two")]) {
        Some(Ok(merged)) => assert_eq!(merged.version, "1.7"),
        other => panic!("unexpected {:?}", other.map(|r| r.err())),
    }
    assert!(matches!(merge_patched_docs_checked(vec![]), Some(Err(_)) | Some(Ok(_))));
}
