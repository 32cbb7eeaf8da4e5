use std::collections::BTreeMap;

use leafedit::document::{PdfDocument, PdfError};
use leafedit::map::Mapper;
use leafedit::object::{bytes_eq, key_bytes, PdfDictionary, PdfObject};
use leafedit::traverse::{apply_pass_to_document, clean_arrays_object, clean_dicts_object, renumber_object, Pass};

fn dict(entries: Vec<(&str, PdfObject)>) -> PdfDictionary {
    PdfDictionary { entries: entries.into_iter().map(|(k, v)| (k.as_bytes().to_vec(), v)).collect() }
}

fn keys(d: &PdfDictionary) -> Vec<String> {
    d.entries.iter().map(|(k, _)| String::from_utf8(k.clone()).unwrap()).collect()
}

fn doc_with(objects: Vec<((u32, u16), PdfObject)>) -> PdfDocument {
    let mut map = BTreeMap::new();
    let mut max = 0;
    for (id, o) in objects {
        max = max.max(id.0);
        map.insert(id, o);
    }
    PdfDocument { version: "1.5".to_string(), trailer: PdfDictionary::new(), objects: map, max_id: max }
}

#[test]
fn dictionary_set_moves_key_to_end() {
    let mut d = dict(vec![("A", PdfObject::Integer(1)), ("B", PdfObject::Integer(2))]);
    d.set(b"A".to_vec(), PdfObject::Integer(3));
    assert_eq!(keys(&d), vec!["B", "A"]);
    assert!(matches!(d.get(b"A"), Some(PdfObject::Integer(3))));
    assert_eq!(d.len(), 2);
}

#[test]
fn dictionary_put_replaces_in_place() {
    let mut d = dict(vec![("A", PdfObject::Integer(1)), ("B", PdfObject::Integer(2))]);
    let old = d.put(b"A".to_vec(), PdfObject::Integer(3));
    assert!(matches!(old, Some(PdfObject::Integer(1))));
    assert_eq!(keys(&d), vec!["A", "B"]);
    let none = d.put(b"C".to_vec(), PdfObject::Null);
    assert!(none.is_none());
    assert_eq!(keys(&d), vec!["A", "B", "C"]);
}

#[test]
fn dictionary_remove_keeps_order() {
    let mut d = dict(vec![("A", PdfObject::Integer(1)), ("B", PdfObject::Integer(2)), ("C", PdfObject::Integer(3))]);
    assert!(matches!(d.remove(b"B"), Some(PdfObject::Integer(2))));
    assert!(d.remove(b"Z").is_none());
    assert_eq!(keys(&d), vec!["A", "C"]);
    assert!(d.has(b"C"));
    assert!(!d.has(b"B"));
    assert_eq!(d.index_of(b"C"), Some(1));
}

#[test]
fn key_bytes_and_equality() {
    assert_eq!(key_bytes("Font"), b"Font".to_vec());
    assert!(bytes_eq(b"ab", b"ab"));
    assert!(!bytes_eq(b"ab", b"abc"));
    assert_eq!(PdfObject::Reference((4, 0)).as_reference(), Some((4, 0)));
    assert_eq!(PdfObject::Null.as_reference(), None);
}

#[test]
fn get_object_follows_references() {
    let doc = doc_with(vec![
        ((1, 0), PdfObject::Reference((2, 0))),
        ((2, 0), PdfObject::Reference((3, 0))),
        ((3, 0), PdfObject::Integer(42)),
    ]);
    assert!(matches!(doc.get_object((1, 0)), Ok(PdfObject::Integer(42))));
    assert_eq!(doc.resolve((1, 0)), Ok((3, 0)));
}

#[test]
fn get_object_missing_is_not_found() {
    let doc = doc_with(vec![((1, 0), PdfObject::Reference((9, 0)))]);
    assert_eq!(doc.resolve((5, 0)), Err(PdfError::ObjectNotFound));
    assert_eq!(doc.resolve((1, 0)), Err(PdfError::ObjectNotFound));
}

#[test]
fn get_object_long_chain_hits_limit() {
    let mut objects = vec![];
    for i in 1..=200u32 {
        objects.push(((i, 0), PdfObject::Reference((i + 1, 0))));
    }
    objects.push(((201, 0), PdfObject::Null));
    let doc = doc_with(objects);
    assert_eq!(doc.resolve((1, 0)), Err(PdfError::ReferenceLimit));
    assert_eq!(doc.resolve((100, 0)), Ok((201, 0)));
}

#[test]
fn new_and_add_object_ids() {
    let mut doc = PdfDocument::with_version("1.7".to_string());
    assert_eq!(doc.new_object_id(), (1, 0));
    assert_eq!(doc.add_object(PdfObject::Null), (2, 0));
    assert_eq!(doc.max_id, 2);
    assert_eq!(doc.object_ids(), vec![(2, 0)]);
}

#[test]
fn mapper_starts_with_free_zero() {
    let doc = doc_with(vec![((3, 0), PdfObject::Null), ((1, 0), PdfObject::Null), ((2, 1), PdfObject::Null)]);
    let m = Mapper::new(&doc);
    assert_eq!(m.iter(), &vec![None, Some((1, 0)), Some((2, 1)), Some((3, 0))]);
    assert_eq!(m.len(), 3);
    assert_eq!(m.index_of((2, 1)), Some(2));
    assert_eq!(m.index_of((9, 0)), None);
}

#[test]
fn mapper_remap_and_free() {
    let doc = doc_with(vec![((1, 0), PdfObject::Null), ((2, 0), PdfObject::Null), ((3, 0), PdfObject::Null)]);
    let mut m = Mapper::new(&doc);
    assert_eq!(m.remap((3, 0), 1), 3);
    assert_eq!(m.iter(), &vec![None, Some((3, 0)), Some((1, 0)), Some((2, 0))]);
    m.free_id_at(2);
    assert_eq!(m.iter(), &vec![None, Some((3, 0)), None, Some((1, 0)), Some((2, 0))]);
    m.free_ids_starting_from(2, 2);
    assert_eq!(m.iter(), &vec![None, Some((3, 0)), None, None, None, Some((1, 0)), Some((2, 0))]);
    m.map_to_last((1, 0));
    assert_eq!(m.index_of((1, 0)), Some(6));
    m.remove_id_at(&(2, 0), true);
    m.remove_id_at(&(8, 0), true);
    assert_eq!(m.get_stream_ids(), &vec![(2, 0)]);
    assert_eq!(m.iter(), &vec![None, Some((3, 0)), None, None, None, Some((1, 0))]);
}

#[test]
fn renumber_object_by_map() {
    let doc = doc_with(vec![((7, 0), PdfObject::Null), ((9, 0), PdfObject::Null)]);
    let m = Mapper::new(&doc);
    let o = PdfObject::Array(vec![PdfObject::Reference((9, 0)), PdfObject::Reference((5, 0)), PdfObject::Integer(1)]);
    match renumber_object(&o, &m) {
        PdfObject::Array(v) => {
            assert!(matches!(v[0], PdfObject::Reference((2, 0))));
            assert!(matches!(v[1], PdfObject::Reference((0, 0))));
            assert!(matches!(v[2], PdfObject::Integer(1)));
        }
        other => panic!("unexpected {:?}", other),
    }
}

#[test]
fn clean_arrays_drops_leading_null_references() {
    let o = PdfObject::Array(vec![
        PdfObject::Reference((0, 0)),
        PdfObject::Reference((3, 0)),
        PdfObject::Reference((0, 0)),
        PdfObject::Integer(5),
        PdfObject::Reference((0, 0)),
    ]);
    match clean_arrays_object(&o) {
        PdfObject::Array(v) => {
            assert_eq!(v.len(), 3);
            assert!(matches!(v[0], PdfObject::Reference((3, 0))));
            assert!(matches!(v[1], PdfObject::Integer(5)));
            assert!(matches!(v[2], PdfObject::Reference((0, 0))));
        }
        other => panic!("unexpected {:?}", other),
    }
}

#[test]
fn clean_dicts_drops_null_entries() {
    let inner = PdfObject::Dictionary(dict(vec![("X", PdfObject::Array(vec![])), ("Y", PdfObject::Integer(1))]));
    let o = PdfObject::Dictionary(dict(vec![
        ("A", PdfObject::Reference((0, 0))),
        ("B", inner),
        ("C", PdfObject::Reference((1, 0))),
    ]));
    match clean_dicts_object(&o) {
        PdfObject::Dictionary(d) => {
            assert_eq!(keys(&d), vec!["B", "C"]);
            match d.get(b"B") {
                Some(PdfObject::Dictionary(i)) => assert_eq!(keys(i), vec!["Y"]),
                other => panic!("unexpected {:?}", other),
            }
        }
        other => panic!("unexpected {:?}", other),
    }
}

#[test]
fn pass_rewrites_every_object() {
    let mut doc = doc_with(vec![((4, 0), PdfObject::Reference((6, 0))), ((6, 0), PdfObject::Reference((4, 0)))]);
    let m = Mapper::new(&doc);
    apply_pass_to_document(&mut doc, Pass::Renumber, &m);
    assert!(matches!(doc.objects.get(&(4, 0)), Some(PdfObject::Reference((2, 0)))));
    assert!(matches!(doc.objects.get(&(6, 0)), Some(PdfObject::Reference((1, 0)))));
}
