use std::collections::BTreeMap;

use leafedit::analyze::{check_resources, get_page_contents, modify_map, Marks, ResourcesPlace};
use leafedit::constants::{f_10, f_11, f_12, f_13, f_14, f_15, f_16, f_17, f_18, CREATOR, PRODUCER};
use leafedit::document::{PdfDocument, PdfError};
use leafedit::map::Mapper;
use leafedit::modify::{apply_marks, collect_streams, create_info_obj, modify_main, modify_obj, purge_root};
use leafedit::object::{PdfDictionary, PdfObject, PdfStream, StrFormat};
use leafedit::patch::{
    add_strean, change_font_names, embed_font_files, extract, finish_patch, find_all_form_streams, font_name_bytes,
    modify, patch, rename_font, FontFiles,
};
use leafedit::content::PdfOperation;
use leafedit::apply::edits_on_doc;

fn name(s: &str) -> PdfObject {
    PdfObject::Name(s.as_bytes().to_vec())
}

fn dict(entries: Vec<(&str, PdfObject)>) -> PdfDictionary {
    PdfDictionary { entries: entries.into_iter().map(|(k, v)| (k.as_bytes().to_vec(), v)).collect() }
}

fn dobj(entries: Vec<(&str, PdfObject)>) -> PdfObject {
    PdfObject::Dictionary(dict(entries))
}

fn stream(entries: Vec<(&str, PdfObject)>, content: &[u8]) -> PdfObject {
    PdfObject::Stream(PdfStream {
        dict: dict(entries),
        content: content.to_vec(),
        allows_compression: true,
        start_position: None,
    })
}

fn keys(d: &PdfDictionary) -> Vec<String> {
    d.entries.iter().map(|(k, _)| String::from_utf8(k.clone()).unwrap()).collect()
}

/// A one-page document: catalog 1, page tree 2, page 3, content 4,
/// resources 5, fonts 6, font 7, information 8.
fn sample_doc() -> PdfDocument {
    let mut objects = BTreeMap::new();
    objects.insert((1, 0), dobj(vec![("Type", name("Catalog")), ("Pages", PdfObject::Reference((2, 0)))]));
    objects.insert(
        (2, 0),
        dobj(vec![
            ("Type", name("Pages")),
            ("Kids", PdfObject::Array(vec![PdfObject::Reference((3, 0))])),
            ("Count", PdfObject::Integer(1)),
        ]),
    );
    objects.insert(
        (3, 0),
        dobj(vec![
            ("Type", name("Page")),
            ("Parent", PdfObject::Reference((2, 0))),
            ("Contents", PdfObject::Reference((4, 0))),
            ("Resources", PdfObject::Reference((5, 0))),
            (
                "MediaBox",
                PdfObject::Array(vec![
                    PdfObject::Integer(0),
                    PdfObject::Integer(0),
                    PdfObject::Integer(595),
                    PdfObject::Integer(842),
                ]),
            ),
        ]),
    );
    objects.insert((4, 0), stream(vec![], b"BT /F1 12 Tf (Hi) Tj ET"));
    objects.insert((5, 0), dobj(vec![("Font", PdfObject::Reference((6, 0)))]));
    objects.insert((6, 0), dobj(vec![("F1", PdfObject::Reference((7, 0)))]));
    objects.insert((7, 0), dobj(vec![("Type", name("Font")), ("BaseFont", name("Helvetica"))]));
    objects.insert((8, 0), dobj(vec![("Producer", PdfObject::string_literal(b"x".to_vec()))]));
    let trailer = dict(vec![("Root", PdfObject::Reference((1, 0))), ("Info", PdfObject::Reference((8, 0)))]);
    PdfDocument { version: "1.5".to_string(), trailer, objects, max_id: 8 }
}

#[test]
fn marks_start_empty() {
    let m = Marks::new();
    assert!(!m.from_page_extract_resources);
    assert!(!m.from_resources_extract_fonts);
    assert_eq!(m.resources_object_dereference, ResourcesPlace::CurrentPage);
}

#[test]
fn check_resources_places() {
    assert_eq!(check_resources((2, 0), (3, 0), (3, 0)), ResourcesPlace::CurrentPage);
    assert_eq!(check_resources((2, 0), (3, 0), (2, 0)), ResourcesPlace::RootPage);
    assert_eq!(check_resources((2, 0), (3, 0), (9, 0)), ResourcesPlace::LastObject);
}

#[test]
fn page_contents_of_array_and_reference() {
    let doc = sample_doc();
    let page = doc.get_object((3, 0)).unwrap();
    assert_eq!(get_page_contents(&doc, page), vec![(4, 0)]);
    let two = dobj(vec![("Contents", PdfObject::Array(vec![PdfObject::Reference((4, 0)), PdfObject::Reference((9, 0))]))]);
    assert_eq!(get_page_contents(&doc, &two), vec![(4, 0), (9, 0)]);
    let none = dobj(vec![]);
    assert!(get_page_contents(&doc, &none).is_empty());
}

#[test]
fn modify_map_fixes_numbers() {
    let doc = sample_doc();
    let mut map = Mapper::new(&doc);
    let marks = modify_map(&doc, &mut map, 1).unwrap();
    assert_eq!(marks.resources_object_dereference, ResourcesPlace::CurrentPage);
    assert!(!marks.from_page_extract_resources);
    assert!(!marks.from_resources_extract_fonts);
    assert_eq!(map.index_of((8, 0)), Some(1));
    assert_eq!(map.index_of((1, 0)), Some(2));
    assert_eq!(map.index_of((2, 0)), Some(3));
    assert_eq!(map.index_of((3, 0)), Some(4));
    assert_eq!(map.index_of((5, 0)), Some(7));
    assert_eq!(map.index_of((6, 0)), Some(8));
    assert_eq!(map.index_of((7, 0)), Some(18));
    assert_eq!(map.index_of((4, 0)), None);
    assert_eq!(map.get_stream_ids(), &vec![(4, 0)]);
    assert_eq!(map.len(), 18);
}

#[test]
fn modify_map_missing_page_is_error() {
    let doc = sample_doc();
    let mut map = Mapper::new(&doc);
    assert_eq!(modify_map(&doc, &mut map, 2).err(), Some(PdfError::PageNumberNotFound(2)));
}

#[test]
fn modify_map_inline_pages_is_mismatch() {
    let mut doc = sample_doc();
    doc.objects.insert((1, 0), dobj(vec![("Type", name("Catalog")), ("Pages", dobj(vec![]))]));
    let mut map = Mapper::new(&doc);
    assert_eq!(modify_map(&doc, &mut map, 1).err(), Some(PdfError::ObjectIdMismatch));
}

#[test]
fn modify_map_inline_resources_are_marked() {
    let mut doc = sample_doc();
    let page = doc.objects.get_mut(&(3, 0)).unwrap();
    if let PdfObject::Dictionary(d) = page {
        d.put(b"Resources".to_vec(), dobj(vec![("Font", dobj(vec![]))]));
    }
    let mut map = Mapper::new(&doc);
    let marks = modify_map(&doc, &mut map, 1).unwrap();
    assert!(marks.from_page_extract_resources);
    assert!(marks.from_resources_extract_fonts);
}

#[test]
fn modify_obj_swaps_value() {
    let mut o = dobj(vec![("A", PdfObject::Integer(1))]);
    let old = modify_obj(&mut o, b"A", PdfObject::Integer(2));
    assert!(matches!(old, Some(PdfObject::Integer(1))));
    let none = modify_obj(&mut o, b"B", PdfObject::Integer(3));
    assert!(none.is_none());
    match o {
        PdfObject::Dictionary(d) => assert_eq!(keys(&d), vec!["A", "B"]),
        other => panic!("unexpected {:?}", other),
    }
}

#[test]
fn purge_root_keeps_listed_keys() {
    let mut root = dobj(vec![("Type", name("Catalog")), ("Outlines", PdfObject::Reference((9, 0)))]);
    assert!(purge_root(&mut root, vec![b"Type".to_vec()]).is_ok());
    match &root {
        PdfObject::Dictionary(d) => {
            assert!(matches!(d.get(b"Type"), Some(PdfObject::Name(_))));
            assert!(matches!(d.get(b"Outlines"), Some(PdfObject::Reference((0, 0)))));
        }
        other => panic!("unexpected {:?}", other),
    }
    let mut not_dict = PdfObject::Integer(1);
    assert_eq!(purge_root(&mut not_dict, vec![]), Err(PdfError::Type));
}

#[test]
fn info_object_is_dated() {
    let info = create_info_obj(CREATOR, PRODUCER);
    match info {
        PdfObject::Dictionary(d) => {
            assert_eq!(keys(&d), vec!["Creator", "Producer", "CreationDate"]);
            match d.get(b"CreationDate") {
                Some(PdfObject::String(s, StrFormat::Literal)) => assert!(s.starts_with(b"D:")),
                other => panic!("unexpected {:?}", other),
            }
            assert!(matches!(d.get(b"Creator"), Some(PdfObject::String(s, _)) if s == CREATOR.as_bytes()));
        }
        other => panic!("unexpected {:?}", other),
    }
}

#[test]
fn collect_streams_decompresses() {
    let mut compressed = lopdf::Stream::new(lopdf::Dictionary::new(), b"q 1 0 0 1 5 5 cm Q".repeat(20));
    compressed.compress().unwrap();
    assert!(compressed.dict.get(b"Filter").is_ok());
    let content = compressed.content.clone();
    let mut doc = sample_doc();
    doc.objects.insert((9, 0), stream(vec![("Filter", name("FlateDecode"))], &content));
    let joined = collect_streams(&mut doc, &vec![(4, 0), (9, 0), (7, 0)]);
    let mut expected = vec![b'\n'];
    expected.extend_from_slice(b"BT /F1 12 Tf (Hi) Tj ET");
    expected.push(b'\n');
    expected.extend_from_slice(&b"q 1 0 0 1 5 5 cm Q".repeat(20));
    match joined {
        PdfObject::Stream(s) => {
            assert_eq!(s.content, expected);
            assert!(s.dict.entries.is_empty());
        }
        other => panic!("unexpected {:?}", other),
    }
    match doc.objects.get(&(9, 0)) {
        Some(PdfObject::Stream(s)) => {
            assert!(s.content.is_empty());
            assert!(!s.dict.has(b"Filter"));
        }
        other => panic!("unexpected {:?}", other),
    }
}

#[test]
fn modify_main_patches_sample() {
    let patched = modify_main(sample_doc(), 1).unwrap();
    assert_eq!(patched.version, "1.4");
    assert_eq!(patched.max_id, 18);
    assert!(matches!(patched.trailer.get(b"Root"), Some(PdfObject::Reference((2, 0)))));
    assert!(matches!(patched.trailer.get(b"Info"), Some(PdfObject::Reference((1, 0)))));
    match patched.objects.get(&(4, 0)) {
        Some(PdfObject::Dictionary(page)) => {
            assert!(matches!(page.get(b"Parent"), Some(PdfObject::Reference((3, 0)))));
            assert!(matches!(page.get(b"Resources"), Some(PdfObject::Reference((7, 0)))));
            match page.get(b"Contents") {
                Some(PdfObject::Array(v)) => {
                    assert!(matches!(v[0], PdfObject::Reference((5, 0))));
                    assert!(matches!(v[1], PdfObject::Reference((6, 0))));
                }
                other => panic!("unexpected {:?}", other),
            }
        }
        other => panic!("unexpected {:?}", other),
    }
    match patched.objects.get(&(5, 0)) {
        Some(PdfObject::Stream(s)) => assert_eq!(s.content, b"\nBT /F1 12 Tf (Hi) Tj ET".to_vec()),
        other => panic!("unexpected {:?}", other),
    }
    match patched.objects.get(&(7, 0)) {
        Some(PdfObject::Dictionary(r)) => {
            assert!(matches!(r.get(b"Font"), Some(PdfObject::Reference((8, 0)))));
            assert!(matches!(r.get(b"ExtGState"), Some(PdfObject::Reference((9, 0)))));
        }
        other => panic!("unexpected {:?}", other),
    }
    match patched.objects.get(&(8, 0)) {
        Some(PdfObject::Dictionary(f)) => assert!(matches!(f.get(b"F1"), Some(PdfObject::Reference((18, 0))))),
        other => panic!("unexpected {:?}", other),
    }
    match patched.objects.get(&(3, 0)) {
        Some(PdfObject::Dictionary(p)) => {
            assert!(!p.has(b"Resources"));
            assert!(matches!(p.get(b"Count"), Some(PdfObject::Integer(1))));
        }
        other => panic!("unexpected {:?}", other),
    }
    assert!(matches!(patched.objects.get(&(9, 0)), Some(PdfObject::Dictionary(d)) if d.entries.is_empty()));
}

#[test]
fn apply_marks_takes_out_inline_fonts() {
    let mut doc = PdfDocument::with_version("1.4".to_string());
    doc.objects.insert((3, 0), dobj(vec![("Type", name("Pages"))]));
    doc.objects.insert((4, 0), dobj(vec![("Type", name("Page"))]));
    doc.objects.insert((7, 0), dobj(vec![("Font", dobj(vec![("F1", PdfObject::Reference((18, 0)))]))]));
    let mut marks = Marks::new();
    marks.from_resources_extract_fonts = true;
    apply_marks(&mut doc, &marks);
    match doc.objects.get(&(8, 0)) {
        Some(PdfObject::Dictionary(f)) => assert!(matches!(f.get(b"F1"), Some(PdfObject::Reference((18, 0))))),
        other => panic!("unexpected {:?}", other),
    }
    match doc.objects.get(&(7, 0)) {
        Some(PdfObject::Dictionary(r)) => assert!(matches!(r.get(b"Font"), Some(PdfObject::Reference((8, 0))))),
        other => panic!("unexpected {:?}", other),
    }
}

#[test]
fn font_names_are_numbered() {
    assert_eq!(font_name_bytes(3), b"F3".to_vec());
    assert_eq!(font_name_bytes(12), b"F12".to_vec());
    assert_eq!(font_name_bytes(0), b"F0".to_vec());
}

#[test]
fn change_font_names_renumbers() {
    let mut d = dict(vec![("R7", PdfObject::Reference((20, 0))), ("TT1", PdfObject::Reference((21, 0)))]);
    let old = change_font_names(&mut d);
    assert_eq!(old, vec![b"R7".to_vec(), b"TT1".to_vec()]);
    assert_eq!(keys(&d), vec!["F1", "F2", "F3", "F4"]);
    assert!(matches!(d.get(b"F1"), Some(PdfObject::Reference((10, 0)))));
    assert!(matches!(d.get(b"F2"), Some(PdfObject::Reference((11, 0)))));
    assert!(matches!(d.get(b"F3"), Some(PdfObject::Reference((20, 0)))));
    assert!(matches!(d.get(b"F4"), Some(PdfObject::Reference((21, 0)))));
}

#[test]
fn rename_font_maps_old_name() {
    let old = vec![b"R7".to_vec(), b"TT1".to_vec()];
    let op = PdfOperation { operator: "Tf".to_string(), operands: vec![name("TT1"), PdfObject::Integer(9)] };
    let r = rename_font(op, &old);
    assert!(matches!(&r.operands[0], PdfObject::Name(n) if n == b"F4"));
    assert!(matches!(r.operands[1], PdfObject::Integer(9)));
    let other = PdfOperation { operator: "Tj".to_string(), operands: vec![name("TT1")] };
    let r = rename_font(other, &old);
    assert!(matches!(&r.operands[0], PdfObject::Name(n) if n == b"TT1"));
}

#[test]
fn extract_keeps_transformations() {
    let s = PdfStream {
        dict: PdfDictionary::new(),
        content: b"q 1 0 0 1 10 20 cm BT ET Q".to_vec(),
        allows_compression: true,
        start_position: None,
    };
    let ops = extract(&s, vec!["cm", "Q", "q"]);
    let names: Vec<String> = ops.iter().map(|o| o.operator.clone()).collect();
    assert_eq!(names, vec!["q", "cm", "Q"]);
    assert_eq!(ops[1].operands.len(), 6);
    let bad = PdfStream {
        dict: PdfDictionary::new(),
        content: b"1 2 (unclosed".to_vec(),
        allows_compression: true,
        start_position: None,
    };
    assert!(extract(&bad, vec!["cm"]).is_empty());
}

#[test]
fn modify_renames_and_sets_length() {
    let mut s = PdfStream {
        dict: dict(vec![("Length", PdfObject::Integer(0))]),
        content: b"BT /R7 12 Tf (Hi) Tj ET".to_vec(),
        allows_compression: true,
        start_position: None,
    };
    modify(&mut s, &vec![b"R7".to_vec()]);
    let text = String::from_utf8(s.content.clone()).unwrap();
    assert!(text.contains("/F3 12 Tf"));
    assert!(!text.contains("R7"));
    assert!(matches!(s.dict.get(b"Length"), Some(PdfObject::Integer(n)) if *n == s.content.len() as i64));
}

#[test]
fn find_forms_of_page_resources() {
    let mut doc = PdfDocument::with_version("1.4".to_string());
    doc.objects.insert((12, 0), stream(vec![("Subtype", name("Form")), ("Resources", PdfObject::Reference((7, 0)))], b""));
    doc.objects.insert((13, 0), stream(vec![("Subtype", name("Form")), ("Resources", PdfObject::Reference((8, 0)))], b""));
    doc.objects.insert((11, 0), stream(vec![("Subtype", name("Form")), ("Resources", PdfObject::Reference((7, 0)))], b""));
    doc.objects.insert((14, 0), dobj(vec![("Subtype", name("Form")), ("Resources", PdfObject::Reference((7, 0)))]));
    assert_eq!(find_all_form_streams(&doc), vec![(11, 0), (12, 0)]);
}

#[test]
fn add_strean_makes_empty_edit_stream() {
    let mut doc = PdfDocument::with_version("1.4".to_string());
    add_strean(&mut doc);
    match doc.objects.get(&(6, 0)) {
        Some(PdfObject::Stream(s)) => {
            assert!(s.content.is_empty());
            assert!(matches!(s.dict.get(b"Length"), Some(PdfObject::Integer(0))));
        }
        other => panic!("unexpected {:?}", other),
    }
}

fn files() -> FontFiles {
    FontFiles {
        liberation_to_unicode: b"cmap one".to_vec(),
        liberation_font: vec![1, 2, 3],
        symbola_to_unicode: b"cmap two".to_vec(),
        symbola_font: vec![4, 5],
    }
}

#[test]
fn font_constants_are_linked() {
    let f1 = f_10();
    assert!(matches!(f1.get(b"FontDescriptor"), Some(PdfObject::Reference((13, 0)))));
    assert!(matches!(f1.get(b"ToUnicode"), Some(PdfObject::Reference((12, 0)))));
    assert!(matches!(f1.get(b"Widths"), Some(PdfObject::Array(w)) if w.len() == 95));
    assert!(matches!(f_13().get(b"FontFile2"), Some(PdfObject::Reference((14, 0)))));
    assert!(matches!(f_11().get(b"ToUnicode"), Some(PdfObject::Reference((15, 0)))));
    assert!(matches!(f_16().get(b"FontDescriptor"), Some(PdfObject::Reference((17, 0)))));
    assert!(matches!(f_17().get(b"FontFile2"), Some(PdfObject::Reference((18, 0)))));
    let s = f_14(vec![9; 10]);
    assert!(matches!(s.dict.get(b"Length1"), Some(PdfObject::Integer(10))));
    assert!(!s.allows_compression);
    assert!(f_12(vec![1]).allows_compression);
    assert!(!f_15(vec![1]).allows_compression);
    assert!(matches!(f_18(vec![1, 2]).dict.get(b"Length"), Some(PdfObject::Integer(2))));
}

#[test]
fn embed_fonts_fill_ten_to_eighteen() {
    let mut doc = PdfDocument::with_version("1.4".to_string());
    embed_font_files(&mut doc, files());
    let ids: Vec<(u32, u16)> = doc.objects.keys().copied().collect();
    assert_eq!(ids, (10..=18).map(|i| (i, 0)).collect::<Vec<_>>());
    assert!(matches!(doc.objects.get(&(14, 0)), Some(PdfObject::Stream(s)) if s.content == vec![1, 2, 3]));
}

#[test]
fn patch_and_finish_sample() {
    let p = patch(sample_doc(), 1).ok().unwrap();
    assert_eq!(p.old_fonts, vec![b"F1".to_vec()]);
    match &p.transformations {
        Some(ops) => assert!(ops.is_empty()),
        None => panic!("content is a stream"),
    }
    let mut doc = p.doc;
    match doc.objects.get(&(8, 0)) {
        Some(PdfObject::Dictionary(f)) => {
            assert_eq!(keys(f), vec!["F1", "F2", "F3"]);
            assert!(matches!(f.get(b"F3"), Some(PdfObject::Reference((18, 0)))));
        }
        other => panic!("unexpected {:?}", other),
    }
    finish_patch(&mut doc, b"1 0 0 1 0 0 cm\n".to_vec(), &p.old_fonts, files());
    match doc.objects.get(&(5, 0)) {
        Some(PdfObject::Stream(s)) => {
            let text = String::from_utf8(s.content.clone()).unwrap();
            assert!(text.contains("/F3 12 Tf"));
            assert!(text.contains("cm"));
        }
        other => panic!("unexpected {:?}", other),
    }
    assert!(matches!(doc.objects.get(&(6, 0)), Some(PdfObject::Stream(s)) if s.content.is_empty()));
    assert!(doc.objects.contains_key(&(10, 0)));
    assert!(doc.objects.contains_key(&(1, 0)));
}

#[test]
fn patch_with_fonts_not_a_dictionary_fails() {
    let mut doc = sample_doc();
    doc.objects.insert((6, 0), PdfObject::Integer(5));
    assert_eq!(patch(doc, 1).err(), Some(PdfError::Type));
}

#[test]
fn edits_after_patching_go_to_edit_stream() {
    let p = patch(sample_doc(), 1).ok().unwrap();
    let mut doc = p.doc;
    doc.objects.insert((40, 0), PdfObject::Integer(7));
    finish_patch(&mut doc, Vec::new(), &p.old_fonts, files());
    assert!(!doc.objects.contains_key(&(40, 0)));
    let edit = b"q\nBT\n/F1 12 Tf\nET\nQ\n".to_vec();
    assert!(edits_on_doc(&mut doc, edit.clone()).is_ok());
    match doc.objects.get(&(6, 0)) {
        Some(PdfObject::Stream(s)) => assert_eq!(s.content, edit),
        other => panic!("unexpected {:?}", other),
    }
    match doc.objects.get(&(8, 0)) {
        Some(PdfObject::Dictionary(f)) => {
            assert!(matches!(f.get(b"F1"), Some(PdfObject::Reference((10, 0)))));
            assert!(matches!(f.get(b"F2"), Some(PdfObject::Reference((11, 0)))));
        }
        other => panic!("unexpected {:?}", other),
    }
    assert!(matches!(doc.objects.get(&(10, 0)), Some(PdfObject::Dictionary(_))));
    assert!(matches!(doc.objects.get(&(11, 0)), Some(PdfObject::Dictionary(_))));
}
