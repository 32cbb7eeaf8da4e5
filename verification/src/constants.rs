use vstd::prelude::*;
use crate::object::{DictView, ObjectView, PdfDictionary, PdfObject, PdfStream, StrFormat, entries_view, key, key_bytes, lemma_array_view, lemma_entries_view, obj_view, array_view};

verus! {

/// Who made the program, as patched documents name their creator.
pub const CREATOR: &'static str = "Ahmed Mohammed (ahmed_alaa_gomaa@outlook.com)";

/// The program, as patched documents name their producer.
pub const PRODUCER: &'static str = "leafedit (https://github.com/navyleaf/leafedit)";

/// Why a lookup in a dictionary failed.
#[derive(Debug, Clone, Copy, PartialEq, Eq)]
pub enum Error {
    /// The dictionary has no entry with that key.
    KeyNotPresent,
}

// ------------------------------------------------------------ the embedded fonts

/// A name, by its text.
pub open spec fn name_v(s: Seq<char>) -> ObjectView {
    ObjectView::Name(key(s))
}

/// A literal string, by its text.
pub open spec fn literal_v(s: Seq<char>) -> ObjectView {
    ObjectView::String(key(s), StrFormat::Literal)
}

/// A reference to object `n`.
pub open spec fn ref_v(n: u32) -> ObjectView {
    ObjectView::Reference((n, 0u16))
}

/// An array of integers.
pub open spec fn ints_v(s: Seq<i64>) -> ObjectView {
    ObjectView::Array(s.map_values(|i: i64| ObjectView::Integer(i)))
}

fn name_obj(s: &str) -> (r: PdfObject)
    ensures
        obj_view(r) == name_v(s@),
{
    PdfObject::Name(key_bytes(s))
}

fn literal_obj(s: &str) -> (r: PdfObject)
    ensures
        obj_view(r) == literal_v(s@),
{
    PdfObject::String(key_bytes(s), StrFormat::Literal)
}

fn ints_obj(v: &[i64]) -> (r: PdfObject)
    ensures
        obj_view(r) == ints_v(v@),
{
    let mut out: Vec<PdfObject> = Vec::new();
    let mut i: usize = 0;
    while i < v.len()
        invariant
            i <= v@.len(),
            out@.len() == i,
            forall|j: int| 0 <= j < i ==> obj_view(#[trigger] out@[j]) == ObjectView::Integer(v@[j]),
        decreases v@.len() - i,
    {
        out.push(PdfObject::Integer(v[i]));
        i = i + 1;
    }
    proof {
        lemma_array_view(out@);
        assert(array_view(out@) =~= v@.map_values(|i: i64| ObjectView::Integer(i)));
    }
    PdfObject::Array(out)
}

fn entry(k: &str, v: PdfObject) -> (r: (Vec<u8>, PdfObject))
    ensures
        r.0@ == key(k@),
        r.1 == v,
{
    (key_bytes(k), v)
}

/// The widths of the characters of the first embedded font.
pub open spec fn liberation_widths() -> Seq<i64> {
    seq![
        277i64, 277i64, 354i64, 556i64, 556i64, 889i64, 666i64, 190i64, 333i64, 333i64, 389i64, 583i64,
        277i64, 333i64, 277i64, 277i64, 556i64, 556i64, 556i64, 556i64, 556i64, 556i64, 556i64, 556i64,
        556i64, 556i64, 277i64, 277i64, 583i64, 583i64, 583i64, 556i64, 1015i64, 666i64, 666i64, 722i64,
        722i64, 666i64, 610i64, 777i64, 722i64, 277i64, 500i64, 666i64, 556i64, 833i64, 722i64, 777i64,
        666i64, 777i64, 722i64, 666i64, 610i64, 722i64, 666i64, 943i64, 666i64, 666i64, 610i64, 277i64,
        277i64, 277i64, 469i64, 556i64, 333i64, 556i64, 556i64, 500i64, 556i64, 556i64, 277i64, 556i64,
        556i64, 222i64, 222i64, 500i64, 222i64, 833i64, 556i64, 556i64, 556i64, 556i64, 333i64, 500i64,
        277i64, 556i64, 500i64, 722i64, 500i64, 500i64, 500i64, 333i64, 259i64, 333i64, 583i64
    ]
}

/// The first embedded font (`F1`, object 10): Liberation Sans for text.
pub open spec fn f_10_spec() -> DictView {
    seq![
        (key("Type"@), name_v("Font"@)),
        (key("Subtype"@), name_v("TrueType"@)),
        (key("BaseFont"@), name_v("AHUBPT+LiberationSans"@)),
        (key("FirstChar"@), ObjectView::Integer(32)),
        (key("LastChar"@), ObjectView::Integer(122)),
        (key("FontDescriptor"@), ref_v(13)),
        (key("Encoding"@), name_v("WinAnsiEncoding"@)),
        (key("Widths"@), ints_v(liberation_widths())),
        (key("ToUnicode"@), ref_v(12)),
    ]
}

/// The first embedded font (`F1`, object 10): Liberation Sans for text.
pub fn f_10() -> (d: PdfDictionary)
    ensures
        d@ == f_10_spec(),
{
    let widths: [i64; 95] = [
        277, 277, 354, 556, 556, 889, 666, 190, 333, 333, 389, 583,
        277, 333, 277, 277, 556, 556, 556, 556, 556, 556, 556, 556,
        556, 556, 277, 277, 583, 583, 583, 556, 1015, 666, 666, 722,
        722, 666, 610, 777, 722, 277, 500, 666, 556, 833, 722, 777,
        666, 777, 722, 666, 610, 722, 666, 943, 666, 666, 610, 277,
        277, 277, 469, 556, 333, 556, 556, 500, 556, 556, 277, 556,
        556, 222, 222, 500, 222, 833, 556, 556, 556, 556, 333, 500,
        277, 556, 500, 722, 500, 500, 500, 333, 259, 333, 583
    ];
    assert(widths@ =~= liberation_widths());
    let mut entries: Vec<(Vec<u8>, PdfObject)> = Vec::new();
    entries.push(entry("Type", name_obj("Font")));
    entries.push(entry("Subtype", name_obj("TrueType")));
    entries.push(entry("BaseFont", name_obj("AHUBPT+LiberationSans")));
    entries.push(entry("FirstChar", PdfObject::Integer(32)));
    entries.push(entry("LastChar", PdfObject::Integer(122)));
    entries.push(entry("FontDescriptor", PdfObject::Reference((13, 0))));
    entries.push(entry("Encoding", name_obj("WinAnsiEncoding")));
    entries.push(entry("Widths", ints_obj(&widths)));
    entries.push(entry("ToUnicode", PdfObject::Reference((12, 0))));
    proof {
        lemma_entries_view(entries@);
        assert(entries_view(entries@) =~= f_10_spec());
    }
    PdfDictionary { entries }
}

/// A stream of font data: its length given, compressed or not as asked.
pub open spec fn data_stream_spec(content: Seq<u8>, with_length1: bool, allows_compression: bool) -> ObjectView {
    let len = ObjectView::Integer(content.len() as i64);
    ObjectView::Stream(
        if with_length1 {
            seq![(key("Length"@), len), (key("Length1"@), len)]
        } else {
            seq![(key("Length"@), len)]
        },
        content,
        allows_compression,
        None,
    )
}

fn data_stream(content: Vec<u8>, with_length1: bool, allows_compression: bool) -> (s: PdfStream)
    ensures
        obj_view(PdfObject::Stream(s)) == data_stream_spec(content@, with_length1, allows_compression),
{
    let len = content.len() as i64;
    let mut entries: Vec<(Vec<u8>, PdfObject)> = Vec::new();
    entries.push(entry("Length", PdfObject::Integer(len)));
    if with_length1 {
        entries.push(entry("Length1", PdfObject::Integer(len)));
    }
    proof {
        lemma_entries_view(entries@);
        let lv = ObjectView::Integer(content@.len() as i64);
        if with_length1 {
            assert(entries_view(entries@) =~= seq![(key("Length"@), lv), (key("Length1"@), lv)]);
        } else {
            assert(entries_view(entries@) =~= seq![(key("Length"@), lv)]);
        }
    }
    PdfStream { dict: PdfDictionary { entries }, content, allows_compression, start_position: None }
}

/// The character map of the first embedded font (object 12), from its bytes.
pub fn f_12(to_unicode: Vec<u8>) -> (s: PdfStream)
    ensures
        obj_view(PdfObject::Stream(s)) == data_stream_spec(to_unicode@, false, true),
{
    data_stream(to_unicode, false, true)
}

/// The descriptor of the first embedded font (object 13).
pub open spec fn f_13_spec() -> DictView {
    seq![
        (key("Type"@), name_v("FontDescriptor"@)),
        (key("FontName"@), name_v("AHUBPT+LiberationSans"@)),
        (key("FontFamily"@), literal_v("Liberation Sans"@)),
        (key("Flags"@), ObjectView::Integer(32)),
        (key("FontBBox"@), ints_v(seq![-543i64, -303i64, 1301i64, 979i64])),
        (key("ItalicAngle"@), ObjectView::Integer(0)),
        (key("Ascent"@), ObjectView::Integer(905)),
        (key("Descent"@), ObjectView::Integer(-211i64)),
        (key("CapHeight"@), ObjectView::Integer(979)),
        (key("StemV"@), ObjectView::Integer(80)),
        (key("StemH"@), ObjectView::Integer(80)),
        (key("FontFile2"@), ref_v(14)),
    ]
}

/// The descriptor of the first embedded font (object 13).
pub fn f_13() -> (d: PdfDictionary)
    ensures
        d@ == f_13_spec(),
{
    let bbox: [i64; 4] = [-543, -303, 1301, 979];
    assert(bbox@ =~= seq![-543i64, -303i64, 1301i64, 979i64]);
    let mut entries: Vec<(Vec<u8>, PdfObject)> = Vec::new();
    entries.push(entry("Type", name_obj("FontDescriptor")));
    entries.push(entry("FontName", name_obj("AHUBPT+LiberationSans")));
    entries.push(entry("FontFamily", literal_obj("Liberation Sans")));
    entries.push(entry("Flags", PdfObject::Integer(32)));
    entries.push(entry("FontBBox", ints_obj(&bbox)));
    entries.push(entry("ItalicAngle", PdfObject::Integer(0)));
    entries.push(entry("Ascent", PdfObject::Integer(905)));
    entries.push(entry("Descent", PdfObject::Integer(-211)));
    entries.push(entry("CapHeight", PdfObject::Integer(979)));
    entries.push(entry("StemV", PdfObject::Integer(80)));
    entries.push(entry("StemH", PdfObject::Integer(80)));
    entries.push(entry("FontFile2", PdfObject::Reference((14, 0))));
    proof {
        lemma_entries_view(entries@);
        assert(entries_view(entries@) =~= f_13_spec());
    }
    PdfDictionary { entries }
}

/// The program of the first embedded font (object 14), from its bytes.
pub fn f_14(font_file: Vec<u8>) -> (s: PdfStream)
    ensures
        obj_view(PdfObject::Stream(s)) == data_stream_spec(font_file@, true, false),
{
    data_stream(font_file, true, false)
}

/// The second embedded font (`F2`, object 11): Symbola for the check mark.
pub open spec fn f_11_spec() -> DictView {
    seq![
        (key("Type"@), name_v("Font"@)),
        (key("Subtype"@), name_v("Type0"@)),
        (key("BaseFont"@), name_v("FHWMZH+Symbola"@)),
        (key("Encoding"@), name_v("Identity-H"@)),
        (key("DescendantFonts"@), ObjectView::Array(seq![ref_v(16)])),
        (key("ToUnicode"@), ref_v(15)),
    ]
}

/// The second embedded font (`F2`, object 11): Symbola for the check mark.
pub fn f_11() -> (d: PdfDictionary)
    ensures
        d@ == f_11_spec(),
{
    let mut descendants: Vec<PdfObject> = Vec::new();
    descendants.push(PdfObject::Reference((16, 0)));
    proof {
        lemma_array_view(descendants@);
        assert(array_view(descendants@) =~= seq![ref_v(16)]);
    }
    let mut entries: Vec<(Vec<u8>, PdfObject)> = Vec::new();
    entries.push(entry("Type", name_obj("Font")));
    entries.push(entry("Subtype", name_obj("Type0")));
    entries.push(entry("BaseFont", name_obj("FHWMZH+Symbola")));
    entries.push(entry("Encoding", name_obj("Identity-H")));
    entries.push(entry("DescendantFonts", PdfObject::Array(descendants)));
    entries.push(entry("ToUnicode", PdfObject::Reference((15, 0))));
    proof {
        lemma_entries_view(entries@);
        assert(entries_view(entries@) =~= f_11_spec());
    }
    PdfDictionary { entries }
}

/// The character map of the second embedded font (object 15), from its bytes.
pub fn f_15(to_unicode: Vec<u8>) -> (s: PdfStream)
    ensures
        obj_view(PdfObject::Stream(s)) == data_stream_spec(to_unicode@, false, false),
{
    data_stream(to_unicode, false, false)
}

/// The glyphs of the second embedded font (object 16).
pub open spec fn f_16_spec() -> DictView {
    seq![
        (key("Type"@), name_v("Font"@)),
        (key("Subtype"@), name_v("CIDFontType2"@)),
        (key("BaseFont"@), name_v("FHWMZH+Symbola"@)),
        (
            key("CIDSystemInfo"@),
            ObjectView::Dictionary(
                seq![
                    (key("Registry"@), literal_v("Adobe"@)),
                    (key("Ordering"@), literal_v("Identity"@)),
                    (key("Supplement"@), ObjectView::Integer(0)),
                ],
            ),
        ),
        (key("FontDescriptor"@), ref_v(17)),
        (key("W"@), ObjectView::Array(seq![ObjectView::Integer(0), ints_v(seq![626i64, 784i64])])),
    ]
}

/// The glyphs of the second embedded font (object 16).
pub fn f_16() -> (d: PdfDictionary)
    ensures
        d@ == f_16_spec(),
{
    let mut info: Vec<(Vec<u8>, PdfObject)> = Vec::new();
    info.push(entry("Registry", literal_obj("Adobe")));
    info.push(entry("Ordering", literal_obj("Identity")));
    info.push(entry("Supplement", PdfObject::Integer(0)));
    proof {
        lemma_entries_view(info@);
        assert(entries_view(info@) =~= seq![
            (key("Registry"@), literal_v("Adobe"@)),
            (key("Ordering"@), literal_v("Identity"@)),
            (key("Supplement"@), ObjectView::Integer(0)),
        ]);
    }
    let widths: [i64; 2] = [626, 784];
    assert(widths@ =~= seq![626i64, 784i64]);
    let mut w: Vec<PdfObject> = Vec::new();
    w.push(PdfObject::Integer(0));
    w.push(ints_obj(&widths));
    proof {
        lemma_array_view(w@);
        assert(array_view(w@) =~= seq![ObjectView::Integer(0), ints_v(seq![626i64, 784i64])]);
    }
    let mut entries: Vec<(Vec<u8>, PdfObject)> = Vec::new();
    entries.push(entry("Type", name_obj("Font")));
    entries.push(entry("Subtype", name_obj("CIDFontType2")));
    entries.push(entry("BaseFont", name_obj("FHWMZH+Symbola")));
    entries.push(entry("CIDSystemInfo", PdfObject::Dictionary(PdfDictionary { entries: info })));
    entries.push(entry("FontDescriptor", PdfObject::Reference((17, 0))));
    entries.push(entry("W", PdfObject::Array(w)));
    proof {
        lemma_entries_view(entries@);
        assert(entries_view(entries@) =~= f_16_spec());
    }
    PdfDictionary { entries }
}

/// The descriptor of the second embedded font (object 17).
pub open spec fn f_17_spec() -> DictView {
    seq![
        (key("Type"@), name_v("FontDescriptor"@)),
        (key("FontName"@), name_v("FHWMZH+Symbola"@)),
        (key("FontFamily"@), literal_v("Symbola"@)),
        (key("Flags"@), ObjectView::Integer(4)),
        (key("FontBBox"@), ints_v(seq![-838i64, -341i64, 2992i64, 925i64])),
        (key("ItalicAngle"@), ObjectView::Integer(0)),
        (key("Ascent"@), ObjectView::Integer(925)),
        (key("Descent"@), ObjectView::Integer(-341i64)),
        (key("CapHeight"@), ObjectView::Integer(925)),
        (key("StemV"@), ObjectView::Integer(80)),
        (key("StemH"@), ObjectView::Integer(80)),
        (key("FontFile2"@), ref_v(18)),
    ]
}

/// The descriptor of the second embedded font (object 17).
pub fn f_17() -> (d: PdfDictionary)
    ensures
        d@ == f_17_spec(),
{
    let bbox: [i64; 4] = [-838, -341, 2992, 925];
    assert(bbox@ =~= seq![-838i64, -341i64, 2992i64, 925i64]);
    let mut entries: Vec<(Vec<u8>, PdfObject)> = Vec::new();
    entries.push(entry("Type", name_obj("FontDescriptor")));
    entries.push(entry("FontName", name_obj("FHWMZH+Symbola")));
    entries.push(entry("FontFamily", literal_obj("Symbola")));
    entries.push(entry("Flags", PdfObject::Integer(4)));
    entries.push(entry("FontBBox", ints_obj(&bbox)));
    entries.push(entry("ItalicAngle", PdfObject::Integer(0)));
    entries.push(entry("Ascent", PdfObject::Integer(925)));
    entries.push(entry("Descent", PdfObject::Integer(-341)));
    entries.push(entry("CapHeight", PdfObject::Integer(925)));
    entries.push(entry("StemV", PdfObject::Integer(80)));
    entries.push(entry("StemH", PdfObject::Integer(80)));
    entries.push(entry("FontFile2", PdfObject::Reference((18, 0))));
    proof {
        lemma_entries_view(entries@);
        assert(entries_view(entries@) =~= f_17_spec());
    }
    PdfDictionary { entries }
}

/// The program of the second embedded font (object 18), from its bytes.
pub fn f_18(font_file: Vec<u8>) -> (s: PdfStream)
    ensures
        obj_view(PdfObject::Stream(s)) == data_stream_spec(font_file@, true, false),
{
    data_stream(font_file, true, false)
}

} // verus!
