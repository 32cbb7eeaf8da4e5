use vstd::prelude::*;
use crate::content::ObjectId;
use crate::document::{PdfDocument, objects_view};
use crate::map::{Mapper, first_index};
use crate::object::{
    DictView, ObjectView, PdfDictionary, PdfObject, PdfStream, array_view, entries_view, lemma_array_view,
    lemma_entries_view, obj_view,
};

verus! {

broadcast use vstd::std_specs::btree::group_btree_axioms;

/// The id that stands for no object.
pub open spec fn null_id() -> ObjectId {
    (0u32, 0u16)
}

/// Copy of a real number read by `lopdf`: `Clone` gives the same value.
#[verifier::external_body]
pub(crate) fn clone_real(r: &lopdf::Object) -> (c: lopdf::Object)
    ensures
        c == *r,
{
    r.clone()
}

// ---------------------------------------------------------------- renumbering

/// The new id of the object with old id `id`: its position in the map, or the
/// null id when the map does not hold it.
pub open spec fn new_id(map: Seq<Option<ObjectId>>, id: ObjectId) -> ObjectId {
    match first_index(map, Some(id)) {
        Some(u) => (u as u32, 0u16),
        None => null_id(),
    }
}

/// The object with every reference in it, at any depth, renumbered.
pub open spec fn renumbered(o: ObjectView, map: Seq<Option<ObjectId>>) -> ObjectView
    decreases o,
{
    match o {
        ObjectView::Reference(id) => ObjectView::Reference(new_id(map, id)),
        ObjectView::Array(v) => ObjectView::Array(renumbered_all(v, map)),
        ObjectView::Dictionary(d) => ObjectView::Dictionary(renumbered_entries(d, map)),
        ObjectView::Stream(d, c, a, p) => ObjectView::Stream(renumbered_entries(d, map), c, a, p),
        _ => o,
    }
}

pub open spec fn renumbered_all(v: Seq<ObjectView>, map: Seq<Option<ObjectId>>) -> Seq<ObjectView>
    decreases v,
{
    if v.len() == 0 {
        seq![]
    } else {
        renumbered_all(v.drop_last(), map).push(renumbered(v.last(), map))
    }
}

pub open spec fn renumbered_entries(d: DictView, map: Seq<Option<ObjectId>>) -> DictView
    decreases d,
{
    if d.len() == 0 {
        seq![]
    } else {
        renumbered_entries(d.drop_last(), map).push((d.last().0, renumbered(d.last().1, map)))
    }
}

proof fn lemma_renumbered_all(v: Seq<ObjectView>, map: Seq<Option<ObjectId>>)
    ensures
        renumbered_all(v, map).len() == v.len(),
        forall|i: int| 0 <= i < v.len() ==> #[trigger] renumbered_all(v, map)[i] == renumbered(v[i], map),
    decreases v.len(),
{
    if v.len() > 0 {
        lemma_renumbered_all(v.drop_last(), map);
        assert forall|i: int| 0 <= i < v.len() implies #[trigger] renumbered_all(v, map)[i] == renumbered(v[i], map) by {
            if i < v.len() - 1 {
                assert(v.drop_last()[i] == v[i]);
            }
        }
    }
}

proof fn lemma_renumbered_entries(d: DictView, map: Seq<Option<ObjectId>>)
    ensures
        renumbered_entries(d, map).len() == d.len(),
        forall|i: int| 0 <= i < d.len() ==> #[trigger] renumbered_entries(d, map)[i] == (d[i].0, renumbered(d[i].1, map)),
    decreases d.len(),
{
    if d.len() > 0 {
        lemma_renumbered_entries(d.drop_last(), map);
        assert forall|i: int| 0 <= i < d.len() implies #[trigger] renumbered_entries(d, map)[i] == (d[i].0, renumbered(d[i].1, map)) by {
            if i < d.len() - 1 {
                assert(d.drop_last()[i] == d[i]);
            }
        }
    }
}

fn renumber_entries(entries: &Vec<(Vec<u8>, PdfObject)>, mapper: &Mapper) -> (r: Vec<(Vec<u8>, PdfObject)>)
    ensures
        entries_view(r@) == renumbered_entries(entries_view(entries@), mapper.entries()),
    decreases entries@, 0nat,
{
    let mut out: Vec<(Vec<u8>, PdfObject)> = Vec::new();
    let mut i: usize = 0;
    proof {
        lemma_entries_view(entries@);
    }
    while i < entries.len()
        invariant
            i <= entries@.len(),
            out@.len() == i,
            forall|j: int| 0 <= j < i ==> (#[trigger] out@[j]).0@ == entries@[j].0@ && obj_view(out@[j].1) == renumbered(obj_view(entries@[j].1), mapper.entries()),
        decreases entries@.len() - i,
    {
        proof {
            assert(decreases_to!(entries@ => entries@[i as int]));
            assert(decreases_to!(entries@[i as int] => entries@[i as int].1));
        }
        let value = renumber_object(&entries[i].1, mapper);
        out.push((entries[i].0.clone(), value));
        i = i + 1;
    }
    proof {
        lemma_entries_view(out@);
        let d = entries_view(entries@);
        lemma_renumbered_entries(d, mapper.entries());
        assert(entries_view(out@) =~= renumbered_entries(d, mapper.entries()));
    }
    out
}

/// The object with every reference in it renumbered by the map.
pub fn renumber_object(o: &PdfObject, mapper: &Mapper) -> (r: PdfObject)
    ensures
        obj_view(r) == renumbered(obj_view(*o), mapper.entries()),
    decreases *o, 1nat,
{
    match o {
        PdfObject::Reference(id) => {
            match mapper.index_of(*id) {
                Some(u) => PdfObject::Reference((u as u32, 0)),
                None => PdfObject::Reference((0, 0)),
            }
        },
        PdfObject::Array(v) => {
            let mut out: Vec<PdfObject> = Vec::new();
            let mut i: usize = 0;
            proof {
                lemma_array_view(v@);
            }
            #[verifier::loop_isolation(false)]
            while i < v.len()
                invariant
                    i <= v@.len(),
                    out@.len() == i,
                    forall|j: int| 0 <= j < i ==> obj_view(#[trigger] out@[j]) == renumbered(obj_view(v@[j]), mapper.entries()),
                decreases v@.len() - i,
            {
                proof {
                    assert(decreases_to!(*o => *v));
                    assert(decreases_to!(*v => v@));
                    assert(decreases_to!(v@ => v@[i as int]));
                }
                let item = renumber_object(&v[i], mapper);
                out.push(item);
                i = i + 1;
            }
            proof {
                lemma_array_view(out@);
                lemma_renumbered_all(array_view(v@), mapper.entries());
                assert(array_view(out@) =~= renumbered_all(array_view(v@), mapper.entries()));
            }
            PdfObject::Array(out)
        },
        PdfObject::Dictionary(d) => {
            proof {
                assert(decreases_to!(*o => *d));
                assert(decreases_to!(*d => d.entries));
                assert(decreases_to!(d.entries => d.entries@));
            }
            PdfObject::Dictionary(PdfDictionary { entries: renumber_entries(&d.entries, mapper) })
        },
        PdfObject::Stream(s) => {
            proof {
                assert(decreases_to!(*o => *s));
                assert(decreases_to!(*s => s.dict));
                assert(decreases_to!(s.dict => s.dict.entries));
                assert(decreases_to!(s.dict.entries => s.dict.entries@));
            }
            let entries = renumber_entries(&s.dict.entries, mapper);
            PdfObject::Stream(
                PdfStream {
                    dict: PdfDictionary { entries },
                    content: s.content.clone(),
                    allows_compression: s.allows_compression,
                    start_position: s.start_position,
                },
            )
        },
        PdfObject::Null => PdfObject::Null,
        PdfObject::Boolean(b) => PdfObject::Boolean(*b),
        PdfObject::Integer(i) => PdfObject::Integer(*i),
        PdfObject::Real(x) => PdfObject::Real(clone_real(x)),
        PdfObject::Name(n) => PdfObject::Name(n.clone()),
        PdfObject::String(s, f) => PdfObject::String(s.clone(), *f),
    }
}

// ------------------------------------------------------ removing null entries

/// The object with, in every array in it, the null references among the
/// array's leading references dropped: the references at the front of an
/// array are scanned, null ones dropped, and the scan stops at the first entry
/// that is not a reference. Outer arrays are cleaned before inner ones.
pub open spec fn arrays_cleaned(o: ObjectView) -> ObjectView
    decreases o,
{
    match o {
        ObjectView::Array(v) => ObjectView::Array(cleaned_array(v, true)),
        ObjectView::Dictionary(d) => ObjectView::Dictionary(arrays_cleaned_entries(d)),
        ObjectView::Stream(d, c, a, p) => ObjectView::Stream(arrays_cleaned_entries(d), c, a, p),
        _ => o,
    }
}

/// The entries of an array, cleaned; while `scanning`, null references are
/// dropped, and the scan ends at the first entry that is not a reference.
pub open spec fn cleaned_array(v: Seq<ObjectView>, scanning: bool) -> Seq<ObjectView>
    decreases v,
{
    if v.len() == 0 {
        seq![]
    } else if scanning && v[0] == ObjectView::Reference(null_id()) {
        cleaned_array(v.drop_first(), true)
    } else {
        seq![arrays_cleaned(v[0])] + cleaned_array(v.drop_first(), scanning && v[0] is Reference)
    }
}

pub open spec fn arrays_cleaned_entries(d: DictView) -> DictView
    decreases d,
{
    if d.len() == 0 {
        seq![]
    } else {
        arrays_cleaned_entries(d.drop_last()).push((d.last().0, arrays_cleaned(d.last().1)))
    }
}

proof fn lemma_arrays_cleaned_entries(d: DictView)
    ensures
        arrays_cleaned_entries(d).len() == d.len(),
        forall|i: int| 0 <= i < d.len() ==> #[trigger] arrays_cleaned_entries(d)[i] == (d[i].0, arrays_cleaned(d[i].1)),
    decreases d.len(),
{
    if d.len() > 0 {
        lemma_arrays_cleaned_entries(d.drop_last());
        assert forall|i: int| 0 <= i < d.len() implies #[trigger] arrays_cleaned_entries(d)[i] == (d[i].0, arrays_cleaned(d[i].1)) by {
            if i < d.len() - 1 {
                assert(d.drop_last()[i] == d[i]);
            }
        }
    }
}

fn clean_arrays_entries(entries: &Vec<(Vec<u8>, PdfObject)>) -> (r: Vec<(Vec<u8>, PdfObject)>)
    ensures
        entries_view(r@) == arrays_cleaned_entries(entries_view(entries@)),
    decreases entries@, 0nat,
{
    let mut out: Vec<(Vec<u8>, PdfObject)> = Vec::new();
    let mut i: usize = 0;
    proof {
        lemma_entries_view(entries@);
    }
    while i < entries.len()
        invariant
            i <= entries@.len(),
            out@.len() == i,
            forall|j: int| 0 <= j < i ==> (#[trigger] out@[j]).0@ == entries@[j].0@ && obj_view(out@[j].1) == arrays_cleaned(obj_view(entries@[j].1)),
        decreases entries@.len() - i,
    {
        proof {
            assert(decreases_to!(entries@ => entries@[i as int]));
            assert(decreases_to!(entries@[i as int] => entries@[i as int].1));
        }
        let value = clean_arrays_object(&entries[i].1);
        out.push((entries[i].0.clone(), value));
        i = i + 1;
    }
    proof {
        lemma_entries_view(out@);
        let d = entries_view(entries@);
        lemma_arrays_cleaned_entries(d);
        assert(entries_view(out@) =~= arrays_cleaned_entries(d));
    }
    out
}

/// The object with the null references among the leading references of
/// every array dropped, outer arrays first.
pub fn clean_arrays_object(o: &PdfObject) -> (r: PdfObject)
    ensures
        obj_view(r) == arrays_cleaned(obj_view(*o)),
    decreases *o, 1nat,
{
    match o {
        PdfObject::Array(v) => {
            let ghost w = array_view(v@);
            let mut out: Vec<PdfObject> = Vec::new();
            let mut scanning = true;
            let mut i: usize = 0;
            proof {
                lemma_array_view(v@);
                assert(w.skip(0) =~= w);
                lemma_array_view(out@);
                assert(array_view(out@) =~= Seq::<ObjectView>::empty());
                assert(cleaned_array(w, true) =~= array_view(out@) + cleaned_array(w.skip(0), true));
            }
            #[verifier::loop_isolation(false)]
            while i < v.len()
                invariant
                    i <= v@.len(),
                    w.len() == v@.len(),
                    cleaned_array(w, true) == array_view(out@) + cleaned_array(w.skip(i as int), scanning),
                decreases v@.len() - i,
            {
                proof {
                    assert(decreases_to!(*o => *v));
                    assert(decreases_to!(*v => v@));
                    assert(decreases_to!(v@ => v@[i as int]));
                    assert(w.skip(i as int).drop_first() =~= w.skip(i + 1));
                    assert(w.skip(i as int)[0] == w[i as int]);
                    assert(w[i as int] == obj_view(v@[i as int]));
                }
                let ghost was_scanning = scanning;
                let keep = if scanning {
                    match &v[i] {
                        PdfObject::Reference(id) => !(id.0 == 0 && id.1 == 0),
                        _ => {
                            scanning = false;
                            true
                        },
                    }
                } else {
                    true
                };
                proof {
                    assert(keep == !(was_scanning && w[i as int] == ObjectView::Reference(null_id())));
                    assert(keep ==> scanning == (was_scanning && w[i as int] is Reference));
                }
                if keep {
                    let ghost before = out@;
                    let item = clean_arrays_object(&v[i]);
                    out.push(item);
                    proof {
                        lemma_array_view(before);
                        lemma_array_view(out@);
                        assert(array_view(out@) =~= array_view(before).push(arrays_cleaned(w[i as int])));
                        let rest = cleaned_array(w.skip(i + 1), scanning);
                        assert(array_view(before) + (seq![arrays_cleaned(w[i as int])] + rest) =~= array_view(out@) + rest);
                    }
                }
                i = i + 1;
            }
            proof {
                assert(w.skip(v@.len() as int) =~= Seq::<ObjectView>::empty());
                assert(array_view(out@) =~= cleaned_array(w, true));
            }
            PdfObject::Array(out)
        },
        PdfObject::Dictionary(d) => {
            proof {
                assert(decreases_to!(*o => *d));
                assert(decreases_to!(*d => d.entries));
                assert(decreases_to!(d.entries => d.entries@));
            }
            PdfObject::Dictionary(PdfDictionary { entries: clean_arrays_entries(&d.entries) })
        },
        PdfObject::Stream(s) => {
            proof {
                assert(decreases_to!(*o => *s));
                assert(decreases_to!(*s => s.dict));
                assert(decreases_to!(s.dict => s.dict.entries));
                assert(decreases_to!(s.dict.entries => s.dict.entries@));
            }
            let entries = clean_arrays_entries(&s.dict.entries);
            PdfObject::Stream(
                PdfStream {
                    dict: PdfDictionary { entries },
                    content: s.content.clone(),
                    allows_compression: s.allows_compression,
                    start_position: s.start_position,
                },
            )
        },
        PdfObject::Reference(id) => PdfObject::Reference(*id),
        PdfObject::Null => PdfObject::Null,
        PdfObject::Boolean(b) => PdfObject::Boolean(*b),
        PdfObject::Integer(i) => PdfObject::Integer(*i),
        PdfObject::Real(x) => PdfObject::Real(clone_real(x)),
        PdfObject::Name(n) => PdfObject::Name(n.clone()),
        PdfObject::String(s, f) => PdfObject::String(s.clone(), *f),
    }
}

// ------------------------------------------------- removing null dictionary keys

/// A dictionary value that is removed: a null reference or an empty array.
pub open spec fn dropped(v: ObjectView) -> bool {
    v == ObjectView::Reference(null_id()) || (v matches ObjectView::Array(a) && a.len() == 0)
}

/// The object with, in every dictionary in it (the dictionaries of streams
/// excepted), the entries whose value is a null reference or an empty array
/// removed. Outer dictionaries are cleaned before inner ones.
pub open spec fn dicts_cleaned(o: ObjectView) -> ObjectView
    decreases o,
{
    match o {
        ObjectView::Dictionary(d) => ObjectView::Dictionary(kept_entries(d)),
        ObjectView::Array(v) => ObjectView::Array(dicts_cleaned_all(v)),
        ObjectView::Stream(d, c, a, p) => ObjectView::Stream(dicts_cleaned_entries(d), c, a, p),
        _ => o,
    }
}

/// The entries of a dictionary whose value is not removed, each cleaned.
pub open spec fn kept_entries(d: DictView) -> DictView
    decreases d,
{
    if d.len() == 0 {
        seq![]
    } else if dropped(d.last().1) {
        kept_entries(d.drop_last())
    } else {
        kept_entries(d.drop_last()).push((d.last().0, dicts_cleaned(d.last().1)))
    }
}

pub open spec fn dicts_cleaned_all(v: Seq<ObjectView>) -> Seq<ObjectView>
    decreases v,
{
    if v.len() == 0 {
        seq![]
    } else {
        dicts_cleaned_all(v.drop_last()).push(dicts_cleaned(v.last()))
    }
}

pub open spec fn dicts_cleaned_entries(d: DictView) -> DictView
    decreases d,
{
    if d.len() == 0 {
        seq![]
    } else {
        dicts_cleaned_entries(d.drop_last()).push((d.last().0, dicts_cleaned(d.last().1)))
    }
}

fn is_dropped(o: &PdfObject) -> (r: bool)
    ensures
        r == dropped(obj_view(*o)),
{
    match o {
        PdfObject::Reference(id) => id.0 == 0 && id.1 == 0,
        PdfObject::Array(a) => {
            proof {
                lemma_array_view(a@);
            }
            a.len() == 0
        },
        _ => false,
    }
}

fn clean_dicts_entries(entries: &Vec<(Vec<u8>, PdfObject)>, filter: bool) -> (r: Vec<(Vec<u8>, PdfObject)>)
    ensures
        entries_view(r@) == if filter {
            kept_entries(entries_view(entries@))
        } else {
            dicts_cleaned_entries(entries_view(entries@))
        },
    decreases entries@, 0nat,
{
    let ghost d = entries_view(entries@);
    let mut out: Vec<(Vec<u8>, PdfObject)> = Vec::new();
    let mut i: usize = 0;
    proof {
        lemma_entries_view(entries@);
        assert(d.take(0) =~= Seq::<(Seq<u8>, ObjectView)>::empty());
        lemma_entries_view(out@);
        assert(entries_view(out@) =~= Seq::<(Seq<u8>, ObjectView)>::empty());
    }
    while i < entries.len()
        invariant
            i <= entries@.len(),
            d == entries_view(entries@),
            d.len() == entries@.len(),
            forall|j: int| 0 <= j < entries@.len() ==> #[trigger] d[j] == (entries@[j].0@, obj_view(entries@[j].1)),
            entries_view(out@) == if filter {
                kept_entries(d.take(i as int))
            } else {
                dicts_cleaned_entries(d.take(i as int))
            },
        decreases entries@.len() - i,
    {
        proof {
            assert(decreases_to!(entries@ => entries@[i as int]));
            assert(decreases_to!(entries@[i as int] => entries@[i as int].1));
            assert(d.take(i + 1).drop_last() =~= d.take(i as int));
            assert(d.take(i + 1).last() == d[i as int]);
        }
        if !(filter && is_dropped(&entries[i].1)) {
            let ghost before = out@;
            let value = clean_dicts_object(&entries[i].1);
            out.push((entries[i].0.clone(), value));
            proof {
                lemma_entries_view(before);
                lemma_entries_view(out@);
                assert(entries_view(out@) =~= entries_view(before).push((d[i as int].0, dicts_cleaned(d[i as int].1))));
            }
        }
        i = i + 1;
    }
    proof {
        assert(d.take(entries@.len() as int) =~= d);
    }
    out
}

/// The object with, in every dictionary in it (stream dictionaries excepted),
/// the entries whose value is a null reference or an empty array removed.
pub fn clean_dicts_object(o: &PdfObject) -> (r: PdfObject)
    ensures
        obj_view(r) == dicts_cleaned(obj_view(*o)),
    decreases *o, 1nat,
{
    match o {
        PdfObject::Array(v) => {
            let mut out: Vec<PdfObject> = Vec::new();
            let mut i: usize = 0;
            proof {
                lemma_array_view(v@);
            }
            #[verifier::loop_isolation(false)]
            while i < v.len()
                invariant
                    i <= v@.len(),
                    out@.len() == i,
                    forall|j: int| 0 <= j < i ==> obj_view(#[trigger] out@[j]) == dicts_cleaned(obj_view(v@[j])),
                decreases v@.len() - i,
            {
                proof {
                    assert(decreases_to!(*o => *v));
                    assert(decreases_to!(*v => v@));
                    assert(decreases_to!(v@ => v@[i as int]));
                }
                let item = clean_dicts_object(&v[i]);
                out.push(item);
                i = i + 1;
            }
            proof {
                lemma_array_view(out@);
                lemma_dicts_cleaned_all(array_view(v@));
                assert(array_view(out@) =~= dicts_cleaned_all(array_view(v@)));
            }
            PdfObject::Array(out)
        },
        PdfObject::Dictionary(d) => {
            proof {
                assert(decreases_to!(*o => *d));
                assert(decreases_to!(*d => d.entries));
                assert(decreases_to!(d.entries => d.entries@));
            }
            PdfObject::Dictionary(PdfDictionary { entries: clean_dicts_entries(&d.entries, true) })
        },
        PdfObject::Stream(s) => {
            proof {
                assert(decreases_to!(*o => *s));
                assert(decreases_to!(*s => s.dict));
                assert(decreases_to!(s.dict => s.dict.entries));
                assert(decreases_to!(s.dict.entries => s.dict.entries@));
            }
            let entries = clean_dicts_entries(&s.dict.entries, false);
            PdfObject::Stream(
                PdfStream {
                    dict: PdfDictionary { entries },
                    content: s.content.clone(),
                    allows_compression: s.allows_compression,
                    start_position: s.start_position,
                },
            )
        },
        PdfObject::Reference(id) => PdfObject::Reference(*id),
        PdfObject::Null => PdfObject::Null,
        PdfObject::Boolean(b) => PdfObject::Boolean(*b),
        PdfObject::Integer(i) => PdfObject::Integer(*i),
        PdfObject::Real(x) => PdfObject::Real(clone_real(x)),
        PdfObject::Name(n) => PdfObject::Name(n.clone()),
        PdfObject::String(s, f) => PdfObject::String(s.clone(), *f),
    }
}

proof fn lemma_dicts_cleaned_all(v: Seq<ObjectView>)
    ensures
        dicts_cleaned_all(v).len() == v.len(),
        forall|i: int| 0 <= i < v.len() ==> #[trigger] dicts_cleaned_all(v)[i] == dicts_cleaned(v[i]),
    decreases v.len(),
{
    if v.len() > 0 {
        lemma_dicts_cleaned_all(v.drop_last());
        assert forall|i: int| 0 <= i < v.len() implies #[trigger] dicts_cleaned_all(v)[i] == dicts_cleaned(v[i]) by {
            if i < v.len() - 1 {
                assert(v.drop_last()[i] == v[i]);
            }
        }
    }
}

/// An object with no dictionary entry, at any depth, that is a null reference
/// or an empty array (the entries of a stream's own dictionary excepted).
pub open spec fn tidy(o: ObjectView) -> bool
    decreases o,
{
    match o {
        ObjectView::Dictionary(d) => tidy_entries(d, true),
        ObjectView::Stream(d, _, _, _) => tidy_entries(d, false),
        ObjectView::Array(v) => tidy_all(v),
        _ => true,
    }
}

/// Entries whose values are tidy and, when `strict`, none of them removable.
pub open spec fn tidy_entries(d: DictView, strict: bool) -> bool
    decreases d,
{
    if d.len() == 0 {
        true
    } else {
        tidy_entries(d.drop_last(), strict) && (strict ==> !dropped(d.last().1)) && tidy(d.last().1)
    }
}

/// Objects that are all tidy.
pub open spec fn tidy_all(v: Seq<ObjectView>) -> bool
    decreases v,
{
    if v.len() == 0 {
        true
    } else {
        tidy_all(v.drop_last()) && tidy(v.last())
    }
}

proof fn lemma_cleaned_kept(v: ObjectView)
    requires
        !dropped(v),
    ensures
        !dropped(dicts_cleaned(v)),
{
    if let ObjectView::Array(a) = v {
        lemma_dicts_cleaned_all(a);
    }
}

/// Cleaning the dictionaries of an object leaves it tidy.
pub proof fn lemma_dicts_cleaned_tidy(o: ObjectView)
    ensures
        tidy(dicts_cleaned(o)),
    decreases o,
{
    match o {
        ObjectView::Dictionary(d) => lemma_kept_entries_tidy(d),
        ObjectView::Stream(d, c, a, p) => lemma_cleaned_entries_tidy(d),
        ObjectView::Array(v) => lemma_cleaned_all_tidy(v),
        _ => {},
    }
}

proof fn lemma_kept_entries_tidy(d: DictView)
    ensures
        tidy_entries(kept_entries(d), true),
    decreases d,
{
    if d.len() > 0 {
        lemma_kept_entries_tidy(d.drop_last());
        if !dropped(d.last().1) {
            lemma_dicts_cleaned_tidy(d.last().1);
            lemma_cleaned_kept(d.last().1);
            let k = kept_entries(d.drop_last());
            assert(k.push((d.last().0, dicts_cleaned(d.last().1))).drop_last() =~= k);
        }
    }
}

proof fn lemma_cleaned_entries_tidy(d: DictView)
    ensures
        tidy_entries(dicts_cleaned_entries(d), false),
    decreases d,
{
    if d.len() > 0 {
        lemma_cleaned_entries_tidy(d.drop_last());
        lemma_dicts_cleaned_tidy(d.last().1);
        let k = dicts_cleaned_entries(d.drop_last());
        assert(k.push((d.last().0, dicts_cleaned(d.last().1))).drop_last() =~= k);
    }
}

proof fn lemma_cleaned_all_tidy(v: Seq<ObjectView>)
    ensures
        tidy_all(dicts_cleaned_all(v)),
    decreases v,
{
    if v.len() > 0 {
        lemma_cleaned_all_tidy(v.drop_last());
        lemma_dicts_cleaned_tidy(v.last());
        let k = dicts_cleaned_all(v.drop_last());
        assert(k.push(dicts_cleaned(v.last())).drop_last() =~= k);
    }
}

// ------------------------------------------------------------ whole documents

/// A rewrite applied to every object of a document.
pub enum Pass {
    /// Renumber every reference by the map.
    Renumber,
    /// Drop the null references at the front of every array.
    CleanArrays,
    /// Drop the dictionary entries that are null references or empty arrays.
    CleanDicts,
}

pub open spec fn pass_result(pass: Pass, o: ObjectView, map: Seq<Option<ObjectId>>) -> ObjectView {
    match pass {
        Pass::Renumber => renumbered(o, map),
        Pass::CleanArrays => arrays_cleaned(o),
        Pass::CleanDicts => dicts_cleaned(o),
    }
}

fn apply_pass(pass: &Pass, o: &PdfObject, mapper: &Mapper) -> (r: PdfObject)
    ensures
        obj_view(r) == pass_result(*pass, obj_view(*o), mapper.entries()),
{
    match pass {
        Pass::Renumber => renumber_object(o, mapper),
        Pass::CleanArrays => clean_arrays_object(o),
        Pass::CleanDicts => clean_dicts_object(o),
    }
}

/// The objects of `after` are those of `before`, each rewritten by `pass`.
pub open spec fn passed(
    before: Map<ObjectId, PdfObject>,
    after: Map<ObjectId, PdfObject>,
    pass: Pass,
    map: Seq<Option<ObjectId>>,
) -> bool {
    &&& after.dom() == before.dom()
    &&& forall|k: ObjectId| #[trigger] after.contains_key(k) ==> obj_view(after[k]) == pass_result(pass, obj_view(before[k]), map)
}

/// The model of a document's objects, each rewritten by `pass`.
pub open spec fn pass_all(ov: Map<ObjectId, ObjectView>, pass: Pass, map: Seq<Option<ObjectId>>) -> Map<ObjectId, ObjectView> {
    ov.map_values(|v: ObjectView| pass_result(pass, v, map))
}

proof fn lemma_passed_view(
    before: Map<ObjectId, PdfObject>,
    after: Map<ObjectId, PdfObject>,
    pass: Pass,
    map: Seq<Option<ObjectId>>,
)
    requires
        passed(before, after, pass, map),
    ensures
        objects_view(after) == pass_all(objects_view(before), pass, map),
{
    assert(objects_view(after) =~= pass_all(objects_view(before), pass, map));
}

/// Rewrites every object of the document by `pass`.
pub fn apply_pass_to_document(doc: &mut PdfDocument, pass: Pass, mapper: &Mapper)
    ensures
        passed(old(doc).objects@, final(doc).objects@, pass, mapper.entries()),
        objects_view(final(doc).objects@) == pass_all(objects_view(old(doc).objects@), pass, mapper.entries()),
        final(doc).trailer == old(doc).trailer,
        final(doc).version == old(doc).version,
        final(doc).max_id == old(doc).max_id,
{
    let ghost before = doc.objects@;
    let ids = doc.object_ids();
    let mut i: usize = 0;
    while i < ids.len()
        invariant
            i <= ids@.len(),
            ids@.to_set() == before.dom(),
            ids@.no_duplicates(),
            doc.objects@.dom() == before.dom(),
            doc.trailer == old(doc).trailer,
            doc.version == old(doc).version,
            doc.max_id == old(doc).max_id,
            forall|j: int| 0 <= j < i ==> obj_view(#[trigger] doc.objects@[ids@[j]]) == pass_result(pass, obj_view(before[ids@[j]]), mapper.entries()),
            forall|j: int| i <= j < ids@.len() ==> #[trigger] doc.objects@[ids@[j]] == before[ids@[j]],
        decreases ids@.len() - i,
    {
        let id = ids[i];
        proof {
            assert(ids@.contains(id));
            assert(before.dom().contains(id));
        }
        let taken = doc.objects.remove(&id);
        match taken {
            Some(o) => {
                let new_o = apply_pass(&pass, &o, mapper);
                doc.objects.insert(id, new_o);
            },
            None => {},
        }
        proof {
            assert forall|j: int| 0 <= j < ids@.len() && j != i implies ids@[j] != id by {
                assert(ids@[j] != ids@[i as int]);
            }
        }
        i = i + 1;
    }
    proof {
        assert forall|k: ObjectId| #[trigger] doc.objects@.contains_key(k) implies obj_view(doc.objects@[k]) == pass_result(pass, obj_view(before[k]), mapper.entries()) by {
            assert(ids@.to_set().contains(k));
            let j = ids@.index_of(k);
            assert(ids@[j] == k);
        }
        lemma_passed_view(before, doc.objects@, pass, mapper.entries());
    }
}

/// After a document's null references are cleaned up (arrays, then
/// dictionaries), none of its dictionaries, at any depth, holds a null
/// reference or an empty array (a stream's own dictionary excepted).
pub proof fn lemma_clean_leaves_no_nulls(ov: Map<ObjectId, ObjectView>, map: Seq<Option<ObjectId>>)
    ensures
        forall|k: ObjectId|
            #![trigger pass_all(pass_all(ov, Pass::CleanArrays, map), Pass::CleanDicts, map)[k]]
            ov.contains_key(k) ==> tidy(pass_all(pass_all(ov, Pass::CleanArrays, map), Pass::CleanDicts, map)[k]),
{
    assert forall|k: ObjectId| ov.contains_key(k) implies tidy(
        #[trigger] pass_all(pass_all(ov, Pass::CleanArrays, map), Pass::CleanDicts, map)[k],
    ) by {
        let once = pass_all(ov, Pass::CleanArrays, map);
        assert(once.contains_key(k));
        lemma_dicts_cleaned_tidy(once[k]);
    }
}

} // verus!
