use vstd::prelude::*;
use crate::bridge::{OpModel, decode_content, decoded_content, encode_content, encoded_content, op_model, ops_model};
use crate::content::{ObjectId, PdfOperation, same_text};
use crate::constants::{
    data_stream_spec, f_10, f_10_spec, f_11, f_11_spec, f_12, f_13, f_13_spec, f_14, f_15, f_16, f_16_spec, f_17, f_17_spec, f_18,
};
use crate::document::id_less;
use crate::map::ascending_ids;
use crate::document::{PdfDocument, PdfError, lemma_objects_view_insert, lemma_resolve_view, objects_view, resolve_view};
use crate::map::{first_index, key_order, lemma_first_index_at, lemma_first_index_none, lemma_first_index_props, lemma_key_order};
use crate::apply::edited;
use crate::modify::{fresh_map, is_info, keys_view, modify_main, patched_spec, patched_trailer, reference_to};
use crate::constants::{CREATOR, PRODUCER};
use vstd::string::StringSliceAdditionalSpecFns;
use crate::object::{
    DictView, ObjectView, PdfDictionary, PdfObject, PdfStream, bytes_eq, dict_get, dict_set, key, key_bytes,
    entries_view, lemma_array_view, lemma_entries_view, lemma_key_index_at, obj_view,
};

verus! {

broadcast use vstd::std_specs::btree::group_btree_axioms;

// ------------------------------------------------------------ font names

/// The decimal digits of `n`, as ASCII bytes.
pub open spec fn decimal_bytes(n: nat) -> Seq<u8>
    decreases n,
{
    if n < 10 {
        seq![(48 + n) as u8]
    } else {
        decimal_bytes(n / 10) + seq![(48 + n % 10) as u8]
    }
}

/// The name of font number `n`: `F` and the number.
pub open spec fn font_name(n: nat) -> Seq<u8> {
    seq![70u8] + decimal_bytes(n)
}

fn push_decimal(n: usize, out: &mut Vec<u8>)
    ensures
        final(out)@ == old(out)@ + decimal_bytes(n as nat),
    decreases n,
{
    if n < 10 {
        out.push(48 + n as u8);
    } else {
        push_decimal(n / 10, out);
        out.push(48 + (n % 10) as u8);
    }
}

/// The name of font number `n`.
pub fn font_name_bytes(n: usize) -> (r: Vec<u8>)
    ensures
        r@ == font_name(n as nat),
{
    let mut out: Vec<u8> = Vec::new();
    out.push(70u8);
    push_decimal(n, &mut out);
    out
}

/// A dictionary with the values set one by one under the names `F3`, `F4`, ...
pub open spec fn set_numbered(d: DictView, values: Seq<ObjectView>) -> DictView
    decreases values.len(),
{
    if values.len() == 0 {
        d
    } else {
        dict_set(set_numbered(d, values.drop_last()), font_name((values.len() + 2) as nat), values.last())
    }
}

/// A font dictionary after renaming: `F1` and `F2` point at objects 10 and
/// 11 (the embedded fonts), then the fonts it held follow under the names
/// `F3`, `F4`, ... in their order.
///
/// Numbers 10 and 11 are a choice: they are where [`embed_font_files`] puts
/// the two font dictionaries (the fonts take numbers 10 to 18), while number 9
/// is kept for the page's graphics states (see `apply_marks`). Pointing `F1`
/// at 9 and `F2` at 10 would name the graphics-state dictionary and the
/// first font's dictionary instead.
pub open spec fn renamed_font_dict(d: DictView) -> DictView {
    set_numbered(
        dict_set(dict_set(Seq::empty(), key("F1"@), reference_to(10)), key("F2"@), reference_to(11)),
        d.map_values(|e: (Seq<u8>, ObjectView)| e.1),
    )
}

/// Renames the fonts of a page's font dictionary: the embedded fonts become
/// `F1` and `F2` (references to objects 10 and 11, where the embedded font
/// dictionaries stand; see [`renamed_font_dict`] for why these numbers), the
/// fonts it held `F3`, `F4`, ... in order; gives back their old names, in
/// that order.
pub fn change_font_names(dict: &mut PdfDictionary) -> (r: Vec<Vec<u8>>)
    requires
        forall|i: int| 0 <= i < old(dict)@.len() ==> vstd::utf8::valid_utf8(#[trigger] old(dict)@[i].0),
        old(dict)@.len() + 2 <= usize::MAX,
    ensures
        final(dict)@ == renamed_font_dict(old(dict)@),
        keys_view(r@) == old(dict)@.map_values(|e: (Seq<u8>, ObjectView)| e.0),
{
    let ghost orig = dict@;
    proof {
        lemma_entries_view(dict.entries@);
    }
    let n = dict.entries.len();
    let mut keys: Vec<Vec<u8>> = Vec::new();
    let mut i: usize = 0;
    while i < n
        invariant
            n == orig.len(),
            n == dict.entries@.len(),
            dict@ == orig,
            i <= n,
            forall|j: int| 0 <= j < orig.len() ==> #[trigger] orig[j] == (dict.entries@[j].0@, obj_view(dict.entries@[j].1)),
            keys@.len() == i,
            forall|j: int| 0 <= j < i ==> (#[trigger] keys@[j])@ == orig[j].0,
        decreases n - i,
    {
        keys.push(dict.entries[i].0.clone());
        i = i + 1;
    }
    let ghost vals = orig.map_values(|e: (Seq<u8>, ObjectView)| e.1);
    let mut values: Vec<PdfObject> = Vec::new();
    let mut i: usize = 0;
    assert(orig.skip(0) =~= orig);
    while i < n
        invariant
            n == orig.len(),
            n == keys@.len(),
            i <= n,
            forall|j: int| 0 <= j < n ==> (#[trigger] keys@[j])@ == orig[j].0,
            dict@ == orig.skip(i as int),
            values@.len() == i,
            forall|j: int| 0 <= j < i ==> obj_view(#[trigger] values@[j]) == orig[j].1,
        decreases n - i,
    {
        proof {
            lemma_key_index_at(orig.skip(i as int), orig[i as int].0, 0);
            assert(orig.skip(i as int).remove(0) =~= orig.skip(i + 1));
        }
        let v = dict.remove(keys[i].as_slice());
        match v {
            Some(o) => {
                values.push(o);
            },
            None => {
                proof {
                    assert(false);
                }
            },
        }
        i = i + 1;
    }
    dict.set(key_bytes("F1"), PdfObject::Reference((10, 0)));
    dict.set(key_bytes("F2"), PdfObject::Reference((11, 0)));
    let ghost base = dict@;
    assert(orig.skip(n as int) =~= Seq::<(Seq<u8>, ObjectView)>::empty());
    let mut i: usize = 0;
    assert(vals.take(0) =~= Seq::<ObjectView>::empty());
    while i < n
        invariant
            n == orig.len(),
            vals == orig.map_values(|e: (Seq<u8>, ObjectView)| e.1),
            i <= n,
            values@.len() == n - i,
            forall|j: int| 0 <= j < n - i ==> obj_view(#[trigger] values@[j]) == vals[j + i],
            dict@ == set_numbered(base, vals.take(i as int)),
            n + 2 <= usize::MAX,
        decreases n - i,
    {
        let name = font_name_bytes(i + 3);
        let v = values.remove(0);
        proof {
            assert(vals.take(i + 1).drop_last() =~= vals.take(i as int));
            assert(vals.take(i + 1).last() == vals[i as int]);
        }
        dict.set(name, v);
        i = i + 1;
    }
    proof {
        assert(vals.take(n as int) =~= vals);
        assert(keys_view(keys@) =~= orig.map_values(|e: (Seq<u8>, ObjectView)| e.0));
    }
    keys
}

/// The renamed font dictionary written out: `F1` and `F2`, then the fonts it
/// held under `F3`, `F4`, ... in their order.
pub open spec fn renamed_layout(d: DictView) -> DictView {
    seq![(key("F1"@), reference_to(10)), (key("F2"@), reference_to(11))] + Seq::new(
        d.len(),
        |i: int| (font_name((i + 3) as nat), d[i].1),
    )
}

proof fn lemma_decimal_nonempty(n: nat)
    ensures
        decimal_bytes(n).len() >= 1,
        n < 10 <==> decimal_bytes(n).len() == 1,
    decreases n,
{
    if n >= 10 {
        lemma_decimal_nonempty(n / 10);
    }
}

proof fn lemma_decimal_injective(a: nat, b: nat)
    requires
        decimal_bytes(a) == decimal_bytes(b),
    ensures
        a == b,
    decreases a,
{
    lemma_decimal_nonempty(a);
    lemma_decimal_nonempty(b);
    if a >= 10 && b >= 10 {
        let da = decimal_bytes(a);
        assert(da.drop_last() =~= decimal_bytes(a / 10));
        assert(decimal_bytes(b).drop_last() =~= decimal_bytes(b / 10));
        assert(da.last() == (48 + a % 10) as u8);
        assert(decimal_bytes(b).last() == (48 + b % 10) as u8);
        assert(a % 10 == b % 10);
        lemma_decimal_injective(a / 10, b / 10);
        assert(a == 10 * (a / 10) + a % 10);
        assert(b == 10 * (b / 10) + b % 10);
        assert(a == b);
    } else if a < 10 && b < 10 {
        assert(decimal_bytes(a)[0] == decimal_bytes(b)[0]);
        assert(decimal_bytes(a)[0] == (48 + a) as u8);
        assert(decimal_bytes(b)[0] == (48 + b) as u8);
        assert(a == b);
    } else {
        assert(decimal_bytes(a).len() == decimal_bytes(b).len());
        assert(a == b);
    }
}

proof fn lemma_font_names_differ(a: nat, b: nat)
    requires
        a != b,
    ensures
        font_name(a) != font_name(b),
{
    if font_name(a) == font_name(b) {
        assert(font_name(a).drop_first() =~= decimal_bytes(a));
        assert(font_name(b).drop_first() =~= decimal_bytes(b));
        lemma_decimal_injective(a, b);
    }
}

proof fn lemma_numbered_not_first_two(n: nat)
    requires
        n >= 3,
    ensures
        font_name(n) != key("F1"@),
        font_name(n) != key("F2"@),
{
    lemma_decimal_nonempty(n);
    reveal_strlit("F1");
    reveal_strlit("F2");
    assert(key("F1"@) =~= seq![70u8, 49u8]);
    assert(key("F2"@) =~= seq![70u8, 50u8]);
    if font_name(n) == key("F1"@) || font_name(n) == key("F2"@) {
        assert(font_name(n).len() == 2);
        assert(decimal_bytes(n).len() == 1);
        assert(font_name(n)[1] == decimal_bytes(n)[0]);
    }
}

proof fn lemma_set_numbered_layout(d: DictView, values: Seq<ObjectView>)
    ensures
        set_numbered(
            seq![(key("F1"@), reference_to(10)), (key("F2"@), reference_to(11))],
            values,
        ) =~= seq![(key("F1"@), reference_to(10)), (key("F2"@), reference_to(11))] + Seq::new(
            values.len(),
            |i: int| (font_name((i + 3) as nat), values[i]),
        ),
    decreases values.len(),
{
    let base = seq![(key("F1"@), reference_to(10)), (key("F2"@), reference_to(11))];
    if values.len() > 0 {
        let rest = values.drop_last();
        lemma_set_numbered_layout(d, rest);
        let before = base + Seq::new(rest.len(), |i: int| (font_name((i + 3) as nat), rest[i]));
        let name = font_name((values.len() + 2) as nat);
        assert forall|j: int| 0 <= j < before.len() implies (#[trigger] before[j]).0 != name by {
            if j < 2 {
                lemma_numbered_not_first_two((values.len() + 2) as nat);
            } else {
                lemma_font_names_differ((j + 1) as nat, (values.len() + 2) as nat);
            }
        }
        crate::object::lemma_key_index_none(before, name);
        assert(set_numbered(base, values) == dict_set(set_numbered(base, rest), name, values.last()));
    }
}

/// Renaming keeps every font selection on its font. After the page's font
/// dictionary `d` is renamed and a font selection naming one of its fonts is
/// renamed with the old names, the new name stands in the renamed dictionary
/// for the same font as the old name did in `d`; and `F1`, `F2` stand for the
/// embedded fonts (objects 10 and 11).
pub proof fn lemma_renaming_keeps_fonts(d: DictView, op: OpModel)
    requires
        is_tf(op),
        renamable(op, d.map_values(|e: (Seq<u8>, ObjectView)| e.0)),
    ensures
        renamed_font_dict(d) == renamed_layout(d),
        dict_get(renamed_font_dict(d), key("F1"@)) == Some(reference_to(10)),
        dict_get(renamed_font_dict(d), key("F2"@)) == Some(reference_to(11)),
        match (renamed(op, d.map_values(|e: (Seq<u8>, ObjectView)| e.0)).1[0], op.1[0]) {
            (ObjectView::Name(new), ObjectView::Name(old)) => dict_get(d, old) is Some && dict_get(renamed_font_dict(d), new)
                == dict_get(d, old),
            _ => false,
        },
{
    let names = d.map_values(|e: (Seq<u8>, ObjectView)| e.0);
    let vals = d.map_values(|e: (Seq<u8>, ObjectView)| e.1);
    let base = seq![(key("F1"@), reference_to(10)), (key("F2"@), reference_to(11))];
    reveal_strlit("F1");
    reveal_strlit("F2");
    assert(dict_set(dict_set(Seq::empty(), key("F1"@), reference_to(10)), key("F2"@), reference_to(11)) =~= base) by {
        crate::object::lemma_key_index_none(Seq::empty(), key("F1"@));
        let one = seq![(key("F1"@), reference_to(10))];
        assert(key("F1"@) != key("F2"@)) by {
            assert(key("F1"@)[1] != key("F2"@)[1]);
        }
        crate::object::lemma_key_index_none(one, key("F2"@));
        assert(dict_set(Seq::empty(), key("F1"@), reference_to(10)) =~= one);
    }
    lemma_set_numbered_layout(d, vals);
    let r = renamed_layout(d);
    assert(renamed_font_dict(d) =~= r);
    assert(key("F1"@) != key("F2"@)) by {
        assert(key("F1"@)[1] != key("F2"@)[1]);
    }
    crate::object::lemma_key_index_at(r, key("F1"@), 0);
    crate::object::lemma_key_index_at(r, key("F2"@), 1);
    let old = op.1[0]->Name_0;
    lemma_first_index_props(names, old);
    let i = first_index(names, old)->0;
    let new = font_name((i + 3) as nat);
    assert(d[i].0 == old);
    assert forall|j: int| 0 <= j < i implies (#[trigger] d[j]).0 != old by {
        assert(names[j] == d[j].0);
    }
    crate::object::lemma_key_index_at(d, old, i);
    assert forall|j: int| 0 <= j < i + 2 implies (#[trigger] r[j]).0 != new by {
        if j < 2 {
            lemma_numbered_not_first_two((i + 3) as nat);
        } else {
            lemma_font_names_differ((j + 1) as nat, (i + 3) as nat);
        }
    }
    crate::object::lemma_key_index_at(r, new, i + 2);
}

// ------------------------------------------------------------ content streams

/// Whether an operation selects a font (`Tf`).
pub open spec fn is_tf(op: OpModel) -> bool {
    op.0 == "Tf"@
}

/// Whether a font selection names one of the old fonts by its first operand
/// (other operations always are).
pub open spec fn renamable(op: OpModel, old_fonts: Seq<Seq<u8>>) -> bool {
    is_tf(op) ==> (op.1.len() >= 1 && (op.1[0] matches ObjectView::Name(n) && first_index(old_fonts, n) is Some))
}

/// A font selection with the old font's name replaced by its new one
/// (`F3` for the first old font, and so on); other operations unchanged.
pub open spec fn renamed(op: OpModel, old_fonts: Seq<Seq<u8>>) -> OpModel {
    if is_tf(op) {
        match op.1[0] {
            ObjectView::Name(n) => (op.0, op.1.update(0, ObjectView::Name(font_name((first_index(old_fonts, n)->0 + 3) as nat)))),
            _ => op,
        }
    } else {
        op
    }
}

fn position_of(names: &Vec<Vec<u8>>, name: &Vec<u8>) -> (r: Option<usize>)
    ensures
        r matches Some(i) ==> first_index(keys_view(names@), name@) == Some(i as int) && i < names@.len(),
        r is None ==> first_index(keys_view(names@), name@) is None,
{
    let ghost ks = keys_view(names@);
    let mut i: usize = 0;
    while i < names.len()
        invariant
            i <= names@.len(),
            ks == keys_view(names@),
            forall|j: int| 0 <= j < i ==> ks[j] != name@,
        decreases names@.len() - i,
    {
        if bytes_eq(names[i].as_slice(), name.as_slice()) {
            proof {
                lemma_first_index_at(ks, name@, i as int);
            }
            return Some(i);
        }
        i = i + 1;
    }
    proof {
        lemma_first_index_none(ks, name@);
    }
    None
}

/// Renames the font that a font selection names, from its old name to its
/// new one.
pub fn rename_font(operation: PdfOperation<PdfObject>, old_fonts: &Vec<Vec<u8>>) -> (r: PdfOperation<PdfObject>)
    requires
        renamable(op_model(operation), keys_view(old_fonts@)),
        old_fonts@.len() + 3 <= usize::MAX,
    ensures
        op_model(r) == renamed(op_model(operation), keys_view(old_fonts@)),
{
    let mut operation = operation;
    if same_text(operation.operator.as_str(), "Tf") {
        proof {
            lemma_array_view(operation.operands@);
        }
        let i = match &operation.operands[0] {
            PdfObject::Name(n) => match position_of(old_fonts, n) {
                Some(i) => i,
                None => {
                    proof {
                        assert(false);
                    }
                    0
                },
            },
            _ => {
                proof {
                    assert(false);
                }
                0
            },
        };
        let ghost before = operation.operands@;
        operation.operands.set(0, PdfObject::Name(font_name_bytes(i + 3)));
        proof {
            lemma_array_view(operation.operands@);
            assert(crate::object::array_view(operation.operands@) =~= crate::object::array_view(before).update(
                0,
                ObjectView::Name(font_name((i + 3) as nat)),
            ));
        }
    }
    operation
}

/// The operations whose operator is among `keys`, in order.
pub open spec fn selected(ops: Seq<OpModel>, keys: Seq<Seq<char>>) -> Seq<OpModel>
    decreases ops.len(),
{
    if ops.len() == 0 {
        Seq::empty()
    } else if keys.contains(ops.last().0) {
        selected(ops.drop_last(), keys).push(ops.last())
    } else {
        selected(ops.drop_last(), keys)
    }
}

/// The models of a list of texts.
pub open spec fn texts_view(v: Seq<&str>) -> Seq<Seq<char>> {
    v.map_values(|k: &str| k@)
}

fn holds_text(keys: &Vec<&str>, t: &str) -> (r: bool)
    ensures
        r == texts_view(keys@).contains(t@),
{
    let mut i: usize = 0;
    while i < keys.len()
        invariant
            i <= keys@.len(),
            forall|j: int| 0 <= j < i ==> keys@[j]@ != t@,
        decreases keys@.len() - i,
    {
        if same_text(keys[i], t) {
            proof {
                assert(texts_view(keys@)[i as int] == t@);
            }
            return true;
        }
        i = i + 1;
    }
    proof {
        if texts_view(keys@).contains(t@) {
            let j = choose|j: int| 0 <= j < texts_view(keys@).len() && texts_view(keys@)[j] == t@;
            assert(keys@[j]@ == t@);
        }
    }
    false
}

/// The operations of a stream's content whose operator is among `keys`
/// (none when the content does not parse).
pub fn extract(stream: &PdfStream, keys: Vec<&str>) -> (r: Vec<PdfOperation<PdfObject>>)
    ensures
        ops_model(r@) == match decoded_content(stream.content@) {
            Some(ops) => selected(ops, texts_view(keys@)),
            None => Seq::empty(),
        },
{
    let mut operations: Vec<PdfOperation<PdfObject>> = Vec::new();
    match decode_content(&stream.content) {
        Ok(content) => {
            let ghost ops = ops_model(content@);
            let mut rest = content;
            let n = rest.len();
            let mut i: usize = 0;
            assert(ops.take(0) =~= Seq::<OpModel>::empty());
            assert(ops_model(operations@) =~= Seq::<OpModel>::empty());
            while i < n
                invariant
                    n == ops.len(),
                    i <= n,
                    rest@.len() == n - i,
                    forall|j: int| 0 <= j < n - i ==> op_model(#[trigger] rest@[j]) == ops[j + i],
                    ops_model(operations@) == selected(ops.take(i as int), texts_view(keys@)),
                decreases n - i,
            {
                let op = rest.remove(0);
                proof {
                    assert(ops.take(i + 1).drop_last() =~= ops.take(i as int));
                    assert(ops.take(i + 1).last() == ops[i as int]);
                }
                if holds_text(&keys, op.operator.as_str()) {
                    let ghost before = operations@;
                    operations.push(op);
                    proof {
                        assert(ops_model(operations@) =~= ops_model(before).push(op_model(op)));
                    }
                }
                i = i + 1;
            }
            proof {
                assert(ops.take(n as int) =~= ops);
            }
        },
        Err(_) => {
            assert(ops_model(operations@) =~= Seq::<OpModel>::empty());
        },
    }
    operations
}

/// Whether every font selection of a content, if it parses, names an old font.
pub open spec fn content_renamable(content: Seq<u8>, old_fonts: Seq<Seq<u8>>) -> bool {
    decoded_content(content) matches Some(ops) ==> forall|i: int| 0 <= i < ops.len() ==> renamable(#[trigger] ops[i], old_fonts)
}

/// The stream after its font selections are renamed: the content parsed,
/// each font selection renamed, and written again with its length set; an
/// unparsable content becomes empty; a content that cannot be written is
/// left as it was.
pub open spec fn renamed_stream(dict: DictView, content: Seq<u8>, old_fonts: Seq<Seq<u8>>) -> (DictView, Seq<u8>) {
    let ops = match decoded_content(content) {
        Some(ops) => ops.map_values(|o: OpModel| renamed(o, old_fonts)),
        None => Seq::empty(),
    };
    match encoded_content(ops) {
        Some(b) => (dict_set(dict, key("Length"@), ObjectView::Integer(b.len() as i64)), b),
        None => (dict, content),
    }
}

/// Renames the font selections of a stream's content (see [`renamed_stream`]).
pub fn modify(stream: &mut PdfStream, old_fonts: &Vec<Vec<u8>>)
    requires
        content_renamable(old(stream).content@, keys_view(old_fonts@)),
        old_fonts@.len() + 3 <= usize::MAX,
    ensures
        (final(stream).dict@, final(stream).content@) == renamed_stream(old(stream).dict@, old(stream).content@, keys_view(old_fonts@)),
        final(stream).allows_compression == old(stream).allows_compression,
        final(stream).start_position == old(stream).start_position,
{
    let ghost names = keys_view(old_fonts@);
    let mut operations: Vec<PdfOperation<PdfObject>> = Vec::new();
    let ghost target = match decoded_content(stream.content@) {
        Some(ops) => ops.map_values(|o: OpModel| renamed(o, names)),
        None => Seq::<OpModel>::empty(),
    };
    match decode_content(&stream.content) {
        Ok(content) => {
            let ghost ops = ops_model(content@);
            let mut rest = content;
            let n = rest.len();
            let mut i: usize = 0;
            while i < n
                invariant
                    n == ops.len(),
                    i <= n,
                    rest@.len() == n - i,
                    forall|j: int| 0 <= j < n - i ==> op_model(#[trigger] rest@[j]) == ops[j + i],
                    forall|j: int| 0 <= j < ops.len() ==> renamable(#[trigger] ops[j], names),
                    names == keys_view(old_fonts@),
                    old_fonts@.len() + 3 <= usize::MAX,
                    operations@.len() == i,
                    forall|j: int| 0 <= j < i ==> op_model(#[trigger] operations@[j]) == renamed(ops[j], names),
                decreases n - i,
            {
                let op = rest.remove(0);
                assert(renamable(ops[i as int], names));
                operations.push(rename_font(op, old_fonts));
                i = i + 1;
            }
            assert(ops_model(operations@) =~= target);
        },
        Err(_) => {
            assert(ops_model(operations@) =~= target);
        },
    }
    match encode_content(&operations) {
        Ok(encoded_stream) => {
            stream.dict.set(key_bytes("Length"), PdfObject::Integer(encoded_stream.len() as i64));
            stream.content = encoded_stream;
        },
        Err(_) => {},
    }
}

/// Whether an object is a form whose resources are object 7.
pub open spec fn is_form_of_page(o: ObjectView) -> bool {
    &&& o matches ObjectView::Stream(d, _, _, _)
    &&& dict_get(d, key("Subtype"@)) == Some(ObjectView::Name(key("Form"@)))
    &&& dict_get(d, key("Resources"@)) == Some(ObjectView::Reference((7u32, 0u16)))
}

/// The ids among `ids` whose objects are forms of the page, in order.
pub open spec fn forms_among(ov: Map<ObjectId, ObjectView>, ids: Seq<ObjectId>) -> Seq<ObjectId>
    decreases ids.len(),
{
    if ids.len() == 0 {
        Seq::empty()
    } else if is_form_of_page(ov[ids.last()]) {
        forms_among(ov, ids.drop_last()).push(ids.last())
    } else {
        forms_among(ov, ids.drop_last())
    }
}

/// Whether an object is a form whose resources are object 7.
fn is_form(o: &PdfObject) -> (r: bool)
    ensures
        r == is_form_of_page(obj_view(*o)),
{
    match o {
        PdfObject::Stream(s) => {
            let subtype = match s.dict.get(key_bytes("Subtype").as_slice()) {
                Some(PdfObject::Name(v)) => bytes_eq(v.as_slice(), key_bytes("Form").as_slice()),
                _ => false,
            };
            if !subtype {
                return false;
            }
            match s.dict.get(key_bytes("Resources").as_slice()) {
                Some(PdfObject::Reference(id)) => id.0 == 7 && id.1 == 0,
                _ => false,
            }
        },
        _ => false,
    }
}

/// The ids of the forms whose resources are the page's (object 7), in the
/// order of their ids.
pub fn find_all_form_streams(doc: &PdfDocument) -> (r: Vec<ObjectId>)
    ensures
        r@ == forms_among(objects_view(doc.objects@), key_order(doc.objects@.dom())),
        ascending_ids(key_order(doc.objects@.dom()), doc.objects@.dom()),
{
    let ids = doc.object_ids();
    proof {
        lemma_key_order(ids@, doc.objects@.dom());
    }
    let ghost ov = objects_view(doc.objects@);
    let mut found: Vec<ObjectId> = Vec::new();
    let mut i: usize = 0;
    assert(ids@.take(0) =~= Seq::<ObjectId>::empty());
    while i < ids.len()
        invariant
            i <= ids@.len(),
            ids@.to_set() == doc.objects@.dom(),
            ov == objects_view(doc.objects@),
            found@ == forms_among(ov, ids@.take(i as int)),
        decreases ids@.len() - i,
    {
        let id = ids[i];
        proof {
            assert(ids@.take(i + 1).drop_last() =~= ids@.take(i as int));
            assert(ids@.take(i + 1).last() == id);
            assert(ids@.to_set().contains(id));
        }
        match doc.objects.get(&id) {
            Some(o) => {
                if is_form(o) {
                    found.push(id);
                }
            },
            None => {},
        }
        i = i + 1;
    }
    proof {
        assert(ids@.take(ids@.len() as int) =~= ids@);
    }
    found
}

/// The empty stream of a patched page's edits.
pub open spec fn edit_stream() -> ObjectView {
    ObjectView::Stream(seq![(key("Length"@), ObjectView::Integer(0))], Seq::empty(), true, None)
}

/// Adds the empty stream that edits go into, as object 6.
pub fn add_strean(final_doc: &mut PdfDocument)
    ensures
        objects_view(final(final_doc).objects@) == objects_view(old(final_doc).objects@).insert((6u32, 0u16), edit_stream()),
        final(final_doc).trailer == old(final_doc).trailer,
        final(final_doc).version == old(final_doc).version,
        final(final_doc).max_id == old(final_doc).max_id,
{
    let mut entries: Vec<(Vec<u8>, PdfObject)> = Vec::new();
    entries.push((key_bytes("Length"), PdfObject::Integer(0)));
    proof {
        lemma_entries_view(entries@);
        assert(entries_view(entries@) =~= seq![(key("Length"@), ObjectView::Integer(0))]);
    }
    let content: Vec<u8> = Vec::new();
    assert(content@ =~= Seq::<u8>::empty());
    let s = PdfObject::Stream(
        PdfStream { dict: PdfDictionary { entries }, content, allows_compression: true, start_position: None },
    );
    assert(obj_view(s) == edit_stream());
    let ghost before = final_doc.objects@;
    final_doc.objects.insert((6, 0), s);
    proof {
        lemma_objects_view_insert(before, (6u32, 0u16), s);
    }
}

// ------------------------------------------------------------ embedded fonts

/// The bytes of the embedded fonts that are kept outside the program: the
/// character maps and font programs of the two fonts.
pub struct FontFiles {
    pub liberation_to_unicode: Vec<u8>,
    pub liberation_font: Vec<u8>,
    pub symbola_to_unicode: Vec<u8>,
    pub symbola_font: Vec<u8>,
}

/// The objects with the two embedded fonts at numbers 10 to 18.
pub open spec fn embedded(ov: Map<ObjectId, ObjectView>, files: FontFiles) -> Map<ObjectId, ObjectView> {
    ov.insert((10u32, 0u16), ObjectView::Dictionary(f_10_spec()))
        .insert((11u32, 0u16), ObjectView::Dictionary(f_11_spec()))
        .insert((12u32, 0u16), data_stream_spec(files.liberation_to_unicode@, false, true))
        .insert((13u32, 0u16), ObjectView::Dictionary(f_13_spec()))
        .insert((14u32, 0u16), data_stream_spec(files.liberation_font@, true, false))
        .insert((15u32, 0u16), data_stream_spec(files.symbola_to_unicode@, false, false))
        .insert((16u32, 0u16), ObjectView::Dictionary(f_16_spec()))
        .insert((17u32, 0u16), ObjectView::Dictionary(f_17_spec()))
        .insert((18u32, 0u16), data_stream_spec(files.symbola_font@, true, false))
}

fn put_object(doc: &mut PdfDocument, id: ObjectId, o: PdfObject)
    ensures
        objects_view(final(doc).objects@) == objects_view(old(doc).objects@).insert(id, obj_view(o)),
        final(doc).trailer == old(doc).trailer,
        final(doc).version == old(doc).version,
        final(doc).max_id == old(doc).max_id,
{
    let ghost before = doc.objects@;
    doc.objects.insert(id, o);
    proof {
        lemma_objects_view_insert(before, id, o);
    }
}

/// Embeds the two fonts: `F1` (objects 10, 12, 13, 14) and `F2` (objects
/// 11, 15, 16, 17, 18).
pub fn embed_font_files(doc: &mut PdfDocument, files: FontFiles)
    ensures
        objects_view(final(doc).objects@) == embedded(objects_view(old(doc).objects@), files),
        final(doc).trailer == old(doc).trailer,
        final(doc).version == old(doc).version,
        final(doc).max_id == old(doc).max_id,
{
    let ghost f = files;
    put_object(doc, (10, 0), PdfObject::Dictionary(f_10()));
    put_object(doc, (11, 0), PdfObject::Dictionary(f_11()));
    put_object(doc, (12, 0), PdfObject::Stream(f_12(files.liberation_to_unicode)));
    put_object(doc, (13, 0), PdfObject::Dictionary(f_13()));
    put_object(doc, (14, 0), PdfObject::Stream(f_14(files.liberation_font)));
    put_object(doc, (15, 0), PdfObject::Stream(f_15(files.symbola_to_unicode)));
    put_object(doc, (16, 0), PdfObject::Dictionary(f_16()));
    put_object(doc, (17, 0), PdfObject::Dictionary(f_17()));
    put_object(doc, (18, 0), PdfObject::Stream(f_18(files.symbola_font)));
}

// ------------------------------------------------------------ finishing

/// The objects with the stream that `id` leads to renamed (see
/// [`renamed_stream`]), after `extra` is added to its content.
pub open spec fn rename_at(ov: Map<ObjectId, ObjectView>, id: ObjectId, extra: Seq<u8>, old_fonts: Seq<Seq<u8>>) -> Map<ObjectId, ObjectView> {
    match resolve_view(ov, id) {
        Ok(t) => match ov[t] {
            ObjectView::Stream(d, c, a, p) => {
                let r = renamed_stream(d, c + extra, old_fonts);
                ov.insert(t, ObjectView::Stream(r.0, r.1, a, p))
            },
            _ => ov,
        },
        Err(_) => ov,
    }
}

/// Whether the stream that `id` leads to can be renamed after `extra` is
/// added to its content.
pub open spec fn renamable_at(ov: Map<ObjectId, ObjectView>, id: ObjectId, extra: Seq<u8>, old_fonts: Seq<Seq<u8>>) -> bool {
    match resolve_view(ov, id) {
        Ok(t) => match ov[t] {
            ObjectView::Stream(_, c, _, _) => content_renamable(c + extra, old_fonts),
            _ => true,
        },
        Err(_) => true,
    }
}

/// The objects with the streams `ids` led to renamed, in turn.
pub open spec fn rename_all(ov: Map<ObjectId, ObjectView>, ids: Seq<ObjectId>, old_fonts: Seq<Seq<u8>>) -> Map<ObjectId, ObjectView>
    decreases ids.len(),
{
    if ids.len() == 0 {
        ov
    } else {
        rename_at(rename_all(ov, ids.drop_last(), old_fonts), ids.last(), Seq::empty(), old_fonts)
    }
}

/// The ids of the forms of the page in a document's objects, in order.
pub open spec fn forms_of(ov: Map<ObjectId, ObjectView>) -> Seq<ObjectId> {
    forms_among(ov, key_order(ov.dom()))
}

proof fn lemma_forms_among(ov: Map<ObjectId, ObjectView>, ids: Seq<ObjectId>)
    requires
        forall|i: int, j: int| 0 <= i < j < ids.len() ==> id_less(#[trigger] ids[i], #[trigger] ids[j]),
    ensures
        forall|i: int, j: int| 0 <= i < j < forms_among(ov, ids).len() ==> id_less(#[trigger] forms_among(ov, ids)[i], #[trigger] forms_among(ov, ids)[j]),
        forall|i: int| 0 <= i < forms_among(ov, ids).len() ==> ids.contains(#[trigger] forms_among(ov, ids)[i]) && is_form_of_page(ov[forms_among(ov, ids)[i]]),
    decreases ids.len(),
{
    if ids.len() > 0 {
        let d = ids.drop_last();
        assert forall|i: int, j: int| 0 <= i < j < d.len() implies id_less(#[trigger] d[i], #[trigger] d[j]) by {
            assert(d[i] == ids[i] && d[j] == ids[j]);
        }
        lemma_forms_among(ov, d);
        let f = forms_among(ov, d);
        assert forall|i: int| 0 <= i < f.len() implies id_less(#[trigger] f[i], ids.last()) by {
            assert(d.contains(f[i]));
            let k = choose|k: int| 0 <= k < d.len() && d[k] == f[i];
            assert(ids[k] == f[i]);
        }
        assert forall|i: int| 0 <= i < f.len() implies ids.contains(#[trigger] f[i]) by {
            let k = choose|k: int| 0 <= k < d.len() && d[k] == f[i];
            assert(ids[k] == f[i]);
        }
    }
}

/// Whether every form of the page in the objects can be renamed.
pub open spec fn forms_renamable(ov: Map<ObjectId, ObjectView>, old_fonts: Seq<Seq<u8>>) -> bool {
    forall|k: ObjectId|
        #![trigger ov[k]]
        ov.contains_key(k) && is_form_of_page(ov[k]) ==> (ov[k] matches ObjectView::Stream(_, c, _, _) && content_renamable(c, old_fonts))
}

/// What finishing a patch makes of the objects: the page content renamed
/// after the matrix that undoes its transformations is added (`cm`), then
/// each form of the page renamed, the unused objects pruned, the edit stream
/// (6) and the fonts (10 to 18) added.
pub open spec fn finished(ov: Map<ObjectId, ObjectView>, trailer: DictView, cm: Seq<u8>, old_fonts: Seq<Seq<u8>>, files: FontFiles) -> Map<ObjectId, ObjectView> {
    let ov1 = rename_at(ov, (5u32, 0u16), cm, old_fonts);
    let ov2 = rename_all(ov1, forms_of(ov1), old_fonts);
    let ov3 = crate::document::pruned(ov2, trailer);
    embedded(ov3.insert((6u32, 0u16), edit_stream()), files)
}

/// A finished patch keeps edits consistent. Whatever the document, object 6
/// is the empty edit stream and objects 10 and 11 are the dictionaries of the
/// fonts that `F1` and `F2` name; an edit appended to the finished document
/// goes into that stream, which then holds exactly the edit.
pub proof fn lemma_finished_layout(
    ov: Map<ObjectId, ObjectView>,
    trailer: DictView,
    cm: Seq<u8>,
    old_fonts: Seq<Seq<u8>>,
    files: FontFiles,
    added: Seq<u8>,
)
    ensures
        finished(ov, trailer, cm, old_fonts, files).contains_key((6u32, 0u16)),
        finished(ov, trailer, cm, old_fonts, files)[(6u32, 0u16)] == edit_stream(),
        finished(ov, trailer, cm, old_fonts, files)[(10u32, 0u16)] == ObjectView::Dictionary(f_10_spec()),
        finished(ov, trailer, cm, old_fonts, files)[(11u32, 0u16)] == ObjectView::Dictionary(f_11_spec()),
        edited(finished(ov, trailer, cm, old_fonts, files), added) matches Ok(o) && o[(6u32, 0u16)] matches ObjectView::Stream(
            _,
            c,
            _,
            _,
        ) && c == added,
{
    let f = finished(ov, trailer, cm, old_fonts, files);
    assert(f[(6u32, 0u16)] == edit_stream());
    assert(resolve_view(f, (6u32, 0u16)) == Ok::<ObjectId, PdfError>((6u32, 0u16)));
    assert(Seq::<u8>::empty() + added =~= added);
}

/// The matrix that finishing adds goes after the page content: renaming
/// the stream that `id` leads to with `extra` added is the same as first
/// appending `extra` to the end of that stream's content and then renaming
/// it with nothing added. So the page content is drawn first, as before, and
/// the matrix applies only to what follows it.
pub proof fn lemma_extra_goes_last(
    ov: Map<ObjectId, ObjectView>,
    id: ObjectId,
    extra: Seq<u8>,
    old_fonts: Seq<Seq<u8>>,
    t: ObjectId,
    d: DictView,
    c: Seq<u8>,
    a: bool,
    p: Option<usize>,
)
    requires
        resolve_view(ov, id) == Ok::<ObjectId, PdfError>(t),
        ov[t] == ObjectView::Stream(d, c, a, p),
    ensures
        rename_at(ov, id, extra, old_fonts) == rename_at(
            ov.insert(t, ObjectView::Stream(d, c + extra, a, p)),
            id,
            Seq::empty(),
            old_fonts,
        ),
        renamable_at(ov, id, extra, old_fonts) == renamable_at(
            ov.insert(t, ObjectView::Stream(d, c + extra, a, p)),
            id,
            Seq::empty(),
            old_fonts,
        ),
{
    let appended = ov.insert(t, ObjectView::Stream(d, c + extra, a, p));
    crate::document::lemma_resolve_view_insert(ov, id, t, ObjectView::Stream(d, c + extra, a, p));
    assert(c + extra + Seq::<u8>::empty() =~= c + extra);
    let r = renamed_stream(d, c + extra, old_fonts);
    assert(appended.insert(t, ObjectView::Stream(r.0, r.1, a, p)) =~= ov.insert(t, ObjectView::Stream(r.0, r.1, a, p)));
}

fn rename_in(doc: &mut PdfDocument, id: ObjectId, extra: Vec<u8>, old_fonts: &Vec<Vec<u8>>)
    requires
        renamable_at(objects_view(old(doc).objects@), id, extra@, keys_view(old_fonts@)),
        old_fonts@.len() + 3 <= usize::MAX,
    ensures
        objects_view(final(doc).objects@) == rename_at(objects_view(old(doc).objects@), id, extra@, keys_view(old_fonts@)),
        final(doc).trailer == old(doc).trailer,
        final(doc).version == old(doc).version,
        final(doc).max_id == old(doc).max_id,
{
    let ghost before = doc.objects@;
    proof {
        lemma_resolve_view(before, id);
    }
    match doc.resolve(id) {
        Ok(t) => {
            match doc.objects.remove(&t) {
                Some(PdfObject::Stream(mut s)) => {
                    let mut extra = extra;
                    s.content.append(&mut extra);
                    modify(&mut s, old_fonts);
                    let ghost s2 = s;
                    doc.objects.insert(t, PdfObject::Stream(s));
                    proof {
                        assert(before.remove(t).insert(t, PdfObject::Stream(s2)) =~= before.insert(t, PdfObject::Stream(s2)));
                        lemma_objects_view_insert(before, t, PdfObject::Stream(s2));
                    }
                },
                Some(other) => {
                    doc.objects.insert(t, other);
                    proof {
                        assert(before.remove(t).insert(t, other) =~= before);
                    }
                },
                None => {},
            }
        },
        Err(_) => {},
    }
}

/// Finishes patching a document: the page content (object 5) gets `cm`, the
/// encoded matrix that undoes its transformations, and has its font
/// selections renamed, as have the forms of the page; the unused objects are
/// pruned, the edit stream (6) and the fonts added.
pub fn finish_patch(final_doc: &mut PdfDocument, cm: Vec<u8>, old_fonts: &Vec<Vec<u8>>, files: FontFiles)
    requires
        old_fonts@.len() + 3 <= usize::MAX,
        renamable_at(objects_view(old(final_doc).objects@), (5u32, 0u16), cm@, keys_view(old_fonts@)),
        forms_renamable(rename_at(objects_view(old(final_doc).objects@), (5u32, 0u16), cm@, keys_view(old_fonts@)), keys_view(old_fonts@)),
    ensures
        objects_view(final(final_doc).objects@) == finished(
            objects_view(old(final_doc).objects@),
            old(final_doc).trailer@,
            cm@,
            keys_view(old_fonts@),
            files,
        ),
        final(final_doc).trailer@ == old(final_doc).trailer@,
        final(final_doc).version@ == old(final_doc).version@,
        final(final_doc).max_id == old(final_doc).max_id,
{
    let ghost names = keys_view(old_fonts@);
    rename_in(final_doc, (5, 0), cm, old_fonts);
    let ghost ov1 = objects_view(final_doc.objects@);
    let xobject_streams_ids = find_all_form_streams(final_doc);
    proof {
        assert(ov1.dom() =~= final_doc.objects@.dom());
        let ids = key_order(ov1.dom());
        assert(ascending_ids(ids, ov1.dom()));
        lemma_forms_among(ov1, ids);
    }
    let ghost forms = xobject_streams_ids@;
    let mut i: usize = 0;
    assert(forms.take(0) =~= Seq::<ObjectId>::empty());
    while i < xobject_streams_ids.len()
        invariant
            i <= forms.len(),
            forms == xobject_streams_ids@,
            forms == forms_of(ov1),
            forall|a: int, b: int| 0 <= a < b < forms.len() ==> id_less(#[trigger] forms[a], #[trigger] forms[b]),
            forall|a: int| 0 <= a < forms.len() ==> ov1.contains_key(#[trigger] forms[a]) && is_form_of_page(ov1[forms[a]]),
            forms_renamable(ov1, names),
            names == keys_view(old_fonts@),
            old_fonts@.len() + 3 <= usize::MAX,
            objects_view(final_doc.objects@) == rename_all(ov1, forms.take(i as int), names),
            forall|a: int| i <= a < forms.len() ==> #[trigger] objects_view(final_doc.objects@)[forms[a]] == ov1[forms[a]]
                && objects_view(final_doc.objects@).contains_key(forms[a]),
            final_doc.trailer@ == old(final_doc).trailer@,
            final_doc.version@ == old(final_doc).version@,
            final_doc.max_id == old(final_doc).max_id,
        decreases forms.len() - i,
    {
        let id = xobject_streams_ids[i];
        let ghost cur = objects_view(final_doc.objects@);
        proof {
            assert(forms.take(i + 1).drop_last() =~= forms.take(i as int));
            assert(ov1.contains_key(id));
            assert(cur[id] == ov1[id]);
            assert(cur[id] is Stream);
            assert(!(cur[id] is Reference));
            assert(resolve_view(cur, id) == Ok::<ObjectId, PdfError>(id));
            assert(forall|x: Seq<u8>| x + Seq::<u8>::empty() == x) by {
                assert forall|x: Seq<u8>| x + Seq::<u8>::empty() == x by {
                    assert(x + Seq::<u8>::empty() =~= x);
                }
            }
        }
        rename_in(final_doc, id, Vec::new(), old_fonts);
        proof {
            let new = objects_view(final_doc.objects@);
            match cur[id] {
                ObjectView::Stream(d, c, a, p) => {
                    let r = renamed_stream(d, c + Seq::<u8>::empty(), names);
                    assert(new == cur.insert(id, ObjectView::Stream(r.0, r.1, a, p)));
                },
                _ => {},
            }
            assert forall|a: int| i + 1 <= a < forms.len() implies #[trigger] objects_view(final_doc.objects@)[forms[a]] == ov1[forms[a]]
                && objects_view(final_doc.objects@).contains_key(forms[a]) by {
                assert(id_less(forms[i as int], forms[a]));
                assert(forms[a] != id);
            }
        }
        i = i + 1;
    }
    proof {
        assert(forms.take(forms.len() as int) =~= forms);
    }
    final_doc.prune_objects();
    add_strean(final_doc);
    embed_font_files(final_doc, files);
}

// ------------------------------------------------------------ patching

/// A document on its way through patching: the document, the old names of
/// its page's fonts, and the operations of its page content that transform
/// coordinates (`cm`, `q`, `Q`), when that content is a stream.
pub struct Patching {
    pub doc: PdfDocument,
    pub old_fonts: Vec<Vec<u8>>,
    pub transformations: Option<Vec<PdfOperation<PdfObject>>>,
}

/// The operators kept when the page content's transformations are read.
pub open spec fn cm_keys() -> Seq<Seq<char>> {
    seq!["cm"@, "Q"@, "q"@]
}

/// Whether the fonts of the renumbered page (object 8) can be renamed: their
/// names are text, and not too many.
pub open spec fn fonts_renamable(ov: Map<ObjectId, ObjectView>) -> bool {
    match resolve_view(ov, (8u32, 0u16)) {
        Ok(t) => match ov[t] {
            ObjectView::Dictionary(d) => (forall|i: int| 0 <= i < d.len() ==> vstd::utf8::valid_utf8(#[trigger] d[i].0)) && d.len()
                + 2 <= usize::MAX,
            _ => true,
        },
        Err(_) => true,
    }
}

/// What the first steps of patching make of the patched objects: the fonts
/// (what object 8 leads to) renamed, their old names, and the transforming
/// operations of the page content (object 5) when it is a stream; a lookup
/// error, or a type error when the fonts are not a dictionary.
pub open spec fn patch_spec(o: Map<ObjectId, ObjectView>) -> Result<
    (Map<ObjectId, ObjectView>, Seq<Seq<u8>>, Option<Seq<OpModel>>),
    PdfError,
> {
    match resolve_view(o, (8u32, 0u16)) {
        Err(e) => Err(e),
        Ok(t) => match o[t] {
            ObjectView::Dictionary(d) => {
                let o1 = o.insert(t, ObjectView::Dictionary(renamed_font_dict(d)));
                let tr = match resolve_view(o1, (5u32, 0u16)) {
                    Ok(t5) => match o1[t5] {
                        ObjectView::Stream(_, c, _, _) => Some(
                            match decoded_content(c) {
                                Some(ops) => selected(ops, cm_keys()),
                                None => Seq::empty(),
                            },
                        ),
                        _ => None,
                    },
                    Err(_) => None,
                };
                Ok((o1, d.map_values(|e: (Seq<u8>, ObjectView)| e.0), tr))
            },
            _ => Err(PdfError::Type),
        },
    }
}

/// The first steps of patching page `page` of a document: the document is
/// renumbered and marked (see [`modify_main`]), its page's fonts renamed
/// (`F1` and `F2` to objects 10 and 11, where the embedded fonts go; see
/// [`renamed_font_dict`]),
/// and the transforming operations of its page content read, for the
/// matrix that undoes them to be computed before [`finish_patch`].
pub fn patch(input_doc: PdfDocument, page: u32) -> (r: Result<Patching, PdfError>)
    requires
        forall|e: Seq<Option<ObjectId>>, info: ObjectView|
            #![trigger patched_spec(input_doc, e, page, info)]
            fresh_map(e, input_doc.objects@.dom()) && is_info(info, CREATOR.spec_bytes(), PRODUCER.spec_bytes())
                ==> patched_spec(input_doc, e, page, info) is Some && (patched_spec(input_doc, e, page, info)->0 matches Ok(o)
                ==> fonts_renamable(o)),
    ensures
        exists|e: Seq<Option<ObjectId>>, info: ObjectView|
            #![trigger patched_spec(input_doc, e, page, info)]
            {
                &&& fresh_map(e, input_doc.objects@.dom())
                &&& is_info(info, CREATOR.spec_bytes(), PRODUCER.spec_bytes())
                &&& match patched_spec(input_doc, e, page, info)->0 {
                    Err(err) => r == Err::<Patching, PdfError>(err),
                    Ok(o) => match patch_spec(o) {
                        Err(err) => r == Err::<Patching, PdfError>(err),
                        Ok((o1, names, tr)) => r matches Ok(p) && objects_view(p.doc.objects@) == o1 && keys_view(
                            p.old_fonts@,
                        ) == names && p.doc.trailer@ == patched_trailer() && p.doc.version@ == "1.4"@ && match tr {
                            Some(ops) => p.transformations matches Some(v) && ops_model(v@) == ops,
                            None => p.transformations is None,
                        },
                    },
                }
            },
{
    let ghost doc0 = input_doc;
    let mut final_doc = match modify_main(input_doc, page) {
        Ok(d) => d,
        Err(err) => {
            return Err(err);
        },
    };
    let ghost (e, info) = choose|e: Seq<Option<ObjectId>>, info: ObjectView|
        {
            &&& fresh_map(e, doc0.objects@.dom())
            &&& is_info(info, CREATOR.spec_bytes(), PRODUCER.spec_bytes())
            &&& match #[trigger] patched_spec(doc0, e, page, info)->0 {
                Ok(o) => objects_view(final_doc.objects@) == o && final_doc.trailer@ == patched_trailer()
                    && final_doc.version@ == "1.4"@,
                Err(err) => false,
            }
        };
    let ghost o = objects_view(final_doc.objects@);
    assert(fonts_renamable(o));
    let ghost before = final_doc.objects@;
    proof {
        lemma_resolve_view(before, (8u32, 0u16));
    }
    let t = match final_doc.resolve((8, 0)) {
        Ok(t) => t,
        Err(err) => {
            return Err(err);
        },
    };
    let old_fonts = match final_doc.objects.remove(&t) {
        Some(PdfObject::Dictionary(mut d)) => {
            let names = change_font_names(&mut d);
            let ghost d2 = d;
            final_doc.objects.insert(t, PdfObject::Dictionary(d));
            proof {
                assert(before.remove(t).insert(t, PdfObject::Dictionary(d2)) =~= before.insert(t, PdfObject::Dictionary(d2)));
                lemma_objects_view_insert(before, t, PdfObject::Dictionary(d2));
            }
            names
        },
        Some(other) => {
            return Err(PdfError::Type);
        },
        None => {
            return Err(PdfError::ObjectNotFound);
        },
    };
    let ghost o1 = objects_view(final_doc.objects@);
    proof {
        lemma_resolve_view(final_doc.objects@, (5u32, 0u16));
    }
    let transformations = match final_doc.resolve((5, 0)) {
        Ok(t5) => match final_doc.objects.get(&t5) {
            Some(PdfObject::Stream(s)) => {
                let mut keys: Vec<&str> = Vec::new();
                keys.push("cm");
                keys.push("Q");
                keys.push("q");
                assert(texts_view(keys@) =~= cm_keys());
                Some(extract(s, keys))
            },
            _ => None,
        },
        Err(_) => None,
    };
    Ok(Patching { doc: final_doc, old_fonts, transformations })
}

} // verus!
