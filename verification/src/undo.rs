use vstd::prelude::*;
use vstd::string::StrSliceExecFns;
use crate::command::Opr;
use crate::content::{ObjectId, PdfOperation, OperationView};
use crate::bridge::{OpModel, decode_content, decoded_content, encode_content, encoded_content, ops_model};
use crate::document::{PdfDocument, PdfError, lemma_objects_view_insert, lemma_resolve_view, lemma_resolve_view_insert, objects_view, resolve_view};
use crate::object::{ObjectView, PdfObject, obj_view, plain_content_dict};
use crate::apply::{edit_block, edit_prelude, edited, opr_ops, oprs_ops};
use crate::drawer::{line_ops, width_ops};
use crate::painter::{color_ops, rgb_ops};
use crate::writer::{runs_ops, text_ops};

verus! {

/// `q`: the operator that saves the graphics state.
pub open spec fn is_save(operator: Seq<char>) -> bool {
    operator == seq!['q']
}

/// `Q`: the operator that restores the graphics state.
pub open spec fn is_restore(operator: Seq<char>) -> bool {
    operator == seq!['Q']
}

/// The operators of a list of operations.
pub open spec fn operators<A>(ops: Seq<PdfOperation<A>>) -> Seq<Seq<char>> {
    ops.map_values(|o: PdfOperation<A>| o.operator@)
}

/// The operators of a list of modelled operations.
pub open spec fn op_names(ops: Seq<OperationView>) -> Seq<Seq<char>> {
    ops.map_values(|o: OperationView| o.operator)
}

/// How many operations stay when the last edit is undone: operations are
/// taken off the end, a restore counting one level up and a save one level
/// down, until the level is back to where it started (`depth` is the level
/// reached so far).
pub open spec fn undo_len(ops: Seq<Seq<char>>, depth: int) -> int
    decreases ops.len(),
{
    if ops.len() == 0 {
        0
    } else {
        let last = ops.last();
        let d = depth + (if is_restore(last) { 1int } else { 0int }) - (if is_save(last) { 1int } else { 0int });
        if d == 0 {
            ops.len() - 1
        } else {
            undo_len(ops.drop_last(), d)
        }
    }
}

fn is_operator(operator: &String, c: char) -> (r: bool)
    ensures
        r == (operator@ == seq![c]),
{
    let s = operator.as_str();
    if s.unicode_len() == 1 {
        let first = s.get_char(0);
        if first == c {
            assert(s@ =~= seq![c]);
            true
        } else {
            false
        }
    } else {
        false
    }
}

/// Whether the level counted while an edit is undone stays within 32 bits,
/// starting from `depth` (the counter the undo keeps is a 32-bit integer).
pub open spec fn undo_fits(ops: Seq<Seq<char>>, depth: int) -> bool
    decreases ops.len(),
{
    if ops.len() == 0 {
        true
    } else {
        let last = ops.last();
        let up = depth + (if is_restore(last) { 1int } else { 0int });
        let d = up - (if is_save(last) { 1int } else { 0int });
        &&& i32::MIN <= up <= i32::MAX
        &&& i32::MIN <= d <= i32::MAX
        &&& (d == 0 || undo_fits(ops.drop_last(), d))
    }
}

/// Undoes the last edit: takes operations off the end of the content until
/// the graphics-state saves and restores taken off balance out (or the
/// content is empty). Taking off an operation that neither saves nor
/// restores balances at once.
pub fn undo_operations<A>(operations: &mut Vec<PdfOperation<A>>)
    requires
        undo_fits(operators(old(operations)@), 0),
    ensures
        0 <= undo_len(operators(old(operations)@), 0) <= old(operations)@.len(),
        final(operations)@ == old(operations)@.take(undo_len(operators(old(operations)@), 0)),
{
    let ghost orig = operations@;
    let mut i: i32 = 0;
    assert(orig.take(orig.len() as int) =~= orig);
    loop
        invariant_except_break
            operations@ == orig.take(operations@.len() as int),
            operations@.len() <= orig.len(),
            i != 0 || operations@.len() == orig.len(),
            undo_len(operators(orig), 0) == undo_len(operators(operations@), i as int),
            undo_fits(operators(operations@), i as int),
        ensures
            operations@ == orig.take(operations@.len() as int),
            undo_len(operators(orig), 0) == operations@.len(),
        decreases operations@.len(),
    {
        let ghost before = operations@;
        let popped = operations.pop();
        match popped {
            Some(last) => {
                proof {
                    assert(operators(before).drop_last() =~= operators(operations@));
                    assert(operators(before).last() == last.operator@);
                    assert(operations@ =~= orig.take(operations@.len() as int));
                }
                if is_operator(&last.operator, 'Q') {
                    i += 1;
                }
                if is_operator(&last.operator, 'q') {
                    i -= 1;
                }
                if i == 0 {
                    break;
                }
            },
            None => {
                break;
            },
        }
    }
    proof {
        lemma_undo_len_bounds(operators(orig), 0);
    }
}

proof fn lemma_undo_len_bounds(ops: Seq<Seq<char>>, depth: int)
    ensures
        0 <= undo_len(ops, depth) <= ops.len(),
    decreases ops.len(),
{
    if ops.len() > 0 {
        let last = ops.last();
        let d = depth + (if is_restore(last) { 1int } else { 0int }) - (if is_save(last) { 1int } else { 0int });
        if d != 0 {
            lemma_undo_len_bounds(ops.drop_last(), d);
        }
    }
}

/// No operation of the list saves or restores the graphics state.
pub open spec fn keeps_state(ops: Seq<OperationView>) -> bool {
    forall|i: int| 0 <= i < ops.len() ==> !is_save(#[trigger] ops[i].operator) && !is_restore(ops[i].operator)
}

/// An edit operation other than a raw `q` or `Q`.
pub open spec fn plain_opr(o: Opr) -> bool {
    match o {
        Opr::Raw(operator, _) => !is_save(operator@) && !is_restore(operator@),
        _ => true,
    }
}

proof fn lemma_keeps_state_concat(a: Seq<OperationView>, b: Seq<OperationView>)
    requires
        keeps_state(a),
        keeps_state(b),
    ensures
        keeps_state(a + b),
{
    assert forall|i: int| 0 <= i < (a + b).len() implies !is_save(#[trigger] (a + b)[i].operator) && !is_restore((a + b)[i].operator) by {
        if i < a.len() {
            assert((a + b)[i] == a[i]);
        } else {
            assert((a + b)[i] == b[i - a.len()]);
        }
    }
}

proof fn lemma_name_keeps_state(name: Seq<char>)
    requires
        name.len() != 1 || (name[0] != 'q' && name[0] != 'Q'),
    ensures
        !is_save(name) && !is_restore(name),
{
    if is_save(name) {
        assert(name[0] == 'q');
    }
    if is_restore(name) {
        assert(name[0] == 'Q');
    }
}

proof fn lemma_literals_keep_state()
    ensures
        !is_save("Tf"@) && !is_restore("Tf"@),
        !is_save("Tj"@) && !is_restore("Tj"@),
        !is_save("BT"@) && !is_restore("BT"@),
        !is_save("Td"@) && !is_restore("Td"@),
        !is_save("ET"@) && !is_restore("ET"@),
        !is_save("rg"@) && !is_restore("rg"@),
        !is_save("w"@) && !is_restore("w"@),
        !is_save("m"@) && !is_restore("m"@),
        !is_save("l"@) && !is_restore("l"@),
        !is_save("s"@) && !is_restore("s"@),
        !is_save("J"@) && !is_restore("J"@),
        !is_save("j"@) && !is_restore("j"@),
        is_save("q"@),
        is_restore("Q"@),
{
    reveal_strlit("Tf");
    reveal_strlit("Tj");
    reveal_strlit("BT");
    reveal_strlit("Td");
    reveal_strlit("ET");
    reveal_strlit("rg");
    reveal_strlit("w");
    reveal_strlit("m");
    reveal_strlit("l");
    reveal_strlit("s");
    reveal_strlit("J");
    reveal_strlit("j");
    reveal_strlit("q");
    reveal_strlit("Q");
    lemma_name_keeps_state("Tf"@);
    lemma_name_keeps_state("Tj"@);
    lemma_name_keeps_state("BT"@);
    lemma_name_keeps_state("Td"@);
    lemma_name_keeps_state("ET"@);
    lemma_name_keeps_state("rg"@);
    lemma_name_keeps_state("w"@);
    lemma_name_keeps_state("m"@);
    lemma_name_keeps_state("l"@);
    lemma_name_keeps_state("s"@);
    lemma_name_keeps_state("J"@);
    lemma_name_keeps_state("j"@);
    assert("q"@ =~= seq!['q']);
    assert("Q"@ =~= seq!['Q']);
}

proof fn lemma_runs_ops_keep_state(rs: Seq<(bool, Seq<u8>)>, size: u32)
    ensures
        keeps_state(runs_ops(rs, size)),
    decreases rs.len(),
{
    lemma_literals_keep_state();
    if rs.len() > 0 {
        lemma_runs_ops_keep_state(rs.drop_last(), size);
        let (font, text) = crate::writer::run_operands(rs.last());
        let tail = seq![
            crate::content::op_spec("Tf"@, seq![font, crate::content::OperandView::Integer(size as i64)]),
            crate::content::op_spec("Tj"@, seq![text]),
        ];
        assert(keeps_state(tail));
        lemma_keeps_state_concat(runs_ops(rs.drop_last(), size), tail);
    }
}

proof fn lemma_opr_keeps_state(o: Opr)
    requires
        plain_opr(o),
    ensures
        keeps_state(opr_ops(o)),
{
    lemma_literals_keep_state();
    match o {
        Opr::WriteLine(px, py, size, text) => {
            let t = text@.map_values(|c: char| crate::writer::font_char_spec(c));
            let rs = crate::writer::runs(t);
            lemma_runs_ops_keep_state(rs, size);
            let head = seq![
                crate::content::op_spec("BT"@, seq![]),
                crate::content::op_spec("Td"@, seq![crate::content::OperandView::Integer(px as i64), crate::content::OperandView::Integer(py as i64)]),
            ];
            let tail = seq![crate::content::op_spec("ET"@, seq![])];
            assert(keeps_state(head));
            assert(keeps_state(tail));
            lemma_keeps_state_concat(head, runs_ops(rs, size));
            lemma_keeps_state_concat(head + runs_ops(rs, size), tail);
            assert(text_ops(px, py, size, text@) == head + runs_ops(rs, size) + tail);
        },
        Opr::ChangeColor(color) => {
            assert(keeps_state(color_ops(color)));
        },
        Opr::ChangeRgb(r, g, b) => {
            assert(keeps_state(rgb_ops(r, g, b)));
        },
        Opr::SetWidth(w) => {
            assert(keeps_state(width_ops(w)));
        },
        Opr::DrawLine(a, b, c, d) => {
            assert(keeps_state(line_ops(a, b, c, d)));
        },
        Opr::Raw(_, _) => {},
    }
}

proof fn lemma_oprs_keep_state(oprs: Seq<Opr>)
    requires
        forall|i: int| 0 <= i < oprs.len() ==> plain_opr(#[trigger] oprs[i]),
    ensures
        keeps_state(oprs_ops(oprs)),
    decreases oprs.len(),
{
    if oprs.len() > 0 {
        assert forall|i: int| 0 <= i < oprs.drop_last().len() implies plain_opr(#[trigger] oprs.drop_last()[i]) by {
            assert(oprs.drop_last()[i] == oprs[i]);
        }
        lemma_oprs_keep_state(oprs.drop_last());
        lemma_opr_keeps_state(oprs[oprs.len() - 1]);
        lemma_keeps_state_concat(oprs_ops(oprs.drop_last()), opr_ops(oprs.last()));
    }
}

proof fn lemma_undo_inside(a: Seq<Seq<char>>, m: Seq<Seq<char>>)
    requires
        forall|i: int| 0 <= i < m.len() ==> !is_save(#[trigger] m[i]) && !is_restore(m[i]),
    ensures
        undo_len(a + seq![seq!['q']] + m, 1) == a.len(),
    decreases m.len(),
{
    let s = a + seq![seq!['q']] + m;
    if m.len() == 0 {
        assert(s =~= a.push(seq!['q']));
        assert(s.drop_last() =~= a);
        assert(s.last() == seq!['q']);
        assert(is_save(seq!['q']));
        assert(!is_restore(seq!['q'])) by {
            assert(seq!['q'][0] != seq!['Q'][0]);
        }
    } else {
        assert(s.drop_last() =~= a + seq![seq!['q']] + m.drop_last());
        assert(s.last() == m[m.len() - 1]);
        assert forall|i: int| 0 <= i < m.drop_last().len() implies !is_save(#[trigger] m.drop_last()[i]) && !is_restore(m.drop_last()[i]) by {
            assert(m.drop_last()[i] == m[i]);
        }
        lemma_undo_inside(a, m.drop_last());
    }
}

/// Undoing after an edit gives back the page as it was: whatever the content
/// before, and for any edit operations other than a raw save or restore of the
/// graphics state, undoing removes exactly the block that the edit appended.
pub proof fn lemma_undo_reverts_edit(before: Seq<Seq<char>>, oprs: Seq<Opr>)
    requires
        forall|i: int| 0 <= i < oprs.len() ==> plain_opr(#[trigger] oprs[i]),
    ensures
        undo_len(before + op_names(edit_block(oprs)), 0) == before.len(),
{
    lemma_literals_keep_state();
    lemma_oprs_keep_state(oprs);
    let prelude_rest = edit_prelude().drop_first();
    assert(keeps_state(prelude_rest));
    lemma_keeps_state_concat(prelude_rest, oprs_ops(oprs));
    let inner = prelude_rest + oprs_ops(oprs);
    let close = seq![crate::content::op_spec("Q"@, seq![])];
    assert(edit_block(oprs) =~= seq![edit_prelude()[0]] + inner + close);
    let m = op_names(inner);
    assert forall|i: int| 0 <= i < m.len() implies !is_save(#[trigger] m[i]) && !is_restore(m[i]) by {
        assert(m[i] == inner[i].operator);
    }
    assert("q"@ =~= seq!['q']);
    assert("Q"@ =~= seq!['Q']);
    let full = before + op_names(edit_block(oprs));
    assert(full =~= before + seq![seq!['q']] + m + seq![seq!['Q']]);
    assert(full.drop_last() =~= before + seq![seq!['q']] + m);
    assert(full.last() == seq!['Q']);
    assert(!is_save(seq!['Q'])) by {
        assert(seq!['q'][0] != seq!['Q'][0]);
    }
    lemma_undo_inside(before, m);
}

// ------------------------------------------------------------ undoing in a document

/// The operators of modelled operations.
pub open spec fn model_names(ops: Seq<OpModel>) -> Seq<Seq<char>> {
    ops.map_values(|o: OpModel| o.0)
}

/// Whether undoing the last edit of a content can count its levels in 32
/// bits (always, when the content is empty or does not parse).
pub open spec fn content_undo_fits(c: Seq<u8>) -> bool {
    c.len() > 0 ==> (decoded_content(c) matches Some(ops) ==> undo_fits(model_names(ops), 0))
}

/// What undoing the last edit does to a stream's dictionary and content: the
/// content parsed, the operations of the last edit taken off the end, the
/// rest written back as plain content; an empty content stays; a parse or
/// write failure is the error.
pub open spec fn undone(d: crate::object::DictView, c: Seq<u8>) -> Result<(crate::object::DictView, Seq<u8>), PdfError> {
    if c.len() == 0 {
        Ok((d, c))
    } else {
        match decoded_content(c) {
            None => Err(PdfError::ContentDecode),
            Some(ops) => match encoded_content(ops.take(undo_len(model_names(ops), 0))) {
                None => Err(PdfError::ContentEncode),
                Some(b) => Ok((plain_content_dict(d, b.len()), b)),
            },
        }
    }
}

/// Undoes the last edit of a content stream (see [`undone`]); anything but a
/// stream is a type error. The object is unchanged on error.
pub fn remove_last(contents: &mut PdfObject) -> (r: Result<(), PdfError>)
    requires
        obj_view(*old(contents)) matches ObjectView::Stream(_, c, _, _) ==> content_undo_fits(c),
    ensures
        match obj_view(*old(contents)) {
            ObjectView::Stream(d, c, a, p) => match undone(d, c) {
                Ok((d2, c2)) => r is Ok && obj_view(*final(contents)) == ObjectView::Stream(d2, c2, a, p),
                Err(e) => r == Err::<(), PdfError>(e) && *final(contents) == *old(contents),
            },
            _ => r == Err::<(), PdfError>(PdfError::Type) && *final(contents) == *old(contents),
        },
{
    match contents {
        PdfObject::Stream(stream) => {
            if stream.content.len() > 0 {
                let mut operations = match decode_content(&stream.content) {
                    Ok(ops) => ops,
                    Err(e) => {
                        return Err(e);
                    },
                };
                let ghost ops = ops_model(operations@);
                proof {
                    assert(operators(operations@) =~= model_names(ops));
                }
                undo_operations(&mut operations);
                proof {
                    assert(ops_model(operations@) =~= ops.take(undo_len(model_names(ops), 0)));
                }
                let encoded = match encode_content(&operations) {
                    Ok(b) => b,
                    Err(e) => {
                        return Err(e);
                    },
                };
                stream.set_plain_content(encoded);
            }
            Ok(())
        },
        _ => Err(PdfError::Type),
    }
}

/// Whether undoing the last edit of a document (object 6) fits in 32 bits.
pub open spec fn doc_undo_fits(ov: Map<ObjectId, ObjectView>) -> bool {
    match resolve_view(ov, (6u32, 0u16)) {
        Ok(t) => match ov[t] {
            ObjectView::Stream(_, c, _, _) => content_undo_fits(c),
            _ => true,
        },
        Err(_) => true,
    }
}

/// What undoing the last edit does to a document's objects: the edit stream
/// (what object 6 leads to) undone; the lookup's error, or the undo's.
pub open spec fn undo_last_spec(ov: Map<ObjectId, ObjectView>) -> Result<Map<ObjectId, ObjectView>, PdfError> {
    match resolve_view(ov, (6u32, 0u16)) {
        Err(e) => Err(e),
        Ok(t) => match ov[t] {
            ObjectView::Stream(d, c, a, p) => match undone(d, c) {
                Ok((d2, c2)) => Ok(ov.insert(t, ObjectView::Stream(d2, c2, a, p))),
                Err(e) => Err(e),
            },
            _ => Err(PdfError::Type),
        },
    }
}

/// Undoes the last edit of a patched document: the one in its edit stream
/// (object 6).
pub fn undo_last(doc: &mut PdfDocument) -> (r: Result<(), PdfError>)
    requires
        doc_undo_fits(objects_view(old(doc).objects@)),
    ensures
        match undo_last_spec(objects_view(old(doc).objects@)) {
            Ok(o) => r is Ok && objects_view(final(doc).objects@) == o,
            Err(e) => r == Err::<(), PdfError>(e) && objects_view(final(doc).objects@) == objects_view(old(doc).objects@),
        },
        final(doc).trailer == old(doc).trailer,
        final(doc).version == old(doc).version,
        final(doc).max_id == old(doc).max_id,
{
    let ghost before = doc.objects@;
    proof {
        lemma_resolve_view(before, (6u32, 0u16));
    }
    let t = match doc.resolve((6, 0)) {
        Ok(t) => t,
        Err(e) => {
            return Err(e);
        },
    };
    match doc.objects.remove(&t) {
        Some(mut o) => {
            let ghost o0 = o;
            let r = remove_last(&mut o);
            let ghost o2 = o;
            doc.objects.insert(t, o);
            proof {
                assert(before.remove(t).insert(t, o2) =~= before.insert(t, o2));
                lemma_objects_view_insert(before, t, o2);
                if r is Err {
                    assert(o2 == o0);
                    assert(before.insert(t, o0) =~= before);
                }
            }
            r
        },
        None => Err(PdfError::ObjectNotFound),
    }
}

fn undo_fits_exec<A>(operations: &Vec<PdfOperation<A>>) -> (r: bool)
    ensures
        r == undo_fits(operators(operations@), 0),
{
    let ghost all = operators(operations@);
    let mut n = operations.len();
    let mut i: i32 = 0;
    assert(all.take(n as int) =~= all);
    loop
        invariant
            n <= operations@.len(),
            all == operators(operations@),
            undo_fits(all, 0) == undo_fits(all.take(n as int), i as int),
            i != 0 || n == operations@.len(),
        decreases n,
    {
        if n == 0 {
            return true;
        }
        let last = &operations[n - 1];
        proof {
            assert(all.take(n as int).drop_last() =~= all.take(n - 1));
            assert(all.take(n as int).last() == last.operator@);
        }
        if is_operator(&last.operator, 'Q') {
            if i == i32::MAX {
                return false;
            }
            i += 1;
        }
        if is_operator(&last.operator, 'q') {
            if i == i32::MIN {
                return false;
            }
            i -= 1;
        }
        if i == 0 {
            return true;
        }
        n = n - 1;
    }
}

/// [`undo_last`] where it can answer: `None` when the edit stream holds more
/// nested levels than 32 bits count, where `undo_last` would refuse; the
/// document is then unchanged.
pub fn undo_last_checked(doc: &mut PdfDocument) -> (r: Option<Result<(), PdfError>>)
    ensures
        r is Some <==> doc_undo_fits(objects_view(old(doc).objects@)),
        r matches Some(res) ==> match undo_last_spec(objects_view(old(doc).objects@)) {
            Ok(o) => res is Ok && objects_view(final(doc).objects@) == o,
            Err(e) => res == Err::<(), PdfError>(e) && objects_view(final(doc).objects@) == objects_view(old(doc).objects@),
        },
        r is None ==> *final(doc) == *old(doc),
{
    proof {
        lemma_resolve_view(doc.objects@, (6u32, 0u16));
    }
    match doc.resolve((6, 0)) {
        Ok(t) => match doc.objects.get(&t) {
            Some(PdfObject::Stream(s)) => {
                if s.content.len() > 0 {
                    match decode_content(&s.content) {
                        Ok(ops) => {
                            proof {
                                assert(operators(ops@) =~= model_names(ops_model(ops@)));
                            }
                            if !undo_fits_exec(&ops) {
                                return None;
                            }
                        },
                        Err(_) => {},
                    }
                }
            },
            _ => {},
        },
        Err(_) => {},
    }
    Some(undo_last(doc))
}

/// Undoing the last edit of a document takes back exactly that edit. When
/// an edit's block of operations has been appended to the edit stream (what
/// object 6 leads to) and the stream's content then parses into the
/// operations it held before followed by that block, undoing writes back
/// the operations it held before, as plain content.
pub proof fn lemma_undo_last_reverts_edit(
    ov: Map<ObjectId, ObjectView>,
    added: Seq<u8>,
    oprs: Seq<Opr>,
    before: Seq<OpModel>,
    block: Seq<OpModel>,
)
    requires
        forall|i: int| 0 <= i < oprs.len() ==> plain_opr(#[trigger] oprs[i]),
        added.len() > 0,
        model_names(block) == op_names(edit_block(oprs)),
        resolve_view(ov, (6u32, 0u16)) matches Ok(t) && ov[t] matches ObjectView::Stream(_, c, _, _) && decoded_content(
            c + added,
        ) == Some(before + block),
    ensures
        ({
            let t = resolve_view(ov, (6u32, 0u16))->Ok_0;
            let (d, c, a, p) = (ov[t]->Stream_0, ov[t]->Stream_1, ov[t]->Stream_2, ov[t]->Stream_3);
            let d1 = plain_content_dict(d, (c + added).len());
            undo_last_spec(edited(ov, added)->Ok_0) == match encoded_content(before) {
                Some(b) => Ok::<Map<ObjectId, ObjectView>, PdfError>(
                    ov.insert(t, ObjectView::Stream(plain_content_dict(d1, b.len()), b, a, p)),
                ),
                None => Err(PdfError::ContentEncode),
            }
        }),
{
    let t = resolve_view(ov, (6u32, 0u16))->Ok_0;
    let (d, c, a, p) = (ov[t]->Stream_0, ov[t]->Stream_1, ov[t]->Stream_2, ov[t]->Stream_3);
    let d1 = plain_content_dict(d, (c + added).len());
    let o = ov.insert(t, ObjectView::Stream(d1, c + added, a, p));
    assert(edited(ov, added) == Ok::<Map<ObjectId, ObjectView>, PdfError>(o));
    lemma_resolve_view_insert(ov, (6u32, 0u16), t, ObjectView::Stream(d1, c + added, a, p));
    let ops = before + block;
    lemma_undo_reverts_edit(model_names(before), oprs);
    assert(model_names(ops) =~= model_names(before) + op_names(edit_block(oprs)));
    assert(ops.take(before.len() as int) =~= before);
    match encoded_content(before) {
        Some(b) => {
            assert(o.insert(t, ObjectView::Stream(plain_content_dict(d1, b.len()), b, a, p)) =~= ov.insert(
                t,
                ObjectView::Stream(plain_content_dict(d1, b.len()), b, a, p),
            ));
        },
        None => {},
    }
}

} // verus!
