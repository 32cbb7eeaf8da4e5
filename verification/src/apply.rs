use vstd::prelude::*;
use crate::command::Opr;
use crate::content::{Operand, OperandView, PdfOperation, OperationView, operation, op_spec, ops_view, operands_view};
use crate::drawer::{draw_line, set_width, line_ops, width_ops};
use crate::painter::{change_color, change_rgb, color_ops, rgb_ops};
use crate::writer::{write_text, text_ops};
use crate::content::ObjectId;
use crate::document::{PdfDocument, PdfError, lemma_objects_view_insert, lemma_resolve_view, objects_view, resolve_view};
use crate::object::{ObjectView, PdfObject, plain_content_dict};

verus! {

/// The operations of one edit operation.
pub open spec fn opr_ops(o: Opr) -> Seq<OperationView> {
    match o {
        Opr::WriteLine(px, py, size, text) => text_ops(px, py, size, text@),
        Opr::ChangeColor(color) => color_ops(color),
        Opr::ChangeRgb(red, green, blue) => rgb_ops(red, green, blue),
        Opr::SetWidth(width) => width_ops(width),
        Opr::DrawLine(x1, y1, x2, y2) => line_ops(x1, y1, x2, y2),
        Opr::Raw(operator, operands) => seq![op_spec(operator@, operands_view(operands@))],
    }
}

/// The operations of a list of edit operations, one after the other.
pub open spec fn oprs_ops(oprs: Seq<Opr>) -> Seq<OperationView>
    decreases oprs.len(),
{
    if oprs.len() == 0 {
        seq![]
    } else {
        oprs_ops(oprs.drop_last()) + opr_ops(oprs.last())
    }
}

/// The state every edit starts from: graphics state saved, black fill, line
/// width 1, round caps and joins.
pub open spec fn edit_prelude() -> Seq<OperationView> {
    seq![
        op_spec("q"@, seq![]),
        op_spec("rg"@, seq![OperandView::Integer(0), OperandView::Integer(0), OperandView::Integer(0)]),
        op_spec("w"@, seq![OperandView::Integer(1)]),
        op_spec("J"@, seq![OperandView::Integer(1)]),
        op_spec("j"@, seq![OperandView::Integer(1)]),
    ]
}

/// The block of operations that one edit command appends to the page: the
/// prelude, the operations of each edit operation in order, and the
/// restoration of the graphics state.
pub open spec fn edit_block(oprs: Seq<Opr>) -> Seq<OperationView> {
    edit_prelude() + oprs_ops(oprs) + seq![op_spec("Q"@, seq![])]
}

fn clone_operands(v: &Vec<Operand>) -> (r: Vec<Operand>)
    ensures
        operands_view(r@) == operands_view(v@),
{
    let mut r: Vec<Operand> = Vec::new();
    let mut i: usize = 0;
    while i < v.len()
        invariant
            i <= v@.len(),
            r@.len() == i,
            forall|j: int| 0 <= j < i ==> #[trigger] r@[j]@ == v@[j]@,
        decreases v@.len() - i,
    {
        r.push(v[i].clone());
        i = i + 1;
    }
    assert(operands_view(r@) =~= operands_view(v@));
    r
}

fn int_operands(values: &Vec<i64>) -> (r: Vec<Operand>)
    ensures
        operands_view(r@) == values@.map_values(|i: i64| OperandView::Integer(i)),
{
    let mut r: Vec<Operand> = Vec::new();
    let mut k: usize = 0;
    while k < values.len()
        invariant
            k <= values@.len(),
            r@.len() == k,
            forall|j: int| 0 <= j < k ==> #[trigger] r@[j]@ == OperandView::Integer(values@[j]),
        decreases values@.len() - k,
    {
        r.push(Operand::Integer(values[k]));
        k = k + 1;
    }
    assert(operands_view(r@) =~= values@.map_values(|i: i64| OperandView::Integer(i)));
    r
}

/// The operations of one edit operation.
pub fn opr_operations(opr: &Opr) -> (r: Vec<PdfOperation<Operand>>)
    ensures
        ops_view(r@) == opr_ops(*opr),
{
    match opr {
        Opr::WriteLine(px, py, size, text) => write_text(*px, *py, *size, text.clone()),
        Opr::ChangeColor(color) => change_color(*color),
        Opr::ChangeRgb(red, green, blue) => change_rgb(*red, *green, *blue),
        Opr::SetWidth(width) => set_width(*width),
        Opr::DrawLine(x1, y1, x2, y2) => draw_line(*x1, *y1, *x2, *y2),
        Opr::Raw(raw_operator, raw_operands) => {
            let op = PdfOperation { operator: raw_operator.clone(), operands: clone_operands(raw_operands) };
            let r = vec![op];
            assert(ops_view(r@) =~= opr_ops(*opr));
            r
        },
    }
}

/// The operations that one edit command appends to the page's content: the
/// graphics state is saved and reset, the edit operations follow in order,
/// and the graphics state is restored.
pub fn apply_opr(opr_vec: Vec<Opr>) -> (operations: Vec<PdfOperation<Operand>>)
    ensures
        ops_view(operations@) == edit_block(opr_vec@),
{
    let zeros = vec![0i64, 0i64, 0i64];
    let one = vec![1i64];
    proof {
        assert(operands_view(Seq::<Operand>::empty()) =~= Seq::<OperandView>::empty());
        assert(zeros@.map_values(|i: i64| OperandView::Integer(i)) =~= seq![OperandView::Integer(0), OperandView::Integer(0), OperandView::Integer(0)]);
        assert(one@.map_values(|i: i64| OperandView::Integer(i)) =~= seq![OperandView::Integer(1)]);
    }
    let o1 = operation("q", Vec::new());
    let o2 = operation("rg", int_operands(&zeros));
    let o3 = operation("w", int_operands(&one));
    let o4 = operation("J", int_operands(&one));
    let o5 = operation("j", int_operands(&one));
    let mut operations: Vec<PdfOperation<Operand>> = vec![o1, o2, o3, o4, o5];
    proof {
        assert(ops_view(operations@) =~= edit_prelude());
        assert(opr_vec@.take(0) =~= Seq::<Opr>::empty());
    }
    let mut k: usize = 0;
    while k < opr_vec.len()
        invariant
            k <= opr_vec@.len(),
            ops_view(operations@) == edit_prelude() + oprs_ops(opr_vec@.take(k as int)),
        decreases opr_vec@.len() - k,
    {
        let mut next_operation = opr_operations(&opr_vec[k]);
        let ghost before = operations@;
        let ghost added = next_operation@;
        operations.append(&mut next_operation);
        proof {
            assert(opr_vec@.take(k + 1).drop_last() =~= opr_vec@.take(k as int));
            assert(opr_vec@.take(k + 1).last() == opr_vec@[k as int]);
            assert(ops_view(before + added) =~= ops_view(before) + ops_view(added));
            assert(ops_view(operations@) =~= edit_prelude() + oprs_ops(opr_vec@.take(k + 1)));
        }
        k = k + 1;
    }
    let ghost before = operations@;
    operations.push(operation("Q", Vec::new()));
    proof {
        assert(opr_vec@.take(opr_vec@.len() as int) =~= opr_vec@);
        assert(operands_view(Seq::<Operand>::empty()) =~= Seq::<OperandView>::empty());
        assert(ops_view(operations@) =~= edit_block(opr_vec@));
    }
    operations
}

/// What appending an edit's encoded operations does to a document's
/// objects: the edit stream (what object 6 leads to) gets them after its
/// content, as plain content; the lookup's error, or a type error when it is
/// not a stream.
pub open spec fn edited(ov: Map<ObjectId, ObjectView>, added: Seq<u8>) -> Result<Map<ObjectId, ObjectView>, PdfError> {
    match resolve_view(ov, (6u32, 0u16)) {
        Err(e) => Err(e),
        Ok(t) => match ov[t] {
            ObjectView::Stream(d, c, a, p) => Ok(
                ov.insert(t, ObjectView::Stream(plain_content_dict(d, (c + added).len()), c + added, a, p)),
            ),
            _ => Err(PdfError::Type),
        },
    }
}

/// Appends an edit to a patched document: `content` holds the encoded
/// operations that [`apply_opr`] gives for the edit, and goes after the
/// content of the edit stream (object 6).
pub fn edits_on_doc(doc: &mut PdfDocument, content: Vec<u8>) -> (r: Result<(), PdfError>)
    ensures
        match edited(objects_view(old(doc).objects@), content@) {
            Ok(o) => r is Ok && objects_view(final(doc).objects@) == o,
            Err(e) => r == Err::<(), PdfError>(e) && objects_view(final(doc).objects@) == objects_view(old(doc).objects@),
        },
        final(doc).trailer == old(doc).trailer,
        final(doc).version == old(doc).version,
        final(doc).max_id == old(doc).max_id,
{
    let ghost before = doc.objects@;
    proof {
        lemma_resolve_view(before, (6u32, 0u16));
    }
    let t = match doc.resolve((6, 0)) {
        Ok(t) => t,
        Err(e) => {
            return Err(e);
        },
    };
    match doc.objects.remove(&t) {
        Some(PdfObject::Stream(mut s)) => {
            let mut stream = s.content.clone();
            let mut added = content;
            stream.append(&mut added);
            s.set_plain_content(stream);
            let ghost s2 = s;
            doc.objects.insert(t, PdfObject::Stream(s));
            proof {
                assert(before.remove(t).insert(t, PdfObject::Stream(s2)) =~= before.insert(t, PdfObject::Stream(s2)));
                lemma_objects_view_insert(before, t, PdfObject::Stream(s2));
            }
            Ok(())
        },
        Some(other) => {
            doc.objects.insert(t, other);
            proof {
                assert(before.remove(t).insert(t, other) =~= before);
            }
            Err(PdfError::Type)
        },
        None => Err(PdfError::ObjectNotFound),
    }
}

} // verus!
