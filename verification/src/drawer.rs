use vstd::prelude::*;
use crate::content::{Operand, OperandView, PdfOperation, OperationView, operation, op_spec, ops_view, operands_view};

verus! {

/// The operations that stroke a line from (x1, y1) to (x2, y2).
pub open spec fn line_ops(x1: u32, y1: u32, x2: u32, y2: u32) -> Seq<OperationView> {
    seq![
        op_spec("m"@, seq![OperandView::Integer(x1 as i64), OperandView::Integer(y1 as i64)]),
        op_spec("l"@, seq![OperandView::Integer(x2 as i64), OperandView::Integer(y2 as i64)]),
        op_spec("s"@, seq![]),
    ]
}

/// The operations that set the line width.
pub open spec fn width_ops(width: u32) -> Seq<OperationView> {
    seq![op_spec("w"@, seq![OperandView::Integer(width as i64)])]
}

/// Strokes a line from (x1, y1) to (x2, y2).
pub fn draw_line(x1: u32, y1: u32, x2: u32, y2: u32) -> (r: Vec<PdfOperation<Operand>>)
    ensures
        ops_view(r@) == line_ops(x1, y1, x2, y2),
{
    let a = vec![Operand::Integer(x1 as i64), Operand::Integer(y1 as i64)];
    let b = vec![Operand::Integer(x2 as i64), Operand::Integer(y2 as i64)];
    assert(operands_view(a@) =~= seq![OperandView::Integer(x1 as i64), OperandView::Integer(y1 as i64)]);
    assert(operands_view(b@) =~= seq![OperandView::Integer(x2 as i64), OperandView::Integer(y2 as i64)]);
    assert(operands_view(Seq::<Operand>::empty()) =~= Seq::<OperandView>::empty());
    let r = vec![operation("m", a), operation("l", b), operation("s", Vec::new())];
    assert(ops_view(r@) =~= line_ops(x1, y1, x2, y2));
    r
}

/// Sets the line width.
pub fn set_width(width: u32) -> (r: Vec<PdfOperation<Operand>>)
    ensures
        ops_view(r@) == width_ops(width),
{
    let a = vec![Operand::Integer(width as i64)];
    assert(operands_view(a@) =~= seq![OperandView::Integer(width as i64)]);
    let r = vec![operation("w", a)];
    assert(ops_view(r@) =~= width_ops(width));
    r
}

} // verus!
