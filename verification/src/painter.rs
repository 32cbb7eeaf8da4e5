use vstd::prelude::*;
use crate::command::Color;
use crate::content::{Operand, OperandView, PdfOperation, OperationView, operation, op_spec, ops_view, operands_view};

verus! {

/// The fill colour operation with the three given components.
pub open spec fn rg_ops(r: OperandView, g: OperandView, b: OperandView) -> Seq<OperationView> {
    seq![op_spec("rg"@, seq![r, g, b])]
}

pub open spec fn integer(i: i64) -> OperandView {
    OperandView::Integer(i)
}

/// The operations that set the fill colour to `color`. Black is drawn as
/// (0, 0, 1), and grey as one half of each component.
pub open spec fn color_ops(color: Color) -> Seq<OperationView> {
    match color {
        Color::White => rg_ops(integer(1), integer(1), integer(1)),
        Color::Red => rg_ops(integer(1), integer(0), integer(0)),
        Color::Green => rg_ops(integer(0), integer(1), integer(0)),
        Color::Blue => rg_ops(integer(0), integer(0), integer(1)),
        Color::Black => rg_ops(integer(0), integer(0), integer(1)),
        Color::Grey => rg_ops(OperandView::Real(1, 2), OperandView::Real(1, 2), OperandView::Real(1, 2)),
    }
}

/// The operations that set the fill colour to red, green and blue out of 255.
pub open spec fn rgb_ops(red: u8, green: u8, blue: u8) -> Seq<OperationView> {
    rg_ops(
        OperandView::SingleReal(red as u32, 255),
        OperandView::SingleReal(green as u32, 255),
        OperandView::SingleReal(blue as u32, 255),
    )
}

fn rg(r: Operand, g: Operand, b: Operand) -> (ops: Vec<PdfOperation<Operand>>)
    ensures
        ops_view(ops@) == rg_ops(r@, g@, b@),
{
    let ghost (rv, gv, bv) = (r@, g@, b@);
    let a = vec![r, g, b];
    assert(operands_view(a@) =~= seq![rv, gv, bv]);
    let ops = vec![operation("rg", a)];
    assert(ops_view(ops@) =~= rg_ops(rv, gv, bv));
    ops
}

/// Sets the fill colour to a named colour.
pub fn change_color(color: Color) -> (r: Vec<PdfOperation<Operand>>)
    ensures
        ops_view(r@) == color_ops(color),
{
    match color {
        Color::White => rg(Operand::Integer(1), Operand::Integer(1), Operand::Integer(1)),
        Color::Red => rg(Operand::Integer(1), Operand::Integer(0), Operand::Integer(0)),
        Color::Green => rg(Operand::Integer(0), Operand::Integer(1), Operand::Integer(0)),
        Color::Blue => rg(Operand::Integer(0), Operand::Integer(0), Operand::Integer(1)),
        Color::Black => rg(Operand::Integer(0), Operand::Integer(0), Operand::Integer(1)),
        Color::Grey => rg(Operand::Real(1, 2), Operand::Real(1, 2), Operand::Real(1, 2)),
    }
}

/// Sets the fill colour to red, green and blue values out of 255.
pub fn change_rgb(red: u8, green: u8, blue: u8) -> (r: Vec<PdfOperation<Operand>>)
    ensures
        ops_view(r@) == rgb_ops(red, green, blue),
{
    rg(
        Operand::SingleReal(red as u32, 255),
        Operand::SingleReal(green as u32, 255),
        Operand::SingleReal(blue as u32, 255),
    )
}

} // verus!
