use vstd::prelude::*;
use crate::content::{Operand, OperandView, operands_view};

verus! {

/// What `info` reports on.
#[derive(Debug)]
pub enum Information {
    /// Size of page `page` of the document at `file`.
    PageSize { page: u32, file: String },
}

/// The kinds of grid overlay.
#[derive(Debug)]
pub enum GridType {
    /// Grid the entire page with an interval of 20 points.
    Full { file: String, save_as: String },
    /// Grid with an interval of 4 around an intersection of the full grid.
    Sub { x: u32, y: u32, file: String, save_as: String },
    /// Mark the point (x, y) of the page's coordinate system.
    Mark { x: u32, y: u32, rotate: bool, file: String, save_as: String },
}

/// The lists that `list` prints.
#[derive(Debug, Clone, Copy)]
pub enum ListOptions {
    Operations,
    GridType,
}

/// A named colour of the `Cc` operation.
#[derive(Debug, Clone, Copy)]
pub enum Color {
    Red,
    Green,
    Blue,
    Black,
    White,
    Grey,
}

/// One edit operation on a page.
#[derive(Debug)]
pub enum Opr {
    /// `Wr`: write a text at (x, y) in the given font size.
    WriteLine(u32, u32, u32, String),
    /// `Cc`: set the fill colour to a named colour.
    ChangeColor(Color),
    /// `Crgb`: set the fill colour to red, green and blue values out of 255.
    ChangeRgb(u8, u8, u8),
    /// `Lw`: set the line width.
    SetWidth(u32),
    /// `Dl`: draw a line from (x1, y1) to (x2, y2).
    DrawLine(u32, u32, u32, u32),
    /// A raw content-stream operation.
    Raw(String, Vec<Operand>),
}

/// Mathematical model of an [`Opr`].
pub enum OprView {
    WriteLine(u32, u32, u32, Seq<char>),
    ChangeColor(Color),
    ChangeRgb(u8, u8, u8),
    SetWidth(u32),
    DrawLine(u32, u32, u32, u32),
    Raw(Seq<char>, Seq<OperandView>),
}

impl View for Opr {
    type V = OprView;

    open spec fn view(&self) -> OprView {
        match self {
            Opr::WriteLine(x, y, size, text) => OprView::WriteLine(*x, *y, *size, text@),
            Opr::ChangeColor(c) => OprView::ChangeColor(*c),
            Opr::ChangeRgb(r, g, b) => OprView::ChangeRgb(*r, *g, *b),
            Opr::SetWidth(w) => OprView::SetWidth(*w),
            Opr::DrawLine(x1, y1, x2, y2) => OprView::DrawLine(*x1, *y1, *x2, *y2),
            Opr::Raw(operator, operands) => OprView::Raw(operator@, operands_view(operands@)),
        }
    }
}

pub open spec fn oprs_view(v: Seq<Opr>) -> Seq<OprView> {
    v.map_values(|o: Opr| o@)
}

/// The error of an operation text that does not describe an operation.
#[derive(Debug)]
pub struct ParseOperationError;

impl ParseOperationError {
    /// The message shown for this error.
    pub fn message(&self) -> (r: String)
        ensures
            r@ == "Invalid operation, run `leafedit list operations` to get list of supported operations"@,
    {
        "Invalid operation, run `leafedit list operations` to get list of supported operations".to_string()
    }
}

} // verus!
