use vstd::prelude::*;
use vstd::string::StrSliceExecFns;

verus! {

/// Identifier of an indirect PDF object: object number and generation.
pub type ObjectId = (u32, u16);

/// An operand of a content-stream operation.
///
/// Real numbers are kept exact, as a fraction: `Real(n, d)` is `n / d` evaluated in
/// double precision, `SingleReal(n, d)` is `n / d` evaluated in single precision.
#[derive(Debug)]
pub enum Operand {
    Integer(i64),
    Real(i64, u32),
    SingleReal(u32, u32),
    Name(Vec<u8>),
    Literal(Vec<u8>),
    Hexadecimal(Vec<u8>),
}

/// Mathematical model of an [`Operand`].
pub enum OperandView {
    Integer(i64),
    Real(i64, u32),
    SingleReal(u32, u32),
    Name(Seq<u8>),
    Literal(Seq<u8>),
    Hexadecimal(Seq<u8>),
}

impl View for Operand {
    type V = OperandView;

    open spec fn view(&self) -> OperandView {
        match self {
            Operand::Integer(i) => OperandView::Integer(*i),
            Operand::Real(n, d) => OperandView::Real(*n, *d),
            Operand::SingleReal(n, d) => OperandView::SingleReal(*n, *d),
            Operand::Name(v) => OperandView::Name(v@),
            Operand::Literal(v) => OperandView::Literal(v@),
            Operand::Hexadecimal(v) => OperandView::Hexadecimal(v@),
        }
    }
}

impl Clone for Operand {
    fn clone(&self) -> (r: Operand)
        ensures
            r@ == self@,
    {
        match self {
            Operand::Integer(i) => Operand::Integer(*i),
            Operand::Real(n, d) => Operand::Real(*n, *d),
            Operand::SingleReal(n, d) => Operand::SingleReal(*n, *d),
            Operand::Name(v) => Operand::Name(v.clone()),
            Operand::Literal(v) => Operand::Literal(v.clone()),
            Operand::Hexadecimal(v) => Operand::Hexadecimal(v.clone()),
        }
    }
}

/// One content-stream operation: an operator and its operands.
#[derive(Debug)]
pub struct PdfOperation<A> {
    pub operator: String,
    pub operands: Vec<A>,
}

/// Mathematical model of an [`PdfOperation`] over [`Operand`]s.
pub struct OperationView {
    pub operator: Seq<char>,
    pub operands: Seq<OperandView>,
}

pub open spec fn operands_view(v: Seq<Operand>) -> Seq<OperandView> {
    v.map_values(|o: Operand| o@)
}

impl View for PdfOperation<Operand> {
    type V = OperationView;

    open spec fn view(&self) -> OperationView {
        OperationView { operator: self.operator@, operands: operands_view(self.operands@) }
    }
}

pub open spec fn ops_view(v: Seq<PdfOperation<Operand>>) -> Seq<OperationView> {
    v.map_values(|o: PdfOperation<Operand>| o@)
}

/// The model of the operation `operator` applied to `operands`.
pub open spec fn op_spec(operator: Seq<char>, operands: Seq<OperandView>) -> OperationView {
    OperationView { operator, operands }
}

/// Whether two texts are the same.
pub fn same_text(a: &str, b: &str) -> (r: bool)
    ensures
        r == (a@ == b@),
{
    let n = a.unicode_len();
    if n != b.unicode_len() {
        return false;
    }
    let mut i: usize = 0;
    while i < n
        invariant
            n == a@.len(),
            n == b@.len(),
            i <= n,
            forall|j: int| 0 <= j < i ==> a@[j] == b@[j],
        decreases n - i,
    {
        if a.get_char(i) != b.get_char(i) {
            return false;
        }
        i = i + 1;
    }
    assert(a@ =~= b@);
    true
}

/// Builds the operation `operator` with the given operands.
pub fn operation(operator: &str, operands: Vec<Operand>) -> (r: PdfOperation<Operand>)
    ensures
        r@ == op_spec(operator@, operands_view(operands@)),
{
    PdfOperation { operator: operator.to_string(), operands }
}

} // verus!
