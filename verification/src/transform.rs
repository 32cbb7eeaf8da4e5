use vstd::prelude::*;
use vstd::string::StrSliceExecFns;
use crate::bridge::{OpModel, op_model, ops_model};
use crate::content::{PdfOperation, same_text};
use crate::object::{ObjectView, PdfObject, lemma_array_view};

verus! {

/// Whether an operand of `cm` is a number.
pub open spec fn is_number(o: ObjectView) -> bool {
    o is Integer || o is Real
}

/// Whether a `cm` operation gives a matrix: its first six operands are numbers.
pub open spec fn gives_matrix(op: OpModel) -> bool {
    op.1.len() >= 6 && forall|i: int| 0 <= i < 6 ==> is_number(#[trigger] op.1[i])
}

/// Whether every `cm` operation has the six operands of a matrix (the
/// matrix is read from the first six; fewer cannot be read).
pub open spec fn cm_complete(ops: Seq<OpModel>) -> bool {
    forall|i: int| 0 <= i < ops.len() && (#[trigger] ops[i]).0 == "cm"@ ==> ops[i].1.len() >= 6
}

/// The stack of transformation levels that a page's content leaves: each
/// level lists, in order, the positions of the `cm` operations whose matrices
/// multiply together into that level's matrix. It starts with one empty
/// level (the identity); `cm` with a matrix adds its position to the top
/// level, `q` pushes a copy of the top level, `Q` pops it; a step on an
/// empty stack does nothing; other operations are ignored.
pub open spec fn cm_levels(ops: Seq<OpModel>) -> Seq<Seq<int>>
    decreases ops.len(),
{
    if ops.len() == 0 {
        seq![Seq::<int>::empty()]
    } else {
        let prev = cm_levels(ops.drop_last());
        let op = ops.last();
        let i = ops.len() - 1;
        if prev.len() == 0 {
            prev
        } else if op.0 == "cm"@ {
            if gives_matrix(op) {
                prev.drop_last().push(prev.last().push(i))
            } else {
                prev
            }
        } else if op.0 == "Q"@ {
            prev.drop_last()
        } else if op.0 == "q"@ {
            prev.push(prev.last())
        } else {
            prev
        }
    }
}

/// The models of a stack of levels.
pub open spec fn levels_view(v: Seq<Vec<usize>>) -> Seq<Seq<int>> {
    v.map_values(|l: Vec<usize>| l@.map_values(|x: usize| x as int))
}

fn is_number_object(o: &PdfObject) -> (r: bool)
    ensures
        r == is_number(crate::object::obj_view(*o)),
{
    match o {
        PdfObject::Integer(_) => true,
        PdfObject::Real(_) => true,
        _ => false,
    }
}

fn copy_level(l: &Vec<usize>) -> (r: Vec<usize>)
    ensures
        r@ == l@,
{
    let mut r: Vec<usize> = Vec::new();
    let mut i: usize = 0;
    while i < l.len()
        invariant
            i <= l@.len(),
            r@ == l@.take(i as int),
        decreases l@.len() - i,
    {
        r.push(l[i]);
        i = i + 1;
        assert(r@ =~= l@.take(i as int));
    }
    assert(l@.take(l@.len() as int) =~= l@);
    r
}

/// The transformation levels of a page's content (see [`cm_levels`]): the
/// matrices of the positions listed are multiplied out, level by level, to
/// give the matrix the content leaves in force.
pub fn transformation_levels(ops: &Vec<PdfOperation<PdfObject>>) -> (r: Vec<Vec<usize>>)
    requires
        cm_complete(ops_model(ops@)),
    ensures
        levels_view(r@) == cm_levels(ops_model(ops@)),
{
    let ghost m = ops_model(ops@);
    let mut levels: Vec<Vec<usize>> = Vec::new();
    levels.push(Vec::new());
    assert(m.take(0) =~= Seq::<OpModel>::empty());
    assert(levels_view(levels@)[0] =~= Seq::<int>::empty());
    assert(levels_view(levels@) =~= cm_levels(m.take(0)));
    let mut i: usize = 0;
    while i < ops.len()
        invariant
            m == ops_model(ops@),
            cm_complete(m),
            i <= ops@.len(),
            levels_view(levels@) == cm_levels(m.take(i as int)),
        decreases ops@.len() - i,
    {
        let ghost prev = levels_view(levels@);
        let ghost op = m[i as int];
        proof {
            assert(m.take(i + 1).drop_last() =~= m.take(i as int));
            assert(m.take(i + 1).last() == op);
            assert(op == op_model(ops@[i as int]));
            lemma_array_view(ops@[i as int].operands@);
        }
        let n = levels.len();
        if n > 0 {
            let operator = ops[i].operator.as_str();
            if same_text(operator, "cm") {
                proof {
                    reveal_strlit("cm");
                }
                let operands = &ops[i].operands;
                let mut all = true;
                let mut k: usize = 0;
                while k < 6
                    invariant
                        k <= 6,
                        operands@.len() >= 6,
                        crate::object::array_view(operands@) == op.1,
                        all == (forall|j: int| 0 <= j < k ==> is_number(#[trigger] op.1[j])),
                    decreases 6 - k,
                {
                    proof {
                        lemma_array_view(operands@);
                    }
                    assert(op.1[k as int] == crate::object::obj_view(operands@[k as int]));
                    all = all && is_number_object(&operands[k]);
                    k = k + 1;
                }
                if all {
                    let ghost before = levels@;
                    let mut top = levels.pop().unwrap();
                    let ghost t0 = top@;
                    top.push(i);
                    levels.push(top);
                    proof {
                        assert(t0 == before.last()@);
                        assert(prev.last() == t0.map_values(|x: usize| x as int));
                        assert(levels_view(levels@).last() =~= prev.last().push(i as int));
                        assert(levels_view(levels@).drop_last() =~= prev.drop_last());
                        assert(levels_view(levels@) =~= prev.drop_last().push(prev.last().push(i as int)));
                    }
                }
            } else if same_text(operator, "Q") {
                proof {
                    reveal_strlit("Q");
                    reveal_strlit("cm");
                }
                levels.pop();
                proof {
                    assert(levels_view(levels@) =~= prev.drop_last());
                }
            } else if same_text(operator, "q") {
                proof {
                    reveal_strlit("q");
                    reveal_strlit("Q");
                    reveal_strlit("cm");
                }
                let top = copy_level(&levels[n - 1]);
                levels.push(top);
                proof {
                    assert(levels_view(levels@) =~= prev.push(prev.last()));
                }
            } else {
                proof {
                    reveal_strlit("q");
                    reveal_strlit("Q");
                    reveal_strlit("cm");
                }
            }
        }
        i = i + 1;
    }
    assert(m.take(ops@.len() as int) =~= m);
    levels
}

/// [`transformation_levels`] where it can answer: `None` when some `cm`
/// operation has fewer than six operands.
pub fn transformation_levels_checked(ops: &Vec<PdfOperation<PdfObject>>) -> (r: Option<Vec<Vec<usize>>>)
    ensures
        r is Some <==> cm_complete(ops_model(ops@)),
        r matches Some(l) ==> levels_view(l@) == cm_levels(ops_model(ops@)),
{
    let ghost m = ops_model(ops@);
    let mut i: usize = 0;
    while i < ops.len()
        invariant
            m == ops_model(ops@),
            i <= ops@.len(),
            forall|j: int| 0 <= j < i && (#[trigger] m[j]).0 == "cm"@ ==> m[j].1.len() >= 6,
        decreases ops@.len() - i,
    {
        proof {
            reveal_strlit("cm");
            assert(m[i as int] == op_model(ops@[i as int]));
            lemma_array_view(ops@[i as int].operands@);
        }
        if same_text(ops[i].operator.as_str(), "cm") && ops[i].operands.len() < 6 {
            return None;
        }
        i = i + 1;
    }
    Some(transformation_levels(ops))
}

/// The matrices of a level multiply in the order of the content. Every
/// level lists the positions of its `cm` operations in increasing order (the
/// order in which they occur in the content), and each position is that of a
/// `cm` operation of the content that gives a matrix.
pub proof fn lemma_levels_in_content_order(ops: Seq<OpModel>)
    ensures
        forall|l: int, i: int, j: int|
            0 <= l < cm_levels(ops).len() && 0 <= i < j < cm_levels(ops)[l].len() ==> #[trigger] cm_levels(ops)[l][i]
                < #[trigger] cm_levels(ops)[l][j],
        forall|l: int, k: int|
            0 <= l < cm_levels(ops).len() && 0 <= k < cm_levels(ops)[l].len() ==> {
                let p = #[trigger] cm_levels(ops)[l][k];
                &&& 0 <= p < ops.len()
                &&& ops[p].0 == "cm"@
                &&& gives_matrix(ops[p])
            },
    decreases ops.len(),
{
    if ops.len() > 0 {
        let rest = ops.drop_last();
        lemma_levels_in_content_order(rest);
        let prev = cm_levels(rest);
        let cur = cm_levels(ops);
        let n = ops.len() - 1;
        assert forall|l: int, k: int| 0 <= l < prev.len() && 0 <= k < prev[l].len() implies {
            let p = #[trigger] prev[l][k];
            &&& 0 <= p < ops.len()
            &&& ops[p].0 == "cm"@
            &&& gives_matrix(ops[p])
            &&& p < n
        } by {
            let p = prev[l][k];
            assert(rest[p] == ops[p]);
        }
        if prev.len() > 0 && ops.last().0 == "cm"@ && gives_matrix(ops.last()) {
            let top = prev.last().push(n);
            assert(cur == prev.drop_last().push(top));
            assert forall|l: int, i: int, j: int| 0 <= l < cur.len() && 0 <= i < j < cur[l].len() implies #[trigger] cur[l][i]
                < #[trigger] cur[l][j] by {
                if l == cur.len() - 1 {
                    if j == top.len() - 1 {
                        assert(cur[l][i] == prev[prev.len() - 1][i]);
                    } else {
                        assert(cur[l][i] == prev[prev.len() - 1][i]);
                        assert(cur[l][j] == prev[prev.len() - 1][j]);
                    }
                } else {
                    assert(cur[l] == prev[l]);
                }
            }
            assert forall|l: int, k: int| 0 <= l < cur.len() && 0 <= k < cur[l].len() implies {
                let p = #[trigger] cur[l][k];
                &&& 0 <= p < ops.len()
                &&& ops[p].0 == "cm"@
                &&& gives_matrix(ops[p])
            } by {
                if l == cur.len() - 1 {
                    if k < top.len() - 1 {
                        assert(cur[l][k] == prev[prev.len() - 1][k]);
                    }
                } else {
                    assert(cur[l] == prev[l]);
                }
            }
        } else if prev.len() > 0 && ops.last().0 == "q"@ && ops.last().0 != "cm"@ && ops.last().0 != "Q"@ {
            assert(cur == prev.push(prev.last()));
            assert forall|l: int, i: int, j: int| 0 <= l < cur.len() && 0 <= i < j < cur[l].len() implies #[trigger] cur[l][i]
                < #[trigger] cur[l][j] by {
                if l == cur.len() - 1 {
                    assert(cur[l] == prev[prev.len() - 1]);
                } else {
                    assert(cur[l] == prev[l]);
                }
            }
            assert forall|l: int, k: int| 0 <= l < cur.len() && 0 <= k < cur[l].len() implies {
                let p = #[trigger] cur[l][k];
                &&& 0 <= p < ops.len()
                &&& ops[p].0 == "cm"@
                &&& gives_matrix(ops[p])
            } by {
                if l == cur.len() - 1 {
                    assert(cur[l] == prev[prev.len() - 1]);
                } else {
                    assert(cur[l] == prev[l]);
                }
            }
        } else {
            assert(forall|l: int| 0 <= l < cur.len() ==> #[trigger] cur[l] == prev[l]);
        }
    }
}

/// Without saving or restoring (`q`, `Q`), all the content's matrices
/// multiply into the one level: it lists exactly the positions of the `cm`
/// operations that give a matrix.
pub proof fn lemma_single_level_has_every_matrix(ops: Seq<OpModel>)
    requires
        forall|k: int| 0 <= k < ops.len() ==> (#[trigger] ops[k]).0 != "q"@ && ops[k].0 != "Q"@,
    ensures
        cm_levels(ops).len() == 1,
        forall|p: int|
            0 <= p < ops.len() ==> (cm_levels(ops)[0].contains(p) <==> ((#[trigger] ops[p]).0 == "cm"@ && gives_matrix(ops[p]))),
    decreases ops.len(),
{
    if ops.len() > 0 {
        let rest = ops.drop_last();
        assert forall|k: int| 0 <= k < rest.len() implies (#[trigger] rest[k]).0 != "q"@ && rest[k].0 != "Q"@ by {
            assert(rest[k] == ops[k]);
        }
        lemma_single_level_has_every_matrix(rest);
        lemma_levels_in_content_order(rest);
        let prev = cm_levels(rest);
        let n = ops.len() - 1;
        assert(ops.last() == ops[n]);
        assert forall|p: int| 0 <= p < ops.len() implies (cm_levels(ops)[0].contains(p) <==> ((#[trigger] ops[p]).0 == "cm"@
            && gives_matrix(ops[p]))) by {
            if p < n {
                assert(rest[p] == ops[p]);
                if ops.last().0 == "cm"@ && gives_matrix(ops.last()) {
                    assert(cm_levels(ops)[0] == prev[0].push(n));
                    if prev[0].contains(p) {
                        let k = choose|k: int| 0 <= k < prev[0].len() && prev[0][k] == p;
                        assert(cm_levels(ops)[0][k] == p);
                    }
                    if cm_levels(ops)[0].contains(p) {
                        let k = choose|k: int| 0 <= k < cm_levels(ops)[0].len() && cm_levels(ops)[0][k] == p;
                        assert(k < prev[0].len());
                        assert(prev[0][k] == p);
                    }
                }
            } else {
                if ops.last().0 == "cm"@ && gives_matrix(ops.last()) {
                    assert(cm_levels(ops)[0] == prev[0].push(n));
                    assert(cm_levels(ops)[0][prev[0].len() as int] == n);
                } else {
                    if prev[0].contains(n) {
                        let k = choose|k: int| 0 <= k < prev[0].len() && prev[0][k] == n;
                        assert(prev[0][k] < rest.len());
                    }
                }
            }
        }
    }
}

} // verus!
