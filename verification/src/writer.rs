use vstd::prelude::*;
use vstd::string::StrSliceExecFns;
use vstd::utf8::encode_scalar;
use crate::content::{Operand, OperandView, PdfOperation, OperationView, operation, op_spec, ops_view, operands_view};

verus! {

/// A character of the text to write, as the font that shows it sees it:
/// `F1` holds an ASCII character, `F2` the two-byte code of a symbol.
#[derive(Debug)]
pub enum FontChar {
    F1(char),
    F2([u8; 2]),
}

/// The font in use while a text is split into runs.
#[derive(Debug)]
enum Font {
    Null,
    F1,
    F2,
}

pub open spec fn is_ascii_char(c: char) -> bool {
    (c as u32) < 128
}

/// The check mark, the one symbol the second font has a glyph for.
pub open spec fn check_mark() -> char {
    '\u{2713}'
}

/// Code of a non-ASCII character in the second font.
pub open spec fn lookup_spec(c: char) -> Seq<u8> {
    if c == check_mark() {
        seq![0u8, 1u8]
    } else {
        seq![0u8, 0u8]
    }
}

/// Code of `ch` in the second font: the check mark is glyph 1, every other
/// character glyph 0.
pub fn lookup(ch: char) -> (r: [u8; 2])
    ensures
        r@ == lookup_spec(ch),
{
    if ch == '\u{2713}' {
        [0, 1]
    } else {
        [0, 0]
    }
}

/// The font character that shows `c`.
pub open spec fn font_char_spec(c: char) -> FontChar {
    if is_ascii_char(c) {
        FontChar::F1(c)
    } else {
        FontChar::F2(
            if c == check_mark() {
                [0u8, 1u8]
            } else {
                [0u8, 0u8]
            },
        )
    }
}

/// `true` when the character is shown by the second font.
pub open spec fn is_second_font(c: FontChar) -> bool {
    c is F2
}

/// The bytes that stand for one font character in the string operand: the
/// UTF-8 encoding of a first-font character, the code of a second-font one.
pub open spec fn char_bytes(c: FontChar) -> Seq<u8> {
    match c {
        FontChar::F1(ch) => encode_scalar(ch as u32),
        FontChar::F2(b) => b@,
    }
}

/// Appends the UTF-8 encoding of a character.
fn push_utf8(ch: char, out: &mut Vec<u8>)
    ensures
        final(out)@ == old(out)@ + encode_scalar(ch as u32),
{
    let v = ch as u32;
    let ghost before = out@;
    if v <= 0x7F {
        out.push((v & 0x7F) as u8);
    } else if v <= 0x7FF {
        out.push(0xC0 | ((v >> 6) & 0x1F) as u8);
        out.push(0x80 | (v & 0x3F) as u8);
    } else if v <= 0xFFFF {
        out.push(0xE0 | ((v >> 12) & 0x0F) as u8);
        out.push(0x80 | ((v >> 6) & 0x3F) as u8);
        out.push(0x80 | (v & 0x3F) as u8);
    } else {
        out.push(0xF0 | ((v >> 18) & 0x7) as u8);
        out.push(0x80 | ((v >> 12) & 0x3F) as u8);
        out.push(0x80 | ((v >> 6) & 0x3F) as u8);
        out.push(0x80 | (v & 0x3F) as u8);
    }
    assert(out@ =~= before + encode_scalar(v));
}

/// Splits a text into runs of one font: a run is the font (`true` for the
/// second) and the bytes of its characters. A character joins the last run
/// when it uses the same font, and starts a new one otherwise.
pub open spec fn runs(s: Seq<FontChar>) -> Seq<(bool, Seq<u8>)>
    decreases s.len(),
{
    if s.len() == 0 {
        seq![]
    } else {
        let prev = runs(s.drop_last());
        let c = s.last();
        if prev.len() > 0 && prev.last().0 == is_second_font(c) {
            prev.drop_last().push((is_second_font(c), prev.last().1 + char_bytes(c)))
        } else {
            prev.push((is_second_font(c), char_bytes(c)))
        }
    }
}

/// Name of the first font, `F1`.
pub open spec fn f1_name() -> Seq<u8> {
    seq![70u8, 49u8]
}

/// Name of the second font, `F2`.
pub open spec fn f2_name() -> Seq<u8> {
    seq![70u8, 50u8]
}

/// The font operand and string operand that show one run.
pub open spec fn run_operands(r: (bool, Seq<u8>)) -> (OperandView, OperandView) {
    if r.0 {
        (OperandView::Name(f2_name()), OperandView::Hexadecimal(r.1))
    } else {
        (OperandView::Name(f1_name()), OperandView::Literal(r.1))
    }
}

pub open spec fn pairs_view(v: Seq<(Operand, Operand)>) -> Seq<(OperandView, OperandView)> {
    v.map_values(|p: (Operand, Operand)| (p.0@, p.1@))
}

pub open spec fn runs_operands(rs: Seq<(bool, Seq<u8>)>) -> Seq<(OperandView, OperandView)> {
    rs.map_values(|r: (bool, Seq<u8>)| run_operands(r))
}

/// Turns a text into font characters, one per character of the text.
pub fn parse_text(text: String) -> (font_chars: Vec<FontChar>)
    ensures
        font_chars@ == text@.map_values(|c: char| font_char_spec(c)),
{
    let mut font_chars: Vec<FontChar> = Vec::new();
    let s = text.as_str();
    let n = s.unicode_len();
    let mut i: usize = 0;
    while i < n
        invariant
            n == text@.len(),
            s@ == text@,
            i <= n,
            font_chars@.len() == i,
            forall|j: int| 0 <= j < i ==> #[trigger] font_chars@[j] == font_char_spec(text@[j]),
        decreases n - i,
    {
        let ch = s.get_char(i);
        if (ch as u32) < 128 {
            font_chars.push(FontChar::F1(ch));
        } else {
            let code = lookup(ch);
            assert(code == (if ch == check_mark() { [0u8, 1u8] } else { [0u8, 0u8] })) by {
                assert(code@ =~= lookup_spec(ch));
            }
            font_chars.push(FontChar::F2(code));
        }
        i = i + 1;
    }
    assert(font_chars@ =~= text@.map_values(|c: char| font_char_spec(c)));
    font_chars
}

fn name_f1() -> (r: Vec<u8>)
    ensures
        r@ == f1_name(),
{
    let r = vec![70u8, 49u8];
    assert(r@ =~= f1_name());
    r
}

fn name_f2() -> (r: Vec<u8>)
    ensures
        r@ == f2_name(),
{
    let r = vec![70u8, 50u8];
    assert(r@ =~= f2_name());
    r
}

proof fn lemma_runs_step(s: Seq<FontChar>, i: int)
    requires
        0 <= i < s.len(),
    ensures
        ({
            let prev = runs(s.take(i));
            let c = s[i];
            runs(s.take(i + 1)) == if prev.len() > 0 && prev.last().0 == is_second_font(c) {
                prev.drop_last().push((is_second_font(c), prev.last().1 + char_bytes(c)))
            } else {
                prev.push((is_second_font(c), char_bytes(c)))
            }
        }),
{
    assert(s.take(i + 1).drop_last() =~= s.take(i));
    assert(s.take(i + 1).last() == s[i]);
}

proof fn lemma_runs_operands_push(rs: Seq<(bool, Seq<u8>)>, r: (bool, Seq<u8>))
    ensures
        runs_operands(rs.push(r)) == runs_operands(rs).push(run_operands(r)),
{
    assert(runs_operands(rs.push(r)) =~= runs_operands(rs).push(run_operands(r)));
}

proof fn lemma_pairs_view_push(v: Seq<(Operand, Operand)>, p: (Operand, Operand))
    ensures
        pairs_view(v.push(p)) == pairs_view(v).push((p.0@, p.1@)),
{
    assert(pairs_view(v.push(p)) =~= pairs_view(v).push((p.0@, p.1@)));
}

/// Groups the font characters into runs of one font and gives, for each run,
/// its font name and its string: a literal string for the first font, a
/// hexadecimal one for the second.
pub fn flaten(font_ch_vec: Vec<FontChar>) -> (pdf_string: Vec<(Operand, Operand)>)
    ensures
        pairs_view(pdf_string@) == runs_operands(runs(font_ch_vec@)),
{
    let ghost s = font_ch_vec@;
    let mut pdf_string: Vec<(Operand, Operand)> = Vec::new();
    let mut current_font = Font::Null;
    let mut ascii_str: Vec<u8> = Vec::new();
    let mut unicode: Vec<u8> = Vec::new();
    let mut i: usize = 0;
    assert(s.take(0) =~= Seq::<FontChar>::empty());
    while i < font_ch_vec.len()
        invariant
            s == font_ch_vec@,
            i <= s.len(),
            current_font is Null <==> runs(s.take(i as int)).len() == 0,
            current_font is Null ==> pdf_string@.len() == 0 && ascii_str@.len() == 0 && unicode@.len() == 0,
            current_font is F1 ==> {
                &&& runs(s.take(i as int)).len() > 0
                &&& runs(s.take(i as int)).last() == (false, ascii_str@)
                &&& unicode@.len() == 0
                &&& pairs_view(pdf_string@) == runs_operands(runs(s.take(i as int)).drop_last())
            },
            current_font is F2 ==> {
                &&& runs(s.take(i as int)).len() > 0
                &&& runs(s.take(i as int)).last() == (true, unicode@)
                &&& ascii_str@.len() == 0
                &&& pairs_view(pdf_string@) == runs_operands(runs(s.take(i as int)).drop_last())
            },
        decreases s.len() - i,
    {
        let ghost prev = runs(s.take(i as int));
        proof {
            lemma_runs_step(s, i as int);
            if prev.len() > 0 {
                assert(prev =~= prev.drop_last().push(prev.last()));
                lemma_runs_operands_push(prev.drop_last(), prev.last());
            }
        }
        match &font_ch_vec[i] {
            FontChar::F1(ch) => {
                match current_font {
                    Font::F1 => {
                        push_utf8(*ch, &mut ascii_str);
                    },
                    Font::F2 => {
                        let done = unicode;
                        let ghost old_pdf = pdf_string@;
                        pdf_string.push((Operand::Name(name_f2()), Operand::Hexadecimal(done)));
                        proof {
                            lemma_pairs_view_push(old_pdf, pdf_string@.last());
                        }
                        unicode = Vec::new();
                        ascii_str = Vec::new();
                        push_utf8(*ch, &mut ascii_str);
                        current_font = Font::F1;
                    },
                    Font::Null => {
                        current_font = Font::F1;
                        push_utf8(*ch, &mut ascii_str);
                    },
                }
                assert(ascii_str@ =~= runs(s.take(i + 1)).last().1);
            },
            FontChar::F2(code) => {
                match current_font {
                    Font::F2 => {
                        unicode.push(code[0]);
                        unicode.push(code[1]);
                    },
                    Font::F1 => {
                        let done = ascii_str;
                        let ghost old_pdf = pdf_string@;
                        pdf_string.push((Operand::Name(name_f1()), Operand::Literal(done)));
                        proof {
                            lemma_pairs_view_push(old_pdf, pdf_string@.last());
                        }
                        ascii_str = Vec::new();
                        unicode.push(code[0]);
                        unicode.push(code[1]);
                        current_font = Font::F2;
                    },
                    Font::Null => {
                        current_font = Font::F2;
                        unicode.push(code[0]);
                        unicode.push(code[1]);
                    },
                }
                assert(unicode@ =~= runs(s.take(i + 1)).last().1);
            },
        }
        i = i + 1;
    }
    assert(s.take(s.len() as int) =~= s);
    let ghost rs = runs(s);
    match current_font {
        Font::F1 => {
            let ghost old_pdf = pdf_string@;
            pdf_string.push((Operand::Name(name_f1()), Operand::Literal(ascii_str)));
            proof {
                lemma_pairs_view_push(old_pdf, pdf_string@.last());
                assert(rs =~= rs.drop_last().push(rs.last()));
                lemma_runs_operands_push(rs.drop_last(), rs.last());
            }
        },
        Font::F2 => {
            let ghost old_pdf = pdf_string@;
            pdf_string.push((Operand::Name(name_f2()), Operand::Hexadecimal(unicode)));
            proof {
                lemma_pairs_view_push(old_pdf, pdf_string@.last());
                assert(rs =~= rs.drop_last().push(rs.last()));
                lemma_runs_operands_push(rs.drop_last(), rs.last());
            }
        },
        Font::Null => {
            assert(pairs_view(pdf_string@) =~= runs_operands(rs));
        },
    }
    pdf_string
}

/// The operations that select the font of each run at `size` and show its string.
pub open spec fn runs_ops(rs: Seq<(bool, Seq<u8>)>, size: u32) -> Seq<OperationView>
    decreases rs.len(),
{
    if rs.len() == 0 {
        seq![]
    } else {
        let (font, text) = run_operands(rs.last());
        runs_ops(rs.drop_last(), size) + seq![
            op_spec("Tf"@, seq![font, OperandView::Integer(size as i64)]),
            op_spec("Tj"@, seq![text]),
        ]
    }
}

/// The operations that write `text` at (`px`, `py`) in font size `size`.
pub open spec fn text_ops(px: u32, py: u32, size: u32, text: Seq<char>) -> Seq<OperationView> {
    seq![
        op_spec("BT"@, seq![]),
        op_spec("Td"@, seq![OperandView::Integer(px as i64), OperandView::Integer(py as i64)]),
    ] + runs_ops(runs(text.map_values(|c: char| font_char_spec(c))), size) + seq![op_spec("ET"@, seq![])]
}

/// Writes `text` at (`px`, `py`) in font size `size`: a text object that
/// shows each run of ASCII characters in the first font and each run of other
/// characters in the second.
pub fn write_text(px: u32, py: u32, size: u32, text: String) -> (operations: Vec<PdfOperation<Operand>>)
    ensures
        ops_view(operations@) == text_ops(px, py, size, text@),
{
    let ghost t = text@;
    let parsed = parse_text(text);
    let text_objects = flaten(parsed);
    let ghost rs = runs(t.map_values(|c: char| font_char_spec(c)));
    let mut operations: Vec<PdfOperation<Operand>> = Vec::new();
    operations.push(operation("BT", Vec::new()));
    operations.push(operation("Td", vec![Operand::Integer(px as i64), Operand::Integer(py as i64)]));
    proof {
        let head = seq![
            op_spec("BT"@, seq![]),
            op_spec("Td"@, seq![OperandView::Integer(px as i64), OperandView::Integer(py as i64)]),
        ];
        assert(operands_view(seq![Operand::Integer(px as i64), Operand::Integer(py as i64)]) =~= seq![OperandView::Integer(px as i64), OperandView::Integer(py as i64)]);
        assert(operands_view(Seq::<Operand>::empty()) =~= Seq::<OperandView>::empty());
        assert(ops_view(operations@) =~= head);
        assert(rs.take(0) =~= Seq::<(bool, Seq<u8>)>::empty());
        assert(head + runs_ops(rs.take(0), size) =~= head);
    }
    let mut k: usize = 0;
    let n = text_objects.len();
    assert(rs.len() == n) by {
        assert(pairs_view(text_objects@).len() == runs_operands(rs).len());
    }
    while k < n
        invariant
            n == text_objects@.len(),
            rs.len() == n,
            k <= n,
            pairs_view(text_objects@) == runs_operands(rs),
            ops_view(operations@) == seq![
                op_spec("BT"@, seq![]),
                op_spec("Td"@, seq![OperandView::Integer(px as i64), OperandView::Integer(py as i64)]),
            ] + runs_ops(rs.take(k as int), size),
        decreases n - k,
    {
        let font = text_objects[k].0.clone();
        let string = text_objects[k].1.clone();
        assert(pairs_view(text_objects@)[k as int] == run_operands(rs[k as int]));
        let ghost before = ops_view(operations@);
        let ghost old_ops = operations@;
        assert(pairs_view(text_objects@)[k as int] == (text_objects@[k as int].0@, text_objects@[k as int].1@));
        let tf = operation("Tf", vec![font, Operand::Integer(size as i64)]);
        let mut shown: Vec<Operand> = Vec::new();
        shown.push(string);
        let tj = operation("Tj", shown);
        operations.push(tf);
        operations.push(tj);
        proof {
            assert(operations@ =~= old_ops.push(tf).push(tj));
            assert(ops_view(operations@) =~= before.push(tf@).push(tj@));
            assert(rs.take(k + 1).drop_last() =~= rs.take(k as int));
            assert(rs.take(k + 1).last() == rs[k as int]);
            let (f, t) = run_operands(rs[k as int]);
            assert(runs_operands(rs)[k as int] == run_operands(rs[k as int]));
            assert(font@ == f);
            assert(string@ == t);
            assert(operands_view(seq![font, Operand::Integer(size as i64)]) =~= seq![f, OperandView::Integer(size as i64)]);
            assert(operands_view(shown@) =~= seq![t]);
            assert(tf@ == op_spec("Tf"@, seq![f, OperandView::Integer(size as i64)]));
            assert(tj@ == op_spec("Tj"@, seq![t]));
            assert(operands_view(seq![font, Operand::Integer(size as i64)]) =~= seq![f, OperandView::Integer(size as i64)]);
            assert(operands_view(seq![string]) =~= seq![t]);
            assert(ops_view(operations@) =~= before + seq![
                op_spec("Tf"@, seq![f, OperandView::Integer(size as i64)]),
                op_spec("Tj"@, seq![t]),
            ]);
        }
        k = k + 1;
    }
    operations.push(operation("ET", Vec::new()));
    proof {
        assert(rs.take(n as int) =~= rs);
        assert(operands_view(Seq::<Operand>::empty()) =~= Seq::<OperandView>::empty());
        assert(ops_view(operations@) =~= text_ops(px, py, size, t));
    }
    operations
}

/// All the bytes of a text, character after character.
pub open spec fn text_bytes(s: Seq<FontChar>) -> Seq<u8>
    decreases s.len(),
{
    if s.len() == 0 {
        seq![]
    } else {
        text_bytes(s.drop_last()) + char_bytes(s.last())
    }
}

/// The bytes of the runs, run after run.
pub open spec fn runs_bytes(rs: Seq<(bool, Seq<u8>)>) -> Seq<u8>
    decreases rs.len(),
{
    if rs.len() == 0 {
        seq![]
    } else {
        runs_bytes(rs.drop_last()) + rs.last().1
    }
}

/// Splitting a text into runs loses and reorders nothing: the runs' bytes,
/// put back together, are the bytes of the text's characters in order.
pub proof fn lemma_runs_keep_text(s: Seq<FontChar>)
    ensures
        runs_bytes(runs(s)) == text_bytes(s),
    decreases s.len(),
{
    if s.len() > 0 {
        lemma_runs_keep_text(s.drop_last());
        let prev = runs(s.drop_last());
        let c = s.last();
        if prev.len() > 0 && prev.last().0 == is_second_font(c) {
            let r = prev.drop_last().push((is_second_font(c), prev.last().1 + char_bytes(c)));
            assert(r.drop_last() =~= prev.drop_last());
            assert(prev =~= prev.drop_last().push(prev.last()));
            assert(runs_bytes(prev) == runs_bytes(prev.drop_last()) + prev.last().1);
            assert(runs_bytes(r) =~= runs_bytes(prev) + char_bytes(c));
        } else {
            let r = prev.push((is_second_font(c), char_bytes(c)));
            assert(r.drop_last() =~= prev);
        }
    }
}

/// Two neighbouring runs never use the same font, no run is empty, and a run
/// uses the first font exactly when its characters are ASCII.
pub proof fn lemma_runs_alternate(s: Seq<FontChar>)
    ensures
        forall|i: int| 0 <= i < runs(s).len() - 1 ==> #[trigger] runs(s)[i].0 != runs(s)[i + 1].0,
        forall|i: int| 0 <= i < runs(s).len() ==> #[trigger] runs(s)[i].1.len() > 0,
        runs(s).len() <= s.len(),
        s.len() > 0 ==> runs(s).len() > 0 && runs(s).last().0 == is_second_font(s.last()),
    decreases s.len(),
{
    if s.len() > 0 {
        lemma_runs_alternate(s.drop_last());
        let prev = runs(s.drop_last());
        let c = s.last();
        let r = runs(s);
        if prev.len() > 0 && prev.last().0 == is_second_font(c) {
            assert forall|i: int| 0 <= i < r.len() - 1 implies #[trigger] r[i].0 != r[i + 1].0 by {
                assert(r[i] == prev[i]);
                if i + 1 < r.len() - 1 {
                    assert(r[i + 1] == prev[i + 1]);
                } else {
                    assert(r[i + 1].0 == prev[i + 1].0);
                }
            }
            assert forall|i: int| 0 <= i < r.len() implies #[trigger] r[i].1.len() > 0 by {
                if i < r.len() - 1 {
                    assert(r[i] == prev[i]);
                }
            }
        } else {
            assert forall|i: int| 0 <= i < r.len() - 1 implies #[trigger] r[i].0 != r[i + 1].0 by {
                assert(r[i] == prev[i]);
                if i + 1 < r.len() - 1 {
                    assert(r[i + 1] == prev[i + 1]);
                }
            }
            assert forall|i: int| 0 <= i < r.len() implies #[trigger] r[i].1.len() > 0 by {
                if i < r.len() - 1 {
                    assert(r[i] == prev[i]);
                }
            }
        }
    }
}

} // verus!
