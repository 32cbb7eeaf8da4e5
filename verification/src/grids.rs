use vstd::prelude::*;
use vstd::string::StringExecFns;
use vstd::string::StrSliceExecFns;
use crate::command::{Color, Opr, OprView, oprs_view};
use crate::content::{Operand, OperandView, operands_view};

verus! {

/// The colour codes of the grid lines, as 0xRRGGBB.
pub const COLOUR_CODES: [u32; 7] = [0x5F4149, 0xEB3247, 0xBC4349, 0xF35645, 0xF6A73B, 0xFAD32F, 0xa6896b];

pub open spec fn colour_code(i: int) -> u32 {
    if i == 0 {
        0x5F4149u32
    } else if i == 1 {
        0xEB3247u32
    } else if i == 2 {
        0xBC4349u32
    } else if i == 3 {
        0xF35645u32
    } else if i == 4 {
        0xF6A73Bu32
    } else if i == 5 {
        0xFAD32Fu32
    } else {
        0xa6896bu32
    }
}

/// The red, green and blue components of the colour code 0xRRGGBB.
pub open spec fn rgb_spec(hex: u32) -> (u8, u8, u8) {
    (((hex / 65536) % 256) as u8, ((hex / 256) % 256) as u8, (hex % 256) as u8)
}

/// Splits a colour code 0xRRGGBB into its red, green and blue components.
pub fn to_rgb(hex: u32) -> (r: (u8, u8, u8))
    ensures
        r == rgb_spec(hex),
{
    let red = (hex >> 16) as u8;
    let green = ((hex >> 8) & 255) as u8;
    let blue = (hex & 255) as u8;
    assert(red == ((hex / 65536) % 256) as u8) by (bit_vector)
        requires
            red == (hex >> 16) as u8,
    ;
    assert(green == ((hex / 256) % 256) as u8) by (bit_vector)
        requires
            green == ((hex >> 8) & 255) as u8,
    ;
    assert(blue == (hex % 256) as u8) by (bit_vector)
        requires
            blue == (hex & 255) as u8,
    ;
    (red, green, blue)
}

/// The decimal digit `d`.
pub open spec fn digit_char(d: nat) -> char {
    (48 + d) as char
}

/// The decimal representation of `n`, without leading zeros.
pub open spec fn decimal(n: nat) -> Seq<char>
    decreases n,
{
    if n < 10 {
        seq![digit_char(n)]
    } else {
        decimal(n / 10) + seq![digit_char(n % 10)]
    }
}

/// The label of grid line `i`: its number, with a leading zero below 10.
pub open spec fn line_label(i: u32) -> Seq<char> {
    if i < 10 {
        seq!['0'] + decimal(i as nat)
    } else {
        decimal(i as nat)
    }
}

/// The label of the point (x, y): `(x, y)`.
pub open spec fn point_label(x: u32, y: u32) -> Seq<char> {
    seq!['('] + decimal(x as nat) + seq![',', ' '] + decimal(y as nat) + seq![')']
}

/// The decimal digit `d` as a one-character text.
fn digit_str(d: u32) -> (r: &'static str)
    requires
        d < 10,
    ensures
        r@ == seq![digit_char(d as nat)],
{
    proof {
        reveal_strlit("0");
        reveal_strlit("1");
        reveal_strlit("2");
        reveal_strlit("3");
        reveal_strlit("4");
        reveal_strlit("5");
        reveal_strlit("6");
        reveal_strlit("7");
        reveal_strlit("8");
        reveal_strlit("9");
    }
    let r = match d {
        0 => "0",
        1 => "1",
        2 => "2",
        3 => "3",
        4 => "4",
        5 => "5",
        6 => "6",
        7 => "7",
        8 => "8",
        _ => "9",
    };
    assert(r@ =~= seq![digit_char(d as nat)]);
    r
}

/// `n` in decimal, without leading zeros.
fn format_decimal(n: u32) -> (r: String)
    ensures
        r@ == decimal(n as nat),
    decreases n,
{
    if n < 10 {
        String::from_str(digit_str(n))
    } else {
        let mut s = format_decimal(n / 10);
        s.append(digit_str(n % 10));
        s
    }
}

/// `n` in decimal after a zero.
fn format_zero_padded(n: u32) -> (r: String)
    ensures
        r@ == seq!['0'] + decimal(n as nat),
{
    let mut s = String::from_str(digit_str(0));
    let d = format_decimal(n);
    s.append(d.as_str());
    s
}

/// The point (x, y) written as `(x, y)`.
fn format_point(x: u32, y: u32) -> (r: String)
    ensures
        r@ == point_label(x, y),
{
    proof {
        reveal_strlit("(");
        reveal_strlit(", ");
        reveal_strlit(")");
    }
    let mut s = String::from_str("(");
    let dx = format_decimal(x);
    s.append(dx.as_str());
    s.append(", ");
    let dy = format_decimal(y);
    s.append(dy.as_str());
    s.append(")");
    assert(s@ =~= point_label(x, y));
    s
}

/// The bytes of a text, one byte per character (the character's code, cut
/// to eight bits).
pub fn ascii_bytes(text: &String) -> (r: Vec<u8>)
    ensures
        r@ == text@.map_values(|c: char| c as u8),
{
    let s = text.as_str();
    let n = s.unicode_len();
    let mut r: Vec<u8> = Vec::new();
    let mut i: usize = 0;
    while i < n
        invariant
            n == text@.len(),
            s@ == text@,
            i <= n,
            r@.len() == i,
            forall|j: int| 0 <= j < i ==> #[trigger] r@[j] == text@[j] as u8,
        decreases n - i,
    {
        let c = s.get_char(i);
        r.push(c as u8);
        i = i + 1;
    }
    assert(r@ =~= text@.map_values(|c: char| c as u8));
    r
}

/// The edit operations of grid line `i`: its colour, the line across the
/// page (of length `length + 1`), and its label.
pub open spec fn grid_line(i: u32, length: u32, vertical: bool) -> Seq<OprView> {
    let (red, green, blue) = rgb_spec(colour_code((i % 7) as int));
    let at = (i * 20) as u32;
    if vertical {
        seq![
            OprView::ChangeRgb(red, green, blue),
            OprView::DrawLine(at, 0, at, (length + 1) as u32),
            OprView::WriteLine((at + 2) as u32, 5, 10, line_label(i)),
        ]
    } else {
        seq![
            OprView::ChangeRgb(red, green, blue),
            OprView::DrawLine(0, at, (length + 1) as u32, at),
            OprView::WriteLine(5, (at + 2) as u32, 10, line_label(i)),
        ]
    }
}

/// The grid lines `from` to `to`, both included.
pub open spec fn grid_lines(from: u32, to: int, length: u32, vertical: bool) -> Seq<OprView>
    decreases to - from + 1,
{
    if to < from {
        seq![]
    } else {
        grid_lines(from, to - 1, length, vertical) + grid_line(to as u32, length, vertical)
    }
}

/// The grid lines `from` to `to` (both included) across a page of the given
/// length, each coloured and labelled with its number.
pub fn grid_from_to(from: u32, to: u32, length: u32, vertical: bool) -> (oprs: Vec<Opr>)
    requires
        to * 20 + 2 <= u32::MAX,
        length < u32::MAX,
    ensures
        oprs_view(oprs@) == grid_lines(from, to as int, length, vertical),
{
    let mut oprs: Vec<Opr> = Vec::new();
    if to < from {
        assert(oprs_view(oprs@) =~= grid_lines(from, to as int, length, vertical));
        return oprs;
    }
    let mut i: u32 = from;
    assert(oprs_view(oprs@) =~= grid_lines(from, from - 1, length, vertical));
    while i <= to
        invariant
            from <= i <= to + 1,
            to * 20 + 2 <= u32::MAX,
            length < u32::MAX,
            oprs_view(oprs@) == grid_lines(from, i - 1, length, vertical),
        decreases to + 1 - i,
    {
        let (red, green, blue) = to_rgb(COLOUR_CODES[(i % 7) as usize]);
        let text = if i < 10 {
            format_zero_padded(i)
        } else {
            format_decimal(i)
        };
        let ghost before = oprs@;
        let ghost label = text@;
        oprs.push(Opr::ChangeRgb(red, green, blue));
        if vertical {
            oprs.push(Opr::DrawLine(i * 20, 0, i * 20, length + 1));
            oprs.push(Opr::WriteLine(i * 20 + 2, 5, 10, text));
        } else {
            oprs.push(Opr::DrawLine(0, i * 20, length + 1, i * 20));
            oprs.push(Opr::WriteLine(5, i * 20 + 2, 10, text));
        }
        proof {
            assert(COLOUR_CODES[(i % 7) as int] == colour_code((i % 7) as int));
            assert(label == line_label(i));
            assert(oprs_view(oprs@) =~= oprs_view(before) + grid_line(i, length, vertical));
        }
        if i == to {
            return oprs;
        }
        i = i + 1;
    }
    oprs
}

/// The edit operations of a grid over the whole page, every 20 points.
pub open spec fn full_grid(width: u32, height: u32) -> Seq<OprView> {
    seq![OprView::SetWidth(1)] + grid_lines(1, (width / 20) as int, height, true) + grid_lines(
        1,
        (height / 20) as int,
        width,
        false,
    )
}

/// A grid over the whole page, every 20 points: one numbered line across the
/// page's height for each 20 points of width, and one across its width for
/// each 20 points of height.
pub fn full(width: u32, height: u32) -> (oprs: Vec<Opr>)
    requires
        width < u32::MAX,
        height < u32::MAX,
    ensures
        oprs_view(oprs@) == full_grid(width, height),
{
    let mut oprs: Vec<Opr> = Vec::new();
    oprs.push(Opr::SetWidth(1));
    let mut a = grid_from_to(1, width / 20, height, true);
    let mut b = grid_from_to(1, height / 20, width, false);
    let ghost (o, av, bv) = (oprs@, a@, b@);
    oprs.append(&mut a);
    oprs.append(&mut b);
    assert(oprs_view(oprs@) =~= oprs_view(o) + oprs_view(av) + oprs_view(bv));
    assert(oprs_view(o) =~= seq![OprView::SetWidth(1)]);
    oprs
}

/// The fine lines of a sub-grid: nine lines every 4 points across the
/// 40-point square around the intersection (x, y) of the full grid, in one
/// direction.
pub open spec fn fine_lines(x: u32, y: u32, k: int, vertical: bool) -> Seq<OprView>
    decreases k,
{
    if k <= 0 {
        seq![]
    } else {
        let x0 = ((x - 1) * 20) as u32;
        let y0 = ((y - 1) * 20) as u32;
        fine_lines(x, y, k - 1, vertical) + seq![
            if vertical {
                OprView::DrawLine((x0 + k * 4) as u32, y0, (x0 + k * 4) as u32, ((y + 1) * 20) as u32)
            } else {
                OprView::DrawLine(x0, (y0 + k * 4) as u32, ((x + 1) * 20) as u32, (y0 + k * 4) as u32)
            },
        ]
    }
}

/// The edit operations of the sub-grid around the intersection (x, y).
pub open spec fn sub_grid(width: u32, height: u32, x: u32, y: u32) -> Seq<OprView> {
    seq![OprView::Raw("w"@, seq![OperandView::Real(3, 10)]), OprView::ChangeColor(Color::Grey)]
        + fine_lines(x, y, 9, true) + fine_lines(x, y, 9, false) + seq![OprView::SetWidth(1)]
        + grid_lines((x - 1) as u32, (x + 1) as int, height, true) + grid_lines(
        (y - 1) as u32,
        (y + 1) as int,
        width,
        false,
    )
}

/// A grid with an interval of 4 points, in grey, around the intersection of
/// lines x and y of the full grid, together with the numbered full-grid
/// lines x - 1 to x + 1 and y - 1 to y + 1.
pub fn sub(width: u32, height: u32, x: u32, y: u32) -> (oprs: Vec<Opr>)
    requires
        1 <= x,
        1 <= y,
        (x + 1) * 20 + 2 <= u32::MAX,
        (y + 1) * 20 + 2 <= u32::MAX,
        width < u32::MAX,
        height < u32::MAX,
    ensures
        oprs_view(oprs@) == sub_grid(width, height, x, y),
{
    let mut oprs: Vec<Opr> = Vec::new();
    let mut w: Vec<Operand> = Vec::new();
    w.push(Operand::Real(3, 10));
    oprs.push(Opr::Raw("w".to_string(), w));
    oprs.push(Opr::ChangeColor(Color::Grey));
    assert(operands_view(seq![Operand::Real(3, 10)]) =~= seq![OperandView::Real(3, 10)]);
    assert(oprs_view(oprs@) =~= seq![OprView::Raw("w"@, seq![OperandView::Real(3, 10)]), OprView::ChangeColor(Color::Grey)]);
    let ghost start = oprs_view(oprs@);
    let mut i: u32 = 1;
    while i < 10
        invariant
            1 <= i <= 10,
            1 <= x,
            1 <= y,
            (x + 1) * 20 + 2 <= u32::MAX,
            (y + 1) * 20 + 2 <= u32::MAX,
            oprs_view(oprs@) == start + fine_lines(x, y, i - 1, true),
        decreases 10 - i,
    {
        let ghost before = oprs@;
        oprs.push(Opr::DrawLine((x - 1) * 20 + i * 4, (y - 1) * 20, (x - 1) * 20 + i * 4, (y + 1) * 20));
        assert(oprs_view(oprs@) =~= oprs_view(before).push(oprs@.last()@));
        i = i + 1;
    }
    let ghost mid = oprs_view(oprs@);
    let mut i: u32 = 1;
    while i < 10
        invariant
            1 <= i <= 10,
            1 <= x,
            1 <= y,
            (x + 1) * 20 + 2 <= u32::MAX,
            (y + 1) * 20 + 2 <= u32::MAX,
            oprs_view(oprs@) == mid + fine_lines(x, y, i - 1, false),
        decreases 10 - i,
    {
        let ghost before = oprs@;
        oprs.push(Opr::DrawLine((x - 1) * 20, (y - 1) * 20 + i * 4, (x + 1) * 20, (y - 1) * 20 + i * 4));
        assert(oprs_view(oprs@) =~= oprs_view(before).push(oprs@.last()@));
        i = i + 1;
    }
    let ghost before = oprs@;
    oprs.push(Opr::SetWidth(1));
    assert(oprs_view(oprs@) =~= oprs_view(before).push(OprView::SetWidth(1)));
    let mut a = grid_from_to(x - 1, x + 1, height, true);
    let mut b = grid_from_to(y - 1, y + 1, width, false);
    let ghost (o, av, bv) = (oprs@, a@, b@);
    oprs.append(&mut a);
    oprs.append(&mut b);
    assert(oprs_view(oprs@) =~= oprs_view(o) + oprs_view(av) + oprs_view(bv));
    assert(oprs_view(oprs@) =~= sub_grid(width, height, x, y));
    oprs
}

/// The edit operations that mark the point (x, y): a grey cross 8 points wide,
/// a red dot on the point, and the label `(x, y)`, written upright next to the
/// point or, when `rotate_text` is set, turned a quarter turn.
pub open spec fn mark_oprs(rotate_text: bool, x: u32, y: u32) -> Seq<OprView> {
    let cross = seq![
        OprView::ChangeColor(Color::Grey),
        OprView::Raw("w"@, seq![OperandView::Real(1, 2)]),
        OprView::DrawLine((x + 4) as u32, y, (x - 4) as u32, y),
        OprView::DrawLine(x, (y - 4) as u32, x, (y + 4) as u32),
        OprView::ChangeColor(Color::Red),
        OprView::SetWidth(1),
        OprView::DrawLine(x, y, x, y),
    ];
    if rotate_text {
        cross + seq![
            OprView::Raw("BT"@, seq![]),
            OprView::Raw("Tf"@, seq![OperandView::Name(seq![70u8, 49u8]), OperandView::Integer(10)]),
            OprView::Raw(
                "Tm"@,
                seq![
                    OperandView::Integer(0),
                    OperandView::Integer(1),
                    OperandView::Integer(-1i64),
                    OperandView::Integer(0),
                    OperandView::Integer((x + 10) as i64),
                    OperandView::Integer((y + 2) as i64),
                ],
            ),
            OprView::Raw("Tj"@, seq![OperandView::Literal(point_label(x, y).map_values(|c: char| c as u8))]),
            OprView::Raw("ET"@, seq![]),
        ]
    } else {
        cross + seq![OprView::WriteLine((x + 2) as u32, (y + 4) as u32, 10, point_label(x, y))]
    }
}

fn raw(operator: &str, operands: Vec<Operand>) -> (o: Opr)
    ensures
        o@ == OprView::Raw(operator@, operands_view(operands@)),
{
    Opr::Raw(operator.to_string(), operands)
}

proof fn lemma_grid_lines_shape(from: u32, to: int, length: u32, vertical: bool)
    requires
        from <= to + 1,
    ensures
        grid_lines(from, to, length, vertical).len() == 3 * (to - from + 1),
        forall|k: int| from <= k <= to ==> #[trigger] grid_lines(from, to, length, vertical)[3 * (k - from) + 1] == grid_line(
            k as u32,
            length,
            vertical,
        )[1],
    decreases to - from + 1,
{
    if to >= from {
        lemma_grid_lines_shape(from, to - 1, length, vertical);
        let prev = grid_lines(from, to - 1, length, vertical);
        let all = grid_lines(from, to, length, vertical);
        assert(all == prev + grid_line(to as u32, length, vertical));
        assert forall|k: int| from <= k <= to implies #[trigger] all[3 * (k - from) + 1] == grid_line(k as u32, length, vertical)[1] by {
            if k < to {
                assert(all[3 * (k - from) + 1] == prev[3 * (k - from) + 1]);
            } else {
                assert(all[3 * (k - from) + 1] == grid_line(to as u32, length, vertical)[1]);
            }
        }
    }
}

/// The full grid covers the page: after the line width, it draws the
/// vertical lines x = 20, 40, ..., one for each multiple of 20 up to the
/// page width (so every one lies on the page), each running the height of
/// the page, then the horizontal lines y = 20, 40, ... up to the page
/// height, each running its width; each line comes with its colour before it
/// and its label after it.
pub proof fn lemma_full_grid_lines(width: u32, height: u32)
    requires
        width < u32::MAX,
        height < u32::MAX,
    ensures
        full_grid(width, height).len() == 1 + 3 * (width / 20) + 3 * (height / 20),
        full_grid(width, height)[0] == OprView::SetWidth(1),
        forall|i: int|
            1 <= i <= width / 20 ==> 20 * i <= width && #[trigger] full_grid(width, height)[3 * i - 1] == OprView::DrawLine(
                (20 * i) as u32,
                0,
                (20 * i) as u32,
                (height + 1) as u32,
            ),
        forall|j: int|
            1 <= j <= height / 20 ==> 20 * j <= height && #[trigger] full_grid(width, height)[3 * (width / 20) + 3 * j - 1]
                == OprView::DrawLine(0, (20 * j) as u32, (width + 1) as u32, (20 * j) as u32),
{
    let nv = (width / 20) as int;
    let nh = (height / 20) as int;
    lemma_grid_lines_shape(1, nv, height, true);
    lemma_grid_lines_shape(1, nh, width, false);
    let v = grid_lines(1, nv, height, true);
    let h = grid_lines(1, nh, width, false);
    let g = full_grid(width, height);
    assert(g == seq![OprView::SetWidth(1)] + v + h);
    assert forall|i: int| 1 <= i <= width / 20 implies 20 * i <= width && #[trigger] g[3 * i - 1] == OprView::DrawLine(
        (20 * i) as u32,
        0,
        (20 * i) as u32,
        (height + 1) as u32,
    ) by {
        assert(g[3 * i - 1] == v[3 * (i - 1) + 1]);
        assert(v[3 * (i - 1) + 1] == grid_line(i as u32, height, true)[1]);
        assert(20 * i <= width) by (nonlinear_arith)
            requires
                1 <= i <= width / 20,
        ;
        assert(((i as u32) * 20) as u32 == (20 * i) as u32);
    }
    assert forall|j: int| 1 <= j <= height / 20 implies 20 * j <= height && #[trigger] g[3 * (width / 20) + 3 * j - 1]
        == OprView::DrawLine(0, (20 * j) as u32, (width + 1) as u32, (20 * j) as u32) by {
        assert(g[3 * (width / 20) + 3 * j - 1] == h[3 * (j - 1) + 1]);
        assert(h[3 * (j - 1) + 1] == grid_line(j as u32, width, false)[1]);
        assert(20 * j <= height) by (nonlinear_arith)
            requires
                1 <= j <= height / 20,
        ;
        assert(((j as u32) * 20) as u32 == (20 * j) as u32);
    }
}

/// Marks the point (x, y) with a cross and its coordinates.
pub fn mark(rotate_text: bool, x: u32, y: u32) -> (oprs: Vec<Opr>)
    requires
        4 <= x,
        4 <= y,
        x + 4 <= u32::MAX,
        y + 4 <= u32::MAX,
    ensures
        oprs_view(oprs@) == mark_oprs(rotate_text, x, y),
{
    let text = format_point(x, y);
    let mut half: Vec<Operand> = Vec::new();
    half.push(Operand::Real(1, 2));
    assert(operands_view(half@) =~= seq![OperandView::Real(1, 2)]);
    let mut oprs: Vec<Opr> = Vec::new();
    oprs.push(Opr::ChangeColor(Color::Grey));
    oprs.push(raw("w", half));
    oprs.push(Opr::DrawLine(x + 4, y, x - 4, y));
    oprs.push(Opr::DrawLine(x, y - 4, x, y + 4));
    oprs.push(Opr::ChangeColor(Color::Red));
    oprs.push(Opr::SetWidth(1));
    oprs.push(Opr::DrawLine(x, y, x, y));
    let ghost cross = oprs@;
    if rotate_text {
        let tm = vec![
            Operand::Integer(0),
            Operand::Integer(1),
            Operand::Integer(-1),
            Operand::Integer(0),
            Operand::Integer(x as i64 + 10),
            Operand::Integer(y as i64 + 2),
        ];
        let tf = vec![Operand::Name(vec![70u8, 49u8]), Operand::Integer(10)];
        let bytes = ascii_bytes(&text);
        let tj = vec![Operand::Literal(bytes)];
        proof {
            assert(operands_view(tm@) =~= seq![
                OperandView::Integer(0),
                OperandView::Integer(1),
                OperandView::Integer(-1i64),
                OperandView::Integer(0),
                OperandView::Integer((x + 10) as i64),
                OperandView::Integer((y + 2) as i64),
            ]);
            assert(operands_view(tf@) =~= seq![OperandView::Name(seq![70u8, 49u8]), OperandView::Integer(10)]);
            assert(operands_view(tj@) =~= seq![OperandView::Literal(point_label(x, y).map_values(|c: char| c as u8))]);
            assert(operands_view(Seq::<Operand>::empty()) =~= Seq::<OperandView>::empty());
        }
        oprs.push(raw("BT", Vec::new()));
        oprs.push(raw("Tf", tf));
        oprs.push(raw("Tm", tm));
        oprs.push(raw("Tj", tj));
        oprs.push(raw("ET", Vec::new()));
    } else {
        oprs.push(Opr::WriteLine(x + 2, y + 4, 10, text));
    }
    assert(oprs_view(oprs@) =~= mark_oprs(rotate_text, x, y));
    oprs
}

} // verus!
