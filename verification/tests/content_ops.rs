use leafedit::apply::{apply_opr, opr_operations};
use leafedit::command::{Color, Opr, ParseOperationError};
use leafedit::content::{Operand, PdfOperation, same_text};
use leafedit::drawer::{draw_line, set_width};
use leafedit::grids::{full, grid_from_to, mark, sub, to_rgb};
use leafedit::painter::{change_color, change_rgb};
use leafedit::undo::undo_operations;
use leafedit::writer::{flaten, lookup, parse_text, write_text, FontChar};

fn operators(ops: &[PdfOperation<Operand>]) -> Vec<String> {
    ops.iter().map(|o| o.operator.clone()).collect()
}

fn int_of(o: &Operand) -> i64 {
    match o {
        Operand::Integer(i) => *i,
        other => panic!("not an integer: {:?}", other),
    }
}

#[test]
fn lookup_gives_check_mark_glyph() {
    assert_eq!(lookup('\u{2713}'), [0, 1]);
    assert_eq!(lookup('é'), [0, 0]);
}

#[test]
fn parse_text_splits_fonts() {
    let chars = parse_text("a\u{2713}b".to_string());
    assert_eq!(chars.len(), 3);
    assert!(matches!(chars[0], FontChar::F1('a')));
    assert!(matches!(chars[1], FontChar::F2([0, 1])));
    assert!(matches!(chars[2], FontChar::F1('b')));
}

#[test]
fn flaten_makes_alternating_runs() {
    let runs = flaten(parse_text("ab\u{2713}\u{2713}c".to_string()));
    assert_eq!(runs.len(), 3);
    match &runs[0] {
        (Operand::Name(n), Operand::Literal(t)) => {
            assert_eq!(n, b"F1");
            assert_eq!(t, b"ab");
        }
        other => panic!("unexpected {:?}", other),
    }
    match &runs[1] {
        (Operand::Name(n), Operand::Hexadecimal(t)) => {
            assert_eq!(n, b"F2");
            assert_eq!(t, &vec![0, 1, 0, 1]);
        }
        other => panic!("unexpected {:?}", other),
    }
    match &runs[2] {
        (Operand::Name(n), Operand::Literal(t)) => {
            assert_eq!(n, b"F1");
            assert_eq!(t, b"c");
        }
        other => panic!("unexpected {:?}", other),
    }
}

#[test]
fn flaten_of_nothing_is_empty() {
    assert!(flaten(parse_text(String::new())).is_empty());
}

#[test]
fn write_text_makes_text_object() {
    let ops = write_text(100, 620, 16, "Hi\u{2713}".to_string());
    assert_eq!(operators(&ops), vec!["BT", "Td", "Tf", "Tj", "Tf", "Tj", "ET"]);
    assert_eq!(int_of(&ops[1].operands[0]), 100);
    assert_eq!(int_of(&ops[1].operands[1]), 620);
    assert_eq!(int_of(&ops[2].operands[1]), 16);
    assert!(matches!(&ops[3].operands[0], Operand::Literal(t) if t == b"Hi"));
    assert!(matches!(&ops[5].operands[0], Operand::Hexadecimal(t) if t == &vec![0, 1]));
}

#[test]
fn draw_line_strokes_path() {
    let ops = draw_line(1, 2, 3, 4);
    assert_eq!(operators(&ops), vec!["m", "l", "s"]);
    assert_eq!(int_of(&ops[0].operands[0]), 1);
    assert_eq!(int_of(&ops[0].operands[1]), 2);
    assert_eq!(int_of(&ops[1].operands[0]), 3);
    assert_eq!(int_of(&ops[1].operands[1]), 4);
    assert!(ops[2].operands.is_empty());
}

#[test]
fn set_width_sets_line_width() {
    let ops = set_width(7);
    assert_eq!(operators(&ops), vec!["w"]);
    assert_eq!(int_of(&ops[0].operands[0]), 7);
}

#[test]
fn change_color_named_colours() {
    let red = change_color(Color::Red);
    assert_eq!(operators(&red), vec!["rg"]);
    let comps: Vec<i64> = red[0].operands.iter().map(int_of).collect();
    assert_eq!(comps, vec![1, 0, 0]);
    let black = change_color(Color::Black);
    let comps: Vec<i64> = black[0].operands.iter().map(int_of).collect();
    assert_eq!(comps, vec![0, 0, 1]);
    let grey = change_color(Color::Grey);
    assert!(grey[0].operands.iter().all(|o| matches!(o, Operand::Real(1, 2))));
}

#[test]
fn change_rgb_scales_to_one() {
    let ops = change_rgb(255, 0, 51);
    assert!(matches!(ops[0].operands[0], Operand::SingleReal(255, 255)));
    assert!(matches!(ops[0].operands[1], Operand::SingleReal(0, 255)));
    assert!(matches!(ops[0].operands[2], Operand::SingleReal(51, 255)));
}

#[test]
fn apply_opr_wraps_edit_in_saved_state() {
    let ops = apply_opr(vec![Opr::SetWidth(3), Opr::DrawLine(0, 0, 10, 10)]);
    assert_eq!(operators(&ops), vec!["q", "rg", "w", "J", "j", "w", "m", "l", "s", "Q"]);
    assert_eq!(int_of(&ops[5].operands[0]), 3);
}

#[test]
fn apply_opr_of_nothing_is_prelude_and_restore() {
    let ops = apply_opr(vec![]);
    assert_eq!(operators(&ops), vec!["q", "rg", "w", "J", "j", "Q"]);
}

#[test]
fn opr_operations_keeps_raw_operation() {
    let ops = opr_operations(&Opr::Raw("Tz".to_string(), vec![Operand::Integer(90)]));
    assert_eq!(operators(&ops), vec!["Tz"]);
    assert_eq!(int_of(&ops[0].operands[0]), 90);
}

#[test]
fn undo_after_edit_restores_before() {
    let mut ops = draw_line(0, 0, 1, 1);
    let before = operators(&ops);
    ops.append(&mut apply_opr(vec![Opr::ChangeColor(Color::Blue), Opr::SetWidth(2)]));
    undo_operations(&mut ops);
    assert_eq!(operators(&ops), before);
}

#[test]
fn undo_takes_one_plain_operation() {
    let mut ops = draw_line(0, 0, 1, 1);
    undo_operations(&mut ops);
    assert_eq!(operators(&ops), vec!["m", "l"]);
}

#[test]
fn undo_nested_edits_takes_last_block() {
    let mut ops = apply_opr(vec![Opr::SetWidth(1)]);
    let first = operators(&ops);
    let mut second = apply_opr(vec![Opr::SetWidth(2)]);
    second.insert(5, PdfOperation { operator: "q".to_string(), operands: vec![] });
    second.insert(6, PdfOperation { operator: "Q".to_string(), operands: vec![] });
    ops.append(&mut second);
    undo_operations(&mut ops);
    assert_eq!(operators(&ops), first);
}

#[test]
fn undo_of_nothing_is_nothing() {
    let mut ops: Vec<PdfOperation<Operand>> = vec![];
    undo_operations(&mut ops);
    assert!(ops.is_empty());
}

#[test]
fn to_rgb_splits_components() {
    assert_eq!(to_rgb(0x5F4149), (0x5F, 0x41, 0x49));
    assert_eq!(to_rgb(0xa6896b), (0xa6, 0x89, 0x6b));
}

#[test]
fn grid_from_to_labels_lines() {
    let oprs = grid_from_to(1, 2, 100, true);
    assert_eq!(oprs.len(), 6);
    assert!(matches!(oprs[0], Opr::ChangeRgb(0xEB, 0x32, 0x47)));
    assert!(matches!(oprs[1], Opr::DrawLine(20, 0, 20, 101)));
    assert!(matches!(&oprs[2], Opr::WriteLine(22, 5, 10, t) if t == "01"));
    assert!(matches!(&oprs[5], Opr::WriteLine(42, 5, 10, t) if t == "02"));
}

#[test]
fn grid_line_ten_has_no_leading_zero() {
    let oprs = grid_from_to(10, 10, 50, false);
    assert!(matches!(oprs[1], Opr::DrawLine(0, 200, 51, 200)));
    assert!(matches!(&oprs[2], Opr::WriteLine(5, 202, 10, t) if t == "10"));
}

#[test]
fn full_grid_counts_lines() {
    let oprs = full(100, 60);
    // width line, 5 vertical lines and 3 horizontal ones, three operations each
    assert_eq!(oprs.len(), 1 + 3 * 5 + 3 * 3);
    assert!(matches!(oprs[0], Opr::SetWidth(1)));
}

#[test]
fn sub_grid_around_point() {
    let oprs = sub(595, 842, 2, 3);
    assert!(matches!(&oprs[0], Opr::Raw(w, v) if w == "w" && matches!(v[0], Operand::Real(3, 10))));
    assert!(matches!(oprs[1], Opr::ChangeColor(Color::Grey)));
    assert!(matches!(oprs[2], Opr::DrawLine(24, 40, 24, 80)));
    assert!(matches!(oprs[11], Opr::DrawLine(20, 44, 60, 44)));
    assert!(matches!(oprs[20], Opr::SetWidth(1)));
    assert_eq!(oprs.len(), 2 + 9 + 9 + 1 + 9 + 9);
}

#[test]
fn mark_writes_label_upright() {
    let oprs = mark(false, 100, 200);
    assert_eq!(oprs.len(), 8);
    assert!(matches!(oprs[2], Opr::DrawLine(104, 200, 96, 200)));
    assert!(matches!(&oprs[7], Opr::WriteLine(102, 204, 10, t) if t == "(100, 200)"));
}

#[test]
fn mark_rotated_uses_text_matrix() {
    let oprs = mark(true, 10, 20);
    assert_eq!(oprs.len(), 12);
    match &oprs[9] {
        Opr::Raw(op, v) => {
            assert_eq!(op, "Tm");
            let vals: Vec<i64> = v.iter().map(int_of).collect();
            assert_eq!(vals, vec![0, 1, -1, 0, 20, 22]);
        }
        other => panic!("unexpected {:?}", other),
    }
    assert!(matches!(&oprs[10], Opr::Raw(op, v) if op == "Tj" && matches!(&v[0], Operand::Literal(t) if t == b"(10, 20)")));
}

#[test]
fn parse_error_message() {
    assert_eq!(
        ParseOperationError.message(),
        "Invalid operation, run `leafedit list operations` to get list of supported operations"
    );
}

#[test]
fn same_text_compares() {
    assert!(same_text("Tf", "Tf"));
    assert!(!same_text("Tf", "TF"));
    assert!(!same_text("Tf", "T"));
}

#[test]
fn flaten_writes_first_font_as_utf8() {
    let pairs = flaten(vec![FontChar::F1('a'), FontChar::F1('\u{e9}')]);
    assert_eq!(pairs.len(), 1);
    match &pairs[0].1 {
        Operand::Literal(b) => assert_eq!(b, &vec![0x61u8, 0xC3, 0xA9]),
        other => panic!("unexpected {:?}", other),
    }
}

fn op_of(operator: &str, operands: Vec<leafedit::object::PdfObject>) -> PdfOperation<leafedit::object::PdfObject> {
    PdfOperation { operator: operator.to_string(), operands }
}

fn ints(v: &[i64]) -> Vec<leafedit::object::PdfObject> {
    v.iter().map(|i| leafedit::object::PdfObject::Integer(*i)).collect()
}

#[test]
fn transformation_levels_follow_save_and_restore() {
    let ops = vec![
        op_of("cm", ints(&[2, 0, 0, 2, 0, 0])),
        op_of("q", vec![]),
        op_of("cm", ints(&[1, 0, 0, 1, 5, 5])),
        op_of("Q", vec![]),
        op_of("cm", (0..6).map(|_| leafedit::object::PdfObject::Name(b"x".to_vec())).collect()),
        op_of("Tj", vec![]),
    ];
    assert_eq!(leafedit::transform::transformation_levels(&ops), vec![vec![0usize]]);
    let ops2 = vec![op_of("q", vec![]), op_of("cm", ints(&[1, 0, 0, 1, 5, 5]))];
    assert_eq!(leafedit::transform::transformation_levels(&ops2), vec![vec![], vec![1usize]]);
    let short = vec![op_of("cm", ints(&[1, 0]))];
    assert!(leafedit::transform::transformation_levels_checked(&short).is_none());
}
