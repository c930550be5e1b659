use tapejit::syntax::{indented, parse, Instruction};

#[test]
fn one_line_for_each_instruction() {
    let program = parse("+-><.,").unwrap();
    assert_eq!(indented(&program, 0), "Add 1\nAdd -1\nMove 1\nMove -1\nWrite\nRead\n");
}

#[test]
fn loop_bodies_are_indented_by_four() {
    let program = parse("+[>[-]<].").unwrap();
    assert_eq!(
        indented(&program, 0),
        "Add 1\nLoop\n    Move 1\n    Loop\n        Add -1\n    Move -1\nWrite\n"
    );
}

#[test]
fn indent_applies_to_every_line() {
    let program = parse("[.]").unwrap();
    assert_eq!(indented(&program, 2), "  Loop\n      Write\n");
}

#[test]
fn numbers_are_decimal() {
    let program = vec![
        Instruction::Add { value: -128 },
        Instruction::Add { value: 127 },
        Instruction::Add { value: 0 },
        Instruction::Move { value: i32::MIN },
        Instruction::Move { value: i32::MAX },
        Instruction::Move { value: 10 },
        Instruction::SetCell { value: 255 },
        Instruction::SetCell { value: 0 },
        Instruction::SetCell { value: 100 },
    ];
    assert_eq!(
        indented(&program, 0),
        "Add -128\nAdd 127\nAdd 0\nMove -2147483648\nMove 2147483647\nMove 10\nSet 255\nSet 0\nSet 100\n"
    );
}

#[test]
fn empty_program_is_empty_text() {
    assert_eq!(indented(&Vec::new(), 8), "");
}
