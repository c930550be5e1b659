use tapejit::syntax::{parse, Instruction, ParseError};

fn add(value: i8) -> Instruction {
    Instruction::Add { value }
}

fn shift(value: i32) -> Instruction {
    Instruction::Move { value }
}

fn looped(nodes: Vec<Instruction>) -> Instruction {
    Instruction::Loop { nodes }
}

#[test]
fn each_operator_is_one_instruction() {
    assert_eq!(
        parse("+-><.,"),
        Ok(vec![add(1), add(-1), shift(1), shift(-1), Instruction::Write, Instruction::Read])
    );
}

#[test]
fn empty_text_is_the_empty_program() {
    assert_eq!(parse(""), Ok(vec![]));
}

#[test]
fn other_bytes_are_comments() {
    assert_eq!(parse("a + b\n- c\t\u{e9}\u{1F600}"), Ok(vec![add(1), add(-1)]));
    assert_eq!(parse("no operators here"), Ok(vec![]));
}

#[test]
fn brackets_nest() {
    assert_eq!(
        parse("+[>[-]<]."),
        Ok(vec![
            add(1),
            looped(vec![shift(1), looped(vec![add(-1)]), shift(-1)]),
            Instruction::Write,
        ])
    );
    assert_eq!(parse("[]"), Ok(vec![looped(vec![])]));
    assert_eq!(parse("[][]"), Ok(vec![looped(vec![]), looped(vec![])]));
}

#[test]
fn raw_instructions_are_not_joined() {
    assert_eq!(parse("+++"), Ok(vec![add(1), add(1), add(1)]));
    assert_eq!(parse("[-]"), Ok(vec![looped(vec![add(-1)])]));
}

#[test]
fn close_without_open_is_rejected() {
    assert_eq!(parse("]"), Err(ParseError::UnmatchedBracket));
    assert_eq!(parse("+]"), Err(ParseError::UnmatchedBracket));
    assert_eq!(parse("[]]"), Err(ParseError::UnmatchedBracket));
    assert_eq!(parse("][", ), Err(ParseError::UnmatchedBracket));
}

#[test]
fn open_without_close_is_rejected() {
    assert_eq!(parse("["), Err(ParseError::UnmatchedBracket));
    assert_eq!(parse("[[]"), Err(ParseError::UnmatchedBracket));
    assert_eq!(parse("+[-"), Err(ParseError::UnmatchedBracket));
}

#[test]
fn unequal_bracket_counts_are_rejected() {
    for text in ["[[]", "[]]", "[[[", "]]]", "[+[-]", "+]-[>]"] {
        let open = text.bytes().filter(|byte| *byte == b'[').count();
        let close = text.bytes().filter(|byte| *byte == b']').count();
        assert_ne!(open, close);
        assert_eq!(parse(text), Err(ParseError::UnmatchedBracket));
    }
}

#[test]
fn clone_copies_the_tree() {
    let program = parse("+[>[-]<].").unwrap();
    let copy = program.clone();
    assert_eq!(copy, program);
    let one = looped(vec![add(1), looped(vec![])]);
    assert_eq!(one.clone(), one);
}
