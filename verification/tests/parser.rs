use brainfuck::parser::{parse, Error, Instruction};

#[test]
fn parse_empty_source() {
    assert_eq!(parse(""), Ok(vec![]));
}

#[test]
fn parse_plain_symbols() {
    assert_eq!(
        parse("+-><.,"),
        Ok(vec![
            Instruction::IncCell,
            Instruction::DecCell,
            Instruction::IncPtr,
            Instruction::DecPtr,
            Instruction::Write,
            Instruction::Read,
        ])
    );
}

#[test]
fn parse_ignores_other_characters() {
    assert_eq!(parse("a + b\n"), Ok(vec![Instruction::IncCell]));
}

#[test]
fn parse_simple_loop() {
    assert_eq!(
        parse("[+]"),
        Ok(vec![
            Instruction::JumpIfZero(2),
            Instruction::IncCell,
            Instruction::JumpIfNotZero(0),
        ])
    );
}

#[test]
fn parse_nested_loops_link_symmetrically() {
    assert_eq!(
        parse("[[]]"),
        Ok(vec![
            Instruction::JumpIfZero(3),
            Instruction::JumpIfZero(2),
            Instruction::JumpIfNotZero(1),
            Instruction::JumpIfNotZero(0),
        ])
    );
}

#[test]
fn parse_sibling_loops() {
    assert_eq!(
        parse("[][]"),
        Ok(vec![
            Instruction::JumpIfZero(1),
            Instruction::JumpIfNotZero(0),
            Instruction::JumpIfZero(3),
            Instruction::JumpIfNotZero(2),
        ])
    );
}

#[test]
fn parse_unmatched_open_fails() {
    assert_eq!(parse("["), Err(Error::UnmatchedOpenLoop(1, 1)));
}

#[test]
fn parse_unmatched_close_fails() {
    assert_eq!(parse("]"), Err(Error::UnmatchedCloseLoop(1, 1)));
}

#[test]
fn parse_unmatched_close_position() {
    assert_eq!(parse("+\n+]"), Err(Error::UnmatchedCloseLoop(2, 2)));
}

#[test]
fn parse_unmatched_open_reported_at_end_of_input() {
    assert_eq!(parse("[++\n+"), Err(Error::UnmatchedOpenLoop(2, 1)));
}

#[test]
fn parse_close_inside_balanced_text_fails() {
    assert_eq!(parse("[]]"), Err(Error::UnmatchedCloseLoop(1, 3)));
}
