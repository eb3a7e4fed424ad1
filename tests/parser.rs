use urmsim::machine::InstructionType;
use urmsim::parser::{parse_instruction, ParseError, ParseErrorKind, UrmParser};

fn parse(text: &str) -> Result<urmsim::machine::Machine, ParseError> {
    UrmParser::new(text.to_string()).parse()
}

fn error_of(text: &str) -> ParseError {
    match parse(text) {
        Ok(_) => panic!("expected {:?} to be refused", text),
        Err(e) => e,
    }
}

#[test]
fn parses_all_kinds() {
    let m = parse("J(1,2,3)\nS(1)\nT(1,2)\nZ(4)\n").unwrap();
    let ins = m.instructions();
    assert_eq!(ins.len(), 4);
    assert_eq!(ins[0].kind(), InstructionType::Jump);
    assert_eq!(ins[0].args(), &vec![1, 2, 3]);
    assert_eq!(ins[1].kind(), InstructionType::Successor);
    assert_eq!(ins[1].args(), &vec![1]);
    assert_eq!(ins[2].kind(), InstructionType::Transfer);
    assert_eq!(ins[2].args(), &vec![1, 2]);
    assert_eq!(ins[3].kind(), InstructionType::Zero);
    assert_eq!(ins[3].args(), &vec![4]);
    assert_eq!(m.register_count(), 0);
    assert_eq!(m.get_program_counter(), 1);
}

#[test]
fn lower_case_and_white_space_are_accepted() {
    let m = parse("  s ( 1 ) \n\tj(1 ,\t2, 3)\r\n").unwrap();
    let ins = m.instructions();
    assert_eq!(ins.len(), 2);
    assert_eq!(ins[0].kind(), InstructionType::Successor);
    assert_eq!(ins[0].args(), &vec![1]);
    assert_eq!(ins[1].kind(), InstructionType::Jump);
    assert_eq!(ins[1].args(), &vec![1, 2, 3]);
}

#[test]
fn comments_and_blank_lines_are_skipped() {
    let m = parse("; a program\n\nS(1) ; count\n   \n;;\nZ(2);S(3)\n").unwrap();
    let ins = m.instructions();
    assert_eq!(ins.len(), 2);
    assert_eq!(ins[0].to_string(), "S(1)");
    assert_eq!(ins[1].to_string(), "Z(2)");
}

#[test]
fn text_after_close_paren_is_ignored() {
    let m = parse("S(2)xyz").unwrap();
    assert_eq!(m.instructions()[0].args(), &vec![2]);
}

#[test]
fn empty_text_gives_empty_program() {
    let m = parse("").unwrap();
    assert_eq!(m.get_instruction_count(), 0);
}

#[test]
fn plus_sign_is_accepted() {
    let m = parse("S(+3)").unwrap();
    assert_eq!(m.instructions()[0].args(), &vec![3]);
}

#[test]
fn rendered_instructions_parse_back() {
    let text = "J(12,7,100)\nS(2147483647)\nT(1,20)\nZ(9)";
    let m = parse(text).unwrap();
    let rendered: Vec<String> = m.instructions().iter().map(|i| i.to_string()).collect();
    assert_eq!(rendered, vec!["J(12,7,100)", "S(2147483647)", "T(1,20)", "Z(9)"]);
    let again = parse(&rendered.join("\n")).unwrap();
    assert_eq!(again.get_instruction_count(), 4);
    for (a, b) in m.instructions().iter().zip(again.instructions().iter()) {
        assert_eq!(a.kind(), b.kind());
        assert_eq!(a.args(), b.args());
    }
}

#[test]
fn unknown_instruction_is_refused() {
    let e = error_of("S(1)\nX(1)");
    assert_eq!(e, ParseError { line: 2, kind: ParseErrorKind::UnknownInstruction });
}

#[test]
fn missing_open_paren_is_refused() {
    let e = error_of("\n\nS1)");
    assert_eq!(e, ParseError { line: 3, kind: ParseErrorKind::MissingOpenParen });
    let e = error_of("S");
    assert_eq!(e, ParseError { line: 1, kind: ParseErrorKind::MissingOpenParen });
}

#[test]
fn missing_close_paren_is_refused() {
    let e = error_of("S(1");
    assert_eq!(e, ParseError { line: 1, kind: ParseErrorKind::MissingCloseParen });
    let e = error_of("S(1;)");
    assert_eq!(e, ParseError { line: 1, kind: ParseErrorKind::MissingCloseParen });
}

#[test]
fn invalid_number_is_refused() {
    for text in ["S()", "S(a)", "T(1,,2)", "S(2147483648)", "J(1,2,-)", "S(1.5)"] {
        let e = error_of(text);
        assert_eq!(e, ParseError { line: 1, kind: ParseErrorKind::InvalidNumber }, "{}", text);
    }
}

#[test]
fn wrong_argument_count_is_refused() {
    let e = error_of("J(1,2)");
    assert_eq!(e, ParseError { line: 1, kind: ParseErrorKind::WrongArgumentCount });
    let e = error_of("S(1)\nZ(1,2)");
    assert_eq!(e, ParseError { line: 2, kind: ParseErrorKind::WrongArgumentCount });
}

#[test]
fn argument_out_of_range_is_refused() {
    let e = error_of("S(0)");
    assert_eq!(e, ParseError { line: 1, kind: ParseErrorKind::ArgumentOutOfRange });
    let e = error_of("J(1,1,0)");
    assert_eq!(e, ParseError { line: 1, kind: ParseErrorKind::ArgumentOutOfRange });
    let e = error_of("T(-1,2)");
    assert_eq!(e, ParseError { line: 1, kind: ParseErrorKind::ArgumentOutOfRange });
}

#[test]
fn first_bad_line_is_reported() {
    let e = error_of("S(1)\n\nQ(1)\nS(0)");
    assert_eq!(e, ParseError { line: 3, kind: ParseErrorKind::UnknownInstruction });
}

#[test]
fn parse_instruction_reads_one_line() {
    let line: Vec<char> = "T(3,4)".chars().collect();
    let ins = parse_instruction(&line).unwrap();
    assert_eq!(ins.kind(), InstructionType::Transfer);
    assert_eq!(ins.args(), &vec![3, 4]);
    let lower: Vec<char> = "t(3,4)".chars().collect();
    assert_eq!(parse_instruction(&lower).unwrap_err(), ParseErrorKind::UnknownInstruction);
}

#[test]
fn successor_of_negative_value() {
    let mut m = parse("S(1)").unwrap();
    m.set_register(1, -5);
    m.run();
    assert_eq!(m.get_register(1), -4);
}
