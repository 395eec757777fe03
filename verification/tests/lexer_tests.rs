use silica::assembler::lexer::{
    lex_column_sep, lex_comma, lex_comments, lex_decimal_literal, lex_directives, lex_hex_literal,
    lex_instruction, lex_label, lex_label_operand, lex_line, lex_line_ending,
    lex_line_termination, lex_mnem, lex_numeric_literal, lex_registers, tokenize, Token,
};

fn name(s: &str) -> Vec<u8> {
    s.as_bytes().to_vec()
}

#[test]
fn test_lex_label() {
    let input = "start".as_bytes();
    let result = lex_label(input, 0);

    assert_eq!(result, Some((Token::Label(name("start")), input.len())));
}

#[test]
fn test_lex_hex_literal() {
    let input = "$A0".as_bytes();
    let result = lex_hex_literal(input, 0);

    assert_eq!(result, Some((Token::NumericLiteral(0xA0), input.len())));
}

#[test]
fn test_lex_decimal_literal() {
    let input = "57".as_bytes();
    let result = lex_decimal_literal(input, 0);

    assert_eq!(result, Some((Token::NumericLiteral(57), input.len())));
}

#[test]
fn test_lex_numeric_literal_parse_hex() {
    let input = "$FF".as_bytes();
    let result = lex_numeric_literal(input, 0);

    assert_eq!(result, Some((Token::NumericLiteral(255), input.len())));
}

#[test]
fn test_lex_numeric_literal_parse_decimal() {
    let input = "255".as_bytes();
    let result = lex_numeric_literal(input, 0);

    assert_eq!(result, Some((Token::NumericLiteral(255), input.len())));
}

#[test]
fn test_lex_column_sep_parse_all() {
    let input = " \t  \t\t".as_bytes();
    let result = lex_column_sep(input, 0);

    assert_eq!(result, input.len());
}

#[test]
fn test_lex_column_sep_parse_until() {
    let input = " \t  \t\thello".as_bytes();
    let result = lex_column_sep(input, 0);

    // everything up to "hello" is separator
    assert_eq!(result, 6);
}

#[test]
fn test_lex_comma() {
    let input = ",".as_bytes();
    let result = lex_comma(input, 0);

    assert_eq!(result, Some((Token::Comma, 1)));
}

#[test]
fn test_label_operand() {
    let input = "#label".as_bytes();
    let result = lex_label_operand(input, 0);

    assert_eq!(result, Some((Token::LabelOperand(name("label")), input.len())));
}

#[test]
fn test_lex_registers() {
    let registers = vec![
        "V0", "V1", "V2", "V3", "V4", "V5", "V6", "V7", "V8", "V9", "VA", "VB", "VC", "VD", "VE",
        "VF", "DT", "ST", "F",
    ];

    for register in registers.iter() {
        let result = lex_registers(register.as_bytes(), 0);
        assert_eq!(result, Some((Token::Register(name(register)), register.len())));
    }
}

#[test]
fn test_lex_directives() {
    let directives = vec!["org", "db"];

    for directive in directives.iter() {
        let result = lex_directives(directive.as_bytes(), 0);
        assert_eq!(result, Some((Token::Directive(name(directive)), directive.len())));
    }
}

#[test]
fn test_lex_mnem() {
    let instructions = vec![
        "CLS", "RET", "SYS", "JP", "CALL", "SE", "SNE", "LD", "ADD", "OR", "AND", "XOR", "SUB",
        "SHR", "SUBN", "SHL", "JR", "RND", "DRW", "SKP", "SKNP",
    ];

    for instr in instructions.iter() {
        let result = lex_mnem(instr.as_bytes(), 0);
        assert_eq!(result, Some((Token::Instruction(name(instr)), instr.len())));
    }
}

#[test]
fn test_lex_comments() {
    let input = "; this is a comment\n".as_bytes();
    let result = lex_comments(input, 0);

    // the comment body runs up to, and not including, the line ending
    assert_eq!(result, Some(input.len() - 1));
}

#[test]
fn test_lex_line_ending_lf() {
    let input = "\n".as_bytes();
    let result = lex_line_ending(input, 0);

    assert_eq!(result, Some(1));
}

#[test]
fn test_lex_line_ending_crlf() {
    let input = "\r\n".as_bytes();
    let result = lex_line_ending(input, 0);

    assert_eq!(result, Some(2));
}

#[test]
fn test_lex_line_termination1() {
    let input = " ; comment\r\n".as_bytes();
    let result = lex_line_termination(input, 0);

    assert_eq!(result, Some(input.len()));
}

#[test]
fn test_lex_line_termination2() {
    let input = "; comment\r\n".as_bytes();
    let result = lex_line_termination(input, 0);

    assert_eq!(result, Some(input.len()));
}

#[test]
fn test_lex_line_termination3() {
    let input = "\r\n".as_bytes();
    let result = lex_line_termination(input, 0);

    assert_eq!(result, Some(2));
}

#[test]
fn test_lex_instruction1() {
    let input = "RET\n".as_bytes();
    let result = lex_instruction(input, 0);

    let expected_tokens = vec![Token::Instruction(name("RET"))];

    // the line ending is left for the termination rule
    assert_eq!(result, Some((expected_tokens, 3)));
}

#[test]
fn test_lex_instruction2() {
    let input = "JP $200\n".as_bytes();
    let result = lex_instruction(input, 0);

    let expected_tokens = vec![Token::Instruction(name("JP")), Token::NumericLiteral(0x200)];

    assert_eq!(result, Some((expected_tokens, 7)));
}

#[test]
fn test_lex_instruction3() {
    let input = "LD V0, V1\n".as_bytes();
    let result = lex_instruction(input, 0);

    let expected_tokens = vec![
        Token::Instruction(name("LD")),
        Token::Register(name("V0")),
        Token::Comma,
        Token::Register(name("V1")),
    ];

    assert_eq!(result, Some((expected_tokens, 9)));
}

#[test]
fn test_lex_instruction4() {
    let input = "LD V0, $FF\n".as_bytes();
    let result = lex_instruction(input, 0);

    let expected_tokens = vec![
        Token::Instruction(name("LD")),
        Token::Register(name("V0")),
        Token::Comma,
        Token::NumericLiteral(0xFF),
    ];

    assert_eq!(result, Some((expected_tokens, 10)));
}

#[test]
fn test_lex_instruction5() {
    let input = "JP #label\n".as_bytes();
    let result = lex_instruction(input, 0);

    let expected_tokens = vec![Token::Instruction(name("JP")), Token::LabelOperand(name("label"))];

    assert_eq!(result, Some((expected_tokens, 9)));
}

#[test]
fn test_lex_line1_lf() {
    let input = "\n".as_bytes();
    let result = lex_line(input, 0);

    assert_eq!(result, Some((Vec::new(), 1)));
}

#[test]
fn test_lex_line1_crlf() {
    let input = "\r\n".as_bytes();
    let result = lex_line(input, 0);

    assert_eq!(result, Some((Vec::new(), 2)));
}

#[test]
fn test_lex_line2() {
    let input = "\t\t\t\t  org $200\n".as_bytes();
    let result = lex_line(input, 0);

    let expected_directive = Token::Directive(name("org"));
    let expected_numeric = Token::NumericLiteral(0x200u32);

    assert_eq!(result, Some((vec![expected_directive, expected_numeric], input.len())));
}

#[test]
fn test_lex_line3() {
    let input = "label\n".as_bytes();
    let result = lex_line(input, 0);

    let expected_label = Token::Label(name("label"));

    assert_eq!(result, Some((vec![expected_label], input.len())));
}

#[test]
fn test_lex_line4() {
    let input = "\t\t LD V0, V1\n".as_bytes();
    let result = lex_line(input, 0);

    let expected_tokens = vec![
        Token::Instruction(name("LD")),
        Token::Register(name("V0")),
        Token::Comma,
        Token::Register(name("V1")),
    ];

    assert_eq!(result, Some((expected_tokens, input.len())));
}

#[test]
fn test_lex_line5() {
    let input = "label\t\t LD V0, V1\n".as_bytes();
    let result = lex_line(input, 0);

    let expected_tokens = vec![
        Token::Label(name("label")),
        Token::Instruction(name("LD")),
        Token::Register(name("V0")),
        Token::Comma,
        Token::Register(name("V1")),
    ];

    assert_eq!(result, Some((expected_tokens, input.len())));
}

#[test]
fn test_lex_lines1() {
    let input = "label\t\t LD V0, V1\n".as_bytes();
    let result = tokenize(input);

    let expected_tokens = vec![
        Token::Label(name("label")),
        Token::Instruction(name("LD")),
        Token::Register(name("V0")),
        Token::Comma,
        Token::Register(name("V1")),
    ];

    assert_eq!(result.unwrap(), expected_tokens);
}

#[test]
fn test_lex_lines2() {
    let input = "\t\t LD V0, V1\n".as_bytes();
    let result = tokenize(input);

    let expected_tokens = vec![
        Token::Instruction(name("LD")),
        Token::Register(name("V0")),
        Token::Comma,
        Token::Register(name("V1")),
    ];

    assert_eq!(result.unwrap(), expected_tokens);
}

#[test]
fn test_lex_lines3() {
    let input = "\t\t org $200\n".as_bytes();
    let result = tokenize(input);

    let expected_tokens = vec![Token::Directive(name("org")), Token::NumericLiteral(0x200)];

    assert_eq!(result.unwrap(), expected_tokens);
}

#[test]
fn test_lex_blank_line() {
    let input = "label1\t\tLD V0, $FF ; comment 1\n\nend\t\tJP #end ; comment 2\n".as_bytes();
    let result = tokenize(input);

    let expected_tokens = vec![
        Token::Label(name("label1")),
        Token::Instruction(name("LD")),
        Token::Register(name("V0")),
        Token::Comma,
        Token::NumericLiteral(0xFF),
        Token::Label(name("end")),
        Token::Instruction(name("JP")),
        Token::LabelOperand(name("end")),
    ];

    assert_eq!(result.unwrap(), expected_tokens);
}

#[test]
fn test_lex_registers_extended() {
    for register in ["[I]", "I", "B", "K"].iter() {
        let result = lex_registers(register.as_bytes(), 0);
        assert_eq!(result, Some((Token::Register(name(register)), register.len())));
    }
}

#[test]
fn test_lex_label_with_directive_line() {
    let input = "data  db $AB\n".as_bytes();
    let result = tokenize(input);

    let expected_tokens = vec![
        Token::Label(name("data")),
        Token::Directive(name("db")),
        Token::NumericLiteral(0xAB),
    ];

    assert_eq!(result.unwrap(), expected_tokens);
}

#[test]
fn test_lex_db_many_values() {
    let input = "  db 1 2 $F\n".as_bytes();
    let result = tokenize(input);

    let expected_tokens = vec![
        Token::Directive(name("db")),
        Token::NumericLiteral(1),
        Token::NumericLiteral(2),
        Token::NumericLiteral(0xF),
    ];

    assert_eq!(result.unwrap(), expected_tokens);
}

#[test]
fn test_lex_drw_three_operands() {
    let input = "  DRW V0, V1, $F\n".as_bytes();
    let result = tokenize(input);

    let expected_tokens = vec![
        Token::Instruction(name("DRW")),
        Token::Register(name("V0")),
        Token::Comma,
        Token::Register(name("V1")),
        Token::Comma,
        Token::NumericLiteral(0xF),
    ];

    assert_eq!(result.unwrap(), expected_tokens);
}

#[test]
fn test_lex_rejects_stray_byte() {
    assert!(tokenize("  !!\n".as_bytes()).is_err());
}

#[test]
fn test_lex_rejects_oversized_decimal() {
    // one past the largest 32-bit value
    assert!(tokenize("  JP 4294967296\n".as_bytes()).is_err());
}

#[test]
fn test_lex_accepts_largest_decimal() {
    let result = tokenize("  JP 4294967295\n".as_bytes()).unwrap();
    assert_eq!(
        result,
        vec![Token::Instruction(name("JP")), Token::NumericLiteral(0xFFFF_FFFF)]
    );
}

#[test]
fn test_lex_missing_final_newline() {
    let result = tokenize("  CLS".as_bytes()).unwrap();
    assert_eq!(result, vec![Token::Instruction(name("CLS"))]);
}

#[test]
fn test_token_predicates() {
    assert!(Token::Register(name("V5")).is_register());
    assert!(Token::Register(name("V5")).is_general_purpose_register());
    assert!(!Token::Register(name("DT")).is_general_purpose_register());
    assert!(!Token::NumericLiteral(3).is_register());
    assert!(Token::NumericLiteral(3).is_numeric_literal());
    assert!(Token::LabelOperand(name("x")).is_label_operand());
    assert!(!Token::Label(name("x")).is_label_operand());
}
