use silica::assembler::lexer::Token;
use silica::assembler::parser::parse;

fn name(s: &str) -> Vec<u8> {
    s.as_bytes().to_vec()
}

#[test]
fn test_parse_label() {
    let input = vec![Token::Label(name("JP"))];
    let result = parse(input).unwrap();

    assert_eq!(result, vec![vec![Token::Label(name("JP"))]]);
}

#[test]
fn test_parse_directive() {
    let input = vec![Token::Directive(name("org")), Token::NumericLiteral(0x200)];
    let result = parse(input).unwrap();

    assert_eq!(result, vec![vec![Token::Directive(name("org")), Token::NumericLiteral(0x200)]]);
}

#[test]
fn test_parse_instruction1() {
    let input = vec![Token::Instruction(name("CLS"))];
    let result = parse(input).unwrap();

    assert_eq!(result, vec![vec![Token::Instruction(name("CLS"))]]);
}

#[test]
fn test_parse_instruction2() {
    let input = vec![Token::Instruction(name("JP")), Token::NumericLiteral(0x200)];
    let result = parse(input).unwrap();

    assert_eq!(result, vec![vec![Token::Instruction(name("JP")), Token::NumericLiteral(0x200)]]);
}

#[test]
fn test_parse_instruction3() {
    let input = vec![
        Token::Instruction(name("LD")),
        Token::Register(name("V0")),
        Token::Comma,
        Token::Register(name("V1")),
    ];
    let result = parse(input).unwrap();

    assert_eq!(
        result,
        vec![vec![
            Token::Instruction(name("LD")),
            Token::Register(name("V0")),
            Token::Register(name("V1")),
        ]]
    );
}

#[test]
fn test_parse_instruction4() {
    let input = vec![
        Token::Instruction(name("LD")),
        Token::Register(name("V0")),
        Token::Comma,
        Token::NumericLiteral(5),
    ];
    let result = parse(input).unwrap();

    assert_eq!(
        result,
        vec![vec![
            Token::Instruction(name("LD")),
            Token::Register(name("V0")),
            Token::NumericLiteral(5),
        ]]
    );
}

#[test]
fn test_parse_instruction5() {
    let input = vec![Token::Instruction(name("JP")), Token::LabelOperand(name("end"))];
    let result = parse(input).unwrap();

    assert_eq!(result, vec![vec![Token::Instruction(name("JP")), Token::LabelOperand(name("end"))]]);
}

#[test]
fn test_parse1() {
    let input = vec![
        Token::Directive(name("org")),
        Token::NumericLiteral(0x200),
        Token::Label(name("entry")),
        Token::Instruction(name("CLS")),
    ];
    let result = parse(input).unwrap();

    assert_eq!(
        result,
        vec![
            vec![Token::Directive(name("org")), Token::NumericLiteral(0x200)],
            vec![Token::Label(name("entry"))],
            vec![Token::Instruction(name("CLS"))],
        ]
    );
}

#[test]
fn test_parse2() {
    let input = vec![
        Token::Label(name("label1")),
        Token::Instruction(name("LD")),
        Token::Register(name("V1")),
        Token::NumericLiteral(0xFF),
        Token::Label(name("label2")),
        Token::Instruction(name("LD")),
        Token::Register(name("V0")),
        Token::NumericLiteral(0x05),
        Token::Label(name("end")),
        Token::Instruction(name("JP")),
        Token::Register(name("#end")),
    ];
    let result = parse(input).unwrap();

    assert_eq!(
        result,
        vec![
            vec![Token::Label(name("label1"))],
            vec![
                Token::Instruction(name("LD")),
                Token::Register(name("V1")),
                Token::NumericLiteral(0xFF),
            ],
            vec![Token::Label(name("label2"))],
            vec![
                Token::Instruction(name("LD")),
                Token::Register(name("V0")),
                Token::NumericLiteral(0x05),
            ],
            vec![Token::Label(name("end"))],
            vec![Token::Instruction(name("JP")), Token::Register(name("#end"))],
        ]
    );
}

#[test]
fn test_parse_drw_three_operands() {
    let input = vec![
        Token::Instruction(name("DRW")),
        Token::Register(name("V0")),
        Token::Comma,
        Token::Register(name("V1")),
        Token::Comma,
        Token::NumericLiteral(0xF),
    ];
    let result = parse(input).unwrap();

    assert_eq!(
        result,
        vec![vec![
            Token::Instruction(name("DRW")),
            Token::Register(name("V0")),
            Token::Register(name("V1")),
            Token::NumericLiteral(0xF),
        ]]
    );
}

#[test]
fn test_parse_directive_many_numerics() {
    let input = vec![
        Token::Directive(name("db")),
        Token::NumericLiteral(1),
        Token::NumericLiteral(2),
        Token::NumericLiteral(3),
    ];
    let result = parse(input).unwrap();

    assert_eq!(
        result,
        vec![vec![
            Token::Directive(name("db")),
            Token::NumericLiteral(1),
            Token::NumericLiteral(2),
            Token::NumericLiteral(3),
        ]]
    );
}

#[test]
fn test_parse_rejects_dangling_comma() {
    // a comma can never begin an expression
    let input = vec![Token::Comma];
    assert!(parse(input).is_err());
}

#[test]
fn test_parse_rejects_directive_without_numeric() {
    let input = vec![Token::Directive(name("org")), Token::Label(name("x"))];
    assert!(parse(input).is_err());
}

#[test]
fn test_parse_rejects_third_operand_outside_drw() {
    let input = vec![
        Token::Instruction(name("SE")),
        Token::Register(name("V0")),
        Token::Comma,
        Token::Register(name("V1")),
        Token::Comma,
        Token::Register(name("V2")),
    ];
    assert!(parse(input).is_err());
}
