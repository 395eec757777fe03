use silica::assembler::lexer::Token;
use silica::assembler::semantics::check;

fn name(s: &str) -> Vec<u8> {
    s.as_bytes().to_vec()
}

#[test]
fn test_check_label() {
    let expr = vec![Token::Label(name("CLS"))];
    check(&expr).unwrap();
}

#[test]
fn test_check_directive() {
    let expr = vec![Token::Directive(name("org")), Token::NumericLiteral(0x200)];
    check(&expr).unwrap();
}

#[test]
#[should_panic]
fn test_check_directive_only() {
    let expr = vec![Token::Directive(name("org"))];
    check(&expr).unwrap();
}

#[test]
#[should_panic]
fn test_check_directive_invalid_operand() {
    let expr = vec![Token::Directive(name("org")), Token::Register(name("V0"))];
    check(&expr).unwrap();
}

#[test]
fn test_check_instruction1() {
    let expr = vec![Token::Instruction(name("CLS"))];
    check(&expr).unwrap();
}

#[test]
#[should_panic]
fn test_check_instruction2() {
    let expr = vec![Token::Instruction(name("CLS")), Token::NumericLiteral(0)];
    check(&expr).unwrap();
}

#[test]
fn test_check_jp1() {
    let expr = vec![Token::Instruction(name("JP")), Token::NumericLiteral(0x200)];
    check(&expr).unwrap();
}

#[test]
#[should_panic]
fn test_check_jp2() {
    let expr = vec![Token::Instruction(name("JP")), Token::Label(name("start"))];
    check(&expr).unwrap();
}

#[test]
fn test_check_jr() {
    let expr = vec![Token::Instruction(name("JR")), Token::LabelOperand(name("start"))];
    check(&expr).unwrap();
}

#[test]
fn test_check_se1() {
    let expr = vec![
        Token::Instruction(name("SE")),
        Token::Register(name("V0")),
        Token::Register(name("V1")),
    ];
    check(&expr).unwrap();
}

#[test]
fn test_check_se2() {
    let expr = vec![
        Token::Instruction(name("SE")),
        Token::Register(name("V0")),
        Token::NumericLiteral(0xFF),
    ];
    check(&expr).unwrap();
}

#[test]
fn test_check_sne1() {
    let expr = vec![
        Token::Instruction(name("SNE")),
        Token::Register(name("V0")),
        Token::Register(name("V1")),
    ];
    check(&expr).unwrap();
}

#[test]
fn test_check_sne2() {
    let expr = vec![
        Token::Instruction(name("SNE")),
        Token::Register(name("V0")),
        Token::NumericLiteral(0xFF),
    ];
    check(&expr).unwrap();
}

#[test]
fn test_check_ld1() {
    let expr = vec![
        Token::Instruction(name("SNE")),
        Token::Register(name("V0")),
        Token::Register(name("V1")),
    ];
    check(&expr).unwrap();
}

#[test]
fn test_check_ld2() {
    let expr = vec![
        Token::Instruction(name("SNE")),
        Token::Register(name("V0")),
        Token::NumericLiteral(0xFF),
    ];
    check(&expr).unwrap();
}

#[test]
fn test_check_or() {
    let expr = vec![
        Token::Instruction(name("OR")),
        Token::Register(name("V0")),
        Token::Register(name("V1")),
    ];
    check(&expr).unwrap();
}

#[test]
fn test_check_and() {
    let expr = vec![
        Token::Instruction(name("AND")),
        Token::Register(name("V0")),
        Token::Register(name("V1")),
    ];
    check(&expr).unwrap();
}

#[test]
fn test_check_xor() {
    let expr = vec![
        Token::Instruction(name("XOR")),
        Token::Register(name("V0")),
        Token::Register(name("V1")),
    ];
    check(&expr).unwrap();
}

#[test]
fn test_check_add1() {
    let expr = vec![
        Token::Instruction(name("ADD")),
        Token::Register(name("V0")),
        Token::Register(name("V1")),
    ];
    check(&expr).unwrap();
}

#[test]
fn test_check_add2() {
    let expr = vec![
        Token::Instruction(name("ADD")),
        Token::Register(name("V0")),
        Token::NumericLiteral(1),
    ];
    check(&expr).unwrap();
}

#[test]
fn test_check_sub() {
    let expr = vec![
        Token::Instruction(name("SUB")),
        Token::Register(name("V0")),
        Token::Register(name("V1")),
    ];
    check(&expr).unwrap();
}

#[test]
fn test_check_subn() {
    let expr = vec![
        Token::Instruction(name("SUBN")),
        Token::Register(name("V0")),
        Token::Register(name("V1")),
    ];
    check(&expr).unwrap();
}

#[test]
fn test_check_shl() {
    let expr = vec![
        Token::Instruction(name("SHL")),
        Token::Register(name("V0")),
        Token::Register(name("V1")),
    ];
    check(&expr).unwrap();
}

#[test]
fn test_check_shr() {
    let expr = vec![
        Token::Instruction(name("SHR")),
        Token::Register(name("V0")),
        Token::Register(name("V1")),
    ];
    check(&expr).unwrap();
}

#[test]
fn test_check_rnd() {
    let expr = vec![
        Token::Instruction(name("RND")),
        Token::Register(name("V0")),
        Token::NumericLiteral(1),
    ];
    check(&expr).unwrap();
}

#[test]
fn test_check_drw() {
    let expr = vec![
        Token::Instruction(name("DRW")),
        Token::Register(name("V0")),
        Token::Register(name("V1")),
        Token::NumericLiteral(5),
    ];
    check(&expr).unwrap();
}

#[test]
fn test_check_skp() {
    let expr = vec![Token::Instruction(name("SKP")), Token::Register(name("V0"))];
    check(&expr).unwrap();
}

#[test]
fn test_check_sknp() {
    let expr = vec![Token::Instruction(name("SKNP")), Token::Register(name("V0"))];
    check(&expr).unwrap();
}

#[test]
fn test_check_db_many_values() {
    let expr = vec![
        Token::Directive(name("db")),
        Token::NumericLiteral(1),
        Token::NumericLiteral(2),
        Token::NumericLiteral(3),
    ];
    check(&expr).unwrap();
}

#[test]
fn test_check_ld_i_label_operand() {
    let expr = vec![
        Token::Instruction(name("LD")),
        Token::Register(name("I")),
        Token::LabelOperand(name("data")),
    ];
    check(&expr).unwrap();
}

#[test]
fn test_check_rejects_empty_expression() {
    let expr: Vec<Token> = vec![];
    assert!(check(&expr).is_err());
}

#[test]
fn test_check_rejects_comma_head() {
    let expr = vec![Token::Comma];
    assert!(check(&expr).is_err());
}

#[test]
fn test_check_rejects_db_with_register() {
    let expr = vec![
        Token::Directive(name("db")),
        Token::NumericLiteral(1),
        Token::Register(name("V0")),
    ];
    assert!(check(&expr).is_err());
}
