use silica::assembler::codegenerator::{CodeGenerator, CodegenError};
use silica::assembler::lexer::Token;

fn name(s: &str) -> Vec<u8> {
    s.as_bytes().to_vec()
}

#[test]
fn test_db_directive() {
    let expr = vec![
        Token::Directive(name("db")),
        Token::NumericLiteral(0x00),
        Token::NumericLiteral(0x01),
        Token::NumericLiteral(0x02),
        Token::NumericLiteral(0x03),
    ];

    let codegen = CodeGenerator::new();
    let opcodes = codegen.generate(vec![expr]).unwrap();

    assert_eq!(opcodes[0], 0x00);
    assert_eq!(opcodes[1], 0x01);
    assert_eq!(opcodes[2], 0x02);
    assert_eq!(opcodes[3], 0x03);
}

#[test]
fn test_jp_instruction() {
    let expr = vec![Token::Instruction(name("JP")), Token::NumericLiteral(0x200)];

    let codegen = CodeGenerator::new();
    let opcodes = codegen.generate(vec![expr]).unwrap();

    assert_eq!(opcodes[0], 0x12);
    assert_eq!(opcodes[1], 0x00);
}

#[test]
fn test_or() {
    let expr = vec![
        Token::Instruction(name("OR")),
        Token::Register(name("V0")),
        Token::Register(name("V1")),
    ];

    let codegen = CodeGenerator::new();
    let opcodes = codegen.generate(vec![expr]).unwrap();

    assert_eq!(opcodes[0], 0x80);
    assert_eq!(opcodes[1], 0x11);
}

#[test]
fn test_and() {
    let expr = vec![
        Token::Instruction(name("AND")),
        Token::Register(name("V0")),
        Token::Register(name("V1")),
    ];

    let codegen = CodeGenerator::new();
    let opcodes = codegen.generate(vec![expr]).unwrap();

    assert_eq!(opcodes[0], 0x80);
    assert_eq!(opcodes[1], 0x12);
}

#[test]
fn test_xor() {
    let expr = vec![
        Token::Instruction(name("XOR")),
        Token::Register(name("V0")),
        Token::Register(name("V1")),
    ];

    let codegen = CodeGenerator::new();
    let opcodes = codegen.generate(vec![expr]).unwrap();

    assert_eq!(opcodes[0], 0x80);
    assert_eq!(opcodes[1], 0x13);
}

#[test]
fn test_add1() {
    let expr = vec![
        Token::Instruction(name("ADD")),
        Token::Register(name("V0")),
        Token::Register(name("V1")),
    ];

    let codegen = CodeGenerator::new();
    let opcodes = codegen.generate(vec![expr]).unwrap();

    assert_eq!(opcodes[0], 0x80);
    assert_eq!(opcodes[1], 0x14);
}

#[test]
fn test_add2() {
    let expr = vec![
        Token::Instruction(name("ADD")),
        Token::Register(name("V0")),
        Token::NumericLiteral(0xFF),
    ];

    let codegen = CodeGenerator::new();
    let opcodes = codegen.generate(vec![expr]).unwrap();

    assert_eq!(opcodes[0], 0x70);
    assert_eq!(opcodes[1], 0xFF);
}

#[test]
fn test_add3() {
    let expr = vec![
        Token::Instruction(name("ADD")),
        Token::Register(name("I")),
        Token::Register(name("V0")),
    ];

    let codegen = CodeGenerator::new();
    let opcodes = codegen.generate(vec![expr]).unwrap();

    assert_eq!(opcodes[0], 0xF0);
    assert_eq!(opcodes[1], 0x1E);
}

#[test]
fn test_sub() {
    let expr = vec![
        Token::Instruction(name("SUB")),
        Token::Register(name("V0")),
        Token::Register(name("V1")),
    ];

    let codegen = CodeGenerator::new();
    let opcodes = codegen.generate(vec![expr]).unwrap();

    assert_eq!(opcodes[0], 0x80);
    assert_eq!(opcodes[1], 0x15);
}

#[test]
fn test_shr() {
    let expr = vec![
        Token::Instruction(name("SHR")),
        Token::Register(name("V0")),
        Token::Register(name("V1")),
    ];

    let codegen = CodeGenerator::new();
    let opcodes = codegen.generate(vec![expr]).unwrap();

    assert_eq!(opcodes[0], 0x80);
    assert_eq!(opcodes[1], 0x16);
}

#[test]
fn test_sh1() {
    let expr = vec![
        Token::Instruction(name("SHL")),
        Token::Register(name("V0")),
        Token::Register(name("V1")),
    ];

    let codegen = CodeGenerator::new();
    let opcodes = codegen.generate(vec![expr]).unwrap();

    assert_eq!(opcodes[0], 0x80);
    assert_eq!(opcodes[1], 0x1E);
}

#[test]
fn test_subn() {
    let expr = vec![
        Token::Instruction(name("SUBN")),
        Token::Register(name("V0")),
        Token::Register(name("V1")),
    ];

    let codegen = CodeGenerator::new();
    let opcodes = codegen.generate(vec![expr]).unwrap();

    assert_eq!(opcodes[0], 0x80);
    assert_eq!(opcodes[1], 0x17);
}

#[test]
fn test_skp() {
    let expr = vec![Token::Instruction(name("SKP")), Token::Register(name("V0"))];

    let codegen = CodeGenerator::new();
    let opcodes = codegen.generate(vec![expr]).unwrap();

    assert_eq!(opcodes[0], 0xE0);
    assert_eq!(opcodes[1], 0x9E);
}

#[test]
fn test_sknp() {
    let expr = vec![Token::Instruction(name("SKNP")), Token::Register(name("V0"))];

    let codegen = CodeGenerator::new();
    let opcodes = codegen.generate(vec![expr]).unwrap();

    assert_eq!(opcodes[0], 0xE0);
    assert_eq!(opcodes[1], 0xA1);
}

#[test]
fn test_rnd() {
    let expr = vec![
        Token::Instruction(name("RND")),
        Token::Register(name("V0")),
        Token::NumericLiteral(0xFF),
    ];

    let codegen = CodeGenerator::new();
    let opcodes = codegen.generate(vec![expr]).unwrap();

    assert_eq!(opcodes[0], 0xC0);
    assert_eq!(opcodes[1], 0xFF);
}

#[test]
fn test_drw() {
    let expr = vec![
        Token::Instruction(name("DRW")),
        Token::Register(name("V0")),
        Token::Register(name("V1")),
        Token::NumericLiteral(0xF),
    ];

    let codegen = CodeGenerator::new();
    let opcodes = codegen.generate(vec![expr]).unwrap();

    assert_eq!(opcodes[0], 0xD0);
    assert_eq!(opcodes[1], 0x1F);
}

#[test]
fn test_ld1() {
    let expr = vec![
        Token::Instruction(name("LD")),
        Token::Register(name("V0")),
        Token::Register(name("V1")),
    ];

    let codegen = CodeGenerator::new();
    let opcodes = codegen.generate(vec![expr]).unwrap();

    assert_eq!(opcodes[0], 0x80);
    assert_eq!(opcodes[1], 0x10);
}

#[test]
fn test_ld2() {
    let expr = vec![
        Token::Instruction(name("LD")),
        Token::Register(name("V0")),
        Token::NumericLiteral(0xFF),
    ];

    let codegen = CodeGenerator::new();
    let opcodes = codegen.generate(vec![expr]).unwrap();

    assert_eq!(opcodes[0], 0x60);
    assert_eq!(opcodes[1], 0xFF);
}

#[test]
fn test_ld3() {
    let expr = vec![
        Token::Instruction(name("LD")),
        Token::Register(name("I")),
        Token::NumericLiteral(0xFFF),
    ];

    let codegen = CodeGenerator::new();
    let opcodes = codegen.generate(vec![expr]).unwrap();

    assert_eq!(opcodes[0], 0xAF);
    assert_eq!(opcodes[1], 0xFF);
}

#[test]
fn test_ld4() {
    let expr = vec![
        Token::Instruction(name("LD")),
        Token::Register(name("V0")),
        Token::Register(name("DT")),
    ];

    let codegen = CodeGenerator::new();
    let opcodes = codegen.generate(vec![expr]).unwrap();

    assert_eq!(opcodes[0], 0xF0);
    assert_eq!(opcodes[1], 0x07);
}

#[test]
fn test_ld5() {
    let expr = vec![
        Token::Instruction(name("LD")),
        Token::Register(name("V0")),
        Token::Register(name("K")),
    ];

    let codegen = CodeGenerator::new();
    let opcodes = codegen.generate(vec![expr]).unwrap();

    assert_eq!(opcodes[0], 0xF0);
    assert_eq!(opcodes[1], 0x0A);
}

#[test]
fn test_ld6() {
    let expr = vec![
        Token::Instruction(name("LD")),
        Token::Register(name("DT")),
        Token::Register(name("V0")),
    ];

    let codegen = CodeGenerator::new();
    let opcodes = codegen.generate(vec![expr]).unwrap();

    assert_eq!(opcodes[0], 0xF0);
    assert_eq!(opcodes[1], 0x15);
}

#[test]
fn test_ld7() {
    let expr = vec![
        Token::Instruction(name("LD")),
        Token::Register(name("ST")),
        Token::Register(name("V0")),
    ];

    let codegen = CodeGenerator::new();
    let opcodes = codegen.generate(vec![expr]).unwrap();

    assert_eq!(opcodes[0], 0xF0);
    assert_eq!(opcodes[1], 0x18);
}

#[test]
fn test_ld8() {
    let expr = vec![
        Token::Instruction(name("LD")),
        Token::Register(name("F")),
        Token::Register(name("V0")),
    ];

    let codegen = CodeGenerator::new();
    let opcodes = codegen.generate(vec![expr]).unwrap();

    assert_eq!(opcodes[0], 0xF0);
    assert_eq!(opcodes[1], 0x29);
}

#[test]
fn test_ld9() {
    let expr = vec![
        Token::Instruction(name("LD")),
        Token::Register(name("B")),
        Token::Register(name("V0")),
    ];

    let codegen = CodeGenerator::new();
    let opcodes = codegen.generate(vec![expr]).unwrap();

    assert_eq!(opcodes[0], 0xF0);
    assert_eq!(opcodes[1], 0x33);
}

#[test]
fn test_ld10() {
    let expr = vec![
        Token::Instruction(name("LD")),
        Token::Register(name("[I]")),
        Token::Register(name("V0")),
    ];

    let codegen = CodeGenerator::new();
    let opcodes = codegen.generate(vec![expr]).unwrap();

    assert_eq!(opcodes[0], 0xF0);
    assert_eq!(opcodes[1], 0x55);
}

#[test]
fn test_ld11() {
    let expr = vec![
        Token::Instruction(name("LD")),
        Token::Register(name("V0")),
        Token::Register(name("[I]")),
    ];

    let codegen = CodeGenerator::new();
    let opcodes = codegen.generate(vec![expr]).unwrap();

    assert_eq!(opcodes[0], 0xF0);
    assert_eq!(opcodes[1], 0x65);
}

#[test]
fn test_ld_i_addr() {
    let expr = vec![
        Token::Instruction(name("LD")),
        Token::Register(name("I")),
        Token::LabelOperand(name("label")),
    ];

    let codegen = CodeGenerator::new();
    let opcodes = codegen.generate(vec![vec![Token::Label(name("label"))], expr]).unwrap();

    assert_eq!(opcodes[0], 0xA0);
    assert_eq!(opcodes[1], 0x00);
}

#[test]
fn test_duplicate_label_fails() {
    let codegen = CodeGenerator::new();
    let result = codegen.generate(vec![
        vec![Token::Label(name("spot"))],
        vec![Token::Instruction(name("CLS"))],
        vec![Token::Label(name("spot"))],
    ]);

    assert_eq!(result.unwrap_err(), CodegenError::DuplicateLabel);
}

#[test]
fn test_undefined_label_fails() {
    let codegen = CodeGenerator::new();
    let result = codegen.generate(vec![vec![
        Token::Instruction(name("JP")),
        Token::LabelOperand(name("nowhere")),
    ]]);

    assert_eq!(result.unwrap_err(), CodegenError::UndefinedLabel);
}

#[test]
fn test_sys_has_no_encoding() {
    let codegen = CodeGenerator::new();
    let result = codegen.generate(vec![vec![
        Token::Instruction(name("SYS")),
        Token::NumericLiteral(0x200),
    ]]);

    assert_eq!(result.unwrap_err(), CodegenError::InvalidEncoding);
}

#[test]
fn test_ld_gp_label_operand_has_no_encoding() {
    let codegen = CodeGenerator::new();
    let result = codegen.generate(vec![vec![
        Token::Instruction(name("LD")),
        Token::Register(name("V0")),
        Token::LabelOperand(name("x")),
    ]]);

    assert_eq!(result.unwrap_err(), CodegenError::InvalidEncoding);
}

#[test]
fn test_semantics_error_from_generate() {
    let codegen = CodeGenerator::new();
    let result = codegen.generate(vec![vec![
        Token::Instruction(name("CLS")),
        Token::NumericLiteral(0),
    ]]);

    assert_eq!(result.unwrap_err(), CodegenError::Semantics);
}

#[test]
fn test_write_beyond_address_space_fails() {
    let codegen = CodeGenerator::new();
    let result = codegen.generate(vec![
        vec![Token::Directive(name("org")), Token::NumericLiteral(0xFFF)],
        vec![Token::Instruction(name("CLS"))],
    ]);

    assert_eq!(result.unwrap_err(), CodegenError::AddressOutOfRange);
}

#[test]
fn test_db_at_last_address() {
    let codegen = CodeGenerator::new();
    let opcodes = codegen
        .generate(vec![
            vec![Token::Directive(name("org")), Token::NumericLiteral(0xFFF)],
            vec![Token::Directive(name("db")), Token::NumericLiteral(0xAB)],
        ])
        .unwrap();

    assert_eq!(opcodes.len(), 0x1000 - 0x200);
    assert_eq!(opcodes[opcodes.len() - 1], 0xAB);
}

#[test]
fn test_db_truncates_to_byte() {
    let codegen = CodeGenerator::new();
    let opcodes = codegen
        .generate(vec![vec![Token::Directive(name("db")), Token::NumericLiteral(257)]])
        .unwrap();

    assert_eq!(opcodes, vec![0x01]);
}
