use silica::assembler::codegenerator::CodegenError;
use silica::assembler::{assemble, AssemblerError};

fn run(src: &str) -> Vec<u8> {
    assemble(src.as_bytes().to_vec()).unwrap()
}

// The concrete scenarios: the first emitted bytes of small programs.

#[test]
fn scenario_cls() {
    assert_eq!(run("  org $200\n  CLS\n"), vec![0x00, 0xE0]);
}

#[test]
fn scenario_jp_absolute() {
    assert_eq!(run("  org $200\n  JP $200\n"), vec![0x12, 0x00]);
}

#[test]
fn scenario_ld_then_add() {
    assert_eq!(
        run("  org $200\n  LD V0, $FF\n  ADD V0, V1\n"),
        vec![0x60, 0xFF, 0x80, 0x14]
    );
}

#[test]
fn scenario_drw() {
    assert_eq!(run("  org $200\n  DRW V0, V1, $F\n"), vec![0xD0, 0x1F]);
}

#[test]
fn scenario_jp_backward_label() {
    assert_eq!(run("  org $200\nloop  JP #loop\n"), vec![0x12, 0x00]);
}

#[test]
fn scenario_ld_i_forward_label() {
    assert_eq!(
        run("  org $200\n  LD I, #data\ndata  db $AB\n"),
        vec![0xA2, 0x02, 0xAB]
    );
}

// Round-trip determinism: the image is a function of the input.

#[test]
fn determinism_same_input_same_bytes() {
    let src = "  org $200\n  LD V0, $FF\n  db 1 2 3\n";
    assert_eq!(run(src), run(src));
}

// Label position invariance across blank lines and comments.

#[test]
fn blank_lines_and_comments_do_not_change_bytes() {
    let plain = "  org $200\nstart\n  LD V0, $FF\n  JP #start\n";
    let noisy = "\n; header comment\n  org $200 ; load address\n\nstart\n\n\n  LD V0, $FF\n  JP #start ; loop\n\n";
    assert_eq!(run(plain), run(noisy));
}

#[test]
fn crlf_and_lf_give_the_same_bytes() {
    assert_eq!(run("  org $200\r\n  CLS\r\n"), run("  org $200\n  CLS\n"));
}

// Forward-reference equivalence: a label used before its definition
// encodes the same bytes as the same address written directly, or as
// the label defined first at the same address.

#[test]
fn forward_reference_matches_numeric_address() {
    let with_label = "  org $200\n  JP #end\nend  RET\n";
    let with_number = "  org $200\n  JP $202\nend  RET\n";
    assert_eq!(run(with_label), vec![0x12, 0x02, 0x00, 0xEE]);
    assert_eq!(run(with_label), run(with_number));
}

#[test]
fn forward_and_backward_definition_agree() {
    let forward = "  org $200\n  JP #end\nend  RET\n";
    let backward = "  org $202\nend  RET\n  org $200\n  JP #end\n";
    assert_eq!(run(forward), run(backward));
}

// Duplicate labels.

#[test]
fn duplicate_label_is_rejected() {
    let result = assemble("one\n  CLS\none\n".as_bytes().to_vec());
    assert!(matches!(
        result.unwrap_err(),
        AssemblerError::Codegen(CodegenError::DuplicateLabel)
    ));
}

// Idempotence of `org`.

#[test]
fn org_twice_is_org_once() {
    let twice = "  org $200\n  org $200\n  LD V0, $FF\n";
    let once = "  org $200\n  LD V0, $FF\n";
    assert_eq!(run(twice), run(once));
}

// Address counter arithmetic: two bytes per instruction, one per
// `db` value, nothing for a label.

#[test]
fn counter_advances_by_instruction_and_db_sizes() {
    let src = "  org $200\n  CLS\n  db 1 2 3\nhere\n  JP #here\n";
    assert_eq!(run(src), vec![0x00, 0xE0, 0x01, 0x02, 0x03, 0x12, 0x05]);
}

// Image trimming.

#[test]
fn image_below_load_address_is_returned_untrimmed() {
    assert_eq!(run("  db 1 2\n"), vec![0x01, 0x02]);
}

#[test]
fn bytes_below_load_address_are_dropped_when_image_reaches_it() {
    // bytes at 0x1FE and 0x1FF fall away; the byte at 0x200 remains
    assert_eq!(run("  org $1FE\n  db $AA $BB $CC\n"), vec![0xCC]);
}

#[test]
fn unwritten_bytes_are_zero() {
    let image = run("  org $200\n  CLS\n  org $206\n  RET\n");
    assert_eq!(image, vec![0x00, 0xE0, 0x00, 0x00, 0x00, 0x00, 0x00, 0xEE]);
}

// Numeric literal forms.

#[test]
fn decimal_and_hex_literals_agree() {
    assert_eq!(run("  LD V0, 255\n"), run("  LD V0, $FF\n"));
}

#[test]
fn immediates_are_truncated_to_field_width() {
    // a 12-bit address keeps its low 12 bits, an 8-bit immediate its
    // low 8
    assert_eq!(run("  JP $1234\n"), vec![0x12, 0x34]);
    assert_eq!(run("  LD V0, $123\n"), vec![0x60, 0x23]);
}

// Errors by stage.

#[test]
fn stray_bytes_fail_in_the_lexer() {
    let result = assemble("  @@@\n".as_bytes().to_vec());
    assert!(matches!(result.unwrap_err(), AssemblerError::Lexer(_)));
}

#[test]
fn leftover_tokens_fail_in_the_parser() {
    let result = assemble("  SE V0, V1, V2\n".as_bytes().to_vec());
    assert!(matches!(result.unwrap_err(), AssemblerError::Parser(_)));
}

#[test]
fn wrong_arity_fails_semantic_validation() {
    let result = assemble("  CLS V0\n".as_bytes().to_vec());
    assert!(matches!(
        result.unwrap_err(),
        AssemblerError::Codegen(CodegenError::Semantics)
    ));
}

#[test]
fn unresolved_label_fails_in_pass_two() {
    let result = assemble("  JP #nowhere\n".as_bytes().to_vec());
    assert!(matches!(
        result.unwrap_err(),
        AssemblerError::Codegen(CodegenError::UndefinedLabel)
    ));
}

#[test]
fn sys_fails_with_invalid_encoding() {
    let result = assemble("  SYS $200\n".as_bytes().to_vec());
    assert!(matches!(
        result.unwrap_err(),
        AssemblerError::Codegen(CodegenError::InvalidEncoding)
    ));
}

#[test]
fn write_outside_the_address_space_is_an_error() {
    let result = assemble("  org $FFF\n  CLS\n".as_bytes().to_vec());
    assert!(matches!(
        result.unwrap_err(),
        AssemblerError::Codegen(CodegenError::AddressOutOfRange)
    ));
}

#[test]
fn empty_input_gives_empty_image() {
    assert_eq!(run(""), Vec::<u8>::new());
}
