//! End-to-end tests of the assembler: parsing, diagnostics, label
//! resolution and binary encoding.

use oxasm::program::{
    Assembler, AsmError, Instruction, OpInstr, Opcodes, Warning, WarningKind,
};

fn assembled(src: &str) -> Assembler {
    let mut asmb = Assembler::new();
    asmb.assemble(String::from(src)).expect("assembly should succeed");
    asmb
}

fn assembly_error(src: &str) -> AsmError {
    let mut asmb = Assembler::new();
    asmb.assemble(String::from(src))
        .expect_err("assembly should fail")
}

#[test]
fn new_assembler_is_empty() {
    let asmb = Assembler::new();
    assert_eq!(asmb.startaddr, 0);
    assert!(asmb.instructions.is_empty());
    assert!(asmb.warnings.is_empty());
}

#[test]
fn start_hex_with_prefix() {
    let asmb = assembled(".start 0x10");
    assert_eq!(asmb.startaddr, 16);
}

#[test]
fn start_hex_without_prefix() {
    // The address token is parsed base-16 whether or not it carries `0x`.
    let asmb = assembled(".start 10");
    assert_eq!(asmb.startaddr, 16);
}

#[test]
fn start_is_metadata_only() {
    let plain = assembled("jmp 0x1").emit().unwrap();
    let with_start = assembled(".start 0x10\njmp 0x1");
    assert_eq!(with_start.startaddr, 16);
    assert_eq!(with_start.emit().unwrap(), plain);
}

#[test]
fn end_to_end_example() {
    let asmb = assembled(".label start\njmp 0x5\ngoto start\n");
    let op = Opcodes::Jmp.byte();
    let bytes = asmb.emit().unwrap();
    assert_eq!(bytes, vec![op, 0x05, 0x00, 0x00, 0x00, op, 0x00, 0x00, 0x00, 0x00]);
}

#[test]
fn forward_reference_resolves() {
    // The goto encodes the offset of the marker: two 5-byte jumps before it.
    let asmb = assembled("goto end\njmp 0x1\n.label end");
    let op = Opcodes::Jmp.byte();
    let bytes = asmb.emit().unwrap();
    assert_eq!(bytes, vec![op, 10, 0, 0, 0, op, 0x01, 0, 0, 0]);
}

#[test]
fn backward_reference_resolves() {
    let asmb = assembled("jmp 0x1\n.label mid\njmp 0x2\ngoto mid");
    let op = Opcodes::Jmp.byte();
    let bytes = asmb.emit().unwrap();
    assert_eq!(
        bytes,
        vec![op, 1, 0, 0, 0, op, 2, 0, 0, 0, op, 5, 0, 0, 0]
    );
}

#[test]
fn marker_is_zero_width() {
    // Inserting a label between instructions changes no other offsets:
    // the emitted streams are byte-identical.
    let without = assembled("jmp 0x1\njmp 0x2").emit().unwrap();
    let with_marker = assembled("jmp 0x1\n.label here\njmp 0x2").emit().unwrap();
    assert_eq!(without, with_marker);
}

#[test]
fn reencoding_is_byte_identical() {
    let asmb = assembled(".label a\njmp 0xabc\ngoto a");
    let twin = asmb.clone();
    assert_eq!(asmb.emit().unwrap(), twin.emit().unwrap());
}

#[test]
fn unresolved_label_fails() {
    let asmb = assembled("goto missing");
    match asmb.emit() {
        Err(AsmError::UnresolvedLabel { name }) => assert_eq!(name, "missing"),
        other => panic!("expected an unresolved label, got {:?}", other),
    }
}

#[test]
fn duplicate_label_fails() {
    let asmb = assembled(".label a\njmp 0x1\n.label a\ngoto a");
    match asmb.emit() {
        Err(AsmError::DuplicateLabel { name }) => assert_eq!(name, "a"),
        other => panic!("expected a duplicate label, got {:?}", other),
    }
}

#[test]
fn unreferenced_duplicate_label_is_tolerated() {
    // Only labels that a goto references must be declared exactly once.
    let asmb = assembled(".label a\n.label a\njmp 0x1");
    let op = Opcodes::Jmp.byte();
    assert_eq!(asmb.emit().unwrap(), vec![op, 1, 0, 0, 0]);
}

#[test]
fn missing_operand_start() {
    match assembly_error(".start") {
        AsmError::MissingOperand { line } => assert_eq!(line, 1),
        other => panic!("expected a missing operand, got {:?}", other),
    }
}

#[test]
fn missing_operand_label() {
    assert!(matches!(
        assembly_error(".label"),
        AsmError::MissingOperand { line: 1 }
    ));
}

#[test]
fn missing_operand_goto() {
    assert!(matches!(
        assembly_error("goto"),
        AsmError::MissingOperand { line: 1 }
    ));
}

#[test]
fn missing_operand_jmp() {
    assert!(matches!(
        assembly_error("jmp"),
        AsmError::MissingOperand { line: 1 }
    ));
}

#[test]
fn malformed_number_start() {
    assert!(matches!(
        assembly_error(".start zz"),
        AsmError::MalformedNumber { line: 1 }
    ));
}

#[test]
fn malformed_number_bare_prefix() {
    assert!(matches!(
        assembly_error(".start 0x"),
        AsmError::MalformedNumber { line: 1 }
    ));
}

#[test]
fn malformed_number_jmp_trailing_junk() {
    // The jmp operand is the whole remainder of the line, so an embedded
    // space makes it unparsable.
    assert!(matches!(
        assembly_error("jmp 10 20"),
        AsmError::MalformedNumber { line: 1 }
    ));
}

#[test]
fn hex_overflow_is_malformed() {
    assert!(matches!(
        assembly_error(".start 100000000"),
        AsmError::MalformedNumber { line: 1 }
    ));
}

#[test]
fn error_reports_its_line() {
    match assembly_error("# comment\njmp 0x1\n.start") {
        AsmError::MissingOperand { line } => assert_eq!(line, 3),
        other => panic!("expected a missing operand, got {:?}", other),
    }
}

#[test]
fn fatal_error_leaves_assembler_untouched() {
    let mut asmb = Assembler::new();
    asmb.assemble(String::from(".start 0x2\njmp 0x1")).unwrap();
    let err = asmb
        .assemble(String::from(".label ok\n.start zz"))
        .expect_err("assembly should fail");
    assert!(matches!(err, AsmError::MalformedNumber { line: 2 }));
    assert_eq!(asmb.startaddr, 2);
    assert_eq!(asmb.instructions.len(), 1);
    assert!(asmb.warnings.is_empty());
}

#[test]
fn unknown_directive_warns_and_continues() {
    let asmb = assembled(".foo bar\njmp 0x1");
    assert_eq!(
        asmb.warnings,
        vec![Warning { line: 1, kind: WarningKind::UnknownDirective }]
    );
    assert_eq!(asmb.instructions.len(), 1);
}

#[test]
fn unknown_instruction_warns_and_continues() {
    let asmb = assembled("\nnop r1 r2\njmp 0x1\nhlt");
    assert_eq!(
        asmb.warnings,
        vec![
            Warning { line: 2, kind: WarningKind::UnknownInstruction },
            Warning { line: 4, kind: WarningKind::UnknownInstruction },
        ]
    );
    assert_eq!(asmb.instructions.len(), 1);
}

#[test]
fn comments_and_blank_lines_are_ignored() {
    let asmb = assembled("# a comment\n\n   \n\t# indented comment\n");
    assert!(asmb.instructions.is_empty());
    assert!(asmb.warnings.is_empty());
    assert_eq!(asmb.emit().unwrap(), Vec::<u8>::new());
}

#[test]
fn empty_source_is_ok() {
    let asmb = assembled("");
    assert!(asmb.instructions.is_empty());
    assert_eq!(asmb.emit().unwrap(), Vec::<u8>::new());
}

#[test]
fn leading_whitespace_is_trimmed() {
    let asmb = assembled("   .start 0x3\n\t jmp 0x4");
    assert_eq!(asmb.startaddr, 3);
    let op = Opcodes::Jmp.byte();
    assert_eq!(asmb.emit().unwrap(), vec![op, 4, 0, 0, 0]);
}

#[test]
fn windows_line_endings() {
    let asmb = assembled(".start 0x2\r\njmp 0x3\r\n");
    assert_eq!(asmb.startaddr, 2);
    let op = Opcodes::Jmp.byte();
    assert_eq!(asmb.emit().unwrap(), vec![op, 3, 0, 0, 0]);
}

#[test]
fn jmp_encodes_little_endian() {
    let asmb = assembled("jmp 0x12345678");
    let op = Opcodes::Jmp.byte();
    assert_eq!(asmb.emit().unwrap(), vec![op, 0x78, 0x56, 0x34, 0x12]);
}

#[test]
fn uppercase_hex_digits_accepted() {
    let asmb = assembled("jmp FF");
    let op = Opcodes::Jmp.byte();
    assert_eq!(asmb.emit().unwrap(), vec![op, 0xFF, 0, 0, 0]);
}

#[test]
fn goto_takes_remainder_verbatim() {
    // Everything after the first space is the label name, so it cannot
    // match a `.label` whose name is a single whitespace-delimited token.
    let asmb = assembled("goto a b\n.label a");
    match asmb.emit() {
        Err(AsmError::UnresolvedLabel { name }) => assert_eq!(name, "a b"),
        other => panic!("expected an unresolved label, got {:?}", other),
    }
}

#[test]
fn label_extra_tokens_ignored() {
    // `.label` takes only its second whitespace-delimited token as the name.
    let asmb = assembled(".label a extra\ngoto a");
    let op = Opcodes::Jmp.byte();
    assert_eq!(asmb.emit().unwrap(), vec![op, 0, 0, 0, 0]);
}

#[test]
fn assembling_twice_appends() {
    let mut asmb = Assembler::new();
    asmb.assemble(String::from("jmp 0x1")).unwrap();
    asmb.assemble(String::from("jmp 0x2")).unwrap();
    assert_eq!(asmb.instructions.len(), 2);
    let op = Opcodes::Jmp.byte();
    assert_eq!(asmb.emit().unwrap(), vec![op, 1, 0, 0, 0, op, 2, 0, 0, 0]);
}

#[test]
fn register_operation_encodes_four_bytes() {
    // The parser has no mnemonic for register operations yet; the encoder
    // still lays them out as opcode plus three register bytes.
    let asmb = Assembler {
        startaddr: 0,
        instructions: vec![
            Instruction::Op(OpInstr { op_type: Opcodes::Jmp, target: 1, src1: 2, src2: 3 }),
        ],
        warnings: vec![],
    };
    let op = Opcodes::Jmp.byte();
    assert_eq!(asmb.emit().unwrap(), vec![op, 1, 2, 3]);
}

#[test]
fn label_offset_skips_operation_bytes() {
    // A 4-byte operation before the marker shifts the resolved offset by 4.
    let mut asmb = Assembler {
        startaddr: 0,
        instructions: vec![
            Instruction::Op(OpInstr { op_type: Opcodes::Jmp, target: 1, src1: 2, src2: 3 }),
        ],
        warnings: vec![],
    };
    asmb.assemble(String::from(".label here\ngoto here")).unwrap();
    let op = Opcodes::Jmp.byte();
    assert_eq!(asmb.emit().unwrap(), vec![op, 1, 2, 3, op, 4, 0, 0, 0]);
}
