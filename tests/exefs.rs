use spell_bubble_mod_tool::exefs::{
    AArch64AssemblyOpCode, AArch64Instruction, InstructionParseError, InstructionPatch,
};

#[test]
fn test_patch_instruction() {
    let ip = InstructionPatch {
        offset: 0,
        instruction: AArch64Instruction::parse("cmp w20, #0x110").unwrap(),
        override_patch: false,
    };

    assert_eq!(ip.patch_immediate(5), 0x7104569F);
    assert_eq!(ip.patch_immediate(16), 0x7104829F);
}

#[test]
fn test_b_instruction() {
    let ip = InstructionPatch {
        offset: 0,
        instruction: AArch64Instruction::parse("B          0xFC").unwrap(),
        override_patch: true,
    };

    assert_eq!(ip.patch_immediate(5), 0x1400003F);
}

#[test]
fn parse_reads_fields() {
    let i = AArch64Instruction::parse("MOV W3, #42").unwrap();
    assert_eq!(i.op_code, AArch64AssemblyOpCode::MOV);
    assert_eq!(i.w_register_id, 3);
    assert_eq!(i.immediate, 42);
    assert_eq!(i.to_bytes(), 0x52800000 | 3 | (42 << 5));
}

#[test]
fn parse_errors() {
    assert_eq!(
        AArch64Instruction::parse("cmp w1"),
        Err(InstructionParseError::MissingOperand)
    );
    assert_eq!(
        AArch64Instruction::parse("add w1, #1"),
        Err(InstructionParseError::InvalidOpCode)
    );
    assert_eq!(
        AArch64Instruction::parse("cmp x1, #1"),
        Err(InstructionParseError::InvalidRegister)
    );
    assert_eq!(
        AArch64Instruction::parse("cmp w1, 1"),
        Err(InstructionParseError::InvalidNumber)
    );
    assert_eq!(
        AArch64Instruction::parse("b 0x10000"),
        Err(InstructionParseError::InvalidNumber)
    );
}

#[test]
fn patch_immediate_wraps_below_zero() {
    let ip = InstructionPatch {
        offset: 0,
        instruction: AArch64Instruction::parse("mov w0, #0x1").unwrap(),
        override_patch: false,
    };
    assert_eq!(ip.patch_immediate(-2), 0x52800000 | (0xFFFF << 5));
}
