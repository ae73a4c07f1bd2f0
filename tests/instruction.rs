use surfer_cxxrtl::instruction::ConversionError;
use surfer_cxxrtl::instruction::I;

#[test]
fn decodes_sub() {
    assert_eq!(I::try_from(0x0123), Ok(I::SUB { rt: 3, ra: 1, rb: 2 }));
}

#[test]
fn decodes_moves() {
    assert_eq!(I::try_from(0x8AB5), Ok(I::MOVL { rt: 5, i: 0xAB }));
    assert_eq!(I::try_from(0x9FF1), Ok(I::MOVH { rt: 1, i: 0xFF }));
}

#[test]
fn decodes_jumps() {
    assert_eq!(I::try_from(0xE102), Ok(I::JZ { rt: 2, ra: 1 }));
    assert_eq!(I::try_from(0xE313), Ok(I::JNZ { rt: 3, ra: 3 }));
    assert_eq!(I::try_from(0xE120), Ok(I::JS { rt: 0, ra: 1 }));
    assert_eq!(I::try_from(0xE43F), Ok(I::JNS { rt: 15, ra: 4 }));
}

#[test]
fn decodes_memory_ops() {
    assert_eq!(I::try_from(0xF204), Ok(I::LD { rt: 4, ra: 2 }));
    assert_eq!(I::try_from(0xF011), Ok(I::ST { rt: 1, ra: 0 }));
}

#[test]
fn rejects_unknown_opcodes() {
    assert_eq!(I::try_from(0x1234), Err(ConversionError::UnknownOpcode(0x1234)));
    assert_eq!(I::try_from(0xE140), Err(ConversionError::UnknownOpcode(0xE140)));
    assert_eq!(I::try_from(0xF021), Err(ConversionError::UnknownOpcode(0xF021)));
}

#[test]
fn renders_assembly_text() {
    assert_eq!(I::SUB { rt: 1, ra: 2, rb: 3 }.to_text(), "sub r1, r2, r3");
    assert_eq!(I::MOVL { rt: 5, i: 138 }.to_text(), "movl r5, #138");
    assert_eq!(I::MOVH { rt: 10, i: 7 }.to_text(), "movh r10, #7");
    assert_eq!(I::JZ { rt: 2, ra: 1 }.to_text(), "jz r2, r1");
    assert_eq!(I::JNZ { rt: 3, ra: 3 }.to_text(), "jnz r3, r3");
    assert_eq!(I::JS { rt: 0, ra: 1 }.to_text(), "js r0, r1");
    assert_eq!(I::JNS { rt: 15, ra: 4 }.to_text(), "jns r15, r4");
    assert_eq!(I::LD { rt: 4, ra: 2 }.to_text(), "ld r4, r2");
    assert_eq!(I::ST { rt: 1, ra: 0 }.to_text(), "st r1, r0");
    assert_eq!(I::try_from(0x9FF1).unwrap().to_text(), "movh r1, #255");
    assert_eq!(I::try_from(0x8123).unwrap().to_text(), "movl r3, #18");
}
