use ch8asm::assemble::{assemble_instruction, AssembleError};
use ch8asm::parse::{
    parse_asm_args, parse_raw, parse_valid_addr, parse_valid_byte, parse_valid_nibble,
    AsmArgParseError, AsmArgument,
};

fn enc(line: &str) -> Result<u16, AssembleError> {
    assemble_instruction(line)
}

#[test]
fn register_tokens_parse_in_any_case() {
    let digits = "0123456789ABCDEF";
    for (n, c) in digits.chars().enumerate() {
        for prefix in ["V", "v"] {
            for d in [c.to_string(), c.to_ascii_lowercase().to_string()] {
                let token = format!("{}{}", prefix, d);
                let args = parse_asm_args(&[token.as_str()]).unwrap();
                assert_eq!(args, vec![AsmArgument::Register(n as u8)]);
            }
        }
    }
}

#[test]
fn malformed_register_tokens_fail() {
    for token in ["VG", "V", "V12", "vx"] {
        match parse_asm_args(&[token]) {
            Err(AsmArgParseError::InvalidRegister(s)) => assert_eq!(s, token),
            other => panic!("unexpected result for {}: {:?}", token, other),
        }
    }
}

#[test]
fn named_operands_parse() {
    let args = parse_asm_args(&["K", "i", "[I]", "dT", "St", "f", "B"]).unwrap();
    assert_eq!(
        args,
        vec![
            AsmArgument::AnyKey,
            AsmArgument::IPointer,
            AsmArgument::IRange,
            AsmArgument::DelayTimer,
            AsmArgument::SoundTimer,
            AsmArgument::Sprite,
            AsmArgument::Bcd,
        ]
    );
}

#[test]
fn numbers_parse_in_three_bases() {
    let args = parse_asm_args(&["0x1F", "0b101", "42", "65535"]).unwrap();
    assert_eq!(
        args,
        vec![
            AsmArgument::Numeric(0x1F),
            AsmArgument::Numeric(5),
            AsmArgument::Numeric(42),
            AsmArgument::Numeric(65535),
        ]
    );
}

#[test]
fn bad_numbers_carry_the_token() {
    for token in ["0x", "0xZZ", "65536", "12a", "0b102"] {
        match parse_asm_args(&["1", token]) {
            Err(AsmArgParseError::NotANumber(e)) => assert_eq!(e.arg, token),
            other => panic!("unexpected result for {}: {:?}", token, other),
        }
    }
}

#[test]
fn range_checked_projections() {
    assert_eq!(parse_valid_addr(&AsmArgument::Numeric(0xFFF)).unwrap(), 0xFFF);
    match parse_valid_addr(&AsmArgument::Numeric(0x1000)) {
        Err(AsmArgParseError::InvalidAddress(s)) => assert_eq!(s, "4096"),
        other => panic!("unexpected: {:?}", other),
    }
    assert_eq!(parse_valid_byte(&AsmArgument::Numeric(255)).unwrap(), 255);
    match parse_valid_byte(&AsmArgument::Numeric(256)) {
        Err(AsmArgParseError::InvalidByte(s)) => assert_eq!(s, "256"),
        other => panic!("unexpected: {:?}", other),
    }
    assert_eq!(parse_valid_nibble(&AsmArgument::Numeric(15)).unwrap(), 15);
    match parse_valid_nibble(&AsmArgument::Numeric(16)) {
        Err(AsmArgParseError::InvalidNibble(s)) => assert_eq!(s, "16"),
        other => panic!("unexpected: {:?}", other),
    }
}

#[test]
fn raw_literals() {
    assert_eq!(parse_raw(&["0xFF0F"]).unwrap(), 0xFF0F);
    match parse_raw(&["0x12", "34"]) {
        Err(AsmArgParseError::InvalidRaw(s)) => assert_eq!(s, "0x12 34"),
        other => panic!("unexpected: {:?}", other),
    }
    match parse_raw(&["12"]) {
        Err(AsmArgParseError::InvalidRaw(s)) => assert_eq!(s, "12"),
        other => panic!("unexpected: {:?}", other),
    }
    assert_eq!(enc("0x1234"), Ok(0x1234));
    assert_eq!(enc("0x10000"), Err(AssembleError::InvalidArg));
    assert_eq!(enc("0x12 0x34"), Err(AssembleError::UnknownOp));
}

#[test]
fn byte_operands_are_range_checked() {
    for m in ["LD", "SE", "SNE", "ADD", "RND", "ld", "Rnd"] {
        assert_eq!(enc(&format!("{} V1, 256", m)), Err(AssembleError::InvalidArg), "{}", m);
        assert!(enc(&format!("{} V1, 255", m)).is_ok(), "{}", m);
    }
    assert_eq!(enc("LD V1, 255"), Ok(0x61FF));
    assert_eq!(enc("SE V1, 255"), Ok(0x31FF));
    assert_eq!(enc("SNE V1, 255"), Ok(0x41FF));
    assert_eq!(enc("ADD V1, 255"), Ok(0x71FF));
    assert_eq!(enc("RND V1, 255"), Ok(0xC1FF));
}

#[test]
fn decorative_commas_do_not_change_the_opcode() {
    assert_eq!(enc("LD V3, 0x45"), Ok(0x6345));
    assert_eq!(enc("LD v3, 0x45,"), Ok(0x6345));
}

#[test]
fn jump_forms() {
    assert_eq!(enc("JP 0x300"), Ok(0x1300));
    assert_eq!(enc("JP V0, 0x300"), Ok(0xB300));
    assert_eq!(enc("JP V1, 0x300"), Err(AssembleError::InvalidArg));
    assert_eq!(enc("JP"), Err(AssembleError::MissingArgs));
    assert_eq!(enc("JP V0, 1, 2"), Err(AssembleError::ExtraArgs));
    assert_eq!(enc("JP 0x1000"), Err(AssembleError::InvalidArg));
}

#[test]
fn every_load_form() {
    assert_eq!(enc("LD V1, V2"), Ok(0x8120));
    assert_eq!(enc("LD I, 0x123"), Ok(0xA123));
    assert_eq!(enc("LD V4, DT"), Ok(0xF407));
    assert_eq!(enc("LD V4, K"), Ok(0xF40A));
    assert_eq!(enc("LD DT, V5"), Ok(0xF515));
    assert_eq!(enc("LD ST, V5"), Ok(0xF518));
    assert_eq!(enc("LD F, V6"), Ok(0xF629));
    assert_eq!(enc("LD B, V7"), Ok(0xF733));
    assert_eq!(enc("LD [I], V8"), Ok(0xF855));
    assert_eq!(enc("LD V9, [I]"), Ok(0xF965));
    assert_eq!(enc("LD K, V1"), Err(AssembleError::InvalidArg));
    assert_eq!(enc("LD V1"), Err(AssembleError::MissingArgs));
    assert_eq!(enc("LD V1, V2, V3"), Err(AssembleError::ExtraArgs));
}

#[test]
fn remaining_operations() {
    assert_eq!(enc("CLS"), Ok(0x00E0));
    assert_eq!(enc("ret"), Ok(0x00EE));
    assert_eq!(enc("CLS V1"), Err(AssembleError::ExtraArgs));
    assert_eq!(enc("SYS 0x123"), Ok(0x0123));
    assert_eq!(enc("CALL 0x456"), Ok(0x2456));
    assert_eq!(enc("Call V1"), Err(AssembleError::InvalidArg));
    assert_eq!(enc("SE VA, VB"), Ok(0x5AB0));
    assert_eq!(enc("SNE VA, VB"), Ok(0x9AB0));
    assert_eq!(enc("ADD VA, VB"), Ok(0x8AB4));
    assert_eq!(enc("ADD I, VC"), Ok(0xFC1E));
    assert_eq!(enc("OR V1, V2"), Ok(0x8121));
    assert_eq!(enc("AND V1, V2"), Ok(0x8122));
    assert_eq!(enc("XOR V1, V2"), Ok(0x8123));
    assert_eq!(enc("SUB V1, V2"), Ok(0x8125));
    assert_eq!(enc("SUBN V1, V2"), Ok(0x8127));
    assert_eq!(enc("SHR V1"), Ok(0x8106));
    assert_eq!(enc("SHR V1, V2"), Ok(0x8126));
    assert_eq!(enc("SHL V1"), Ok(0x810E));
    assert_eq!(enc("SHL V1, V2"), Ok(0x812E));
    assert_eq!(enc("SHL"), Err(AssembleError::MissingArgs));
    assert_eq!(enc("DRW V1, V2, 5"), Ok(0xD125));
    assert_eq!(enc("DRW V1, V2, 16"), Err(AssembleError::InvalidArg));
    assert_eq!(enc("SKP V3"), Ok(0xE39E));
    assert_eq!(enc("SKNP V3"), Ok(0xE3A1));
    assert_eq!(enc("MOV V1, V2"), Err(AssembleError::UnknownOp));
    assert_eq!(enc("OR V1, 2"), Err(AssembleError::InvalidArg));
}

#[test]
fn operand_errors_become_invalid_arg() {
    let e = AssembleError::from(AsmArgParseError::InvalidByte("256".to_string()));
    assert_eq!(e, AssembleError::InvalidArg);
}
