use ch8asm::assemble::assemble_instruction;
use ch8asm::parse::AsmArgParseError;
use ch8asm::preprocess::{
    evaluate_memory_offsets, evaluate_sprites, preprocess, PreprocessedInstruction,
    PreprocessingError,
};
use ch8asm::{assemble_program, opcode_bytes, Config, InputConfig, OutputConfig, RunError};

fn texts(lines: &[PreprocessedInstruction]) -> Vec<String> {
    lines.iter().map(|l| l.as_str().to_string()).collect()
}

fn pre(src: &str) -> Result<Vec<String>, PreprocessingError> {
    preprocess(src).map(|v| texts(&v))
}

#[test]
fn cleaning_drops_comments_and_blank_lines() {
    let lines = pre("; header\n\n  CLS   ; clear\r\n\t RET\n   \n").unwrap();
    assert_eq!(lines, vec!["CLS", "RET"]);
}

#[test]
fn alias_is_substituted() {
    let lines = pre("alias FOO V2\nLD FOO, 0x10").unwrap();
    assert_eq!(lines, vec!["LD V2 0x10"]);
    assert_eq!(assemble_instruction(&lines[0]), Ok(0x6210));
}

#[test]
fn label_is_resolved() {
    let lines = pre("start:\nJP start").unwrap();
    assert_eq!(lines, vec!["JP 0x200"]);
    assert_eq!(assemble_instruction(&lines[0]), Ok(0x1200));
}

#[test]
fn labels_count_only_instructions() {
    let lines = pre("CLS\na:\nb:\nRET\nJP b\nc:\nJP c,").unwrap();
    assert_eq!(lines, vec!["CLS", "RET", "JP 0x202", "JP 0x206"]);
}

#[test]
fn sprite_becomes_label_and_words() {
    let lines = vec![
        PreprocessedInstruction::Unchanged("sprite S"),
        PreprocessedInstruction::Unchanged("0xFF"),
        PreprocessedInstruction::Unchanged("0x0F"),
        PreprocessedInstruction::Unchanged("endsprite"),
    ];
    let out = evaluate_sprites(lines).unwrap();
    assert_eq!(texts(&out), vec!["S:", "0xFF0F"]);
}

#[test]
fn odd_sprite_is_padded_and_referenced() {
    let lines = pre("LD I, S\nsprite S\n0b1\n255\n3\nendsprite").unwrap();
    assert_eq!(lines, vec!["LD I, 0x202", "0x1FF", "0x300"]);
}

#[test]
fn duplicate_alias_is_rejected() {
    match pre("alias A 1\nCLS\nalias A 2") {
        Err(PreprocessingError::ReusedAlias(l)) => assert_eq!(l, "alias A 2"),
        other => panic!("unexpected: {:?}", other),
    }
}

#[test]
fn alias_declaration_errors() {
    assert!(matches!(pre("alias A"), Err(PreprocessingError::TooFewAliasArgs(_))));
    assert!(matches!(pre("alias A 1 2"), Err(PreprocessingError::TooManyAliasArgs(_))));
    assert!(matches!(pre("alias LD 1"), Err(PreprocessingError::ReservedAlias(_))));
}

#[test]
fn sprite_declaration_errors() {
    assert!(matches!(pre("sprite\nendsprite"), Err(PreprocessingError::TooFewSpriteArgs(_))));
    assert!(matches!(pre("sprite A B\nendsprite"), Err(PreprocessingError::TooManySpriteArgs(_))));
    assert!(matches!(pre("sprite A\n0x1"), Err(PreprocessingError::UnclosedSprite(_))));
    let mut big = String::from("sprite A\n");
    for _ in 0..16 {
        big.push_str("0x1\n");
    }
    big.push_str("endsprite");
    assert!(matches!(pre(&big), Err(PreprocessingError::OversizedSprite(_))));
    match pre("sprite A\n0x100\nendsprite") {
        Err(PreprocessingError::InvalidSpriteByte(AsmArgParseError::InvalidByte(s))) => assert_eq!(s, "256"),
        other => panic!("unexpected: {:?}", other),
    }
}

#[test]
fn fifteen_byte_sprite_is_accepted() {
    let mut src = String::from("sprite A\n");
    for _ in 0..15 {
        src.push_str("0x1\n");
    }
    src.push_str("endsprite");
    let lines = pre(&src).unwrap();
    assert_eq!(lines.len(), 8);
    assert_eq!(lines[7], "0x100");
}

#[test]
fn label_declaration_errors() {
    assert!(matches!(pre("my label:"), Err(PreprocessingError::InvalidLabel(_))));
    assert!(matches!(pre("RET:"), Err(PreprocessingError::ReservedLabel(_))));
    assert!(matches!(pre("a:\nCLS\na:"), Err(PreprocessingError::ReusedLabel(_))));
}

#[test]
fn offsets_follow_the_program() {
    let lines = pre("LD I, #0\nLD V0, #4\nx:\nCLS").unwrap();
    assert_eq!(lines, vec!["LD I, 518", "LD V0, 522", "CLS"]);
    assert!(matches!(pre("LD I, #"), Err(PreprocessingError::InvalidOffset(_))));
    assert!(matches!(pre("LD I, #x1"), Err(PreprocessingError::InvalidOffset(_))));
}

#[test]
fn offset_pass_is_idempotent() {
    let lines = vec![
        PreprocessedInstruction::Unchanged("LD I, #2 ; x"),
        PreprocessedInstruction::Unchanged("CLS"),
    ];
    let once = evaluate_memory_offsets(lines).unwrap();
    assert_eq!(texts(&once), vec!["LD I, 518 ; x", "CLS"]);
    let twice = evaluate_memory_offsets(once).unwrap();
    assert_eq!(texts(&twice), vec!["LD I, 518 ; x", "CLS"]);
}

#[test]
fn whole_program_assembles_to_bytes() {
    let ops = assemble_program("alias X V1\nloop:\nLD X, 2\nJP loop").unwrap();
    assert_eq!(ops, vec![0x6102, 0x1200]);
    assert_eq!(opcode_bytes(&ops), vec![0x61, 0x02, 0x12, 0x00]);
    assert!(matches!(assemble_program("FOO"), Err(RunError::Assemble(_))));
    assert!(matches!(assemble_program("alias"), Err(RunError::Preprocessing(_))));
}

#[test]
fn config_from_paths() {
    let c = Config::make(Some("in.asm".to_string()), None);
    assert!(matches!(c.input_config, InputConfig::File(ref f) if f == "in.asm"));
    assert!(matches!(c.output_config, OutputConfig::Stdout));
    let c = Config::make(None, Some("out.ch8".to_string()));
    assert!(matches!(c.input_config, InputConfig::Stdin));
    assert!(matches!(c.output_config, OutputConfig::File(ref f) if f == "out.ch8"));
}

#[test]
fn lines_convert_and_deref() {
    let line = PreprocessedInstruction::from("CLS");
    assert!(matches!(line, PreprocessedInstruction::Unchanged("CLS")));
    assert_eq!(&*line, "CLS");
    assert_eq!(assemble_instruction(&line), Ok(0x00E0));
}
