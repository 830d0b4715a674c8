use hack_assembler::code::Coder;
use hack_assembler::hack::{CInstruction, Comparison, Destination, Instruction, Jump, Value};
use hack_assembler::parse::{parse_lines, ParseError, Parser};

fn assemble(lines: &[&str]) -> Result<Vec<String>, ParseError> {
    let owned: Vec<String> = lines.iter().map(|s| s.to_string()).collect();
    parse_lines(owned).map(|instructions| instructions.iter().map(|i| i.code()).collect())
}

#[test]
fn a_instruction_constant() {
    assert_eq!(assemble(&["@5"]).unwrap(), vec!["0000000000000101".to_string()]);
}

#[test]
fn a_instruction_reserved_kbd() {
    assert_eq!(assemble(&["@KBD"]).unwrap(), vec!["0110000000000000".to_string()]);
}

#[test]
fn c_instruction_dest_comp() {
    assert_eq!(assemble(&["D=A"]).unwrap(), vec!["1110110000010000".to_string()]);
}

#[test]
fn c_instruction_comp_jump() {
    assert_eq!(assemble(&["0;JMP"]).unwrap(), vec!["1110101010000111".to_string()]);
}

#[test]
fn label_binds_to_next_instruction() {
    assert_eq!(
        assemble(&["(LOOP)", "@LOOP", "0;JMP"]).unwrap(),
        vec!["0000000000000000".to_string(), "1110101010000111".to_string()]
    );
}

#[test]
fn variables_allocate_from_sixteen() {
    assert_eq!(
        assemble(&["@i", "@i", "@j"]).unwrap(),
        vec![
            "0000000000010000".to_string(),
            "0000000000010000".to_string(),
            "0000000000010001".to_string()
        ]
    );
}

#[test]
fn c_instruction_all_three_fields() {
    assert_eq!(assemble(&["D=M;JNE"]).unwrap(), vec!["1111110000010101".to_string()]);
}

#[test]
fn comparison_codes_match_the_table() {
    let cases = [
        ("0", "0101010"),
        ("1", "0111111"),
        ("-1", "0111010"),
        ("D", "0001100"),
        ("A", "0110000"),
        ("!D", "0001101"),
        ("!A", "0110001"),
        ("-D", "0001111"),
        ("-A", "0110011"),
        ("D+1", "0011111"),
        ("A+1", "0110111"),
        ("D-1", "0001110"),
        ("A-1", "0110010"),
        ("D+A", "0000010"),
        ("D-A", "0010011"),
        ("A-D", "0000111"),
        ("D&A", "0000000"),
        ("D|A", "0010101"),
        ("M", "1110000"),
        ("!M", "1110001"),
        ("-M", "1110011"),
        ("M+1", "1110111"),
        ("M-1", "1110010"),
        ("D+M", "1000010"),
        ("D-M", "1010011"),
        ("M-D", "1000111"),
        ("D&M", "1000000"),
        ("D|M", "1010101"),
    ];
    for (token, code) in cases {
        let comparison: Comparison = Comparison::parse(token).unwrap();
        assert_eq!(comparison.code(), code);
    }
}

#[test]
fn destination_codes_match_the_table() {
    let cases = [
        ("M", "001"),
        ("D", "010"),
        ("DM", "011"),
        ("MD", "011"),
        ("A", "100"),
        ("AM", "101"),
        ("AD", "110"),
        ("DA", "110"),
        ("ADM", "111"),
    ];
    for (token, code) in cases {
        let destination: Destination = Destination::parse(token).unwrap();
        assert_eq!(destination.code(), code);
    }
    assert_eq!(Destination::Null.code(), "000");
}

#[test]
fn jump_codes_match_the_table() {
    let cases = [
        ("JGT", "001"),
        ("JEQ", "010"),
        ("JGE", "011"),
        ("JLT", "100"),
        ("JNE", "101"),
        ("JLE", "110"),
        ("JMP", "111"),
    ];
    for (token, code) in cases {
        let jump: Jump = Jump::parse(token).unwrap();
        assert_eq!(jump.code(), code);
    }
    assert_eq!(Jump::Null.code(), "000");
}

#[test]
fn reserved_symbols_are_preloaded() {
    let out = assemble(&[
        "@SP", "@LCL", "@ARG", "@THIS", "@THAT", "@R0", "@R7", "@R15", "@SCREEN",
    ])
    .unwrap();
    assert_eq!(out[0], "0000000000000000");
    assert_eq!(out[1], "0000000000000001");
    assert_eq!(out[2], "0000000000000010");
    assert_eq!(out[3], "0000000000000011");
    assert_eq!(out[4], "0000000000000100");
    assert_eq!(out[5], "0000000000000000");
    assert_eq!(out[6], "0000000000000111");
    assert_eq!(out[7], "0000000000001111");
    assert_eq!(out[8], "0100000000000000");
}

#[test]
fn comments_and_blanks_are_skipped() {
    let with_noise = assemble(&["// header", "", "   ", "  @5  ", "// trailing", ""]).unwrap();
    let bare = assemble(&["@5"]).unwrap();
    assert_eq!(with_noise, bare);
}

#[test]
fn inserting_labels_keeps_encodings() {
    let with_label = assemble(&["@3", "(SKIPPED)", "D=A"]).unwrap();
    let without = assemble(&["@3", "D=A"]).unwrap();
    assert_eq!(with_label, without);
}

#[test]
fn duplicate_label_latest_wins() {
    let out = assemble(&["(X)", "@1", "(X)", "@X"]).unwrap();
    assert_eq!(out, vec!["0000000000000001".to_string(), "0000000000000001".to_string()]);
}

#[test]
fn user_label_overrides_reserved_name() {
    let out = assemble(&["@1", "(R0)", "@R0"]).unwrap();
    assert_eq!(out[1], "0000000000000001");
}

#[test]
fn every_output_line_is_sixteen_bits() {
    let out = assemble(&["@32767", "(HERE)", "@HERE", "@fresh", "AD=D|M;JLE", "0;JMP"]).unwrap();
    for line in out {
        assert_eq!(line.len(), 16);
        assert!(line.chars().all(|c| c == '0' || c == '1'));
    }
}

#[test]
fn same_input_same_output() {
    let program = ["(LOOP)", "@LOOP", "D=D+1;JGT", "@temp", "0;JMP"];
    assert_eq!(assemble(&program).unwrap(), assemble(&program).unwrap());
}

#[test]
fn constant_at_the_range_limit() {
    assert_eq!(assemble(&["@32767"]).unwrap(), vec!["0111111111111111".to_string()]);
}

#[test]
fn constant_over_the_range_limit() {
    let err = assemble(&["@32768"]).unwrap_err();
    assert!(matches!(err, ParseError::InvalidInstruction(s) if s == "32768"));
}

#[test]
fn unknown_comparison_is_rejected() {
    let err = assemble(&["D=W"]).unwrap_err();
    assert!(matches!(err, ParseError::InvalidComparison(s) if s == "W"));
}

#[test]
fn unknown_destination_is_rejected() {
    let err = assemble(&["W=D"]).unwrap_err();
    assert!(matches!(err, ParseError::InvalidDestination(s) if s == "W"));
}

#[test]
fn unknown_jump_is_rejected() {
    let err = assemble(&["D;JXX"]).unwrap_err();
    assert!(matches!(err, ParseError::InvalidJump(s) if s == "JXX"));
}

#[test]
fn symbol_starting_with_digit_is_rejected() {
    let err = assemble(&["@1x"]).unwrap_err();
    assert!(matches!(err, ParseError::InvalidSymbol(s) if s == "1x"));
}

#[test]
fn empty_a_operand_is_rejected() {
    let err = assemble(&["@"]).unwrap_err();
    assert!(matches!(err, ParseError::InvalidSymbol(s) if s.is_empty()));
}

#[test]
fn empty_label_is_rejected() {
    let err = assemble(&["()"]).unwrap_err();
    assert!(matches!(err, ParseError::InvalidSymbol(s) if s.is_empty()));
}

#[test]
fn parse_error_in_pass_one_wins_over_range_error() {
    let err = assemble(&["@32768", "W=D"]).unwrap_err();
    assert!(matches!(err, ParseError::InvalidDestination(s) if s == "W"));
}

#[test]
fn symbol_names_allow_the_full_character_set() {
    let out = assemble(&["@_x", "@a.b$c:d9"]).unwrap();
    assert_eq!(out, vec!["0000000000010000".to_string(), "0000000000010001".to_string()]);
}

#[test]
fn c_instruction_new_keeps_its_fields() {
    let ci = CInstruction::new(Destination::AD, Comparison::DOrM, Jump::JLE);
    assert_eq!(ci.dest, Destination::AD);
    assert_eq!(ci.comp, Comparison::DOrM);
    assert_eq!(ci.jump, Jump::JLE);
    assert_eq!(ci.code(), "1111010101110110");
    assert_eq!(Instruction::C(ci).code(), "1111010101110110");
}

#[test]
fn a_instruction_value_encodes_fifteen_bits() {
    assert_eq!(Instruction::A(Value::Constant(24576)).code(), "0110000000000000");
    assert_eq!(Value::Constant(5).code(), "000000000000101");
}
