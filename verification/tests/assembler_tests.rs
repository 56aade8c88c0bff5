use sisprog::AsmError;
use sisprog::Assembler;
use sisprog::Mnemonics;
use sisprog::Symbols;

fn assemble_src(lines: &[&str]) -> Result<Vec<u8>, AsmError> {
    let source: Vec<String> = lines.iter().map(|s| s.to_string()).collect();
    Assembler::run(&source)
}

#[test]
fn single_block_header_is_one() {
    let buf = assemble_src(&["@ /0", "L LV 5", "HM 0", "# L"]).unwrap();
    assert_eq!(buf[0], 1);
}

#[test]
fn lv_word_packs_opcode_and_argument() {
    let buf = assemble_src(&["@ /0", "L LV 5", "HM 0", "# L"]).unwrap();
    // layout: header, JP word, @-word plus distance byte, then LV 5
    assert_eq!(buf.len(), 10);
    let msb = buf[6];
    let lsb = buf[7];
    assert_eq!(msb >> 4, 3);
    assert_eq!(((msb as u16 & 0x0F) << 8) | lsb as u16, 5);
}

#[test]
fn whole_object_buffer_of_minimal_program() {
    let buf = assemble_src(&["@ /0", "L LV 5", "HM 0", "# L"]).unwrap();
    assert_eq!(buf, vec![1, 0x00, 0x00, 0x00, 0x00, 4, 0x30, 0x05, 0xC0, 0x00]);
}

#[test]
fn duplicate_label_aborts_assembly() {
    let err = assemble_src(&["@ /0", "L LV 1", "L", "# L"]).unwrap_err();
    assert!(matches!(err, AsmError::DuplicateSymbol(ref l) if l == "L"));
}

#[test]
fn duplicate_of_builtin_mnemonic_aborts() {
    let err = assemble_src(&["@ /0", "LV LV 1", "# LV"]).unwrap_err();
    assert!(matches!(err, AsmError::DuplicateSymbol(ref l) if l == "LV"));
}

#[test]
fn no_block_aborts_with_structural_error() {
    let err = assemble_src(&["LV 5", "HM 0"]).unwrap_err();
    assert!(matches!(err, AsmError::MissingBlock));
}

#[test]
fn block_end_without_block_start_aborts() {
    let err = assemble_src(&["# L"]).unwrap_err();
    assert!(matches!(err, AsmError::MissingBlock));
}

#[test]
fn empty_source_aborts() {
    let err = assemble_src(&[]).unwrap_err();
    assert!(matches!(err, AsmError::MissingBlock));
}

#[test]
fn assembling_twice_is_deterministic() {
    let lines = ["@ /0", "L LV 5", "GD 0", "PD 0", "HM 0", "# L"];
    let first = assemble_src(&lines).unwrap();
    let second = assemble_src(&lines).unwrap();
    assert_eq!(first, second);
}

#[test]
fn four_tokens_are_a_syntax_error() {
    let err = assemble_src(&["@ /0", "A B C D", "# L"]).unwrap_err();
    assert!(matches!(err, AsmError::Syntax));
}

#[test]
fn unresolved_argument_is_reported() {
    let err = assemble_src(&["@ /0", "L LV X", "# L"]).unwrap_err();
    assert!(matches!(err, AsmError::UnresolvedSymbol(ref t) if t == "X"));
}

#[test]
fn oversized_argument_is_a_range_error() {
    let err = assemble_src(&["@ /0", "L LV 5000", "# L"]).unwrap_err();
    assert!(matches!(err, AsmError::Range));
}

#[test]
fn comments_and_blank_lines_are_skipped() {
    let with_noise = assemble_src(&[
        "; a leading comment line",
        "@ /0",
        "",
        "L LV 5 ; load five",
        "HM 0",
        "# L",
    ])
    .unwrap();
    let bare = assemble_src(&["@ /0", "L LV 5", "HM 0", "# L"]).unwrap();
    assert_eq!(with_noise, bare);
}

#[test]
fn hexadecimal_block_address_is_honoured() {
    let buf = assemble_src(&["@ /10", "L LV 5", "HM 0", "# L"]).unwrap();
    // the @-word carries the block address 0x0010 big-endian
    assert_eq!(buf[3], 0x00);
    assert_eq!(buf[4], 0x10);
}

#[test]
fn quoted_character_argument_uses_its_code() {
    let buf = assemble_src(&["@ /0", "L K \"A\"", "HM 0", "# L"]).unwrap();
    // the K directive emits one raw byte, the character code of A
    assert_eq!(buf[6], 65);
}

#[test]
fn k_directive_advances_one_word_not_two() {
    // the label after the K byte sits one address past it
    let buf = assemble_src(&["@ /0", "L K 7", "M LV M+0", "HM 0", "# M"]).unwrap();
    // listing: JP M, @ /0, K 7, LV M+0, HM 0; M is bound at address 1
    assert_eq!(buf, vec![1, 0x00, 0x01, 0x00, 0x00, 5, 7, 0x30, 0x01, 0xC0, 0x00]);
}

#[test]
fn symbol_plus_offset_argument_adds_literal() {
    let buf = assemble_src(&["@ /0", "L LV L+3", "HM 0", "# L"]).unwrap();
    // L is bound at 0, so the LV argument resolves to 3
    assert_eq!(buf[6], 0x30);
    assert_eq!(buf[7], 0x03);
}

#[test]
fn two_blocks_give_header_two_and_two_distance_bytes() {
    let buf = assemble_src(&["@ /0", "L LV 5", "@ /100", "M HM 0", "# L"]).unwrap();
    assert_eq!(buf[0], 2);
    // first @-word: address 0, distance 2 (one LV instruction)
    assert_eq!(&buf[3..6], &[0x00, 0x00, 2]);
    // second @-word: address 0x100, distance 2 (one HM instruction)
    assert_eq!(&buf[8..11], &[0x01, 0x00, 2]);
}

#[test]
fn statements_after_block_end_are_ignored() {
    let with_tail = assemble_src(&["@ /0", "L LV 5", "HM 0", "# L", "junk junk junk junk"]).unwrap();
    let bare = assemble_src(&["@ /0", "L LV 5", "HM 0", "# L"]).unwrap();
    assert_eq!(with_tail, bare);
}

#[test]
fn consecutive_spaces_produce_no_empty_tokens() {
    let spread = assemble_src(&["@  /0", "L   LV  5", "HM 0", "#  L"]).unwrap();
    let bare = assemble_src(&["@ /0", "L LV 5", "HM 0", "# L"]).unwrap();
    assert_eq!(spread, bare);
}

#[test]
fn symbols_table_preseeds_opcodes_and_directives() {
    let symbols = Symbols::new();
    assert_eq!(symbols.get("JP"), 0);
    assert_eq!(symbols.get("LV"), 3);
    assert_eq!(symbols.get("OS"), 15);
    assert_eq!(symbols.get("@"), 16);
    assert_eq!(symbols.get("#"), 17);
    assert_eq!(symbols.get("K"), 18);
}

#[test]
fn symbols_insert_rejects_duplicates() {
    let mut symbols = Symbols::new();
    assert!(symbols.insert("LOOP", 40).is_ok());
    assert_eq!(symbols.get("LOOP"), 40);
    let err = symbols.insert("LOOP", 50).unwrap_err();
    assert!(matches!(err, AsmError::DuplicateSymbol(ref l) if l == "LOOP"));
    // the first binding stays
    assert_eq!(symbols.get("LOOP"), 40);
}

#[test]
fn symbols_lookup_reports_absence() {
    let symbols = Symbols::new();
    assert_eq!(symbols.lookup("JP"), Some(0));
    assert_eq!(symbols.lookup("NOPE"), None);
}

#[test]
fn mnemonics_tables_hold_all_sixteen_opcodes() {
    let m = Mnemonics::new();
    assert_eq!(m.from_mnemonic.len(), 16);
    assert_eq!(m.from_code.len(), 16);
    assert!(m.from_mnemonic.iter().any(|(n, c)| n == "lv" && *c == 3));
    assert!(m.from_code.iter().any(|(c, n)| *c == 12 && n == "hm"));
}

#[test]
fn mnemonics_insert_symbol_appends() {
    let mut m = Mnemonics::new();
    m.insert_symbol("loop", 40);
    assert_eq!(m.from_mnemonic.len(), 17);
    assert!(m.from_mnemonic.iter().any(|(n, c)| n == "loop" && *c == 40));
}
