use reverie::gf2::BitScalar;
use reverie::program::{
    leading_numbers, parse_gate, parse_number, parse_program, split_words, CombineOperation,
    Instruction,
};

fn lines(text: &str) -> Vec<Vec<u8>> {
    text.lines().map(|l| l.as_bytes().to_vec()).collect()
}

// The test of this name once checked the command-line definition of the
// program; here it reads a small program text end to end.
#[test]
fn test_app() {
    let text = "4 3\n2 1 1\n1\n1 1 0 0 INPUT\n1 1 1 1 INPUT\n2 1 0 1 2 AND\n1 1 2 2 INV\n";
    let c = parse_program(&lines(text)).unwrap();
    assert_eq!((c.num_gates, c.num_wires), (4, 3));
    assert_eq!((c.num_parties, c.num_input_alice, c.num_input_bob), (2, 1, 1));
    assert_eq!(c.num_output, 1);
    assert_eq!(
        c.program,
        vec![
            CombineOperation::GF2(Instruction::Input(0)),
            CombineOperation::GF2(Instruction::Input(1)),
            CombineOperation::GF2(Instruction::Mul(2, 0, 1)),
            CombineOperation::GF2(Instruction::AddConst(2, 2, BitScalar(true))),
        ]
    );
}

#[test]
fn split_words_on_white_space() {
    let w = split_words(b"  2 1\t10 11  12 XOR \r\n");
    let expect: Vec<Vec<u8>> = ["2", "1", "10", "11", "12", "XOR"]
        .iter()
        .map(|s| s.as_bytes().to_vec())
        .collect();
    assert_eq!(w, expect);
    assert!(split_words(b"   ").is_empty());
    assert!(split_words(b"").is_empty());
}

#[test]
fn parse_number_values() {
    assert_eq!(parse_number(b"0"), Some(0));
    assert_eq!(parse_number(b"1234"), Some(1234));
    assert_eq!(parse_number(b"007"), Some(7));
    assert_eq!(parse_number(b""), None);
    assert_eq!(parse_number(b"12a"), None);
    assert_eq!(parse_number(b"-1"), None);
    assert_eq!(parse_number(b"18446744073709551615"), Some(usize::MAX));
    assert_eq!(parse_number(b"18446744073709551616"), None);
    assert_eq!(parse_number(b"99999999999999999999999"), None);
}

#[test]
fn parse_gate_types() {
    assert_eq!(parse_gate(b"2 1 0 1 2 XOR"), Some(Instruction::Add(2, 0, 1)));
    assert_eq!(parse_gate(b"2 1 4 5 6 AND"), Some(Instruction::Mul(6, 4, 5)));
    assert_eq!(parse_gate(b"1 1 3 9 INV"), Some(Instruction::AddConst(9, 3, BitScalar(true))));
    assert_eq!(parse_gate(b"0 1 5 INPUT"), Some(Instruction::Input(5)));
    assert_eq!(parse_gate(b"0 2 5 6 INPUT extra"), Some(Instruction::Input(5)));
}

#[test]
fn parse_gate_rejects_malformed() {
    assert_eq!(parse_gate(b"2 1 0 1 2 NAND"), None);
    assert_eq!(parse_gate(b"2 1 0 1 2"), None);
    assert_eq!(parse_gate(b"1 1 0 2 XOR"), None);
    assert_eq!(parse_gate(b"2 1 0 x 2 XOR"), None);
    assert_eq!(parse_gate(b"0 0 INPUT"), None);
    assert_eq!(parse_gate(b""), None);
    assert_eq!(parse_gate(b"2 1 0 1 2 xor"), None);
}

#[test]
fn leading_numbers_ignores_rest() {
    assert_eq!(leading_numbers(b"3 4 five", 2), Some(vec![3, 4]));
    assert_eq!(leading_numbers(b"3", 2), None);
    assert_eq!(leading_numbers(b"3 x", 2), None);
}

#[test]
fn parse_program_refuses_truncated_text() {
    assert!(parse_program(&lines("9 3\n2 1 1\n1\n0 1 0 INPUT\n")).is_none());
    let c = parse_program(&lines("1 3\n2 1 1\n1\n0 1 0 INPUT\n")).unwrap();
    assert_eq!(c.num_gates, 1);
    assert_eq!(c.program, vec![CombineOperation::GF2(Instruction::Input(0))]);
}

#[test]
fn parse_program_ignores_lines_past_gates() {
    let c = parse_program(&lines("1 3\n2 1 1\n1\n0 1 0 INPUT\nnot a gate\n")).unwrap();
    assert_eq!(c.program.len(), 1);
}

#[test]
fn parse_program_rejects_bad_text() {
    assert!(parse_program(&lines("1 3\n2 1 1\n")).is_none());
    assert!(parse_program(&lines("1\n2 1 1\n1\n0 1 0 INPUT\n")).is_none());
    assert!(parse_program(&lines("1 3\n2 1\n1\n0 1 0 INPUT\n")).is_none());
    assert!(parse_program(&lines("1 3\n2 1 1\n\n0 1 0 INPUT\n")).is_none());
    assert!(parse_program(&lines("1 3\n2 1 1\n1\n0 1 0 BUF\n")).is_none());
}
