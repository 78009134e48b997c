use espresso_codec::errors::CodecError;
use espresso_codec::pla::PLA;
use espresso_codec::pla_binary::PlaBinary;
use espresso_codec::ternary::Ternary;

fn row(s: &str) -> Vec<Ternary> {
    s.chars()
        .map(|c| match c {
            '1' => Ternary::True,
            '0' => Ternary::False,
            _ => Ternary::DontCare,
        })
        .collect()
}

#[test]
fn encode_binary_table_exact_text() {
    let mut pla = PlaBinary::new();
    pla.add_line(row("0000"), row("1"));
    pla.add_line(row("0001"), row("1"));
    pla.add_line(row("0101"), row("1"));
    pla.add_line(row("0111"), row("1"));
    assert_eq!(pla.num_inputs(), 4);
    assert_eq!(pla.num_outputs(), 1);
    assert_eq!(
        pla.encode(),
        ".i 4\n.o 1\n.type f\n0000 1\n0001 1\n0101 1\n0111 1\n.e\n"
    );
}

#[test]
fn decode_recovers_encoded_table() {
    let mut pla = PlaBinary::new();
    pla.add_line(row("-0-1"), row("1"));
    pla.add_line(row("000-"), row("1"));
    let text = pla.encode();
    let back = PlaBinary::decode(&text).unwrap();
    assert_eq!(back.len(), 2);
    assert_eq!(back.num_inputs(), 4);
    assert_eq!(back.num_outputs(), 1);
    assert_eq!(back.row_inputs(0), row("-0-1"));
    assert_eq!(back.row_outputs(0), row("1"));
    assert_eq!(back.row_inputs(1), row("000-"));
    assert_eq!(back.row_outputs(1), row("1"));
}

#[test]
fn decode_tolerates_directives_before_type() {
    let text = ".i 2\n.ob ON OFF\n.o 1\n.type f\n01 1\n.e\n";
    let t = PlaBinary::decode(text).unwrap();
    assert_eq!(t.len(), 1);
    assert_eq!(t.row_inputs(0), row("01"));
}

#[test]
fn decode_takes_most_recent_header_counts() {
    let text = ".i 3\n.o 2\n.i 2\n.o 1\n.type f\n10 0\n.e\n";
    let t = PlaBinary::decode(text).unwrap();
    assert_eq!(t.num_inputs(), 2);
    assert_eq!(t.num_outputs(), 1);
}

#[test]
fn decode_rejects_invalid_row_character() {
    let text = ".i 2\n.o 1\n.type f\n0x 1\n.e\n";
    assert_eq!(PlaBinary::decode(text).unwrap_err(), CodecError::BadChar);
}

#[test]
fn decode_rejects_row_without_output_field() {
    let text = ".i 2\n.o 1\n.type f\n01\n.e\n";
    assert_eq!(PlaBinary::decode(text).unwrap_err(), CodecError::BadRow);
}

#[test]
fn decode_rejects_row_width_mismatch() {
    let text = ".i 3\n.o 1\n.type f\n01 1\n.e\n";
    assert_eq!(PlaBinary::decode(text).unwrap_err(), CodecError::HeaderMismatch);
}

#[test]
fn decode_rejects_missing_terminator() {
    let text = ".i 2\n.o 1\n.type f\n01 1\n";
    assert_eq!(PlaBinary::decode(text).unwrap_err(), CodecError::MissingTerminator);
}

#[test]
fn decode_rejects_stray_line_before_type() {
    let text = ".i 2\n.o 1\nhello\n.type f\n01 1\n.e\n";
    assert_eq!(PlaBinary::decode(text).unwrap_err(), CodecError::StrayLine);
}

#[test]
fn decode_rejects_directive_after_type() {
    let text = ".i 2\n.o 1\n.type f\n.i 2\n01 1\n.e\n";
    assert_eq!(PlaBinary::decode(text).unwrap_err(), CodecError::StrayLine);
}

#[test]
fn decode_rejects_malformed_count() {
    let text = ".i two\n.o 1\n.type f\n.e\n";
    assert_eq!(PlaBinary::decode(text).unwrap_err(), CodecError::BadCount);
}

#[test]
fn decode_empty_body_yields_empty_table() {
    let text = ".i 5\n.o 2\n.type f\n.e\n";
    let t = PlaBinary::decode(text).unwrap();
    assert_eq!(t.len(), 0);
    assert_eq!(t.num_inputs(), 5);
    assert_eq!(t.num_outputs(), 2);
}

#[test]
fn pla_shares_the_same_codec() {
    let mut pla = PLA::new();
    pla.add_line(row("-01"), row("10"));
    let text = pla.encode();
    assert_eq!(text, ".i 3\n.o 2\n.type f\n-01 10\n.e\n");
    let back = PLA::decode(&text).unwrap();
    assert_eq!(back.len(), 1);
    assert_eq!(back.row_inputs(0), row("-01"));
    assert_eq!(back.row_outputs(0), row("10"));
}
