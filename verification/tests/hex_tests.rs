use vernam_otp::otp_importer::text_file_hex::hex_text_to_u8;
use vernam_otp::otp_importer::text_file_hex::is_valid_hex_token;
use vernam_otp::otp_importer::text_file_hex::parse_text;

#[test]
fn single_hex_number_parsing() {
    assert_eq!(hex_text_to_u8("00".as_bytes()), 00);
    assert_eq!(hex_text_to_u8("FF".as_bytes()), 255);
    assert_eq!(hex_text_to_u8("0A".as_bytes()), 10);
}

#[test]
fn text_parsing() {
    let text = " 01 0A FF 00 ";
    assert_eq!(parse_text(text.as_bytes()), Some(vec![1, 10, 255, 0]));
}

#[test]
fn invalid_hex_number_parsing() {
    assert!(!is_valid_hex_token("GG".as_bytes()));
    assert!(!is_valid_hex_token("ABC".as_bytes()));
    assert!(!is_valid_hex_token("".as_bytes()));
    assert_eq!(parse_text("GG".as_bytes()), None);
    assert_eq!(parse_text("ABC".as_bytes()), None);
}

#[test]
fn lower_case_and_line_breaks() {
    let text = "0a ff\n7 e3";
    assert_eq!(parse_text(text.as_bytes()), Some(vec![10, 255, 7, 227]));
}

#[test]
fn double_space_is_fatal() {
    assert_eq!(parse_text("01  02".as_bytes()), None);
}

#[test]
fn crlf_lines_parse() {
    let text = "01 02\r\n03";
    assert_eq!(parse_text(text.as_bytes()), Some(vec![1, 2, 3]));
}

#[test]
fn empty_text_parses_to_nothing() {
    assert_eq!(parse_text("".as_bytes()), Some(vec![]));
}
