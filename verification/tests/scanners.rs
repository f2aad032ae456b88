use ivf_fraud::json::{
    is_null, next_value, risk_of, scan_bool, scan_decimal, scan_json_string, scan_known_merchants,
    scan_mcc_risk, scan_merchant_code, scan_timestamp, scan_u32, skip_object_start, skip_space,
};
use ivf_fraud::single::Single;
use ivf_fraud::text::{
    digits, eq_ascii_case, find_byte, same_bytes, same_text, trim_cr, trim_space,
};

#[test]
fn digits_are_read_to_the_end() {
    assert_eq!(digits(b"0042"), Some(42));
    assert_eq!(digits(b""), Some(0));
    assert_eq!(digits(b"4294967295"), Some(u32::MAX));
    assert_eq!(digits(b"12a"), None);
    assert_eq!(digits(b" 12"), None);
    assert_eq!(digits(b"-1"), None);
}

#[test]
fn lines_lose_one_carriage_return() {
    assert_eq!(trim_cr(b"abc\r"), b"abc");
    assert_eq!(trim_cr(b"abc\r\r"), b"abc\r");
    assert_eq!(trim_cr(b"\r"), b"");
    assert_eq!(trim_cr(b"abc"), b"abc");
    assert_eq!(trim_cr(b""), b"");
}

#[test]
fn values_lose_blanks_around_them() {
    assert_eq!(trim_space(b" \t 12 3\t \r"), b"12 3");
    assert_eq!(trim_space(b"\r 12"), b"\r 12");
    assert_eq!(trim_space(b" \t\r "), b"");
    assert_eq!(trim_space(b""), b"");
}

#[test]
fn case_matters_to_no_letter() {
    assert!(eq_ascii_case(b"Content-LENGTH", b"content-length"));
    assert!(!eq_ascii_case(b"content_length", b"content-length"));
    assert!(!eq_ascii_case(b"content-lengt", b"content-length"));
    assert!(!eq_ascii_case(b"[", b"{"));
    assert!(!eq_ascii_case(b"@", b"`"));
    assert!(eq_ascii_case(b"", b""));
}

#[test]
fn bytes_and_texts_are_compared_whole() {
    assert!(same_bytes(b"abc", b"abc"));
    assert!(!same_bytes(b"abc", b"abd"));
    assert!(!same_bytes(b"abc", b"ab"));
    assert!(same_text("praça", "praça"));
    assert!(!same_text("praça", "praca"));
}

#[test]
fn bytes_are_found_from_a_position_on() {
    assert_eq!(find_byte(b"a:b:c", b':', 0), 1);
    assert_eq!(find_byte(b"a:b:c", b':', 2), 3);
    assert_eq!(find_byte(b"a:b:c", b':', 4), 5);
    assert_eq!(find_byte(b"", b':', 0), 0);
}

#[test]
fn spaces_are_skipped() {
    assert_eq!(skip_space(b" \t\r\n x", 0), 5);
    assert_eq!(skip_space(b"x ", 0), 0);
    assert_eq!(skip_space(b"x ", 1), 2);
    assert_eq!(skip_space(b"x", 7), 7);
}

#[test]
fn values_start_behind_a_colon() {
    assert_eq!(next_value(b"\"a\" :  1", 0), Some(7));
    assert_eq!(next_value(b"\"a\":", 0), Some(4));
    assert_eq!(next_value(b"\"a\"", 0), None);
    assert_eq!(next_value(b"a:b", 2), None);
}

#[test]
fn objects_are_entered_where_there_is_one() {
    let mut cursor = 0;
    skip_object_start(b"  {\"a\"", &mut cursor);
    assert_eq!(cursor, 3);
    let mut cursor = 0;
    skip_object_start(b" 12", &mut cursor);
    assert_eq!(cursor, 1);
    let mut cursor = 1;
    skip_object_start(b"{", &mut cursor);
    assert_eq!(cursor, 1);
}

#[test]
fn strings_end_at_the_quote() {
    let mut cursor = 0;
    assert_eq!(scan_json_string(b" \"ab\",", &mut cursor), Some(&b"ab"[..]));
    assert_eq!(cursor, 5);
    let mut cursor = 0;
    assert_eq!(scan_json_string(b"\"\"", &mut cursor), Some(&b""[..]));
    assert_eq!(cursor, 2);
    let mut cursor = 0;
    assert_eq!(scan_json_string(b"\"a\\n\"", &mut cursor), None);
    assert_eq!(cursor, 2);
    let mut cursor = 0;
    assert_eq!(scan_json_string(b"\"ab", &mut cursor), None);
    assert_eq!(cursor, 3);
    let mut cursor = 0;
    assert_eq!(scan_json_string(b" 12", &mut cursor), None);
    assert_eq!(cursor, 1);
}

fn scanned_decimal(body: &[u8]) -> (Option<(bool, Vec<u8>, Vec<u8>)>, usize) {
    let mut cursor = 0;
    let number = scan_decimal(body, &mut cursor);
    (number.map(|number| (number.negative, number.integer, number.fraction)), cursor)
}

#[test]
fn decimals_keep_their_digits() {
    let (number, cursor) = scanned_decimal(b" -12.340,");
    assert_eq!(number, Some((true, b"12".to_vec(), b"340".to_vec())));
    assert_eq!(cursor, 8);
    let (number, cursor) = scanned_decimal(b"7}");
    assert_eq!(number, Some((false, b"7".to_vec(), Vec::new())));
    assert_eq!(cursor, 1);
    let (number, cursor) = scanned_decimal(b"5.");
    assert_eq!(number, Some((false, b"5".to_vec(), Vec::new())));
    assert_eq!(cursor, 2);
    let (number, cursor) = scanned_decimal(b".25 ");
    assert_eq!(number, Some((false, Vec::new(), b"25".to_vec())));
    assert_eq!(cursor, 3);
}

#[test]
fn decimals_without_digits_or_with_an_exponent_are_refused() {
    for (body, end) in [
        (&b"."[..], 1),
        (b"-", 1),
        (b"", 0),
        (b"x", 0),
        (b"-.", 2),
        (b"1e5", 1),
        (b"1.5E5", 3),
        (b"e", 0),
        (b"--1", 1),
    ] {
        assert_eq!(scanned_decimal(body), (None, end));
    }
}

#[test]
fn counts_fit_32_bits() {
    let mut cursor = 0;
    assert_eq!(scan_u32(b" 12,", &mut cursor), Some(12));
    assert_eq!(cursor, 3);
    let mut cursor = 0;
    assert_eq!(scan_u32(b"4294967295", &mut cursor), Some(u32::MAX));
    assert_eq!(cursor, 10);
    let mut cursor = 0;
    assert_eq!(scan_u32(b"4294967296", &mut cursor), None);
    assert_eq!(cursor, 9);
    let mut cursor = 0;
    assert_eq!(scan_u32(b"99999999999", &mut cursor), None);
    assert_eq!(cursor, 9);
    let mut cursor = 0;
    assert_eq!(scan_u32(b"-1", &mut cursor), None);
    assert_eq!(cursor, 0);
    let mut cursor = 0;
    assert_eq!(scan_u32(b"", &mut cursor), None);
}

#[test]
fn truth_values_are_words() {
    let mut cursor = 0;
    assert_eq!(scan_bool(b" true,", &mut cursor), Some(true));
    assert_eq!(cursor, 5);
    let mut cursor = 0;
    assert_eq!(scan_bool(b"false", &mut cursor), Some(false));
    assert_eq!(cursor, 5);
    let mut cursor = 0;
    assert_eq!(scan_bool(b"fals", &mut cursor), None);
    assert_eq!(cursor, 0);
    let mut cursor = 0;
    assert_eq!(scan_bool(b" True", &mut cursor), None);
    assert_eq!(cursor, 1);
    assert!(is_null(b"a null", 2));
    assert!(!is_null(b"a nul", 2));
    assert!(!is_null(b"null", 9));
}

#[test]
fn merchant_codes_have_three_digits() {
    let mut cursor = 0;
    assert_eq!(scan_merchant_code(b"\"MERC-042\"", &mut cursor), Some(42));
    assert_eq!(cursor, 10);
    for text in ["MERC-0042", "MERC-04", "MERC-0x2", "MERC-04/", "merc-042", "MERK-042"] {
        let body = format!("\"{text}\"");
        let mut cursor = 0;
        assert_eq!(scan_merchant_code(body.as_bytes(), &mut cursor), None, "{text}");
        assert_eq!(cursor, body.len());
    }
}

#[test]
fn known_merchants_fill_sixteen_slots() {
    let mut cursor = 0;
    let codes = scan_known_merchants(b" [ \"MERC-009\" , \"MERC-001\"] ", &mut cursor).unwrap();
    assert_eq!(cursor, 27);
    assert_eq!(codes[0..2], [9, 1]);
    assert_eq!(codes[2..], [u16::MAX; 14]);
    let mut cursor = 0;
    assert_eq!(scan_known_merchants(b"[]", &mut cursor), Some([u16::MAX; 16]));
    let mut cursor = 0;
    assert!(scan_known_merchants(b"[\"MERC-009\",]", &mut cursor).is_some());
    assert_eq!(cursor, 13);
    for body in ["[\"MERC-009\"", "\"MERC-009\"", "[\"MERC-009\" \"MERC-001\"]", "[9]", "["] {
        let mut cursor = 0;
        assert_eq!(scan_known_merchants(body.as_bytes(), &mut cursor), None, "{body}");
    }
}

#[test]
fn seventeenth_code_has_no_slot() {
    let mut body = String::from("[");
    for code in 100..117 {
        body.push_str(&format!("\"MERC-{code}\","));
    }
    body.push(']');
    let mut cursor = 0;
    let codes = scan_known_merchants(body.as_bytes(), &mut cursor).unwrap();
    assert_eq!(cursor, body.len());
    for slot in 0..16 {
        assert_eq!(usize::from(codes[slot]), 100 + slot);
    }
}

#[test]
fn risks_are_looked_up_by_code() {
    let half = Single::from_bits(0.5f32.to_bits());
    let mut cursor = 0;
    let risk = scan_mcc_risk(b"\"7995\"", &mut cursor);
    assert_eq!(risk, Some(Single::from_bits(0.85f32.to_bits())));
    assert_eq!(cursor, 6);
    assert_eq!(risk_of(b"9999"), half);
    let mut cursor = 0;
    assert_eq!(scan_mcc_risk(b"7995", &mut cursor), None);
    assert_eq!(cursor, 0);
}

#[test]
fn moments_are_scanned_from_strings() {
    let mut cursor = 0;
    let moment = scan_timestamp(b" \"1970-01-02T01:00:01Z\"", &mut cursor).unwrap();
    assert_eq!(moment.total_seconds, 86_400 + 3_601);
    assert_eq!((moment.hour, moment.weekday_monday0), (1, 4));
    assert_eq!(cursor, 23);
    let mut cursor = 0;
    assert_eq!(scan_timestamp(b"\"1970-01-02\"", &mut cursor), None);
    assert_eq!(cursor, 12);
    let mut cursor = 0;
    assert_eq!(scan_timestamp(b"1970", &mut cursor), None);
    assert_eq!(cursor, 0);
}
