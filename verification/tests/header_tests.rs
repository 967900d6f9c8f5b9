use sam_header::header::Header;
use sam_header::record::{fmt_i64, fmt_u64, HeaderRecord};

#[test]
fn empty_header_serializes_to_nothing() {
    let h = Header::new();
    assert_eq!(h.to_bytes(), b"".to_vec());
    let g = h.to_hashmap().unwrap();
    assert_eq!(g.len(), 0);
}

#[test]
fn record_without_tags_is_just_the_type_marker() {
    let mut h = Header::new();
    let r = HeaderRecord::new(b"HD");
    h.push_record(&r);
    assert_eq!(h.to_bytes(), b"@HD".to_vec());
}

#[test]
fn record_line_layout_is_tab_and_colon_delimited() {
    let mut r = HeaderRecord::new(b"SQ");
    r.push_tag(b"SN", b"chr1");
    r.push_tag(b"LN", b"248956422");
    assert_eq!(r.to_bytes(), b"@SQ\tSN:chr1\tLN:248956422".to_vec());
}

#[test]
fn lines_are_joined_with_single_newlines() {
    let mut h = Header::new();
    let mut hd = HeaderRecord::new(b"HD");
    hd.push_tag(b"VN", b"1.6");
    h.push_record(&hd);
    let mut sq = HeaderRecord::new(b"SQ");
    sq.push_tag(b"SN", b"chr1");
    h.push_record(&sq);
    h.push_comment(b"hello");
    assert_eq!(h.to_bytes(), b"@HD\tVN:1.6\n@SQ\tSN:chr1\n@CO\thello".to_vec());
}

#[test]
fn serialization_is_idempotent() {
    let mut h = Header::new();
    let mut r = HeaderRecord::new(b"RG");
    r.push_tag(b"ID", b"group0");
    h.push_record(&r);
    h.push_comment(b"a comment");
    assert_eq!(h.to_bytes(), h.to_bytes());
}

#[test]
fn from_template_strips_every_trailing_newline() {
    let h = Header::from_template(b"@SQ\tSN:chr1\tLN:100\n\n");
    let bytes = h.to_bytes();
    assert_eq!(bytes, b"@SQ\tSN:chr1\tLN:100".to_vec());
    assert!(!bytes.ends_with(b"\n"));
}

#[test]
fn from_template_keeps_interior_newlines_verbatim() {
    let h = Header::from_template(b"@HD\tVN:1.6\n@SQ\tSN:chr1\tLN:9\n");
    assert_eq!(h.to_bytes(), b"@HD\tVN:1.6\n@SQ\tSN:chr1\tLN:9".to_vec());
}

#[test]
fn from_template_of_only_newlines_is_blank() {
    let h = Header::from_template(b"\n\n\n");
    assert_eq!(h.to_bytes(), b"".to_vec());
    assert_eq!(h.to_hashmap().unwrap().len(), 0);
}

#[test]
fn format_unsigned_decimal() {
    assert_eq!(fmt_u64(0), b"0".to_vec());
    assert_eq!(fmt_u64(7), b"7".to_vec());
    assert_eq!(fmt_u64(10), b"10".to_vec());
    assert_eq!(fmt_u64(248956422), b"248956422".to_vec());
    assert_eq!(fmt_u64(u64::MAX), b"18446744073709551615".to_vec());
}

#[test]
fn format_signed_decimal() {
    assert_eq!(fmt_i64(0), b"0".to_vec());
    assert_eq!(fmt_i64(42), b"42".to_vec());
    assert_eq!(fmt_i64(-5), b"-5".to_vec());
    assert_eq!(fmt_i64(i64::MIN), b"-9223372036854775808".to_vec());
}

#[test]
fn formatted_tag_values_round_through_a_record() {
    let mut r = HeaderRecord::new(b"SQ");
    r.push_tag(b"SN", b"chr1");
    let ln = fmt_u64(248956422);
    r.push_tag(b"LN", ln.as_slice());
    assert_eq!(r.to_bytes(), b"@SQ\tSN:chr1\tLN:248956422".to_vec());
}
