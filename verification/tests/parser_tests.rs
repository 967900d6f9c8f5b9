use sam_header::header::Header;
use sam_header::parser::{parse_header_text, ParseError};
use sam_header::record::HeaderRecord;

#[test]
fn round_trip_groups_by_type_in_push_order() {
    let mut h = Header::new();
    let mut sq1 = HeaderRecord::new(b"SQ");
    sq1.push_tag(b"SN", b"chr1");
    h.push_record(&sq1);
    let mut hd = HeaderRecord::new(b"HD");
    hd.push_tag(b"VN", b"1.6");
    h.push_record(&hd);
    let mut sq2 = HeaderRecord::new(b"SQ");
    sq2.push_tag(b"SN", b"chr2");
    h.push_record(&sq2);

    let g = h.to_hashmap().unwrap();
    assert_eq!(g.len(), 2);
    assert!(g.contains_key(b"SQ"));
    assert!(g.contains_key(b"HD"));
    assert!(!g.contains_key(b"RG"));
    let sqs = g.get(b"SQ").unwrap();
    assert_eq!(sqs.len(), 2);
    assert_eq!(sqs[0].get(b"SN").unwrap().as_slice(), b"chr1");
    assert_eq!(sqs[1].get(b"SN").unwrap().as_slice(), b"chr2");
    assert_eq!(g.get(b"HD").unwrap().len(), 1);
}

#[test]
fn duplicated_tag_serializes_twice_and_parses_last_write_wins() {
    let mut r = HeaderRecord::new(b"SQ");
    r.push_tag(b"SN", b"A");
    r.push_tag(b"SN", b"B");
    let mut h = Header::new();
    h.push_record(&r);
    let bytes = h.to_bytes();
    assert_eq!(bytes, b"@SQ\tSN:A\tSN:B".to_vec());

    let g = parse_header_text(bytes.as_slice()).unwrap();
    let sqs = g.get(b"SQ").unwrap();
    assert_eq!(sqs.len(), 1);
    assert_eq!(sqs[0].len(), 1);
    assert_eq!(sqs[0].get(b"SN").unwrap().as_slice(), b"B");
}

#[test]
fn tag_without_colon_is_a_parse_failure() {
    let r = parse_header_text(b"@SQ\tBADTAG");
    assert_eq!(r.unwrap_err(), ParseError::ParseFailure);
}

#[test]
fn line_without_record_type_marker_is_a_parse_failure() {
    let r = parse_header_text(b"NOTATAG\tSN:1");
    assert_eq!(r.unwrap_err(), ParseError::ParseFailure);
}

#[test]
fn lowercase_record_type_is_a_parse_failure() {
    assert!(parse_header_text(b"@sq\tSN:1").is_err());
}

#[test]
fn empty_tag_value_is_a_parse_failure() {
    assert!(parse_header_text(b"@SQ\tSN:").is_err());
}

#[test]
fn one_bad_line_fails_the_whole_parse() {
    assert!(parse_header_text(b"@HD\tVN:1.6\n@SQ\tBADTAG").is_err());
}

#[test]
fn parser_accepts_looser_tags_than_the_builder_emits() {
    let g = parse_header_text(b"@PG\tpn:tool\tV2:1").unwrap();
    let pgs = g.get(b"PG").unwrap();
    assert_eq!(pgs[0].get(b"pn").unwrap().as_slice(), b"tool");
    assert_eq!(pgs[0].get(b"V2").unwrap().as_slice(), b"1");
}

#[test]
fn blank_lines_and_double_tabs_are_ignored() {
    let g = parse_header_text(b"\n@SQ\t\tSN:chr1\n\n").unwrap();
    assert_eq!(g.len(), 1);
    let sqs = g.get(b"SQ").unwrap();
    assert_eq!(sqs.len(), 1);
    assert_eq!(sqs[0].get(b"SN").unwrap().as_slice(), b"chr1");
}

#[test]
fn extra_bytes_after_the_type_code_classify_by_first_two_letters() {
    let g = parse_header_text(b"@SQX\tSN:chr1").unwrap();
    assert!(g.contains_key(b"SQ"));
    assert!(!g.contains_key(b"QX"));
}

#[test]
fn record_type_marker_alone_groups_with_empty_mapping() {
    let g = parse_header_text(b"@HD").unwrap();
    let hds = g.get(b"HD").unwrap();
    assert_eq!(hds.len(), 1);
    assert_eq!(hds[0].len(), 0);
    assert!(hds[0].get(b"VN").is_none());
}

#[test]
fn free_text_comment_defeats_the_grammar() {
    let mut h = Header::new();
    h.push_comment(b"this is free text");
    assert!(h.to_hashmap().is_err());
}

#[test]
fn empty_and_field_shaped_comments_group_under_their_marker() {
    let mut h = Header::new();
    h.push_comment(b"");
    h.push_comment(b"TX:ok");
    let g = h.to_hashmap().unwrap();
    let cos = g.get(b"CO").unwrap();
    assert_eq!(cos.len(), 2);
    assert_eq!(cos[0].len(), 0);
    assert_eq!(cos[1].get(b"TX").unwrap().as_slice(), b"ok");
}

#[test]
fn end_to_end_build_serialize_parse_query() {
    let mut h = Header::new();
    let mut hd = HeaderRecord::new(b"HD");
    hd.push_tag(b"VN", b"1.6");
    h.push_record(&hd);
    let mut sq = HeaderRecord::new(b"SQ");
    sq.push_tag(b"SN", b"chr1");
    sq.push_tag(b"LN", b"248956422");
    h.push_record(&sq);

    let g = h.to_hashmap().unwrap();
    assert_eq!(
        g.get(b"HD").unwrap()[0].get(b"VN").unwrap().as_slice(),
        b"1.6"
    );
    assert_eq!(
        g.get(b"SQ").unwrap()[0].get(b"LN").unwrap().as_slice(),
        b"248956422"
    );
    assert_eq!(g.get(b"SQ").unwrap()[0].get(b"SN").unwrap().as_slice(), b"chr1");
}

#[test]
fn template_header_round_trips_through_the_parser() {
    let h = Header::from_template(b"@HD\tVN:1.6\n@SQ\tSN:chr1\tLN:100\n");
    let g = h.to_hashmap().unwrap();
    assert_eq!(g.len(), 2);
    assert_eq!(
        g.get(b"SQ").unwrap()[0].get(b"LN").unwrap().as_slice(),
        b"100"
    );
}
