use sam_header::header::Header;
use sam_header::record::HeaderRecord;
use sam_header::writer::{Writer, WriterError};

fn two_record_header() -> Header {
    let mut h = Header::new();
    let mut hd = HeaderRecord::new(b"HD");
    hd.push_tag(b"VN", b"1.6");
    h.push_record(&hd);
    let mut sq = HeaderRecord::new(b"SQ");
    sq.push_tag(b"SN", b"chr1");
    sq.push_tag(b"LN", b"100");
    h.push_record(&sq);
    h
}

#[test]
fn header_bytes_precede_every_record_on_the_stream() {
    let h = two_record_header();
    let header_bytes = h.to_bytes();
    let mut w = Writer::from_path(b"out.sam", &h).unwrap();
    w.write(b"read1\t0\tchr1\t1\t60\t4M\t*\t0\t0\tACGT\tIIII").unwrap();
    let stream = w.into_bytes();
    assert!(stream.starts_with(header_bytes.as_slice()));
    let mut expected = header_bytes.clone();
    expected.push(b'\n');
    expected.extend_from_slice(b"read1\t0\tchr1\t1\t60\t4M\t*\t0\t0\tACGT\tIIII");
    expected.push(b'\n');
    assert_eq!(stream, expected);
}

#[test]
fn construction_writes_the_header_exactly_once_before_any_record() {
    let h = two_record_header();
    let w = Writer::from_stdout(&h).unwrap();
    let mut expected = h.to_bytes();
    expected.push(b'\n');
    assert_eq!(w.stream_bytes().as_slice(), expected.as_slice());
}

#[test]
fn several_writes_append_in_call_order() {
    let h = two_record_header();
    let mut w = Writer::from_path(b"out.sam", &h).unwrap();
    w.write(b"r1").unwrap();
    w.write(b"r2").unwrap();
    let mut expected = h.to_bytes();
    expected.extend_from_slice(b"\nr1\nr2\n");
    assert_eq!(w.into_bytes(), expected);
}

#[test]
fn unopenable_paths_fail_with_open_failure_and_no_writer() {
    let h = two_record_header();
    assert_eq!(Writer::from_path(b"", &h).unwrap_err(), WriterError::OpenFailure);
    assert_eq!(
        Writer::from_path(b"bad\0path", &h).unwrap_err(),
        WriterError::OpenFailure
    );
    assert!(Writer::from_path(b"-", &h).is_ok());
}

#[test]
fn writer_keeps_its_header_snapshot_after_the_source_mutates() {
    let mut h = two_record_header();
    let snapshot = h.to_bytes();
    let w = Writer::from_stdout(&h).unwrap();
    h.push_comment(b"added after the writer was made");
    assert_eq!(w.header_bytes().as_slice(), snapshot.as_slice());
    assert_ne!(h.to_bytes(), snapshot);
}
