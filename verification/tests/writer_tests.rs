use bam2sam::header::{Header, RefSeq};
use bam2sam::record::Record;
use bam2sam::sam::{SAMError, SAMHeaderView, SAMWriter, SinkDest, WriteError};

fn one_ref_header() -> Header {
    Header {
        refs: vec![RefSeq { name: b"r1".to_vec(), len: 5 }],
        comments: vec![b"hello".to_vec()],
    }
}

fn rec(qname: &str, flag: u16, ref_id: i64, pos: u32, mapq: u8) -> Record {
    Record { qname: qname.as_bytes().to_vec(), flag, ref_id, pos, mapq }
}

#[test]
fn test_from_path_writes_header_once() {
    let h = one_ref_header();
    let w = SAMWriter::from_path("out.sam", &h).expect("open must succeed");
    assert_eq!(w.f.buf, b"@SQ\tSN:r1\tLN:5\n@CO\thello\n".to_vec());
    assert!(!w.f.closed);
    assert_eq!(w.f.dest, SinkDest::Path("out.sam".to_string()));
    assert!(w.header.owned);
    assert_eq!(w.header.inner.refs, h.refs);
}

#[test]
fn test_from_stdout_dest() {
    let h = one_ref_header();
    let w = SAMWriter::from_stdout(&h).expect("open must succeed");
    assert_eq!(w.f.dest, SinkDest::Stdout);
    assert_eq!(w.f.buf, h.serialize());
}

#[test]
fn test_from_path_empty_path_fails() {
    let h = one_ref_header();
    match SAMWriter::from_path("", &h) {
        Err(SAMError::IOError) => {}
        Ok(_) => panic!("an empty path must not open"),
    }
}

#[test]
fn test_write_appends_records() {
    let h = one_ref_header();
    let mut w = SAMWriter::from_path("out.sam", &h).expect("open must succeed");
    w.write(&rec("a", 0, 0, 3, 7)).expect("in-range record must write");
    w.write(&rec("b", 16, -1, 0, 255)).expect("unmapped record must write");
    let mut expected = b"@SQ\tSN:r1\tLN:5\n@CO\thello\n".to_vec();
    expected.extend_from_slice(b"a\t0\tr1\t3\t7\n");
    expected.extend_from_slice(b"b\t16\t*\t0\t255\n");
    assert_eq!(w.f.buf, expected);
    let sink = w.close();
    assert!(sink.closed);
    assert_eq!(sink.buf, expected);
}

#[test]
fn test_write_error_leaves_sink_unchanged() {
    let h = one_ref_header();
    let mut w = SAMWriter::from_path("out.sam", &h).expect("open must succeed");
    let before = w.f.buf.clone();
    match w.write(&rec("a", 0, 1, 3, 7)) {
        Err(WriteError::Failed) => {}
        Ok(()) => panic!("a reference index beyond the table must fail"),
    }
    match w.write(&rec("a", 0, -2, 3, 7)) {
        Err(WriteError::Failed) => {}
        Ok(()) => panic!("a reference index below -1 must fail"),
    }
    assert_eq!(w.f.buf, before);
}

#[test]
fn test_write_error_description() {
    assert_eq!(WriteError::Failed.description(), "error writing record".to_string());
}

#[test]
fn test_header_view_owns() {
    let h = one_ref_header();
    let v = SAMHeaderView::new(h);
    assert!(v.owned);
    assert_eq!(v.inner().refs[0].name, b"r1".to_vec());
}
