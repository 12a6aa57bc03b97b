use bam2sam::header::{Header, RefSeq};
use bam2sam::record::{DecodeError, Record};
use bam2sam::sam::{from_bam_with_filter, BamReader, FilterDecision, SAMError, SinkDest};

fn two_ref_header() -> Header {
    Header {
        refs: vec![
            RefSeq { name: b"r1".to_vec(), len: 5 },
            RefSeq { name: b"r2".to_vec(), len: 9 },
        ],
        comments: vec![b"note".to_vec()],
    }
}

fn rec(qname: &str, flag: u16, ref_id: i64, pos: u32, mapq: u8) -> Record {
    Record { qname: qname.as_bytes().to_vec(), flag, ref_id, pos, mapq }
}

fn header_block() -> Vec<u8> {
    b"@SQ\tSN:r1\tLN:5\n@SQ\tSN:r2\tLN:9\n@CO\tnote\n".to_vec()
}

fn reader(records: Vec<Result<Record, DecodeError>>) -> BamReader {
    BamReader::from_parts(two_ref_header(), records)
}

#[test]
fn test_order_preservation() {
    let bam = reader(vec![
        Ok(rec("a", 0, 0, 1, 30)),
        Ok(rec("b", 0, 1, 2, 31)),
        Ok(rec("c", 0, -1, 0, 0)),
    ]);
    let sink = from_bam_with_filter(Some(bam), "out.sam", |_r: &Record| FilterDecision::Keep)
        .expect("an always-keep run must complete");
    let mut expected = header_block();
    expected.extend_from_slice(b"a\t0\tr1\t1\t30\n");
    expected.extend_from_slice(b"b\t0\tr2\t2\t31\n");
    expected.extend_from_slice(b"c\t0\t*\t0\t0\n");
    assert_eq!(sink.buf, expected);
    assert!(sink.closed);
    assert_eq!(sink.dest, SinkDest::Path("out.sam".to_string()));
}

#[test]
fn test_stop_semantics() {
    // flags make the records distinguishable; stop at index 2
    let bam = reader(vec![
        Ok(rec("a", 0, 0, 1, 30)),
        Ok(rec("b", 1, 0, 2, 30)),
        Ok(rec("c", 2, 0, 3, 30)),
        Ok(rec("d", 3, 0, 4, 30)),
    ]);
    let sink = from_bam_with_filter(Some(bam), "out.sam", |r: &Record| {
        if r.flag == 2 {
            FilterDecision::Stop
        } else {
            FilterDecision::Keep
        }
    })
    .expect("a stopped run completes; it is not an error");
    let mut expected = header_block();
    expected.extend_from_slice(b"a\t0\tr1\t1\t30\n");
    expected.extend_from_slice(b"b\t1\tr1\t2\t30\n");
    assert_eq!(sink.buf, expected);
    assert!(sink.closed);
}

#[test]
fn test_stop_before_first_record() {
    let bam = reader(vec![Ok(rec("a", 0, 0, 1, 30))]);
    let sink = from_bam_with_filter(Some(bam), "out.sam", |_r: &Record| FilterDecision::Stop)
        .expect("a stopped run completes");
    assert_eq!(sink.buf, header_block());
    assert!(sink.closed);
}

#[test]
fn test_discard_semantics() {
    let bam = reader(vec![
        Ok(rec("a", 0, 0, 1, 30)),
        Ok(rec("b", 0, 1, 2, 30)),
    ]);
    let sink = from_bam_with_filter(Some(bam), "out.sam", |_r: &Record| FilterDecision::Discard)
        .expect("an all-discard run must complete");
    assert_eq!(sink.buf, header_block());
    assert!(sink.closed);
}

#[test]
fn test_open_failure_isolation() {
    // the input descriptor could not be opened: no sink is created
    match from_bam_with_filter(None, "out.sam", |_r: &Record| FilterDecision::Keep) {
        Err(SAMError::IOError) => {}
        Ok(_) => panic!("an unopenable input must abort"),
    }
}

#[test]
fn test_decode_failure_aborts() {
    let bam = reader(vec![
        Ok(rec("a", 0, 0, 1, 30)),
        Err(DecodeError {}),
        Ok(rec("c", 0, 0, 3, 30)),
    ]);
    match from_bam_with_filter(Some(bam), "out.sam", |_r: &Record| FilterDecision::Keep) {
        Err(SAMError::IOError) => {}
        Ok(_) => panic!("a decode failure must abort"),
    }
}

#[test]
fn test_write_failure_aborts() {
    // reference index 7 does not resolve against the two-entry table
    let bam = reader(vec![Ok(rec("a", 0, 7, 1, 30))]);
    match from_bam_with_filter(Some(bam), "out.sam", |_r: &Record| FilterDecision::Keep) {
        Err(SAMError::IOError) => {}
        Ok(_) => panic!("a failed write must abort"),
    }
}

#[test]
fn test_malformed_input_header_aborts() {
    let bad = Header { refs: vec![RefSeq { name: b"a\tb".to_vec(), len: 1 }], comments: vec![] };
    let bam = BamReader::from_parts(bad, vec![]);
    match from_bam_with_filter(Some(bam), "out.sam", |_r: &Record| FilterDecision::Keep) {
        Err(SAMError::IOError) => {}
        Ok(_) => panic!("a malformed input header must abort"),
    }
}

#[test]
fn test_empty_output_descriptor_aborts() {
    let bam = reader(vec![]);
    match from_bam_with_filter(Some(bam), "", |_r: &Record| FilterDecision::Keep) {
        Err(SAMError::IOError) => {}
        Ok(_) => panic!("an empty output path must abort"),
    }
}

#[test]
fn test_stdout_descriptor() {
    let bam = reader(vec![]);
    let sink = from_bam_with_filter(Some(bam), "-", |_r: &Record| FilterDecision::Keep)
        .expect("an empty run must complete");
    assert_eq!(sink.dest, SinkDest::Stdout);
    assert_eq!(sink.buf, header_block());
    assert!(sink.closed);
}

#[test]
fn test_end_to_end_flag_filter() {
    // five records; indices 0, 2, 4 have flag bit 0x4 unset and pass
    let bam = reader(vec![
        Ok(rec("q0", 0, 0, 1, 30)),
        Ok(rec("q1", 4, 0, 2, 30)),
        Ok(rec("q2", 16, 1, 3, 30)),
        Ok(rec("q3", 5, 1, 4, 30)),
        Ok(rec("q4", 0, -1, 0, 0)),
    ]);
    let sink = from_bam_with_filter(Some(bam), "out.sam", |r: &Record| {
        if r.flag & 4 == 0 {
            FilterDecision::Keep
        } else {
            FilterDecision::Discard
        }
    })
    .expect("the filtered run must complete");
    let mut expected = header_block();
    expected.extend_from_slice(b"q0\t0\tr1\t1\t30\n");
    expected.extend_from_slice(b"q2\t16\tr2\t3\t30\n");
    expected.extend_from_slice(b"q4\t0\t*\t0\t0\n");
    assert_eq!(sink.buf, expected);
    assert!(sink.closed);
}

#[test]
fn test_completed_output_reparses() {
    // the header block of a completed run, cut at the first record
    // line, decodes back to the input header's reference metadata
    let bam = reader(vec![Ok(rec("a", 0, 0, 1, 30))]);
    let sink = from_bam_with_filter(Some(bam), "out.sam", |_r: &Record| FilterDecision::Keep)
        .expect("the run must complete");
    let block = header_block();
    let reparsed = Header::parse(&sink.buf[..block.len()].to_vec()).expect("header must reparse");
    assert_eq!(reparsed.refs, two_ref_header().refs);
    assert_eq!(reparsed.comments, two_ref_header().comments);
}
