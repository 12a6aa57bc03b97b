use bam2sam::header::{Header, RefSeq};

fn hdr(refs: &[(&str, u32)], comments: &[&str]) -> Header {
    Header {
        refs: refs
            .iter()
            .map(|(n, l)| RefSeq { name: n.as_bytes().to_vec(), len: *l })
            .collect(),
        comments: comments.iter().map(|c| c.as_bytes().to_vec()).collect(),
    }
}

#[test]
fn test_header_round_trip() {
    let h = hdr(
        &[("chr1", 249250621), ("chrM", 16569), ("x", 0)],
        &["produced for a round trip", "tabs\tare\tfine", ""],
    );
    let bytes = h.serialize();
    let parsed = Header::parse(&bytes).expect("serialized header must parse");
    assert_eq!(parsed.refs, h.refs);
    assert_eq!(parsed.comments, h.comments);
}

#[test]
fn test_serialize_exact_bytes() {
    let h = hdr(&[("r1", 5)], &["hello"]);
    let bytes = h.serialize();
    assert_eq!(bytes, b"@SQ\tSN:r1\tLN:5\n@CO\thello\n".to_vec());
}

#[test]
fn test_serialize_empty_header() {
    let h = hdr(&[], &[]);
    assert_eq!(h.serialize(), Vec::<u8>::new());
}

#[test]
fn test_parse_accepts_leading_zeros() {
    let parsed = Header::parse(&b"@SQ\tSN:x\tLN:007\n".to_vec()).expect("must parse");
    assert_eq!(parsed.refs.len(), 1);
    assert_eq!(parsed.refs[0].len, 7);
    assert_eq!(parsed.refs[0].name, b"x".to_vec());
}

#[test]
fn test_parse_rejects_malformed_blocks() {
    // missing terminating newline
    assert!(Header::parse(&b"@SQ\tSN:x\tLN:7".to_vec()).is_none());
    // unknown tag
    assert!(Header::parse(&b"@HX\tSN:x\tLN:7\n".to_vec()).is_none());
    // empty reference name
    assert!(Header::parse(&b"@SQ\tSN:\tLN:7\n".to_vec()).is_none());
    // missing length field
    assert!(Header::parse(&b"@SQ\tSN:x\n".to_vec()).is_none());
    // non-digit length
    assert!(Header::parse(&b"@SQ\tSN:x\tLN:7a\n".to_vec()).is_none());
    // empty length
    assert!(Header::parse(&b"@SQ\tSN:x\tLN:\n".to_vec()).is_none());
    // length beyond 32 bits
    assert!(Header::parse(&b"@SQ\tSN:x\tLN:4294967296\n".to_vec()).is_none());
}

#[test]
fn test_parse_largest_length() {
    let parsed = Header::parse(&b"@SQ\tSN:x\tLN:4294967295\n".to_vec()).expect("must parse");
    assert_eq!(parsed.refs[0].len, u32::MAX);
}

#[test]
fn test_from_template_deep_copy() {
    let h = hdr(&[("chr1", 10)], &["note"]);
    let copy = Header::from_template(&h).expect("well-formed header must copy");
    assert_eq!(copy.refs, h.refs);
    assert_eq!(copy.comments, h.comments);
}

#[test]
fn test_from_template_rejects_malformed() {
    // a tab inside a reference name cannot round-trip
    let bad = hdr(&[("bad\tname", 1)], &[]);
    assert!(Header::from_template(&bad).is_none());
    // a newline inside annotation text cannot round-trip
    let bad2 = hdr(&[], &["two\nlines"]);
    assert!(Header::from_template(&bad2).is_none());
}
