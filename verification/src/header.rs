//! The in-memory header model: reference-sequence metadata plus free-text
//! annotation lines, with a canonical textual serialization and its
//! inverse. The serialization is a sequence of newline-terminated lines:
//! one `@SQ\tSN:<name>\tLN:<length>` line per reference sequence followed
//! by one `@CO\t<text>` line per annotation. Parsing a serialized
//! well-formed header recovers it structurally (the round-trip law).

use vstd::prelude::*;

use crate::digits::{all_digits, copy_range, dec_bytes, dec_val, is_digit, lemma_dec_bytes_val, lemma_dec_val_take, push_bytes, push_dec_u32};

verus! {

/// One reference sequence: its name and its length.
#[derive(Debug, Clone, PartialEq)]
pub struct RefSeq {
    pub name: Vec<u8>,
    pub len: u32,
}

/// The header model: reference sequences in order, then annotation lines
/// in order.
#[derive(Debug, Clone, PartialEq)]
pub struct Header {
    pub refs: Vec<RefSeq>,
    pub comments: Vec<Vec<u8>>,
}

/// A reference name is non-empty and contains neither tab nor newline,
/// so that its line parses back unambiguously.
pub open spec fn name_wf(name: Seq<u8>) -> bool {
    &&& name.len() > 0
    &&& forall|i: int| 0 <= i < name.len() ==> #[trigger] name[i] != 9 && name[i] != 10
}

/// Annotation text is a single line: it contains no newline.
pub open spec fn text_wf(text: Seq<u8>) -> bool {
    forall|i: int| 0 <= i < text.len() ==> #[trigger] text[i] != 10
}

/// `"@SQ\tSN:"`, the prefix of a reference-sequence line.
pub open spec fn sq_tag() -> Seq<u8> {
    seq![64u8, 83u8, 81u8, 9u8, 83u8, 78u8, 58u8]
}

/// `"\tLN:"`, separating the name from the length.
pub open spec fn ln_tag() -> Seq<u8> {
    seq![9u8, 76u8, 78u8, 58u8]
}

/// `"@CO\t"`, the prefix of an annotation line.
pub open spec fn co_tag() -> Seq<u8> {
    seq![64u8, 67u8, 79u8, 9u8]
}

pub open spec fn sq_body(name: Seq<u8>, len: u32) -> Seq<u8> {
    sq_tag() + name + ln_tag() + dec_bytes(len as nat)
}

pub open spec fn sq_line(name: Seq<u8>, len: u32) -> Seq<u8> {
    sq_body(name, len) + seq![10u8]
}

pub open spec fn co_body(text: Seq<u8>) -> Seq<u8> {
    co_tag() + text
}

pub open spec fn co_line(text: Seq<u8>) -> Seq<u8> {
    co_body(text) + seq![10u8]
}

pub open spec fn refs_bytes(refs: Seq<RefSeq>) -> Seq<u8>
    decreases refs.len(),
{
    if refs.len() == 0 {
        Seq::empty()
    } else {
        sq_line(refs[0].name@, refs[0].len) + refs_bytes(refs.drop_first())
    }
}

pub open spec fn comments_bytes(cs: Seq<Vec<u8>>) -> Seq<u8>
    decreases cs.len(),
{
    if cs.len() == 0 {
        Seq::empty()
    } else {
        co_line(cs[0]@) + comments_bytes(cs.drop_first())
    }
}

/// The canonical textual block of a header.
pub open spec fn header_bytes(h: Header) -> Seq<u8> {
    refs_bytes(h.refs@) + comments_bytes(h.comments@)
}

/// Logical content of a header, with the byte vectors abstracted to
/// sequences; two headers are structurally equivalent when their views
/// agree.
pub open spec fn refs_view(refs: Seq<RefSeq>) -> Seq<(Seq<u8>, u32)> {
    refs.map_values(|r: RefSeq| (r.name@, r.len))
}

pub open spec fn comments_view(cs: Seq<Vec<u8>>) -> Seq<Seq<u8>> {
    cs.map_values(|c: Vec<u8>| c@)
}

/// Structural equivalence: same reference names, lengths and order, and
/// the same annotation lines.
pub open spec fn equiv(a: Header, b: Header) -> bool {
    refs_view(a.refs@) == refs_view(b.refs@) && comments_view(a.comments@) == comments_view(
        b.comments@,
    )
}

impl Header {
    /// Every reference name and annotation line is well formed.
    pub open spec fn wf(&self) -> bool {
        &&& forall|i: int| 0 <= i < self.refs@.len() ==> name_wf(#[trigger] self.refs@[i].name@)
        &&& forall|i: int|
            0 <= i < self.comments@.len() ==> text_wf(#[trigger] self.comments@[i]@)
    }
}

/// Index of the first occurrence of `c` in `s`, or `s.len()` if absent.
pub open spec fn first_occ(s: Seq<u8>, c: u8) -> nat
    decreases s.len(),
{
    if s.len() == 0 {
        0
    } else if s[0] == c {
        0
    } else {
        1 + first_occ(s.drop_first(), c)
    }
}

/// A prefix free of `c` followed by `c` fixes the first occurrence.
pub proof fn lemma_first_occ_is(s: Seq<u8>, c: u8, k: int)
    requires
        0 <= k <= s.len(),
        forall|i: int| 0 <= i < k ==> #[trigger] s[i] != c,
        k < s.len() ==> s[k] == c,
    ensures
        first_occ(s, c) == k,
    decreases s.len(),
{
    if s.len() == 0 {
    } else if s[0] == c {
        assert(k == 0);
    } else {
        let t = s.drop_first();
        assert(forall|i: int| 0 <= i < k - 1 ==> #[trigger] t[i] != c);
        assert(k - 1 < t.len() ==> t[k - 1] == c);
        assert(k >= 1);
        lemma_first_occ_is(t, c, k - 1);
    }
}

/// The parsed content of a single header line.
pub enum HeaderLine {
    RefLine { name: Seq<u8>, len: u32 },
    CommentLine { text: Seq<u8> },
}

/// Logical shape recovered by parsing a header block.
#[verifier::ext_equal]
pub struct HeaderShape {
    pub refs: Seq<(Seq<u8>, u32)>,
    pub comments: Seq<Seq<u8>>,
}

/// Parses one line (without its terminating newline).
pub open spec fn parse_line(line: Seq<u8>) -> Option<HeaderLine> {
    if line.len() >= 4 && line.take(4) == co_tag() {
        Some(HeaderLine::CommentLine { text: line.skip(4) })
    } else if line.len() >= 7 && line.take(7) == sq_tag() {
        let rest = line.skip(7);
        let t = first_occ(rest, 9) as int;
        if t == 0 || t >= rest.len() {
            None
        } else {
            let name = rest.take(t);
            let after = rest.skip(t);
            if after.len() >= 4 && after.take(4) == ln_tag() {
                let ds = after.skip(4);
                if ds.len() > 0 && all_digits(ds) && dec_val(ds) <= u32::MAX {
                    Some(HeaderLine::RefLine { name, len: dec_val(ds) as u32 })
                } else {
                    None
                }
            } else {
                None
            }
        }
    } else {
        None
    }
}

/// Parses a whole header block: a sequence of newline-terminated lines.
pub open spec fn parse_header(bytes: Seq<u8>) -> Option<HeaderShape>
    decreases bytes.len(),
{
    if bytes.len() == 0 {
        Some(HeaderShape { refs: Seq::empty(), comments: Seq::empty() })
    } else {
        let k = first_occ(bytes, 10) as int;
        if k >= bytes.len() {
            None
        } else {
            let line = bytes.take(k);
            let rest = bytes.skip(k + 1);
            match (parse_line(line), parse_header(rest)) {
                (Some(item), Some(shape)) => match item {
                    HeaderLine::RefLine { name, len } => Some(
                        HeaderShape { refs: seq![(name, len)] + shape.refs, comments: shape.comments },
                    ),
                    HeaderLine::CommentLine { text } => Some(
                        HeaderShape { refs: shape.refs, comments: seq![text] + shape.comments },
                    ),
                },
                _ => None,
            }
        }
    }
}

/// The body of a reference line contains no newline.
proof fn lemma_sq_body_clean(name: Seq<u8>, len: u32)
    requires
        name_wf(name),
    ensures
        forall|i: int| 0 <= i < sq_body(name, len).len() ==> #[trigger] sq_body(name, len)[i] != 10,
{
    lemma_dec_bytes_val(len as nat);
    let b = sq_body(name, len);
    assert forall|i: int| 0 <= i < b.len() implies #[trigger] b[i] != 10 by {
        let d = dec_bytes(len as nat);
        if i < 7 {
            assert(b[i] == sq_tag()[i]);
        } else if i < 7 + name.len() {
            assert(b[i] == name[i - 7]);
        } else if i < 7 + name.len() + 4 {
            assert(b[i] == ln_tag()[i - 7 - name.len()]);
        } else {
            assert(b[i] == d[i - 7 - name.len() - 4]);
            assert(is_digit(d[i - 7 - name.len() - 4]));
        }
    }
}

/// The body of an annotation line contains no newline.
proof fn lemma_co_body_clean(text: Seq<u8>)
    requires
        text_wf(text),
    ensures
        forall|i: int| 0 <= i < co_body(text).len() ==> #[trigger] co_body(text)[i] != 10,
{
    let b = co_body(text);
    assert forall|i: int| 0 <= i < b.len() implies #[trigger] b[i] != 10 by {
        if i < 4 {
            assert(b[i] == co_tag()[i]);
        } else {
            assert(b[i] == text[i - 4]);
        }
    }
}

/// A serialized reference line parses back to its name and length.
proof fn lemma_parse_sq_body(name: Seq<u8>, len: u32)
    requires
        name_wf(name),
    ensures
        parse_line(sq_body(name, len)) == Some(HeaderLine::RefLine { name, len }),
{
    lemma_dec_bytes_val(len as nat);
    let line = sq_body(name, len);
    let d = dec_bytes(len as nat);
    assert(line.len() >= 7 + name.len() + 4 + 1);
    // not an annotation line: the tags differ at their second byte
    assert(line[1] == sq_tag()[1]);
    assert(sq_tag()[1] == 83 && co_tag()[1] == 67);
    assert(!(line.len() >= 4 && line.take(4) == co_tag())) by {
        if line.len() >= 4 && line.take(4) == co_tag() {
            assert(line.take(4)[1] == line[1]);
        }
    }
    assert(line.take(7) =~= sq_tag());
    let rest = line.skip(7);
    assert(rest =~= name + seq![9u8] + (ln_tag().skip(1) + d));
    lemma_first_occ_is(rest, 9, name.len() as int);
    let t = name.len() as int;
    assert(first_occ(rest, 9) == t);
    assert(t > 0 && t < rest.len());
    assert(rest.take(t) =~= name);
    let after = rest.skip(t);
    assert(after =~= ln_tag() + d);
    assert(after.len() >= 4);
    assert(after.take(4) =~= ln_tag());
    assert(after.skip(4) =~= d);
    assert(d.len() > 0 && all_digits(d) && dec_val(d) == len as nat);
    assert(parse_line(line) == Some(HeaderLine::RefLine { name, len }));
}

/// A serialized annotation line parses back to its text.
proof fn lemma_parse_co_body(text: Seq<u8>)
    ensures
        parse_line(co_body(text)) == Some(HeaderLine::CommentLine { text }),
{
    let line = co_body(text);
    assert(line.take(4) =~= co_tag());
    assert(line.skip(4) =~= text);
}

/// Parsing the serialization of well-formed reference sequences and
/// annotations recovers exactly their logical content.
proof fn lemma_parse_serialized(refs: Seq<RefSeq>, cs: Seq<Vec<u8>>)
    requires
        forall|i: int| 0 <= i < refs.len() ==> name_wf(#[trigger] refs[i].name@),
        forall|i: int| 0 <= i < cs.len() ==> text_wf(#[trigger] cs[i]@),
    ensures
        parse_header(refs_bytes(refs) + comments_bytes(cs)) == Some(
            HeaderShape { refs: refs_view(refs), comments: comments_view(cs) },
        ),
    decreases refs.len(), cs.len(),
{
    let bytes = refs_bytes(refs) + comments_bytes(cs);
    if refs.len() > 0 {
        let r0 = refs[0];
        let body = sq_body(r0.name@, r0.len);
        let tail = refs_bytes(refs.drop_first()) + comments_bytes(cs);
        assert(bytes =~= body + seq![10u8] + tail);
        lemma_sq_body_clean(r0.name@, r0.len);
        lemma_first_occ_is(bytes, 10, body.len() as int);
        assert(bytes.take(body.len() as int) =~= body);
        assert(bytes.skip(body.len() as int + 1) =~= tail);
        lemma_parse_sq_body(r0.name@, r0.len);
        lemma_parse_serialized(refs.drop_first(), cs);
        let shape = parse_header(tail)->Some_0;
        assert(seq![(r0.name@, r0.len)] + shape.refs =~= refs_view(refs)) by {
            assert(shape.refs == refs_view(refs.drop_first()));
        }
        assert(shape.comments == comments_view(cs));
        assert(parse_header(bytes)->Some_0 =~= HeaderShape {
            refs: refs_view(refs),
            comments: comments_view(cs),
        });
    } else if cs.len() > 0 {
        assert(refs_bytes(refs) =~= Seq::<u8>::empty());
        let c0 = cs[0];
        let body = co_body(c0@);
        let tail = comments_bytes(cs.drop_first());
        assert(bytes =~= body + seq![10u8] + tail);
        lemma_co_body_clean(c0@);
        lemma_first_occ_is(bytes, 10, body.len() as int);
        assert(bytes.take(body.len() as int) =~= body);
        assert(bytes.skip(body.len() as int + 1) =~= tail);
        lemma_parse_co_body(c0@);
        lemma_parse_serialized(refs, cs.drop_first());
        assert(tail =~= refs_bytes(refs) + comments_bytes(cs.drop_first()));
        let shape = parse_header(tail)->Some_0;
        assert(refs_view(refs) =~= Seq::<(Seq<u8>, u32)>::empty());
        assert(shape.refs == refs_view(refs));
        assert(seq![c0@] + shape.comments =~= comments_view(cs)) by {
            assert(shape.comments == comments_view(cs.drop_first()));
        }
        assert(parse_header(bytes)->Some_0 =~= HeaderShape {
            refs: refs_view(refs),
            comments: comments_view(cs),
        });
    } else {
        assert(bytes =~= Seq::<u8>::empty());
        assert(refs_view(refs) =~= Seq::<(Seq<u8>, u32)>::empty());
        assert(comments_view(cs) =~= Seq::<Seq<u8>>::empty());
        assert(parse_header(bytes)->Some_0 =~= HeaderShape {
            refs: refs_view(refs),
            comments: comments_view(cs),
        });
    }
}

proof fn lemma_refs_bytes_snoc(refs: Seq<RefSeq>, r: RefSeq)
    ensures
        refs_bytes(refs.push(r)) == refs_bytes(refs) + sq_line(r.name@, r.len),
    decreases refs.len(),
{
    if refs.len() == 0 {
        assert(refs.push(r)[0] == r);
        assert(refs.push(r).drop_first() =~= refs);
        assert(refs_bytes(refs.push(r)) =~= refs_bytes(refs) + sq_line(r.name@, r.len));
    } else {
        lemma_refs_bytes_snoc(refs.drop_first(), r);
        assert(refs.push(r)[0] == refs[0]);
        assert(refs.push(r).drop_first() =~= refs.drop_first().push(r));
        assert(refs_bytes(refs.push(r)) =~= refs_bytes(refs) + sq_line(r.name@, r.len));
    }
}

proof fn lemma_comments_bytes_snoc(cs: Seq<Vec<u8>>, c: Vec<u8>)
    ensures
        comments_bytes(cs.push(c)) == comments_bytes(cs) + co_line(c@),
    decreases cs.len(),
{
    if cs.len() == 0 {
        assert(cs.push(c)[0] == c);
        assert(cs.push(c).drop_first() =~= cs);
        assert(comments_bytes(cs.push(c)) =~= comments_bytes(cs) + co_line(c@));
    } else {
        lemma_comments_bytes_snoc(cs.drop_first(), c);
        assert(cs.push(c)[0] == cs[0]);
        assert(cs.push(c).drop_first() =~= cs.drop_first().push(c));
        assert(comments_bytes(cs.push(c)) =~= comments_bytes(cs) + co_line(c@));
    }
}

/// Prepends already-parsed lines in front of the shape parsed from the
/// remaining bytes.
pub open spec fn shape_prepend(
    rs: Seq<(Seq<u8>, u32)>,
    cs: Seq<Seq<u8>>,
    p: Option<HeaderShape>,
) -> Option<HeaderShape> {
    match p {
        Some(s) => Some(HeaderShape { refs: rs + s.refs, comments: cs + s.comments }),
        None => None,
    }
}

/// Index of the first occurrence of `c` in `bytes[from..upto]`, or `upto`
/// if there is none.
fn find_byte(bytes: &Vec<u8>, from: usize, upto: usize, c: u8) -> (j: usize)
    requires
        from <= upto <= bytes@.len(),
    ensures
        from <= j <= upto,
        j - from == first_occ(bytes@.subrange(from as int, upto as int), c),
        j < upto ==> bytes@[j as int] == c,
        forall|t: int| from <= t < j ==> bytes@[t] != c,
{
    let mut j = from;
    loop
        invariant_except_break
            from <= j <= upto <= bytes@.len(),
            forall|t: int| from <= t < j ==> bytes@[t] != c,
        ensures
            from <= j <= upto,
            forall|t: int| from <= t < j ==> bytes@[t] != c,
            j < upto ==> bytes@[j as int] == c,
        decreases upto - j,
    {
        if j == upto {
            break;
        }
        if bytes[j] == c {
            break;
        }
        j += 1;
    }
    proof {
        let s = bytes@.subrange(from as int, upto as int);
        assert forall|i: int| 0 <= i < j - from implies #[trigger] s[i] != c by {
            assert(s[i] == bytes@[from + i]);
        }
        lemma_first_occ_is(s, c, j - from);
    }
    j
}

impl Header {
    /// Produces the canonical textual header block. Idempotent: the
    /// result is a function of the header's logical content alone.
    pub fn serialize(&self) -> (out: Vec<u8>)
        ensures
            out@ == header_bytes(*self),
            self.refs@.len() > 0 || self.comments@.len() > 0 ==> out@.len() > 0,
    {
        let mut out: Vec<u8> = Vec::new();
        let mut i: usize = 0;
        proof {
            assert(refs_bytes(self.refs@.take(0)) =~= Seq::<u8>::empty());
            assert(out@ =~= refs_bytes(self.refs@.take(0)));
        }
        while i < self.refs.len()
            invariant
                i <= self.refs@.len(),
                out@ == refs_bytes(self.refs@.take(i as int)),
            decreases self.refs@.len() - i,
        {
            let ghost before = out@;
            let r = &self.refs[i];
            out.push(64);
            out.push(83);
            out.push(81);
            out.push(9);
            out.push(83);
            out.push(78);
            out.push(58);
            push_bytes(&mut out, &r.name);
            out.push(9);
            out.push(76);
            out.push(78);
            out.push(58);
            push_dec_u32(&mut out, r.len);
            out.push(10);
            proof {
                assert(out@ =~= before + sq_line(r.name@, r.len));
                lemma_refs_bytes_snoc(self.refs@.take(i as int), self.refs@[i as int]);
                assert(self.refs@.take(i + 1) =~= self.refs@.take(i as int).push(
                    self.refs@[i as int],
                ));
            }
            i += 1;
        }
        proof {
            assert(self.refs@.take(self.refs@.len() as int) =~= self.refs@);
        }
        let mut k: usize = 0;
        proof {
            assert(comments_bytes(self.comments@.take(0)) =~= Seq::<u8>::empty());
            assert(out@ =~= refs_bytes(self.refs@) + comments_bytes(self.comments@.take(0)));
        }
        while k < self.comments.len()
            invariant
                k <= self.comments@.len(),
                out@ == refs_bytes(self.refs@) + comments_bytes(self.comments@.take(k as int)),
            decreases self.comments@.len() - k,
        {
            let ghost before = out@;
            let c = &self.comments[k];
            out.push(64);
            out.push(67);
            out.push(79);
            out.push(9);
            push_bytes(&mut out, c);
            out.push(10);
            proof {
                assert(out@ =~= before + co_line(c@));
                lemma_comments_bytes_snoc(self.comments@.take(k as int), self.comments@[k as int]);
                assert(self.comments@.take(k + 1) =~= self.comments@.take(k as int).push(
                    self.comments@[k as int],
                ));
                assert(out@ =~= refs_bytes(self.refs@) + comments_bytes(
                    self.comments@.take(k + 1),
                ));
            }
            k += 1;
        }
        proof {
            assert(self.comments@.take(self.comments@.len() as int) =~= self.comments@);
        }
        out
    }
}

} // verus!

verus! {

/// A reference name passes exactly when it is well formed.
fn name_ok(v: &Vec<u8>) -> (r: bool)
    ensures
        r == name_wf(v@),
{
    if v.len() == 0 {
        return false;
    }
    let mut i: usize = 0;
    while i < v.len()
        invariant
            i <= v@.len(),
            forall|t: int| 0 <= t < i ==> #[trigger] v@[t] != 9 && v@[t] != 10,
        decreases v@.len() - i,
    {
        let b = v[i];
        if b == 9 || b == 10 {
            return false;
        }
        i += 1;
    }
    true
}

/// Annotation text passes exactly when it is well formed.
fn text_ok(v: &Vec<u8>) -> (r: bool)
    ensures
        r == text_wf(v@),
{
    let mut i: usize = 0;
    while i < v.len()
        invariant
            i <= v@.len(),
            forall|t: int| 0 <= t < i ==> #[trigger] v@[t] != 10,
        decreases v@.len() - i,
    {
        let b = v[i];
        if b == 10 {
            return false;
        }
        i += 1;
    }
    true
}

/// One parsed header line, in executable form.
enum LineVal {
    RefV(RefSeq),
    CoV(Vec<u8>),
}

/// Parses the single line `bytes[pos..j]` (its terminating newline
/// excluded; the range itself contains none).
#[verifier::rlimit(60)]
fn parse_line_at(bytes: &Vec<u8>, pos: usize, j: usize) -> (r: Option<LineVal>)
    requires
        pos <= j <= bytes@.len(),
        forall|t: int| pos <= t < j ==> bytes@[t] != 10,
    ensures
        ({
            let line = bytes@.subrange(pos as int, j as int);
            match r {
                Some(LineVal::RefV(rs)) => parse_line(line) == Some(
                    HeaderLine::RefLine { name: rs.name@, len: rs.len },
                ) && name_wf(rs.name@),
                Some(LineVal::CoV(text)) => parse_line(line) == Some(
                    HeaderLine::CommentLine { text: text@ },
                ) && text_wf(text@),
                None => parse_line(line) is None,
            }
        }),
{
    let ghost line = bytes@.subrange(pos as int, j as int);
    if j - pos >= 4 && bytes[pos] == 64 && bytes[pos + 1] == 67 && bytes[pos + 2] == 79 && bytes[pos
        + 3] == 9 {
        // annotation line
        let text = copy_range(bytes, pos + 4, j);
        proof {
            assert(line.take(4) =~= co_tag());
            assert(line.skip(4) =~= text@);
            assert(parse_line(line) == Some(HeaderLine::CommentLine { text: text@ }));
            assert(text_wf(text@));
        }
        Some(LineVal::CoV(text))
    } else if j - pos >= 7 && bytes[pos] == 64 && bytes[pos + 1] == 83 && bytes[pos + 2] == 81
        && bytes[pos + 3] == 9 && bytes[pos + 4] == 83 && bytes[pos + 5] == 78 && bytes[pos + 6]
        == 58 {
        // reference-sequence line
        proof {
            assert(line.take(7) =~= sq_tag());
            assert(co_tag()[1] == 67);
            assert(!(line.len() >= 4 && line.take(4) == co_tag())) by {
                if line.len() >= 4 && line.take(4) == co_tag() {
                    assert(line.take(4)[1] == line[1]);
                }
            }
        }
        let ghost rest_of_line = line.skip(7);
        let t = find_byte(bytes, pos + 7, j, 9);
        proof {
            assert(rest_of_line =~= bytes@.subrange(pos + 7, j as int));
            assert(first_occ(rest_of_line, 9) == t - (pos + 7));
        }
        if t == j || t == pos + 7 {
            proof {
                assert(parse_line(line) is None);
            }
            return None;
        }
        proof {
            assert(rest_of_line.take(t - (pos + 7)) =~= bytes@.subrange(pos + 7, t as int));
            assert(rest_of_line.skip(t - (pos + 7)) =~= bytes@.subrange(t as int, j as int));
        }
        let ghost after = rest_of_line.skip(t - (pos + 7));
        if j - t < 4 || !(bytes[t + 1] == 76 && bytes[t + 2] == 78 && bytes[t + 3] == 58) {
            proof {
                assert(ln_tag()[1] == 76 && ln_tag()[2] == 78 && ln_tag()[3] == 58);
                if after.len() >= 4 {
                    assert(after[1] == bytes@[t + 1]);
                    assert(after[2] == bytes@[t + 2]);
                    assert(after[3] == bytes@[t + 3]);
                    assert(after.take(4) != ln_tag()) by {
                        if after.take(4) == ln_tag() {
                            assert(after.take(4)[1] == after[1]);
                            assert(after.take(4)[2] == after[2]);
                            assert(after.take(4)[3] == after[3]);
                        }
                    }
                }
                assert(parse_line(line) is None);
            }
            return None;
        }
        proof {
            assert(after[0] == bytes@[t as int]);
            assert(after.take(4) =~= ln_tag());
        }
        let ghost ds = after.skip(4);
        proof {
            assert(ds =~= bytes@.subrange(t + 4, j as int));
        }
        if t + 4 == j {
            proof {
                assert(ds.len() == 0);
                assert(parse_line(line) is None);
            }
            return None;
        }
        // decimal length field
        let mut val: u64 = 0;
        let mut m: usize = t + 4;
        #[verifier::loop_isolation(false)]
        while m < j
            invariant
                t + 4 <= m <= j <= bytes@.len(),
                ds == bytes@.subrange(t + 4, j as int),
                val == dec_val(ds.take(m - (t + 4))),
                val <= u32::MAX,
                forall|q: int| 0 <= q < m - (t + 4) ==> is_digit(#[trigger] ds[q]),
            decreases j - m,
        {
            let b = bytes[m];
            if b < 48 || b > 57 {
                proof {
                    assert(ds[m - (t + 4)] == b);
                    assert(!all_digits(ds));
                    assert(parse_line(line) is None);
                }
                return None;
            }
            proof {
                assert(ds.take(m - (t + 4) + 1).drop_last() =~= ds.take(m - (t + 4)));
                assert(ds.take(m - (t + 4) + 1).last() == ds[m - (t + 4)]);
                assert(ds[m - (t + 4)] == b);
            }
            val = val * 10 + ((b - 48) as u64);
            if val > 0xFFFF_FFFF {
                proof {
                    lemma_dec_val_take(ds, m - (t + 4) + 1);
                    assert(dec_val(ds) > u32::MAX);
                    assert(parse_line(line) is None);
                }
                return None;
            }
            m += 1;
        }
        proof {
            assert(ds.take(ds.len() as int) =~= ds);
            assert(all_digits(ds));
            assert(dec_val(ds) == val);
        }
        let name = copy_range(bytes, pos + 7, t);
        proof {
            assert(name@ =~= rest_of_line.take(t - (pos + 7)));
            assert(parse_line(line) == Some(
                HeaderLine::RefLine { name: name@, len: val as u32 },
            ));
            assert(name_wf(name@)) by {
                assert forall|q: int| 0 <= q < name@.len() implies #[trigger] name@[q] != 9
                    && name@[q] != 10 by {
                    assert(name@[q] == bytes@[pos + 7 + q]);
                }
            }
        }
        Some(LineVal::RefV(RefSeq { name, len: val as u32 }))
    } else {
        // neither tag: the line is malformed
        proof {
            assert(co_tag()[0] == 64 && co_tag()[1] == 67 && co_tag()[2] == 79 && co_tag()[3] == 9);
            assert(sq_tag()[0] == 64 && sq_tag()[1] == 83 && sq_tag()[2] == 81 && sq_tag()[3] == 9
                && sq_tag()[4] == 83 && sq_tag()[5] == 78 && sq_tag()[6] == 58);
            assert(!(line.len() >= 4 && line.take(4) == co_tag())) by {
                if line.len() >= 4 && line.take(4) == co_tag() {
                    assert(line.take(4)[0] == line[0] && line[0] == bytes@[pos as int]);
                    assert(line.take(4)[1] == line[1] && line[1] == bytes@[pos + 1]);
                    assert(line.take(4)[2] == line[2] && line[2] == bytes@[pos + 2]);
                    assert(line.take(4)[3] == line[3] && line[3] == bytes@[pos + 3]);
                }
            }
            assert(!(line.len() >= 7 && line.take(7) == sq_tag())) by {
                if line.len() >= 7 && line.take(7) == sq_tag() {
                    assert(line.take(7)[0] == line[0] && line[0] == bytes@[pos as int]);
                    assert(line.take(7)[1] == line[1] && line[1] == bytes@[pos + 1]);
                    assert(line.take(7)[2] == line[2] && line[2] == bytes@[pos + 2]);
                    assert(line.take(7)[3] == line[3] && line[3] == bytes@[pos + 3]);
                    assert(line.take(7)[4] == line[4] && line[4] == bytes@[pos + 4]);
                    assert(line.take(7)[5] == line[5] && line[5] == bytes@[pos + 5]);
                    assert(line.take(7)[6] == line[6] && line[6] == bytes@[pos + 6]);
                }
            }
            assert(parse_line(line) is None);
        }
        None
    }
}

impl Header {
    /// Deep-copies the logical content of an existing header into a new,
    /// independently owned instance. Returns nothing exactly when the
    /// source is malformed.
    pub fn from_template(source: &Header) -> (r: Option<Header>)
        ensures
            match r {
                Some(h) => source.wf() && h.wf() && equiv(h, *source),
                None => !source.wf(),
            },
    {
        let mut refs: Vec<RefSeq> = Vec::new();
        let mut i: usize = 0;
        while i < source.refs.len()
            invariant
                i <= source.refs@.len(),
                refs@.len() == i,
                forall|t: int| 0 <= t < i ==> name_wf(#[trigger] source.refs@[t].name@),
                forall|t: int|
                    0 <= t < i ==> (#[trigger] refs@[t]).name@ == source.refs@[t].name@
                        && refs@[t].len == source.refs@[t].len,
            decreases source.refs@.len() - i,
        {
            let src = &source.refs[i];
            if !name_ok(&src.name) {
                return None;
            }
            let mut name: Vec<u8> = Vec::new();
            push_bytes(&mut name, &src.name);
            refs.push(RefSeq { name, len: src.len });
            i += 1;
        }
        let mut comments: Vec<Vec<u8>> = Vec::new();
        let mut k: usize = 0;
        while k < source.comments.len()
            invariant
                k <= source.comments@.len(),
                comments@.len() == k,
                forall|t: int| 0 <= t < k ==> text_wf(#[trigger] source.comments@[t]@),
                forall|t: int| 0 <= t < k ==> (#[trigger] comments@[t])@ == source.comments@[t]@,
            decreases source.comments@.len() - k,
        {
            let src = &source.comments[k];
            if !text_ok(src) {
                return None;
            }
            let mut text: Vec<u8> = Vec::new();
            push_bytes(&mut text, src);
            comments.push(text);
            k += 1;
        }
        let h = Header { refs, comments };
        proof {
            assert(refs_view(h.refs@) =~= refs_view(source.refs@));
            assert(comments_view(h.comments@) =~= comments_view(source.comments@));
            assert(h.wf());
        }
        Some(h)
    }

    /// Constructs a structural header from a textual block: the inverse
    /// of `serialize`. Returns nothing exactly when the block does not
    /// parse.
    pub fn parse(bytes: &Vec<u8>) -> (r: Option<Header>)
        ensures
            match r {
                Some(h) => parse_header(bytes@) == Some(
                    HeaderShape { refs: refs_view(h.refs@), comments: comments_view(h.comments@) },
                ) && h.wf(),
                None => parse_header(bytes@) is None,
            },
    {
        let mut refs: Vec<RefSeq> = Vec::new();
        let mut comments: Vec<Vec<u8>> = Vec::new();
        let mut pos: usize = 0;
        proof {
            assert(bytes@.skip(0) =~= bytes@);
            if parse_header(bytes@) is Some {
                assert(refs_view(refs@) =~= Seq::<(Seq<u8>, u32)>::empty());
                assert(comments_view(comments@) =~= Seq::<Seq<u8>>::empty());
                let s = parse_header(bytes@)->Some_0;
                assert(refs_view(refs@) + s.refs =~= s.refs);
                assert(comments_view(comments@) + s.comments =~= s.comments);
                assert(parse_header(bytes@)->Some_0 =~= HeaderShape {
                    refs: refs_view(refs@) + s.refs,
                    comments: comments_view(comments@) + s.comments,
                });
            }
        }
        while pos < bytes.len()
            invariant
                pos <= bytes@.len(),
                parse_header(bytes@) == shape_prepend(
                    refs_view(refs@),
                    comments_view(comments@),
                    parse_header(bytes@.skip(pos as int)),
                ),
                forall|t: int| 0 <= t < refs@.len() ==> name_wf(#[trigger] refs@[t].name@),
                forall|t: int| 0 <= t < comments@.len() ==> text_wf(#[trigger] comments@[t]@),
            decreases bytes@.len() - pos,
        {
            let ghost s = bytes@.skip(pos as int);
            let j = find_byte(bytes, pos, bytes.len(), 10);
            proof {
                assert(s =~= bytes@.subrange(pos as int, bytes@.len() as int));
                assert(first_occ(s, 10) == j - pos);
            }
            if j == bytes.len() {
                // no terminating newline: the remaining block is malformed
                proof {
                    assert(s.len() > 0);
                    assert(first_occ(s, 10) as int >= s.len());
                    assert(parse_header(s) is None);
                }
                return None;
            }
            let ghost line = s.take(j - pos);
            let ghost rest = s.skip(j - pos + 1);
            proof {
                assert(line =~= bytes@.subrange(pos as int, j as int));
                assert(rest =~= bytes@.skip(j + 1));
                assert(parse_header(s) == (match (parse_line(line), parse_header(rest)) {
                    (Some(item), Some(shape)) => match item {
                        HeaderLine::RefLine { name, len } => Some(
                            HeaderShape {
                                refs: seq![(name, len)] + shape.refs,
                                comments: shape.comments,
                            },
                        ),
                        HeaderLine::CommentLine { text } => Some(
                            HeaderShape {
                                refs: shape.refs,
                                comments: seq![text] + shape.comments,
                            },
                        ),
                    },
                    _ => None,
                }));
            }
            match parse_line_at(bytes, pos, j) {
                Option::None => {
                    proof {
                        assert(parse_header(s) is None);
                    }
                    return None;
                },
                Option::Some(LineVal::CoV(text)) => {
                    let ghost tv = text@;
                    let ghost old_comments = comments@;
                    comments.push(text);
                    proof {
                        assert(comments_view(comments@) =~= comments_view(old_comments).push(tv));
                        lemma_prepend_comment(
                            refs_view(refs@),
                            comments_view(old_comments),
                            tv,
                            parse_header(rest),
                        );
                    }
                },
                Option::Some(LineVal::RefV(rs)) => {
                    let ghost nv = rs.name@;
                    let ghost lv = rs.len;
                    let ghost old_refs = refs@;
                    refs.push(rs);
                    proof {
                        assert(refs_view(refs@) =~= refs_view(old_refs).push((nv, lv)));
                        lemma_prepend_ref(
                            refs_view(old_refs),
                            comments_view(comments@),
                            nv,
                            lv,
                            parse_header(rest),
                        );
                    }
                },
            }
            pos = j + 1;
        }
        proof {
            assert(bytes@.skip(pos as int) =~= Seq::<u8>::empty());
            assert(parse_header(bytes@.skip(pos as int)) == Some(
                HeaderShape { refs: Seq::empty(), comments: Seq::empty() },
            ));
            assert(refs_view(refs@) + Seq::<(Seq<u8>, u32)>::empty() =~= refs_view(refs@));
            assert(comments_view(comments@) + Seq::<Seq<u8>>::empty() =~= comments_view(comments@));
            assert(parse_header(bytes@)->Some_0 =~= HeaderShape {
                refs: refs_view(refs@),
                comments: comments_view(comments@),
            });
        }
        Some(Header { refs, comments })
    }
}

/// Moving one parsed annotation line from the remaining shape into the
/// accumulator preserves the combined result.
proof fn lemma_prepend_comment(
    rv: Seq<(Seq<u8>, u32)>,
    cv: Seq<Seq<u8>>,
    text: Seq<u8>,
    p: Option<HeaderShape>,
)
    ensures
        shape_prepend(rv, cv.push(text), p) == shape_prepend(
            rv,
            cv,
            match p {
                Some(s) => Some(HeaderShape { refs: s.refs, comments: seq![text] + s.comments }),
                None => None,
            },
        ),
{
    match p {
        Some(s) => {
            assert(cv.push(text) + s.comments =~= cv + (seq![text] + s.comments));
            assert(shape_prepend(rv, cv.push(text), p)->Some_0 =~= shape_prepend(
                rv,
                cv,
                Some(HeaderShape { refs: s.refs, comments: seq![text] + s.comments }),
            )->Some_0);
        },
        None => {},
    }
}

/// Moving one parsed reference line from the remaining shape into the
/// accumulator preserves the combined result.
proof fn lemma_prepend_ref(
    rv: Seq<(Seq<u8>, u32)>,
    cv: Seq<Seq<u8>>,
    name: Seq<u8>,
    len: u32,
    p: Option<HeaderShape>,
)
    ensures
        shape_prepend(rv.push((name, len)), cv, p) == shape_prepend(
            rv,
            cv,
            match p {
                Some(s) => Some(HeaderShape { refs: seq![(name, len)] + s.refs, comments: s.comments }),
                None => None,
            },
        ),
{
    match p {
        Some(s) => {
            assert(rv.push((name, len)) + s.refs =~= rv + (seq![(name, len)] + s.refs));
            assert(shape_prepend(rv.push((name, len)), cv, p)->Some_0 =~= shape_prepend(
                rv,
                cv,
                Some(HeaderShape { refs: seq![(name, len)] + s.refs, comments: s.comments }),
            )->Some_0);
        },
        None => {},
    }
}

} // verus!

verus! {

proof fn lemma_refs_bytes_equiv(a: Seq<RefSeq>, b: Seq<RefSeq>)
    requires
        refs_view(a) == refs_view(b),
    ensures
        refs_bytes(a) == refs_bytes(b),
    decreases a.len(),
{
    assert(a.len() == refs_view(a).len());
    assert(b.len() == refs_view(b).len());
    if a.len() > 0 {
        assert(refs_view(a)[0] == (a[0].name@, a[0].len));
        assert(refs_view(b)[0] == (b[0].name@, b[0].len));
        assert(refs_view(a.drop_first()) =~= refs_view(b.drop_first())) by {
            assert forall|i: int| 0 <= i < a.len() - 1 implies #[trigger] refs_view(a.drop_first())[i]
                == refs_view(b.drop_first())[i] by {
                assert(refs_view(a)[i + 1] == refs_view(b)[i + 1]);
            }
        }
        lemma_refs_bytes_equiv(a.drop_first(), b.drop_first());
    }
}

proof fn lemma_comments_bytes_equiv(a: Seq<Vec<u8>>, b: Seq<Vec<u8>>)
    requires
        comments_view(a) == comments_view(b),
    ensures
        comments_bytes(a) == comments_bytes(b),
    decreases a.len(),
{
    assert(a.len() == comments_view(a).len());
    assert(b.len() == comments_view(b).len());
    if a.len() > 0 {
        assert(comments_view(a)[0] == a[0]@);
        assert(comments_view(b)[0] == b[0]@);
        assert(comments_view(a.drop_first()) =~= comments_view(b.drop_first())) by {
            assert forall|i: int|
                0 <= i < a.len() - 1 implies #[trigger] comments_view(a.drop_first())[i]
                == comments_view(b.drop_first())[i] by {
                assert(comments_view(a)[i + 1] == comments_view(b)[i + 1]);
            }
        }
        lemma_comments_bytes_equiv(a.drop_first(), b.drop_first());
    }
}

/// Structurally equivalent headers have the same canonical serialization.
pub proof fn lemma_header_bytes_equiv(a: Header, b: Header)
    requires
        equiv(a, b),
    ensures
        header_bytes(a) == header_bytes(b),
{
    lemma_refs_bytes_equiv(a.refs@, b.refs@);
    lemma_comments_bytes_equiv(a.comments@, b.comments@);
}

/// Header round-trip: parsing the canonical serialization of a
/// well-formed header recovers exactly its logical content.
pub proof fn lemma_header_round_trip(h: Header)
    requires
        h.wf(),
    ensures
        parse_header(header_bytes(h)) == Some(
            HeaderShape { refs: refs_view(h.refs@), comments: comments_view(h.comments@) },
        ),
{
    lemma_parse_serialized(h.refs@, h.comments@);
}

} // verus!
