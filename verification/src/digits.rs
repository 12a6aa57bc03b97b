//! Canonical decimal encoding of unsigned integers, used by the header
//! and record serializers, together with its evaluation function, the
//! round-trip proof that parsing recovers the encoded value, and small
//! byte-vector helpers shared by the serializers.

use vstd::prelude::*;

verus! {

/// Byte of a single decimal digit (`d` below ten).
pub open spec fn digit_byte(d: nat) -> u8 {
    (48 + d) as u8
}

/// Canonical decimal encoding, most significant digit first, no leading
/// zeros (zero itself encodes as the single byte `'0'`).
pub open spec fn dec_bytes(n: nat) -> Seq<u8>
    decreases n,
{
    if n < 10 {
        seq![digit_byte(n)]
    } else {
        dec_bytes(n / 10).push(digit_byte(n % 10))
    }
}

pub open spec fn is_digit(b: u8) -> bool {
    48 <= b && b <= 57
}

pub open spec fn all_digits(s: Seq<u8>) -> bool {
    forall|i: int| 0 <= i < s.len() ==> is_digit(#[trigger] s[i])
}

/// Numeric value of a digit string, most significant digit first.
/// Bytes below `'0'` contribute zero; the function is only applied to
/// digit strings, where that case never arises.
pub open spec fn dec_val(s: Seq<u8>) -> nat
    decreases s.len(),
{
    if s.len() == 0 {
        0
    } else {
        dec_val(s.drop_last()) * 10 + (if s.last() >= 48 {
            (s.last() - 48) as nat
        } else {
            0
        })
    }
}

/// The decimal encoding is non-empty, consists of digits only, and
/// evaluates back to the encoded number.
pub proof fn lemma_dec_bytes_val(n: nat)
    ensures
        dec_val(dec_bytes(n)) == n,
        all_digits(dec_bytes(n)),
        dec_bytes(n).len() >= 1,
    decreases n,
{
    if n < 10 {
        let s = dec_bytes(n);
        assert(s =~= seq![digit_byte(n)]);
        assert(s.drop_last() =~= Seq::<u8>::empty());
        assert(dec_val(Seq::<u8>::empty()) == 0);
        assert(digit_byte(n) == 48 + n);
        assert(dec_val(s) == 0 * 10 + n);
    } else {
        lemma_dec_bytes_val(n / 10);
        let s = dec_bytes(n);
        let p = dec_bytes(n / 10);
        assert(s == p.push(digit_byte(n % 10)));
        assert(s.drop_last() =~= p);
        assert(s.last() == digit_byte(n % 10));
        assert(dec_val(s) == (n / 10) * 10 + n % 10);
        assert((n / 10) * 10 + n % 10 == n) by (nonlinear_arith);
        assert forall|i: int| 0 <= i < s.len() implies is_digit(#[trigger] s[i]) by {
            if i < p.len() {
                assert(s[i] == p[i]);
            }
        }
    }
}

/// Evaluation only grows as more digits are appended.
pub proof fn lemma_dec_val_take(s: Seq<u8>, i: int)
    requires
        0 <= i <= s.len(),
    ensures
        dec_val(s.take(i)) <= dec_val(s),
    decreases s.len() - i,
{
    if i == s.len() {
        assert(s.take(i) =~= s);
    } else {
        lemma_dec_val_take(s, i + 1);
        let a = s.take(i);
        let b = s.take(i + 1);
        assert(b.drop_last() =~= a);
        assert(b.last() == s[i]);
        assert(dec_val(b) == dec_val(a) * 10 + (if s[i] >= 48 {
            (s[i] - 48) as nat
        } else {
            0
        }));
    }
}

/// Appends the canonical decimal encoding of `n` to `out`.
pub fn push_dec_u32(out: &mut Vec<u8>, n: u32)
    ensures
        final(out)@ == old(out)@ + dec_bytes(n as nat),
{
    let ghost base = out@;
    let mut rev: Vec<u8> = Vec::new();
    let mut m: u32 = n;
    loop
        invariant_except_break
            dec_bytes(n as nat) =~= dec_bytes(m as nat) + rev@.reverse(),
        ensures
            dec_bytes(n as nat) =~= rev@.reverse(),
        decreases m,
    {
        let ghost rev1 = rev@;
        let d: u8 = (m % 10) as u8 + 48;
        rev.push(d);
        proof {
            assert(rev@.reverse() =~= seq![d] + rev1.reverse());
            assert(d == digit_byte((m % 10) as nat));
        }
        if m < 10 {
            proof {
                assert(dec_bytes(m as nat) =~= seq![d]);
            }
            break;
        }
        proof {
            assert(dec_bytes(m as nat) == dec_bytes((m / 10) as nat).push(d));
            assert(dec_bytes(m as nat) =~= dec_bytes((m / 10) as nat) + seq![d]);
        }
        m = m / 10;
    }
    let mut i: usize = rev.len();
    while i > 0
        invariant
            i <= rev@.len(),
            dec_bytes(n as nat) =~= rev@.reverse(),
            out@ =~= base + rev@.reverse().take(rev@.len() - i),
        decreases i,
    {
        let ghost k = rev@.len() - i;
        i = i - 1;
        let b = rev[i];
        out.push(b);
        proof {
            assert(rev@.reverse()[k] == b);
            assert(rev@.reverse().take(k + 1) =~= rev@.reverse().take(k).push(b));
        }
    }
    proof {
        assert(rev@.reverse().take(rev@.len() as int) =~= rev@.reverse());
    }
}

/// Appends all of `src` to `out`.
pub fn push_bytes(out: &mut Vec<u8>, src: &Vec<u8>)
    ensures
        final(out)@ == old(out)@ + src@,
{
    let ghost base = out@;
    let mut j: usize = 0;
    while j < src.len()
        invariant
            j <= src@.len(),
            out@ =~= base + src@.take(j as int),
        decreases src@.len() - j,
    {
        let b = src[j];
        out.push(b);
        proof {
            assert(src@.take(j + 1) =~= src@.take(j as int).push(b));
        }
        j += 1;
    }
    proof {
        assert(src@.take(src@.len() as int) =~= src@);
    }
}

/// Copies the bytes of `src` in the range `[from, to)` into a new vector.
pub fn copy_range(src: &Vec<u8>, from: usize, to: usize) -> (out: Vec<u8>)
    requires
        from <= to <= src@.len(),
    ensures
        out@ == src@.subrange(from as int, to as int),
{
    let mut out: Vec<u8> = Vec::new();
    let mut j: usize = from;
    while j < to
        invariant
            from <= j <= to <= src@.len(),
            out@ =~= src@.subrange(from as int, j as int),
        decreases to - j,
    {
        let b = src[j];
        out.push(b);
        proof {
            assert(src@.subrange(from as int, j + 1) =~= src@.subrange(from as int, j as int).push(
                b,
            ));
        }
        j += 1;
    }
    out
}

} // verus!
