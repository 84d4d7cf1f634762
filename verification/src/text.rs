//! Byte-level helpers over UTF-8 text.
//!
//! Offsets throughout the crate are byte offsets into the UTF-8 encoding of
//! a string, exactly as Rust's `str` indexes it. The specification side
//! talks about `s.spec_bytes()`, the encoding that vstd attaches to `str`.

use vstd::prelude::*;
use vstd::string::*;
use vstd::utf8::*;

verus! {

broadcast use vstd::utf8::group_utf8_lib;

/// The encoding of a concatenation is the concatenation of the encodings.
pub proof fn lemma_encode_concat(a: Seq<char>, b: Seq<char>)
    ensures
        encode_utf8(a + b) == encode_utf8(a) + encode_utf8(b),
    decreases a.len(),
{
    if a.len() == 0 {
        assert(a + b =~= b);
        assert(encode_utf8(a) + encode_utf8(b) =~= encode_utf8(b));
    } else {
        assert((a + b).drop_first() =~= a.drop_first() + b);
        lemma_encode_concat(a.drop_first(), b);
        assert(encode_utf8(a + b) =~= encode_scalar(a[0] as u32) + encode_utf8(a.drop_first() + b));
        assert(encode_utf8(a) + encode_utf8(b) =~= encode_scalar(a[0] as u32) + (encode_utf8(
            a.drop_first(),
        ) + encode_utf8(b)));
    }
}

/// A boundary of `b` at or after a boundary `s` is a boundary of the
/// suffix that starts at `s`.
pub proof fn lemma_boundary_in_suffix(b: Seq<u8>, s: int, e: int)
    requires
        valid_utf8(b),
        0 <= s <= e <= b.len(),
        is_char_boundary(b, s),
        is_char_boundary(b, e),
    ensures
        valid_utf8(b.subrange(s, b.len() as int)),
        is_char_boundary(b.subrange(s, b.len() as int), e - s),
{
    let t = b.subrange(s, b.len() as int);
    valid_utf8_split(b, s);
    is_char_boundary_start_end_of_seq(t);
    if e < b.len() {
        is_char_boundary_iff_not_is_continuation_byte(b, e);
        is_char_boundary_iff_not_is_continuation_byte(t, e - s);
        assert(t[e - s] == b[e]);
    } else {
        assert(e - s == t.len());
    }
}

/// Appends one character to `out`.
#[verifier::external_body]
pub(crate) fn push_char(out: &mut String, ch: char)
    ensures
        final(out)@ == old(out)@.push(ch),
{
    out.push(ch);
}

/// The bytes `start..end` of `s` as a string slice.
pub fn substring(s: &str, start: usize, end: usize) -> (r: &str)
    requires
        start <= end <= s.spec_bytes().len(),
        is_char_boundary(s.spec_bytes(), start as int),
        is_char_boundary(s.spec_bytes(), end as int),
    ensures
        r.spec_bytes() == s.spec_bytes().subrange(start as int, end as int),
{
    let ghost b = s.spec_bytes();
    let (_, tail) = s.split_at(start);
    let ghost t = tail.spec_bytes();
    assert(valid_utf8(b));
    assert(t == b.subrange(start as int, b.len() as int));
    proof {
        lemma_boundary_in_suffix(b, start as int, end as int);
    }
    let (mid, _) = tail.split_at(end - start);
    assert(mid.spec_bytes() =~= b.subrange(start as int, end as int));
    mid
}

/// An ASCII byte of valid UTF-8 lies on a character boundary, and so does
/// the end of the text.
pub proof fn lemma_ascii_boundary(b: Seq<u8>, i: int)
    requires
        valid_utf8(b),
        0 <= i <= b.len(),
        i < b.len() ==> b[i] < 0x80,
    ensures
        is_char_boundary(b, i),
{
    is_char_boundary_start_end_of_seq(b);
    if i < b.len() {
        is_char_boundary_iff_not_is_continuation_byte(b, i);
    }
}

/// The position right after an ASCII byte lies on a character boundary.
pub proof fn lemma_after_ascii(b: Seq<u8>, i: int)
    requires
        valid_utf8(b),
        0 <= i < b.len(),
        b[i] < 0x80,
    ensures
        is_char_boundary(b, i + 1),
{
    is_char_boundary_start_end_of_seq(b);
    if i + 1 < b.len() {
        is_char_boundary_iff_not_is_continuation_byte(b, i);
        lemma_boundary_in_suffix(b, i, i);
        let t = b.subrange(i, b.len() as int);
        assert(t[0] == b[i]);
        assert(length_of_first_scalar(t) == 1);
        assert(pop_first_scalar(t) =~= t.subrange(1, t.len() as int));
        is_char_boundary_start_end_of_seq(pop_first_scalar(t));
        assert(is_char_boundary(t, 1));
        is_char_boundary_iff_not_is_continuation_byte(t, 1);
        is_char_boundary_iff_not_is_continuation_byte(b, i + 1);
        assert(t[1] == b[i + 1]);
    }
}

/// Decoding a slice between two boundaries and encoding it again gives the
/// slice back, and the slice is valid UTF-8.
pub proof fn lemma_slice_roundtrip(b: Seq<u8>, s: int, e: int)
    requires
        valid_utf8(b),
        0 <= s <= e <= b.len(),
        is_char_boundary(b, s),
        is_char_boundary(b, e),
    ensures
        valid_utf8(b.subrange(s, e)),
        encode_utf8(decode_utf8(b.subrange(s, e))) == b.subrange(s, e),
{
    lemma_boundary_in_suffix(b, s, e);
    let t = b.subrange(s, b.len() as int);
    valid_utf8_split(t, e - s);
    assert(t.subrange(0, e - s) =~= b.subrange(s, e));
    decode_utf8_encode_utf8(b.subrange(s, e));
}

/// The first character of a text ends on a boundary of its encoding, and
/// what follows encodes the rest.
pub proof fn lemma_first_char(t: Seq<char>)
    requires
        t.len() > 0,
    ensures
        ({
            let b = encode_utf8(t);
            let k = encode_scalar(t[0] as u32).len() as int;
            &&& 0 < k <= b.len()
            &&& is_char_boundary(b, k)
            &&& b.subrange(k, b.len() as int) == encode_utf8(t.drop_first())
        }),
{
    let b = encode_utf8(t);
    let k = encode_scalar(t[0] as u32).len() as int;
    encode_utf8_first_scalar(t);
    encode_utf8_valid_utf8(t);
    assert(b =~= encode_scalar(t[0] as u32) + encode_utf8(t.drop_first()));
    assert(b.subrange(k, b.len() as int) =~= encode_utf8(t.drop_first()));
    assert(pop_first_scalar(b) == b.subrange(k, b.len() as int));
    is_char_boundary_start_end_of_seq(pop_first_scalar(b));
}

/// Where a valid text `t` begins with a valid text `n`, the end of `n` is a
/// character boundary of `t`.
pub proof fn lemma_prefix_boundary(t: Seq<u8>, n: Seq<u8>)
    requires
        valid_utf8(t),
        valid_utf8(n),
        n.len() <= t.len(),
        t.subrange(0, n.len() as int) == n,
    ensures
        is_char_boundary(t, n.len() as int),
    decreases n.len(),
{
    if n.len() > 0 {
        assert(t[0] == n[0]);
        let k = length_of_first_scalar(n);
        assert(length_of_first_scalar(t) == k);
        assert(valid_first_scalar(n));
        assert(k <= n.len());
        let pt = pop_first_scalar(t);
        let pn = pop_first_scalar(n);
        assert(pt.subrange(0, pn.len() as int) =~= pn) by {
            assert forall|j: int| 0 <= j < pn.len() implies pt[j] == pn[j] by {
                assert(pt[j] == t[k + j]);
                assert(pn[j] == n[k + j]);
                assert(t.subrange(0, n.len() as int)[k + j] == t[k + j]);
            }
        }
        lemma_prefix_boundary(pt, pn);
    }
}

/// An occurrence of a non-empty valid text inside a valid text starts and
/// ends on character boundaries.
pub proof fn lemma_match_boundaries(h: Seq<u8>, n: Seq<u8>, i: int)
    requires
        valid_utf8(h),
        valid_utf8(n),
        n.len() > 0,
        0 <= i,
        i + n.len() <= h.len(),
        h.subrange(i, i + n.len()) == n,
    ensures
        is_char_boundary(h, i),
        is_char_boundary(h, i + n.len()),
{
    let m = n.len() as int;
    is_char_boundary_start_end_of_seq(n);
    is_char_boundary_iff_not_is_continuation_byte(n, 0);
    assert(h[i] == n[0]);
    is_char_boundary_iff_not_is_continuation_byte(h, i);
    let t = h.subrange(i, h.len() as int);
    lemma_boundary_in_suffix(h, i, i);
    assert(t.subrange(0, m) =~= n);
    lemma_prefix_boundary(t, n);
    if i + m < h.len() {
        is_char_boundary_iff_not_is_continuation_byte(t, m);
        assert(t[m] == h[i + m]);
        is_char_boundary_iff_not_is_continuation_byte(h, i + m);
    } else {
        is_char_boundary_start_end_of_seq(h);
    }
}

/// An ASCII character encodes as the one byte of its code.
pub proof fn lemma_encode_ascii(c: char)
    requires
        (c as u32) < 0x80,
    ensures
        encode_utf8(seq![c]) == seq![c as u8],
{
    let s = seq![c];
    assert(is_ascii_chars(s));
    is_ascii_chars_encode_utf8(s);
    assert(encode_utf8(s) =~= seq![c as u8]);
}

/// The first character of a non-empty text.
pub fn first_char(s: &str) -> (r: Option<char>)
    requires
        s@.len() > 0,
    ensures
        r == Some(s@[0]),
{
    let mut it = s.chars();
    it.next()
}

} // verus!
