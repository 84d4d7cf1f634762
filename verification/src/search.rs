//! Substring search over a document's text.
//!
//! The source view searches the source text; the rendered view searches the
//! plain text extracted from it (see `outline::plain_text`), since link
//! addresses and markup are not on screen there. The two counts differ, and
//! that is the right answer.
//!
//! Results are byte ranges into the text that was searched, in ascending
//! order.

use vstd::prelude::*;
use vstd::string::*;
use vstd::utf8::*;

use crate::text::{lemma_match_boundaries, lemma_prefix_boundary, substring};
use crate::unicode::{
    char_lowercase, chars_of, is_alphanumeric, spec_char_lowercase, spec_is_alphanumeric,
    spec_str_lowercase, str_lowercase,
};

use std::ops::Range;

verus! {

broadcast use vstd::utf8::group_utf8_lib;

// ---------------------------------------------------------------------
// Exact matching
// ---------------------------------------------------------------------

/// The leftmost occurrences of `n` in `h` that start at or after `from`,
/// none overlapping the next: after a match the search resumes at its end.
pub open spec fn occurrences_from(h: Seq<u8>, n: Seq<u8>, from: int) -> Seq<(int, int)>
    decreases h.len() - from,
{
    if n.len() == 0 || from < 0 || from + n.len() > h.len() {
        Seq::empty()
    } else if h.subrange(from, from + n.len()) == n {
        seq![(from, from + n.len())] + occurrences_from(h, n, from + n.len())
    } else {
        occurrences_from(h, n, from + 1)
    }
}

/// The non-overlapping occurrences of `n` in `h`, as `str::match_indices`
/// reports them.
pub open spec fn spec_exact(h: Seq<u8>, n: Seq<u8>) -> Seq<(int, int)> {
    occurrences_from(h, n, 0)
}

/// The pairs of a list of ranges.
pub open spec fn pairs(v: Seq<Range<usize>>) -> Seq<(int, int)> {
    v.map_values(|r: Range<usize>| (r.start as int, r.end as int))
}

/// Whether `h[at..at + n.len()]` is `n`.
fn bytes_match_at(h: &[u8], n: &[u8], at: usize) -> (r: bool)
    requires
        at + n@.len() <= h@.len(),
    ensures
        r == (h@.subrange(at as int, at + n@.len()) == n@),
{
    let hl = h.len();
    let mut j: usize = 0;
    while j < n.len()
        invariant
            hl == h@.len(),
            at + n@.len() <= h@.len(),
            j <= n@.len(),
            forall|k: int| 0 <= k < j ==> h@[at + k] == n@[k],
        decreases n.len() - j,
    {
        if h[at + j] != n[j] {
            assert(h@.subrange(at as int, at + n@.len())[j as int] != n@[j as int]);
            return false;
        }
        j += 1;
    }
    assert(h@.subrange(at as int, at + n@.len()) =~= n@);
    true
}

/// The non-overlapping occurrences of `needle` in `haystack`, leftmost
/// first.
fn exact(haystack: &str, needle: &str) -> (r: Vec<Range<usize>>)
    ensures
        pairs(r@) == spec_exact(haystack.spec_bytes(), needle.spec_bytes()),
{
    let h = haystack.as_bytes();
    let n = needle.as_bytes();
    let ghost hb = h@;
    let ghost nb = n@;
    let mut out: Vec<Range<usize>> = Vec::new();
    if n.len() == 0 {
        return out;
    }
    let mut i: usize = 0;
    while i <= h.len() && n.len() <= h.len() - i
        invariant
            hb == h@,
            nb == n@,
            nb.len() > 0,
            i <= hb.len(),
            pairs(out@) + occurrences_from(hb, nb, i as int) == spec_exact(hb, nb),
        decreases hb.len() - i,
    {
        let ghost before = pairs(out@);
        if bytes_match_at(h, n, i) {
            out.push(Range { start: i, end: i + n.len() });
            assert(pairs(out@) =~= before.push((i as int, i + nb.len())));
            assert(occurrences_from(hb, nb, i as int) =~= seq![(i as int, i + nb.len())] + occurrences_from(hb, nb, i + nb.len()));
            assert(pairs(out@) + occurrences_from(hb, nb, i + nb.len()) =~= before + occurrences_from(hb, nb, i as int));
            i = i + n.len();
        } else {
            i = i + 1;
        }
    }
    assert(occurrences_from(hb, nb, i as int) =~= Seq::<(int, int)>::empty());
    assert(pairs(out@) =~= pairs(out@) + occurrences_from(hb, nb, i as int));
    out
}

/// Occurrences found by [`occurrences_from`] lie inside `h` and are
/// occurrences of `n`.
pub proof fn lemma_occurrences_are_matches(h: Seq<u8>, n: Seq<u8>, from: int)
    ensures
        forall|k: int|
            0 <= k < occurrences_from(h, n, from).len() ==> {
                let r = #[trigger] occurrences_from(h, n, from)[k];
                &&& from <= r.0
                &&& r.1 == r.0 + n.len()
                &&& r.1 <= h.len()
                &&& h.subrange(r.0, r.1) == n
            },
    decreases h.len() - from,
{
    if !(n.len() == 0 || from < 0 || from + n.len() > h.len()) {
        let all = occurrences_from(h, n, from);
        if h.subrange(from, from + n.len()) == n {
            let rest = occurrences_from(h, n, from + n.len());
            lemma_occurrences_are_matches(h, n, from + n.len());
            assert forall|k: int| 0 <= k < all.len() implies {
                let r = #[trigger] all[k];
                &&& from <= r.0
                &&& r.1 == r.0 + n.len()
                &&& r.1 <= h.len()
                &&& h.subrange(r.0, r.1) == n
            } by {
                if k > 0 {
                    assert(all[k] == rest[k - 1]);
                }
            }
        } else {
            let rest = occurrences_from(h, n, from + 1);
            lemma_occurrences_are_matches(h, n, from + 1);
            assert(all == rest);
            assert forall|k: int| 0 <= k < all.len() implies {
                let r = #[trigger] all[k];
                &&& from <= r.0
                &&& r.1 == r.0 + n.len()
                &&& r.1 <= h.len()
                &&& h.subrange(r.0, r.1) == n
            } by {
                assert(all[k] == rest[k]);
            }
        }
    }
}

// ---------------------------------------------------------------------
// Matching by characters
// ---------------------------------------------------------------------

/// The first character of the lower case of `c`: for Latin and Cyrillic
/// letters the lower case is always one character.
pub open spec fn first_lower(c: char) -> char {
    spec_char_lowercase(c)[0]
}

/// Whether the characters of `t` from index `i` on, each taken by
/// [`first_lower`], begin with `w`.
pub open spec fn folds_to_at(t: Seq<char>, w: Seq<char>, i: int) -> bool {
    &&& 0 <= i
    &&& i + w.len() <= t.len()
    &&& forall|k: int| i <= k < i + w.len() ==> first_lower(#[trigger] t[k]) == w[k - i]
}

/// The byte offset of the `i`-th character of `t`.
pub open spec fn byte_offset(t: Seq<char>, i: int) -> int {
    encode_utf8(t.take(i)).len() as int
}

/// The matches of `w` against `t` from character `i` on, leftmost first:
/// after a match the scan resumes at its end, so no two overlap.
pub open spec fn scan_from(t: Seq<char>, w: Seq<char>, i: int) -> Seq<(int, int)>
    decreases t.len() - i,
{
    if i < 0 || i >= t.len() {
        Seq::empty()
    } else if w.len() > 0 && folds_to_at(t, w, i) {
        seq![(byte_offset(t, i), byte_offset(t, i + w.len()))] + scan_from(t, w, i + w.len())
    } else {
        scan_from(t, w, i + 1)
    }
}

/// The byte ranges of `t` whose characters, lowered one by one, spell `w`.
pub open spec fn spec_scan(t: Seq<char>, w: Seq<char>) -> Seq<(int, int)> {
    scan_from(t, w, 0)
}

/// One more character moves the byte offset by its encoded length.
pub proof fn lemma_byte_offset_step(t: Seq<char>, i: int)
    requires
        0 <= i < t.len(),
    ensures
        byte_offset(t, i + 1) == byte_offset(t, i) + encode_scalar(t[i] as u32).len(),
{
    let one = seq![t[i]];
    assert(t.take(i + 1) =~= t.take(i) + one);
    crate::text::lemma_encode_concat(t.take(i), one);
    assert(one.drop_first() =~= Seq::<char>::empty());
    assert(encode_utf8(Seq::<char>::empty()) =~= Seq::<u8>::empty());
    assert(encode_utf8(one) =~= encode_scalar(t[i] as u32) + encode_utf8(one.drop_first()));
}

/// Byte offsets of characters are boundaries of the encoding, within it.
pub proof fn lemma_byte_offset_boundary(t: Seq<char>, i: int)
    requires
        0 <= i <= t.len(),
    ensures
        0 <= byte_offset(t, i) <= encode_utf8(t).len(),
        is_char_boundary(encode_utf8(t), byte_offset(t, i)),
{
    assert(t =~= t.take(i) + t.skip(i));
    crate::text::lemma_encode_concat(t.take(i), t.skip(i));
    let b = encode_utf8(t);
    let p = encode_utf8(t.take(i));
    assert(b.subrange(0, p.len() as int) =~= p);
    lemma_prefix_boundary(b, p);
}

/// Matches found by [`scan_from`] lie on character boundaries.
pub proof fn lemma_scan_on_boundaries(t: Seq<char>, w: Seq<char>, i: int)
    ensures
        on_boundaries(encode_utf8(t), scan_from(t, w, i)),
    decreases t.len() - i,
{
    if !(i < 0 || i >= t.len()) {
        let all = scan_from(t, w, i);
        if w.len() > 0 && folds_to_at(t, w, i) {
            lemma_scan_on_boundaries(t, w, i + w.len());
            lemma_byte_offset_boundary(t, i);
            lemma_byte_offset_boundary(t, i + w.len());
            lemma_byte_offset_monotone(t, i, i + w.len());
            let rest = scan_from(t, w, i + w.len());
            assert forall|k: int| 0 <= k < all.len() implies {
                let r = #[trigger] all[k];
                &&& 0 <= r.0 <= r.1 <= encode_utf8(t).len()
                &&& is_char_boundary(encode_utf8(t), r.0)
                &&& is_char_boundary(encode_utf8(t), r.1)
            } by {
                if k > 0 {
                    assert(all[k] == rest[k - 1]);
                }
            }
        } else {
            lemma_scan_on_boundaries(t, w, i + 1);
            assert(all == scan_from(t, w, i + 1));
        }
    }
}

/// Encoded length of a character.
fn utf8_len(c: char) -> (r: usize)
    ensures
        r == encode_scalar(c as u32).len(),
        1 <= r <= 4,
{
    let v = c as u32;
    proof {
        char_is_scalar(c);
    }
    if v < 0x80 {
        1
    } else if v < 0x800 {
        2
    } else if v < 0x10000 {
        3
    } else {
        4
    }
}

/// The slow path that is always right: walks the characters of the text
/// and compares each, lowered, with the lowered needle; after a match it
/// goes on after the match.
fn scan_by_chars(haystack: &str, folded_needle: &str) -> (r: Vec<Range<usize>>)
    ensures
        pairs(r@) == spec_scan(haystack@, folded_needle@),
{
    let needle = chars_of(folded_needle);
    let chars = chars_of(haystack);
    let ghost t = haystack@;
    let ghost w = folded_needle@;
    let total = haystack.as_bytes().len();
    let mut out: Vec<Range<usize>> = Vec::new();
    let count = chars.len();
    let mut i: usize = 0;
    let mut start: usize = 0;
    proof {
        assert(t.take(0) =~= Seq::<char>::empty());
    }
    while i < chars.len()
        invariant
            count == t.len(),
            chars@ == t,
            needle@ == w,
            total == encode_utf8(t).len(),
            i <= t.len(),
            start == byte_offset(t, i as int),
            pairs(out@) + scan_from(t, w, i as int) == spec_scan(t, w),
        decreases t.len() - i,
    {
        let mut j: usize = 0;
        let mut end: usize = start;
        let mut same = true;
        while same && j < needle.len() && i + j < chars.len()
            invariant
                count == t.len(),
                chars@ == t,
                needle@ == w,
                total == encode_utf8(t).len(),
                i < t.len(),
                i + j <= t.len(),
                j <= w.len(),
                end == byte_offset(t, (i + j) as int),
                same ==> forall|k: int| i <= k < i + j ==> first_lower(#[trigger] t[k]) == w[k - i],
                !same ==> !folds_to_at(t, w, i as int),
            decreases w.len() - j + if same {
                1int
            } else {
                0int
            },
        {
            let lower = char_lowercase(chars[i + j]);
            if lower[0] != needle[j] {
                same = false;
            } else {
                proof {
                    lemma_byte_offset_step(t, i + j);
                    lemma_byte_offset_boundary(t, i + j + 1);
                }
                end = end + utf8_len(chars[i + j]);
                j += 1;
            }
        }
        let ghost before = pairs(out@);
        if same && needle.len() > 0 && j == needle.len() {
            assert(folds_to_at(t, w, i as int));
            out.push(Range { start, end });
            assert(pairs(out@) =~= before.push((start as int, end as int)));
            assert(pairs(out@) + scan_from(t, w, i + j) =~= before + scan_from(t, w, i as int));
            start = end;
            i += j;
        } else {
            assert(!(w.len() > 0 && folds_to_at(t, w, i as int)));
            assert(pairs(out@) + scan_from(t, w, i + 1) =~= before + scan_from(t, w, i as int));
            proof {
                lemma_byte_offset_step(t, i as int);
                lemma_byte_offset_boundary(t, i + 1);
            }
            start = start + utf8_len(chars[i]);
            i += 1;
        }
    }
    assert(scan_from(t, w, i as int) =~= Seq::<(int, int)>::empty());
    assert(pairs(out@) =~= pairs(out@) + scan_from(t, w, i as int));
    out
}

// ---------------------------------------------------------------------
// Whole words
// ---------------------------------------------------------------------

/// Ranges that lie inside `b`, start no later than they end, and start and
/// end on character boundaries.
pub open spec fn on_boundaries(b: Seq<u8>, rs: Seq<(int, int)>) -> bool {
    forall|k: int|
        0 <= k < rs.len() ==> {
            let r = #[trigger] rs[k];
            &&& 0 <= r.0 <= r.1 <= b.len()
            &&& is_char_boundary(b, r.0)
            &&& is_char_boundary(b, r.1)
        }
}

/// A character that belongs to a word: a letter, a digit or `_`.
pub open spec fn spec_is_word_char(c: char) -> bool {
    spec_is_alphanumeric(c) || c == '_'
}

fn is_word_char(ch: char) -> (r: bool)
    ensures
        r == spec_is_word_char(ch),
{
    is_alphanumeric(ch) || ch == '_'
}

/// Whether the range `r` of the text `b` stands as a word of its own: no
/// word character right before it, none right after.
pub open spec fn spec_whole_word(b: Seq<u8>, r: (int, int)) -> bool {
    let before = decode_utf8(b.subrange(0, r.0));
    let after = decode_utf8(b.subrange(r.1, b.len() as int));
    &&& !(before.len() > 0 && spec_is_word_char(before.last()))
    &&& !(after.len() > 0 && spec_is_word_char(after[0]))
}

/// The ranges of `rs` that stand as whole words, in order.
pub open spec fn keep_whole_words(b: Seq<u8>, rs: Seq<(int, int)>) -> Seq<(int, int)>
    decreases rs.len(),
{
    if rs.len() == 0 {
        Seq::empty()
    } else {
        let rest = keep_whole_words(b, rs.drop_last());
        if spec_whole_word(b, rs.last()) {
            rest.push(rs.last())
        } else {
            rest
        }
    }
}

/// A text is empty exactly when its encoding is.
proof fn lemma_empty_text(s: Seq<char>)
    ensures
        (s.len() == 0) == (encode_utf8(s).len() == 0),
{
    crate::document::lemma_encode_len(s);
}

/// The character that ends right at byte `i` of `text`, if any.
fn char_before(text: &str, i: usize) -> (r: Option<char>)
    requires
        i <= text.spec_bytes().len(),
        is_char_boundary(text.spec_bytes(), i as int),
    ensures
        ({
            let before = decode_utf8(text.spec_bytes().subrange(0, i as int));
            r == if before.len() > 0 {
                Some(before.last())
            } else {
                None::<char>
            }
        }),
{
    let bytes = text.as_bytes();
    let ghost b = bytes@;
    let ghost p = b.subrange(0, i as int);
    proof {
        valid_utf8_split(b, i as int);
    }
    if i == 0 {
        assert(p =~= Seq::<u8>::empty());
        return None;
    }
    let mut j: usize = i - 1;
    while j > 0 && 0x80u8 <= bytes[j] && bytes[j] <= 0xBFu8
        invariant
            b == bytes@,
            j < i <= b.len(),
        decreases j,
    {
        j -= 1;
    }
    proof {
        is_char_boundary_start_end_of_seq(p);
        if j > 0 {
            is_char_boundary_iff_not_is_continuation_byte(p, j as int);
            assert(p[j as int] == b[j as int]);
            is_char_boundary_iff_not_is_continuation_byte(b, j as int);
        }
        decode_utf8_split(p, j as int);
        assert(p.subrange(0, j as int) =~= b.subrange(0, j as int));
        assert(p.subrange(j as int, p.len() as int) =~= b.subrange(j as int, i as int));
        if j == 0 {
            is_char_boundary_start_end_of_seq(b);
        }
    }
    let piece = substring(text, j, i);
    let chars = chars_of(piece);
    proof {
        encode_utf8_decode_utf8(piece@);
        lemma_empty_text(piece@);
    }
    let last = chars[chars.len() - 1];
    let ghost before = decode_utf8(p);
    assert(before == decode_utf8(b.subrange(0, j as int)) + piece@);
    assert(before.last() == piece@.last());
    Some(last)
}

/// The character that starts right at byte `i` of `text`, if any.
fn char_after(text: &str, i: usize) -> (r: Option<char>)
    requires
        i <= text.spec_bytes().len(),
        is_char_boundary(text.spec_bytes(), i as int),
    ensures
        ({
            let after = decode_utf8(text.spec_bytes().subrange(i as int, text.spec_bytes().len() as int));
            r == if after.len() > 0 {
                Some(after[0])
            } else {
                None::<char>
            }
        }),
{
    let len = text.as_bytes().len();
    proof {
        is_char_boundary_start_end_of_seq(text.spec_bytes());
    }
    let rest = substring(text, i, len);
    proof {
        encode_utf8_decode_utf8(rest@);
        lemma_empty_text(rest@);
    }
    if i == len {
        None
    } else {
        crate::text::first_char(rest)
    }
}

/// Whether the range stands as a word of its own.
fn is_whole_word(haystack: &str, range: &Range<usize>) -> (r: bool)
    requires
        on_boundaries(haystack.spec_bytes(), seq![(range.start as int, range.end as int)]),
    ensures
        r == spec_whole_word(haystack.spec_bytes(), (range.start as int, range.end as int)),
{
    assert(seq![(range.start as int, range.end as int)][0] == (range.start as int, range.end as int));
    let before = char_before(haystack, range.start);
    let after = char_after(haystack, range.end);
    let word_before = match before {
        Some(c) => is_word_char(c),
        None => false,
    };
    let word_after = match after {
        Some(c) => is_word_char(c),
        None => false,
    };
    !word_before && !word_after
}

/// Exact matches of a valid non-empty text lie on character boundaries.
pub proof fn lemma_exact_on_boundaries(h: Seq<u8>, n: Seq<u8>)
    requires
        valid_utf8(h),
        valid_utf8(n),
    ensures
        on_boundaries(h, spec_exact(h, n)),
{
    let all = spec_exact(h, n);
    lemma_occurrences_are_matches(h, n, 0);
    assert forall|k: int| 0 <= k < all.len() implies {
        let r = #[trigger] all[k];
        &&& 0 <= r.0 <= r.1 <= h.len()
        &&& is_char_boundary(h, r.0)
        &&& is_char_boundary(h, r.1)
    } by {
        let r = all[k];
        assert(n.len() > 0);
        lemma_match_boundaries(h, n, r.0);
    }
}

// ---------------------------------------------------------------------
// Searching
// ---------------------------------------------------------------------

/// How to search.
#[derive(Debug, Clone, Copy, PartialEq, Eq, Structural)]
pub struct Options {
    pub case_sensitive: bool,
    pub whole_word: bool,
}

impl Default for Options {
    /// Ignoring case, matching inside words too.
    fn default() -> (r: Self)
        ensures
            r == (Options { case_sensitive: false, whole_word: false }),
    {
        Options { case_sensitive: false, whole_word: false }
    }
}

/// A text prepared for repeated searching.
///
/// The case folding of the whole text is done once: measured on a 5 MB
/// file, folding took almost all of a case-insensitive search, and it ran
/// on every key press in the search field.
pub struct Haystack {
    /// The folded copy; `None` when its characters do not start at the same
    /// bytes as the text's, since its offsets would then not be offsets into
    /// the text itself.
    folded: Option<String>,
    /// Byte length of the text the haystack was made for.
    source_len: usize,
    /// The text the haystack was made for.
    source: Ghost<Seq<char>>,
}

/// What a [`Haystack`] holds.
pub struct HaystackView {
    pub folded: Option<Seq<char>>,
    pub source_len: nat,
    pub source: Seq<char>,
}

impl View for Haystack {
    type V = HaystackView;

    closed spec fn view(&self) -> HaystackView {
        HaystackView {
            folded: match self.folded {
                Some(f) => Some(f@),
                None => None,
            },
            source_len: self.source_len as nat,
            source: self.source@,
        }
    }
}

/// Two encodings of one length whose characters start at the same bytes.
pub open spec fn same_boundaries(a: Seq<u8>, b: Seq<u8>) -> bool {
    &&& a.len() == b.len()
    &&& forall|i: int| 0 <= i < a.len() ==> is_continuation_byte(#[trigger] a[i]) == is_continuation_byte(b[i])
}

/// The haystack of a text: its lower case, kept when its characters start
/// at the same bytes as the text's, so that its offsets are offsets into
/// the text. Folding can change the length of single characters and yet
/// keep the total (`İ` grows by a byte where the Kelvin sign shrinks by
/// two), so comparing the lengths alone is not enough.
pub open spec fn spec_haystack(text: Seq<char>) -> HaystackView {
    let lower = spec_str_lowercase(text);
    HaystackView {
        folded: if same_boundaries(encode_utf8(lower), encode_utf8(text)) {
            Some(lower)
        } else {
            None
        },
        source_len: encode_utf8(text).len(),
        source: text,
    }
}

/// The ranges that match before the whole-word check: exact bytes when
/// case matters; otherwise the lowered needle in the folded copy, or, when
/// there is none, character by character in the text itself.
pub open spec fn spec_candidates(
    hay: HaystackView,
    text: Seq<char>,
    needle: Seq<char>,
    case_sensitive: bool,
) -> Seq<(int, int)> {
    if case_sensitive {
        spec_exact(encode_utf8(text), encode_utf8(needle))
    } else {
        let w = spec_str_lowercase(needle);
        match hay.folded {
            Some(f) => spec_exact(encode_utf8(f), encode_utf8(w)),
            None => spec_scan(text, w),
        }
    }
}

/// All matches of `needle` in `text`, in ascending order; none for an
/// empty needle or an empty text.
pub open spec fn spec_find(hay: HaystackView, text: Seq<char>, needle: Seq<char>, options: Options) -> Seq<(int, int)> {
    if needle.len() == 0 || text.len() == 0 {
        Seq::empty()
    } else {
        let found = spec_candidates(hay, text, needle, options.case_sensitive);
        if options.whole_word {
            keep_whole_words(encode_utf8(text), found)
        } else {
            found
        }
    }
}

/// Character boundaries of two valid encodings with the same boundaries
/// are the same.
pub proof fn lemma_same_boundaries(a: Seq<u8>, b: Seq<u8>)
    requires
        valid_utf8(a),
        valid_utf8(b),
        same_boundaries(a, b),
    ensures
        forall|i: int| 0 <= i <= a.len() ==> is_char_boundary(a, i) == #[trigger] is_char_boundary(b, i),
{
    assert forall|i: int| 0 <= i <= a.len() implies is_char_boundary(a, i) == #[trigger] is_char_boundary(b, i) by {
        if i < a.len() {
            is_char_boundary_iff_not_is_continuation_byte(a, i);
            is_char_boundary_iff_not_is_continuation_byte(b, i);
        } else {
            is_char_boundary_start_end_of_seq(a);
            is_char_boundary_start_end_of_seq(b);
        }
    }
}

/// The candidates of a text's own haystack lie on its character
/// boundaries, by whichever path they were found.
pub proof fn lemma_candidates_on_boundaries(text: Seq<char>, needle: Seq<char>, case_sensitive: bool)
    ensures
        on_boundaries(encode_utf8(text), spec_candidates(spec_haystack(text), text, needle, case_sensitive)),
{
    let b = encode_utf8(text);
    let hay = spec_haystack(text);
    if case_sensitive {
        lemma_exact_on_boundaries(b, encode_utf8(needle));
    } else {
        let w = spec_str_lowercase(needle);
        match hay.folded {
            Some(f) => {
                let fb = encode_utf8(f);
                let rs = spec_exact(fb, encode_utf8(w));
                lemma_exact_on_boundaries(fb, encode_utf8(w));
                lemma_same_boundaries(fb, b);
                assert forall|k: int| 0 <= k < rs.len() implies {
                    let r = #[trigger] rs[k];
                    &&& 0 <= r.0 <= r.1 <= b.len()
                    &&& is_char_boundary(b, r.0)
                    &&& is_char_boundary(b, r.1)
                } by {
                    let r = rs[k];
                    assert(is_char_boundary(fb, r.0) && is_char_boundary(fb, r.1));
                }
            },
            None => {
                lemma_scan_on_boundaries(text, w, 0);
            },
        }
    }
}

/// Whether the characters of `a` and `b` start at the same bytes.
fn boundaries_agree(a: &str, b: &str) -> (r: bool)
    ensures
        r == same_boundaries(a.spec_bytes(), b.spec_bytes()),
{
    let x = a.as_bytes();
    let y = b.as_bytes();
    if x.len() != y.len() {
        return false;
    }
    let mut i: usize = 0;
    while i < x.len()
        invariant
            x@ == a.spec_bytes(),
            y@ == b.spec_bytes(),
            x@.len() == y@.len(),
            i <= x@.len(),
            forall|k: int| 0 <= k < i ==> is_continuation_byte(#[trigger] x@[k]) == is_continuation_byte(y@[k]),
        decreases x@.len() - i,
    {
        let cx = 0x80u8 <= x[i] && x[i] <= 0xBFu8;
        let cy = 0x80u8 <= y[i] && y[i] <= 0xBFu8;
        if cx != cy {
            assert(is_continuation_byte(x@[i as int]) != is_continuation_byte(y@[i as int]));
            return false;
        }
        i += 1;
    }
    true
}

impl Haystack {
    /// The haystack always belongs to the text it was made for.
    #[verifier::type_invariant]
    spec fn made_for_source(self) -> bool {
        self@ == spec_haystack(self@.source)
    }

    /// Folds the text's case once, for all the searches to come.
    pub fn new(text: &str) -> (r: Haystack)
        ensures
            r@ == spec_haystack(text@),
    {
        let folded = str_lowercase(text);
        let same = boundaries_agree(folded.as_str(), text);
        Haystack {
            folded: if same {
                Some(folded)
            } else {
                None
            },
            source_len: text.as_bytes().len(),
            source: Ghost(text@),
        }
    }

    /// Byte length of the text the haystack was made for: a caller checks
    /// it before searching a text that may have changed since.
    pub fn source_len(&self) -> (r: usize)
        ensures
            r == self@.source_len,
    {
        self.source_len
    }

    /// The candidates, before the whole-word check.
    fn candidates(&self, text: &str, needle: &str, case_sensitive: bool) -> (r: Vec<Range<usize>>)
        ensures
            pairs(r@) == spec_candidates(self@, text@, needle@, case_sensitive),
    {
        if case_sensitive {
            exact(text, needle)
        } else {
            let lowered = str_lowercase(needle);
            match &self.folded {
                Some(folded) => exact(folded.as_str(), lowered.as_str()),
                None => scan_by_chars(text, lowered.as_str()),
            }
        }
    }

    /// All matches of `needle` in `text`, in ascending order of offset,
    /// none overlapping another (see [`lemma_find_apart`]), each on
    /// character boundaries of `text` (see [`lemma_find_on_boundaries`]).
    ///
    /// `text` must be the text the haystack was made for.
    pub fn find_all(&self, text: &str, needle: &str, options: Options) -> (r: Vec<Range<usize>>)
        requires
            text@ == self@.source,
        ensures
            pairs(r@) == spec_find(self@, text@, needle@, options),
    {
        proof {
            use_type_invariant(self);
            lemma_candidates_on_boundaries(text@, needle@, options.case_sensitive);
        }
        let mut out: Vec<Range<usize>> = Vec::new();
        if needle.is_empty() || text.is_empty() {
            return out;
        }
        let found = self.candidates(text, needle, options.case_sensitive);
        if !options.whole_word {
            return found;
        }
        let ghost b = text.spec_bytes();
        let ghost rs = pairs(found@);
        let mut k: usize = 0;
        while k < found.len()
            invariant
                k <= found.len(),
                b == text.spec_bytes(),
                rs == pairs(found@),
                on_boundaries(b, rs),
                pairs(out@) == keep_whole_words(b, rs.take(k as int)),
            decreases found.len() - k,
        {
            assert(rs.take(k + 1).drop_last() =~= rs.take(k as int));
            let range = &found[k];
            assert(rs[k as int] == (range.start as int, range.end as int));
            assert(on_boundaries(b, seq![(range.start as int, range.end as int)])) by {
                assert(seq![(range.start as int, range.end as int)][0] == rs[k as int]);
            }
            let ghost before = pairs(out@);
            if is_whole_word(text, range) {
                out.push(Range { start: range.start, end: range.end });
                assert(pairs(out@) =~= before.push(rs[k as int]));
            }
            k += 1;
        }
        assert(rs.take(k as int) =~= rs);
        out
    }
}

/// Keeping whole words keeps ranges of the list, so ranges on boundaries
/// stay on boundaries.
pub proof fn lemma_keep_on_boundaries(b: Seq<u8>, rs: Seq<(int, int)>)
    requires
        on_boundaries(b, rs),
    ensures
        on_boundaries(b, keep_whole_words(b, rs)),
        forall|k: int| 0 <= k < keep_whole_words(b, rs).len() ==> rs.contains(#[trigger] keep_whole_words(b, rs)[k]),
    decreases rs.len(),
{
    if rs.len() > 0 {
        let init = rs.drop_last();
        assert(on_boundaries(b, init)) by {
            assert forall|k: int| 0 <= k < init.len() implies {
                let r = #[trigger] init[k];
                &&& 0 <= r.0 <= r.1 <= b.len()
                &&& is_char_boundary(b, r.0)
                &&& is_char_boundary(b, r.1)
            } by {
                assert(init[k] == rs[k]);
            }
        }
        lemma_keep_on_boundaries(b, init);
        let rest = keep_whole_words(b, init);
        let all = keep_whole_words(b, rs);
        assert forall|k: int| 0 <= k < all.len() implies rs.contains(#[trigger] all[k]) && {
            let r = all[k];
            &&& 0 <= r.0 <= r.1 <= b.len()
            &&& is_char_boundary(b, r.0)
            &&& is_char_boundary(b, r.1)
        } by {
            if k < rest.len() {
                assert(all[k] == rest[k]);
                assert(rs.contains(rest[k])) by {
                    let j = choose|j: int| 0 <= j < init.len() && init[j] == rest[k];
                    assert(rs[j] == init[j]);
                }
            } else {
                assert(all[k] == rs[rs.len() - 1]);
            }
            let j = choose|j: int| 0 <= j < rs.len() && rs[j] == all[k];
            assert(rs[j] == all[k]);
        }
    }
}

/// Every match lies inside the text, on its character boundaries.
pub proof fn lemma_find_on_boundaries(text: Seq<char>, needle: Seq<char>, options: Options)
    ensures
        on_boundaries(encode_utf8(text), spec_find(spec_haystack(text), text, needle, options)),
{
    if needle.len() > 0 && text.len() > 0 {
        lemma_candidates_on_boundaries(text, needle, options.case_sensitive);
        if options.whole_word {
            lemma_keep_on_boundaries(
                encode_utf8(text),
                spec_candidates(spec_haystack(text), text, needle, options.case_sensitive),
            );
        }
    }
}

/// Ranges whose starts strictly increase.
pub open spec fn ascending(rs: Seq<(int, int)>) -> bool {
    forall|i: int, j: int| 0 <= i < j < rs.len() ==> (#[trigger] rs[i]).0 < (#[trigger] rs[j]).0
}

/// Ranges that each start no later than they end, with ends ascending.
pub open spec fn ends_ascending(rs: Seq<(int, int)>) -> bool {
    &&& forall|i: int| 0 <= i < rs.len() ==> (#[trigger] rs[i]).0 <= rs[i].1
    &&& forall|i: int, j: int| 0 <= i < j < rs.len() ==> (#[trigger] rs[i]).1 <= (#[trigger] rs[j]).1
}

/// Ranges that are each non-empty and each end no later than any later
/// one starts: in ascending order, none overlapping another.
pub open spec fn ordered_apart(rs: Seq<(int, int)>) -> bool {
    &&& forall|i: int| 0 <= i < rs.len() ==> (#[trigger] rs[i]).0 < rs[i].1
    &&& forall|i: int, j: int| 0 <= i < j < rs.len() ==> (#[trigger] rs[i]).1 <= (#[trigger] rs[j]).0
}

/// Exact occurrences come in order and do not overlap.
pub proof fn lemma_occurrences_ordered(h: Seq<u8>, n: Seq<u8>, from: int)
    ensures
        forall|i: int, j: int|
            0 <= i < j < occurrences_from(h, n, from).len() ==> (#[trigger] occurrences_from(h, n, from)[i]).1
                <= (#[trigger] occurrences_from(h, n, from)[j]).0,
    decreases h.len() - from,
{
    if !(n.len() == 0 || from < 0 || from + n.len() > h.len()) {
        let all = occurrences_from(h, n, from);
        if h.subrange(from, from + n.len()) == n {
            let rest = occurrences_from(h, n, from + n.len());
            lemma_occurrences_ordered(h, n, from + n.len());
            lemma_occurrences_are_matches(h, n, from + n.len());
            assert forall|i: int, j: int| 0 <= i < j < all.len() implies (#[trigger] all[i]).1 <= (
            #[trigger] all[j]).0 by {
                assert(all[j] == rest[j - 1]);
                if i > 0 {
                    assert(all[i] == rest[i - 1]);
                }
            }
        } else {
            lemma_occurrences_ordered(h, n, from + 1);
            assert(all == occurrences_from(h, n, from + 1));
        }
    }
}

/// Byte offsets grow with the character index.
pub proof fn lemma_byte_offset_grows(t: Seq<char>, i: int, j: int)
    requires
        0 <= i < j <= t.len(),
    ensures
        byte_offset(t, i) < byte_offset(t, j),
    decreases j - i,
{
    lemma_byte_offset_step(t, j - 1);
    if i < j - 1 {
        lemma_byte_offset_grows(t, i, j - 1);
    }
}

/// Byte offsets never shrink with the character index.
pub proof fn lemma_byte_offset_monotone(t: Seq<char>, i: int, j: int)
    requires
        0 <= i <= j <= t.len(),
    ensures
        byte_offset(t, i) <= byte_offset(t, j),
{
    if i < j {
        lemma_byte_offset_grows(t, i, j);
    }
}

/// Character matches are non-empty, come in order without overlapping,
/// and start no earlier than the character the scan starts from.
pub proof fn lemma_scan_apart(t: Seq<char>, w: Seq<char>, i: int)
    requires
        0 <= i,
    ensures
        ordered_apart(scan_from(t, w, i)),
        forall|k: int| 0 <= k < scan_from(t, w, i).len() ==> (#[trigger] scan_from(t, w, i)[k]).0 >= byte_offset(t, i),
    decreases t.len() - i,
{
    if i < t.len() {
        let all = scan_from(t, w, i);
        if w.len() > 0 && folds_to_at(t, w, i) {
            let j = i + w.len();
            lemma_scan_apart(t, w, j);
            lemma_byte_offset_grows(t, i, j);
            let rest = scan_from(t, w, j);
            assert forall|k: int| 0 <= k < all.len() implies (#[trigger] all[k]).0 >= byte_offset(t, i) && all[k].0
                < all[k].1 by {
                if k > 0 {
                    assert(all[k] == rest[k - 1]);
                }
            }
            assert forall|a: int, c: int| 0 <= a < c < all.len() implies (#[trigger] all[a]).1 <= (
            #[trigger] all[c]).0 by {
                assert(all[c] == rest[c - 1]);
                if a > 0 {
                    assert(all[a] == rest[a - 1]);
                }
            }
        } else {
            lemma_scan_apart(t, w, i + 1);
            lemma_byte_offset_grows(t, i, i + 1);
            assert(all == scan_from(t, w, i + 1));
        }
    }
}

/// The whole-word check keeps some of the ranges, in their order.
pub proof fn lemma_keep_subsequence(b: Seq<u8>, rs: Seq<(int, int)>)
    ensures
        forall|k: int|
            0 <= k < keep_whole_words(b, rs).len() ==> exists|j: int|
                0 <= j < rs.len() && rs[j] == #[trigger] keep_whole_words(b, rs)[k],
        ascending(rs) ==> ascending(keep_whole_words(b, rs)),
    decreases rs.len(),
{
    if rs.len() > 0 {
        let init = rs.drop_last();
        lemma_keep_subsequence(b, init);
        let rest = keep_whole_words(b, init);
        let all = keep_whole_words(b, rs);
        assert forall|k: int| 0 <= k < all.len() implies exists|j: int|
            0 <= j < rs.len() && rs[j] == #[trigger] all[k] by {
            if k < rest.len() {
                assert(all[k] == rest[k]);
                let j = choose|j: int| 0 <= j < init.len() && init[j] == rest[k];
                assert(rs[j] == init[j]);
            } else {
                assert(rs[rs.len() - 1] == all[k]);
            }
        }
        if ascending(rs) {
            assert(ascending(init)) by {
                assert forall|i: int, j: int| 0 <= i < j < init.len() implies (#[trigger] init[i]).0 < (
                #[trigger] init[j]).0 by {
                    assert(init[i] == rs[i] && init[j] == rs[j]);
                }
            }
            assert forall|a: int, c: int| 0 <= a < c < all.len() implies (#[trigger] all[a]).0 < (#[trigger] all[c]).0 by {
                if c < rest.len() {
                    assert(all[a] == rest[a] && all[c] == rest[c]);
                } else {
                    assert(all[a] == rest[a]);
                    let j = choose|j: int| 0 <= j < init.len() && init[j] == rest[a];
                    assert(rs[j] == init[j]);
                    assert(all[c] == rs[rs.len() - 1]);
                }
            }
        }
    }
}

/// Keeping whole words keeps ranges apart.
pub proof fn lemma_keep_apart(b: Seq<u8>, rs: Seq<(int, int)>)
    requires
        ordered_apart(rs),
    ensures
        ordered_apart(keep_whole_words(b, rs)),
    decreases rs.len(),
{
    if rs.len() > 0 {
        let init = rs.drop_last();
        assert(ordered_apart(init)) by {
            assert forall|i: int| 0 <= i < init.len() implies (#[trigger] init[i]).0 < init[i].1 by {
                assert(init[i] == rs[i]);
            }
            assert forall|i: int, j: int| 0 <= i < j < init.len() implies (#[trigger] init[i]).1 <= (
            #[trigger] init[j]).0 by {
                assert(init[i] == rs[i] && init[j] == rs[j]);
            }
        }
        lemma_keep_apart(b, init);
        lemma_keep_subsequence(b, init);
        let rest = keep_whole_words(b, init);
        let all = keep_whole_words(b, rs);
        assert forall|k: int| 0 <= k < all.len() implies (#[trigger] all[k]).0 < all[k].1 by {
            if k < rest.len() {
                assert(all[k] == rest[k]);
            } else {
                assert(all[k] == rs[rs.len() - 1]);
            }
        }
        assert forall|a: int, c: int| 0 <= a < c < all.len() implies (#[trigger] all[a]).1 <= (#[trigger] all[c]).0 by {
            if c < rest.len() {
                assert(all[a] == rest[a] && all[c] == rest[c]);
            } else {
                assert(all[a] == rest[a]);
                let j = choose|j: int| 0 <= j < init.len() && init[j] == rest[a];
                assert(rs[j] == init[j]);
                assert(all[c] == rs[rs.len() - 1]);
            }
        }
    }
}

/// Matches are non-empty and come in ascending order, none overlapping
/// another, whatever the options: the search resumes after each match.
pub proof fn lemma_find_apart(hay: HaystackView, text: Seq<char>, needle: Seq<char>, options: Options)
    ensures
        ordered_apart(spec_find(hay, text, needle, options)),
{
    if needle.len() > 0 && text.len() > 0 {
        let c = spec_candidates(hay, text, needle, options.case_sensitive);
        if options.case_sensitive || hay.folded is Some {
            let (h, n) = if options.case_sensitive {
                (encode_utf8(text), encode_utf8(needle))
            } else {
                (encode_utf8(hay.folded.unwrap()), encode_utf8(spec_str_lowercase(needle)))
            };
            assert(c == spec_exact(h, n));
            lemma_occurrences_ordered(h, n, 0);
            lemma_occurrences_are_matches(h, n, 0);
            if n.len() > 0 {
                assert forall|i: int| 0 <= i < c.len() implies (#[trigger] c[i]).0 < c[i].1 by {
                    assert(c[i].1 == c[i].0 + n.len());
                }
            }
        } else {
            lemma_scan_apart(text, spec_str_lowercase(needle), 0);
        }
        if options.whole_word {
            lemma_keep_apart(encode_utf8(text), c);
        }
    }
}

/// Matches come in ascending order of offset, whatever the options.
pub proof fn lemma_find_ascending(hay: HaystackView, text: Seq<char>, needle: Seq<char>, options: Options)
    ensures
        ascending(spec_find(hay, text, needle, options)),
{
    lemma_find_apart(hay, text, needle, options);
}

/// Matches also end in ascending order, each no earlier than it starts:
/// what drawing them line by line relies on.
pub proof fn lemma_find_ends_ascending(hay: HaystackView, text: Seq<char>, needle: Seq<char>, options: Options)
    ensures
        ends_ascending(spec_find(hay, text, needle, options)),
{
    lemma_find_apart(hay, text, needle, options);
}

/// With case taken into account, every match is the needle's bytes.
pub proof fn lemma_case_sensitive_matches_needle(hay: HaystackView, text: Seq<char>, needle: Seq<char>, whole_word: bool)
    ensures
        forall|k: int|
            0 <= k < spec_find(hay, text, needle, Options { case_sensitive: true, whole_word }).len() ==> {
                let r = #[trigger] spec_find(hay, text, needle, Options { case_sensitive: true, whole_word })[k];
                &&& 0 <= r.0 <= r.1 <= encode_utf8(text).len()
                &&& encode_utf8(text).subrange(r.0, r.1) == encode_utf8(needle)
            },
{
    let options = Options { case_sensitive: true, whole_word };
    let h = encode_utf8(text);
    let n = encode_utf8(needle);
    let found = spec_find(hay, text, needle, options);
    let c = spec_exact(h, n);
    lemma_occurrences_are_matches(h, n, 0);
    lemma_keep_subsequence(h, c);
    assert forall|k: int| 0 <= k < found.len() implies {
        let r = #[trigger] found[k];
        &&& 0 <= r.0 <= r.1 <= h.len()
        &&& h.subrange(r.0, r.1) == n
    } by {
        if whole_word {
            let j = choose|j: int| 0 <= j < c.len() && c[j] == keep_whole_words(h, c)[k];
            assert(c[j] == found[k]);
        } else {
            assert(found[k] == c[k]);
        }
    }
}

/// Whether the ranges `r` and `(p, q)` share a byte.
pub open spec fn overlaps(r: (int, int), p: int, q: int) -> bool {
    r.0 < q && p < r.1
}

/// No occurrence is missed: every occurrence of `n` at or after `from`
/// overlaps one of the occurrences reported (the search resumes after
/// each match, so an occurrence inside a reported one is not reported
/// again).
proof fn lemma_occurrences_complete(h: Seq<u8>, n: Seq<u8>, from: int, p: int)
    requires
        n.len() > 0,
        0 <= from <= p,
        p + n.len() <= h.len(),
        h.subrange(p, p + n.len()) == n,
    ensures
        exists|k: int|
            0 <= k < occurrences_from(h, n, from).len() && overlaps(
                #[trigger] occurrences_from(h, n, from)[k],
                p,
                p + n.len(),
            ),
    decreases p - from,
{
    let all = occurrences_from(h, n, from);
    if h.subrange(from, from + n.len()) == n {
        let rest = occurrences_from(h, n, from + n.len());
        if p < from + n.len() {
            assert(overlaps(all[0], p, p + n.len()));
        } else {
            lemma_occurrences_complete(h, n, from + n.len(), p);
            let k = choose|k: int| 0 <= k < rest.len() && overlaps(#[trigger] rest[k], p, p + n.len());
            assert(all[k + 1] == rest[k]);
        }
    } else {
        assert(from != p);
        lemma_occurrences_complete(h, n, from + 1, p);
        assert(all == occurrences_from(h, n, from + 1));
    }
}

/// Whether the byte range `r` of `t` is a run of characters that, lowered
/// one by one, spell `w`.
pub open spec fn is_char_match(t: Seq<char>, w: Seq<char>, r: (int, int)) -> bool {
    exists|j: int| #[trigger] folds_to_at(t, w, j) && r == (byte_offset(t, j), byte_offset(t, j + w.len()))
}

/// Every character match is a run of characters that, lowered one by one,
/// spell `w`.
proof fn lemma_scan_sound(t: Seq<char>, w: Seq<char>, i: int)
    ensures
        forall|k: int| 0 <= k < scan_from(t, w, i).len() ==> is_char_match(t, w, #[trigger] scan_from(t, w, i)[k]),
    decreases t.len() - i,
{
    if !(i < 0 || i >= t.len()) {
        let all = scan_from(t, w, i);
        if w.len() > 0 && folds_to_at(t, w, i) {
            lemma_scan_sound(t, w, i + w.len());
            let rest = scan_from(t, w, i + w.len());
            assert forall|k: int| 0 <= k < all.len() implies is_char_match(t, w, #[trigger] all[k]) by {
                if k == 0 {
                    assert(all[0] == (byte_offset(t, i), byte_offset(t, i + w.len())));
                    assert(folds_to_at(t, w, i));
                } else {
                    assert(all[k] == rest[k - 1]);
                }
            }
        } else {
            lemma_scan_sound(t, w, i + 1);
            let rest = scan_from(t, w, i + 1);
            assert(all == rest);
            assert forall|k: int| 0 <= k < all.len() implies is_char_match(t, w, #[trigger] all[k]) by {
                assert(all[k] == rest[k]);
            }
        }
    }
}

/// No character match is missed: every run that spells `w` from character
/// `i` on overlaps a reported match.
proof fn lemma_scan_complete(t: Seq<char>, w: Seq<char>, i: int, j: int)
    requires
        w.len() > 0,
        0 <= i <= j,
        folds_to_at(t, w, j),
    ensures
        exists|k: int|
            0 <= k < scan_from(t, w, i).len() && overlaps(
                #[trigger] scan_from(t, w, i)[k],
                byte_offset(t, j),
                byte_offset(t, j + w.len()),
            ),
    decreases j - i,
{
    let all = scan_from(t, w, i);
    if folds_to_at(t, w, i) {
        if j < i + w.len() {
            lemma_byte_offset_monotone(t, i, j);
            lemma_byte_offset_grows(t, j, j + w.len());
            lemma_byte_offset_grows(t, j, i + w.len());
            assert(overlaps(all[0], byte_offset(t, j), byte_offset(t, j + w.len())));
        } else {
            let rest = scan_from(t, w, i + w.len());
            lemma_scan_complete(t, w, i + w.len(), j);
            let k = choose|k: int|
                0 <= k < rest.len() && overlaps(#[trigger] rest[k], byte_offset(t, j), byte_offset(t, j + w.len()));
            assert(all[k + 1] == rest[k]);
        }
    } else {
        assert(i != j);
        lemma_scan_complete(t, w, i + 1, j);
        assert(all == scan_from(t, w, i + 1));
    }
}

/// With case ignored, the query is looked for in lower case: every match
/// is a place where the text, folded, reads the lowered query, and no such
/// place is missed (each overlaps a match). Where folding keeps the
/// character boundaries, this is said of the folded copy; elsewhere of the
/// text's characters, each lowered on its own.
pub proof fn lemma_ignore_case_finds_lowered(text: Seq<char>, needle: Seq<char>)
    ensures
        ({
            let found = spec_find(spec_haystack(text), text, needle, Options { case_sensitive: false, whole_word: false });
            let w = spec_str_lowercase(needle);
            match spec_haystack(text).folded {
                Some(f) => {
                    &&& forall|k: int|
                        0 <= k < found.len() ==> 0 <= (#[trigger] found[k]).0 && found[k].1 <= encode_utf8(f).len()
                            && encode_utf8(f).subrange(found[k].0, found[k].1) == encode_utf8(w)
                    &&& forall|p: int|
                        needle.len() > 0 && encode_utf8(w).len() > 0 && 0 <= p && p + encode_utf8(w).len()
                            <= encode_utf8(f).len() && #[trigger] encode_utf8(f).subrange(
                            p,
                            p + encode_utf8(w).len(),
                        ) == encode_utf8(w) ==> exists|k: int|
                            0 <= k < found.len() && overlaps(#[trigger] found[k], p, p + encode_utf8(w).len())
                },
                None => {
                    &&& forall|k: int| 0 <= k < found.len() ==> is_char_match(text, w, #[trigger] found[k])
                    &&& forall|j: int|
                        needle.len() > 0 && w.len() > 0 && #[trigger] folds_to_at(text, w, j) ==> exists|k: int|
                            0 <= k < found.len() && overlaps(
                                #[trigger] found[k],
                                byte_offset(text, j),
                                byte_offset(text, j + w.len()),
                            )
                },
            }
        }),
{
    let options = Options { case_sensitive: false, whole_word: false };
    let hay = spec_haystack(text);
    let found = spec_find(hay, text, needle, options);
    let w = spec_str_lowercase(needle);
    match hay.folded {
        Some(f) => {
            let h = encode_utf8(f);
            let n = encode_utf8(w);
            lemma_occurrences_are_matches(h, n, 0);
            assert forall|k: int| 0 <= k < found.len() implies 0 <= (#[trigger] found[k]).0 && found[k].1
                <= h.len() && h.subrange(found[k].0, found[k].1) == n by {
                assert(needle.len() > 0 && text.len() > 0);
                assert(found == spec_exact(h, n));
                assert(found[k] == occurrences_from(h, n, 0)[k]);
            }
            assert forall|p: int|
                needle.len() > 0 && n.len() > 0 && 0 <= p && p + n.len() <= h.len() && #[trigger] h.subrange(p, p + n.len())
                    == n implies exists|k: int| 0 <= k < found.len() && overlaps(#[trigger] found[k], p, p + n.len()) by {
                lemma_occurrences_complete(h, n, 0, p);
                if text.len() == 0 {
                    assert(encode_utf8(text).len() == 0);
                    assert(h.len() == 0);
                }
                assert(found == spec_exact(h, n));
            }
        },
        None => {
            lemma_scan_sound(text, w, 0);
            assert forall|k: int| 0 <= k < found.len() implies is_char_match(text, w, #[trigger] found[k]) by {
                assert(needle.len() > 0 && text.len() > 0);
                assert(found == spec_scan(text, w));
                assert(found[k] == scan_from(text, w, 0)[k]);
            }
            assert forall|j: int| needle.len() > 0 && w.len() > 0 && #[trigger] folds_to_at(text, w, j) implies exists|k: int|
                0 <= k < found.len() && overlaps(#[trigger] found[k], byte_offset(text, j), byte_offset(text, j + w.len())) by {
                lemma_scan_complete(text, w, 0, j);
                assert(text.len() > 0);
                assert(found == spec_scan(text, w));
            }
        },
    }
}

/// One search without preparation: handy for a short text and in tests.
pub fn find_all(haystack: &str, needle: &str, options: Options) -> (r: Vec<Range<usize>>)
    ensures
        pairs(r@) == spec_find(spec_haystack(haystack@), haystack@, needle@, options),
{
    Haystack::new(haystack).find_all(haystack, needle, options)
}

} // verus!
