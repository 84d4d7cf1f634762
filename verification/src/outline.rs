//! Structure of a Markdown document: headings, anchors and plain text.
//!
//! Anchors are made here rather than taken from the renderer: the parser
//! does not invent heading identifiers, so [`inject_anchors`] writes
//! `{#slug}` after every ATX heading itself, with slugs from [`slug`]. Both
//! sides are ours and agree by construction.

use vstd::prelude::*;
use vstd::string::*;
use vstd::utf8::*;

use crate::markdown::{events_view, events_well_placed, markdown_events, spec_events, MdEvent, MdEventView, PARSER_OPTIONS};
use crate::text::push_char;
use crate::document::ascii_lower_char;
use crate::unicode::{
    ascii_alnum, char_lowercase, chars_of, is_alphanumeric, is_ascii_char, is_whitespace,
    spec_char_lowercase, spec_is_alphanumeric, spec_is_whitespace,
};

verus! {

broadcast use vstd::utf8::group_utf8_lib;

// ---------------------------------------------------------------------
// Slugs
// ---------------------------------------------------------------------

/// What one character contributes to a slug: letters, digits, `-` and `_`
/// in lower case, whitespace as `-`, everything else nothing.
pub open spec fn slug_piece(c: char) -> Seq<char> {
    if spec_is_alphanumeric(c) || c == '-' || c == '_' {
        spec_char_lowercase(c)
    } else if spec_is_whitespace(c) {
        seq!['-']
    } else {
        Seq::empty()
    }
}

/// The GitHub-style slug of a heading text.
pub open spec fn spec_slug(s: Seq<char>) -> Seq<char>
    decreases s.len(),
{
    if s.len() == 0 {
        Seq::empty()
    } else {
        spec_slug(s.drop_last()) + slug_piece(s.last())
    }
}

/// A text of ASCII characters only.
pub open spec fn is_ascii_text(t: Seq<char>) -> bool {
    forall|i: int| 0 <= i < t.len() ==> is_ascii_char(#[trigger] t[i])
}

/// What an ASCII character contributes to a slug, by the ASCII rules.
pub open spec fn ascii_slug_piece(c: char) -> Seq<char> {
    if ascii_alnum(c) || c == '-' || c == '_' {
        seq![ascii_lower_char(c)]
    } else if spec_is_whitespace(c) {
        seq!['-']
    } else {
        Seq::empty()
    }
}

/// The slug of an ASCII text.
pub open spec fn ascii_slug(t: Seq<char>) -> Seq<char>
    decreases t.len(),
{
    if t.len() == 0 {
        Seq::empty()
    } else {
        ascii_slug(t.drop_last()) + ascii_slug_piece(t.last())
    }
}

/// A character a slug of ASCII text is made of.
pub open spec fn is_slug_char(c: char) -> bool {
    ('a' <= c && c <= 'z') || ('0' <= c && c <= '9') || c == '-' || c == '_'
}

proof fn lemma_ascii_slug_chars(t: Seq<char>)
    ensures
        forall|i: int| 0 <= i < ascii_slug(t).len() ==> is_slug_char(#[trigger] ascii_slug(t)[i]),
    decreases t.len(),
{
    if t.len() > 0 {
        lemma_ascii_slug_chars(t.drop_last());
        let rest = ascii_slug(t.drop_last());
        let c = t.last();
        let piece = ascii_slug_piece(c);
        if ascii_alnum(c) || c == '-' || c == '_' {
            if 'A' <= c && c <= 'Z' {
                assert(('a' as u32) <= (c as u32) + 32 <= ('z' as u32));
                assert('a' <= ascii_lower_char(c) && ascii_lower_char(c) <= 'z');
            }
            assert(is_slug_char(ascii_lower_char(c)));
        }
        assert forall|i: int| 0 <= i < ascii_slug(t).len() implies is_slug_char(#[trigger] ascii_slug(t)[i]) by {
            if i < rest.len() {
                assert(ascii_slug(t)[i] == rest[i]);
            } else {
                assert(ascii_slug(t)[i] == piece[i - rest.len()]);
            }
        }
    }
}

proof fn lemma_ascii_slug_fixed(t: Seq<char>)
    requires
        forall|i: int| 0 <= i < t.len() ==> is_slug_char(#[trigger] t[i]),
    ensures
        ascii_slug(t) == t,
    decreases t.len(),
{
    if t.len() > 0 {
        assert forall|i: int| 0 <= i < t.drop_last().len() implies is_slug_char(#[trigger] t.drop_last()[i]) by {
            assert(t.drop_last()[i] == t[i]);
        }
        lemma_ascii_slug_fixed(t.drop_last());
        assert(is_slug_char(t[t.len() - 1]));
        assert(t.drop_last().push(t.last()) =~= t);
    }
}

/// The slug of an ASCII text is made of ASCII lower-case letters, digits,
/// `-` and `_` only (no whitespace, no other punctuation), and slugging it
/// again changes nothing.
pub proof fn lemma_ascii_slug(t: Seq<char>)
    ensures
        forall|i: int| 0 <= i < ascii_slug(t).len() ==> is_slug_char(#[trigger] ascii_slug(t)[i]),
        is_ascii_text(ascii_slug(t)),
        ascii_slug(ascii_slug(t)) == ascii_slug(t),
{
    lemma_ascii_slug_chars(t);
    lemma_ascii_slug_fixed(ascii_slug(t));
    assert forall|i: int| 0 <= i < ascii_slug(t).len() implies is_ascii_char(#[trigger] ascii_slug(t)[i]) by {
        assert(is_slug_char(ascii_slug(t)[i]));
    }
}

/// The slug of two texts one after the other is the slug of the first
/// followed by the slug of the second: each character counts on its own.
pub proof fn lemma_slug_concat(a: Seq<char>, d: Seq<char>)
    ensures
        spec_slug(a + d) == spec_slug(a) + spec_slug(d),
    decreases d.len(),
{
    if d.len() == 0 {
        assert(a + d =~= a);
        assert(spec_slug(a) + spec_slug(d) =~= spec_slug(a));
    } else {
        lemma_slug_concat(a, d.drop_last());
        assert((a + d).drop_last() =~= a + d.drop_last());
        assert((a + d).last() == d.last());
    }
}

/// What one character does to a slug, wherever it stands: a letter or a
/// digit of any alphabet (as `char::is_alphanumeric` says), `-` and `_`
/// give their lower case; other whitespace gives `-`; any other character
/// is dropped.
pub proof fn lemma_slug_char(a: Seq<char>, c: char, d: Seq<char>)
    ensures
        spec_is_alphanumeric(c) || c == '-' || c == '_' ==> spec_slug(a + seq![c] + d) == spec_slug(a)
            + spec_char_lowercase(c) + spec_slug(d),
        !(spec_is_alphanumeric(c) || c == '-' || c == '_') && spec_is_whitespace(c) ==> spec_slug(
            a + seq![c] + d,
        ) == spec_slug(a) + seq!['-'] + spec_slug(d),
        !(spec_is_alphanumeric(c) || c == '-' || c == '_') && !spec_is_whitespace(c) ==> spec_slug(
            a + seq![c] + d,
        ) == spec_slug(a) + spec_slug(d),
{
    lemma_slug_concat(a + seq![c], d);
    lemma_slug_concat(a, seq![c]);
    assert(seq![c].drop_last() =~= Seq::<char>::empty());
    assert(spec_slug(seq![c]) == spec_slug(Seq::<char>::empty()) + slug_piece(c));
    assert(spec_slug(Seq::<char>::empty()) + slug_piece(c) =~= slug_piece(c));
}

/// Slug by GitHub's rules: lower case, whitespace becomes a hyphen,
/// punctuation is dropped. Letters of every alphabet stay, so Cyrillic
/// headings keep their letters.
pub fn slug(text: &str) -> (r: String)
    ensures
        r@ == spec_slug(text@),
        is_ascii_text(text@) ==> r@ == ascii_slug(text@),
{
    let chars = chars_of(text);
    let mut out = String::new();
    let mut k: usize = 0;
    while k < chars.len()
        invariant
            k <= chars.len(),
            chars@ == text@,
            out@ == spec_slug(chars@.take(k as int)),
            is_ascii_text(text@) ==> out@ == ascii_slug(chars@.take(k as int)),
        decreases chars.len() - k,
    {
        let ch = chars[k];
        let ghost before = out@;
        if is_alphanumeric(ch) || ch == '-' || ch == '_' {
            let lower = char_lowercase(ch);
            let mut j: usize = 0;
            while j < lower.len()
                invariant
                    j <= lower.len(),
                    out@ == before + lower@.take(j as int),
                decreases lower.len() - j,
            {
                push_char(&mut out, lower[j]);
                assert(lower@.take(j + 1) =~= lower@.take(j as int).push(lower@[j as int]));
                j += 1;
            }
            assert(lower@.take(j as int) =~= lower@);
        } else if is_whitespace(ch) {
            push_char(&mut out, '-');
        }
        assert(chars@.take(k + 1).drop_last() =~= chars@.take(k as int));
        assert(out@ =~= before + slug_piece(ch));
        proof {
            if is_ascii_text(text@) {
                assert(is_ascii_char(chars@[k as int]));
                assert(slug_piece(ch) == ascii_slug_piece(ch));
            }
        }
        k += 1;
    }
    assert(chars@.take(k as int) =~= chars@);
    out
}

/// The decimal digit for `d`.
pub open spec fn digit_char(d: int) -> char {
    if d == 0 {
        '0'
    } else if d == 1 {
        '1'
    } else if d == 2 {
        '2'
    } else if d == 3 {
        '3'
    } else if d == 4 {
        '4'
    } else if d == 5 {
        '5'
    } else if d == 6 {
        '6'
    } else if d == 7 {
        '7'
    } else if d == 8 {
        '8'
    } else {
        '9'
    }
}

/// The decimal notation of `n`, without leading zeros.
pub open spec fn spec_decimal(n: nat) -> Seq<char>
    decreases n,
{
    if n < 10 {
        seq![digit_char(n as int)]
    } else {
        spec_decimal(n / 10).push(digit_char((n % 10) as int))
    }
}

fn digit(d: usize) -> (c: char)
    requires
        d < 10,
    ensures
        c == digit_char(d as int),
{
    match d {
        0 => '0',
        1 => '1',
        2 => '2',
        3 => '3',
        4 => '4',
        5 => '5',
        6 => '6',
        7 => '7',
        8 => '8',
        _ => '9',
    }
}

/// Writes `n` in decimal.
pub fn decimal(n: usize) -> (r: String)
    ensures
        r@ == spec_decimal(n as nat),
    decreases n,
{
    if n < 10 {
        let mut out = String::new();
        push_char(&mut out, digit(n));
        assert(out@ =~= seq![digit_char(n as int)]);
        out
    } else {
        let mut out = decimal(n / 10);
        push_char(&mut out, digit(n % 10));
        out
    }
}

/// How many entries of `seen` equal `x`.
pub open spec fn count_of(seen: Seq<Seq<char>>, x: Seq<char>) -> nat
    decreases seen.len(),
{
    if seen.len() == 0 {
        0
    } else {
        count_of(seen.drop_last(), x) + if seen.last() == x {
            1nat
        } else {
            0nat
        }
    }
}

/// The slug that a heading with base slug `base` receives after the base
/// slugs in `seen`: the base itself the first time, then `base-1`, `base-2`.
pub open spec fn spec_unique_slug(base: Seq<char>, seen: Seq<Seq<char>>) -> Seq<char> {
    let count = count_of(seen, base);
    if count == 0 {
        base
    } else {
        base + seq!['-'] + spec_decimal(count)
    }
}

/// The views of a list of strings.
pub open spec fn strings_view(v: Seq<String>) -> Seq<Seq<char>> {
    v.map_values(|s: String| s@)
}

/// Identical headings get suffixes `-1`, `-2`, as on GitHub. `seen` holds
/// every base slug handed out so far, in order.
pub fn unique_slug(base: &str, seen: &mut Vec<String>) -> (r: String)
    ensures
        r@ == spec_unique_slug(base@, strings_view(old(seen)@)),
        strings_view(final(seen)@) == strings_view(old(seen)@).push(base@),
{
    let owned = base.to_owned();
    let mut count: usize = 0;
    let mut i: usize = 0;
    while i < seen.len()
        invariant
            i <= seen.len(),
            owned@ == base@,
            count == count_of(strings_view(seen@.take(i as int)), base@),
            count <= i,
        decreases seen.len() - i,
    {
        assert(strings_view(seen@.take(i + 1)).drop_last() =~= strings_view(seen@.take(i as int)));
        if seen[i] == owned {
            count += 1;
        }
        i += 1;
    }
    assert(seen@.take(i as int) =~= seen@);
    let result = if count == 0 {
        base.to_owned()
    } else {
        let mut out = base.to_owned();
        push_char(&mut out, '-');
        let digits = decimal(count);
        out.append(digits.as_str());
        out
    };
    let ghost before = strings_view(seen@);
    seen.push(owned);
    assert(strings_view(seen@) =~= before.push(base@));
    result
}


// ---------------------------------------------------------------------
// Small text helpers
// ---------------------------------------------------------------------

/// `s` without its leading whitespace.
pub open spec fn spec_trim_start(s: Seq<char>) -> Seq<char>
    decreases s.len(),
{
    if s.len() > 0 && spec_is_whitespace(s[0]) {
        spec_trim_start(s.drop_first())
    } else {
        s
    }
}

/// `s` without its trailing whitespace.
pub open spec fn spec_trim_end(s: Seq<char>) -> Seq<char>
    decreases s.len(),
{
    if s.len() > 0 && spec_is_whitespace(s.last()) {
        spec_trim_end(s.drop_last())
    } else {
        s
    }
}

/// What `str::trim` leaves of `s`.
pub open spec fn spec_trim(s: Seq<char>) -> Seq<char> {
    spec_trim_end(spec_trim_start(s))
}

/// `s` with leading and trailing whitespace removed.
pub fn trim(s: &str) -> (r: String)
    ensures
        r@ == spec_trim(s@),
{
    let chars = chars_of(s);
    let n = chars.len();
    let mut a: usize = 0;
    assert(chars@.subrange(0, n as int) =~= chars@);
    while a < n && is_whitespace(chars[a])
        invariant
            a <= n == chars@.len(),
            spec_trim_start(chars@) == spec_trim_start(chars@.subrange(a as int, n as int)),
        decreases n - a,
    {
        assert(chars@.subrange(a as int, n as int).drop_first() =~= chars@.subrange(a + 1, n as int));
        a += 1;
    }
    let ghost start = chars@.subrange(a as int, n as int);
    assert(spec_trim_start(chars@) == start);
    let mut b: usize = n;
    while b > a && is_whitespace(chars[b - 1])
        invariant
            a <= b <= n == chars@.len(),
            start == chars@.subrange(a as int, n as int),
            spec_trim_end(start) == spec_trim_end(chars@.subrange(a as int, b as int)),
        decreases b - a,
    {
        assert(chars@.subrange(a as int, b as int).drop_last() =~= chars@.subrange(a as int, b - 1));
        b -= 1;
    }
    assert(spec_trim_end(start) == chars@.subrange(a as int, b as int));
    let mut out = String::new();
    let mut k: usize = a;
    while k < b
        invariant
            a <= k <= b <= n == chars@.len(),
            out@ == chars@.subrange(a as int, k as int),
        decreases b - k,
    {
        push_char(&mut out, chars[k]);
        assert(chars@.subrange(a as int, k + 1) =~= chars@.subrange(a as int, k as int).push(chars@[k as int]));
        k += 1;
    }
    out
}

/// Whether, scanning from byte `i` with `k` spaces already skipped (at most
/// three spaces may precede the `#`), the first non-space character is `#`.
pub open spec fn atx_from(b: Seq<u8>, i: int, k: int) -> bool
    decreases 4 - k,
{
    if k >= 4 || i < 0 || i >= b.len() {
        false
    } else if b[i] == 0x20u8 {
        atx_from(b, i + 1, k + 1)
    } else {
        b[i] == 0x23u8
    }
}

/// Whether the heading that starts at byte `start` is written with hashes:
/// among its first four characters the first one that is not a space is
/// `#`. CommonMark allows up to three spaces before the `#`.
pub open spec fn spec_is_atx(b: Seq<u8>, start: int) -> bool {
    atx_from(b, start, 0)
}

/// Is the heading at `start` an ATX heading (`# Title`) rather than a
/// setext one (underlined)?
pub fn is_atx_heading(source: &str, start: usize) -> (r: bool)
    requires
        start <= source.spec_bytes().len(),
    ensures
        r == spec_is_atx(source.spec_bytes(), start as int),
{
    let bytes = source.as_bytes();
    let mut i: usize = start;
    let mut k: usize = 0;
    while k < 4 && i < bytes.len() && bytes[i] == 0x20u8
        invariant
            bytes@ == source.spec_bytes(),
            i == start + k,
            k <= 4,
            spec_is_atx(bytes@, start as int) == atx_from(bytes@, i as int, k as int),
        decreases 4 - k,
    {
        i += 1;
        k += 1;
    }
    k < 4 && i < bytes.len() && bytes[i] == 0x23u8
}

/// Number of `\n` bytes among the first `end` bytes of `b`.
pub open spec fn newlines_before(b: Seq<u8>, end: int) -> nat
    decreases end,
{
    if end <= 0 || b.len() == 0 {
        0
    } else if end > b.len() {
        newlines_before(b, b.len() as int)
    } else {
        newlines_before(b, end - 1) + if b[end - 1] == 0x0Au8 {
            1nat
        } else {
            0nat
        }
    }
}

/// No more newlines than bytes.
pub proof fn lemma_newlines_bound(b: Seq<u8>, end: int)
    requires
        0 <= end <= b.len(),
    ensures
        newlines_before(b, end) <= end,
    decreases end,
{
    if end > 0 {
        lemma_newlines_bound(b, end - 1);
    }
}

/// Turns byte offsets into zero-based line numbers in one forward pass.
///
/// Heading offsets come in increasing order, so the counter only moves
/// forward; asked about an earlier offset it starts over from the top.
pub struct LineCounter<'a> {
    source: &'a str,
    offset: usize,
    line: usize,
}

impl<'a> LineCounter<'a> {
    /// The counter's invariant: `line` newlines lie before `offset`.
    pub closed spec fn wf(&self) -> bool {
        &&& self.offset <= self.source.spec_bytes().len()
        &&& self.line == newlines_before(self.source.spec_bytes(), self.offset as int)
    }

    /// The text the counter walks.
    pub closed spec fn text(&self) -> Seq<u8> {
        self.source.spec_bytes()
    }

    pub fn new(source: &'a str) -> (r: Self)
        ensures
            r.wf(),
            r.text() == source.spec_bytes(),
    {
        LineCounter { source, offset: 0, line: 0 }
    }

    /// The zero-based line of byte `offset` (offsets past the end count as
    /// the end).
    pub fn line_at(&mut self, offset: usize) -> (r: usize)
        requires
            old(self).wf(),
        ensures
            final(self).wf(),
            final(self).text() == old(self).text(),
            r == newlines_before(old(self).text(), offset as int),
    {
        let bytes = self.source.as_bytes();
        if offset < self.offset {
            self.offset = 0;
            self.line = 0;
        }
        let target = if offset < bytes.len() {
            offset
        } else {
            bytes.len()
        };
        let mut i = self.offset;
        let mut line = self.line;
        proof {
            lemma_newlines_bound(bytes@, i as int);
        }
        while i < target
            invariant
                bytes@ == self.source.spec_bytes(),
                self.offset <= i <= target <= bytes@.len(),
                line == newlines_before(bytes@, i as int),
                line <= i,
            decreases target - i,
        {
            if bytes[i] == 0x0Au8 {
                line += 1;
            }
            i += 1;
        }
        self.offset = target;
        self.line = line;
        proof {
            if offset > bytes@.len() {
                assert(newlines_before(bytes@, offset as int) == newlines_before(bytes@, bytes@.len() as int));
            }
        }
        line
    }
}

/// Offset of the first byte after the `line`-th newline, or the length of
/// the text when there are fewer newlines.
pub open spec fn spec_offset_of_line(b: Seq<u8>, line: int) -> int {
    if line == 0 {
        0
    } else {
        first_offset_with_lines(b, line, 0)
    }
}

/// The first `i >= from` such that `line` newlines lie before `i`, if the
/// newline count reaches `line` only there; the text's length otherwise.
pub open spec fn first_offset_with_lines(b: Seq<u8>, line: int, from: int) -> int
    decreases b.len() - from,
{
    if from >= b.len() {
        b.len() as int
    } else if b[from] == 0x0Au8 && newlines_before(b, from + 1) == line {
        from + 1
    } else {
        first_offset_with_lines(b, line, from + 1)
    }
}

/// Byte offset where line number `line` begins.
pub fn offset_of_line(source: &str, line: usize) -> (r: usize)
    ensures
        r == spec_offset_of_line(source.spec_bytes(), line as int),
        r <= source.spec_bytes().len(),
{
    if line == 0 {
        return 0;
    }
    let bytes = source.as_bytes();
    let mut seen: usize = 0;
    let mut index: usize = 0;
    while index < bytes.len()
        invariant
            bytes@ == source.spec_bytes(),
            index <= bytes@.len(),
            seen == newlines_before(bytes@, index as int),
            seen < line,
            spec_offset_of_line(bytes@, line as int) == first_offset_with_lines(bytes@, line as int, index as int),
        decreases bytes.len() - index,
    {
        if bytes[index] == 0x0Au8 {
            seen += 1;
            if seen == line {
                return index + 1;
            }
        }
        index += 1;
    }
    bytes.len()
}

/// Where an anchor is appended on the line that starts at `from`: the end
/// of the line, before its `\r\n` or `\n`.
pub open spec fn spec_line_end(b: Seq<u8>, from: int) -> Option<int> {
    if from > b.len() {
        None
    } else {
        let end = first_newline_at_or_after(b, from);
        Some(
            if end > from && b[end - 1] == 0x0Du8 {
                end - 1
            } else {
                end
            },
        )
    }
}

/// The first `\n` at or after `from`, or the text's length.
pub open spec fn first_newline_at_or_after(b: Seq<u8>, from: int) -> int
    decreases b.len() - from,
{
    if from >= b.len() {
        b.len() as int
    } else if b[from] == 0x0Au8 {
        from
    } else {
        first_newline_at_or_after(b, from + 1)
    }
}

/// End of the line that starts at `from`, before `\r` and `\n`.
pub fn line_end(source: &str, from: usize) -> (r: Option<usize>)
    ensures
        r matches Some(e) ==> spec_line_end(source.spec_bytes(), from as int) == Some(e as int),
        r is None ==> spec_line_end(source.spec_bytes(), from as int) is None,
{
    let bytes = source.as_bytes();
    if from > bytes.len() {
        return None;
    }
    let mut end = from;
    while end < bytes.len() && bytes[end] != 0x0Au8
        invariant
            bytes@ == source.spec_bytes(),
            from <= end <= bytes@.len(),
            first_newline_at_or_after(bytes@, from as int) == first_newline_at_or_after(bytes@, end as int),
        decreases bytes.len() - end,
    {
        end += 1;
    }
    if end > from && bytes[end - 1] == 0x0Du8 {
        Some(end - 1)
    } else {
        Some(end)
    }
}


// ---------------------------------------------------------------------
// Headings
// ---------------------------------------------------------------------

/// A heading of the document.
#[derive(Debug, Clone, PartialEq, Eq)]
pub struct Heading {
    /// From 1 to 6.
    pub level: u8,
    /// The text without markup, as it appears on screen.
    pub text: String,
    /// The anchor. Empty for headings that cannot carry one (see `is_atx`).
    pub slug: String,
    /// Zero-based line number; the source view scrolls by it.
    pub line: usize,
    /// Written with hashes (`# Title`) rather than underlined (setext).
    /// The `{#id}` attribute syntax works for ATX headings only.
    pub is_atx: bool,
}

/// The specification-side image of a [`Heading`].
pub struct HeadingView {
    pub level: u8,
    pub text: Seq<char>,
    pub slug: Seq<char>,
    pub line: int,
    pub is_atx: bool,
}

impl View for Heading {
    type V = HeadingView;

    open spec fn view(&self) -> HeadingView {
        HeadingView {
            level: self.level,
            text: self.text@,
            slug: self.slug@,
            line: self.line as int,
            is_atx: self.is_atx,
        }
    }
}

/// The views of a list of headings.
pub open spec fn headings_view(v: Seq<Heading>) -> Seq<HeadingView> {
    v.map_values(|h: Heading| h@)
}

/// The state of the walk over the event stream.
pub struct ScanState {
    /// Headings found so far.
    pub headings: Seq<HeadingView>,
    /// Base slugs of the ATX headings found so far.
    pub seen: Seq<Seq<char>>,
    /// The heading being read: its level and start offset.
    pub current: Option<(u8, int)>,
    /// Text collected inside the current heading.
    pub text: Seq<char>,
}

/// The walk's starting state.
pub open spec fn scan_start() -> ScanState {
    ScanState { headings: Seq::empty(), seen: Seq::empty(), current: None, text: Seq::empty() }
}

/// Closing the heading of level `level` that started at byte `start`.
pub open spec fn close_heading(b: Seq<u8>, st: ScanState, level: u8, start: int) -> ScanState {
    let trimmed = spec_trim(st.text);
    let atx = spec_is_atx(b, start);
    let base = spec_slug(trimmed);
    ScanState {
        headings: st.headings.push(
            HeadingView {
                level,
                text: trimmed,
                slug: if atx {
                    spec_unique_slug(base, st.seen)
                } else {
                    Seq::empty()
                },
                line: newlines_before(b, start) as int,
                is_atx: atx,
            },
        ),
        seen: if atx {
            st.seen.push(base)
        } else {
            st.seen
        },
        current: None,
        text: st.text,
    }
}

/// One event of the walk. Inside a heading every piece of visible text
/// counts: plain text, inline code, a link's caption.
pub open spec fn scan_step(b: Seq<u8>, st: ScanState, ev: MdEventView) -> ScanState {
    match ev {
        MdEventView::HeadingStart { level, start } => ScanState {
            current: Some((level, start)),
            text: Seq::empty(),
            ..st
        },
        MdEventView::Text(chunk) => if st.current is Some {
            ScanState { text: st.text + chunk, ..st }
        } else {
            st
        },
        MdEventView::Code(chunk) => if st.current is Some {
            ScanState { text: st.text + chunk, ..st }
        } else {
            st
        },
        MdEventView::HeadingEnd => match st.current {
            Some((level, start)) => close_heading(b, st, level, start),
            None => st,
        },
        _ => st,
    }
}

/// The walk over a whole event stream.
pub open spec fn scan_events(b: Seq<u8>, events: Seq<MdEventView>) -> ScanState
    decreases events.len(),
{
    if events.len() == 0 {
        scan_start()
    } else {
        scan_step(b, scan_events(b, events.drop_last()), events.last())
    }
}

/// The headings of a source with bytes `b` whose event stream is `events`.
pub open spec fn spec_headings(b: Seq<u8>, events: Seq<MdEventView>) -> Seq<HeadingView> {
    scan_events(b, events).headings
}

/// The walk continued from state `st` over `events`.
pub open spec fn scan_more(b: Seq<u8>, st: ScanState, events: Seq<MdEventView>) -> ScanState
    decreases events.len(),
{
    if events.len() == 0 {
        st
    } else {
        scan_step(b, scan_more(b, st, events.drop_last()), events.last())
    }
}

/// Events that neither open nor close a heading.
pub open spec fn no_heading_marks(events: Seq<MdEventView>) -> bool {
    forall|i: int| 0 <= i < events.len() ==> !(#[trigger] events[i] is HeadingStart) && !(events[i] is HeadingEnd)
}

proof fn lemma_scan_concat(b: Seq<u8>, a: Seq<MdEventView>, c: Seq<MdEventView>)
    ensures
        scan_events(b, a + c) == scan_more(b, scan_events(b, a), c),
    decreases c.len(),
{
    if c.len() == 0 {
        assert(a + c =~= a);
    } else {
        lemma_scan_concat(b, a, c.drop_last());
        assert((a + c).drop_last() =~= a + c.drop_last());
        assert((a + c).last() == c.last());
    }
}

proof fn lemma_scan_inside(b: Seq<u8>, st: ScanState, mid: Seq<MdEventView>)
    requires
        no_heading_marks(mid),
        st.current is Some,
    ensures
        scan_more(b, st, mid).current == st.current,
        scan_more(b, st, mid).headings == st.headings,
        scan_more(b, st, mid).seen == st.seen,
    decreases mid.len(),
{
    if mid.len() > 0 {
        let init = mid.drop_last();
        assert forall|i: int| 0 <= i < init.len() implies !(#[trigger] init[i] is HeadingStart) && !(
        init[i] is HeadingEnd) by {
            assert(init[i] == mid[i]);
        }
        lemma_scan_inside(b, st, init);
        assert(mid.last() == mid[mid.len() - 1]);
    }
}

/// A heading comes from the parser's heading that encloses it: after the
/// events `evs`, a heading start of level `level` at byte `start`, any
/// events that neither open nor close a heading, and the heading's end
/// add exactly one heading to those of `evs`, last, with that level (the
/// number of `#` of an ATX heading) and the zero-based line of `start`.
pub proof fn lemma_heading_from_start(
    b: Seq<u8>,
    evs: Seq<MdEventView>,
    level: u8,
    start: int,
    mid: Seq<MdEventView>,
)
    requires
        no_heading_marks(mid),
    ensures
        ({
            let before = spec_headings(b, evs);
            let after = spec_headings(
                b,
                evs + seq![MdEventView::HeadingStart { level, start }] + mid + seq![MdEventView::HeadingEnd],
            );
            &&& after.len() == before.len() + 1
            &&& after.take(before.len() as int) == before
            &&& after.last().level == level
            &&& after.last().line == newlines_before(b, start) as int
        }),
{
    let opened = evs + seq![MdEventView::HeadingStart { level, start }];
    let inside = opened + mid;
    let all = inside + seq![MdEventView::HeadingEnd];
    let st0 = scan_events(b, evs);
    lemma_scan_concat(b, evs, seq![MdEventView::HeadingStart { level, start }]);
    assert(seq![MdEventView::HeadingStart { level, start }].drop_last() =~= Seq::<MdEventView>::empty());
    let hs_ev = seq![MdEventView::HeadingStart { level, start }];
    assert(scan_more(b, st0, hs_ev.drop_last()) == st0);
    assert(scan_more(b, st0, hs_ev) == scan_step(b, st0, MdEventView::HeadingStart { level, start }));
    let st1 = scan_events(b, opened);
    assert(st1.current == Some((level, start)));
    assert(st1.headings == st0.headings);
    lemma_scan_concat(b, opened, mid);
    lemma_scan_inside(b, st1, mid);
    let st2 = scan_events(b, inside);
    assert(st2.current == Some((level, start)));
    assert(st2.headings == st0.headings);
    assert(all.drop_last() =~= inside);
    assert(all.last() == MdEventView::HeadingEnd);
    lemma_scan_concat(b, inside, seq![MdEventView::HeadingEnd]);
    let end_ev = seq![MdEventView::HeadingEnd];
    assert(scan_more(b, st2, end_ev.drop_last()) == st2) by {
        assert(end_ev.drop_last() =~= Seq::<MdEventView>::empty());
    }
    let st3 = scan_events(b, all);
    assert(st3 == close_heading(b, st2, level, start));
    assert(st3.headings.take(st0.headings.len() as int) =~= st0.headings);
}

/// The headings, in order of appearance, that the event stream `events` of
/// `source` describes.
pub fn extract_from_events(source: &str, events: &Vec<MdEvent>) -> (r: Vec<Heading>)
    requires
        events_well_placed(source.spec_bytes(), events_view(events@)),
    ensures
        headings_view(r@) == spec_headings(source.spec_bytes(), events_view(events@)),
{
    let ghost b = source.spec_bytes();
    let ghost evs = events_view(events@);
    let mut headings: Vec<Heading> = Vec::new();
    let mut seen: Vec<String> = Vec::new();
    let mut lines = LineCounter::new(source);
    let mut current: Option<(u8, usize)> = None;
    let mut text = String::new();
    let mut i: usize = 0;
    while i < events.len()
        invariant
            i <= events.len(),
            evs == events_view(events@),
            b == source.spec_bytes(),
            events_well_placed(b, evs),
            lines.wf(),
            lines.text() == b,
            current matches Some((level, start)) ==> start <= b.len(),
            ({
                let st = scan_events(b, evs.take(i as int));
                &&& headings_view(headings@) == st.headings
                &&& strings_view(seen@) == st.seen
                &&& text@ == st.text
                &&& match current {
                    Some((level, start)) => st.current == Some((level, start as int)),
                    None => st.current is None,
                }
            }),
        decreases events.len() - i,
    {
        let ghost st = scan_events(b, evs.take(i as int));
        assert(evs.take(i + 1).drop_last() =~= evs.take(i as int));
        assert(evs[i as int] == events@[i as int]@);
        match &events[i] {
            MdEvent::HeadingStart { level, start } => {
                assert(evs[i as int] is HeadingStart);
                current = Some((*level, *start));
                text = String::new();
            },
            MdEvent::Text(chunk) => {
                if current.is_some() {
                    text.append(chunk.as_str());
                }
            },
            MdEvent::Code(chunk) => {
                if current.is_some() {
                    text.append(chunk.as_str());
                }
            },
            MdEvent::HeadingEnd => {
                if let Some((level, start)) = current {
                    let trimmed = trim(text.as_str());
                    let is_atx = is_atx_heading(source, start);
                    let slug = if is_atx {
                        let base = slug(trimmed.as_str());
                        unique_slug(base.as_str(), &mut seen)
                    } else {
                        String::new()
                    };
                    let line = lines.line_at(start);
                    let ghost before = headings_view(headings@);
                    headings.push(Heading { level, text: trimmed, slug, line, is_atx });
                    assert(headings_view(headings@) =~= close_heading(b, st, level, start as int).headings);
                    current = None;
                }
            },
            _ => {},
        }
        i += 1;
    }
    assert(evs.take(i as int) =~= evs);
    headings
}

/// The headings of the document, in order of appearance.
pub fn extract(source: &str) -> (r: Vec<Heading>)
    ensures
        headings_view(r@) == spec_headings(source.spec_bytes(), spec_events(source@)),
{
    let events = markdown_events(source, PARSER_OPTIONS);
    extract_from_events(source, &events)
}

// ---------------------------------------------------------------------
// Plain text
// ---------------------------------------------------------------------

/// What one event contributes to the plain text: visible text as is, a
/// line break for breaks and for the end of a paragraph, heading, list
/// item, code block or table cell.
pub open spec fn plain_piece(ev: MdEventView) -> Seq<char> {
    match ev {
        MdEventView::Text(chunk) => chunk,
        MdEventView::Code(chunk) => chunk,
        MdEventView::SoftBreak => seq!['\n'],
        MdEventView::HardBreak => seq!['\n'],
        MdEventView::ParagraphEnd => seq!['\n'],
        MdEventView::HeadingEnd => seq!['\n'],
        MdEventView::ItemEnd => seq!['\n'],
        MdEventView::CodeBlockEnd => seq!['\n'],
        MdEventView::TableCellEnd => seq!['\n'],
        _ => Seq::empty(),
    }
}

/// The plain text of an event stream.
pub open spec fn spec_plain(events: Seq<MdEventView>) -> Seq<char>
    decreases events.len(),
{
    if events.len() == 0 {
        Seq::empty()
    } else {
        spec_plain(events.drop_last()) + plain_piece(events.last())
    }
}

/// The plain text of two event streams one after the other is the plain
/// text of the first followed by that of the second.
pub proof fn lemma_plain_concat(a: Seq<MdEventView>, d: Seq<MdEventView>)
    ensures
        spec_plain(a + d) == spec_plain(a) + spec_plain(d),
    decreases d.len(),
{
    if d.len() == 0 {
        assert(a + d =~= a);
        assert(spec_plain(a) + spec_plain(d) =~= spec_plain(a));
    } else {
        lemma_plain_concat(a, d.drop_last());
        assert((a + d).drop_last() =~= a + d.drop_last());
        assert((a + d).last() == d.last());
    }
}

/// The plain text keeps all visible text: wherever a text or an inline
/// code event stands, exactly its contents appear at that place; a line
/// break, or the end of a paragraph, heading, list item, code block or
/// table cell, gives one line feed.
pub proof fn lemma_plain_keeps_text(a: Seq<MdEventView>, e: MdEventView, d: Seq<MdEventView>)
    ensures
        e matches MdEventView::Text(chunk) ==> spec_plain(a + seq![e] + d) == spec_plain(a) + chunk + spec_plain(d),
        e matches MdEventView::Code(chunk) ==> spec_plain(a + seq![e] + d) == spec_plain(a) + chunk + spec_plain(d),
        (e is SoftBreak || e is HardBreak || e is ParagraphEnd || e is HeadingEnd || e is ItemEnd
            || e is CodeBlockEnd || e is TableCellEnd) ==> spec_plain(a + seq![e] + d) == spec_plain(a)
            + seq!['\n'] + spec_plain(d),
{
    lemma_plain_concat(a + seq![e], d);
    lemma_plain_concat(a, seq![e]);
    assert(seq![e].drop_last() =~= Seq::<MdEventView>::empty());
    assert(spec_plain(seq![e]) == spec_plain(Seq::<MdEventView>::empty()) + plain_piece(e));
    assert(spec_plain(Seq::<MdEventView>::empty()) + plain_piece(e) =~= plain_piece(e));
}

/// The plain text that the event stream `events` describes.
pub fn plain_text_from_events(events: &Vec<MdEvent>) -> (r: String)
    ensures
        r@ == spec_plain(events_view(events@)),
{
    let ghost evs = events_view(events@);
    let mut out = String::new();
    let mut i: usize = 0;
    while i < events.len()
        invariant
            i <= events.len(),
            evs == events_view(events@),
            out@ == spec_plain(evs.take(i as int)),
        decreases events.len() - i,
    {
        assert(evs.take(i + 1).drop_last() =~= evs.take(i as int));
        assert(evs[i as int] == events@[i as int]@);
        let ghost before = out@;
        match &events[i] {
            MdEvent::Text(chunk) => out.append(chunk.as_str()),
            MdEvent::Code(chunk) => out.append(chunk.as_str()),
            MdEvent::SoftBreak => push_char(&mut out, '\n'),
            MdEvent::HardBreak => push_char(&mut out, '\n'),
            MdEvent::ParagraphEnd => push_char(&mut out, '\n'),
            MdEvent::HeadingEnd => push_char(&mut out, '\n'),
            MdEvent::ItemEnd => push_char(&mut out, '\n'),
            MdEvent::CodeBlockEnd => push_char(&mut out, '\n'),
            MdEvent::TableCellEnd => push_char(&mut out, '\n'),
            _ => {},
        }
        assert(out@ =~= before + plain_piece(evs[i as int]));
        i += 1;
    }
    assert(evs.take(i as int) =~= evs);
    out
}

/// The document's text as it appears on screen, without markup. Search in
/// the rendered view counts matches in this text, so that link addresses
/// and markup characters, which are not on screen, are not found.
pub fn plain_text(source: &str) -> (r: String)
    ensures
        r@ == spec_plain(spec_events(source@)),
{
    let events = markdown_events(source, PARSER_OPTIONS);
    plain_text_from_events(&events)
}

// ---------------------------------------------------------------------
// Anchors
// ---------------------------------------------------------------------

/// The attribute appended to a heading: ` {#slug}`.
pub open spec fn anchor_text(slug: Seq<char>) -> Seq<char> {
    seq![' ', '{', '#'] + slug + seq!['}']
}

/// Output built so far and the source offset copied up to.
pub struct Injection {
    pub out: Seq<u8>,
    pub cursor: int,
}

/// One heading's contribution: headings without a slug are skipped, as is
/// a heading whose line end lies before what is already copied.
pub open spec fn inject_step(b: Seq<u8>, st: Injection, h: HeadingView) -> Injection {
    if h.slug.len() == 0 {
        st
    } else {
        match spec_line_end(b, spec_offset_of_line(b, h.line)) {
            None => st,
            Some(at) => if at < st.cursor {
                st
            } else {
                Injection {
                    out: st.out + b.subrange(st.cursor, at) + encode_utf8(anchor_text(h.slug)),
                    cursor: at,
                }
            },
        }
    }
}

/// The pass over all headings.
pub open spec fn inject_fold(b: Seq<u8>, hs: Seq<HeadingView>) -> Injection
    decreases hs.len(),
{
    if hs.len() == 0 {
        Injection { out: Seq::empty(), cursor: 0 }
    } else {
        inject_step(b, inject_fold(b, hs.drop_last()), hs.last())
    }
}

/// The source `b` with the anchors of headings `hs` appended to their lines.
pub open spec fn spec_inject(b: Seq<u8>, hs: Seq<HeadingView>) -> Seq<u8> {
    if hs.len() == 0 {
        b
    } else {
        let f = inject_fold(b, hs);
        f.out + b.subrange(f.cursor, b.len() as int)
    }
}

/// The insertions of the pass, in order: where in the source each anchor
/// goes, and its bytes.
pub open spec fn inject_points(b: Seq<u8>, hs: Seq<HeadingView>) -> Seq<(int, Seq<u8>)>
    decreases hs.len(),
{
    if hs.len() == 0 {
        Seq::empty()
    } else {
        let pts = inject_points(b, hs.drop_last());
        let st = inject_fold(b, hs.drop_last());
        let h = hs.last();
        if h.slug.len() == 0 {
            pts
        } else {
            match spec_line_end(b, spec_offset_of_line(b, h.line)) {
                None => pts,
                Some(at) => if at < st.cursor {
                    pts
                } else {
                    pts.push((at, encode_utf8(anchor_text(h.slug))))
                },
            }
        }
    }
}

/// `b` with the pieces of `pts` inserted, each at its offset in `b`.
pub open spec fn weave(b: Seq<u8>, pts: Seq<(int, Seq<u8>)>) -> Seq<u8>
    decreases pts.len(),
{
    if pts.len() == 0 {
        b
    } else {
        let p = pts.last().0;
        weave(b.take(p), pts.drop_last()) + pts.last().1 + b.skip(p)
    }
}

/// How many bytes the pieces of `pts` add.
pub open spec fn inserted_len(pts: Seq<(int, Seq<u8>)>) -> nat
    decreases pts.len(),
{
    if pts.len() == 0 {
        0
    } else {
        inserted_len(pts.drop_last()) + pts.last().1.len()
    }
}

/// `out` with the pieces of `pts` taken out again; each offset is one of
/// the text before the insertions.
pub open spec fn unweave(out: Seq<u8>, pts: Seq<(int, Seq<u8>)>) -> Seq<u8>
    decreases pts.len(),
{
    if pts.len() == 0 {
        out
    } else {
        let q = pts.last().0 + inserted_len(pts.drop_last());
        unweave(out.take(q), pts.drop_last()) + out.skip(q + pts.last().1.len())
    }
}

/// Offsets in ascending order, none past `limit`.
pub open spec fn points_within(pts: Seq<(int, Seq<u8>)>, limit: int) -> bool {
    &&& forall|k: int| 0 <= k < pts.len() ==> 0 <= (#[trigger] pts[k]).0 <= limit
    &&& forall|i: int, j: int| 0 <= i < j < pts.len() ==> (#[trigger] pts[i]).0 <= (#[trigger] pts[j]).0
}

proof fn lemma_points_init(pts: Seq<(int, Seq<u8>)>, limit: int)
    requires
        pts.len() > 0,
        points_within(pts, limit),
    ensures
        points_within(pts.drop_last(), pts.last().0),
{
    let init = pts.drop_last();
    assert forall|k: int| 0 <= k < init.len() implies 0 <= (#[trigger] init[k]).0 <= pts.last().0 by {
        assert(init[k] == pts[k]);
        assert(pts[k].0 <= pts[pts.len() - 1].0);
    }
    assert forall|i: int, j: int| 0 <= i < j < init.len() implies (#[trigger] init[i]).0 <= (#[trigger] init[j]).0 by {
        assert(init[i] == pts[i] && init[j] == pts[j]);
    }
}

proof fn lemma_weave_len(b: Seq<u8>, pts: Seq<(int, Seq<u8>)>)
    requires
        points_within(pts, b.len() as int),
    ensures
        weave(b, pts).len() == b.len() + inserted_len(pts),
    decreases pts.len(),
{
    if pts.len() > 0 {
        let p = pts.last().0;
        assert(pts.last() == pts[pts.len() - 1]);
        lemma_points_init(pts, b.len() as int);
        lemma_weave_len(b.take(p), pts.drop_last());
    }
}

/// Text past the last insertion can be added before or after weaving.
proof fn lemma_weave_extend(b: Seq<u8>, pts: Seq<(int, Seq<u8>)>, c: int)
    requires
        0 <= c <= b.len(),
        points_within(pts, c),
    ensures
        weave(b.take(c), pts) + b.skip(c) == weave(b, pts),
{
    if pts.len() == 0 {
        assert(b.take(c) + b.skip(c) =~= b);
    } else {
        let p = pts.last().0;
        assert(pts.last() == pts[pts.len() - 1]);
        assert(b.take(c).take(p) =~= b.take(p));
        assert(b.take(c).skip(p) + b.skip(c) =~= b.skip(p));
    }
}

/// Taking the insertions out gives the text back.
proof fn lemma_unweave(b: Seq<u8>, pts: Seq<(int, Seq<u8>)>)
    requires
        points_within(pts, b.len() as int),
    ensures
        unweave(weave(b, pts), pts) == b,
    decreases pts.len(),
{
    if pts.len() > 0 {
        let p = pts.last().0;
        let a = pts.last().1;
        let init = pts.drop_last();
        assert(pts.last() == pts[pts.len() - 1]);
        lemma_points_init(pts, b.len() as int);
        let front = weave(b.take(p), init);
        lemma_weave_len(b.take(p), init);
        lemma_unweave(b.take(p), init);
        let out = weave(b, pts);
        let q = p + inserted_len(init);
        assert(out == front + a + b.skip(p));
        assert(out.take(q) =~= front);
        assert(out.skip(q + a.len()) =~= b.skip(p));
        assert(b.take(p) + b.skip(p) =~= b);
    }
}

proof fn lemma_newline_within(b: Seq<u8>, from: int)
    ensures
        first_newline_at_or_after(b, from) <= b.len(),
    decreases b.len() - from,
{
    if from < b.len() && b[from] != 0x0Au8 {
        lemma_newline_within(b, from + 1);
    }
}

/// What the pass has built after each heading: the source up to where it
/// copied, with the anchors so far woven in; each anchor is that of a
/// heading with a slug, at the end of the heading's line.
proof fn lemma_fold_woven(b: Seq<u8>, hs: Seq<HeadingView>)
    ensures
        0 <= inject_fold(b, hs).cursor <= b.len(),
        points_within(inject_points(b, hs), inject_fold(b, hs).cursor),
        inject_fold(b, hs).out == weave(b.take(inject_fold(b, hs).cursor), inject_points(b, hs)),
        forall|k: int|
            #![trigger inject_points(b, hs)[k]]
            0 <= k < inject_points(b, hs).len() ==> exists|i: int|
                0 <= i < hs.len() && (#[trigger] hs[i]).slug.len() > 0 && spec_line_end(
                    b,
                    spec_offset_of_line(b, hs[i].line),
                ) == Some(inject_points(b, hs)[k].0) && inject_points(b, hs)[k].1 == encode_utf8(
                    anchor_text(hs[i].slug),
                ),
    decreases hs.len(),
{
    if hs.len() == 0 {
        assert(b.take(0) =~= Seq::<u8>::empty());
    } else {
        let init = hs.drop_last();
        lemma_fold_woven(b, init);
        let st = inject_fold(b, init);
        let pts = inject_points(b, init);
        let h = hs.last();
        assert(h == hs[hs.len() - 1]);
        let all = inject_points(b, hs);
        if h.slug.len() > 0 {
            let from = spec_offset_of_line(b, h.line);
            lemma_newline_within(b, from);
            match spec_line_end(b, from) {
                None => {},
                Some(at) => {
                    if at >= st.cursor {
                        let a = encode_utf8(anchor_text(h.slug));
                        assert(all == pts.push((at, a)));
                        assert(all.last() == (at, a));
                        assert(all.drop_last() =~= pts);
                        // the new text equals the weave up to `at`
                        lemma_weave_extend(b.take(at), pts, st.cursor);
                        assert(b.take(at).take(st.cursor) =~= b.take(st.cursor));
                        assert(b.take(at).skip(st.cursor) =~= b.subrange(st.cursor, at));
                        assert(b.take(at).take(at) =~= b.take(at));
                        assert(b.take(at).skip(at) =~= Seq::<u8>::empty());
                        assert(inject_fold(b, hs).out =~= weave(b.take(at), all));
                        assert forall|k: int| 0 <= k < all.len() implies 0 <= (#[trigger] all[k]).0 <= at by {
                            if k < pts.len() {
                                assert(all[k] == pts[k]);
                            }
                        }
                        assert forall|i: int, j: int| 0 <= i < j < all.len() implies (#[trigger] all[i]).0 <= (
                        #[trigger] all[j]).0 by {
                            assert(all[i] == pts[i]);
                            if j < pts.len() {
                                assert(all[j] == pts[j]);
                            }
                        }
                    }
                },
            }
        }
        let n = inject_points(b, hs);
        assert forall|k: int| #![trigger n[k]] 0 <= k < n.len() implies exists|i: int|
            0 <= i < hs.len() && (#[trigger] hs[i]).slug.len() > 0 && spec_line_end(b, spec_offset_of_line(b, hs[i].line))
                == Some(n[k].0) && n[k].1 == encode_utf8(anchor_text(hs[i].slug)) by {
            if k < pts.len() {
                assert(n[k] == pts[k]);
                let i = choose|i: int|
                    0 <= i < init.len() && (#[trigger] init[i]).slug.len() > 0 && spec_line_end(
                        b,
                        spec_offset_of_line(b, init[i].line),
                    ) == Some(pts[k].0) && pts[k].1 == encode_utf8(anchor_text(init[i].slug));
                assert(hs[i] == init[i]);
            } else {
                assert(hs[hs.len() - 1] == h);
            }
        }
    }
}

/// Anchors are only ever added: the text with anchors is the source with
/// an anchor ` {#slug}` of a heading inserted at the end of that heading's
/// line, and deleting those insertions gives the source back exactly.
pub proof fn lemma_strip_anchors(b: Seq<u8>, hs: Seq<HeadingView>)
    ensures
        points_within(inject_points(b, hs), b.len() as int),
        spec_inject(b, hs) == weave(b, inject_points(b, hs)),
        unweave(spec_inject(b, hs), inject_points(b, hs)) == b,
        forall|k: int|
            #![trigger inject_points(b, hs)[k]]
            0 <= k < inject_points(b, hs).len() ==> exists|i: int|
                0 <= i < hs.len() && (#[trigger] hs[i]).slug.len() > 0 && spec_line_end(
                    b,
                    spec_offset_of_line(b, hs[i].line),
                ) == Some(inject_points(b, hs)[k].0) && inject_points(b, hs)[k].1 == encode_utf8(
                    anchor_text(hs[i].slug),
                ),
{
    lemma_fold_woven(b, hs);
    let f = inject_fold(b, hs);
    let pts = inject_points(b, hs);
    assert(points_within(pts, b.len() as int));
    if hs.len() == 0 {
        assert(pts.len() == 0);
    } else {
        lemma_weave_extend(b, pts, f.cursor);
        assert(b.subrange(f.cursor, b.len() as int) =~= b.skip(f.cursor));
    }
    lemma_unweave(b, pts);
}

/// Where the anchor of a heading on `line` goes: the end of that line.
pub open spec fn line_anchor_at(b: Seq<u8>, line: int) -> int {
    match spec_line_end(b, spec_offset_of_line(b, line)) {
        Some(at) => at,
        None => b.len() as int,
    }
}

/// One anchor for every heading with a slug, in order, each at the end of
/// its heading's line.
pub open spec fn anchors_of(b: Seq<u8>, hs: Seq<HeadingView>) -> Seq<(int, Seq<u8>)>
    decreases hs.len(),
{
    if hs.len() == 0 {
        Seq::empty()
    } else {
        let rest = anchors_of(b, hs.drop_last());
        let h = hs.last();
        if h.slug.len() > 0 {
            rest.push((line_anchor_at(b, h.line), encode_utf8(anchor_text(h.slug))))
        } else {
            rest
        }
    }
}

proof fn lemma_offsets_within(b: Seq<u8>, line: int, from: int)
    requires
        0 <= from,
    ensures
        first_offset_with_lines(b, line, from) <= b.len(),
        from <= b.len() ==> from <= first_offset_with_lines(b, line, from),
    decreases b.len() - from,
{
    if from < b.len() && !(b[from] == 0x0Au8 && newlines_before(b, from + 1) == line) {
        lemma_offsets_within(b, line, from + 1);
    }
}

proof fn lemma_offsets_ordered(b: Seq<u8>, l1: int, l2: int, from: int)
    requires
        0 <= from <= b.len(),
        1 <= l1 <= l2,
        newlines_before(b, from) < l1,
    ensures
        first_offset_with_lines(b, l1, from) <= first_offset_with_lines(b, l2, from),
    decreases b.len() - from,
{
    if from < b.len() {
        assert(newlines_before(b, from + 1) == newlines_before(b, from) + if b[from] == 0x0Au8 {
            1nat
        } else {
            0nat
        });
        if b[from] == 0x0Au8 && newlines_before(b, from + 1) == l1 {
            lemma_offsets_within(b, l2, from + 1);
        } else {
            lemma_offsets_ordered(b, l1, l2, from + 1);
        }
    }
}

/// Later lines start no earlier, and end no earlier.
proof fn lemma_line_anchor_ordered(b: Seq<u8>, l1: int, l2: int)
    requires
        0 <= l1 <= l2,
    ensures
        0 <= line_anchor_at(b, l1) <= line_anchor_at(b, l2),
{
    let o1 = spec_offset_of_line(b, l1);
    let o2 = spec_offset_of_line(b, l2);
    lemma_offsets_within(b, l1, 0);
    lemma_offsets_within(b, l2, 0);
    if l1 >= 1 {
        assert(newlines_before(b, 0) == 0);
        lemma_offsets_ordered(b, l1, l2, 0);
    }
    assert(0 <= o1 <= o2 <= b.len());
    lemma_first_newline(b, o1);
    lemma_first_newline(b, o2);
    lemma_first_newline_ordered(b, o1, o2);
}

proof fn lemma_first_newline_ordered(b: Seq<u8>, from1: int, from2: int)
    requires
        0 <= from1 <= from2 <= b.len(),
    ensures
        first_newline_at_or_after(b, from1) <= first_newline_at_or_after(b, from2),
    decreases from2 - from1,
{
    lemma_first_newline(b, from2);
    if from1 < from2 && b[from1] != 0x0Au8 {
        lemma_first_newline_ordered(b, from1 + 1, from2);
    }
}

/// Every heading with a slug gets its anchor: when the headings with a slug
/// come in the order of their lines, as the outline lists them, the pass
/// inserts exactly one anchor for each of them, at the end of its line,
/// and nothing else.
pub proof fn lemma_every_anchor(b: Seq<u8>, hs: Seq<HeadingView>)
    requires
        forall|i: int| 0 <= i < hs.len() ==> (#[trigger] hs[i]).line >= 0,
        forall|i: int, j: int|
            0 <= i < j < hs.len() && (#[trigger] hs[i]).slug.len() > 0 && (#[trigger] hs[j]).slug.len() > 0
                ==> hs[i].line <= hs[j].line,
    ensures
        inject_points(b, hs) == anchors_of(b, hs),
        spec_inject(b, hs) == weave(b, anchors_of(b, hs)),
{
    lemma_anchor_fold(b, hs);
    lemma_strip_anchors(b, hs);
}

proof fn lemma_anchor_fold(b: Seq<u8>, hs: Seq<HeadingView>)
    requires
        forall|i: int| 0 <= i < hs.len() ==> (#[trigger] hs[i]).line >= 0,
        forall|i: int, j: int|
            0 <= i < j < hs.len() && (#[trigger] hs[i]).slug.len() > 0 && (#[trigger] hs[j]).slug.len() > 0
                ==> hs[i].line <= hs[j].line,
    ensures
        inject_points(b, hs) == anchors_of(b, hs),
        forall|l: int|
            l >= 0 && (forall|j: int| 0 <= j < hs.len() && (#[trigger] hs[j]).slug.len() > 0 ==> hs[j].line <= l)
                ==> inject_fold(b, hs).cursor <= line_anchor_at(b, l),
    decreases hs.len(),
{
    if hs.len() == 0 {
        assert forall|l: int|
            l >= 0 && (forall|j: int| 0 <= j < hs.len() && (#[trigger] hs[j]).slug.len() > 0 ==> hs[j].line <= l)
            implies inject_fold(b, hs).cursor <= line_anchor_at(b, l) by {
            lemma_line_anchor_ordered(b, l, l);
        }
    } else {
        let init = hs.drop_last();
        let h = hs.last();
        assert(h == hs[hs.len() - 1]);
        assert forall|i: int| 0 <= i < init.len() implies (#[trigger] init[i]).line >= 0 by {
            assert(init[i] == hs[i]);
        }
        assert forall|i: int, j: int|
            0 <= i < j < init.len() && (#[trigger] init[i]).slug.len() > 0 && (#[trigger] init[j]).slug.len() > 0
            implies init[i].line <= init[j].line by {
            assert(init[i] == hs[i] && init[j] == hs[j]);
        }
        lemma_anchor_fold(b, init);
        let st = inject_fold(b, init);
        if h.slug.len() > 0 {
            let from = spec_offset_of_line(b, h.line);
            lemma_line_anchor_ordered(b, h.line, h.line);
            lemma_offsets_within(b, h.line, 0);
            assert(0 <= from <= b.len());
            assert(spec_line_end(b, from) is Some);
            assert forall|j: int| 0 <= j < init.len() && (#[trigger] init[j]).slug.len() > 0 implies init[j].line
                <= h.line by {
                assert(init[j] == hs[j]);
            }
            assert(st.cursor <= line_anchor_at(b, h.line));
            assert forall|l: int|
                l >= 0 && (forall|j: int| 0 <= j < hs.len() && (#[trigger] hs[j]).slug.len() > 0 ==> hs[j].line <= l)
                implies inject_fold(b, hs).cursor <= line_anchor_at(b, l) by {
                assert(hs[hs.len() - 1].line <= l);
                lemma_line_anchor_ordered(b, h.line, l);
            }
        } else {
            assert forall|l: int|
                l >= 0 && (forall|j: int| 0 <= j < hs.len() && (#[trigger] hs[j]).slug.len() > 0 ==> hs[j].line <= l)
                implies inject_fold(b, hs).cursor <= line_anchor_at(b, l) by {
                assert forall|j: int| 0 <= j < init.len() && (#[trigger] init[j]).slug.len() > 0 implies init[j].line
                    <= l by {
                    assert(init[j] == hs[j]);
                }
            }
        }
    }
}

/// Headings without a slug leave the text as it is: with no anchor to
/// write, the pass copies the source through.
pub proof fn lemma_inject_without_slugs(b: Seq<u8>, hs: Seq<HeadingView>)
    requires
        forall|i: int| 0 <= i < hs.len() ==> (#[trigger] hs[i]).slug.len() == 0,
    ensures
        spec_inject(b, hs) == b,
{
    lemma_fold_without_slugs(b, hs);
    assert(b.subrange(0, b.len() as int) =~= b);
}

proof fn lemma_fold_without_slugs(b: Seq<u8>, hs: Seq<HeadingView>)
    requires
        forall|i: int| 0 <= i < hs.len() ==> (#[trigger] hs[i]).slug.len() == 0,
    ensures
        inject_fold(b, hs) == (Injection { out: Seq::empty(), cursor: 0 }),
    decreases hs.len(),
{
    if hs.len() > 0 {
        let init = hs.drop_last();
        assert forall|i: int| 0 <= i < init.len() implies (#[trigger] init[i]).slug.len() == 0 by {
            assert(init[i] == hs[i]);
        }
        lemma_fold_without_slugs(b, init);
        assert(hs.last() == hs[hs.len() - 1]);
    }
}

/// Only headings written with hashes get an anchor: an underlined (setext)
/// heading has an empty slug, since `{#id}` works for ATX headings only.
pub proof fn lemma_setext_without_slug(b: Seq<u8>, events: Seq<MdEventView>)
    ensures
        forall|i: int|
            0 <= i < spec_headings(b, events).len() && !(#[trigger] spec_headings(b, events)[i]).is_atx
                ==> spec_headings(b, events)[i].slug.len() == 0,
    decreases events.len(),
{
    if events.len() > 0 {
        lemma_setext_without_slug(b, events.drop_last());
        let before = scan_events(b, events.drop_last());
        let after = scan_events(b, events);
        assert forall|i: int|
            0 <= i < after.headings.len() && !(#[trigger] after.headings[i]).is_atx implies after.headings[i].slug.len()
            == 0 by {
            match events.last() {
                MdEventView::HeadingEnd => {
                    match before.current {
                        Some((level, start)) => {
                            assert(after == close_heading(b, before, level, start));
                            if i < before.headings.len() {
                                assert(after.headings[i] == before.headings[i]);
                                assert(spec_headings(b, events.drop_last())[i] == before.headings[i]);
                            }
                        },
                        None => {
                            assert(after == before);
                            assert(spec_headings(b, events.drop_last())[i] == before.headings[i]);
                        },
                    }
                },
                MdEventView::HeadingStart { level, start } => {
                    assert(after.headings == before.headings);
                    assert(spec_headings(b, events.drop_last())[i] == before.headings[i]);
                },
                MdEventView::Text(chunk) => {
                    assert(after.headings == before.headings);
                    assert(spec_headings(b, events.drop_last())[i] == before.headings[i]);
                },
                MdEventView::Code(chunk) => {
                    assert(after.headings == before.headings);
                    assert(spec_headings(b, events.drop_last())[i] == before.headings[i]);
                },
                _ => {
                    assert(after == before);
                    assert(spec_headings(b, events.drop_last())[i] == before.headings[i]);
                },
            }
        }
    }
}

/// The first newline at or after `from` is a newline or the end.
pub proof fn lemma_first_newline(b: Seq<u8>, from: int)
    requires
        0 <= from <= b.len(),
    ensures
        from <= first_newline_at_or_after(b, from) <= b.len(),
        first_newline_at_or_after(b, from) < b.len() ==> b[first_newline_at_or_after(b, from)]
            == 0x0Au8,
    decreases b.len() - from,
{
    if from < b.len() && b[from] != 0x0Au8 {
        lemma_first_newline(b, from + 1);
    }
}

/// A line end lies on a character boundary at or after the line's start.
pub proof fn lemma_line_end_boundary(b: Seq<u8>, from: int)
    requires
        valid_utf8(b),
        0 <= from <= b.len(),
    ensures
        spec_line_end(b, from) matches Some(at) ==> from <= at <= b.len() && is_char_boundary(b, at),
{
    lemma_first_newline(b, from);
    let end = first_newline_at_or_after(b, from);
    if end > from && b[end - 1] == 0x0Du8 {
        crate::text::lemma_ascii_boundary(b, end - 1);
    } else {
        crate::text::lemma_ascii_boundary(b, end);
    }
}

/// Writes `{#slug}` after every ATX heading, so that the renderer's
/// scroll-to-heading and in-document `#anchor` links reach our headings.
pub fn inject_anchors(source: &str) -> (r: String)
    ensures
        encode_utf8(r@) == spec_inject(source.spec_bytes(), spec_headings(source.spec_bytes(), spec_events(source@))),
{
    let headings = extract(source);
    inject_with_headings(source, &headings)
}

/// Appends the anchors of `headings` to their lines in `source`.
pub fn inject_with_headings(source: &str, headings: &Vec<Heading>) -> (r: String)
    ensures
        encode_utf8(r@) == spec_inject(source.spec_bytes(), headings_view(headings@)),
{
    let ghost b = source.spec_bytes();
    let ghost hs = headings_view(headings@);
    if headings.len() == 0 {
        return source.to_owned();
    }
    let mut out = String::new();
    let mut cursor: usize = 0;
    let mut i: usize = 0;
    assert(valid_utf8(b));
    proof {
        is_char_boundary_start_end_of_seq(b);
    }
    while i < headings.len()
        invariant
            i <= headings.len(),
            b == source.spec_bytes(),
            valid_utf8(b),
            hs == headings_view(headings@),
            cursor <= b.len(),
            is_char_boundary(b, cursor as int),
            ({
                let f = inject_fold(b, hs.take(i as int));
                &&& encode_utf8(out@) == f.out
                &&& f.cursor == cursor as int
            }),
        decreases headings.len() - i,
    {
        assert(hs.take(i + 1).drop_last() =~= hs.take(i as int));
        let heading = &headings[i];
        assert(hs[i as int] == heading@);
        if heading.slug.as_str().is_empty() {
            assert(heading@.slug.len() == 0);
            i += 1;
            continue;
        }
        assert(heading@.slug.len() != 0);
        let from = offset_of_line(source, heading.line);
        proof {
            lemma_line_end_boundary(b, from as int);
        }
        let insert_at = match line_end(source, from) {
            Some(at) => at,
            None => {
                i += 1;
                continue;
            },
        };
        if insert_at < cursor {
            i += 1;
            continue;
        }
        let piece = crate::text::substring(source, cursor, insert_at);
        let ghost before = out@;
        out.append(piece);
        push_char(&mut out, ' ');
        push_char(&mut out, '{');
        push_char(&mut out, '#');
        out.append(heading.slug.as_str());
        push_char(&mut out, '}');
        proof {
            assert(out@ =~= before + piece@ + anchor_text(heading.slug@));
            crate::text::lemma_encode_concat(before + piece@, anchor_text(heading.slug@));
            crate::text::lemma_encode_concat(before, piece@);
        }
        cursor = insert_at;
        i += 1;
    }
    assert(hs.take(i as int) =~= hs);
    let len = source.as_bytes().len();
    let tail = crate::text::substring(source, cursor, len);
    let ghost before = out@;
    out.append(tail);
    proof {
        crate::text::lemma_encode_concat(before, tail@);
    }
    out
}

} // verus!
