//! Everything about one text file: deciding whether it is text at all,
//! splitting it into lines, and preparing it for the rendered view.
//!
//! Reading the disk is the caller's part; this module receives the bytes
//! (and the other facts the disk reports) as plain values.

use vstd::prelude::*;
use vstd::string::*;
use vstd::utf8::*;

use crate::outline::{self, headings_view, spec_headings, spec_inject, Heading, HeadingView};
use crate::markdown::spec_events;
use crate::text::{push_char, substring, lemma_encode_concat};
use crate::unicode::{all_plain, chars_of, path_file_name, slash_join, spec_utf8_lossy, utf8_lossy};

use std::ops::Range;

verus! {

broadcast use vstd::utf8::group_utf8_lib;

// ---------------------------------------------------------------------
// Lines
// ---------------------------------------------------------------------

/// Walking the first `n` bytes: the finished line ranges and where the
/// current line starts.
pub open spec fn ranges_upto(b: Seq<u8>, n: int) -> (Seq<(int, int)>, int)
    decreases n,
{
    if n <= 0 {
        (Seq::empty(), 0)
    } else {
        let (rs, start) = ranges_upto(b, n - 1);
        let index = n - 1;
        if b[index] == 0x0Au8 {
            let end = if index > start && b[index - 1] == 0x0Du8 {
                index - 1
            } else {
                index
            };
            (rs.push((start, end)), index + 1)
        } else {
            (rs, start)
        }
    }
}

/// Byte ranges of the lines of `b`: lines end at `\n`, a `\r` right before
/// the `\n` is not part of the line, and a final newline does not start an
/// empty last line.
pub open spec fn spec_line_ranges(b: Seq<u8>) -> Seq<(int, int)> {
    let (rs, start) = ranges_upto(b, b.len() as int);
    if start < b.len() {
        rs.push((start, b.len() as int))
    } else {
        rs
    }
}

/// The pairs of a list of ranges.
pub open spec fn ranges_view(v: Seq<Range<usize>>) -> Seq<(int, int)> {
    v.map_values(|r: Range<usize>| (r.start as int, r.end as int))
}

/// What the walk keeps true: ranges lie in order inside the text, start on
/// line beginnings and end before newlines.
pub open spec fn ranges_ordered(b: Seq<u8>, rs: Seq<(int, int)>) -> bool {
    &&& forall|i: int| 0 <= i < rs.len() ==> 0 <= (#[trigger] rs[i]).0 <= rs[i].1 <= b.len()
    &&& forall|i: int, j: int| 0 <= i < j < rs.len() ==> (#[trigger] rs[i]).1 < (#[trigger] rs[j]).0
    &&& forall|i: int|
        0 <= i < rs.len() ==> ((#[trigger] rs[i]).1 == b.len() || b[rs[i].1] == 0x0Au8 || b[rs[i].1] == 0x0Du8)
    &&& forall|i: int| 0 <= i < rs.len() ==> ((#[trigger] rs[i]).0 == 0 || b[rs[i].0 - 1] == 0x0Au8)
}

proof fn lemma_ranges_upto(b: Seq<u8>, n: int)
    requires
        0 <= n <= b.len(),
    ensures
        ({
            let (rs, start) = ranges_upto(b, n);
            &&& ranges_ordered(b, rs)
            &&& 0 <= start <= n
            &&& start == 0 || b[start - 1] == 0x0Au8
            &&& forall|i: int| 0 <= i < rs.len() ==> (#[trigger] rs[i]).1 < start
        }),
    decreases n,
{
    if n > 0 {
        lemma_ranges_upto(b, n - 1);
    }
}

/// The ranges of a complete walk are ordered.
pub proof fn lemma_line_ranges_ordered(b: Seq<u8>)
    ensures
        ranges_ordered(b, spec_line_ranges(b)),
{
    lemma_ranges_upto(b, b.len() as int);
}

/// Byte boundaries of the lines inside `text`, computed once at load so
/// that each frame can slice the visible lines without splitting anew.
pub fn line_ranges(text: &str) -> (r: Vec<Range<usize>>)
    ensures
        ranges_view(r@) == spec_line_ranges(text.spec_bytes()),
{
    let bytes = text.as_bytes();
    let ghost b = bytes@;
    let mut ranges: Vec<Range<usize>> = Vec::new();
    let mut start: usize = 0;
    let mut index: usize = 0;
    while index < bytes.len()
        invariant
            b == bytes@,
            b == text.spec_bytes(),
            index <= bytes.len(),
            ranges_upto(b, index as int) == (ranges_view(ranges@), start as int),
        decreases bytes.len() - index,
    {
        proof {
            lemma_ranges_upto(b, index as int);
        }
        if bytes[index] == 0x0Au8 {
            let mut end = index;
            if end > start && bytes[end - 1] == 0x0Du8 {
                end -= 1;
            }
            let ghost before = ranges_view(ranges@);
            ranges.push(Range { start, end });
            assert(ranges_view(ranges@) =~= before.push((start as int, end as int)));
            start = index + 1;
        }
        index += 1;
    }
    proof {
        lemma_ranges_upto(b, index as int);
    }
    if start < bytes.len() {
        let ghost before = ranges_view(ranges@);
        ranges.push(Range { start, end: bytes.len() });
        assert(ranges_view(ranges@) =~= before.push((start as int, b.len() as int)));
    }
    ranges
}

/// Screen columns of a character: a tab is drawn four columns wide, every
/// other character one.
pub open spec fn char_columns(c: char) -> nat {
    if c == '\t' {
        4
    } else {
        1
    }
}

/// Screen columns of a line of characters.
pub open spec fn columns(s: Seq<char>) -> nat
    decreases s.len(),
{
    if s.len() == 0 {
        0
    } else {
        columns(s.drop_last()) + char_columns(s.last())
    }
}

/// The characters of the byte range `r` of `b`.
pub open spec fn range_chars(b: Seq<u8>, r: (int, int)) -> Seq<char> {
    decode_utf8(b.subrange(r.0, r.1))
}

/// The widest of the lines `rs` of `b`, in columns; 0 when there is none.
pub open spec fn spec_max_columns(b: Seq<u8>, rs: Seq<(int, int)>) -> nat
    decreases rs.len(),
{
    if rs.len() == 0 {
        0
    } else {
        let rest = spec_max_columns(b, rs.drop_last());
        let last = columns(range_chars(b, rs.last()));
        if last > rest {
            last
        } else {
            rest
        }
    }
}

/// Ranges that lie inside `b` on character boundaries.
pub open spec fn ranges_on_boundaries(b: Seq<u8>, rs: Seq<(int, int)>) -> bool {
    forall|i: int|
        0 <= i < rs.len() ==> 0 <= (#[trigger] rs[i]).0 <= rs[i].1 <= b.len() && is_char_boundary(
            b,
            rs[i].0,
        ) && is_char_boundary(b, rs[i].1)
}

proof fn lemma_columns_bound(s: Seq<char>)
    ensures
        columns(s) <= 4 * s.len(),
    decreases s.len(),
{
    if s.len() > 0 {
        lemma_columns_bound(s.drop_last());
    }
}

/// A character takes at least one byte.
pub proof fn lemma_encode_len(s: Seq<char>)
    ensures
        s.len() <= encode_utf8(s).len(),
    decreases s.len(),
{
    if s.len() > 0 {
        lemma_encode_len(s.drop_first());
    }
}

/// Width of the widest line, in screen columns: characters rather than
/// bytes (Cyrillic takes two bytes a letter), with tabs four wide. The font
/// is monospaced, so this gives the column width of the source view.
pub fn max_line_columns(text: &str, ranges: &[Range<usize>]) -> (r: usize)
    requires
        ranges_on_boundaries(text.spec_bytes(), ranges_view(ranges@)),
        4 * text.spec_bytes().len() <= usize::MAX,
    ensures
        r == spec_max_columns(text.spec_bytes(), ranges_view(ranges@)),
{
    let ghost b = text.spec_bytes();
    let ghost rs = ranges_view(ranges@);
    let mut best: usize = 0;
    let mut i: usize = 0;
    while i < ranges.len()
        invariant
            i <= ranges.len(),
            b == text.spec_bytes(),
            rs == ranges_view(ranges@),
            ranges_on_boundaries(b, rs),
            4 * b.len() <= usize::MAX,
            best == spec_max_columns(b, rs.take(i as int)),
        decreases ranges.len() - i,
    {
        assert(rs.take(i + 1).drop_last() =~= rs.take(i as int));
        assert(rs[i as int] == (ranges@[i as int].start as int, ranges@[i as int].end as int));
        let line = substring(text, ranges[i].start, ranges[i].end);
        assert(line@ == range_chars(b, rs[i as int]));
        let chars = chars_of(line);
        proof {
            lemma_encode_len(line@);
        }
        let mut width: usize = 0;
        let mut k: usize = 0;
        while k < chars.len()
            invariant
                k <= chars.len(),
                chars@ == line@,
                chars@.len() <= b.len(),
                4 * b.len() <= usize::MAX,
                width == columns(chars@.take(k as int)),
            decreases chars.len() - k,
        {
            assert(chars@.take(k + 1).drop_last() =~= chars@.take(k as int));
            proof {
                lemma_columns_bound(chars@.take(k as int));
            }
            if chars[k] == '\t' {
                width += 4;
            } else {
                width += 1;
            }
            k += 1;
        }
        assert(chars@.take(k as int) =~= chars@);
        if width > best {
            best = width;
        }
        i += 1;
    }
    assert(rs.take(i as int) =~= rs);
    best
}

// ---------------------------------------------------------------------
// Text or not
// ---------------------------------------------------------------------

/// How many bytes from the start of a file are inspected when deciding
/// whether it is text. From the start, so that a three-gigabyte executable
/// is refused without being read whole.
pub const SNIFF_BYTES: usize = 8192;

/// Size above which Markdown is not rendered by default (2 MiB): the
/// renderer builds widgets for the whole document at once.
pub const MAX_RENDER_BYTES: u64 = 2097152;

/// Hard ceiling (64 MiB): a larger file is not opened at all.
pub const MAX_FILE_BYTES: u64 = 67108864;

/// Why a file was judged not to be text.
#[derive(Debug, Clone, Copy, PartialEq, Eq, Structural)]
pub enum NotTextReason {
    /// A zero byte. The most reliable sign: text never contains one.
    NulByte,
    /// Too many control characters.
    ControlBytes,
    /// Almost nothing decodes into anything meaningful.
    BrokenEncoding,
}

impl NotTextReason {
    /// The message shown to a person.
    pub fn message(&self) -> (r: &'static str)
        ensures
            r@ == match self {
                NotTextReason::NulByte => "внутри нулевые байты"@,
                NotTextReason::ControlBytes => "слишком много управляющих символов"@,
                NotTextReason::BrokenEncoding => "содержимое не похоже на текст ни в одной кодировке"@,
            },
    {
        match self {
            NotTextReason::NulByte => "внутри нулевые байты",
            NotTextReason::ControlBytes => "слишком много управляющих символов",
            NotTextReason::BrokenEncoding => "содержимое не похоже на текст ни в одной кодировке",
        }
    }
}

/// A control character that has no business in a text file. Tab, line
/// feed, carriage return and form feed are legitimate.
pub open spec fn spec_is_stray_control(byte: u8) -> bool {
    (byte < 0x20 && !(byte == 0x09 || byte == 0x0A || byte == 0x0D || byte == 0x0C)) || byte == 0x7F
}

pub fn is_stray_control(byte: u8) -> (r: bool)
    ensures
        r == spec_is_stray_control(byte),
{
    (byte < 0x20 && !(byte == 0x09 || byte == 0x0A || byte == 0x0D || byte == 0x0C)) || byte == 0x7F
}

/// How many bytes of `h` are stray control characters.
pub open spec fn count_controls(h: Seq<u8>) -> nat
    decreases h.len(),
{
    if h.len() == 0 {
        0
    } else {
        count_controls(h.drop_last()) + if spec_is_stray_control(h.last()) {
            1nat
        } else {
            0nat
        }
    }
}

/// How many characters of `t` are U+FFFD, the replacement character.
pub open spec fn count_replacements(t: Seq<char>) -> nat
    decreases t.len(),
{
    if t.len() == 0 {
        0
    } else {
        count_replacements(t.drop_last()) + if t.last() == '\u{FFFD}' {
            1nat
        } else {
            0nat
        }
    }
}

/// What the first bytes `h` of a file say: `None` for text.
///
/// More than 5 % stray control characters means not text; so does more
/// than 90 % U+FFFD after lossy decoding. The last thresholds are
/// deliberately generous: Russian text in CP1251 is about 60 % invalid
/// UTF-8, and such files must open. When the window is full, its last three
/// bytes are left out of the decoding, since a character may be cut there.
pub open spec fn spec_sniff(h: Seq<u8>) -> Option<NotTextReason> {
    if h.len() == 0 {
        None
    } else if h.contains(0u8) {
        Some(NotTextReason::NulByte)
    } else if 20 * count_controls(h) > h.len() {
        Some(NotTextReason::ControlBytes)
    } else {
        let body = if h.len() == SNIFF_BYTES {
            h.take(h.len() - 3)
        } else {
            h
        };
        let text = spec_utf8_lossy(body);
        if text.len() > 0 && 10 * count_replacements(text) > 9 * text.len() {
            Some(NotTextReason::BrokenEncoding)
        } else {
            None
        }
    }
}

/// Does the start of a file look like binary content? The caller hands
/// in the first bytes of the file (at most [`SNIFF_BYTES`] of them are read
/// for the purpose); all of the slice is judged.
pub fn sniff_binary(head: &[u8]) -> (r: Option<NotTextReason>)
    ensures
        r == spec_sniff(head@),
{
    let n = head.len();
    if n == 0 {
        return None;
    }
    let mut i: usize = 0;
    let mut controls: usize = 0;
    let mut has_nul = false;
    while i < n
        invariant
            i <= n == head@.len(),
            controls == count_controls(head@.take(i as int)),
            controls <= i,
            has_nul == (exists|k: int| 0 <= k < i && head@[k] == 0u8),
        decreases n - i,
    {
        assert(head@.take(i + 1).drop_last() =~= head@.take(i as int));
        if head[i] == 0u8 {
            has_nul = true;
        }
        if is_stray_control(head[i]) {
            controls += 1;
        }
        i += 1;
    }
    assert(head@.take(i as int) =~= head@);
    assert(has_nul == head@.contains(0u8));
    if has_nul {
        return Some(NotTextReason::NulByte);
    }
    if 20 * (controls as u128) > n as u128 {
        return Some(NotTextReason::ControlBytes);
    }
    let body: &[u8] = if n == SNIFF_BYTES {
        &head[0..n - 3]
    } else {
        head
    };
    assert(body@ == (if n == SNIFF_BYTES { head@.take(n - 3) } else { head@ }));
    let text = utf8_lossy(body);
    let chars = chars_of(text.as_str());
    let total = chars.len();
    let mut broken: usize = 0;
    let mut k: usize = 0;
    while k < total
        invariant
            k <= total == chars@.len(),
            chars@ == text@,
            broken == count_replacements(chars@.take(k as int)),
            broken <= k,
        decreases total - k,
    {
        assert(chars@.take(k + 1).drop_last() =~= chars@.take(k as int));
        if chars[k] == '\u{FFFD}' {
            broken += 1;
        }
        k += 1;
    }
    assert(chars@.take(k as int) =~= chars@);
    if total > 0 && 10 * (broken as u128) > 9 * (total as u128) {
        Some(NotTextReason::BrokenEncoding)
    } else {
        None
    }
}

// ---------------------------------------------------------------------
// Names and decoding
// ---------------------------------------------------------------------

/// ASCII lower case of one character.
pub open spec fn ascii_lower_char(c: char) -> char {
    if 'A' <= c && c <= 'Z' {
        ((c as u32) + 32) as char
    } else {
        c
    }
}

/// ASCII lower case of a text; other characters are kept.
pub open spec fn spec_ascii_lower(s: Seq<char>) -> Seq<char> {
    s.map_values(|c: char| ascii_lower_char(c))
}

/// `s` with ASCII letters in lower case.
pub fn ascii_lowercase(s: &str) -> (r: String)
    ensures
        r@ == spec_ascii_lower(s@),
{
    let chars = chars_of(s);
    let mut out = String::new();
    let mut k: usize = 0;
    while k < chars.len()
        invariant
            k <= chars.len(),
            chars@ == s@,
            out@ == spec_ascii_lower(chars@.take(k as int)),
        decreases chars.len() - k,
    {
        let c = chars[k];
        let lower = if 'A' <= c && c <= 'Z' {
            ((c as u8) + 32) as char
        } else {
            c
        };
        assert(lower == ascii_lower_char(c));
        push_char(&mut out, lower);
        assert(spec_ascii_lower(chars@.take(k + 1)) =~= spec_ascii_lower(chars@.take(k as int)).push(ascii_lower_char(c)));
        k += 1;
    }
    assert(chars@.take(k as int) =~= chars@);
    out
}

/// Extensions for which rendering Markdown makes sense. Other text files
/// (`.toml`, `.txt`, `.rs`) open as source.
pub open spec fn markdown_extensions() -> Seq<Seq<char>> {
    seq!["md"@, "markdown"@, "mdown"@, "mkd"@, "mdwn"@, "mkdn"@]
}

/// The index of the last `.` in `name`, or -1 when it has none.
pub open spec fn last_dot(name: Seq<char>) -> int
    decreases name.len(),
{
    if name.len() == 0 {
        -1
    } else if name.last() == '.' {
        name.len() - 1
    } else {
        last_dot(name.drop_last())
    }
}

/// The extension of a file name, as `Path::extension` documents it: the
/// part after the last `.`; none when the name holds no `.`, or when its
/// only `.` opens it (`.bashrc`).
pub open spec fn spec_name_extension(name: Seq<char>) -> Option<Seq<char>> {
    let k = last_dot(name);
    if k <= 0 {
        None
    } else {
        Some(name.skip(k + 1))
    }
}

/// Whether a file name's extension, in ASCII lower case, is a Markdown one.
pub open spec fn spec_markdown_name(name: Seq<char>) -> bool {
    match spec_name_extension(name) {
        Some(ext) => markdown_extensions().contains(spec_ascii_lower(ext)),
        None => false,
    }
}

proof fn lemma_last_dot(name: Seq<char>)
    ensures
        -1 <= last_dot(name) < name.len(),
        last_dot(name) >= 0 ==> name[last_dot(name)] == '.',
        forall|j: int| last_dot(name) < j < name.len() ==> #[trigger] name[j] != '.',
    decreases name.len(),
{
    if name.len() > 0 && name.last() != '.' {
        lemma_last_dot(name.drop_last());
        assert forall|j: int| last_dot(name) < j < name.len() implies #[trigger] name[j] != '.' by {
            if j < name.len() - 1 {
                assert(name.drop_last()[j] == name[j]);
            }
        }
    }
}

/// The extension of a file name (see [`spec_name_extension`]).
pub fn name_extension(name: &str) -> (r: Option<String>)
    ensures
        match r {
            Some(ext) => spec_name_extension(name@) == Some(ext@),
            None => spec_name_extension(name@) is None,
        },
{
    let chars = chars_of(name);
    let ghost t = name@;
    let mut k: usize = chars.len();
    while k > 0 && chars[k - 1] != '.'
        invariant
            chars@ == t,
            k <= t.len(),
            forall|j: int| k <= j < t.len() ==> #[trigger] t[j] != '.',
        decreases k,
    {
        k -= 1;
    }
    proof {
        lemma_last_dot(t);
        if k > 0 {
            assert(t[k - 1] == '.');
            if last_dot(t) != k - 1 {
                assert(t[last_dot(t)] == '.');
            }
        } else if last_dot(t) >= 0 {
            assert(t[last_dot(t)] == '.');
        }
    }
    if k <= 1 {
        return None;
    }
    let mut ext = String::new();
    let mut i: usize = k;
    while i < chars.len()
        invariant
            chars@ == t,
            k <= i <= t.len(),
            ext@ == t.subrange(k as int, i as int),
        decreases t.len() - i,
    {
        push_char(&mut ext, chars[i]);
        assert(ext@ =~= t.subrange(k as int, i + 1));
        i += 1;
    }
    assert(t.skip(k as int) =~= t.subrange(k as int, t.len() as int));
    Some(ext)
}

/// Whether a file named `name` is worth rendering as Markdown: its
/// extension, in ASCII lower case, is a Markdown one.
pub fn is_markdown_name(name: &str) -> (r: bool)
    ensures
        r == spec_markdown_name(name@),
{
    let ext = match name_extension(name) {
        Some(ext) => ext,
        None => return false,
    };
    let lower = ascii_lowercase(ext.as_str());
    assert(spec_markdown_name(name@) == markdown_extensions().contains(lower@));
    let names: [&str; 6] = ["md", "markdown", "mdown", "mkd", "mdwn", "mkdn"];
    let ghost list = markdown_extensions();
    let mut i: usize = 0;
    while i < 6
        invariant
            i <= 6,
            list == markdown_extensions(),
            spec_markdown_name(name@) == list.contains(lower@),
            forall|j: int| 0 <= j < 6 ==> (#[trigger] names@[j])@ == list[j],
            forall|j: int| 0 <= j < i ==> list[j] != lower@,
        decreases 6 - i,
    {
        let candidate = names[i].to_owned();
        if lower == candidate {
            assert(list[i as int] == lower@);
            assert(list.contains(lower@));
            return true;
        }
        i += 1;
    }
    proof {
        if list.contains(lower@) {
            let j = choose|j: int| 0 <= j < list.len() && list[j] == lower@;
            assert(list[j] != lower@);
        }
    }
    false
}

/// Whether the slash path of `names` names a Markdown file: it has a last
/// name, and that name's extension is a Markdown one.
pub open spec fn markdown_path(names: Seq<Seq<char>>) -> bool {
    names.len() > 0 && spec_markdown_name(names.last())
}

/// The name shown for the slash path `path` of `names`: its last name, or
/// the whole path when it has none.
pub open spec fn shown_name(path: Seq<char>, names: Seq<Seq<char>>) -> Seq<char> {
    if names.len() == 0 {
        path
    } else {
        names.last()
    }
}

/// Is the file at `path` worth rendering as Markdown? The extension is
/// that of the path's file name. Which characters separate the file name
/// from the rest depends on the platform, so the contract speaks of slash
/// paths (see [`slash_join`]), which every platform splits alike, and
/// [`is_markdown_name`] of any file name.
pub fn has_markdown_extension(path: &str) -> (r: bool)
    ensures
        forall|names: Seq<Seq<char>>, lead: bool, trail: bool|
            #![trigger slash_join(names, lead, trail)]
            all_plain(names) && path@ == slash_join(names, lead, trail) ==> r == markdown_path(names),
{
    match path_file_name(path) {
        Some(name) => is_markdown_name(name.as_str()),
        None => false,
    }
}

/// The file's name for the window title and for messages, which are
/// needed exactly when no `Document` could be made: the last component of
/// the path, or the whole path when it has none. Stated for slash paths,
/// which every platform splits alike.
pub fn file_name(path: &str) -> (r: String)
    ensures
        forall|names: Seq<Seq<char>>, lead: bool, trail: bool|
            #![trigger slash_join(names, lead, trail)]
            all_plain(names) && path@ == slash_join(names, lead, trail) ==> r@ == shown_name(path@, names),
{
    match path_file_name(path) {
        Some(name) => name,
        None => path.to_owned(),
    }
}

/// `t` without a leading byte order mark.
pub open spec fn spec_strip_bom(t: Seq<char>) -> Seq<char> {
    if t.len() > 0 && t[0] == '\u{FEFF}' {
        t.drop_first()
    } else {
        t
    }
}

/// The text of a file's bytes: invalid UTF-8 is shown with replacement
/// characters rather than refused, and a byte order mark is dropped so that
/// a first `# Title` is still seen as a heading.
pub open spec fn spec_decode_text(bytes: Seq<u8>) -> Seq<char> {
    spec_strip_bom(spec_utf8_lossy(bytes))
}

/// Decodes a file's bytes as text without failing on a broken encoding.
pub fn decode_text(bytes: &[u8]) -> (r: String)
    ensures
        r@ == spec_decode_text(bytes@),
        valid_utf8(bytes@) ==> r@ == spec_strip_bom(decode_utf8(bytes@)),
{
    let text = utf8_lossy(bytes);
    let s = text.as_str();
    let first = if s.is_empty() {
        None
    } else {
        crate::text::first_char(s)
    };
    match first {
        Some(c) => {
            if c == '\u{FEFF}' {
                let ghost t = s@;
                proof {
                    crate::text::lemma_first_char(t);
                    assert(encode_scalar('\u{FEFF}' as u32).len() == 3);
                }
                let len = s.as_bytes().len();
                let rest = substring(s, 3, len);
                assert(encode_utf8(rest@) == encode_utf8(t.drop_first()));
                assert(decode_utf8(encode_utf8(rest@)) == rest@);
                assert(decode_utf8(encode_utf8(t.drop_first())) == t.drop_first());
                assert(rest@ == t.drop_first());
                rest.to_owned()
            } else {
                text
            }
        },
        None => text,
    }
}

// ---------------------------------------------------------------------
// Links
// ---------------------------------------------------------------------

/// Whether `pat` occurs in `t` starting at `i`.
pub open spec fn occurs_at(t: Seq<char>, pat: Seq<char>, i: int) -> bool {
    0 <= i && i + pat.len() <= t.len() && t.subrange(i, i + pat.len()) == pat
}

/// Whether `pat` occurs anywhere in `t`.
pub open spec fn occurs_in(t: Seq<char>, pat: Seq<char>) -> bool {
    exists|i: int| occurs_at(t, pat, i)
}

/// The link text, trimmed, when it names a file next to the document: not
/// empty, not an in-document anchor, not a URL with a scheme, not mail.
pub open spec fn spec_link_target(link: Seq<char>) -> Option<Seq<char>> {
    let t = outline::spec_trim(link);
    if t.len() == 0 || t[0] == '#' || occurs_in(t, seq![':', '/', '/'])
        || occurs_at(t, seq!['m', 'a', 'i', 'l', 't', 'o', ':'], 0) {
        None
    } else {
        Some(t)
    }
}

/// `t` with every backslash turned into a slash.
pub open spec fn forward_slashes(t: Seq<char>) -> Seq<char> {
    t.map_values(|c: char| if c == '\\' { '/' } else { c })
}

/// `t` without the `//?/` of a Windows extended-length path.
pub open spec fn strip_extended(t: Seq<char>) -> Seq<char> {
    if occurs_at(t, seq!['/', '/', '?', '/'], 0) {
        t.skip(4)
    } else {
        t
    }
}

/// `t` without its leading slashes.
pub open spec fn trim_leading_slashes(t: Seq<char>) -> Seq<char>
    decreases t.len(),
{
    if t.len() > 0 && t[0] == '/' {
        trim_leading_slashes(t.drop_first())
    } else {
        t
    }
}

/// The `file:///` URI of an absolute path.
pub open spec fn spec_file_uri(path: Seq<char>) -> Seq<char> {
    seq!['f', 'i', 'l', 'e', ':', '/', '/', '/'] + trim_leading_slashes(
        strip_extended(forward_slashes(path)),
    )
}

/// What a link becomes: the URI of its file when it names one and the file
/// was found (`canonical` is its absolute path), else nothing.
pub open spec fn spec_resolve_link(link: Seq<char>, canonical: Option<Seq<char>>) -> Option<Seq<char>> {
    match spec_link_target(link) {
        None => None,
        Some(_) => match canonical {
            Some(path) => Some(spec_file_uri(path)),
            None => None,
        },
    }
}

/// The text of an optional string slice.
pub open spec fn str_option_view(o: Option<&str>) -> Option<Seq<char>> {
    match o {
        Some(s) => Some(s@),
        None => None,
    }
}

/// Whether `chars[i..]` starts with `pat`.
fn starts_with_at(chars: &Vec<char>, i: usize, pat: &[char]) -> (r: bool)
    ensures
        r == occurs_at(chars@, pat@, i as int),
{
    if i > chars.len() || pat.len() > chars.len() - i {
        return false;
    }
    let n = chars.len();
    let mut j: usize = 0;
    while j < pat.len()
        invariant
            n == chars@.len(),
            i + pat@.len() <= chars@.len(),
            j <= pat@.len(),
            forall|m: int| 0 <= m < j ==> chars@[i + m] == pat@[m],
        decreases pat.len() - j,
    {
        if chars[i + j] != pat[j] {
            assert(chars@.subrange(i as int, i + pat@.len())[j as int] != pat@[j as int]);
            return false;
        }
        j += 1;
    }
    assert(chars@.subrange(i as int, i + pat@.len()) =~= pat@);
    true
}

/// Whether `pat` occurs in `chars`.
pub(crate) fn contains_chars(chars: &Vec<char>, pat: &[char]) -> (r: bool)
    ensures
        r == occurs_in(chars@, pat@),
{
    if pat.len() == 0 {
        assert(chars@.subrange(0, 0) =~= pat@);
        assert(occurs_at(chars@, pat@, 0));
        return true;
    }
    let n = chars.len();
    let mut i: usize = 0;
    while i < n && pat.len() <= n - i
        invariant
            n == chars@.len(),
            pat@.len() >= 1,
            i <= n,
            forall|m: int| 0 <= m < i ==> !occurs_at(chars@, pat@, m),
        decreases n - i,
    {
        if starts_with_at(chars, i, pat) {
            return true;
        }
        i += 1;
    }
    assert forall|m: int| !occurs_at(chars@, pat@, m) by {
        if 0 <= m < i {
        }
    }
    false
}

/// The trimmed link when it should be looked up as a file next to the
/// document; `None` for anchors, URLs, mail addresses and empty links.
pub fn link_target(link: &str) -> (r: Option<String>)
    ensures
        r matches Some(t) ==> spec_link_target(link@) == Some(t@),
        r is None ==> spec_link_target(link@) is None,
{
    let trimmed = outline::trim(link);
    let chars = chars_of(trimmed.as_str());
    if chars.len() == 0 || chars[0] == '#' {
        return None;
    }
    let scheme: [char; 3] = [':', '/', '/'];
    let mail: [char; 7] = ['m', 'a', 'i', 'l', 't', 'o', ':'];
    assert(scheme@ == seq![':', '/', '/']);
    assert(mail@ == seq!['m', 'a', 'i', 'l', 't', 'o', ':']);
    if contains_chars(&chars, &scheme) || starts_with_at(&chars, 0, &mail) {
        return None;
    }
    Some(trimmed)
}

/// The `file:///` URI for an absolute path: slashes forward, the `//?/` of
/// an extended-length Windows path removed, leading slashes folded into the
/// scheme's three.
pub fn file_uri(path: &str) -> (r: String)
    ensures
        r@ == spec_file_uri(path@),
{
    let chars = chars_of(path);
    let mut forward: Vec<char> = Vec::new();
    let mut k: usize = 0;
    while k < chars.len()
        invariant
            k <= chars.len(),
            chars@ == path@,
            forward@ == forward_slashes(chars@.take(k as int)),
        decreases chars.len() - k,
    {
        let c = chars[k];
        forward.push(if c == '\\' { '/' } else { c });
        assert(forward_slashes(chars@.take(k + 1)) =~= forward_slashes(chars@.take(k as int)).push(
            if c == '\\' { '/' } else { c },
        ));
        k += 1;
    }
    assert(chars@.take(k as int) =~= chars@);
    let extended: [char; 4] = ['/', '/', '?', '/'];
    assert(extended@ == seq!['/', '/', '?', '/']);
    let mut start: usize = if starts_with_at(&forward, 0, &extended) {
        4
    } else {
        0
    };
    assert(strip_extended(forward@) =~= forward@.skip(start as int));
    while start < forward.len() && forward[start] == '/'
        invariant
            start <= forward@.len(),
            trim_leading_slashes(strip_extended(forward@)) == trim_leading_slashes(forward@.skip(start as int)),
        decreases forward.len() - start,
    {
        assert(forward@.skip(start as int).drop_first() =~= forward@.skip(start + 1));
        start += 1;
    }
    let mut out = String::new();
    push_char(&mut out, 'f');
    push_char(&mut out, 'i');
    push_char(&mut out, 'l');
    push_char(&mut out, 'e');
    push_char(&mut out, ':');
    push_char(&mut out, '/');
    push_char(&mut out, '/');
    push_char(&mut out, '/');
    let ghost prefix = out@;
    assert(prefix =~= seq!['f', 'i', 'l', 'e', ':', '/', '/', '/']);
    let mut j = start;
    while j < forward.len()
        invariant
            start <= j <= forward@.len(),
            out@ == prefix + forward@.subrange(start as int, j as int),
        decreases forward.len() - j,
    {
        push_char(&mut out, forward[j]);
        assert(forward@.subrange(start as int, j + 1) =~= forward@.subrange(start as int, j as int).push(forward@[j as int]));
        j += 1;
    }
    assert(forward@.subrange(start as int, j as int) =~= forward@.skip(start as int));
    out
}

/// What a link becomes in the rendered text: the `file:///` URI of the file
/// it names, when it names one and `canonical`, the absolute path the
/// caller found for the link's target next to the document, is given.
/// Links to the web, anchors and files that do not exist stay as written.
pub fn resolve_link(link: &str, canonical: Option<&str>) -> (r: Option<String>)
    ensures
        r matches Some(u) ==> spec_resolve_link(link@, str_option_view(canonical)) == Some(u@),
        r is None ==> spec_resolve_link(link@, str_option_view(canonical)) is None,
{
    match link_target(link) {
        None => None,
        Some(_) => match canonical {
            Some(path) => Some(file_uri(path)),
            None => None,
        },
    }
}

/// The first `](` at or after `from`.
pub open spec fn find_pair_from(b: Seq<u8>, from: int) -> Option<int>
    decreases b.len() - from,
{
    if from < 0 || from + 1 >= b.len() {
        None
    } else if b[from] == 0x5Du8 && b[from + 1] == 0x28u8 {
        Some(from)
    } else {
        find_pair_from(b, from + 1)
    }
}

/// The first `)` at or after `from`.
pub open spec fn find_close_from(b: Seq<u8>, from: int) -> Option<int>
    decreases b.len() - from,
{
    if from < 0 || from >= b.len() {
        None
    } else if b[from] == 0x29u8 {
        Some(from)
    } else {
        find_close_from(b, from + 1)
    }
}

pub proof fn lemma_find_pair(b: Seq<u8>, from: int)
    requires
        0 <= from,
    ensures
        find_pair_from(b, from) matches Some(s) ==> from <= s && s + 1 < b.len() && b[s] == 0x5Du8
            && b[s + 1] == 0x28u8,
    decreases b.len() - from,
{
    if from + 1 < b.len() && !(b[from] == 0x5Du8 && b[from + 1] == 0x28u8) {
        lemma_find_pair(b, from + 1);
    }
}

pub proof fn lemma_find_close(b: Seq<u8>, from: int)
    requires
        0 <= from,
    ensures
        find_close_from(b, from) matches Some(e) ==> from <= e < b.len() && b[e] == 0x29u8,
    decreases b.len() - from,
{
    if from < b.len() && b[from] != 0x29u8 {
        lemma_find_close(b, from + 1);
    }
}

/// The resolved path for the `k`-th link, if the caller found one.
pub open spec fn canon_at(canon: Seq<Option<Seq<char>>>, k: int) -> Option<Seq<char>> {
    if 0 <= k < canon.len() {
        canon[k]
    } else {
        None
    }
}

/// The texts of a list of optional strings.
pub open spec fn options_view(v: Seq<Option<String>>) -> Seq<Option<Seq<char>>> {
    v.map_values(|o: Option<String>| match o {
        Some(s) => Some(s@),
        None => None,
    })
}

/// The link as it will be written: its URI when resolved, else unchanged.
pub open spec fn link_or_uri(link: Seq<char>, canonical: Option<Seq<char>>) -> Seq<char> {
    match spec_resolve_link(link, canonical) {
        Some(uri) => uri,
        None => link,
    }
}

/// The rewriting of `b` from byte `p` on, the `k`-th link coming next.
pub open spec fn absolutize_from(b: Seq<u8>, p: int, canon: Seq<Option<Seq<char>>>, k: int) -> Seq<u8>
    decreases b.len() - p,
{
    if p < 0 || p > b.len() {
        Seq::empty()
    } else {
        match find_pair_from(b, p) {
            None => b.subrange(p, b.len() as int),
            Some(s) => match find_close_from(b, s + 2) {
                None => b.subrange(p, b.len() as int),
                Some(e) => {
                    proof {
                        lemma_find_pair(b, p);
                        lemma_find_close(b, s + 2);
                    }
                    b.subrange(p, s + 2) + encode_utf8(
                        link_or_uri(decode_utf8(b.subrange(s + 2, e)), canon_at(canon, k)),
                    ) + seq![0x29u8] + absolutize_from(b, e + 1, canon, k + 1)
                },
            },
        }
    }
}

/// The link texts of `b` from byte `p` on: what stands between `](` and the
/// next `)`.
pub open spec fn links_from(b: Seq<u8>, p: int) -> Seq<Seq<char>>
    decreases b.len() - p,
{
    if p < 0 || p > b.len() {
        Seq::empty()
    } else {
        match find_pair_from(b, p) {
            None => Seq::empty(),
            Some(s) => match find_close_from(b, s + 2) {
                None => Seq::empty(),
                Some(e) => {
                    proof {
                        lemma_find_pair(b, p);
                        lemma_find_close(b, s + 2);
                    }
                    seq![decode_utf8(b.subrange(s + 2, e))] + links_from(b, e + 1)
                },
            },
        }
    }
}

/// The text `b` with every relative link `](path)` to an existing file
/// turned into `](file:///absolute/path)`; `canon[k]` is the absolute path
/// found for the `k`-th link.
pub open spec fn spec_absolutize(b: Seq<u8>, canon: Seq<Option<Seq<char>>>) -> Seq<u8> {
    absolutize_from(b, 0, canon, 0)
}

/// The link texts of `b`, in order.
pub open spec fn spec_links(b: Seq<u8>) -> Seq<Seq<char>> {
    links_from(b, 0)
}

fn find_pair(bytes: &[u8], from: usize) -> (r: Option<usize>)
    ensures
        r matches Some(s) ==> find_pair_from(bytes@, from as int) == Some(s as int),
        r is None ==> find_pair_from(bytes@, from as int) is None,
{
    let n = bytes.len();
    let mut i = from;
    while i < n && i + 1 < n
        invariant
            n == bytes@.len(),
            from <= i,
            find_pair_from(bytes@, from as int) == find_pair_from(bytes@, i as int),
        decreases n - i,
    {
        if bytes[i] == 0x5Du8 && bytes[i + 1] == 0x28u8 {
            return Some(i);
        }
        i += 1;
    }
    None
}

fn find_close(bytes: &[u8], from: usize) -> (r: Option<usize>)
    ensures
        r matches Some(e) ==> find_close_from(bytes@, from as int) == Some(e as int),
        r is None ==> find_close_from(bytes@, from as int) is None,
{
    let n = bytes.len();
    let mut i = from;
    while i < n
        invariant
            n == bytes@.len(),
            from <= i,
            find_close_from(bytes@, from as int) == find_close_from(bytes@, i as int),
        decreases n - i,
    {
        if bytes[i] == 0x29u8 {
            return Some(i);
        }
        i += 1;
    }
    None
}

/// The link texts of `text` in the order [`absolutize_links`] meets them.
pub fn links(text: &str) -> (r: Vec<String>)
    ensures
        crate::outline::strings_view(r@) == spec_links(text.spec_bytes()),
{
    let bytes = text.as_bytes();
    let ghost b = bytes@;
    let mut out: Vec<String> = Vec::new();
    let mut p: usize = 0;
    proof {
        is_char_boundary_start_end_of_seq(b);
    }
    let n = bytes.len();
    loop
        invariant
            b == bytes@,
            n == b.len(),
            b == text.spec_bytes(),
            valid_utf8(b),
            p <= b.len(),
            is_char_boundary(b, p as int),
            crate::outline::strings_view(out@) + links_from(b, p as int) == spec_links(b),
        ensures
            crate::outline::strings_view(out@) == spec_links(b),
        decreases b.len() - p,
    {
        proof {
            lemma_find_pair(b, p as int);
        }
        let s = match find_pair(bytes, p) {
            Some(s) => s,
            None => {
                assert(crate::outline::strings_view(out@) + links_from(b, p as int) =~= crate::outline::strings_view(out@));
                break;
            },
        };
        assert(find_pair_from(b, p as int) == Some(s as int));
        assert(s + 1 < b.len() && b[s as int] == 0x5Du8 && b[s + 1] == 0x28u8);
        proof {
            lemma_find_close(b, s + 2);
        }
        let e = match find_close(bytes, s + 2) {
            Some(e) => e,
            None => {
                assert(crate::outline::strings_view(out@) + links_from(b, p as int) =~= crate::outline::strings_view(out@));
                break;
            },
        };
        assert(find_close_from(b, s + 2) == Some(e as int));
        assert(s + 2 <= e < b.len() && b[e as int] == 0x29u8);
        proof {
            crate::text::lemma_after_ascii(b, s + 1);
            crate::text::lemma_ascii_boundary(b, e as int);
            crate::text::lemma_after_ascii(b, e as int);
        }
        let link = substring(text, s + 2, e);
        let ghost before = crate::outline::strings_view(out@);
        out.push(link.to_owned());
        assert(crate::outline::strings_view(out@) =~= before.push(decode_utf8(b.subrange(s + 2, e as int))));
        assert(links_from(b, p as int) =~= seq![decode_utf8(b.subrange(s + 2, e as int))] + links_from(b, e + 1));
        assert(crate::outline::strings_view(out@) + links_from(b, e + 1) =~= before + links_from(b, p as int));
        p = e + 1;
    }
    out
}

/// The resolved path for the `k`-th link, if the caller gave one.
fn canonical_at(canonical: &Vec<Option<String>>, k: usize) -> (r: Option<&str>)
    ensures
        str_option_view(r) == canon_at(options_view(canonical@), k as int),
{
    if k < canonical.len() {
        match &canonical[k] {
            Some(c) => Some(c.as_str()),
            None => None,
        }
    } else {
        None
    }
}

/// Appends the link as it is to be written, and the `)` that closes it.
fn write_link(out: &mut String, link: &str, canonical: Option<&str>)
    ensures
        encode_utf8(final(out)@) == encode_utf8(old(out)@) + encode_utf8(
            link_or_uri(link@, str_option_view(canonical)),
        ) + seq![0x29u8],
{
    let ghost before = out@;
    let ghost written = link_or_uri(link@, str_option_view(canonical));
    match resolve_link(link, canonical) {
        Some(uri) => out.append(uri.as_str()),
        None => out.append(link),
    }
    let ghost mid = out@;
    push_char(out, ')');
    proof {
        lemma_encode_concat(before, written);
        lemma_encode_concat(mid, seq![')']);
        crate::text::lemma_encode_ascii(')');
        assert(out@ =~= mid + seq![')']);
    }
}

/// Rewrites relative links `](picture.png)` as `](file:///abs/path)`.
///
/// Images are loaded by URI, and `picture.png` means nothing to the loader,
/// which does not know where the text came from. `canonical[k]` is the
/// absolute path that the caller found for the `k`-th link (see [`links`]
/// and [`link_target`]); links to the web, anchors and files that were not
/// found stay as written.
pub fn absolutize_links(text: &str, canonical: &Vec<Option<String>>) -> (r: String)
    ensures
        encode_utf8(r@) == spec_absolutize(text.spec_bytes(), options_view(canonical@)),
{
    let bytes = text.as_bytes();
    let ghost b = bytes@;
    let ghost canon = options_view(canonical@);
    let mut out = String::new();
    let mut p: usize = 0;
    let mut k: usize = 0;
    proof {
        is_char_boundary_start_end_of_seq(b);
    }
    let n = bytes.len();
    loop
        invariant
            b == bytes@,
            n == b.len(),
            b == text.spec_bytes(),
            valid_utf8(b),
            canon == options_view(canonical@),
            p <= b.len(),
            k <= p,
            is_char_boundary(b, p as int),
            encode_utf8(out@) + absolutize_from(b, p as int, canon, k as int) == spec_absolutize(b, canon),
        ensures
            p <= b.len(),
            is_char_boundary(b, p as int),
            encode_utf8(out@) + b.subrange(p as int, b.len() as int) == spec_absolutize(b, canon),
        decreases b.len() - p,
    {
        proof {
            lemma_find_pair(b, p as int);
        }
        let s = match find_pair(bytes, p) {
            Some(s) => s,
            None => break,
        };
        assert(find_pair_from(b, p as int) == Some(s as int));
        assert(s + 1 < b.len() && b[s as int] == 0x5Du8 && b[s + 1] == 0x28u8);
        proof {
            lemma_find_close(b, s + 2);
        }
        let e = match find_close(bytes, s + 2) {
            Some(e) => e,
            None => break,
        };
        assert(find_close_from(b, s + 2) == Some(e as int));
        assert(s + 2 <= e < b.len() && b[e as int] == 0x29u8);
        proof {
            crate::text::lemma_ascii_boundary(b, s as int);
            crate::text::lemma_after_ascii(b, s + 1);
            crate::text::lemma_ascii_boundary(b, e as int);
            crate::text::lemma_after_ascii(b, e as int);
            crate::text::lemma_slice_roundtrip(b, p as int, s + 2);
        }
        let head = substring(text, p, s + 2);
        let ghost before = out@;
        out.append(head);
        proof {
            lemma_encode_concat(before, head@);
        }
        let link = substring(text, s + 2, e);
        let canon_k = canonical_at(canonical, k);
        write_link(&mut out, link, canon_k);
        assert(link@ == decode_utf8(b.subrange(s + 2, e as int)));
        p = e + 1;
        k += 1;
    }
    proof {
        crate::text::lemma_slice_roundtrip(b, p as int, b.len() as int);
        is_char_boundary_start_end_of_seq(b);
    }
    let len = bytes.len();
    let tail = substring(text, p, len);
    let ghost before = out@;
    out.append(tail);
    proof {
        lemma_encode_concat(before, tail@);
    }
    out
}

// ---------------------------------------------------------------------
// Line lookup
// ---------------------------------------------------------------------

/// The lines of valid UTF-8 start and end on character boundaries: they
/// are cut at ASCII bytes.
pub proof fn lemma_line_ranges_on_boundaries(b: Seq<u8>)
    requires
        valid_utf8(b),
    ensures
        ranges_on_boundaries(b, spec_line_ranges(b)),
{
    let rs = spec_line_ranges(b);
    lemma_line_ranges_ordered(b);
    assert forall|i: int| 0 <= i < rs.len() implies 0 <= (#[trigger] rs[i]).0 <= rs[i].1 <= b.len()
        && is_char_boundary(b, rs[i].0) && is_char_boundary(b, rs[i].1) by {
        if rs[i].0 == 0 {
            is_char_boundary_start_end_of_seq(b);
        } else {
            crate::text::lemma_after_ascii(b, rs[i].0 - 1);
        }
        crate::text::lemma_ascii_boundary(b, rs[i].1);
    }
}

/// How many of the lines `rs` start at or before `offset`.
pub open spec fn starts_upto(rs: Seq<(int, int)>, offset: int) -> nat
    decreases rs.len(),
{
    if rs.len() == 0 {
        0
    } else {
        starts_upto(rs.drop_last(), offset) + if rs.last().0 <= offset {
            1nat
        } else {
            0nat
        }
    }
}

/// The line that a byte offset falls in: the last line starting at or
/// before it, and the first line when there is none.
pub open spec fn spec_line_of_offset(rs: Seq<(int, int)>, offset: int) -> int {
    let k = starts_upto(rs, offset);
    if k == 0 {
        0
    } else {
        k - 1
    }
}

/// When the lines before `p` start at or before `offset` and the others
/// after it, `p` lines start at or before it.
pub proof fn lemma_starts_upto_partition(rs: Seq<(int, int)>, offset: int, p: int)
    requires
        0 <= p <= rs.len(),
        forall|i: int| 0 <= i < p ==> (#[trigger] rs[i]).0 <= offset,
        forall|i: int| p <= i < rs.len() ==> (#[trigger] rs[i]).0 > offset,
    ensures
        starts_upto(rs, offset) == p,
    decreases rs.len(),
{
    if rs.len() > 0 {
        let shorter = rs.drop_last();
        if p == rs.len() {
            lemma_starts_upto_partition(shorter, offset, p - 1);
        } else {
            lemma_starts_upto_partition(shorter, offset, p);
        }
    }
}

/// The line of a byte offset, by binary search over line starts.
fn line_of(ranges: &Vec<Range<usize>>, offset: usize, Ghost(b): Ghost<Seq<u8>>) -> (r: usize)
    requires
        ranges_ordered(b, ranges_view(ranges@)),
    ensures
        r == spec_line_of_offset(ranges_view(ranges@), offset as int),
{
    let ghost rs = ranges_view(ranges@);
    let mut lo: usize = 0;
    let mut hi: usize = ranges.len();
    while lo < hi
        invariant
            lo <= hi <= ranges.len(),
            rs == ranges_view(ranges@),
            ranges_ordered(b, rs),
            forall|i: int| 0 <= i < lo ==> (#[trigger] rs[i]).0 <= offset,
            forall|i: int| hi <= i < rs.len() ==> (#[trigger] rs[i]).0 > offset,
        decreases hi - lo,
    {
        let mid = lo + (hi - lo) / 2;
        assert(rs[mid as int].0 == ranges@[mid as int].start);
        if ranges[mid].start <= offset {
            assert forall|i: int| 0 <= i <= mid implies (#[trigger] rs[i]).0 <= offset by {
                if i < mid {
                    assert(rs[i].1 < rs[mid as int].0);
                }
            }
            lo = mid + 1;
        } else {
            assert forall|i: int| mid <= i < rs.len() implies (#[trigger] rs[i]).0 > offset by {
                if i > mid {
                    assert(rs[mid as int].1 < rs[i].0);
                }
            }
            hi = mid;
        }
    }
    proof {
        lemma_starts_upto_partition(rs, offset as int, lo as int);
    }
    if lo == 0 {
        0
    } else {
        lo - 1
    }
}

/// Every byte offset inside line `i`, its line break excluded, lies in
/// line `i`.
pub proof fn lemma_offset_in_line(b: Seq<u8>, i: int, offset: int)
    requires
        0 <= i < spec_line_ranges(b).len(),
        spec_line_ranges(b)[i].0 <= offset <= spec_line_ranges(b)[i].1,
    ensures
        spec_line_of_offset(spec_line_ranges(b), offset) == i,
{
    let rs = spec_line_ranges(b);
    lemma_line_ranges_ordered(b);
    assert forall|j: int| 0 <= j < i + 1 implies (#[trigger] rs[j]).0 <= offset by {
        if j < i {
            assert(rs[j].1 < rs[i].0);
        }
    }
    assert forall|j: int| i + 1 <= j < rs.len() implies (#[trigger] rs[j]).0 > offset by {
        assert(rs[i].1 < rs[j].0);
    }
    lemma_starts_upto_partition(rs, offset, i + 1);
}

/// Walking `n` bytes finishes one line per line feed, and the current line
/// starts right after the last line feed.
proof fn lemma_ranges_upto_count(b: Seq<u8>, n: int)
    requires
        0 <= n <= b.len(),
    ensures
        ranges_upto(b, n).0.len() == outline::newlines_before(b, n),
        n == 0 || b[n - 1] == 0x0Au8 ==> ranges_upto(b, n).1 == n,
        n > 0 && b[n - 1] != 0x0Au8 ==> ranges_upto(b, n).1 < n,
        forall|j: int| ranges_upto(b, n).1 <= j < n ==> b[j] != 0x0Au8,
    decreases n,
{
    if n > 0 {
        lemma_ranges_upto_count(b, n - 1);
        lemma_ranges_upto(b, n - 1);
    }
}

/// The text has one line per line feed, plus the tail after the last line
/// feed when that tail is not empty: a final line feed does not add an
/// empty line.
pub proof fn lemma_line_count(b: Seq<u8>)
    ensures
        spec_line_ranges(b).len() == outline::newlines_before(b, b.len() as int) + if b.len() > 0
            && b.last() != 0x0Au8 {
            1nat
        } else {
            0nat
        },
{
    lemma_ranges_upto_count(b, b.len() as int);
}

/// No line holds a line feed.
pub proof fn lemma_lines_without_line_feed(b: Seq<u8>)
    ensures
        forall|i: int, j: int|
            #![trigger spec_line_ranges(b)[i], b[j]]
            0 <= i < spec_line_ranges(b).len() && spec_line_ranges(b)[i].0 <= j < spec_line_ranges(b)[i].1
                ==> b[j] != 0x0Au8,
{
    lemma_lines_upto_without_line_feed(b, b.len() as int);
    lemma_ranges_upto_count(b, b.len() as int);
    lemma_ranges_upto(b, b.len() as int);
}

proof fn lemma_lines_upto_without_line_feed(b: Seq<u8>, n: int)
    requires
        0 <= n <= b.len(),
    ensures
        forall|i: int, j: int|
            #![trigger ranges_upto(b, n).0[i], b[j]]
            0 <= i < ranges_upto(b, n).0.len() && ranges_upto(b, n).0[i].0 <= j < ranges_upto(b, n).0[i].1
                ==> b[j] != 0x0Au8,
    decreases n,
{
    if n > 0 {
        lemma_lines_upto_without_line_feed(b, n - 1);
        lemma_ranges_upto_count(b, n - 1);
        lemma_ranges_upto(b, n - 1);
    }
}

/// The byte spans of the link texts of `b` from byte `p` on: each lies
/// between a `](` and the next `)`.
pub open spec fn link_spans_from(b: Seq<u8>, p: int) -> Seq<(int, int)>
    decreases b.len() - p,
{
    if p < 0 || p > b.len() {
        Seq::empty()
    } else {
        match find_pair_from(b, p) {
            None => Seq::empty(),
            Some(s) => match find_close_from(b, s + 2) {
                None => Seq::empty(),
                Some(e) => {
                    proof {
                        lemma_find_pair(b, p);
                        lemma_find_close(b, s + 2);
                    }
                    seq![(s + 2, e)] + link_spans_from(b, e + 1)
                },
            },
        }
    }
}

/// `b` from byte `p` on, with the spans `spans` (in order, after `p`)
/// replaced by the texts `reps`, one for one.
pub open spec fn replace_spans(b: Seq<u8>, p: int, spans: Seq<(int, int)>, reps: Seq<Seq<u8>>) -> Seq<u8>
    decreases spans.len(),
{
    if spans.len() == 0 || reps.len() == 0 {
        b.subrange(p, b.len() as int)
    } else {
        b.subrange(p, spans[0].0) + reps[0] + replace_spans(b, spans[0].1, spans.drop_first(), reps.drop_first())
    }
}

/// The texts the links of `b` from byte `p` on are written as, the first
/// of them being link number `k`, whose path is `canon[k]`.
pub open spec fn rewritten_from(b: Seq<u8>, p: int, canon: Seq<Option<Seq<char>>>, k: int) -> Seq<Seq<u8>> {
    Seq::new(
        links_from(b, p).len(),
        |j: int| encode_utf8(link_or_uri(links_from(b, p)[j], canon_at(canon, k + j))),
    )
}

proof fn lemma_replace_shift(b: Seq<u8>, q: int, spans: Seq<(int, int)>, reps: Seq<Seq<u8>>)
    requires
        0 <= q < b.len(),
        spans.len() > 0 ==> q + 1 <= spans[0].0 <= b.len(),
    ensures
        replace_spans(b, q, spans, reps) == b.subrange(q, q + 1) + replace_spans(b, q + 1, spans, reps),
{
    if spans.len() == 0 || reps.len() == 0 {
        assert(b.subrange(q, b.len() as int) =~= b.subrange(q, q + 1) + b.subrange(q + 1, b.len() as int));
    } else {
        assert(b.subrange(q, spans[0].0) =~= b.subrange(q, q + 1) + b.subrange(q + 1, spans[0].0));
    }
}

proof fn lemma_absolutize_spans(b: Seq<u8>, p: int, canon: Seq<Option<Seq<char>>>, k: int)
    requires
        0 <= p <= b.len(),
    ensures
        link_spans_from(b, p).len() == links_from(b, p).len(),
        forall|j: int|
            0 <= j < link_spans_from(b, p).len() ==> p + 2 <= (#[trigger] link_spans_from(b, p)[j]).0
                <= link_spans_from(b, p)[j].1 < b.len() && decode_utf8(
                b.subrange(link_spans_from(b, p)[j].0, link_spans_from(b, p)[j].1),
            ) == links_from(b, p)[j],
        forall|i: int, j: int|
            0 <= i < j < link_spans_from(b, p).len() ==> (#[trigger] link_spans_from(b, p)[i]).1 < (
            #[trigger] link_spans_from(b, p)[j]).0,
        absolutize_from(b, p, canon, k) == replace_spans(
            b,
            p,
            link_spans_from(b, p),
            rewritten_from(b, p, canon, k),
        ),
    decreases b.len() - p,
{
    lemma_find_pair(b, p);
    let reps = rewritten_from(b, p, canon, k);
    match find_pair_from(b, p) {
        None => {},
        Some(s) => {
            lemma_find_close(b, s + 2);
            match find_close_from(b, s + 2) {
                None => {},
                Some(e) => {
                    lemma_absolutize_spans(b, e + 1, canon, k + 1);
                    let spans = link_spans_from(b, p);
                    let rest = link_spans_from(b, e + 1);
                    let ls = links_from(b, p);
                    let lrest = links_from(b, e + 1);
                    assert(spans == seq![(s + 2, e)] + rest);
                    assert(ls == seq![decode_utf8(b.subrange(s + 2, e))] + lrest);
                    assert(spans.drop_first() =~= rest);
                    let rreps = rewritten_from(b, e + 1, canon, k + 1);
                    assert(reps.drop_first() =~= rreps) by {
                        assert forall|j: int| 0 <= j < rreps.len() implies reps.drop_first()[j] == rreps[j] by {
                            assert(ls[j + 1] == lrest[j]);
                        }
                    }
                    assert(reps[0] == encode_utf8(link_or_uri(decode_utf8(b.subrange(s + 2, e)), canon_at(canon, k))));
                    lemma_replace_shift(b, e, rest, rreps);
                    assert(b.subrange(e, e + 1) =~= seq![0x29u8]);
                    assert forall|j: int|
                        0 <= j < spans.len() implies p + 2 <= (#[trigger] spans[j]).0 <= spans[j].1 < b.len()
                            && decode_utf8(b.subrange(spans[j].0, spans[j].1)) == ls[j] by {
                        if j > 0 {
                            assert(spans[j] == rest[j - 1]);
                            assert(ls[j] == lrest[j - 1]);
                        }
                    }
                    assert forall|i: int, j: int| 0 <= i < j < spans.len() implies (#[trigger] spans[i]).1 < (
                    #[trigger] spans[j]).0 by {
                        assert(spans[j] == rest[j - 1]);
                        if i > 0 {
                            assert(spans[i] == rest[i - 1]);
                        }
                    }
                },
            }
        },
    }
}

/// Each link is rewritten with the path found for it and only that one:
/// the rendered text is the text with the `k`-th link's text (what stands
/// between its `](` and the next `)`, in order, none overlapping) replaced
/// by that link written with `canon[k]`, for every `k`, and nothing else
/// changed.
pub proof fn lemma_absolutize_each_link(b: Seq<u8>, canon: Seq<Option<Seq<char>>>)
    ensures
        link_spans_from(b, 0).len() == spec_links(b).len(),
        forall|j: int|
            0 <= j < link_spans_from(b, 0).len() ==> 0 <= (#[trigger] link_spans_from(b, 0)[j]).0
                <= link_spans_from(b, 0)[j].1 <= b.len() && decode_utf8(
                b.subrange(link_spans_from(b, 0)[j].0, link_spans_from(b, 0)[j].1),
            ) == spec_links(b)[j],
        forall|i: int, j: int|
            0 <= i < j < link_spans_from(b, 0).len() ==> (#[trigger] link_spans_from(b, 0)[i]).1 < (
            #[trigger] link_spans_from(b, 0)[j]).0,
        spec_absolutize(b, canon) == replace_spans(
            b,
            0,
            link_spans_from(b, 0),
            Seq::new(
                spec_links(b).len(),
                |k: int| encode_utf8(link_or_uri(spec_links(b)[k], canon_at(canon, k))),
            ),
        ),
{
    lemma_absolutize_spans(b, 0, canon, 0);
    assert(rewritten_from(b, 0, canon, 0) =~= Seq::new(
        spec_links(b).len(),
        |k: int| encode_utf8(link_or_uri(spec_links(b)[k], canon_at(canon, k))),
    ));
}

/// Links whose paths were not found stay exactly as written: with no path
/// resolved, rewriting gives the text back.
pub proof fn lemma_absolutize_unresolved(b: Seq<u8>, canon: Seq<Option<Seq<char>>>)
    requires
        valid_utf8(b),
        forall|k: int| 0 <= k < canon.len() ==> (#[trigger] canon[k]) is None,
    ensures
        spec_absolutize(b, canon) == b,
{
    lemma_absolutize_from_unresolved(b, 0, canon, 0);
    assert(b.subrange(0, b.len() as int) =~= b);
}

proof fn lemma_absolutize_from_unresolved(b: Seq<u8>, p: int, canon: Seq<Option<Seq<char>>>, k: int)
    requires
        valid_utf8(b),
        0 <= p <= b.len(),
        forall|j: int| 0 <= j < canon.len() ==> (#[trigger] canon[j]) is None,
    ensures
        absolutize_from(b, p, canon, k) == b.subrange(p, b.len() as int),
    decreases b.len() - p,
{
    lemma_find_pair(b, p);
    if let Some(s) = find_pair_from(b, p) {
        lemma_find_close(b, s + 2);
        if let Some(e) = find_close_from(b, s + 2) {
            lemma_absolutize_from_unresolved(b, e + 1, canon, k + 1);
            crate::text::lemma_after_ascii(b, s + 1);
            crate::text::lemma_ascii_boundary(b, e);
            crate::text::lemma_slice_roundtrip(b, s + 2, e);
            let link = decode_utf8(b.subrange(s + 2, e));
            assert(canon_at(canon, k) is None);
            assert(link_or_uri(link, canon_at(canon, k)) == link);
            assert(b.subrange(p, b.len() as int) =~= b.subrange(p, s + 2) + b.subrange(s + 2, e) + seq![0x29u8]
                + b.subrange(e + 1, b.len() as int));
        }
    }
}

// ---------------------------------------------------------------------
// The document
// ---------------------------------------------------------------------

#[verifier::external_type_specification]
#[verifier::external_body]
pub struct ExIoError(std::io::Error);

/// Why a file could not be opened.
#[derive(Debug)]
pub enum DocumentError {
    /// The file could not be read: no permission, gone, a network drive
    /// that went away.
    Io(std::io::Error),
    /// The file opened, but it is not text.
    NotText(NotTextReason),
    /// The file is text, but too large to read without choking.
    TooLarge { size: u64, limit: u64 },
}

impl From<std::io::Error> for DocumentError {
    fn from(err: std::io::Error) -> Self {
        DocumentError::Io(err)
    }
}

impl vstd::std_specs::convert::FromSpecImpl<std::io::Error> for DocumentError {
    open spec fn obeys_from_spec() -> bool {
        true
    }

    open spec fn from_spec(v: std::io::Error) -> Self {
        DocumentError::Io(v)
    }
}

/// Admits a file by the size that the file system reports, before anything
/// is read.
pub fn check_size(size: u64) -> (r: Result<(), DocumentError>)
    ensures
        r is Ok <==> size <= MAX_FILE_BYTES,
        r matches Err(e) ==> e == (DocumentError::TooLarge { size, limit: MAX_FILE_BYTES }),
{
    if size > MAX_FILE_BYTES {
        Err(DocumentError::TooLarge { size, limit: MAX_FILE_BYTES })
    } else {
        Ok(())
    }
}

/// Admits a file by its first bytes (the caller reads at most
/// [`SNIFF_BYTES`] of them).
pub fn check_head(head: &[u8]) -> (r: Result<(), DocumentError>)
    ensures
        r is Ok <==> spec_sniff(head@) is None,
        r matches Err(e) ==> spec_sniff(head@) matches Some(reason) && e == DocumentError::NotText(reason),
{
    match sniff_binary(head) {
        Some(reason) => Err(DocumentError::NotText(reason)),
        None => Ok(()),
    }
}

/// A file's text with its outline worked out, waiting for the paths of its
/// links to be looked up.
pub struct Draft {
    path: String,
    source: String,
    headings: Vec<Heading>,
    anchored: String,
}

/// What a [`Draft`] holds.
pub struct DraftView {
    pub path: Seq<char>,
    pub source: Seq<char>,
    pub headings: Seq<HeadingView>,
    pub anchored: Seq<char>,
}

impl View for Draft {
    type V = DraftView;

    closed spec fn view(&self) -> DraftView {
        DraftView {
            path: self.path@,
            source: self.source@,
            headings: headings_view(self.headings@),
            anchored: self.anchored@,
        }
    }
}

/// The draft of the file at `path` with text `source`: its headings, and
/// the text with an anchor after every ATX heading.
pub open spec fn spec_draft(path: Seq<char>, source: Seq<char>) -> DraftView {
    let b = encode_utf8(source);
    let headings = spec_headings(b, spec_events(source));
    DraftView { path, source, headings, anchored: decode_utf8(spec_inject(b, headings)) }
}

impl Draft {
    /// Every draft is the draft of its path and text, and its anchored text
    /// encodes to what the anchors were written into.
    #[verifier::type_invariant]
    spec fn consistent(self) -> bool {
        &&& self@ == spec_draft(self@.path, self@.source)
        &&& encode_utf8(self@.anchored) == spec_inject(encode_utf8(self@.source), self@.headings)
    }

    /// Decodes the bytes read from `path` and works out the outline.
    pub fn new(path: &str, bytes: &[u8]) -> (r: Draft)
        ensures
            r@ == spec_draft(path@, spec_decode_text(bytes@)),
    {
        let source = decode_text(bytes);
        let headings = outline::extract(source.as_str());
        let anchored = outline::inject_with_headings(source.as_str(), &headings);
        proof {
            encode_utf8_decode_utf8(anchored@);
        }
        Draft { path: path.to_owned(), source, headings, anchored }
    }

    /// The text of the file.
    pub fn source(&self) -> (r: &str)
        ensures
            r@ == self@.source,
    {
        self.source.as_str()
    }

    /// For each link of the text, in order, the file it names next to the
    /// document (see [`link_target`]), or `None` when it names none. The
    /// caller looks each one up and hands the absolute paths to
    /// [`Document::open`].
    pub fn link_targets(&self) -> (r: Vec<Option<String>>)
        ensures
            self@ == spec_draft(self@.path, self@.source),
            r@.len() == spec_links(encode_utf8(self@.anchored)).len(),
            forall|k: int|
                0 <= k < r@.len() ==> option_text(#[trigger] r@[k]) == spec_link_target(
                    spec_links(encode_utf8(self@.anchored))[k],
                ),
    {
        proof {
            use_type_invariant(self);
        }
        let found = links(self.anchored.as_str());
        let ghost ls = spec_links(encode_utf8(self@.anchored));
        let mut out: Vec<Option<String>> = Vec::new();
        let mut k: usize = 0;
        while k < found.len()
            invariant
                k <= found.len(),
                outline::strings_view(found@) == ls,
                out@.len() == k,
                forall|j: int| 0 <= j < k ==> option_text(#[trigger] out@[j]) == spec_link_target(ls[j]),
            decreases found.len() - k,
        {
            assert(ls[k as int] == found@[k as int]@);
            let target = link_target(found[k].as_str());
            out.push(target);
            k += 1;
        }
        out
    }
}

/// The text of an optional string.
pub open spec fn option_text(o: Option<String>) -> Option<Seq<char>> {
    match o {
        Some(s) => Some(s@),
        None => None,
    }
}

/// One open file.
///
/// The fields are private and every constructor computes all of them from
/// the same text, so the rendered text cannot drift apart from the source.
pub struct Document {
    path: String,
    /// The text exactly as in the file: what the source view shows.
    source: String,
    /// The same text prepared for display: anchors after headings, relative
    /// links rewritten as `file://` URIs.
    rendered: String,
    headings: Vec<Heading>,
    /// Last modification, in nanoseconds from the Unix epoch; `None` when
    /// the file system did not say.
    modified: Option<i128>,
    /// Whether to offer the rendered view at all; decided by extension.
    is_markdown: bool,
    /// Width of the widest line in screen columns, computed once at load.
    max_line_columns: usize,
    /// Byte ranges of the lines inside `source`.
    line_ranges: Vec<Range<usize>>,
    /// The absolute paths found for the links of the text.
    canonical: Ghost<Seq<Option<Seq<char>>>>,
}

/// What a [`Document`] holds.
pub struct DocumentView {
    pub path: Seq<char>,
    pub source: Seq<char>,
    pub rendered: Seq<char>,
    pub headings: Seq<HeadingView>,
    pub modified: Option<i128>,
    pub is_markdown: bool,
    pub max_line_columns: nat,
    pub line_ranges: Seq<(int, int)>,
    pub canonical: Seq<Option<Seq<char>>>,
}

impl View for Document {
    type V = DocumentView;

    closed spec fn view(&self) -> DocumentView {
        DocumentView {
            path: self.path@,
            source: self.source@,
            rendered: self.rendered@,
            headings: headings_view(self.headings@),
            modified: self.modified,
            is_markdown: self.is_markdown,
            max_line_columns: self.max_line_columns as nat,
            line_ranges: ranges_view(self.line_ranges@),
            canonical: self.canonical@,
        }
    }
}

/// The document of the file at `path` with text `source`, whose links
/// resolved to `canonical`, last modified at `modified`.
pub open spec fn spec_document(
    path: Seq<char>,
    source: Seq<char>,
    canonical: Seq<Option<Seq<char>>>,
    modified: Option<i128>,
    is_markdown: bool,
) -> DocumentView {
    let b = encode_utf8(source);
    let headings = spec_headings(b, spec_events(source));
    let lines = spec_line_ranges(b);
    DocumentView {
        path,
        source,
        rendered: decode_utf8(spec_absolutize(spec_inject(b, headings), canonical)),
        headings,
        modified,
        is_markdown,
        max_line_columns: spec_max_columns(b, lines),
        line_ranges: lines,
        canonical,
    }
}

/// The text of line `index`, or the empty text past the last line.
pub open spec fn spec_line(d: DocumentView, index: int) -> Seq<char> {
    if 0 <= index < d.line_ranges.len() {
        range_chars(encode_utf8(d.source), d.line_ranges[index])
    } else {
        Seq::empty()
    }
}

impl Document {
    /// Every document is the document of its path, text, link paths, time
    /// and choice of view: its rendered text, headings, lines and widest
    /// line are those of its text. A caller holding a document learns this
    /// from `use_type_invariant`, or from any of the getters below.
    #[verifier::type_invariant]
    pub open spec fn consistent(self) -> bool {
        self@ == spec_document(self@.path, self@.source, self@.canonical, self@.modified, self@.is_markdown)
    }

    /// Builds the document from a draft, the absolute paths found for its
    /// links (`canonical[k]` for the `k`-th, see [`Draft::link_targets`])
    /// and the modification time the file system reported.
    pub fn open(draft: Draft, canonical: &Vec<Option<String>>, modified: Option<i128>) -> (r: Document)
        requires
            4 * encode_utf8(draft@.source).len() <= usize::MAX,
        ensures
            r@ == spec_document(draft@.path, draft@.source, options_view(canonical@), modified, r@.is_markdown),
            forall|names: Seq<Seq<char>>, lead: bool, trail: bool|
                #![trigger slash_join(names, lead, trail)]
                all_plain(names) && draft@.path == slash_join(names, lead, trail) ==> r@.is_markdown
                    == markdown_path(names),
    {
        proof {
            use_type_invariant(&draft);
        }
        let Draft { path, source, headings, anchored } = draft;
        let is_markdown = has_markdown_extension(path.as_str());
        Self::assemble(path, is_markdown, source, headings, anchored, canonical, modified)
    }

    /// Puts the parts together.
    fn assemble(
        path: String,
        is_markdown: bool,
        source: String,
        headings: Vec<Heading>,
        anchored: String,
        canonical: &Vec<Option<String>>,
        modified: Option<i128>,
    ) -> (r: Document)
        requires
            headings_view(headings@) == spec_headings(encode_utf8(source@), spec_events(source@)),
            encode_utf8(anchored@) == spec_inject(encode_utf8(source@), headings_view(headings@)),
            4 * encode_utf8(source@).len() <= usize::MAX,
        ensures
            r@ == spec_document(path@, source@, options_view(canonical@), modified, is_markdown),
    {
        let (rendered, line_ranges, max_line_columns) = Self::prepare(&source, &headings, &anchored, canonical);
        Document {
            path,
            source,
            rendered,
            headings,
            modified,
            is_markdown,
            max_line_columns,
            line_ranges,
            canonical: Ghost(options_view(canonical@)),
        }
    }

    /// The parts that depend on the text: the rendered text, the lines and
    /// the widest line.
    fn prepare(
        source: &String,
        headings: &Vec<Heading>,
        anchored: &String,
        canonical: &Vec<Option<String>>,
    ) -> (r: (String, Vec<Range<usize>>, usize))
        requires
            headings_view(headings@) == spec_headings(encode_utf8(source@), spec_events(source@)),
            encode_utf8(anchored@) == spec_inject(encode_utf8(source@), headings_view(headings@)),
            4 * encode_utf8(source@).len() <= usize::MAX,
        ensures
            r.0@ == decode_utf8(spec_absolutize(spec_inject(encode_utf8(source@), headings_view(headings@)), options_view(canonical@))),
            ranges_view(r.1@) == spec_line_ranges(encode_utf8(source@)),
            r.2 == spec_max_columns(encode_utf8(source@), spec_line_ranges(encode_utf8(source@))),
    {
        let ghost b = encode_utf8(source@);
        let rendered = absolutize_links(anchored.as_str(), canonical);
        proof {
            encode_utf8_decode_utf8(rendered@);
        }
        let line_ranges = line_ranges(source.as_str());
        proof {
            lemma_line_ranges_on_boundaries(b);
        }
        let max_line_columns = max_line_columns(source.as_str(), line_ranges.as_slice());
        (rendered, line_ranges, max_line_columns)
    }

    /// Takes in a fresh read of the same file: the draft of its new text,
    /// the paths found for the new text's links and the new modification
    /// time. The path, and with it the choice of the rendered view, stay.
    pub fn reload(&mut self, draft: Draft, canonical: &Vec<Option<String>>, modified: Option<i128>)
        requires
            4 * encode_utf8(draft@.source).len() <= usize::MAX,
        ensures
            final(self)@ == spec_document(
                old(self)@.path,
                draft@.source,
                options_view(canonical@),
                modified,
                old(self)@.is_markdown,
            ),
    {
        proof {
            use_type_invariant(&draft);
        }
        let Draft { path: _, source, headings, anchored } = draft;
        let path = self.path.clone();
        let is_markdown = self.is_markdown;
        *self = Self::assemble(path, is_markdown, source, headings, anchored, canonical, modified);
    }

    /// Whether a file last modified at `current` should be read again:
    /// only when the time is known and differs from the one read.
    pub fn needs_reload(&self, current: Option<i128>) -> (r: bool)
        ensures
            r == (current is Some && current != self@.modified),
    {
        match current {
            None => false,
            Some(t) => match self.modified {
                Some(m) => t != m,
                None => true,
            },
        }
    }

    /// The text of the file, as the string the document holds.
    pub fn source_string(&self) -> (r: &String)
        ensures
            r@ == self@.source,
    {
        &self.source
    }

    /// The text prepared for the rendered view.
    pub fn rendered(&self) -> (r: &str)
        ensures
            r@ == self@.rendered,
            self.consistent(),
    {
        proof {
            use_type_invariant(self);
        }
        self.rendered.as_str()
    }

    /// The whole source text; copying to the clipboard takes all of it.
    pub fn source(&self) -> (r: &str)
        ensures
            r@ == self@.source,
            self.consistent(),
    {
        proof {
            use_type_invariant(self);
        }
        self.source.as_str()
    }

    pub fn path(&self) -> (r: &str)
        ensures
            r@ == self@.path,
    {
        self.path.as_str()
    }

    /// Whether to show this file rendered.
    pub fn is_markdown(&self) -> (r: bool)
        ensures
            r == self@.is_markdown,
    {
        self.is_markdown
    }

    /// Size of the source in bytes.
    pub fn size_bytes(&self) -> (r: u64)
        ensures
            r == encode_utf8(self@.source).len(),
    {
        let n = self.source.as_str().as_bytes().len();
        n as u64
    }

    /// Whether the file is so large that rendering it by default is unwise.
    pub fn is_large(&self) -> (r: bool)
        ensures
            r == (encode_utf8(self@.source).len() > MAX_RENDER_BYTES),
    {
        self.size_bytes() > MAX_RENDER_BYTES
    }

    /// How many lines the source has.
    pub fn line_count(&self) -> (r: usize)
        ensures
            r == self@.line_ranges.len(),
            self.consistent(),
    {
        proof {
            use_type_invariant(self);
        }
        self.line_ranges.len()
    }

    /// Width of the widest line, in screen columns.
    pub fn max_line_columns(&self) -> (r: usize)
        ensures
            r == self@.max_line_columns,
            self.consistent(),
    {
        proof {
            use_type_invariant(self);
        }
        self.max_line_columns
    }

    /// The headings in order of appearance.
    pub fn headings(&self) -> (r: &[Heading])
        ensures
            headings_view(r@) == self@.headings,
            self.consistent(),
    {
        proof {
            use_type_invariant(self);
        }
        self.headings.as_slice()
    }

    /// Byte bounds of line `index` inside the source; `0..0` past the end.
    pub fn line_range(&self, index: usize) -> (r: Range<usize>)
        ensures
            (r.start as int, r.end as int) == if index < self@.line_ranges.len() {
                self@.line_ranges[index as int]
            } else {
                (0, 0)
            },
    {
        if index < self.line_ranges.len() {
            let r = &self.line_ranges[index];
            Range { start: r.start, end: r.end }
        } else {
            Range { start: 0, end: 0 }
        }
    }

    /// The line that a byte offset into the source falls in.
    pub fn line_of_offset(&self, offset: usize) -> (r: usize)
        ensures
            r == spec_line_of_offset(self@.line_ranges, offset as int),
    {
        proof {
            use_type_invariant(self);
            lemma_line_ranges_ordered(encode_utf8(self@.source));
        }
        line_of(&self.line_ranges, offset, Ghost(encode_utf8(self@.source)))
    }

    /// Line `index` of the source, without copying; empty past the end.
    pub fn line(&self, index: usize) -> (r: &str)
        ensures
            r@ == spec_line(self@, index as int),
    {
        proof {
            use_type_invariant(self);
        }
        if index < self.line_ranges.len() {
            let ghost b = encode_utf8(self@.source);
            proof {
                lemma_line_ranges_on_boundaries(b);
                assert(self@.line_ranges[index as int] == (
                    self.line_ranges@[index as int].start as int,
                    self.line_ranges@[index as int].end as int,
                ));
            }
            let range = &self.line_ranges[index];
            let line = substring(self.source.as_str(), range.start, range.end);
            proof {
                encode_utf8_decode_utf8(line@);
            }
            line
        } else {
            proof {
                reveal_strlit("");
            }
            ""
        }
    }

    /// The file name, for the window title.
    pub fn title(&self) -> (r: String)
        ensures
            forall|names: Seq<Seq<char>>, lead: bool, trail: bool|
                #![trigger slash_join(names, lead, trail)]
                all_plain(names) && self@.path == slash_join(names, lead, trail) ==> r@ == shown_name(
                    self@.path,
                    names,
                ),
    {
        file_name(self.path.as_str())
    }
}

} // verus!
