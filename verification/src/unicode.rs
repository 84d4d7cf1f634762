//! The pieces of Unicode that the crate takes from the standard library.
//!
//! Case mapping, the alphanumeric class and lossy decoding are defined by
//! Unicode tables that take pages to write down. Each of them is reached
//! through one small wrapper whose result is given a name; the crate's own
//! logic is verified against those names. White space is a short fixed
//! list and is decided here, without the standard library. Splitting and comparing paths follow the rules
//! of the platform the program was built for, so their results get no
//! name: the wrappers state only what holds on every platform.

use vstd::prelude::*;
use vstd::utf8::*;

verus! {

/// What `char::is_alphanumeric` answers for a character.
pub uninterp spec fn spec_is_alphanumeric(c: char) -> bool;

/// The characters with the Unicode White_Space property, which
/// `char::is_whitespace` tests for: the 25 code points listed for it in the
/// Unicode Character Database (PropList.txt).
pub open spec fn spec_is_whitespace(c: char) -> bool {
    let v = c as u32;
    ||| 0x09 <= v <= 0x0D
    ||| v == 0x20
    ||| v == 0x85
    ||| v == 0xA0
    ||| v == 0x1680
    ||| 0x2000 <= v <= 0x200A
    ||| v == 0x2028
    ||| v == 0x2029
    ||| v == 0x202F
    ||| v == 0x205F
    ||| v == 0x3000
}

/// The characters that `char::to_lowercase` yields for a character.
pub uninterp spec fn spec_char_lowercase(c: char) -> Seq<char>;

/// What `str::to_lowercase` returns for a text.
pub uninterp spec fn spec_str_lowercase(s: Seq<char>) -> Seq<char>;

/// What `String::from_utf8_lossy` decodes from a byte sequence.
pub uninterp spec fn spec_utf8_lossy(b: Seq<u8>) -> Seq<char>;

/// What `String::from_utf16_lossy` decodes from a sequence of UTF-16 units.
pub uninterp spec fn spec_utf16_lossy(units: Seq<u16>) -> Seq<char>;

/// A unit that UTF-16 does not reserve for surrogate pairs.
pub open spec fn is_plain_unit(u: u16) -> bool {
    u < 0xD800 || u >= 0xE000
}

/// A path that is a plain file name on every platform: not empty, not `.`
/// or `..`, and holding none of the characters that separate components
/// or start a drive prefix (`/`, `\`, `:`).
pub open spec fn is_plain_name(p: Seq<char>) -> bool {
    &&& p.len() > 0
    &&& p != seq!['.']
    &&& p != seq!['.', '.']
    &&& forall|i: int| 0 <= i < p.len() ==> #[trigger] p[i] != '/' && p[i] != '\\' && p[i] != ':'
}

/// Names that are each a plain name.
pub open spec fn all_plain(names: Seq<Seq<char>>) -> bool {
    forall|i: int| 0 <= i < names.len() ==> is_plain_name(#[trigger] names[i])
}

/// `names` joined by single `/`.
pub open spec fn join_names(names: Seq<Seq<char>>) -> Seq<char>
    decreases names.len(),
{
    if names.len() == 0 {
        Seq::empty()
    } else if names.len() == 1 {
        names[0]
    } else {
        join_names(names.drop_last()) + seq!['/'] + names.last()
    }
}

/// A slash path: `names` joined by single `/`, with a `/` in front when
/// `lead` and one behind when `trail` (and there is a name to follow).
/// Every platform reads such a path the same way: `/` separates its
/// components, and those are the names.
pub open spec fn slash_join(names: Seq<Seq<char>>, lead: bool, trail: bool) -> Seq<char> {
    (if lead {
        seq!['/']
    } else {
        Seq::empty()
    }) + join_names(names) + (if trail && names.len() > 0 {
        seq!['/']
    } else {
        Seq::empty()
    })
}

/// A slash path of at least one name and no trailing `/`: its text and its
/// components determine each other.
pub open spec fn is_clean_path(p: Seq<char>) -> bool {
    exists|names: Seq<Seq<char>>, lead: bool|
        #![trigger slash_join(names, lead, false)]
        all_plain(names) && names.len() > 0 && p == slash_join(names, lead, false)
}

/// An ASCII letter or digit.
pub open spec fn ascii_alnum(c: char) -> bool {
    ('0' <= c && c <= '9') || ('a' <= c && c <= 'z') || ('A' <= c && c <= 'Z')
}

/// A character of the ASCII range.
pub open spec fn is_ascii_char(c: char) -> bool {
    (c as u32) < 0x80
}

/// Calls `char::is_alphanumeric` (Unicode Alphabetic or Numeric). In the
/// ASCII range exactly the letters and digits are Alphabetic or Numeric.
#[verifier::external_body]
pub(crate) fn is_alphanumeric(c: char) -> (r: bool)
    ensures
        r == spec_is_alphanumeric(c),
        is_ascii_char(c) ==> (r <==> ascii_alnum(c)),
{
    c.is_alphanumeric()
}

/// Whether `c` has the Unicode White_Space property, which is what
/// `char::is_whitespace` tests: decided from the fixed list of its code
/// points rather than by calling the standard library.
pub(crate) fn is_whitespace(c: char) -> (r: bool)
    ensures
        r == spec_is_whitespace(c),
{
    let v = c as u32;
    (0x09 <= v && v <= 0x0D) || v == 0x20 || v == 0x85 || v == 0xA0 || v == 0x1680 || (0x2000 <= v
        && v <= 0x200A) || v == 0x2028 || v == 0x2029 || v == 0x202F || v == 0x205F || v == 0x3000
}

/// Calls `char::to_lowercase` and collects what it yields. The standard
/// library documents that the iterator yields at least one character: the
/// character itself when it has no lowercase mapping. In the ASCII range
/// the Unicode mapping is the ASCII one: `A`-`Z` to `a`-`z`, the rest kept.
#[verifier::external_body]
pub(crate) fn char_lowercase(c: char) -> (r: Vec<char>)
    ensures
        r@ == spec_char_lowercase(c),
        r@.len() >= 1,
        is_ascii_char(c) ==> r@ == seq![crate::document::ascii_lower_char(c)],
{
    c.to_lowercase().collect()
}

/// Calls `str::to_lowercase`.
#[verifier::external_body]
pub(crate) fn str_lowercase(s: &str) -> (r: String)
    ensures
        r@ == spec_str_lowercase(s@),
{
    s.to_lowercase()
}

/// Calls `String::from_utf8_lossy`. Its documentation states that valid
/// UTF-8 comes back unchanged; invalid sequences are replaced with U+FFFD.
#[verifier::external_body]
pub(crate) fn utf8_lossy(b: &[u8]) -> (r: String)
    ensures
        r@ == spec_utf8_lossy(b@),
        valid_utf8(b@) ==> r@ == decode_utf8(b@),
{
    String::from_utf8_lossy(b).into_owned()
}

/// Calls `String::from_utf16_lossy`. UTF-16 encodes each character
/// outside the surrogate range as the one unit equal to its code, so a
/// sequence without surrogate units decodes to those characters one for
/// one; what it makes of surrogate units is not stated here.
#[verifier::external_body]
pub(crate) fn utf16_lossy(units: &[u16]) -> (r: String)
    ensures
        r@ == spec_utf16_lossy(units@),
        (forall|i: int| 0 <= i < units@.len() ==> is_plain_unit(#[trigger] units@[i])) ==> (
        r@.len() == units@.len() && forall|i: int|
            0 <= i < units@.len() ==> #[trigger] r@[i] as int == units@[i] as int),
{
    String::from_utf16_lossy(units)
}

/// Calls `Path::file_name` on a path given as text. Which characters
/// separate components depends on the platform (`\` does on Windows
/// only), so what is stated is what holds everywhere: the file name of a
/// slash path is its last name, and a slash path without names (`/`, or
/// the empty path) has none.
#[verifier::external_body]
pub(crate) fn path_file_name(p: &str) -> (r: Option<String>)
    ensures
        forall|names: Seq<Seq<char>>, lead: bool, trail: bool|
            #![trigger slash_join(names, lead, trail)]
            all_plain(names) && p@ == slash_join(names, lead, trail) ==> if names.len() == 0 {
                r is None
            } else {
                r is Some && r.unwrap()@ == names.last()
            },
{
    std::path::Path::new(p).file_name().map(|name| name.to_string_lossy().into_owned())
}

/// Compares two paths as `Path`s, which are equal when their components
/// are. How a path splits into components depends on the platform (`\`
/// and drive prefixes on Windows), so the things stated are those that
/// hold everywhere: a path equals itself, and two slash paths without a
/// trailing `/` are equal exactly when their texts are.
#[verifier::external_body]
pub(crate) fn same_path(a: &str, b: &str) -> (r: bool)
    ensures
        a@ == b@ ==> r,
        is_clean_path(a@) && is_clean_path(b@) ==> (r <==> a@ == b@),
{
    std::path::Path::new(a) == std::path::Path::new(b)
}

/// The characters of `s`, in order.
pub fn chars_of(s: &str) -> (v: Vec<char>)
    ensures
        v@ == s@,
{
    let mut v: Vec<char> = Vec::new();
    for ch in it: s.chars()
        invariant
            v@ == it.seq().take(it.index() as int),
    {
        v.push(ch);
    }
    v
}

} // verus!
