//! Finding search matches in what the rendered view has already drawn.
//!
//! The Markdown renderer does not say where it put each piece of text, so
//! the window reads the texts back from the drawn shapes (each text shape
//! is one piece, one label) and asks this module where the matches fall in
//! each. A drawing that holds no text shape at all means the reading broke,
//! not that nothing matched: that is reported as [`ProbeBroken`].

use vstd::prelude::*;
use vstd::string::*;
use vstd::utf8::*;

use crate::search::{lemma_find_on_boundaries, on_boundaries, pairs, spec_find, spec_haystack, Haystack, Options};
use crate::text::substring;
use crate::unicode::chars_of;

verus! {

broadcast use vstd::utf8::group_utf8_lib;

/// Reading the drawn shapes stopped working.
#[derive(Debug, Clone, Copy)]
pub struct ProbeBroken;

/// A mark in the list of drawn shapes: the document's shapes start here.
/// Taken before drawing, so that the toolbar's and the panels' shapes are
/// not walked.
#[derive(Debug, Clone, Copy)]
pub struct Mark(pub usize);

/// A match inside one drawn text: which text, and the character positions
/// where the match starts and ends (the drawing counts characters, the
/// search bytes).
#[derive(Debug, Clone, Copy, PartialEq, Eq, Structural)]
pub struct Spot {
    pub text: usize,
    pub start: usize,
    pub end: usize,
}

/// How many characters of `t` come before byte `at`.
pub open spec fn chars_before(t: Seq<char>, at: int) -> int {
    decode_utf8(encode_utf8(t).subrange(0, at)).len() as int
}

/// The spots of the matches in text number `i`, whose text is `t`.
pub open spec fn spots_in(i: int, t: Seq<char>, needle: Seq<char>, options: Options) -> Seq<(int, int, int)> {
    spec_find(spec_haystack(t), t, needle, options).map_values(
        |r: (int, int)| (i, chars_before(t, r.0), chars_before(t, r.1)),
    )
}

/// The spots of the matches in the first `n` texts, text by text.
pub open spec fn spots_upto(texts: Seq<Seq<char>>, n: int, needle: Seq<char>, options: Options) -> Seq<(int, int, int)>
    decreases n,
{
    if n <= 0 {
        Seq::empty()
    } else {
        spots_upto(texts, n - 1, needle, options) + spots_in(n - 1, texts[n - 1], needle, options)
    }
}

/// What reading the drawn texts gives: nothing to look for is no matches;
/// no text drawn at all means the reading broke; otherwise the spots of
/// every text, in order.
pub open spec fn spec_locate(texts: Seq<Seq<char>>, needle: Seq<char>, options: Options) -> Option<Seq<(int, int, int)>> {
    if needle.len() == 0 {
        Some(Seq::empty())
    } else if texts.len() == 0 {
        None
    } else {
        Some(spots_upto(texts, texts.len() as int, needle, options))
    }
}

/// The texts of a list of strings.
pub open spec fn texts_view(v: Seq<String>) -> Seq<Seq<char>> {
    v.map_values(|s: String| s@)
}

/// The triples of a list of spots.
pub open spec fn spots_view(v: Seq<Spot>) -> Seq<(int, int, int)> {
    v.map_values(|s: Spot| (s.text as int, s.start as int, s.end as int))
}

/// How many characters come before byte `at` of `text`.
fn count_chars_before(text: &str, at: usize) -> (r: usize)
    requires
        at <= text.spec_bytes().len(),
        is_char_boundary(text.spec_bytes(), at as int),
    ensures
        r == chars_before(text@, at as int),
{
    proof {
        is_char_boundary_start_end_of_seq(text.spec_bytes());
    }
    let head = substring(text, 0, at);
    proof {
        encode_utf8_decode_utf8(head@);
    }
    chars_of(head).len()
}

/// The spots of the matches in one text.
fn spots_of(index: usize, text: &str, needle: &str, options: Options, out: &mut Vec<Spot>)
    ensures
        spots_view(final(out)@) == spots_view(old(out)@) + spots_in(index as int, text@, needle@, options),
{
    let hay = Haystack::new(text);
    let ghost t = text@;
    let ghost found_spec = spec_find(spec_haystack(t), t, needle@, options);
    proof {
        lemma_find_on_boundaries(t, needle@, options);
    }
    let found = hay.find_all(text, needle, options);
    let ghost start_len = old(out)@.len();
    let ghost before = spots_view(out@);
    let mut k: usize = 0;
    while k < found.len()
        invariant
            k <= found.len(),
            t == text@,
            pairs(found@) == found_spec,
            found_spec == spec_find(spec_haystack(t), t, needle@, options),
            on_boundaries(encode_utf8(t), found_spec),
            spots_view(out@) == before + spots_in(index as int, t, needle@, options).take(k as int),
        decreases found.len() - k,
    {
        let r = &found[k];
        assert(found_spec[k as int] == (r.start as int, r.end as int));
        let start = count_chars_before(text, r.start);
        let end = count_chars_before(text, r.end);
        let ghost prior = spots_view(out@);
        out.push(Spot { text: index, start, end });
        assert(spots_view(out@) =~= prior.push((index as int, start as int, end as int)));
        assert(spots_in(index as int, t, needle@, options).take(k + 1) =~= spots_in(index as int, t, needle@, options).take(k as int).push((index as int, start as int, end as int)));
        k += 1;
    }
    assert(spots_in(index as int, t, needle@, options).take(k as int) =~= spots_in(index as int, t, needle@, options));
}

/// Where the matches of `needle` fall in the drawn texts, in characters;
/// `Err` when no text was drawn at all.
///
/// A match cut by markup (`**bold**`, `` `code` ``, a link) is drawn as two
/// pieces and is not found here, so there may be fewer spots than matches
/// in the plain text; the difference is for the window to show.
pub fn locate_in_texts(texts: &Vec<String>, needle: &str, options: Options) -> (r: Result<Vec<Spot>, ProbeBroken>)
    ensures
        match r {
            Ok(spots) => spec_locate(texts_view(texts@), needle@, options) == Some(spots_view(spots@)),
            Err(_) => spec_locate(texts_view(texts@), needle@, options) is None,
        },
{
    let ghost ts = texts_view(texts@);
    let mut out: Vec<Spot> = Vec::new();
    if needle.is_empty() {
        assert(spots_view(out@) =~= Seq::<(int, int, int)>::empty());
        return Ok(out);
    }
    if texts.len() == 0 {
        return Err(ProbeBroken);
    }
    let mut i: usize = 0;
    while i < texts.len()
        invariant
            i <= texts@.len(),
            ts == texts_view(texts@),
            spots_view(out@) == spots_upto(ts, i as int, needle@, options),
        decreases texts@.len() - i,
    {
        assert(ts[i as int] == texts@[i as int]@);
        spots_of(i, texts[i].as_str(), needle, options, &mut out);
        i += 1;
    }
    Ok(out)
}

} // verus!
