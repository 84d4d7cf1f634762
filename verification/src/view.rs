//! Decisions of the viewer's window that do not depend on drawing: the view
//! mode, the search and walking its matches, the search status line, the
//! heading the reader is in, what a frame's requests change, Russian
//! plural forms.

use vstd::prelude::*;
use vstd::string::*;
use vstd::utf8::*;

use crate::outline::{decimal, spec_decimal, Heading, HeadingView, headings_view};
use crate::platform::{spec_extensions, EXTENSIONS};
use crate::text::push_char;
use crate::outline::{plain_text, spec_plain};
use crate::markdown::spec_events;
use crate::search::{spec_find, spec_haystack, Haystack, Options};

use std::ops::Range;

verus! {

broadcast use vstd::utf8::group_utf8_lib;

/// How the document is shown.
#[derive(Debug, Clone, Copy, PartialEq, Eq, Structural)]
pub enum ViewMode {
    Rendered,
    Source,
}

/// The other mode.
pub open spec fn spec_flipped(mode: ViewMode) -> ViewMode {
    match mode {
        ViewMode::Rendered => ViewMode::Source,
        ViewMode::Source => ViewMode::Rendered,
    }
}

impl ViewMode {
    /// The other mode.
    pub fn flipped(self) -> (r: Self)
        ensures
            r == spec_flipped(self),
    {
        match self {
            ViewMode::Rendered => ViewMode::Source,
            ViewMode::Source => ViewMode::Rendered,
        }
    }

    /// The mode's segment in the mode switch.
    pub fn segment(self) -> (r: usize)
        ensures
            r == match self {
                ViewMode::Rendered => 0usize,
                ViewMode::Source => 1usize,
            },
    {
        match self {
            ViewMode::Rendered => 0,
            ViewMode::Source => 1,
        }
    }
}

/// Flipping twice gives the mode back, and flipping always changes it.
pub proof fn lemma_flip_twice(mode: ViewMode)
    ensures
        spec_flipped(mode) != mode,
        spec_flipped(spec_flipped(mode)) == mode,
{
}

// ---------------------------------------------------------------------
// Plural forms
// ---------------------------------------------------------------------

/// Which of the three Russian forms a count takes: decided by the last two
/// digits. 21 строка but 11 строк; 22 строки but 12 строк.
pub open spec fn spec_plural<T>(count: nat, one: T, few: T, many: T) -> T {
    let hundreds = count % 100;
    let tens = count % 10;
    if 11 <= hundreds <= 14 {
        many
    } else if tens == 1 {
        one
    } else if 2 <= tens <= 4 {
        few
    } else {
        many
    }
}

/// Picks the form of a word for `count`; the forms are given, so that the
/// function knows nothing of particular words.
pub fn plural(count: usize, one: &'static str, few: &'static str, many: &'static str) -> (r: &'static str)
    ensures
        r == spec_plural(count as nat, one, few, many),
{
    let hundreds = count % 100;
    let tens = count % 10;
    if 11 <= hundreds && hundreds <= 14 {
        many
    } else if tens == 1 {
        one
    } else if 2 <= tens && tens <= 4 {
        few
    } else {
        many
    }
}

/// The form depends on the last two digits only.
pub proof fn lemma_plural_last_two_digits<T>(count: nat, one: T, few: T, many: T)
    ensures
        spec_plural(count, one, few, many) == spec_plural(count % 100, one, few, many),
{
    assert((count % 100) % 100 == count % 100) by (nonlinear_arith);
    assert((count % 100) % 10 == count % 10) by (nonlinear_arith);
}

// ---------------------------------------------------------------------
// Walking the matches
// ---------------------------------------------------------------------

/// The match that comes after (`forward`) or before the `current` one
/// among `len`, wrapping around at both ends.
pub open spec fn spec_step(current: nat, len: nat, forward: bool) -> nat {
    if len == 0 {
        current
    } else if forward {
        if current >= len - 1 {
            0
        } else {
            current + 1
        }
    } else if current == 0 {
        (len - 1) as nat
    } else {
        (current - 1) as nat
    }
}

/// Stepping forward and then back, or back and then forward, returns to the
/// same match.
pub proof fn lemma_step_back_undoes(current: nat, len: nat)
    requires
        current < len,
    ensures
        spec_step(spec_step(current, len, true), len, false) == current,
        spec_step(spec_step(current, len, false), len, true) == current,
{
}

/// The matches of the current search and which of them is current.
pub struct SearchCursor {
    matches: Vec<Range<usize>>,
    current: usize,
}

/// What a [`SearchCursor`] holds.
pub struct SearchCursorView {
    pub matches: Seq<(int, int)>,
    pub current: nat,
}

impl View for SearchCursor {
    type V = SearchCursorView;

    closed spec fn view(&self) -> SearchCursorView {
        SearchCursorView {
            matches: crate::search::pairs(self.matches@),
            current: self.current as nat,
        }
    }
}

/// The current match is one of the matches; with none, the index is zero.
pub open spec fn cursor_wf(v: SearchCursorView) -> bool {
    if v.matches.len() == 0 {
        v.current == 0
    } else {
        v.current < v.matches.len()
    }
}

impl SearchCursor {
    /// The current match is one of the matches; with none, it is the first.
    pub open spec fn wf(&self) -> bool {
        cursor_wf(self@)
    }

    /// No matches.
    pub fn new() -> (r: SearchCursor)
        ensures
            r@.matches.len() == 0,
            r@.current == 0,
            r.wf(),
    {
        SearchCursor { matches: Vec::new(), current: 0 }
    }

    /// Takes the matches of a new search; the current match stays where it
    /// was when it still exists, else moves to the last one.
    pub fn set_matches(&mut self, matches: Vec<Range<usize>>)
        ensures
            final(self)@.matches == crate::search::pairs(matches@),
            final(self)@.current == if matches@.len() == 0 {
                0
            } else if old(self)@.current < matches@.len() {
                old(self)@.current
            } else {
                (matches@.len() - 1) as nat
            },
            final(self).wf(),
    {
        let last = if matches.len() == 0 {
            0
        } else {
            matches.len() - 1
        };
        self.current = if self.current < last {
            self.current
        } else {
            last
        };
        self.matches = matches;
    }

    /// Goes back to the first match, as when the query changes.
    pub fn rewind(&mut self)
        ensures
            final(self)@.matches == old(self)@.matches,
            final(self)@.current == 0,
            final(self).wf(),
    {
        self.current = 0;
    }

    /// Forgets the matches, as when another file is opened.
    pub fn clear(&mut self)
        ensures
            final(self)@.matches.len() == 0,
            final(self)@.current == 0,
            final(self).wf(),
    {
        self.matches = Vec::new();
        self.current = 0;
    }

    /// Moves to the next (`forward`) or previous match, wrapping around.
    pub fn step(&mut self, forward: bool)
        requires
            old(self).wf(),
        ensures
            final(self)@.matches == old(self)@.matches,
            final(self)@.current == spec_step(old(self)@.current, old(self)@.matches.len(), forward),
            final(self).wf(),
    {
        if self.matches.len() == 0 {
            return;
        }
        let last = self.matches.len() - 1;
        self.current = if forward {
            if self.current >= last {
                0
            } else {
                self.current + 1
            }
        } else if self.current == 0 {
            last
        } else {
            self.current - 1
        };
    }

    /// The matches, in ascending order.
    pub fn matches(&self) -> (r: &[Range<usize>])
        ensures
            crate::search::pairs(r@) == self@.matches,
    {
        self.matches.as_slice()
    }

    /// How many matches there are.
    pub fn len(&self) -> (r: usize)
        ensures
            r == self@.matches.len(),
    {
        self.matches.len()
    }

    /// The index of the current match.
    pub fn current(&self) -> (r: usize)
        ensures
            r == self@.current,
    {
        self.current
    }

    /// The current match, if there is any.
    pub fn current_match(&self) -> (r: Option<Range<usize>>)
        requires
            self.wf(),
        ensures
            match r {
                Some(m) => self@.matches.len() > 0 && (m.start as int, m.end as int)
                    == self@.matches[self@.current as int],
                None => self@.matches.len() == 0,
            },
    {
        if self.matches.len() == 0 {
            None
        } else {
            let m = &self.matches[self.current];
            Some(Range { start: m.start, end: m.end })
        }
    }
}

// ---------------------------------------------------------------------
// The search status line
// ---------------------------------------------------------------------

/// What the status line next to the search field shows.
pub struct SearchStatus {
    /// The text.
    pub label: String,
    /// Shown dimmed: nothing found yet, or nothing to find.
    pub weak: bool,
    /// A longer explanation on hover.
    pub hint: Option<String>,
}

/// Where the search looks in each mode.
pub open spec fn spec_scope(mode: ViewMode) -> Seq<char> {
    match mode {
        ViewMode::Rendered => "в тексте"@,
        ViewMode::Source => "в исходнике"@,
    }
}

/// The explanation when highlighting in the rendered view stopped working.
pub open spec fn broken_probe_hint() -> Seq<char> {
    "Подсветка в режиме «Рендер» опирается на внутреннее устройство egui и перестала работать — вероятно, после обновления библиотеки. Счётчик и переходы при этом верны. В режиме «Исходник» подсветка есть."@
}

/// The explanation when `missed` matches could not be highlighted.
pub open spec fn missed_hint(missed: nat) -> Seq<char> {
    spec_decimal(missed) + " "@ + spec_plural(missed, "совпадение"@, "совпадения"@, "совпадений"@)
        + " попало внутрь разметки — жирного текста, кода или ссылки. Такое совпадение рисуется двумя отдельными кусками, и подсветить его целиком нельзя. В счётчике и переходах оно учтено. В режиме «Исходник» подсвечивается всё."@
}

/// How many matches went without highlight.
pub open spec fn missed_count(total: nat, highlighted: nat) -> nat {
    if total > highlighted {
        (total - highlighted) as nat
    } else {
        0
    }
}

/// The status line: the scope alone before a query; "нет совпадений" when
/// nothing was found; else "k из n", and in the rendered view a note when
/// highlighting is broken or missed some matches.
pub open spec fn spec_status(
    query_empty: bool,
    cursor: SearchCursorView,
    mode: ViewMode,
    probe_broken: bool,
    highlighted: nat,
) -> (Seq<char>, bool, Option<Seq<char>>) {
    let scope = spec_scope(mode);
    let total = cursor.matches.len();
    if query_empty {
        (scope, true, None)
    } else if total == 0 {
        ("нет совпадений · "@ + scope, true, None)
    } else {
        let counter = spec_decimal(cursor.current + 1) + " из "@ + spec_decimal(total) + " · "@ + scope;
        if mode == ViewMode::Rendered && probe_broken {
            (counter + " · подсветка не работает"@, false, Some(broken_probe_hint()))
        } else if mode == ViewMode::Rendered && missed_count(total, highlighted) > 0 {
            let missed = missed_count(total, highlighted);
            (counter + " · "@ + spec_decimal(missed) + " без подсветки"@, false, Some(missed_hint(missed)))
        } else {
            (counter, false, None)
        }
    }
}

/// The view of a status.
pub open spec fn status_view(s: SearchStatus) -> (Seq<char>, bool, Option<Seq<char>>) {
    (
        s.label@,
        s.weak,
        match s.hint {
            Some(h) => Some(h@),
            None => None,
        },
    )
}

/// Where the search looks, as text.
fn scope(mode: ViewMode) -> (r: &'static str)
    ensures
        r@ == spec_scope(mode),
{
    match mode {
        ViewMode::Rendered => "в тексте",
        ViewMode::Source => "в исходнике",
    }
}

/// Builds the status line (see [`spec_status`]). `highlighted` is how many
/// matches the rendered view managed to highlight.
pub fn search_status(
    query_empty: bool,
    cursor: &SearchCursor,
    mode: ViewMode,
    probe_broken: bool,
    highlighted: usize,
) -> (r: SearchStatus)
    requires
        cursor.wf(),
    ensures
        status_view(r) == spec_status(query_empty, cursor@, mode, probe_broken, highlighted as nat),
{
    let where_ = scope(mode);
    if query_empty {
        return SearchStatus { label: where_.to_owned(), weak: true, hint: None };
    }
    let total = cursor.len();
    if total == 0 {
        let mut label = String::new();
        label.append("нет совпадений · ");
        label.append(where_);
        return SearchStatus { label, weak: true, hint: None };
    }
    let mut label = String::new();
    let position = decimal(cursor.current() + 1);
    label.append(position.as_str());
    label.append(" из ");
    let count = decimal(total);
    label.append(count.as_str());
    label.append(" · ");
    label.append(where_);
    let ghost counter = label@;
    assert(counter =~= spec_decimal(cursor@.current + 1) + " из "@ + spec_decimal(total as nat) + " · "@
        + spec_scope(mode));
    if mode == ViewMode::Rendered && probe_broken {
        label.append(" · подсветка не работает");
        let hint = "Подсветка в режиме «Рендер» опирается на внутреннее устройство egui и перестала работать — вероятно, после обновления библиотеки. Счётчик и переходы при этом верны. В режиме «Исходник» подсветка есть.".to_owned();
        return SearchStatus { label, weak: false, hint: Some(hint) };
    }
    let missed = if total > highlighted {
        total - highlighted
    } else {
        0
    };
    if mode == ViewMode::Rendered && missed > 0 {
        let number = decimal(missed);
        label.append(" · ");
        label.append(number.as_str());
        label.append(" без подсветки");
        let mut hint = String::new();
        hint.append(number.as_str());
        hint.append(" ");
        hint.append(plural(missed, "совпадение", "совпадения", "совпадений"));
        hint.append(" попало внутрь разметки — жирного текста, кода или ссылки. Такое совпадение рисуется двумя отдельными кусками, и подсветить его целиком нельзя. В счётчике и переходах оно учтено. В режиме «Исходник» подсвечивается всё.");
        assert(label@ =~= counter + " · "@ + spec_decimal(missed as nat) + " без подсветки"@);
        assert(hint@ =~= missed_hint(missed as nat));
        return SearchStatus { label, weak: false, hint: Some(hint) };
    }
    SearchStatus { label, weak: false, hint: None }
}

// ---------------------------------------------------------------------
// Where the reader is
// ---------------------------------------------------------------------

/// Headings in order of their lines.
pub open spec fn lines_sorted(hs: Seq<HeadingView>) -> bool {
    forall|i: int, j: int| 0 <= i <= j < hs.len() ==> (#[trigger] hs[i]).line <= (#[trigger] hs[j]).line
}

/// How many of the headings `hs` sit at or above `line`.
pub open spec fn headings_upto(hs: Seq<HeadingView>, line: int) -> nat
    decreases hs.len(),
{
    if hs.len() == 0 {
        0
    } else {
        headings_upto(hs.drop_last(), line) + if hs.last().line <= line {
            1nat
        } else {
            0nat
        }
    }
}

/// The heading whose section holds `line`: the last one at or above it.
pub open spec fn spec_current_heading(hs: Seq<HeadingView>, line: int) -> Option<int> {
    let k = headings_upto(hs, line);
    if k == 0 {
        None
    } else {
        Some(k - 1)
    }
}

proof fn lemma_headings_upto_partition(hs: Seq<HeadingView>, line: int, p: int)
    requires
        0 <= p <= hs.len(),
        forall|i: int| 0 <= i < p ==> (#[trigger] hs[i]).line <= line,
        forall|i: int| p <= i < hs.len() ==> (#[trigger] hs[i]).line > line,
    ensures
        headings_upto(hs, line) == p,
    decreases hs.len(),
{
    if hs.len() > 0 {
        if p == hs.len() {
            lemma_headings_upto_partition(hs.drop_last(), line, p - 1);
        } else {
            lemma_headings_upto_partition(hs.drop_last(), line, p);
        }
    }
}

/// The heading in whose section `line` lies, counted from the line rather
/// than from the last click, so that scrolling and jumping to a match do
/// not fight over the highlight.
pub fn current_heading(headings: &[Heading], line: usize) -> (r: Option<usize>)
    requires
        lines_sorted(headings_view(headings@)),
    ensures
        match r {
            Some(i) => spec_current_heading(headings_view(headings@), line as int) == Some(i as int),
            None => spec_current_heading(headings_view(headings@), line as int) is None,
        },
{
    let ghost hs = headings_view(headings@);
    let mut lo: usize = 0;
    let mut hi: usize = headings.len();
    while lo < hi
        invariant
            lo <= hi <= headings@.len(),
            hs == headings_view(headings@),
            lines_sorted(hs),
            forall|i: int| 0 <= i < lo ==> (#[trigger] hs[i]).line <= line,
            forall|i: int| hi <= i < hs.len() ==> (#[trigger] hs[i]).line > line,
        decreases hi - lo,
    {
        let mid = lo + (hi - lo) / 2;
        assert(hs[mid as int].line == headings@[mid as int].line);
        if headings[mid].line <= line {
            assert forall|i: int| 0 <= i <= mid implies (#[trigger] hs[i]).line <= line by {
                assert(hs[i].line <= hs[mid as int].line);
            }
            lo = mid + 1;
        } else {
            assert forall|i: int| mid <= i < hs.len() implies (#[trigger] hs[i]).line > line by {
                assert(hs[mid as int].line <= hs[i].line);
            }
            hi = mid;
        }
    }
    proof {
        lemma_headings_upto_partition(hs, line as int, lo as int);
    }
    if lo == 0 {
        None
    } else {
        Some(lo - 1)
    }
}

// ---------------------------------------------------------------------
// The extension list
// ---------------------------------------------------------------------

/// The extensions written with their dot, joined by commas, the last one by
/// "и": ".md и .markdown".
pub open spec fn spec_extension_list(exts: Seq<Seq<char>>) -> Seq<char> {
    if exts.len() == 0 {
        Seq::empty()
    } else if exts.len() == 1 {
        seq!['.'] + exts[0]
    } else {
        comma_joined(exts.drop_last()) + " и ."@ + exts.last()
    }
}

/// The extensions with their dots, joined by ", ".
pub open spec fn comma_joined(exts: Seq<Seq<char>>) -> Seq<char>
    decreases exts.len(),
{
    if exts.len() == 0 {
        Seq::empty()
    } else if exts.len() == 1 {
        seq!['.'] + exts[0]
    } else {
        comma_joined(exts.drop_last()) + ", ."@ + exts.last()
    }
}

/// The extensions the viewer claims, for the About window. Built from the
/// same constant as the registration, so the text and the behaviour cannot
/// part.
pub fn extension_list() -> (r: String)
    ensures
        r@ == spec_extension_list(spec_extensions()),
{
    let exts = EXTENSIONS;
    let ghost names = spec_extensions();
    proof {
        reveal_strlit("md");
        reveal_strlit("markdown");
    }
    assert(exts@.len() == names.len());
    assert(forall|k: int| 0 <= k < names.len() ==> (#[trigger] exts@[k])@ == names[k]);
    let n = exts.len();
    let mut out = String::new();
    if n == 0 {
        return out;
    }
    let mut i: usize = 0;
    while i + 1 < n
        invariant
            n == exts@.len() == names.len(),
            forall|k: int| 0 <= k < names.len() ==> (#[trigger] exts@[k])@ == names[k],
            i < n,
            out@ == comma_joined(names.take(i as int)),
        decreases n - i,
    {
        let ghost before = out@;
        if i > 0 {
            out.append(", ");
        }
        push_char(&mut out, '.');
        out.append(exts[i]);
        proof {
            reveal_strlit(", ");
            assert(names.take(i + 1).drop_last() =~= names.take(i as int));
            if i == 0 {
                assert(out@ =~= comma_joined(names.take(1)));
            } else {
                assert(out@ =~= before + ", ."@ + names[i as int]);
            }
        }
        i += 1;
    }
    assert(names.take(i as int) =~= names.drop_last());
    if n == 1 {
        push_char(&mut out, '.');
        out.append(exts[0]);
        assert(out@ =~= seq!['.'] + names[0]);
    } else {
        let ghost before = out@;
        out.append(" и .");
        out.append(exts[n - 1]);
        proof {
            reveal_strlit(" и .");
        }
        assert(out@ =~= before + " и ."@ + names.last());
    }
    out
}

// ---------------------------------------------------------------------
// Choices made when a file opens
// ---------------------------------------------------------------------

impl ViewMode {
    /// The mode a freshly opened file is shown in: rendered when it is
    /// Markdown and small enough, else as source. Rendering `Cargo.toml`
    /// makes no sense, and rendering a huge file would eat hundreds of
    /// megabytes; either way switching by hand stays possible.
    pub fn for_document(is_markdown: bool, is_large: bool) -> (r: ViewMode)
        ensures
            r == if is_markdown && !is_large {
                ViewMode::Rendered
            } else {
                ViewMode::Source
            },
    {
        if is_markdown && !is_large {
            ViewMode::Rendered
        } else {
            ViewMode::Source
        }
    }
}

/// The window title: the file's name and the program's, or the program's
/// alone.
pub open spec fn spec_window_title(file: Option<Seq<char>>) -> Seq<char> {
    match file {
        Some(name) => name + " — MdGlimpse"@,
        None => "MdGlimpse"@,
    }
}

/// Builds [`spec_window_title`].
pub fn window_title(file: Option<&str>) -> (r: String)
    ensures
        r@ == spec_window_title(crate::platform::opt_view(file)),
{
    match file {
        Some(name) => {
            let mut out = String::new();
            out.append(name);
            out.append(" — MdGlimpse");
            out
        },
        None => "MdGlimpse".to_owned(),
    }
}

/// The notice shown when several files were asked for: only the first one
/// opens, and the others are not silently lost.
pub open spec fn spec_extra_files_notice(first: Seq<char>, rest: nat) -> Seq<char> {
    "Открыт только «"@ + first + "». Ещё "@ + spec_decimal(rest) + " "@ + spec_plural(
        rest,
        "файл"@,
        "файла"@,
        "файлов"@,
    ) + " осталось неоткрытым: вкладок в MdGlimpse пока нет, откройте их по одному."@
}

/// Builds [`spec_extra_files_notice`] for the first file's name and the
/// number of the others.
pub fn extra_files_notice(first: &str, rest: usize) -> (r: String)
    ensures
        r@ == spec_extra_files_notice(first@, rest as nat),
{
    let mut out = String::new();
    out.append("Открыт только «");
    out.append(first);
    out.append("». Ещё ");
    let count = decimal(rest);
    out.append(count.as_str());
    out.append(" ");
    out.append(plural(rest, "файл", "файла", "файлов"));
    out.append(" осталось неоткрытым: вкладок в MdGlimpse пока нет, откройте их по одному.");
    out
}

// ---------------------------------------------------------------------
// Highlighting matches in the source view
// ---------------------------------------------------------------------

/// How a piece of a line is drawn.
#[derive(Debug, Clone, Copy, PartialEq, Eq, Structural)]
pub enum PieceStyle {
    /// Ordinary text.
    Plain,
    /// A search match.
    Match,
    /// The current search match.
    Current,
}

/// A piece of a line: its byte range in the source and its style.
#[derive(Debug, Clone, Copy, PartialEq, Eq, Structural)]
pub struct Piece {
    pub start: usize,
    pub end: usize,
    pub style: PieceStyle,
}

/// The pieces of the line `a..b` from match `k` on, the text before
/// `cursor` already drawn: for each match that reaches into the line, the
/// plain text before it and the match itself, clipped to the line; then
/// the rest of the line.
pub open spec fn pieces_from(
    ms: Seq<(int, int)>,
    current: int,
    a: int,
    b: int,
    k: int,
    cursor: int,
) -> Seq<(int, int, PieceStyle)>
    decreases ms.len() - k,
{
    if k < 0 || k >= ms.len() || ms[k].0 >= b {
        if cursor < b {
            seq![(cursor, b, PieceStyle::Plain)]
        } else {
            Seq::empty()
        }
    } else {
        let start = if ms[k].0 > a {
            ms[k].0
        } else {
            a
        };
        let end = if ms[k].1 < b {
            ms[k].1
        } else {
            b
        };
        let gap = if start > cursor {
            seq![(cursor, start, PieceStyle::Plain)]
        } else {
            Seq::empty()
        };
        let style = if k == current {
            PieceStyle::Current
        } else {
            PieceStyle::Match
        };
        gap + seq![(start, end, style)] + pieces_from(ms, current, a, b, k + 1, end)
    }
}

/// How many matches end at or before `a`: they all come first, since ends
/// ascend.
pub open spec fn ended_before(ms: Seq<(int, int)>, a: int) -> nat
    decreases ms.len(),
{
    if ms.len() == 0 {
        0
    } else {
        ended_before(ms.drop_last(), a) + if ms.last().1 <= a {
            1nat
        } else {
            0nat
        }
    }
}

/// The pieces of the line `a..b`, given the matches `ms` and the index of
/// the current one.
pub open spec fn spec_pieces(ms: Seq<(int, int)>, current: int, a: int, b: int) -> Seq<(int, int, PieceStyle)> {
    pieces_from(ms, current, a, b, ended_before(ms, a) as int, a)
}

/// The triples of a list of pieces.
pub open spec fn pieces_view(v: Seq<Piece>) -> Seq<(int, int, PieceStyle)> {
    v.map_values(|p: Piece| (p.start as int, p.end as int, p.style))
}

proof fn lemma_ended_before_partition(ms: Seq<(int, int)>, a: int, p: int)
    requires
        0 <= p <= ms.len(),
        forall|i: int| 0 <= i < p ==> (#[trigger] ms[i]).1 <= a,
        forall|i: int| p <= i < ms.len() ==> (#[trigger] ms[i]).1 > a,
    ensures
        ended_before(ms, a) == p,
    decreases ms.len(),
{
    if ms.len() > 0 {
        if p == ms.len() {
            lemma_ended_before_partition(ms.drop_last(), a, p - 1);
        } else {
            lemma_ended_before_partition(ms.drop_last(), a, p);
        }
    }
}

/// Splits the line `line` (a byte range of the source) into pieces to draw:
/// plain text, matches, and the current match. The matches are sorted, so
/// the first one that reaches the line is found by binary search rather
/// than by walking a list that runs to tens of thousands on a large file.
pub fn line_pieces(line: &Range<usize>, matches: &[Range<usize>], current: usize) -> (r: Vec<Piece>)
    requires
        line.start <= line.end,
        crate::search::ends_ascending(crate::search::pairs(matches@)),
    ensures
        pieces_view(r@) == spec_pieces(crate::search::pairs(matches@), current as int, line.start as int, line.end as int),
{
    let ghost ms = crate::search::pairs(matches@);
    let a = line.start;
    let b = line.end;
    let mut lo: usize = 0;
    let mut hi: usize = matches.len();
    while lo < hi
        invariant
            lo <= hi <= matches@.len(),
            ms == crate::search::pairs(matches@),
            crate::search::ends_ascending(ms),
            forall|i: int| 0 <= i < lo ==> (#[trigger] ms[i]).1 <= a,
            forall|i: int| hi <= i < ms.len() ==> (#[trigger] ms[i]).1 > a,
        decreases hi - lo,
    {
        let mid = lo + (hi - lo) / 2;
        assert(ms[mid as int] == (matches@[mid as int].start as int, matches@[mid as int].end as int));
        if matches[mid].end <= a {
            assert forall|i: int| 0 <= i <= mid implies (#[trigger] ms[i]).1 <= a by {
                if i < mid {
                    assert(ms[i].1 <= ms[mid as int].1);
                }
            }
            lo = mid + 1;
        } else {
            assert forall|i: int| mid <= i < ms.len() implies (#[trigger] ms[i]).1 > a by {
                if i > mid {
                    assert(ms[mid as int].1 <= ms[i].1);
                }
            }
            hi = mid;
        }
    }
    proof {
        lemma_ended_before_partition(ms, a as int, lo as int);
    }
    let mut out: Vec<Piece> = Vec::new();
    let mut k: usize = lo;
    let mut cursor: usize = a;
    while k < matches.len() && matches[k].start < b
        invariant
            lo <= k <= matches@.len(),
            ms == crate::search::pairs(matches@),
            crate::search::ends_ascending(ms),
            a <= b,
            forall|i: int| lo <= i < ms.len() ==> (#[trigger] ms[i]).1 > a,
            a <= cursor,
            pieces_view(out@) + pieces_from(ms, current as int, a as int, b as int, k as int, cursor as int)
                == spec_pieces(ms, current as int, a as int, b as int),
        decreases matches@.len() - k,
    {
        let found = &matches[k];
        assert(ms[k as int] == (found.start as int, found.end as int));
        let start = if found.start > a {
            found.start
        } else {
            a
        };
        let end = if found.end < b {
            found.end
        } else {
            b
        };
        let ghost before = pieces_view(out@);
        if start > cursor {
            out.push(Piece { start: cursor, end: start, style: PieceStyle::Plain });
        }
        let style = if k == current {
            PieceStyle::Current
        } else {
            PieceStyle::Match
        };
        out.push(Piece { start, end, style });
        let ghost gap = if start > cursor {
            seq![(cursor as int, start as int, PieceStyle::Plain)]
        } else {
            Seq::<(int, int, PieceStyle)>::empty()
        };
        assert(pieces_view(out@) =~= before + gap + seq![(start as int, end as int, style)]);
        assert(pieces_from(ms, current as int, a as int, b as int, k as int, cursor as int) == gap + seq![
            (start as int, end as int, style),
        ] + pieces_from(ms, current as int, a as int, b as int, k + 1, end as int));
        assert(pieces_view(out@) + pieces_from(ms, current as int, a as int, b as int, k + 1, end as int)
            =~= before + pieces_from(ms, current as int, a as int, b as int, k as int, cursor as int));
        cursor = end;
        k += 1;
    }
    let ghost before = pieces_view(out@);
    if cursor < b {
        out.push(Piece { start: cursor, end: b, style: PieceStyle::Plain });
        assert(pieces_view(out@) =~= before + seq![(cursor as int, b as int, PieceStyle::Plain)]);
    }
    out
}

// ---------------------------------------------------------------------
// Scrolling to a match
// ---------------------------------------------------------------------

/// The heading to scroll to for a match in the rendered view's plain text:
/// the last heading with an anchor and a non-empty text that occurs in the
/// plain text before the match. The plain text carries no line numbers of
/// the source, but its headings come in the same order.
pub open spec fn spec_heading_before(hs: Seq<HeadingView>, before: Seq<char>) -> Option<Seq<char>>
    decreases hs.len(),
{
    if hs.len() == 0 {
        None
    } else {
        let h = hs.last();
        if h.slug.len() > 0 && h.text.len() > 0 && crate::document::occurs_in(before, h.text) {
            Some(h.slug)
        } else {
            spec_heading_before(hs.drop_last(), before)
        }
    }
}

/// Finds [`spec_heading_before`] for the match starting at byte `offset`
/// of the plain text.
pub fn heading_before(headings: &[Heading], plain: &str, offset: usize) -> (r: Option<String>)
    requires
        offset <= plain.spec_bytes().len(),
        is_char_boundary(plain.spec_bytes(), offset as int),
    ensures
        ({
            let before = decode_utf8(plain.spec_bytes().subrange(0, offset as int));
            match r {
                Some(slug) => spec_heading_before(headings_view(headings@), before) == Some(slug@),
                None => spec_heading_before(headings_view(headings@), before) is None,
            }
        }),
{
    proof {
        is_char_boundary_start_end_of_seq(plain.spec_bytes());
    }
    let head = crate::text::substring(plain, 0, offset);
    proof {
        encode_utf8_decode_utf8(head@);
    }
    let before = crate::unicode::chars_of(head);
    let ghost hs = headings_view(headings@);
    let mut k: usize = headings.len();
    assert(hs.take(k as int) =~= hs);
    assert(decode_utf8(plain.spec_bytes().subrange(0, offset as int)) == head@);
    while k > 0
        invariant
            k <= headings@.len(),
            decode_utf8(plain.spec_bytes().subrange(0, offset as int)) == head@,
            hs == headings_view(headings@),
            before@ == head@,
            spec_heading_before(hs, head@) == spec_heading_before(hs.take(k as int), head@),
        decreases k,
    {
        let h = &headings[k - 1];
        assert(hs.take(k as int).last() == h@);
        assert(hs.take(k as int).drop_last() =~= hs.take(k - 1));
        if !h.slug.as_str().is_empty() && !h.text.as_str().is_empty() {
            let text = crate::unicode::chars_of(h.text.as_str());
            if crate::document::contains_chars(&before, text.as_slice()) {
                assert(crate::document::occurs_in(head@, h.text@));
                assert(spec_heading_before(hs.take(k as int), head@) == Some(h.slug@));
                return Some(h.slug.clone());
            }
        }
        k -= 1;
    }
    assert(hs.take(0) =~= Seq::<HeadingView>::empty());
    None
}

// ---------------------------------------------------------------------
// Jumping from the outline
// ---------------------------------------------------------------------

/// Where a click on a heading in the outline leads.
#[derive(Debug, PartialEq, Eq)]
pub enum OutlineJump {
    /// Scroll the source view to this line.
    Line(usize),
    /// Ask the renderer to scroll to this anchor.
    Anchor(String),
    /// The heading has no anchor: an underlined heading can be reached in
    /// the source view only.
    NoAnchor,
}

/// Decides where a click on `heading` leads in `mode`: the rendered view
/// scrolls to the anchor written after the heading, the source view to the
/// heading's line.
pub fn outline_jump(heading: &Heading, mode: ViewMode) -> (r: OutlineJump)
    ensures
        match mode {
            ViewMode::Source => r == OutlineJump::Line(heading.line),
            ViewMode::Rendered => if heading.slug@.len() == 0 {
                r == OutlineJump::NoAnchor
            } else {
                r matches OutlineJump::Anchor(a) && a@ == heading.slug@
            },
        },
{
    match mode {
        ViewMode::Rendered => {
            if heading.slug.as_str().is_empty() {
                OutlineJump::NoAnchor
            } else {
                OutlineJump::Anchor(heading.slug.clone())
            }
        },
        ViewMode::Source => OutlineJump::Line(heading.line),
    }
}

// ---------------------------------------------------------------------
// Registering with the system
// ---------------------------------------------------------------------

/// What the person is told after registering (`register`) or removing the
/// registration: success names the extensions, and on Windows explains
/// that choosing the default handler is left to the person; failure gives
/// the system's message.
pub open spec fn spec_association_notice(register: bool, failure: Option<Seq<char>>) -> Seq<char> {
    let list = spec_extension_list(spec_extensions());
    match failure {
        Some(message) => "Не получилось: "@ + message,
        None => if register {
            "MdGlimpse зарегистрирован для "@ + list
                + ". Чтобы открывать их двойным щелчком, выберите MdGlimpse в «Открыть с помощью» и отметьте «Всегда использовать»: сделать это за вас программа не может — Windows оставляет выбор за человеком."@
        } else {
            "Регистрация для "@ + list + " снята."@
        },
    }
}

/// Builds [`spec_association_notice`] from the outcome of the attempt.
pub fn association_notice(register: bool, outcome: &Result<(), crate::platform::Error>) -> (r: String)
    ensures
        r@ == spec_association_notice(
            register,
            match outcome {
                Ok(_) => None,
                Err(e) => Some(
                    match e {
                        crate::platform::Error::Unsupported => "на этой системе ассоциация файлов не поддерживается"@,
                        crate::platform::Error::Os(text) => text@,
                    },
                ),
            },
        ),
{
    let mut out = String::new();
    match outcome {
        Err(error) => {
            out.append("Не получилось: ");
            let message = error.message();
            out.append(message.as_str());
        },
        Ok(()) => {
            let list = extension_list();
            if register {
                out.append("MdGlimpse зарегистрирован для ");
                out.append(list.as_str());
                out.append(". Чтобы открывать их двойным щелчком, выберите MdGlimpse в «Открыть с помощью» и отметьте «Всегда использовать»: сделать это за вас программа не может — Windows оставляет выбор за человеком.");
            } else {
                out.append("Регистрация для ");
                out.append(list.as_str());
                out.append(" снята.");
            }
        },
    }
    out
}


// ---------------------------------------------------------------------
// The search as a whole
// ---------------------------------------------------------------------

/// The text searched in `mode` for a document with text `source`: in the
/// source view the source itself, in the rendered view the plain text
/// extracted from it, since link addresses and markup are not on screen
/// there. The two counts differ, and that is the right answer.
pub open spec fn searched_text(source: Seq<char>, mode: ViewMode) -> Seq<char> {
    match mode {
        ViewMode::Rendered => spec_plain(spec_events(source)),
        ViewMode::Source => source,
    }
}

/// The matches of `query` under `options` in the text searched in `mode`.
pub open spec fn spec_search(source: Seq<char>, mode: ViewMode, query: Seq<char>, options: Options) -> Seq<(int, int)> {
    let text = searched_text(source, mode);
    spec_find(spec_haystack(text), text, query, options)
}

/// The current position kept when the matches change: the same index, or
/// the last match when there are fewer now.
pub open spec fn clamped(current: nat, len: nat) -> nat {
    if len == 0 {
        0
    } else if current < len {
        current
    } else {
        (len - 1) as nat
    }
}

/// A text prepared for searching in one mode: the document's text it was
/// made from, the plain text for the rendered view, and the haystack of
/// the text searched.
struct Prepared {
    mode: ViewMode,
    source: String,
    plain: String,
    haystack: Haystack,
}

/// The search of the window: the query, its options, the matches and the
/// current one.
///
/// Folding the case of the text costs about 28 ms on a 5 MB file, so the
/// prepared text is kept until the document or the mode changes; the
/// matches are recomputed only when the query, the options, the mode or
/// the document changed, not on every frame.
pub struct SearchState {
    /// What is looked for.
    pub query: String,
    /// How it is looked for.
    pub options: Options,
    cursor: SearchCursor,
    prepared: Option<Prepared>,
    computed_for: Option<(String, Options, ViewMode)>,
}

/// What a [`SearchState`] holds: the query and options, the cursor, the
/// document text and mode it is prepared for, and the query, options and
/// mode of the last computation.
pub struct SearchStateView {
    pub query: Seq<char>,
    pub options: Options,
    pub cursor: SearchCursorView,
    pub prepared: Option<(Seq<char>, ViewMode)>,
    pub computed_for: Option<(Seq<char>, Options, ViewMode)>,
}

impl View for SearchState {
    type V = SearchStateView;

    closed spec fn view(&self) -> SearchStateView {
        SearchStateView {
            query: self.query@,
            options: self.options,
            cursor: self.cursor@,
            prepared: match self.prepared {
                Some(p) => Some((p.source@, p.mode)),
                None => None,
            },
            computed_for: match self.computed_for {
                Some(c) => Some((c.0@, c.1, c.2)),
                None => None,
            },
        }
    }
}

impl SearchState {
    /// The prepared text belongs to its document and mode, and the matches
    /// are those of the last computation.
    pub closed spec fn wf(&self) -> bool {
        &&& self.cursor.wf()
        &&& match self.prepared {
            Some(p) => {
                &&& p.mode == ViewMode::Rendered ==> p.plain@ == spec_plain(spec_events(p.source@))
                &&& p.haystack@ == spec_haystack(searched_text(p.source@, p.mode))
            },
            None => true,
        }
        &&& match self.computed_for {
            Some(c) => {
                &&& self.prepared is Some
                &&& self.prepared.unwrap().mode == c.2
                &&& self.cursor@.matches == spec_search(self.prepared.unwrap().source@, c.2, c.0@, c.1)
            },
            None => self.cursor@.matches.len() == 0,
        }
    }

    /// Nothing looked for yet.
    pub fn new() -> (r: SearchState)
        ensures
            r.wf(),
            r@.query.len() == 0,
            r@.options == (Options { case_sensitive: false, whole_word: false }),
            r@.cursor.matches.len() == 0,
            r@.cursor.current == 0,
            r@.prepared is None,
            r@.computed_for is None,
    {
        SearchState {
            query: String::new(),
            options: Options { case_sensitive: false, whole_word: false },
            cursor: SearchCursor::new(),
            prepared: None,
            computed_for: None,
        }
    }

    /// The matches and the current one.
    pub fn cursor(&self) -> (r: &SearchCursor)
        requires
            self.wf(),
        ensures
            r@ == self@.cursor,
            r.wf(),
    {
        &self.cursor
    }

    /// Brings the matches up to date with the query, the options, the mode
    /// and the document's text `source`. The text is prepared again only
    /// when the mode or the document changed; when nothing changed at all,
    /// the matches and the position stay as they are.
    pub fn refresh(&mut self, source: &String, mode: ViewMode)
        requires
            old(self).wf(),
        ensures
            final(self).wf(),
            final(self)@.query == old(self)@.query,
            final(self)@.options == old(self)@.options,
            final(self)@.prepared == Some((source@, mode)),
            final(self)@.computed_for == Some((old(self)@.query, old(self)@.options, mode)),
            final(self)@.cursor.matches == spec_search(source@, mode, old(self)@.query, old(self)@.options),
            final(self)@.cursor.current == clamped(old(self)@.cursor.current, final(self)@.cursor.matches.len()),
            old(self)@.cursor.matches == final(self)@.cursor.matches ==> final(self)@.cursor == old(self)@.cursor,
    {
        let same_document = match &self.prepared {
            Some(p) => p.mode == mode && p.source == *source,
            None => false,
        };
        let same_inputs = match &self.computed_for {
            Some(c) => c.2 == mode && c.1 == self.options && c.0 == self.query,
            None => false,
        };
        if same_document && same_inputs {
            return;
        }
        if !same_document {
            let plain = match mode {
                ViewMode::Rendered => plain_text(source.as_str()),
                ViewMode::Source => String::new(),
            };
            let haystack = match mode {
                ViewMode::Rendered => Haystack::new(plain.as_str()),
                ViewMode::Source => Haystack::new(source.as_str()),
            };
            self.prepared = Some(Prepared { mode, source: source.as_str().to_owned(), plain, haystack });
        }
        let matches = match &self.prepared {
            Some(p) => match mode {
                ViewMode::Rendered => p.haystack.find_all(p.plain.as_str(), self.query.as_str(), self.options),
                ViewMode::Source => p.haystack.find_all(source.as_str(), self.query.as_str(), self.options),
            },
            None => Vec::new(),
        };
        self.cursor.set_matches(matches);
        self.computed_for = Some((self.query.clone(), self.options, mode));
        proof {
            assert(self.computed_for.unwrap().0@ == self.query@);
        }
    }

    /// The text that was searched: the plain text in the rendered view,
    /// else the document's text `source`.
    pub fn text<'a>(&'a self, source: &'a str) -> (r: &'a str)
        requires
            self.wf(),
        ensures
            r@ == match self@.prepared {
                Some((prepared, ViewMode::Rendered)) => spec_plain(spec_events(prepared)),
                _ => source@,
            },
    {
        match &self.prepared {
            Some(p) => match p.mode {
                ViewMode::Rendered => p.plain.as_str(),
                ViewMode::Source => source,
            },
            None => source,
        }
    }

    /// Moves to the next (`forward`) or previous match, wrapping around.
    pub fn step(&mut self, forward: bool)
        requires
            old(self).wf(),
        ensures
            final(self).wf(),
            final(self)@.query == old(self)@.query,
            final(self)@.options == old(self)@.options,
            final(self)@.prepared == old(self)@.prepared,
            final(self)@.computed_for == old(self)@.computed_for,
            final(self)@.cursor.matches == old(self)@.cursor.matches,
            final(self)@.cursor.current == spec_step(
                old(self)@.cursor.current,
                old(self)@.cursor.matches.len(),
                forward,
            ),
    {
        self.cursor.step(forward);
    }

    /// Goes back to the first match, as when the query changes.
    pub fn rewind(&mut self)
        requires
            old(self).wf(),
        ensures
            final(self).wf(),
            final(self)@.query == old(self)@.query,
            final(self)@.options == old(self)@.options,
            final(self)@.prepared == old(self)@.prepared,
            final(self)@.computed_for == old(self)@.computed_for,
            final(self)@.cursor.matches == old(self)@.cursor.matches,
            final(self)@.cursor.current == 0,
    {
        self.cursor.rewind();
    }

    /// Forgets the prepared text and the matches, as when another file is
    /// opened; the query and its options stay.
    pub fn invalidate(&mut self)
        ensures
            final(self).wf(),
            final(self)@.query == old(self)@.query,
            final(self)@.options == old(self)@.options,
            final(self)@.prepared is None,
            final(self)@.computed_for is None,
            final(self)@.cursor.matches.len() == 0,
            final(self)@.cursor.current == 0,
    {
        self.prepared = None;
        self.computed_for = None;
        self.cursor.clear();
    }
}



// ---------------------------------------------------------------------
// What the person asked for in one frame
// ---------------------------------------------------------------------

/// A colour theme chosen from the menu.
#[derive(Debug, Clone, Copy, PartialEq, Eq, Structural)]
pub enum ThemeChoice {
    Light,
    Dark,
    System,
}

/// A step of the interface zoom. An enum rather than a number: resetting
/// is not adding zero.
#[derive(Debug, Clone, Copy, PartialEq, Eq, Structural)]
pub enum Zoom {
    In,
    Out,
    Reset,
}

/// What the person asked for in this frame, from the keyboard, the toolbar
/// or the menu. Gathered first and carried out afterwards, once drawing no
/// longer holds the window's state.
#[derive(Debug, Clone, Copy, PartialEq, Eq, Structural)]
pub struct Actions {
    /// Show the open dialog.
    pub open: bool,
    /// Switch to the other view (Ctrl+E).
    pub toggle: bool,
    /// Switch to this view (a click on the mode switch).
    pub mode: Option<ViewMode>,
    /// Read the file again.
    pub reload: bool,
    /// Mark the whole document selected (Ctrl+A).
    pub select_all: bool,
    /// Copy the whole document.
    pub copy_all: bool,
    /// Show or hide the icon gallery.
    pub gallery: bool,
    /// Show or hide the outline panel.
    pub toggle_outline: bool,
    /// Open the recent file with this index.
    pub open_recent: Option<usize>,
    /// Empty the list of recent files.
    pub clear_recent: bool,
    /// Open the search and give it the focus.
    pub find: bool,
    /// Close the search.
    pub close_find: bool,
    /// Go to the next (`true`) or the previous match.
    pub step_match: Option<bool>,
    /// Turn watching the file on or off.
    pub watch: Option<bool>,
    /// Close the program.
    pub quit: bool,
    /// Choose a theme.
    pub theme: Option<ThemeChoice>,
    /// Change the zoom.
    pub zoom: Option<Zoom>,
    /// Open the About window.
    pub about: bool,
    /// Open the shortcuts window.
    pub shortcuts: bool,
    /// Register the program for `.md`.
    pub associate: bool,
    /// Remove the registration.
    pub unassociate: bool,
}

/// No request at all.
pub open spec fn no_actions() -> Actions {
    Actions {
        open: false,
        toggle: false,
        mode: None,
        reload: false,
        select_all: false,
        copy_all: false,
        gallery: false,
        toggle_outline: false,
        open_recent: None,
        clear_recent: false,
        find: false,
        close_find: false,
        step_match: None,
        watch: None,
        quit: false,
        theme: None,
        zoom: None,
        about: false,
        shortcuts: false,
        associate: false,
        unassociate: false,
    }
}

impl Default for Actions {
    /// No request at all.
    fn default() -> (r: Self)
        ensures
            r == no_actions(),
    {
        Actions {
            open: false,
            toggle: false,
            mode: None,
            reload: false,
            select_all: false,
            copy_all: false,
            gallery: false,
            toggle_outline: false,
            open_recent: None,
            clear_recent: false,
            find: false,
            close_find: false,
            step_match: None,
            watch: None,
            quit: false,
            theme: None,
            zoom: None,
            about: false,
            shortcuts: false,
            associate: false,
            unassociate: false,
        }
    }
}

/// The first of two optional values that is there.
pub open spec fn first_of<T>(a: Option<T>, b: Option<T>) -> Option<T> {
    match a {
        Some(x) => Some(x),
        None => b,
    }
}

fn or_else<T: Copy>(a: Option<T>, b: Option<T>) -> (r: Option<T>)
    ensures
        r == first_of(a, b),
{
    match a {
        Some(x) => Some(x),
        None => b,
    }
}

/// The requests of `a` and `b` together; where both choose a value, `a`'s
/// wins.
pub open spec fn spec_merge(a: Actions, b: Actions) -> Actions {
    Actions {
        open: a.open || b.open,
        toggle: a.toggle || b.toggle,
        mode: first_of(a.mode, b.mode),
        reload: a.reload || b.reload,
        select_all: a.select_all || b.select_all,
        copy_all: a.copy_all || b.copy_all,
        gallery: a.gallery || b.gallery,
        toggle_outline: a.toggle_outline || b.toggle_outline,
        open_recent: first_of(a.open_recent, b.open_recent),
        clear_recent: a.clear_recent || b.clear_recent,
        find: a.find || b.find,
        close_find: a.close_find || b.close_find,
        step_match: first_of(a.step_match, b.step_match),
        watch: first_of(a.watch, b.watch),
        quit: a.quit || b.quit,
        theme: first_of(a.theme, b.theme),
        zoom: first_of(a.zoom, b.zoom),
        about: a.about || b.about,
        shortcuts: a.shortcuts || b.shortcuts,
        associate: a.associate || b.associate,
        unassociate: a.unassociate || b.unassociate,
    }
}

impl Actions {
    /// Adds the requests of `other` (the toolbar's and the menu's) to these
    /// (the keyboard's); where both choose a value, these win.
    pub fn merge(self, other: Actions) -> (r: Actions)
        ensures
            r == spec_merge(self, other),
    {
        Actions {
            open: self.open || other.open,
            toggle: self.toggle || other.toggle,
            mode: or_else(self.mode, other.mode),
            reload: self.reload || other.reload,
            select_all: self.select_all || other.select_all,
            copy_all: self.copy_all || other.copy_all,
            gallery: self.gallery || other.gallery,
            toggle_outline: self.toggle_outline || other.toggle_outline,
            open_recent: or_else(self.open_recent, other.open_recent),
            clear_recent: self.clear_recent || other.clear_recent,
            find: self.find || other.find,
            close_find: self.close_find || other.close_find,
            step_match: or_else(self.step_match, other.step_match),
            watch: or_else(self.watch, other.watch),
            quit: self.quit || other.quit,
            theme: or_else(self.theme, other.theme),
            zoom: or_else(self.zoom, other.zoom),
            about: self.about || other.about,
            shortcuts: self.shortcuts || other.shortcuts,
            associate: self.associate || other.associate,
            unassociate: self.unassociate || other.unassociate,
        }
    }
}

/// Merging nothing in changes nothing.
pub proof fn lemma_merge_nothing(a: Actions)
    ensures
        spec_merge(a, no_actions()) == a,
        spec_merge(no_actions(), a) == a,
{
}

/// The window's switches that the requests of a frame change directly.
#[derive(Debug, Clone, Copy, PartialEq, Eq, Structural)]
pub struct Switches {
    /// The view shown.
    pub mode: ViewMode,
    /// The whole document is marked selected.
    pub select_all: bool,
    /// The icon gallery is shown.
    pub gallery_open: bool,
    /// The outline panel is shown.
    pub outline_open: bool,
    /// The search bar is shown.
    pub search_open: bool,
    /// The search field takes the focus in the next frame.
    pub request_focus: bool,
    /// The file is watched for changes.
    pub auto_reload: bool,
    /// The About window is shown.
    pub about_open: bool,
    /// The shortcuts window is shown.
    pub shortcuts_open: bool,
}

/// The switches after carrying out the requests `a`, with or without an
/// open document. A chosen view wins over flipping; selecting everything
/// needs a document, and gives way to the search, since two highlights at
/// once are a mess; closing the search wins over opening it.
pub open spec fn spec_apply(s: Switches, a: Actions, has_document: bool) -> Switches {
    Switches {
        mode: match a.mode {
            Some(m) => m,
            None => if a.toggle {
                spec_flipped(s.mode)
            } else {
                s.mode
            },
        },
        select_all: if a.find {
            false
        } else if a.select_all && has_document {
            true
        } else {
            s.select_all
        },
        gallery_open: s.gallery_open != a.gallery,
        outline_open: s.outline_open != a.toggle_outline,
        search_open: if a.close_find {
            false
        } else if a.find {
            true
        } else {
            s.search_open
        },
        request_focus: s.request_focus || a.find,
        auto_reload: match a.watch {
            Some(w) => w,
            None => s.auto_reload,
        },
        about_open: s.about_open || a.about,
        shortcuts_open: s.shortcuts_open || a.shortcuts,
    }
}

/// Carries out what the requests change in the switches; the rest (the
/// dialogs, the files, the clipboard, the theme and the zoom) is for the
/// window to do.
pub fn apply_switches(s: Switches, a: &Actions, has_document: bool) -> (r: Switches)
    ensures
        r == spec_apply(s, *a, has_document),
{
    let mode = match a.mode {
        Some(m) => m,
        None => if a.toggle {
            s.mode.flipped()
        } else {
            s.mode
        },
    };
    let select_all = if a.find {
        false
    } else if a.select_all && has_document {
        true
    } else {
        s.select_all
    };
    let search_open = if a.close_find {
        false
    } else if a.find {
        true
    } else {
        s.search_open
    };
    let auto_reload = match a.watch {
        Some(w) => w,
        None => s.auto_reload,
    };
    Switches {
        mode,
        select_all,
        gallery_open: s.gallery_open != a.gallery,
        outline_open: s.outline_open != a.toggle_outline,
        search_open,
        request_focus: s.request_focus || a.find,
        auto_reload,
        about_open: s.about_open || a.about,
        shortcuts_open: s.shortcuts_open || a.shortcuts,
    }
}

/// A frame without requests leaves the switches as they are.
pub proof fn lemma_apply_nothing(s: Switches, has_document: bool)
    ensures
        spec_apply(s, no_actions(), has_document) == s,
{
}

} // verus!
