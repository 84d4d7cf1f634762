//! The link with the operating system: registering the viewer for `.md`.
//!
//! Writing the registry or the `.desktop` file is the caller's part. This
//! module holds what is decided around it: which extensions are claimed,
//! the command line that is registered, and how what the system reports is
//! judged.
//!
//! On Windows 8 and later a program cannot make itself the default handler
//! of `.md`: the `UserChoice` key is protected by a hash. The viewer
//! registers its ProgID and adds itself to "Open with", and leaves the
//! default to the person.

use vstd::prelude::*;
use vstd::string::*;
use vstd::utf8::*;

use crate::document::{ranges_view, spec_line_ranges};
use crate::text::{push_char, substring};
use crate::unicode::{spec_utf16_lossy, utf16_lossy};

verus! {

broadcast use vstd::utf8::group_utf8_lib;

/// The extensions the viewer claims: only the two common ones, since each
/// is one more key that unregistering must clean up.
pub const EXTENSIONS: [&'static str; 2] = ["md", "markdown"];

/// The texts of [`EXTENSIONS`].
pub open spec fn spec_extensions() -> Seq<Seq<char>> {
    seq!["md"@, "markdown"@]
}

/// What the system currently holds.
#[derive(Debug, Clone, Copy, PartialEq, Eq, Structural)]
pub enum Association {
    /// Entries exist and lead to this very executable.
    Registered,
    /// Entries exist but lead elsewhere: the program was moved or a second
    /// copy installed. Registering again is worth it.
    Stale,
    /// No entries.
    Missing,
    /// The platform has no such mechanism; the state is unknown and moot.
    Unsupported,
}

impl Association {
    /// A short text for the menu and the About window.
    pub fn label(self) -> (r: &'static str)
        ensures
            r@ == match self {
                Association::Registered => "зарегистрирован"@,
                Association::Stale => "зарегистрирован на другой путь"@,
                Association::Missing => "не зарегистрирован"@,
                Association::Unsupported => "не поддерживается на этой системе"@,
            },
    {
        match self {
            Association::Registered => "зарегистрирован",
            Association::Stale => "зарегистрирован на другой путь",
            Association::Missing => "не зарегистрирован",
            Association::Unsupported => "не поддерживается на этой системе",
        }
    }
}

/// Why registering failed.
#[derive(Debug)]
pub enum Error {
    /// The platform has no such mechanism.
    Unsupported,
    /// The system refused; the text is ready to show.
    Os(String),
}

impl Error {
    /// The message shown to a person.
    pub fn message(&self) -> (r: String)
        ensures
            r@ == match self {
                Error::Unsupported => "на этой системе ассоциация файлов не поддерживается"@,
                Error::Os(text) => text@,
            },
    {
        match self {
            Error::Unsupported => "на этой системе ассоциация файлов не поддерживается".to_owned(),
            Error::Os(text) => text.clone(),
        }
    }
}

/// The command registered to open a file: the executable and the file's
/// path, each in quotes, so that a path with spaces is not cut apart.
pub open spec fn spec_open_command(exe: Seq<char>) -> Seq<char> {
    seq!['"'] + exe + seq!['"', ' ', '"', '%', '1', '"']
}

/// Builds [`spec_open_command`].
pub fn open_command(exe: &str) -> (r: String)
    ensures
        r@ == spec_open_command(exe@),
{
    let mut out = String::new();
    push_char(&mut out, '"');
    out.append(exe);
    push_char(&mut out, '"');
    push_char(&mut out, ' ');
    push_char(&mut out, '"');
    push_char(&mut out, '%');
    push_char(&mut out, '1');
    push_char(&mut out, '"');
    assert(out@ =~= spec_open_command(exe@));
    out
}

/// ASCII lower case of a byte.
pub open spec fn ascii_lower_byte(b: u8) -> u8 {
    if 0x41 <= b <= 0x5A {
        (b + 0x20) as u8
    } else {
        b
    }
}

/// Whether two texts are equal ignoring the case of ASCII letters, byte by
/// byte, as `str::eq_ignore_ascii_case` compares them.
pub open spec fn spec_eq_ignore_ascii_case(a: Seq<u8>, b: Seq<u8>) -> bool {
    &&& a.len() == b.len()
    &&& forall|i: int| 0 <= i < a.len() ==> ascii_lower_byte(#[trigger] a[i]) == ascii_lower_byte(b[i])
}

/// Decides [`spec_eq_ignore_ascii_case`].
pub fn eq_ignore_ascii_case(a: &str, b: &str) -> (r: bool)
    ensures
        r == spec_eq_ignore_ascii_case(a.spec_bytes(), b.spec_bytes()),
{
    let x = a.as_bytes();
    let y = b.as_bytes();
    if x.len() != y.len() {
        return false;
    }
    let mut i: usize = 0;
    while i < x.len()
        invariant
            x@ == a.spec_bytes(),
            y@ == b.spec_bytes(),
            x@.len() == y@.len(),
            i <= x@.len(),
            forall|k: int| 0 <= k < i ==> ascii_lower_byte(#[trigger] x@[k]) == ascii_lower_byte(y@[k]),
        decreases x@.len() - i,
    {
        let p = x[i];
        let q = y[i];
        let lp = if 0x41u8 <= p && p <= 0x5Au8 {
            p + 0x20
        } else {
            p
        };
        let lq = if 0x41u8 <= q && q <= 0x5Au8 {
            q + 0x20
        } else {
            q
        };
        if lp != lq {
            assert(ascii_lower_byte(x@[i as int]) != ascii_lower_byte(y@[i as int]));
            return false;
        }
        i += 1;
    }
    true
}

/// How the registry is judged: no stored command means nothing is registered; a
/// stored command equal to ours, ignoring ASCII case since Windows paths
/// ignore case, means registered; anything else, including an executable
/// path that could not be found out, means registered elsewhere.
pub open spec fn spec_registry_state(stored: Option<Seq<char>>, exe: Option<Seq<char>>) -> Association {
    match stored {
        None => Association::Missing,
        Some(command) => match exe {
            Some(path) => if spec_eq_ignore_ascii_case(
                encode_utf8(command),
                encode_utf8(spec_open_command(path)),
            ) {
                Association::Registered
            } else {
                Association::Stale
            },
            None => Association::Stale,
        },
    }
}

/// The text of an optional string.
pub open spec fn opt_view(o: Option<&str>) -> Option<Seq<char>> {
    match o {
        Some(s) => Some(s@),
        None => None,
    }
}

/// Judges what the registry holds: `stored` is the open command found under
/// the viewer's ProgID, `exe` the path of the running executable.
pub fn registry_state(stored: Option<&str>, exe: Option<&str>) -> (r: Association)
    ensures
        r == spec_registry_state(opt_view(stored), opt_view(exe)),
{
    match stored {
        None => Association::Missing,
        Some(command) => match exe {
            Some(path) => {
                let ours = open_command(path);
                if eq_ignore_ascii_case(command, ours.as_str()) {
                    Association::Registered
                } else {
                    Association::Stale
                }
            },
            None => Association::Stale,
        },
    }
}

/// Whether `end` is where the text in a registry buffer stops: the first
/// zero unit, or the end of the buffer when it holds none.
pub open spec fn is_text_end(units: Seq<u16>, end: int) -> bool {
    &&& 0 <= end <= units.len()
    &&& forall|j: int| 0 <= j < end ==> units[j] != 0
    &&& end < units.len() ==> units[end] == 0
}

/// The string in a buffer read from the registry. The registry does not
/// promise a terminating zero, though it mostly stores one: the text runs
/// up to the first zero unit, or over the whole buffer when there is none,
/// and is decoded from UTF-16 with invalid units replaced.
pub fn registry_text(buffer: &[u16]) -> (r: String)
    ensures
        exists|end: int| is_text_end(buffer@, end) && r@ == spec_utf16_lossy(buffer@.take(end)),
{
    let mut units: Vec<u16> = Vec::new();
    let mut i: usize = 0;
    while i < buffer.len() && buffer[i] != 0
        invariant
            i <= buffer@.len(),
            units@ == buffer@.take(i as int),
            forall|j: int| 0 <= j < i ==> buffer@[j] != 0,
        decreases buffer@.len() - i,
    {
        units.push(buffer[i]);
        i += 1;
        assert(units@ =~= buffer@.take(i as int));
    }
    let r = utf16_lossy(units.as_slice());
    assert(is_text_end(buffer@, i as int));
    r
}

/// Whether `t` starts with `p`.
pub open spec fn starts_with(t: Seq<char>, p: Seq<char>) -> bool {
    p.len() <= t.len() && t.take(p.len() as int) == p
}

/// The command of the first line of a `.desktop` file that starts with
/// `Exec=`, without that prefix.
pub open spec fn exec_line_from(b: Seq<u8>, lines: Seq<(int, int)>, k: int) -> Option<Seq<char>>
    decreases lines.len() - k,
{
    if k < 0 || k >= lines.len() {
        None
    } else {
        let line = decode_utf8(b.subrange(lines[k].0, lines[k].1));
        if starts_with(line, "Exec="@) {
            Some(line.skip(5))
        } else {
            exec_line_from(b, lines, k + 1)
        }
    }
}

/// How a `.desktop` file is judged: the file or the executable's path that
/// could not be had means nothing is registered; an `Exec=` line whose
/// command starts with the executable's path means registered; otherwise
/// the file is left from another copy.
pub open spec fn spec_desktop_state(contents: Option<Seq<char>>, exe: Option<Seq<char>>) -> Association {
    match contents {
        None => Association::Missing,
        Some(text) => match exe {
            None => Association::Missing,
            Some(path) => {
                let b = encode_utf8(text);
                match exec_line_from(b, spec_line_ranges(b), 0) {
                    Some(command) => if starts_with(command, path) {
                        Association::Registered
                    } else {
                        Association::Stale
                    },
                    None => Association::Stale,
                }
            },
        },
    }
}

/// Decides [`starts_with`].
fn text_starts_with(t: &Vec<char>, p: &Vec<char>) -> (r: bool)
    ensures
        r == starts_with(t@, p@),
{
    if p.len() > t.len() {
        return false;
    }
    let mut i: usize = 0;
    while i < p.len()
        invariant
            p@.len() <= t@.len(),
            i <= p@.len(),
            forall|k: int| 0 <= k < i ==> t@[k] == p@[k],
        decreases p@.len() - i,
    {
        if t[i] != p[i] {
            assert(t@.take(p@.len() as int)[i as int] != p@[i as int]);
            return false;
        }
        i += 1;
    }
    assert(t@.take(p@.len() as int) =~= p@);
    true
}

/// Judges a `.desktop` file: `contents` is its text, `None` when it could
/// not be read (or its place not found out); `exe` the path of the running
/// executable.
pub fn desktop_state(contents: Option<&str>, exe: Option<&str>) -> (r: Association)
    ensures
        r == spec_desktop_state(opt_view(contents), opt_view(exe)),
{
    let text = match contents {
        None => return Association::Missing,
        Some(text) => text,
    };
    let path = match exe {
        None => return Association::Missing,
        Some(path) => path,
    };
    let ghost b = text.spec_bytes();
    let lines = crate::document::line_ranges(text);
    let ghost ls = ranges_view(lines@);
    proof {
        crate::document::lemma_line_ranges_on_boundaries(b);
    }
    let prefix = crate::unicode::chars_of("Exec=");
    let wanted = crate::unicode::chars_of(path);
    let mut k: usize = 0;
    while k < lines.len()
        invariant
            k <= lines@.len(),
            b == text.spec_bytes(),
            ls == ranges_view(lines@),
            ls == spec_line_ranges(b),
            crate::document::ranges_on_boundaries(b, ls),
            prefix@ == "Exec="@,
            wanted@ == path@,
            opt_view(contents) == Some(text@),
            opt_view(exe) == Some(path@),
            exec_line_from(b, ls, 0) == exec_line_from(b, ls, k as int),
        decreases lines@.len() - k,
    {
        assert(ls[k as int] == (lines@[k as int].start as int, lines@[k as int].end as int));
        let line = substring(text, lines[k].start, lines[k].end);
        let chars = crate::unicode::chars_of(line);
        proof {
            encode_utf8_decode_utf8(line@);
        }
        assert(line@ == decode_utf8(b.subrange(ls[k as int].0, ls[k as int].1)));
        if text_starts_with(&chars, &prefix) {
            assert(exec_line_from(b, ls, k as int) == Some(line@.skip(5)));
            let mut rest: Vec<char> = Vec::new();
            let mut j: usize = 5;
            proof {
                reveal_strlit("Exec=");
            }
            while j < chars.len()
                invariant
                    5 <= j <= chars@.len(),
                    rest@ == chars@.subrange(5, j as int),
                decreases chars@.len() - j,
            {
                rest.push(chars[j]);
                assert(chars@.subrange(5, j + 1) =~= chars@.subrange(5, j as int).push(chars@[j as int]));
                j += 1;
            }
            assert(rest@ =~= chars@.skip(5));
            return if text_starts_with(&rest, &wanted) {
                Association::Registered
            } else {
                Association::Stale
            };
        }
        k += 1;
    }
    Association::Stale
}

/// The `.desktop` entry that registers the viewer for `text/markdown`.
/// `%f` rather than `%F`: the viewer opens one file at a time.
pub open spec fn spec_desktop_entry(exe: Seq<char>) -> Seq<char> {
    "[Desktop Entry]\nType=Application\nName=MdGlimpse\nComment=Просмотрщик Markdown\nExec="@ + exe
        + " %f\nIcon=mdglimpse\nTerminal=false\nCategories=Utility;TextEditor;\nMimeType=text/markdown;\n"@
}

/// Builds [`spec_desktop_entry`].
pub fn desktop_entry(exe: &str) -> (r: String)
    ensures
        r@ == spec_desktop_entry(exe@),
{
    let mut out = String::new();
    out.append("[Desktop Entry]\nType=Application\nName=MdGlimpse\nComment=Просмотрщик Markdown\nExec=");
    out.append(exe);
    out.append(" %f\nIcon=mdglimpse\nTerminal=false\nCategories=Utility;TextEditor;\nMimeType=text/markdown;\n");
    assert(out@ =~= spec_desktop_entry(exe@));
    out
}

} // verus!
