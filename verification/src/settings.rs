//! Settings that survive a restart.
//!
//! Theme, zoom, window geometry and panel widths are kept by the GUI
//! toolkit itself; only what it knows nothing about lives here. Nothing in
//! this module touches the disk: reading and writing the store is the
//! caller's part.

use vstd::prelude::*;

use crate::unicode::{is_clean_path, same_path};

verus! {

/// How many recent files are remembered.
pub const MAX_RECENT: usize = 10;

/// The key in the application's store.
pub const STORAGE_KEY: &'static str = "settings";

#[derive(Debug, Clone, PartialEq, Eq)]
pub struct Settings {
    /// Whether the outline side panel is open.
    pub outline_open: bool,
    /// Whether the source view was on.
    pub source_mode: bool,
    /// The "watch the file" switch.
    pub auto_reload: bool,
    /// Recent files, the most recent first.
    pub recent: Vec<String>,
}

impl Default for Settings {
    /// The outline open, the rendered view, watching on, no recent files.
    fn default() -> (r: Self)
        ensures
            r.outline_open,
            !r.source_mode,
            r.auto_reload,
            r.recent@.len() == 0,
    {
        Settings { outline_open: true, source_mode: false, auto_reload: true, recent: Vec::new() }
    }
}

/// The texts of a list of paths.
pub open spec fn paths_view(v: Seq<String>) -> Seq<Seq<char>> {
    v.map_values(|p: String| p@)
}

/// `s` without any element equal to `x`, the rest in order.
pub open spec fn without(s: Seq<Seq<char>>, x: Seq<char>) -> Seq<Seq<char>>
    decreases s.len(),
{
    if s.len() == 0 {
        Seq::empty()
    } else {
        let rest = without(s.drop_last(), x);
        if s.last() == x {
            rest
        } else {
            rest.push(s.last())
        }
    }
}

/// At most the first `n` elements of `s`.
pub open spec fn at_most(s: Seq<Seq<char>>, n: nat) -> Seq<Seq<char>> {
    if s.len() > n {
        s.take(n as int)
    } else {
        s
    }
}

/// The recent list after opening `path`: `path` first, its earlier entry
/// gone, the list cut to [`MAX_RECENT`].
pub open spec fn spec_remember(recent: Seq<Seq<char>>, path: Seq<char>) -> Seq<Seq<char>> {
    at_most(seq![path] + without(recent, path), MAX_RECENT as nat)
}

/// The elements of `s` whose flag in `keep` is set, in order.
pub open spec fn kept(s: Seq<Seq<char>>, keep: Seq<bool>) -> Seq<Seq<char>>
    decreases s.len(),
{
    if s.len() == 0 || keep.len() < s.len() {
        Seq::empty()
    } else {
        let rest = kept(s.drop_last(), keep.take(s.len() - 1));
        if keep[s.len() - 1] {
            rest.push(s.last())
        } else {
            rest
        }
    }
}

/// No element occurs twice.
pub open spec fn no_duplicates(s: Seq<Seq<char>>) -> bool {
    forall|i: int, j: int| 0 <= i < j < s.len() ==> s[i] != s[j]
}

/// [`without`] keeps what differs from `x`, and only that.
pub proof fn lemma_without(s: Seq<Seq<char>>, x: Seq<char>)
    ensures
        forall|y: Seq<char>|
            #![trigger without(s, x).contains(y)]
            #![trigger s.contains(y)]
            without(s, x).contains(y) <==> (s.contains(y) && y != x),
        no_duplicates(s) ==> no_duplicates(without(s, x)),
        without(s, x).len() <= s.len(),
    decreases s.len(),
{
    if s.len() > 0 {
        let init = s.drop_last();
        lemma_without(init, x);
        let rest = without(init, x);
        assert forall|y: Seq<char>| #![trigger without(s, x).contains(y)] #![trigger s.contains(y)]
            without(s, x).contains(y) <==> (s.contains(y) && y != x) by {
            if s.contains(y) && y != x {
                let w = without(s, x);
                let i = choose|i: int| 0 <= i < s.len() && s[i] == y;
                if i < s.len() - 1 {
                    assert(init[i] == y);
                    assert(init.contains(y));
                    assert(rest.contains(y));
                    let k = choose|k: int| 0 <= k < rest.len() && rest[k] == y;
                    if s.last() == x {
                        assert(w == rest);
                    } else {
                        assert(w == rest.push(s.last()));
                        assert(w[k] == y);
                    }
                    assert(w.contains(y));
                } else {
                    assert(w == rest.push(s.last()));
                    assert(w[rest.len() as int] == y);
                }
            }
            if without(s, x).contains(y) {
                let w = without(s, x);
                let i = choose|i: int| 0 <= i < w.len() && w[i] == y;
                if s.last() != x && i == rest.len() {
                    assert(w == rest.push(s.last()));
                    assert(s[s.len() - 1] == y);
                } else {
                    assert(w[i] == rest[i]);
                    assert(rest.contains(y));
                    assert(init.contains(y));
                    let k = choose|k: int| 0 <= k < init.len() && init[k] == y;
                    assert(s[k] == y);
                }
            }
        }
        if no_duplicates(s) {
            assert(no_duplicates(init)) by {
                assert forall|i: int, j: int| 0 <= i < j < init.len() implies init[i] != init[j] by {
                    assert(init[i] == s[i] && init[j] == s[j]);
                }
            }
            if s.last() != x {
                assert(!rest.contains(s.last())) by {
                    if rest.contains(s.last()) {
                        let k = choose|k: int| 0 <= k < init.len() && init[k] == s.last();
                        assert(s[k] == s[s.len() - 1]);
                    }
                }
                let w = rest.push(s.last());
                assert forall|i: int, j: int| 0 <= i < j < w.len() implies w[i] != w[j] by {
                    if j == rest.len() {
                        assert(w[i] == rest[i]);
                        assert(rest.contains(rest[i]));
                    }
                }
            }
        }
    }
}

/// Without an element that does not occur, a list stays as it is.
proof fn lemma_without_absent(s: Seq<Seq<char>>, x: Seq<char>)
    requires
        !s.contains(x),
    ensures
        without(s, x) == s,
    decreases s.len(),
{
    if s.len() > 0 {
        let init = s.drop_last();
        assert(!init.contains(x)) by {
            if init.contains(x) {
                let i = choose|i: int| 0 <= i < init.len() && init[i] == x;
                assert(s[i] == x);
            }
        }
        lemma_without_absent(init, x);
        assert(s.last() != x) by {
            if s.last() == x {
                assert(s[s.len() - 1] == x);
            }
        }
        assert(init.push(s.last()) =~= s);
    }
}

/// Removing `x` from a list that starts with `x` removes it from the rest.
proof fn lemma_without_front(s: Seq<Seq<char>>, x: Seq<char>)
    ensures
        without(seq![x] + s, x) == without(s, x),
    decreases s.len(),
{
    let xs = seq![x] + s;
    if s.len() == 0 {
        assert(xs.drop_last() =~= Seq::<Seq<char>>::empty());
        assert(without(xs.drop_last(), x) == Seq::<Seq<char>>::empty());
        assert(xs.last() == x);
        assert(without(xs, x) == without(xs.drop_last(), x));
    } else {
        lemma_without_front(s.drop_last(), x);
        assert(xs.drop_last() =~= seq![x] + s.drop_last());
        assert(xs.last() == s.last());
        assert(without(xs.drop_last(), x) == without(s.drop_last(), x));
    }
}

/// Opening the same file twice in a row leaves the list as the first
/// opening made it (stated of [`spec_remember`], which is what
/// [`Settings::remember`] does with slash paths).
pub proof fn lemma_remember_twice(recent: Seq<Seq<char>>, path: Seq<char>)
    ensures
        spec_remember(spec_remember(recent, path), path) == spec_remember(recent, path),
{
    let rest = without(recent, path);
    let once = spec_remember(recent, path);
    lemma_without(recent, path);
    assert(!rest.contains(path));
    let kept_rest = once.drop_first();
    assert(once =~= seq![path] + kept_rest);
    assert(!kept_rest.contains(path)) by {
        if kept_rest.contains(path) {
            let i = choose|i: int| 0 <= i < kept_rest.len() && kept_rest[i] == path;
            assert(kept_rest[i] == (seq![path] + rest)[i + 1]);
            assert(rest[i] == path);
        }
    }
    lemma_without_front(kept_rest, path);
    lemma_without_absent(kept_rest, path);
    assert(without(once, path) == kept_rest);
    assert(seq![path] + kept_rest =~= once);
}

/// With the flags telling exactly which entries differ from `x`, keeping
/// the flagged entries is dropping `x`.
proof fn lemma_kept_without(s: Seq<Seq<char>>, keep: Seq<bool>, x: Seq<char>)
    requires
        keep.len() == s.len(),
        forall|i: int| 0 <= i < s.len() ==> (#[trigger] keep[i] <==> s[i] != x),
    ensures
        kept(s, keep) == without(s, x),
    decreases s.len(),
{
    if s.len() > 0 {
        let k = keep.take(s.len() - 1);
        assert forall|i: int| 0 <= i < s.drop_last().len() implies (#[trigger] k[i] <==> s.drop_last()[i] != x) by {
            assert(k[i] == keep[i]);
            assert(s.drop_last()[i] == s[i]);
        }
        lemma_kept_without(s.drop_last(), k, x);
        assert(keep[s.len() - 1] <==> s.last() != x);
    }
}

/// Keeping some entries, never one equal to `x`, leaves no `x`, makes the
/// list no longer, and keeps it free of duplicates.
proof fn lemma_kept_props(s: Seq<Seq<char>>, keep: Seq<bool>, x: Seq<char>)
    requires
        keep.len() == s.len(),
        forall|i: int| 0 <= i < s.len() ==> (s[i] == x ==> !(#[trigger] keep[i])),
    ensures
        !kept(s, keep).contains(x),
        kept(s, keep).len() <= s.len(),
        forall|y: Seq<char>| #[trigger] kept(s, keep).contains(y) ==> s.contains(y),
        no_duplicates(s) ==> no_duplicates(kept(s, keep)),
    decreases s.len(),
{
    if s.len() > 0 {
        let init = s.drop_last();
        let k = keep.take(s.len() - 1);
        assert forall|i: int| 0 <= i < init.len() implies (init[i] == x ==> !(#[trigger] k[i])) by {
            assert(k[i] == keep[i]);
            assert(init[i] == s[i]);
        }
        lemma_kept_props(init, k, x);
        let rest = kept(init, k);
        let all = kept(s, keep);
        assert forall|y: Seq<char>| #[trigger] all.contains(y) implies s.contains(y) by {
            let j = choose|j: int| 0 <= j < all.len() && all[j] == y;
            if j < rest.len() {
                assert(rest[j] == y);
                assert(rest.contains(y));
                let m = choose|m: int| 0 <= m < init.len() && init[m] == y;
                assert(s[m] == y);
            } else {
                assert(s[s.len() - 1] == y);
            }
        }
        if keep[s.len() - 1] {
            assert(s[s.len() - 1] != x);
            assert(!all.contains(x)) by {
                if all.contains(x) {
                    let j = choose|j: int| 0 <= j < all.len() && all[j] == x;
                    if j < rest.len() {
                        assert(rest[j] == x);
                        assert(rest.contains(x));
                    }
                }
            }
            if no_duplicates(s) {
                assert(no_duplicates(init)) by {
                    assert forall|i: int, j: int| 0 <= i < j < init.len() implies init[i] != init[j] by {
                        assert(init[i] == s[i] && init[j] == s[j]);
                    }
                }
                assert(!rest.contains(s.last())) by {
                    if rest.contains(s.last()) {
                        let m = choose|m: int| 0 <= m < init.len() && init[m] == s.last();
                        assert(s[m] == s[s.len() - 1]);
                    }
                }
                assert forall|i: int, j: int| 0 <= i < j < all.len() implies all[i] != all[j] by {
                    assert(all[i] == rest[i]);
                    if j == rest.len() {
                        assert(rest.contains(rest[i]));
                    } else {
                        assert(all[j] == rest[j]);
                    }
                }
            }
        } else {
            assert(all == rest);
            if no_duplicates(s) {
                assert forall|i: int, j: int| 0 <= i < j < init.len() implies init[i] != init[j] by {
                    assert(init[i] == s[i] && init[j] == s[j]);
                }
            }
        }
    }
}

impl Settings {
    /// Remembers an opened file: puts it first, drops its earlier entry and
    /// cuts the list to [`MAX_RECENT`]. An entry is earlier when it is the
    /// same path as `path`, compared as paths are on the platform. An entry
    /// with the very same text always is; for slash paths without a
    /// trailing `/` (see [`is_clean_path`]), which every platform compares
    /// alike, only such an entry is, so that there the list is
    /// [`spec_remember`].
    pub fn remember(&mut self, path: &str)
        ensures
            exists|keep: Seq<bool>|
                {
                    &&& keep.len() == old(self).recent@.len()
                    &&& forall|i: int|
                        0 <= i < keep.len() ==> (old(self).recent@[i]@ == path@ ==> !(#[trigger] keep[i]))
                    &&& forall|i: int|
                        0 <= i < keep.len() ==> (is_clean_path(old(self).recent@[i]@) && is_clean_path(path@) ==> (
                        #[trigger] keep[i] <==> old(self).recent@[i]@ != path@))
                    &&& paths_view(final(self).recent@) == at_most(
                        seq![path@] + kept(paths_view(old(self).recent@), keep),
                        MAX_RECENT as nat,
                    )
                },
            (is_clean_path(path@) && forall|i: int|
                0 <= i < old(self).recent@.len() ==> is_clean_path(#[trigger] old(self).recent@[i]@)) ==> paths_view(
                final(self).recent@,
            ) == spec_remember(paths_view(old(self).recent@), path@),
            final(self).recent@.len() >= 1,
            final(self).recent@[0]@ == path@,
            final(self).recent@.len() <= MAX_RECENT,
            no_duplicates(paths_view(old(self).recent@)) ==> no_duplicates(paths_view(final(self).recent@)),
            final(self).outline_open == old(self).outline_open,
            final(self).source_mode == old(self).source_mode,
            final(self).auto_reload == old(self).auto_reload,
    {
        let ghost old_recent = self.recent@;
        let ghost old_paths = paths_view(self.recent@);
        let ghost mut keep: Seq<bool> = Seq::empty();
        let mut others: Vec<String> = Vec::new();
        let mut i: usize = 0;
        while i < self.recent.len()
            invariant
                i <= self.recent@.len(),
                self.recent@ == old_recent,
                old_paths == paths_view(old_recent),
                keep.len() == i,
                forall|j: int| 0 <= j < i ==> (old_recent[j]@ == path@ ==> !(#[trigger] keep[j])),
                forall|j: int|
                    0 <= j < i ==> (is_clean_path(old_recent[j]@) && is_clean_path(path@) ==> (#[trigger] keep[j]
                        <==> old_recent[j]@ != path@)),
                paths_view(others@) == kept(old_paths.take(i as int), keep),
            decreases self.recent@.len() - i,
        {
            let known = self.recent[i].as_str();
            let same = same_path(known, path);
            let ghost before = paths_view(others@);
            let ghost flags = keep;
            proof {
                keep = keep.push(!same);
                assert(keep.take(i as int) =~= flags);
                assert(old_paths.take(i + 1).drop_last() =~= old_paths.take(i as int));
                assert(old_paths[i as int] == old_recent[i as int]@);
            }
            if !same {
                others.push(known.to_owned());
                assert(paths_view(others@) =~= before.push(old_paths[i as int]));
            }
            i += 1;
        }
        assert(old_paths.take(i as int) =~= old_paths);
        assert forall|j: int| 0 <= j < old_paths.len() implies (old_paths[j] == path@ ==> !(#[trigger] keep[j])) by {
            assert(old_paths[j] == old_recent[j]@);
        }
        proof {
            lemma_kept_props(old_paths, keep, path@);
        }
        let mut recent: Vec<String> = Vec::new();
        recent.push(path.to_owned());
        let mut k: usize = 0;
        while k < others.len() && recent.len() < MAX_RECENT
            invariant
                k <= others@.len(),
                recent@.len() == k + 1,
                recent@.len() <= MAX_RECENT,
                paths_view(recent@) == seq![path@] + paths_view(others@).take(k as int),
            decreases others@.len() - k,
        {
            let ghost before = paths_view(recent@);
            recent.push(others[k].clone());
            assert(paths_view(recent@) =~= before.push(paths_view(others@)[k as int]));
            assert(paths_view(others@).take(k + 1) =~= paths_view(others@).take(k as int).push(paths_view(others@)[k as int]));
            k += 1;
        }
        let ghost rest = kept(old_paths, keep);
        let ghost joined = seq![path@] + rest;
        proof {
            if k == others.len() {
                assert(paths_view(others@).take(k as int) =~= paths_view(others@));
                assert(paths_view(recent@) =~= joined);
            } else {
                assert(paths_view(recent@) =~= joined.take(MAX_RECENT as int));
            }
            assert(paths_view(recent@)[0] == path@);
            if no_duplicates(old_paths) {
                assert forall|a: int, c: int| 0 <= a < c < joined.len() implies joined[a] != joined[c] by {
                    if a == 0 {
                        assert(joined[c] == rest[c - 1]);
                        assert(rest.contains(joined[c]));
                    } else {
                        assert(joined[a] == rest[a - 1]);
                        assert(joined[c] == rest[c - 1]);
                    }
                }
            }
            if is_clean_path(path@) && forall|j: int|
                0 <= j < old_recent.len() ==> is_clean_path(#[trigger] old_recent[j]@) {
                assert forall|j: int| 0 <= j < old_paths.len() implies (#[trigger] keep[j] <==> old_paths[j] != path@) by {
                    assert(old_paths[j] == old_recent[j]@);
                    assert(is_clean_path(old_recent[j]@));
                }
                lemma_kept_without(old_paths, keep, path@);
            }
        }
        self.recent = recent;
    }

    /// Drops the files that no longer exist. `present` is asked about each
    /// entry in turn; how it finds out is the caller's business, so the list
    /// can be checked without files on disk.
    pub fn prune<F: Fn(&String) -> bool>(&mut self, present: F)
        requires
            forall|p: &String| present.requires((p,)),
        ensures
            exists|keep: Seq<bool>|
                {
                    &&& keep.len() == old(self).recent@.len()
                    &&& forall|i: int|
                        0 <= i < keep.len() ==> present.ensures((&old(self).recent@[i],), #[trigger] keep[i])
                    &&& paths_view(final(self).recent@) == kept(paths_view(old(self).recent@), keep)
                },
            final(self).outline_open == old(self).outline_open,
            final(self).source_mode == old(self).source_mode,
            final(self).auto_reload == old(self).auto_reload,
    {
        let ghost old_recent = self.recent@;
        let ghost old_paths = paths_view(old_recent);
        let mut keep: Vec<bool> = Vec::new();
        let mut out: Vec<String> = Vec::new();
        let mut i: usize = 0;
        while i < self.recent.len()
            invariant
                i <= self.recent@.len(),
                self.recent@ == old_recent,
                old_paths == paths_view(old_recent),
                keep@.len() == i,
                forall|p: &String| present.requires((p,)),
                forall|j: int| 0 <= j < i ==> present.ensures((&old_recent[j],), #[trigger] keep@[j]),
                paths_view(out@) == kept(old_paths.take(i as int), keep@),
            decreases self.recent@.len() - i,
        {
            let here = present(&self.recent[i]);
            let ghost before = paths_view(out@);
            let ghost flags = keep@;
            keep.push(here);
            assert(keep@.take(i as int) =~= flags);
            assert(old_paths.take(i + 1).drop_last() =~= old_paths.take(i as int));
            assert(kept(old_paths.take(i as int), flags) == kept(old_paths.take(i as int), keep@.take(i as int)));
            if here {
                out.push(self.recent[i].clone());
                assert(paths_view(out@) =~= before.push(old_paths[i as int]));
            }
            i += 1;
        }
        assert(old_paths.take(i as int) =~= old_paths);
        self.recent = out;
    }
}

/// Whether two texts are equal.
fn str_eq(a: &str, b: &str) -> (r: bool)
    ensures
        r == (a@ == b@),
{
    let x = a.to_owned();
    let y = b.to_owned();
    x == y
}

} // verus!
