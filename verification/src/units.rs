//! Reconstructing cargo's build units from a listing of `target/`.
//!
//! Cargo scatters each build unit across several places that share one 16-hex
//! metadata hash `H`:
//!
//! * `<profile>/.fingerprint/<pkg-name>-<H>/` — the fingerprint dir,
//! * `<profile>/deps/(lib)?<crate-name>-<H>.*` — the compiled artifacts,
//! * `<profile>/build/<pkg-name>-<H>/` — build-script compile/run output.
//!
//! Every *compile* unit also drops a depfile whose source paths pin it to an
//! exact package version. [`collect_units`] ties all of that back together into
//! [`Unit`]s, working on a [`ProfileListing`] of what each profile root holds.

use vstd::prelude::*;
use crate::text::{
    chars_of, first_some, has_prefix, lemma_first_some_skip, lemma_strings_view_add,
    lemma_strings_view_push, starts_with, string_of, strings_view, to_vec, copy_strings,
};

verus! {

// ---------------------------------------------------------------------------
// Specifications of the name grammar
// ---------------------------------------------------------------------------

/// Index of the last occurrence of `c` in `s`.
pub open spec fn rfind(s: Seq<char>, c: char) -> Option<int>
    decreases s.len(),
{
    if s.len() == 0 {
        None
    } else if s.last() == c {
        Some(s.len() - 1)
    } else {
        rfind(s.drop_last(), c)
    }
}

/// Index of the first occurrence of `c` in `s`.
pub open spec fn find(s: Seq<char>, c: char) -> Option<int>
    decreases s.len(),
{
    if s.len() == 0 {
        None
    } else if s[0] == c {
        Some(0)
    } else {
        match find(s.drop_first(), c) {
            Some(i) => Some(i + 1),
            None => None,
        }
    }
}

/// An ASCII hexadecimal digit (`char::is_ascii_hexdigit`).
pub open spec fn is_hex(c: char) -> bool {
    ('0' <= c && c <= '9') || ('a' <= c && c <= 'f') || ('A' <= c && c <= 'F')
}

pub open spec fn all_hex(s: Seq<char>) -> bool {
    forall|i: int| 0 <= i < s.len() ==> is_hex(#[trigger] s[i])
}

/// `<name>-<16 hex digits>` split at its last `-`.
pub open spec fn spec_split_name_hash(s: Seq<char>) -> Option<(Seq<char>, Seq<char>)> {
    match rfind(s, '-') {
        None => None,
        Some(i) => {
            let hash = s.skip(i + 1);
            if hash.len() == 16 && all_hex(hash) {
                Some((s.take(i), hash))
            } else {
                None
            }
        },
    }
}

/// The owning hash of a `deps/` file name: drop an optional `lib` prefix, then
/// the 16 hex digits right after the first `-`.
pub open spec fn spec_deps_file_hash(s: Seq<char>) -> Option<Seq<char>> {
    let stem = if has_prefix(s, seq!['l', 'i', 'b']) { s.skip(3) } else { s };
    match find(stem, '-') {
        None => None,
        Some(d) => {
            let rest = stem.skip(d + 1);
            if rest.len() >= 16 && all_hex(rest.take(16)) {
                Some(rest.take(16))
            } else {
                None
            }
        },
    }
}

// ---------------------------------------------------------------------------
// Scanning helpers
// ---------------------------------------------------------------------------

/// Position of the last `c` in `s`.
pub fn rfind_char(s: &[char], c: char) -> (res: Option<usize>)
    ensures
        match res {
            Some(i) => i < s@.len() && rfind(s@, c) == Some(i as int),
            None => rfind(s@, c) is None,
        },
{
    let mut i: usize = s.len();
    assert(s@.take(s@.len() as int) == s@);
    while i > 0
        invariant
            i <= s@.len(),
            rfind(s@, c) == rfind(s@.take(i as int), c),
        decreases i,
    {
        assert(s@.take(i as int).drop_last() == s@.take(i - 1));
        if s[i - 1] == c {
            return Some(i - 1);
        }
        i -= 1;
    }
    None
}

/// Position of the first `c` in `s`.
pub fn find_char(s: &[char], c: char) -> (res: Option<usize>)
    ensures
        match res {
            Some(i) => i < s@.len() && find(s@, c) == Some(i as int),
            None => find(s@, c) is None,
        },
{
    let mut i: usize = 0;
    while i < s.len()
        invariant
            i <= s@.len(),
            forall|j: int| 0 <= j < i ==> s@[j] != c,
        decreases s@.len() - i,
    {
        if s[i] == c {
            proof { lemma_find_at(s@, c, i as int); }
            return Some(i);
        }
        i += 1;
    }
    proof { lemma_find_none(s@, c); }
    None
}

proof fn lemma_find_at(s: Seq<char>, c: char, i: int)
    requires
        0 <= i < s.len(),
        s[i] == c,
        forall|j: int| 0 <= j < i ==> s[j] != c,
    ensures
        find(s, c) == Some(i),
    decreases i,
{
    if i > 0 {
        lemma_find_at(s.drop_first(), c, i - 1);
    }
}

proof fn lemma_find_none(s: Seq<char>, c: char)
    requires
        forall|j: int| 0 <= j < s.len() ==> s[j] != c,
    ensures
        find(s, c) is None,
    decreases s.len(),
{
    if s.len() > 0 {
        lemma_find_none(s.drop_first(), c);
    }
}

/// `char::is_ascii_hexdigit`.
pub fn hex_char(c: char) -> (res: bool)
    ensures
        res == is_hex(c),
{
    ('0' <= c && c <= '9') || ('a' <= c && c <= 'f') || ('A' <= c && c <= 'F')
}

/// Are the characters `s[from..to]` all hex digits?
fn all_hex_range(s: &[char], from: usize, to: usize) -> (res: bool)
    requires
        from <= to <= s@.len(),
    ensures
        res == all_hex(s@.subrange(from as int, to as int)),
{
    let mut i: usize = from;
    while i < to
        invariant
            from <= i <= to <= s@.len(),
            forall|j: int| from <= j < i ==> is_hex(s@[j]),
        decreases to - i,
    {
        if !hex_char(s[i]) {
            assert(s@.subrange(from as int, to as int)[i - from] == s@[i as int]);
            return false;
        }
        i += 1;
    }
    assert forall|j: int| 0 <= j < to - from implies is_hex(#[trigger] s@.subrange(from as int, to as int)[j]) by {
        assert(s@.subrange(from as int, to as int)[j] == s@[from + j]);
    }
    true
}

// ---------------------------------------------------------------------------
// Names and hashes
// ---------------------------------------------------------------------------

/// Split a `<name>-<16hex>` directory name into its package name and hash.
pub fn split_name_hash(dir_name: &str) -> (res: Option<(String, String)>)
    ensures
        match res {
            Some((name, hash)) => spec_split_name_hash(dir_name@) == Some((name@, hash@)),
            None => spec_split_name_hash(dir_name@) is None,
        },
{
    let cs = chars_of(dir_name);
    let idx = match rfind_char(cs.as_slice(), '-') {
        Some(i) => i,
        None => return None,
    };
    if cs.len() - (idx + 1) != 16 {
        return None;
    }
    if !all_hex_range(cs.as_slice(), idx + 1, cs.len()) {
        assert(cs@.subrange(idx + 1, cs@.len() as int) == cs@.skip(idx + 1));
        return None;
    }
    assert(cs@.subrange(idx + 1, cs@.len() as int) == cs@.skip(idx + 1));
    let name = string_of(slice_range(cs.as_slice(), 0, idx));
    let hash = string_of(slice_range(cs.as_slice(), idx + 1, cs.len()));
    assert(cs@.subrange(0, idx as int) == cs@.take(idx as int));
    Some((name, hash))
}

/// A sub-slice `s[from..to]`.
pub fn slice_range(s: &[char], from: usize, to: usize) -> (res: &[char])
    requires
        from <= to <= s@.len(),
    ensures
        res@ == s@.subrange(from as int, to as int),
{
    let (head, _) = s.split_at(to);
    let (_, mid) = head.split_at(from);
    assert(head@ == s@.subrange(0, to as int));
    assert(mid@ =~= s@.subrange(from as int, to as int));
    mid
}

/// Extract a deps-file's owning hash: strip an optional `lib` prefix, then take
/// the 16-hex token after the first `-` (crate names never contain `-`).
pub fn deps_file_hash(file_name: &str) -> (res: Option<String>)
    ensures
        match res {
            Some(hash) => spec_deps_file_hash(file_name@) == Some(hash@),
            None => spec_deps_file_hash(file_name@) is None,
        },
{
    let cs = chars_of(file_name);
    let lib = ['l', 'i', 'b'];
    let start: usize = if starts_with(cs.as_slice(), lib.as_slice()) { 3 } else { 0 };
    assert(lib@ == seq!['l', 'i', 'b']);
    let stem = slice_range(cs.as_slice(), start, cs.len());
    assert(stem@ == cs@.skip(start as int));
    assert(cs@.skip(0) == cs@);
    let dash = match find_char(stem, '-') {
        Some(d) => d,
        None => return None,
    };
    let rest = slice_range(stem, dash + 1, stem.len());
    assert(rest@ == stem@.skip(dash + 1));
    if rest.len() < 16 {
        return None;
    }
    let ok = all_hex_range(rest, 0, 16);
    assert(rest@.subrange(0, 16) == rest@.take(16));
    if !ok {
        return None;
    }
    Some(string_of(slice_range(rest, 0, 16)))
}


// ---------------------------------------------------------------------------
// Depfiles
// ---------------------------------------------------------------------------

/// Index of the first occurrence of `m` in `s` (`str::find` with a string
/// pattern).
pub open spec fn find_sub(s: Seq<char>, m: Seq<char>) -> Option<int>
    decreases s.len(),
{
    if has_prefix(s, m) {
        Some(0)
    } else if s.len() == 0 {
        None
    } else {
        match find_sub(s.drop_first(), m) {
            Some(i) => Some(i + 1),
            None => None,
        }
    }
}

proof fn lemma_find_sub_at(s: Seq<char>, m: Seq<char>, i: int)
    requires
        0 <= i <= s.len(),
        has_prefix(s.skip(i), m),
        forall|j: int| 0 <= j < i ==> !has_prefix(#[trigger] s.skip(j), m),
    ensures
        find_sub(s, m) == Some(i),
    decreases i,
{
    if i == 0 {
        assert(s.skip(0) == s);
    } else {
        assert(s.skip(0) == s);
        assert forall|j: int| 0 <= j < i - 1 implies !has_prefix(#[trigger] s.drop_first().skip(j), m) by {
            assert(s.drop_first().skip(j) == s.skip(j + 1));
        }
        assert(s.drop_first().skip(i - 1) == s.skip(i));
        lemma_find_sub_at(s.drop_first(), m, i - 1);
    }
}

proof fn lemma_find_sub_none(s: Seq<char>, m: Seq<char>)
    requires
        m.len() > 0,
        forall|j: int| 0 <= j <= s.len() ==> !has_prefix(#[trigger] s.skip(j), m),
    ensures
        find_sub(s, m) is None,
    decreases s.len(),
{
    assert(s.skip(0) == s);
    if s.len() > 0 {
        assert forall|j: int| 0 <= j <= s.len() - 1 implies !has_prefix(#[trigger] s.drop_first().skip(j), m) by {
            assert(s.drop_first().skip(j) == s.skip(j + 1));
        }
        lemma_find_sub_none(s.drop_first(), m);
    }
}

/// Position of the first occurrence of the non-empty `m` in `s`.
pub fn find_slice(s: &[char], m: &[char]) -> (res: Option<usize>)
    requires
        m@.len() > 0,
    ensures
        match res {
            Some(i) => i + m@.len() <= s@.len() && find_sub(s@, m@) == Some(i as int),
            None => find_sub(s@, m@) is None,
        },
{
    let mut i: usize = 0;
    while i < s.len()
        invariant
            i <= s@.len(),
            m@.len() > 0,
            forall|j: int| 0 <= j < i ==> !has_prefix(#[trigger] s@.skip(j), m@),
        decreases s@.len() - i,
    {
        let rest = slice_range(s, i, s.len());
        assert(rest@ == s@.skip(i as int));
        if starts_with(rest, m) {
            proof { lemma_find_sub_at(s@, m@, i as int); }
            return Some(i);
        }
        i += 1;
    }
    proof {
        assert(!has_prefix(s@.skip(s@.len() as int), m@));
        lemma_find_sub_none(s@, m@);
    }
    None
}

/// The path fragment that marks a registry checkout.
pub open spec fn registry_marker() -> Seq<char> {
    "/registry/src/"@
}

/// If `token` is a source path under a registry checkout for `pkg`, the
/// `"{name}-{version}"` package directory component.
pub open spec fn spec_registry_pkgdir(token: Seq<char>, pkg: Seq<char>) -> Option<Seq<char>> {
    match find_sub(token, registry_marker()) {
        None => None,
        Some(p) => {
            let after = token.skip(p + registry_marker().len());
            match find(after, '/') {
                None => None,
                Some(j) => {
                    let b = after.skip(j + 1);
                    let pkgdir = match find(b, '/') {
                        None => b,
                        Some(k) => b.take(k),
                    };
                    if has_prefix(pkgdir, pkg.push('-')) {
                        Some(pkgdir)
                    } else {
                        None
                    }
                },
            }
        },
    }
}

/// If `token` is a source path under a registry checkout for `pkg_name`, return
/// the `"{name}-{version}"` package directory component.
pub fn registry_pkgdir(token: &[char], pkg_name: &[char]) -> (res: Option<Vec<char>>)
    ensures
        match res {
            Some(d) => spec_registry_pkgdir(token@, pkg_name@) == Some(d@),
            None => spec_registry_pkgdir(token@, pkg_name@) is None,
        },
{
    let marker = chars_of("/registry/src/");
    proof {
        reveal_strlit("/registry/src/");
    }
    assert(marker@.len() == 14);
    let p = match find_slice(token, marker.as_slice()) {
        Some(p) => p,
        None => return None,
    };
    let tl = token.len();
    assert(p + marker@.len() <= tl);
    let after = slice_range(token, p + marker.len(), tl);
    assert(after@ == token@.skip(p + marker@.len()));
    let j = match find_char(after, '/') {
        Some(j) => j,
        None => return None,
    };
    let b = slice_range(after, j + 1, after.len());
    assert(b@ == after@.skip(j + 1));
    let pkgdir = match find_char(b, '/') {
        Some(k) => {
            assert(b@.subrange(0, k as int) == b@.take(k as int));
            slice_range(b, 0, k)
        },
        None => {
            assert(b@.subrange(0, b@.len() as int) == b@);
            slice_range(b, 0, b.len())
        },
    };
    let mut prefix: Vec<char> = to_vec(pkg_name);
    prefix.push('-');
    assert(prefix@ == pkg_name@.push('-'));
    if starts_with(pkgdir, prefix.as_slice()) {
        Some(to_vec(pkgdir))
    } else {
        None
    }
}

/// `char::is_whitespace`: the Unicode `White_Space` property.
pub open spec fn is_ws(c: char) -> bool {
    ||| ('\u{9}' <= c && c <= '\u{d}')
    ||| c == ' '
    ||| c == '\u{85}'
    ||| c == '\u{a0}'
    ||| c == '\u{1680}'
    ||| ('\u{2000}' <= c && c <= '\u{200a}')
    ||| c == '\u{2028}'
    ||| c == '\u{2029}'
    ||| c == '\u{202f}'
    ||| c == '\u{205f}'
    ||| c == '\u{3000}'
}

pub fn whitespace(c: char) -> (res: bool)
    ensures
        res == is_ws(c),
{
    ('\u{9}' <= c && c <= '\u{d}') || c == ' ' || c == '\u{85}' || c == '\u{a0}' || c
        == '\u{1680}' || ('\u{2000}' <= c && c <= '\u{200a}') || c == '\u{2028}' || c
        == '\u{2029}' || c == '\u{202f}' || c == '\u{205f}' || c == '\u{3000}'
}

/// The word under construction, as a list of zero or one words.
pub open spec fn flush(cur: Seq<char>) -> Seq<Seq<char>> {
    if cur.len() > 0 {
        seq![cur]
    } else {
        Seq::empty()
    }
}

/// The maximal runs of non-whitespace characters of `s`, continuing a word
/// `cur` already begun (`str::split_whitespace`).
pub open spec fn words_from(s: Seq<char>, cur: Seq<char>) -> Seq<Seq<char>>
    decreases s.len(),
{
    if s.len() == 0 {
        flush(cur)
    } else if is_ws(s[0]) {
        flush(cur) + words_from(s.drop_first(), Seq::empty())
    } else {
        words_from(s.drop_first(), cur.push(s[0]))
    }
}

pub open spec fn words(s: Seq<char>) -> Seq<Seq<char>> {
    words_from(s, Seq::empty())
}

/// The character sequences held by a list of character vectors.
pub open spec fn views_of(v: Seq<Vec<char>>) -> Seq<Seq<char>> {
    Seq::new(v.len(), |i: int| v[i]@)
}

/// `str::split_whitespace`, collected.
pub fn split_whitespace(s: &[char]) -> (res: Vec<Vec<char>>)
    ensures
        views_of(res@) == words(s@),
{
    let mut out: Vec<Vec<char>> = Vec::new();
    let mut cur: Vec<char> = Vec::new();
    let mut i: usize = 0;
    assert(s@.skip(0) == s@);
    while i < s.len()
        invariant
            i <= s@.len(),
            views_of(out@) + words_from(s@.skip(i as int), cur@) == words(s@),
        decreases s@.len() - i,
    {
        let ghost old_out = out@;
        let ghost old_cur = cur@;
        assert(s@.skip(i as int).drop_first() == s@.skip(i + 1));
        assert(s@.skip(i as int)[0] == s@[i as int]);
        if whitespace(s[i]) {
            let ghost rest = words_from(s@.skip(i + 1), Seq::empty());
            assert(words_from(s@.skip(i as int), old_cur) == flush(old_cur) + rest);
            if cur.len() > 0 {
                let w = cur;
                out.push(w);
                cur = Vec::new();
                assert(views_of(out@) =~= views_of(old_out) + flush(old_cur));
                assert(views_of(out@) + rest =~= views_of(old_out) + (flush(old_cur) + rest));
            } else {
                assert(cur@ =~= Seq::<char>::empty());
                assert(flush(old_cur) + rest =~= rest);
            }
        } else {
            cur.push(s[i]);
            assert(words_from(s@.skip(i as int), old_cur) == words_from(s@.skip(i + 1), cur@));
        }
        assert(views_of(out@) + words_from(s@.skip(i + 1), cur@) == words(s@));
        i += 1;
    }
    if cur.len() > 0 {
        let ghost old_out = out@;
        let w = cur;
        out.push(w);
        assert(views_of(out@) == views_of(old_out) + flush(w@));
    } else {
        assert(views_of(out@) + flush(cur@) == views_of(out@));
    }
    out
}

// ---------------------------------------------------------------------------
// Versions and kinds
// ---------------------------------------------------------------------------

/// Which package identity a unit belongs to.
#[derive(Debug, Clone, PartialEq, Eq)]
pub enum Version {
    /// A registry crate, keyed as `"{name}-{version}"` (matches `LiveSet`).
    Registry(String),
    /// A path/git/workspace package, identified by name only (these don't
    /// accumulate stale versions in `target/`; only removal matters).
    Local(String),
    /// No depfile to read a version from (a build-script *run* unit).
    Unknown,
}

/// The mathematical content of a [`Version`].
pub enum VersionView {
    Registry(Seq<char>),
    Local(Seq<char>),
    Unknown,
}

impl View for Version {
    type V = VersionView;

    open spec fn view(&self) -> VersionView {
        match self {
            Version::Registry(s) => VersionView::Registry(s@),
            Version::Local(s) => VersionView::Local(s@),
            Version::Unknown => VersionView::Unknown,
        }
    }
}

/// A rough classification of the unit, mostly to spot build-script run units.
#[derive(Debug, Clone, Copy, PartialEq, Eq, Structural)]
pub enum UnitKind {
    Lib,
    Bin,
    BuildScriptCompile,
    BuildScriptRun,
    Other,
}

/// The registry package directory named by the first token of a depfile that
/// has one.
pub open spec fn first_registry(toks: Seq<Seq<char>>, pkg: Seq<char>) -> Option<Seq<char>> {
    first_some(toks, |t: Seq<char>| spec_registry_pkgdir(t, pkg))
}

/// Some token is a path (holds a `/`).
pub open spec fn has_path_token(toks: Seq<Seq<char>>) -> bool {
    exists|i: int| 0 <= i < toks.len() && find(#[trigger] toks[i], '/') is Some
}

/// The version a depfile pins `pkg` to: the first registry source path wins;
/// failing that, any source path makes it a local package.
pub open spec fn spec_version_from_depfile(text: Seq<char>, pkg: Seq<char>) -> Option<VersionView> {
    let toks = words(text);
    match first_registry(toks, pkg) {
        Some(d) => Some(VersionView::Registry(d)),
        None => if has_path_token(toks) {
            Some(VersionView::Local(pkg))
        } else {
            None
        },
    }
}

/// Read the version a depfile pins `pkg_name` to.
pub fn version_from_depfile(text: &str, pkg_name: &str) -> (res: Option<Version>)
    ensures
        match res {
            Some(v) => spec_version_from_depfile(text@, pkg_name@) == Some(v@),
            None => spec_version_from_depfile(text@, pkg_name@) is None,
        },
{
    let pkg = chars_of(pkg_name);
    let cs = chars_of(text);
    let toks = split_whitespace(cs.as_slice());
    let ghost ts = words(text@);
    let ghost f = |t: Seq<char>| spec_registry_pkgdir(t, pkg_name@);
    let mut saw_source = false;
    let mut i: usize = 0;
    while i < toks.len()
        invariant
            i <= toks@.len(),
            views_of(toks@) == ts,
            ts == words(text@),
            pkg@ == pkg_name@,
            f == (|t: Seq<char>| spec_registry_pkgdir(t, pkg_name@)),
            forall|j: int| 0 <= j < i ==> f(#[trigger] ts[j]) is None,
            saw_source == exists|j: int| 0 <= j < i && find(#[trigger] ts[j], '/') is Some,
        decreases toks@.len() - i,
    {
        let tok = toks[i].as_slice();
        assert(tok@ == ts[i as int]);
        match registry_pkgdir(tok, pkg.as_slice()) {
            Some(dir) => {
                proof {
                    lemma_first_some_skip(ts, f, i as int);
                    assert(ts.skip(i as int)[0] == ts[i as int]);
                    assert(f(ts[i as int]) == Some(dir@));
                }
                return Some(Version::Registry(string_of(dir.as_slice())));
            },
            None => {},
        }
        if find_char(tok, '/').is_some() {
            saw_source = true;
        }
        i += 1;
    }
    proof {
        lemma_first_some_skip(ts, f, ts.len() as int);
    }
    if saw_source {
        Some(Version::Local(crate::text::owned(pkg_name)))
    } else {
        None
    }
}

/// The version of a unit given the depfiles found among its paths, in order:
/// the first depfile that pins one decides.
pub open spec fn spec_resolve_version(pkg: Seq<char>, texts: Seq<Seq<char>>) -> VersionView {
    match first_some(texts, |t: Seq<char>| spec_version_from_depfile(t, pkg)) {
        Some(v) => v,
        None => VersionView::Unknown,
    }
}

/// Determine a unit's version from the texts of its depfiles, in order.
pub fn resolve_version(pkg_name: &str, depfiles: &Vec<String>) -> (res: Version)
    ensures
        res@ == spec_resolve_version(pkg_name@, strings_view(depfiles@)),
{
    let ghost ts = strings_view(depfiles@);
    let ghost f = |t: Seq<char>| spec_version_from_depfile(t, pkg_name@);
    let mut i: usize = 0;
    while i < depfiles.len()
        invariant
            i <= depfiles@.len(),
            ts == strings_view(depfiles@),
            f == (|t: Seq<char>| spec_version_from_depfile(t, pkg_name@)),
            forall|j: int| 0 <= j < i ==> f(#[trigger] ts[j]) is None,
        decreases depfiles@.len() - i,
    {
        match version_from_depfile(depfiles[i].as_str(), pkg_name) {
            Some(v) => {
                proof {
                    lemma_first_some_skip(ts, f, i as int);
                    assert(ts.skip(i as int)[0] == ts[i as int]);
                }
                return v;
            },
            None => {},
        }
        i += 1;
    }
    proof {
        lemma_first_some_skip(ts, f, ts.len() as int);
    }
    Version::Unknown
}

/// The kind a fingerprint marker file name announces, if any.
pub open spec fn spec_marker_kind(name: Seq<char>) -> Option<UnitKind> {
    if has_prefix(name, "run-build-script"@) {
        Some(UnitKind::BuildScriptRun)
    } else if has_prefix(name, "build-script"@) || has_prefix(name, "build_script"@) {
        Some(UnitKind::BuildScriptCompile)
    } else if has_prefix(name, "lib-"@) {
        Some(UnitKind::Lib)
    } else if has_prefix(name, "bin-"@) {
        Some(UnitKind::Bin)
    } else {
        None
    }
}

/// The kind of a unit: the first marker file (in listing order) that announces
/// one decides; otherwise `Other`.
pub open spec fn spec_classify(markers: Seq<Seq<char>>) -> UnitKind {
    match first_some(markers, |m: Seq<char>| spec_marker_kind(m)) {
        Some(k) => k,
        None => UnitKind::Other,
    }
}

/// The kind announced by one marker file name.
pub fn marker_kind(name: &str) -> (res: Option<UnitKind>)
    ensures
        res == spec_marker_kind(name@),
{
    let cs = chars_of(name);
    let run = chars_of("run-build-script");
    let bs_dash = chars_of("build-script");
    let bs_under = chars_of("build_script");
    let lib = chars_of("lib-");
    let bin = chars_of("bin-");
    if starts_with(cs.as_slice(), run.as_slice()) {
        Some(UnitKind::BuildScriptRun)
    } else if starts_with(cs.as_slice(), bs_dash.as_slice()) || starts_with(
        cs.as_slice(),
        bs_under.as_slice(),
    ) {
        Some(UnitKind::BuildScriptCompile)
    } else if starts_with(cs.as_slice(), lib.as_slice()) {
        Some(UnitKind::Lib)
    } else if starts_with(cs.as_slice(), bin.as_slice()) {
        Some(UnitKind::Bin)
    } else {
        None
    }
}

/// Classify a unit by the marker files cargo writes in its fingerprint dir
/// (their names, in listing order).
pub fn classify(markers: &Vec<String>) -> (res: UnitKind)
    ensures
        res == spec_classify(strings_view(markers@)),
{
    let ghost ms = strings_view(markers@);
    let ghost f = |m: Seq<char>| spec_marker_kind(m);
    let mut i: usize = 0;
    while i < markers.len()
        invariant
            i <= markers@.len(),
            ms == strings_view(markers@),
            f == (|m: Seq<char>| spec_marker_kind(m)),
            forall|j: int| 0 <= j < i ==> f(#[trigger] ms[j]) is None,
        decreases markers@.len() - i,
    {
        match marker_kind(markers[i].as_str()) {
            Some(k) => {
                proof {
                    lemma_first_some_skip(ms, f, i as int);
                    assert(ms.skip(i as int)[0] == ms[i as int]);
                }
                return k;
            },
            None => {},
        }
        i += 1;
    }
    proof {
        lemma_first_some_skip(ms, f, ms.len() as int);
    }
    UnitKind::Other
}

// ---------------------------------------------------------------------------
// Units
// ---------------------------------------------------------------------------

/// One entry of `<profile>/deps/`: its file name and path, its text when it is
/// a readable depfile (`*.d`), and its size in bytes.
pub struct DepsEntry {
    pub name: String,
    pub path: String,
    pub depfile: Option<String>,
    pub bytes: u64,
}

/// One directory of `<profile>/.fingerprint/`: its name and path, the names of
/// the files inside it (in listing order), and its size in bytes.
pub struct FingerprintDir {
    pub name: String,
    pub path: String,
    pub markers: Vec<String>,
    pub bytes: u64,
}

/// One directory of `<profile>/build/`: its name and path, the texts of the
/// readable depfiles inside it (in listing order), and its size in bytes.
pub struct BuildDir {
    pub name: String,
    pub path: String,
    pub depfiles: Vec<String>,
    pub bytes: u64,
}

/// What one profile root (`debug`, `release`, `<triple>/debug`, ...) holds.
pub struct ProfileListing {
    pub deps: Vec<DepsEntry>,
    pub fingerprints: Vec<FingerprintDir>,
    pub builds: Vec<BuildDir>,
}

/// One reconstructed build unit and every file/dir that belongs to it.
#[derive(Debug, Clone)]
pub struct Unit {
    /// Hyphenated package name (as used in the fingerprint/build dir names).
    pub pkg_name: String,
    /// The 16-hex metadata hash shared by this unit's files.
    pub hash: String,
    pub kind: UnitKind,
    pub version: Version,
    /// Files and directories owned exclusively by this unit.
    pub paths: Vec<String>,
    /// Total bytes across `paths`.
    pub bytes: u64,
}

/// The mathematical content of a [`Unit`].
pub struct UnitView {
    pub pkg_name: Seq<char>,
    pub hash: Seq<char>,
    pub kind: UnitKind,
    pub version: VersionView,
    pub paths: Seq<Seq<char>>,
    pub bytes: nat,
}

impl View for Unit {
    type V = UnitView;

    open spec fn view(&self) -> UnitView {
        UnitView {
            pkg_name: self.pkg_name@,
            hash: self.hash@,
            kind: self.kind,
            version: self.version@,
            paths: strings_view(self.paths@),
            bytes: self.bytes as nat,
        }
    }
}

pub open spec fn units_view(us: Seq<Unit>) -> Seq<UnitView> {
    Seq::new(us.len(), |i: int| us[i]@)
}

/// The hash a fingerprint directory's name carries.
pub open spec fn fp_hash(fp: FingerprintDir) -> Option<Seq<char>> {
    match spec_split_name_hash(fp.name@) {
        Some((_, h)) => Some(h),
        None => None,
    }
}

/// How many fingerprint directories carry hash `h`.
pub open spec fn hash_count(fps: Seq<FingerprintDir>, h: Seq<char>) -> nat
    decreases fps.len(),
{
    if fps.len() == 0 {
        0
    } else {
        hash_count(fps.drop_last(), h) + if fp_hash(fps.last()) == Some(h) {
            1nat
        } else {
            0nat
        }
    }
}

/// The `deps/` entries owned by hash `h`, in listing order.
pub open spec fn deps_of(ds: Seq<DepsEntry>, h: Seq<char>) -> Seq<DepsEntry>
    decreases ds.len(),
{
    if ds.len() == 0 {
        Seq::empty()
    } else if spec_deps_file_hash(ds.last().name@) == Some(h) {
        deps_of(ds.drop_last(), h).push(ds.last())
    } else {
        deps_of(ds.drop_last(), h)
    }
}

/// The texts of the depfiles among `ds`, in order.
pub open spec fn dep_texts(ds: Seq<DepsEntry>) -> Seq<Seq<char>>
    decreases ds.len(),
{
    if ds.len() == 0 {
        Seq::empty()
    } else {
        match ds.last().depfile {
            Some(t) => dep_texts(ds.drop_last()).push(t@),
            None => dep_texts(ds.drop_last()),
        }
    }
}

pub open spec fn deps_bytes(ds: Seq<DepsEntry>) -> nat
    decreases ds.len(),
{
    if ds.len() == 0 {
        0
    } else {
        deps_bytes(ds.drop_last()) + ds.last().bytes as nat
    }
}

pub open spec fn fps_bytes(fps: Seq<FingerprintDir>) -> nat
    decreases fps.len(),
{
    if fps.len() == 0 {
        0
    } else {
        fps_bytes(fps.drop_last()) + fps.last().bytes as nat
    }
}

pub open spec fn builds_bytes(bs: Seq<BuildDir>) -> nat
    decreases bs.len(),
{
    if bs.len() == 0 {
        0
    } else {
        builds_bytes(bs.drop_last()) + bs.last().bytes as nat
    }
}

/// The size of everything a listing holds.
pub open spec fn listing_bytes(l: ProfileListing) -> nat {
    fps_bytes(l.fingerprints@) + deps_bytes(l.deps@) + builds_bytes(l.builds@)
}

/// The `build/` directory named `name`, if the listing holds one.
pub open spec fn build_of(bs: Seq<BuildDir>, name: Seq<char>) -> Option<BuildDir> {
    first_some(bs, |b: BuildDir| if b.name@ == name { Some(b) } else { None })
}

/// The unit a fingerprint directory stands for: none when its name is not
/// `<pkg>-<16hex>` or when another fingerprint directory of the same profile
/// carries the same hash (a collision makes both units unattributable).
pub open spec fn spec_unit(l: ProfileListing, fp: FingerprintDir) -> Option<UnitView> {
    match spec_split_name_hash(fp.name@) {
        None => None,
        Some((pkg, h)) => if hash_count(l.fingerprints@, h) > 1 {
            None
        } else {
            let ds = deps_of(l.deps@, h);
            let b = build_of(l.builds@, fp.name@);
            let paths = seq![fp.path@] + ds.map_values(|d: DepsEntry| d.path@) + match b {
                Some(b) => seq![b.path@],
                None => Seq::empty(),
            };
            let texts = dep_texts(ds) + match b {
                Some(b) => strings_view(b.depfiles@),
                None => Seq::empty(),
            };
            let bytes = fp.bytes as nat + deps_bytes(ds) + match b {
                Some(b) => b.bytes as nat,
                None => 0nat,
            };
            Some(
                UnitView {
                    pkg_name: pkg,
                    hash: h,
                    kind: spec_classify(strings_view(fp.markers@)),
                    version: spec_resolve_version(pkg, texts),
                    paths,
                    bytes,
                },
            )
        },
    }
}

/// The units of the fingerprint directories `fps`, in order.
pub open spec fn spec_profile_units(l: ProfileListing, fps: Seq<FingerprintDir>) -> Seq<UnitView>
    decreases fps.len(),
{
    if fps.len() == 0 {
        Seq::empty()
    } else {
        match spec_unit(l, fps.last()) {
            Some(u) => spec_profile_units(l, fps.drop_last()).push(u),
            None => spec_profile_units(l, fps.drop_last()),
        }
    }
}

proof fn lemma_deps_of_bytes(ds: Seq<DepsEntry>, h: Seq<char>)
    ensures
        deps_bytes(deps_of(ds, h)) <= deps_bytes(ds),
    decreases ds.len(),
{
    if ds.len() > 0 {
        lemma_deps_of_bytes(ds.drop_last(), h);
        if spec_deps_file_hash(ds.last().name@) == Some(h) {
            let d = deps_of(ds.drop_last(), h);
            assert(d.push(ds.last()).drop_last() == d);
        }
    }
}

proof fn lemma_fp_bytes(fps: Seq<FingerprintDir>, i: int)
    requires
        0 <= i < fps.len(),
    ensures
        fps[i].bytes <= fps_bytes(fps),
    decreases fps.len(),
{
    if i < fps.len() - 1 {
        lemma_fp_bytes(fps.drop_last(), i);
    }
}

proof fn lemma_build_bytes(bs: Seq<BuildDir>, name: Seq<char>)
    ensures
        build_of(bs, name) matches Some(b) ==> b.bytes <= builds_bytes(bs),
    decreases bs.len(),
{
    let f = |b: BuildDir| if b.name@ == name { Some(b) } else { None };
    if bs.len() > 0 {
        if bs[0].name@ == name {
            lemma_first_build_bytes(bs, 0);
        } else {
            lemma_build_bytes(bs.drop_first(), name);
            lemma_builds_bytes_first(bs);
        }
    }
}

proof fn lemma_first_build_bytes(bs: Seq<BuildDir>, i: int)
    requires
        0 <= i < bs.len(),
    ensures
        bs[i].bytes <= builds_bytes(bs),
    decreases bs.len(),
{
    if i < bs.len() - 1 {
        lemma_first_build_bytes(bs.drop_last(), i);
    }
}

proof fn lemma_builds_bytes_first(bs: Seq<BuildDir>)
    requires
        bs.len() > 0,
    ensures
        builds_bytes(bs) == bs[0].bytes + builds_bytes(bs.drop_first()),
    decreases bs.len(),
{
    if bs.len() > 1 {
        lemma_builds_bytes_first(bs.drop_last());
        assert(bs.drop_last().drop_first() == bs.drop_first().drop_last());
        assert(bs.drop_first().last() == bs.last());
        assert(bs.drop_last()[0] == bs[0]);
        assert(builds_bytes(bs.drop_first()) == builds_bytes(bs.drop_first().drop_last())
            + bs.drop_first().last().bytes);
    } else {
        assert(bs.drop_first().len() == 0);
        assert(builds_bytes(bs.drop_last()) == 0);
        assert(builds_bytes(bs.drop_first()) == 0);
    }
}

/// The split name of every fingerprint directory.
fn fingerprint_names(fps: &Vec<FingerprintDir>) -> (res: Vec<Option<(String, String)>>)
    ensures
        res@.len() == fps@.len(),
        forall|i: int|
            0 <= i < fps@.len() ==> match #[trigger] res@[i] {
                Some((n, h)) => spec_split_name_hash(fps@[i].name@) == Some((n@, h@)),
                None => spec_split_name_hash(fps@[i].name@) is None,
            },
{
    let mut out: Vec<Option<(String, String)>> = Vec::new();
    let mut i: usize = 0;
    while i < fps.len()
        invariant
            i <= fps@.len(),
            out@.len() == i,
            forall|j: int|
                0 <= j < i ==> match #[trigger] out@[j] {
                    Some((n, h)) => spec_split_name_hash(fps@[j].name@) == Some((n@, h@)),
                    None => spec_split_name_hash(fps@[j].name@) is None,
                },
        decreases fps@.len() - i,
    {
        out.push(split_name_hash(fps[i].name.as_str()));
        i += 1;
    }
    out
}

/// The owning hash of every `deps/` entry.
fn deps_hashes(ds: &Vec<DepsEntry>) -> (res: Vec<Option<String>>)
    ensures
        res@.len() == ds@.len(),
        forall|i: int|
            0 <= i < ds@.len() ==> match #[trigger] res@[i] {
                Some(h) => spec_deps_file_hash(ds@[i].name@) == Some(h@),
                None => spec_deps_file_hash(ds@[i].name@) is None,
            },
{
    let mut out: Vec<Option<String>> = Vec::new();
    let mut i: usize = 0;
    while i < ds.len()
        invariant
            i <= ds@.len(),
            out@.len() == i,
            forall|j: int|
                0 <= j < i ==> match #[trigger] out@[j] {
                    Some(h) => spec_deps_file_hash(ds@[j].name@) == Some(h@),
                    None => spec_deps_file_hash(ds@[j].name@) is None,
                },
        decreases ds@.len() - i,
    {
        out.push(deps_file_hash(ds[i].name.as_str()));
        i += 1;
    }
    out
}

/// How many fingerprint directories carry hash `h`.
fn count_hash(fps: &Vec<FingerprintDir>, names: &Vec<Option<(String, String)>>, h: &String) -> (res: usize)
    requires
        names@.len() == fps@.len(),
        forall|i: int|
            0 <= i < fps@.len() ==> match #[trigger] names@[i] {
                Some((n, hh)) => spec_split_name_hash(fps@[i].name@) == Some((n@, hh@)),
                None => spec_split_name_hash(fps@[i].name@) is None,
            },
    ensures
        res == hash_count(fps@, h@),
{
    let mut count: usize = 0;
    let mut i: usize = 0;
    while i < names.len()
        invariant
            i <= fps@.len(),
            names@.len() == fps@.len(),
            forall|k: int|
                0 <= k < fps@.len() ==> match #[trigger] names@[k] {
                    Some((n, hh)) => spec_split_name_hash(fps@[k].name@) == Some((n@, hh@)),
                    None => spec_split_name_hash(fps@[k].name@) is None,
                },
            count == hash_count(fps@.take(i as int), h@),
            count <= i,
        decreases fps@.len() - i,
    {
        assert(fps@.take(i + 1).drop_last() == fps@.take(i as int));
        assert(fps@.take(i + 1).last() == fps@[i as int]);
        let hit = match &names[i] {
            Some((_, hh)) => *hh == *h,
            None => false,
        };
        if hit {
            count += 1;
        }
        i += 1;
    }
    assert(fps@.take(fps@.len() as int) == fps@);
    count
}

/// The paths, depfile texts and total size of the `deps/` entries owned by
/// hash `h`.
fn gather_deps(ds: &Vec<DepsEntry>, hashes: &Vec<Option<String>>, h: &String) -> (res: (
    Vec<String>,
    Vec<String>,
    u64,
))
    requires
        hashes@.len() == ds@.len(),
        forall|i: int|
            0 <= i < ds@.len() ==> match #[trigger] hashes@[i] {
                Some(hh) => spec_deps_file_hash(ds@[i].name@) == Some(hh@),
                None => spec_deps_file_hash(ds@[i].name@) is None,
            },
        deps_bytes(ds@) <= u64::MAX,
    ensures
        strings_view(res.0@) == deps_of(ds@, h@).map_values(|d: DepsEntry| d.path@),
        strings_view(res.1@) == dep_texts(deps_of(ds@, h@)),
        res.2 == deps_bytes(deps_of(ds@, h@)),
{
    let mut paths: Vec<String> = Vec::new();
    let mut texts: Vec<String> = Vec::new();
    let mut bytes: u64 = 0;
    let mut i: usize = 0;
    while i < ds.len()
        invariant
            i <= ds@.len(),
            hashes@.len() == ds@.len(),
            forall|k: int|
                0 <= k < ds@.len() ==> match #[trigger] hashes@[k] {
                    Some(hh) => spec_deps_file_hash(ds@[k].name@) == Some(hh@),
                    None => spec_deps_file_hash(ds@[k].name@) is None,
                },
            deps_bytes(ds@) <= u64::MAX,
            strings_view(paths@) == deps_of(ds@.take(i as int), h@).map_values(|d: DepsEntry| d.path@),
            strings_view(texts@) == dep_texts(deps_of(ds@.take(i as int), h@)),
            bytes == deps_bytes(deps_of(ds@.take(i as int), h@)),
        decreases ds@.len() - i,
    {
        let ghost pre = ds@.take(i as int);
        let ghost sel = deps_of(pre, h@);
        assert(ds@.take(i + 1).drop_last() == pre);
        assert(ds@.take(i + 1).last() == ds@[i as int]);
        let hit = match &hashes[i] {
            Some(hh) => *hh == *h,
            None => false,
        };
        if hit {
            let d = &ds[i];
            proof {
                lemma_deps_of_bytes(ds@.take(i + 1), h@);
                lemma_deps_bytes_prefix(ds@, i + 1);
                assert(deps_of(ds@.take(i + 1), h@) == sel.push(ds@[i as int]));
                assert(sel.push(ds@[i as int]).drop_last() == sel);
            }
            let ghost old_paths = paths@;
            let p = d.path.clone();
            paths.push(p);
            proof {
                lemma_strings_view_push(old_paths, p);
            }
            assert(strings_view(paths@) =~= sel.push(ds@[i as int]).map_values(|d: DepsEntry| d.path@));
            match &d.depfile {
                Some(t) => {
                    let ghost old_texts = texts@;
                    let tc = t.clone();
                    texts.push(tc);
                    proof {
                        lemma_strings_view_push(old_texts, tc);
                    }
                    assert(strings_view(texts@) =~= dep_texts(sel).push(t@));
                },
                None => {},
            }
            bytes = bytes + d.bytes;
        } else {
            assert(deps_of(ds@.take(i + 1), h@) == sel);
        }
        i += 1;
    }
    assert(ds@.take(ds@.len() as int) == ds@);
    (paths, texts, bytes)
}

proof fn lemma_deps_bytes_prefix(ds: Seq<DepsEntry>, n: int)
    requires
        0 <= n <= ds.len(),
    ensures
        deps_bytes(ds.take(n)) <= deps_bytes(ds),
    decreases ds.len(),
{
    if n < ds.len() {
        assert(ds.drop_last().take(n) == ds.take(n));
        lemma_deps_bytes_prefix(ds.drop_last(), n);
    } else {
        assert(ds.take(n) == ds);
    }
}

/// The position of the first `build/` directory named `name`.
fn find_build(bs: &Vec<BuildDir>, name: &String) -> (res: Option<usize>)
    ensures
        match res {
            Some(i) => i < bs@.len() && build_of(bs@, name@) == Some(bs@[i as int]),
            None => build_of(bs@, name@) is None,
        },
{
    let ghost f = |b: BuildDir| if b.name@ == name@ { Some(b) } else { None };
    let mut i: usize = 0;
    while i < bs.len()
        invariant
            i <= bs@.len(),
            f == (|b: BuildDir| if b.name@ == name@ { Some(b) } else { None }),
            forall|j: int| 0 <= j < i ==> f(#[trigger] bs@[j]) is None,
        decreases bs@.len() - i,
    {
        if bs[i].name == *name {
            proof {
                lemma_first_some_skip(bs@, f, i as int);
                assert(bs@.skip(i as int)[0] == bs@[i as int]);
            }
            return Some(i);
        }
        i += 1;
    }
    proof {
        lemma_first_some_skip(bs@, f, bs@.len() as int);
    }
    None
}

/// Reconstruct the build units of one profile root.
pub fn collect_profile_units(l: &ProfileListing) -> (res: Vec<Unit>)
    requires
        listing_bytes(*l) <= u64::MAX,
    ensures
        units_view(res@) == spec_profile_units(*l, l.fingerprints@),
{
    let names = fingerprint_names(&l.fingerprints);
    let hashes = deps_hashes(&l.deps);
    let mut units: Vec<Unit> = Vec::new();
    let mut i: usize = 0;
    while i < l.fingerprints.len()
        invariant
            i <= l.fingerprints@.len(),
            listing_bytes(*l) <= u64::MAX,
            names@.len() == l.fingerprints@.len(),
            forall|k: int|
                0 <= k < l.fingerprints@.len() ==> match #[trigger] names@[k] {
                    Some((n, hh)) => spec_split_name_hash(l.fingerprints@[k].name@) == Some((n@, hh@)),
                    None => spec_split_name_hash(l.fingerprints@[k].name@) is None,
                },
            hashes@.len() == l.deps@.len(),
            forall|k: int|
                0 <= k < l.deps@.len() ==> match #[trigger] hashes@[k] {
                    Some(hh) => spec_deps_file_hash(l.deps@[k].name@) == Some(hh@),
                    None => spec_deps_file_hash(l.deps@[k].name@) is None,
                },
            units_view(units@) == spec_profile_units(*l, l.fingerprints@.take(i as int)),
        decreases l.fingerprints@.len() - i,
    {
        let ghost fps = l.fingerprints@;
        let ghost before = units_view(units@);
        assert(fps.take(i + 1).drop_last() == fps.take(i as int));
        assert(fps.take(i + 1).last() == fps[i as int]);
        let fp = &l.fingerprints[i];
        match &names[i] {
            None => {},
            Some((pkg, h)) => {
                let count = count_hash(&l.fingerprints, &names, h);
                if count <= 1 {
                    proof {
                        lemma_deps_of_bytes(l.deps@, h@);
                        lemma_fp_bytes(fps, i as int);
                        lemma_build_bytes(l.builds@, fp.name@);
                    }
                    let (mut paths, mut texts, dep_bytes) = gather_deps(&l.deps, &hashes, h);
                    let ghost dep_paths = strings_view(paths@);
                    let ghost dep_texts_v = strings_view(texts@);
                    let mut all_paths: Vec<String> = Vec::new();
                    all_paths.push(fp.path.clone());
                    all_paths.append(&mut paths);
                    let mut bytes: u64 = fp.bytes + dep_bytes;
                    match find_build(&l.builds, &fp.name) {
                        Some(b) => {
                            let bd = &l.builds[b];
                            all_paths.push(bd.path.clone());
                            let mut more = copy_strings(&bd.depfiles);
                            texts.append(&mut more);
                            bytes = bytes + bd.bytes;
                        },
                        None => {},
                    }
                    let kind = classify(&fp.markers);
                    let version = resolve_version(pkg.as_str(), &texts);
                    let unit = Unit {
                        pkg_name: pkg.clone(),
                        hash: h.clone(),
                        kind,
                        version,
                        paths: all_paths,
                        bytes,
                    };
                    proof {
                        let u = spec_unit(*l, fps[i as int]).unwrap();
                        assert(strings_view(unit.paths@) =~= u.paths);
                        assert(strings_view(texts@) =~= dep_texts(deps_of(l.deps@, h@)) + match build_of(l.builds@, fp.name@) {
                            Some(b) => strings_view(b.depfiles@),
                            None => Seq::empty(),
                        });
                        assert(unit@ == u);
                    }
                    units.push(unit);
                    assert(units_view(units@) =~= before.push(spec_unit(*l, fps[i as int]).unwrap()));
                }
            },
        }
        i += 1;
    }
    assert(l.fingerprints@.take(l.fingerprints@.len() as int) == l.fingerprints@);
    units
}

/// The units of every profile root, root by root.
pub open spec fn spec_collect_units(ps: Seq<ProfileListing>) -> Seq<UnitView>
    decreases ps.len(),
{
    if ps.len() == 0 {
        Seq::empty()
    } else {
        spec_collect_units(ps.drop_last()) + spec_profile_units(ps.last(), ps.last().fingerprints@)
    }
}

proof fn lemma_units_view_add(a: Seq<Unit>, b: Seq<Unit>)
    ensures
        units_view(a + b) == units_view(a) + units_view(b),
{
    assert(units_view(a + b) =~= units_view(a) + units_view(b));
}

/// Reconstruct every build unit across every profile root.
pub fn collect_units(profiles: &Vec<ProfileListing>) -> (res: Vec<Unit>)
    requires
        forall|i: int| 0 <= i < profiles@.len() ==> listing_bytes(#[trigger] profiles@[i]) <= u64::MAX,
    ensures
        units_view(res@) == spec_collect_units(profiles@),
{
    let mut units: Vec<Unit> = Vec::new();
    let mut i: usize = 0;
    while i < profiles.len()
        invariant
            i <= profiles@.len(),
            forall|k: int| 0 <= k < profiles@.len() ==> listing_bytes(#[trigger] profiles@[k]) <= u64::MAX,
            units_view(units@) == spec_collect_units(profiles@.take(i as int)),
        decreases profiles@.len() - i,
    {
        assert(profiles@.take(i + 1).drop_last() == profiles@.take(i as int));
        assert(profiles@.take(i + 1).last() == profiles@[i as int]);
        let ghost before = units@;
        let mut more = collect_profile_units(&profiles[i]);
        let ghost added = more@;
        units.append(&mut more);
        proof {
            lemma_units_view_add(before, added);
        }
        i += 1;
    }
    assert(profiles@.take(profiles@.len() as int) == profiles@);
    units
}

// ---------------------------------------------------------------------------
// Laws
// ---------------------------------------------------------------------------

/// A split name puts the pieces back together: `<name>-<hash>` with a hash of
/// 16 hex digits.
pub proof fn lemma_split_name_hash_roundtrip(s: Seq<char>)
    ensures
        spec_split_name_hash(s) matches Some((name, hash)) ==> {
            &&& name + seq!['-'] + hash == s
            &&& hash.len() == 16
            &&& all_hex(hash)
        },
{
    match rfind(s, '-') {
        Some(i) => {
            lemma_rfind_at(s, '-');
            assert(s.take(i) + seq!['-'] + s.skip(i + 1) =~= s);
        },
        None => {},
    }
}

proof fn lemma_rfind_at(s: Seq<char>, c: char)
    ensures
        rfind(s, c) matches Some(i) ==> 0 <= i < s.len() && s[i] == c,
    decreases s.len(),
{
    if s.len() > 0 && s.last() != c {
        lemma_rfind_at(s.drop_last(), c);
    }
}

/// Units whose hash collides with another fingerprint directory of the same
/// profile are never reconstructed, so no live artifact is attributed to a
/// forged unit.
pub proof fn lemma_colliding_hashes_skipped(l: ProfileListing, fps: Seq<FingerprintDir>, h: Seq<char>)
    requires
        hash_count(l.fingerprints@, h) > 1,
    ensures
        forall|i: int|
            0 <= i < spec_profile_units(l, fps).len() ==> (#[trigger] spec_profile_units(l, fps)[i]).hash
                != h,
    decreases fps.len(),
{
    if fps.len() > 0 {
        lemma_colliding_hashes_skipped(l, fps.drop_last(), h);
        let prev = spec_profile_units(l, fps.drop_last());
        match spec_unit(l, fps.last()) {
            Some(u) => {
                assert forall|i: int| 0 <= i < spec_profile_units(l, fps).len() implies (
                #[trigger] spec_profile_units(l, fps)[i]).hash != h by {
                    if i < prev.len() {
                        assert(spec_profile_units(l, fps)[i] == prev[i]);
                    }
                }
            },
            None => {},
        }
    }
}

/// Every path a listing names: the fingerprint directories, then the `deps/`
/// entries, then the `build/` directories.
pub open spec fn listing_paths(l: ProfileListing) -> Seq<Seq<char>> {
    l.fingerprints@.map_values(|f: FingerprintDir| f.path@) + l.deps@.map_values(
        |d: DepsEntry| d.path@,
    ) + l.builds@.map_values(|b: BuildDir| b.path@)
}

/// Whether position `x` of `listing_paths(l)` may belong to the unit of the
/// fingerprint directory at position `a`: that directory itself, a `deps/`
/// entry carrying its hash, or a `build/` directory of its name.
pub open spec fn may_own(l: ProfileListing, a: int, x: int) -> bool {
    let nf = l.fingerprints@.len() as int;
    let nd = l.deps@.len() as int;
    let fa = l.fingerprints@[a];
    ||| x == a
    ||| (nf <= x < nf + nd && spec_deps_file_hash(l.deps@[x - nf].name@) == fp_hash(fa))
    ||| (nf + nd <= x && l.builds@[x - nf - nd].name@ == fa.name@)
}

proof fn lemma_deps_of_member(ds: Seq<DepsEntry>, h: Seq<char>, k: int) -> (m: int)
    requires
        0 <= k < deps_of(ds, h).len(),
    ensures
        0 <= m < ds.len(),
        ds[m] == deps_of(ds, h)[k],
        spec_deps_file_hash(ds[m].name@) == Some(h),
    decreases ds.len(),
{
    let prev = deps_of(ds.drop_last(), h);
    if spec_deps_file_hash(ds.last().name@) == Some(h) && k == prev.len() {
        (ds.len() - 1) as int
    } else {
        let m = lemma_deps_of_member(ds.drop_last(), h, k);
        assert(ds[m] == ds.drop_last()[m]);
        m
    }
}

proof fn lemma_build_of_member(bs: Seq<BuildDir>, name: Seq<char>) -> (m: int)
    requires
        build_of(bs, name) is Some,
    ensures
        0 <= m < bs.len(),
        build_of(bs, name) == Some(bs[m]),
        bs[m].name@ == name,
    decreases bs.len(),
{
    if bs[0].name@ == name {
        0
    } else {
        let m = lemma_build_of_member(bs.drop_first(), name);
        assert(bs[m + 1] == bs.drop_first()[m]);
        m + 1
    }
}

proof fn lemma_hash_count_pos(fps: Seq<FingerprintDir>, a: int, h: Seq<char>)
    requires
        0 <= a < fps.len(),
        fp_hash(fps[a]) == Some(h),
    ensures
        hash_count(fps, h) >= 1,
    decreases fps.len(),
{
    if a < fps.len() - 1 {
        assert(fps.drop_last()[a] == fps[a]);
        lemma_hash_count_pos(fps.drop_last(), a, h);
    }
}

proof fn lemma_hash_count_two(fps: Seq<FingerprintDir>, a: int, b: int, h: Seq<char>)
    requires
        0 <= a < b < fps.len(),
        fp_hash(fps[a]) == Some(h),
        fp_hash(fps[b]) == Some(h),
    ensures
        hash_count(fps, h) >= 2,
    decreases fps.len(),
{
    assert(fps.drop_last()[a] == fps[a]);
    if b < fps.len() - 1 {
        assert(fps.drop_last()[b] == fps[b]);
        lemma_hash_count_two(fps.drop_last(), a, b, h);
    } else {
        lemma_hash_count_pos(fps.drop_last(), a, h);
    }
}

/// Each path of the unit of the fingerprint directory at position `a` is a
/// path of the listing at a position that directory may own.
proof fn lemma_unit_path_position(l: ProfileListing, a: int, k: int) -> (x: int)
    requires
        0 <= a < l.fingerprints@.len(),
        spec_unit(l, l.fingerprints@[a]) matches Some(u) && 0 <= k < u.paths.len(),
    ensures
        0 <= x < listing_paths(l).len(),
        spec_unit(l, l.fingerprints@[a]) matches Some(u) && listing_paths(l)[x] == u.paths[k],
        may_own(l, a, x),
{
    let fps = l.fingerprints@;
    let fa = fps[a];
    let nf = fps.len() as int;
    let nd = l.deps@.len() as int;
    let lp = listing_paths(l);
    let h = fp_hash(fa)->Some_0;
    let ds = deps_of(l.deps@, h);
    let u = spec_unit(l, fa)->Some_0;
    if k == 0 {
        assert(lp[a] == fa.path@);
        a
    } else if k - 1 < ds.len() {
        let m = lemma_deps_of_member(l.deps@, h, k - 1);
        assert(u.paths[k] == ds[k - 1].path@);
        assert(lp[nf + m] == l.deps@[m].path@);
        nf + m
    } else {
        let m = lemma_build_of_member(l.builds@, fa.name@);
        assert(u.paths[k] == l.builds@[m].path@);
        assert(lp[nf + nd + m] == l.builds@[m].path@);
        nf + nd + m
    }
}

/// No position of the listing may belong to the units of two different
/// fingerprint directories.
proof fn lemma_may_own_exclusive(l: ProfileListing, a: int, b: int, x: int)
    requires
        0 <= a < l.fingerprints@.len(),
        0 <= b < l.fingerprints@.len(),
        a != b,
        spec_unit(l, l.fingerprints@[a]) is Some,
        spec_unit(l, l.fingerprints@[b]) is Some,
    ensures
        !(may_own(l, a, x) && may_own(l, b, x)),
{
    let fps = l.fingerprints@;
    let ha = fp_hash(fps[a])->Some_0;
    let hb = fp_hash(fps[b])->Some_0;
    let nf = fps.len() as int;
    if may_own(l, a, x) && may_own(l, b, x) && x >= nf {
        assert(ha == hb);
        if a < b {
            lemma_hash_count_two(fps, a, b, ha);
        } else {
            lemma_hash_count_two(fps, b, a, ha);
        }
    }
}

/// The units of two different fingerprint directories of a profile never
/// share a path (given a listing that names each path once): every file or
/// directory is owned by at most one unit, so removing one unit never touches
/// another's artifacts.
pub proof fn lemma_units_own_disjoint_paths(l: ProfileListing, a: int, b: int)
    requires
        listing_paths(l).no_duplicates(),
        0 <= a < l.fingerprints@.len(),
        0 <= b < l.fingerprints@.len(),
        a != b,
    ensures
        spec_unit(l, l.fingerprints@[a]) matches Some(ua) ==> (spec_unit(l, l.fingerprints@[b]) matches Some(ub) ==> forall|p: Seq<char>|
            ua.paths.contains(p) ==> !ub.paths.contains(p)),
{
    if spec_unit(l, l.fingerprints@[a]) is Some && spec_unit(l, l.fingerprints@[b]) is Some {
        let ua = spec_unit(l, l.fingerprints@[a])->Some_0;
        let ub = spec_unit(l, l.fingerprints@[b])->Some_0;
        assert forall|p: Seq<char>| ua.paths.contains(p) implies !ub.paths.contains(p) by {
            if ub.paths.contains(p) {
                let ka = choose|k: int| 0 <= k < ua.paths.len() && ua.paths[k] == p;
                let kb = choose|k: int| 0 <= k < ub.paths.len() && ub.paths[k] == p;
                let x = lemma_unit_path_position(l, a, ka);
                let y = lemma_unit_path_position(l, b, kb);
                assert(x == y);
                lemma_may_own_exclusive(l, a, b, x);
            }
        }
    }
}

proof fn lemma_profile_unit_source(l: ProfileListing, fps: Seq<FingerprintDir>, k: int) -> (a: int)
    requires
        0 <= k < spec_profile_units(l, fps).len(),
    ensures
        0 <= a < fps.len(),
        spec_unit(l, fps[a]) == Some(spec_profile_units(l, fps)[k]),
    decreases fps.len(),
{
    let prev = spec_profile_units(l, fps.drop_last());
    if spec_unit(l, fps.last()) is Some && k == prev.len() {
        (fps.len() - 1) as int
    } else {
        let a = lemma_profile_unit_source(l, fps.drop_last(), k);
        assert(fps.drop_last()[a] == fps[a]);
        a
    }
}

proof fn lemma_profile_unit_sources(l: ProfileListing, fps: Seq<FingerprintDir>, k1: int, k2: int) -> (r: (
    int,
    int,
))
    requires
        0 <= k1 < k2 < spec_profile_units(l, fps).len(),
    ensures
        0 <= r.0 < r.1 < fps.len(),
        spec_unit(l, fps[r.0]) == Some(spec_profile_units(l, fps)[k1]),
        spec_unit(l, fps[r.1]) == Some(spec_profile_units(l, fps)[k2]),
    decreases fps.len(),
{
    let prev = spec_profile_units(l, fps.drop_last());
    if spec_unit(l, fps.last()) is Some && k2 == prev.len() {
        let a = lemma_profile_unit_source(l, fps.drop_last(), k1);
        assert(fps.drop_last()[a] == fps[a]);
        (a, (fps.len() - 1) as int)
    } else {
        let r = lemma_profile_unit_sources(l, fps.drop_last(), k1, k2);
        assert(fps.drop_last()[r.0] == fps[r.0]);
        assert(fps.drop_last()[r.1] == fps[r.1]);
        r
    }
}

/// Two different units reconstructed from one profile root never share a
/// path (given a listing that names each path once): each file or directory
/// belongs to at most one unit.
pub proof fn lemma_profile_units_disjoint(l: ProfileListing, i: int, j: int)
    requires
        listing_paths(l).no_duplicates(),
        0 <= i < spec_profile_units(l, l.fingerprints@).len(),
        0 <= j < spec_profile_units(l, l.fingerprints@).len(),
        i != j,
    ensures
        forall|p: Seq<char>|
            spec_profile_units(l, l.fingerprints@)[i].paths.contains(p) ==> !spec_profile_units(
                l,
                l.fingerprints@,
            )[j].paths.contains(p),
{
    let fps = l.fingerprints@;
    let r = if i < j {
        lemma_profile_unit_sources(l, fps, i, j)
    } else {
        let q = lemma_profile_unit_sources(l, fps, j, i);
        (q.1, q.0)
    };
    lemma_units_own_disjoint_paths(l, r.0, r.1);
}

/// Collecting several profile roots only ever appends: the units of the
/// first `n` roots come first, followed by those of the rest, root by root.
pub proof fn lemma_collect_units_appends(ps: Seq<ProfileListing>, n: int)
    requires
        0 <= n <= ps.len(),
    ensures
        spec_collect_units(ps) == spec_collect_units(ps.take(n)) + spec_collect_units(ps.skip(n)),
    decreases ps.len(),
{
    if n == ps.len() {
        assert(ps.take(n) == ps);
        assert(ps.skip(n) =~= Seq::<ProfileListing>::empty());
        assert(spec_collect_units(ps) =~= spec_collect_units(ps) + Seq::<UnitView>::empty());
    } else {
        lemma_collect_units_appends(ps.drop_last(), n);
        assert(ps.drop_last().take(n) == ps.take(n));
        assert(ps.skip(n).drop_last() == ps.drop_last().skip(n));
        assert(ps.skip(n).last() == ps.last());
        assert(ps.skip(n).len() > 0);
        assert(spec_collect_units(ps) =~= spec_collect_units(ps.take(n)) + spec_collect_units(
            ps.skip(n),
        ));
    }
}

// ---------------------------------------------------------------------------
// Laws of the name grammar
// ---------------------------------------------------------------------------

/// A `deps/` file named `<crate>-<16 hex digits>` and then anything at all
/// (an extension, or nothing, as for an executable), with or without a `lib`
/// prefix, belongs to the unit of exactly those 16 digits: crate names hold no
/// `-`.
pub proof fn lemma_deps_file_hash_reads_hash(lib: bool, krate: Seq<char>, hash: Seq<char>, rest: Seq<char>)
    requires
        !krate.contains('-'),
        hash.len() == 16,
        all_hex(hash),
    ensures
        spec_deps_file_hash(
            (if lib {
                seq!['l', 'i', 'b']
            } else {
                Seq::<char>::empty()
            }) + krate + seq!['-'] + hash + rest,
        ) == Some(hash),
{
    let pre = if lib {
        seq!['l', 'i', 'b']
    } else {
        Seq::<char>::empty()
    };
    let tail = seq!['-'] + hash + rest;
    let name = pre + krate + seq!['-'] + hash + rest;
    assert(name =~= pre + (krate + tail));
    let lib3 = seq!['l', 'i', 'b'];
    if lib {
        assert(name.take(3) =~= lib3);
        assert(name.skip(3) =~= krate + tail);
    } else {
        assert(name =~= krate + tail);
        if has_prefix(name, lib3) && krate.len() >= 3 {
            assert(name.skip(3) =~= krate.skip(3) + tail);
        }
    }
    let k2 = if lib {
        krate
    } else if has_prefix(name, lib3) {
        if krate.len() < 3 {
            assert(name[krate.len() as int] == '-');
            assert(name.take(3)[krate.len() as int] == lib3[krate.len() as int]);
        }
        krate.skip(3)
    } else {
        krate
    };
    let stem = if has_prefix(name, lib3) {
        name.skip(3)
    } else {
        name
    };
    assert(stem =~= k2 + tail);
    assert forall|j: int| 0 <= j < k2.len() implies stem[j] != '-' by {
        assert(stem[j] == k2[j]);
        if !lib && has_prefix(name, lib3) {
            assert(k2[j] == krate[j + 3]);
            if krate[j + 3] == '-' {
                assert(krate.contains('-'));
            }
        } else {
            if krate[j] == '-' {
                assert(krate.contains('-'));
            }
        }
    }
    assert(stem[k2.len() as int] == '-');
    lemma_find_at(stem, '-', k2.len() as int);
    assert(stem.skip(k2.len() as int + 1) =~= hash + rest);
    assert((hash + rest).take(16) =~= hash);
}

/// A source path under a registry checkout:
/// `<prefix>/registry/src/<index>/<pkg>-<version><rest>`.
pub open spec fn registry_source_path(
    prefix: Seq<char>,
    index: Seq<char>,
    pkg: Seq<char>,
    version: Seq<char>,
    rest: Seq<char>,
) -> Seq<char> {
    prefix + registry_marker() + index + seq!['/'] + pkg + seq!['-'] + version + rest
}

/// Past the registry marker, `<index>/<pkg>-<version><rest>` names the
/// package directory `<pkg>-<version>`.
proof fn lemma_pkgdir_after_marker(index: Seq<char>, pkg: Seq<char>, version: Seq<char>, rest: Seq<char>)
    requires
        !index.contains('/'),
        !pkg.contains('/'),
        !version.contains('/'),
        rest.len() == 0 || rest[0] == '/',
    ensures
        ({
            let d = pkg + seq!['-'] + version;
            let after = index + (seq!['/'] + (d + rest));
            &&& find(after, '/') == Some(index.len() as int)
            &&& find(after.skip(index.len() as int + 1), '/') == (if rest.len() == 0 {
                None
            } else {
                Some(d.len() as int)
            })
            &&& after.skip(index.len() as int + 1) == d + rest
        }),
{
    let d = pkg + seq!['-'] + version;
    let after = index + (seq!['/'] + (d + rest));
    assert forall|j: int| 0 <= j < index.len() implies after[j] != '/' by {
        assert(after[j] == index[j]);
        if index[j] == '/' {
            assert(index.contains('/'));
        }
    }
    assert(after[index.len() as int] == '/');
    lemma_find_at(after, '/', index.len() as int);
    let b = after.skip(index.len() as int + 1);
    assert(b =~= d + rest);
    assert forall|j: int| 0 <= j < d.len() implies b[j] != '/' by {
        assert(b[j] == d[j]);
        if j < pkg.len() {
            assert(d[j] == pkg[j]);
            if pkg[j] == '/' {
                assert(pkg.contains('/'));
            }
        } else if j > pkg.len() {
            assert(d[j] == version[j - pkg.len() - 1]);
            if version[j - pkg.len() - 1] == '/' {
                assert(version.contains('/'));
            }
        }
    }
    if rest.len() == 0 {
        assert(b =~= d);
        lemma_find_none(b, '/');
    } else {
        assert(b[d.len() as int] == '/');
        lemma_find_at(b, '/', d.len() as int);
        assert(b.take(d.len() as int) =~= d);
    }
}

/// A depfile token `<prefix>/registry/src/<index>/<pkg>-<version>[/...]`
/// (the first registry marker in it) pins package `pkg`, hyphens and all, to
/// the package directory `<pkg>-<version>`.
#[verifier::spinoff_prover]
pub proof fn lemma_registry_path_pins_version(
    prefix: Seq<char>,
    index: Seq<char>,
    pkg: Seq<char>,
    version: Seq<char>,
    rest: Seq<char>,
)
    requires
        !index.contains('/'),
        !pkg.contains('/'),
        !version.contains('/'),
        rest.len() == 0 || rest[0] == '/',
        forall|j: int|
            0 <= j < prefix.len() ==> !has_prefix(
                #[trigger] registry_source_path(prefix, index, pkg, version, rest).skip(j),
                registry_marker(),
            ),
    ensures
        spec_registry_pkgdir(registry_source_path(prefix, index, pkg, version, rest), pkg) == Some(
            pkg + seq!['-'] + version,
        ),
{
    let m = registry_marker();
    let t = registry_source_path(prefix, index, pkg, version, rest);
    let p = prefix.len() as int;
    let d = pkg + seq!['-'] + version;
    assert(t =~= prefix + (m + (index + (seq!['/'] + (d + rest)))));
    assert(t.skip(p) =~= m + (index + (seq!['/'] + (d + rest))));
    assert(t.skip(p).take(m.len() as int) =~= m);
    lemma_find_sub_at(t, m, p);
    let after = t.skip(p + m.len());
    assert(after =~= index + (seq!['/'] + (d + rest)));
    lemma_pkgdir_after_marker(index, pkg, version, rest);
    let b = after.skip(index.len() as int + 1);
    if rest.len() == 0 {
        assert(b =~= d);
    } else {
        assert(b.take(d.len() as int) =~= d);
    }
    assert(d.take(pkg.len() as int + 1) =~= pkg.push('-'));
}

/// A depfile pins a unit to the package directory named by its first token
/// that names one for the unit's package.
pub proof fn lemma_first_registry_token_pins(text: Seq<char>, pkg: Seq<char>, i: int, d: Seq<char>)
    requires
        0 <= i < words(text).len(),
        spec_registry_pkgdir(words(text)[i], pkg) == Some(d),
        forall|j: int| 0 <= j < i ==> spec_registry_pkgdir(#[trigger] words(text)[j], pkg) is None,
    ensures
        spec_version_from_depfile(text, pkg) == Some(VersionView::Registry(d)),
{
    let toks = words(text);
    let f = |t: Seq<char>| spec_registry_pkgdir(t, pkg);
    assert forall|j: int| 0 <= j < i implies f(#[trigger] toks[j]) is None by {}
    lemma_first_some_skip(toks, f, i);
    assert(toks.skip(i)[0] == toks[i]);
}

proof fn lemma_rfind_before(k: Seq<char>, c: char, t: Seq<char>)
    requires
        forall|j: int| 0 <= j < t.len() ==> t[j] != c,
    ensures
        rfind(k.push(c) + t, c) == Some(k.len() as int),
    decreases t.len(),
{
    if t.len() == 0 {
        assert(k.push(c) + t =~= k.push(c));
    } else {
        assert((k.push(c) + t).drop_last() =~= k.push(c) + t.drop_last());
        lemma_rfind_before(k, c, t.drop_last());
    }
}

/// `<pkg>-<16 hex digits>` splits into exactly that package name and hash,
/// whatever the package name holds (hyphens included).
pub proof fn lemma_split_name_hash_of(pkg: Seq<char>, h: Seq<char>)
    requires
        h.len() == 16,
        all_hex(h),
    ensures
        spec_split_name_hash(pkg + seq!['-'] + h) == Some((pkg, h)),
{
    let s = pkg + seq!['-'] + h;
    assert forall|j: int| 0 <= j < h.len() implies h[j] != '-' by {
        assert(is_hex(h[j]));
    }
    assert(s =~= pkg.push('-') + h);
    lemma_rfind_before(pkg, '-', h);
    assert(s.skip(pkg.len() as int + 1) =~= h);
    assert(s.take(pkg.len() as int) =~= pkg);
}

proof fn lemma_hash_count_unique(fps: Seq<FingerprintDir>, a: int, h: Seq<char>)
    requires
        0 <= a < fps.len(),
        fp_hash(fps[a]) == Some(h),
        forall|b: int| 0 <= b < fps.len() && b != a ==> fp_hash(#[trigger] fps[b]) != Some(h),
    ensures
        hash_count(fps, h) == 1,
    decreases fps.len(),
{
    let init = fps.drop_last();
    if a < fps.len() - 1 {
        assert(init[a] == fps[a]);
        assert forall|b: int| 0 <= b < init.len() && b != a implies fp_hash(#[trigger] init[b]) != Some(h) by {
            assert(init[b] == fps[b]);
        }
        lemma_hash_count_unique(init, a, h);
    } else {
        lemma_hash_count_none(init, h, fps);
    }
}

proof fn lemma_hash_count_none(init: Seq<FingerprintDir>, h: Seq<char>, fps: Seq<FingerprintDir>)
    requires
        init.len() < fps.len(),
        forall|b: int| 0 <= b < init.len() ==> init[b] == fps[b],
        forall|b: int| 0 <= b < fps.len() && b != fps.len() - 1 ==> fp_hash(#[trigger] fps[b]) != Some(h),
    ensures
        hash_count(init, h) == 0,
    decreases init.len(),
{
    if init.len() > 0 {
        assert(init.last() == fps[init.len() - 1]);
        lemma_hash_count_none(init.drop_last(), h, fps);
    }
}

proof fn lemma_deps_of_has(ds: Seq<DepsEntry>, h: Seq<char>, m: int) -> (k: int)
    requires
        0 <= m < ds.len(),
        spec_deps_file_hash(ds[m].name@) == Some(h),
    ensures
        0 <= k < deps_of(ds, h).len(),
        deps_of(ds, h)[k] == ds[m],
    decreases ds.len(),
{
    if m == ds.len() - 1 {
        deps_of(ds.drop_last(), h).len() as int
    } else {
        assert(ds.drop_last()[m] == ds[m]);
        lemma_deps_of_has(ds.drop_last(), h, m)
    }
}

proof fn lemma_profile_unit_present(l: ProfileListing, fps: Seq<FingerprintDir>, a: int) -> (k: int)
    requires
        0 <= a < fps.len(),
        spec_unit(l, fps[a]) is Some,
    ensures
        0 <= k < spec_profile_units(l, fps).len(),
        Some(spec_profile_units(l, fps)[k]) == spec_unit(l, fps[a]),
    decreases fps.len(),
{
    if a == fps.len() - 1 {
        spec_profile_units(l, fps.drop_last()).len() as int
    } else {
        assert(fps.drop_last()[a] == fps[a]);
        lemma_profile_unit_present(l, fps.drop_last(), a)
    }
}

/// A fingerprint directory named `<pkg>-<16 hex digits>` whose hash no other
/// fingerprint directory of the profile carries yields a unit of the profile,
/// with that package name and hash. The unit owns the fingerprint directory,
/// every `deps/` entry carrying the hash, and the `build/` directory of the same
/// name; its size counts the fingerprint directory and that `build/`
/// directory.
pub proof fn lemma_unit_owns_its_files(l: ProfileListing, a: int, pkg: Seq<char>, h: Seq<char>)
    requires
        0 <= a < l.fingerprints@.len(),
        l.fingerprints@[a].name@ == pkg + seq!['-'] + h,
        h.len() == 16,
        all_hex(h),
        forall|b: int|
            0 <= b < l.fingerprints@.len() && b != a ==> fp_hash(#[trigger] l.fingerprints@[b]) != Some(h),
    ensures
        spec_unit(l, l.fingerprints@[a]) matches Some(u) && {
            &&& u.pkg_name == pkg
            &&& u.hash == h
            &&& u.paths.contains(l.fingerprints@[a].path@)
            &&& u.bytes >= l.fingerprints@[a].bytes
            &&& forall|m: int|
                0 <= m < l.deps@.len() && spec_deps_file_hash(#[trigger] l.deps@[m].name@) == Some(h)
                    ==> u.paths.contains(l.deps@[m].path@)
            &&& forall|m: int|
                0 <= m < l.builds@.len() && (#[trigger] l.builds@[m]).name@ == l.fingerprints@[a].name@
                    && (forall|j: int| 0 <= j < m ==> l.builds@[j].name@ != l.fingerprints@[a].name@)
                    ==> u.paths.contains(l.builds@[m].path@) && u.bytes >= l.fingerprints@[a].bytes
                    + l.builds@[m].bytes
            &&& exists|k: int|
                0 <= k < spec_profile_units(l, l.fingerprints@).len() && spec_profile_units(
                    l,
                    l.fingerprints@,
                )[k] == u
        },
{
    let fps = l.fingerprints@;
    let fp = fps[a];
    lemma_split_name_hash_of(pkg, h);
    lemma_hash_count_unique(fps, a, h);
    let u = spec_unit(l, fp)->Some_0;
    let ds = deps_of(l.deps@, h);
    let b = build_of(l.builds@, fp.name@);
    let head = seq![fp.path@] + ds.map_values(|d: DepsEntry| d.path@);
    assert(u.paths[0] == fp.path@);
    assert forall|m: int|
        0 <= m < l.deps@.len() && spec_deps_file_hash(#[trigger] l.deps@[m].name@) == Some(h)
            implies u.paths.contains(l.deps@[m].path@) by {
        let k = lemma_deps_of_has(l.deps@, h, m);
        assert(u.paths[1 + k] == ds[k].path@);
    }
    assert forall|m: int|
        0 <= m < l.builds@.len() && (#[trigger] l.builds@[m]).name@ == fp.name@ && (forall|j: int|
            0 <= j < m ==> l.builds@[j].name@ != fp.name@) implies u.paths.contains(l.builds@[m].path@)
        && u.bytes >= fp.bytes + l.builds@[m].bytes by {
        let f = |bd: BuildDir| if bd.name@ == fp.name@ { Some(bd) } else { None };
        assert forall|j: int| 0 <= j < m implies f(#[trigger] l.builds@[j]) is None by {}
        lemma_first_some_skip(l.builds@, f, m);
        assert(l.builds@.skip(m)[0] == l.builds@[m]);
        assert(b == Some(l.builds@[m]));
        assert(u.paths[head.len() as int] == l.builds@[m].path@);
    }
    let k = lemma_profile_unit_present(l, fps, a);
}

/// `find` locates the first occurrence.
pub(crate) proof fn lemma_find_first(s: Seq<char>, c: char, i: int)
    requires
        0 <= i < s.len(),
        s[i] == c,
        forall|j: int| 0 <= j < i ==> s[j] != c,
    ensures
        find(s, c) == Some(i),
{
    lemma_find_at(s, c, i);
}

/// Whether a marker file name begins like any marker cargo writes.
pub open spec fn is_marker(m: Seq<char>) -> bool {
    has_prefix(m, "run-build-script"@) || has_prefix(m, "build-script"@) || has_prefix(
        m,
        "build_script"@,
    ) || has_prefix(m, "lib-"@) || has_prefix(m, "bin-"@)
}

/// The first marker file (in listing order) decides the unit's kind: a
/// build-script run, a build-script compile, a library or a binary; with no
/// marker at all the kind is `Other`.
pub proof fn lemma_classify_by_first_marker(markers: Seq<Seq<char>>, i: int)
    requires
        0 <= i <= markers.len(),
        forall|j: int| 0 <= j < i ==> !is_marker(#[trigger] markers[j]),
    ensures
        i == markers.len() ==> spec_classify(markers) == UnitKind::Other,
        i < markers.len() && has_prefix(markers[i], "run-build-script"@) ==> spec_classify(markers)
            == UnitKind::BuildScriptRun,
        i < markers.len() && !has_prefix(markers[i], "run-build-script"@) && (has_prefix(
            markers[i],
            "build-script"@,
        ) || has_prefix(markers[i], "build_script"@)) ==> spec_classify(markers)
            == UnitKind::BuildScriptCompile,
        i < markers.len() && !has_prefix(markers[i], "run-build-script"@) && !has_prefix(
            markers[i],
            "build-script"@,
        ) && !has_prefix(markers[i], "build_script"@) && has_prefix(markers[i], "lib-"@) ==> spec_classify(
            markers,
        ) == UnitKind::Lib,
        i < markers.len() && has_prefix(markers[i], "bin-"@) && !has_prefix(markers[i], "run-build-script"@)
            && !has_prefix(markers[i], "build-script"@) && !has_prefix(markers[i], "build_script"@)
            && !has_prefix(markers[i], "lib-"@) ==> spec_classify(markers) == UnitKind::Bin,
{
    let f = |m: Seq<char>| spec_marker_kind(m);
    assert forall|j: int| 0 <= j < i implies f(#[trigger] markers[j]) is None by {
        assert(!is_marker(markers[j]));
    }
    lemma_first_some_skip(markers, f, i);
    if i < markers.len() {
        assert(markers.skip(i)[0] == markers[i]);
    } else {
        assert(markers.skip(i).len() == 0);
    }
}

} // verus!
