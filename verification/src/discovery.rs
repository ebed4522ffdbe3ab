//! Locating *real* Cargo target directories.
//!
//! A directory never counts as a target dir merely because it is named
//! `target`. It only counts if it carries a marker Cargo itself writes: a
//! `CACHEDIR.TAG` with the standard cache signature, or a `.rustc_info.json`.
//! This is the safety fence that keeps `cargo sift` from wandering into an
//! unrelated `target/` folder.

use vstd::prelude::*;
use crate::text::{dedup, lemma_strings_view_push, strings_view, unique_strings};

verus! {

/// The standard `CACHEDIR.TAG` signature Cargo writes at the root of `target/`.
pub open spec fn cachedir_signature() -> Seq<u8> {
    "Signature: 8a477f597d28d172789f06886806bc55"@.map_values(|c: char| c as u8)
}

/// Does `bytes` (the contents of a `CACHEDIR.TAG`) start with the signature?
pub fn has_cachedir_signature(bytes: &[u8]) -> (res: bool)
    ensures
        res == (cachedir_signature().len() <= bytes@.len() && bytes@.take(
            cachedir_signature().len() as int,
        ) == cachedir_signature()),
{
    let sig = "Signature: 8a477f597d28d172789f06886806bc55".as_bytes();
    proof {
        reveal_strlit("Signature: 8a477f597d28d172789f06886806bc55");
        vstd::string::is_ascii_spec_bytes("Signature: 8a477f597d28d172789f06886806bc55");
        assert(sig@ =~= cachedir_signature());
    }
    if sig.len() > bytes.len() {
        return false;
    }
    let mut i: usize = 0;
    while i < sig.len()
        invariant
            i <= sig@.len(),
            sig@.len() <= bytes@.len(),
            sig@ == cachedir_signature(),
            forall|j: int| 0 <= j < i ==> bytes@[j] == sig@[j],
        decreases sig@.len() - i,
    {
        if bytes[i] != sig[i] {
            assert(bytes@.take(sig@.len() as int)[i as int] != sig@[i as int]);
            return false;
        }
        i += 1;
    }
    assert(bytes@.take(sig@.len() as int) =~= sig@);
    true
}

/// Is a directory a Cargo-managed target directory, given the contents of its
/// `CACHEDIR.TAG` (if it could be read) and whether it holds a
/// `.rustc_info.json` file?
pub fn is_target_dir(cachedir_tag: Option<&[u8]>, rustc_info_is_file: bool) -> (res: bool)
    ensures
        res == (rustc_info_is_file || match cachedir_tag {
            Some(bytes) => cachedir_signature().len() <= bytes@.len() && bytes@.take(
                cachedir_signature().len() as int,
            ) == cachedir_signature(),
            None => false,
        }),
{
    let tagged = match cachedir_tag {
        Some(bytes) => has_cachedir_signature(bytes),
        None => false,
    };
    tagged || rustc_info_is_file
}

/// The directories found, in order, each once: finding the same (canonical)
/// target directory through several paths sifts it only once.
pub fn resolve_targets(found: Vec<String>) -> (res: Vec<String>)
    ensures
        strings_view(res@) == dedup(strings_view(found@)),
        strings_view(res@).no_duplicates(),
        strings_view(res@).to_set() == strings_view(found@).to_set(),
{
    let res = unique_strings(found);
    proof {
        crate::text::lemma_dedup(strings_view(found@));
    }
    res
}

/// The target directory `$CARGO_TARGET_DIR` names, when it is set and not
/// empty.
pub fn target_dir_override(env: Option<String>) -> (res: Option<String>)
    ensures
        match env {
            Some(d) => if d@.len() > 0 {
                res matches Some(r) && r@ == d@
            } else {
                res is None
            },
            None => res is None,
        },
{
    match env {
        Some(d) => if d.as_str().is_empty() {
            None
        } else {
            Some(d)
        },
        None => None,
    }
}

/// Does a recursive search descend into a directory entry? Only into real
/// directories (a symlink is not followed), and never into `.git`.
pub fn should_descend(name: &str, is_dir: bool) -> (res: bool)
    ensures
        res == (is_dir && name@ != ".git"@),
{
    let git = crate::text::chars_of(".git");
    let cs = crate::text::chars_of(name);
    is_dir && !crate::text::chars_eq(cs.as_slice(), git.as_slice())
}

/// One entry of a directory met during a recursive search: its file name,
/// its path, and whether it is a directory (a symlink is not).
pub struct SearchEntry {
    pub name: String,
    pub path: String,
    pub is_dir: bool,
}

/// The paths of the entries a search descends into, in listing order.
pub open spec fn descended(es: Seq<SearchEntry>) -> Seq<Seq<char>>
    decreases es.len(),
{
    if es.len() == 0 {
        Seq::empty()
    } else {
        let e = es.last();
        if e.is_dir && e.name@ != ".git"@ {
            descended(es.drop_last()).push(e.path@)
        } else {
            descended(es.drop_last())
        }
    }
}

/// A recursive search for target directories under one root: the directories
/// still to look at (the last one queued is looked at next) and the target
/// directories found so far. Descent stops at each target directory (target
/// directories do not nest) and skips `.git` trees. The caller looks at the
/// file system: it takes the next directory, tells the search whether it is a
/// target directory and, if not, what it lists.
pub struct TargetSearch {
    pub pending: Vec<String>,
    pub found: Vec<String>,
}

impl TargetSearch {
    /// A search that starts at `root`.
    pub fn new(root: String) -> (res: TargetSearch)
        ensures
            res.pending@ == seq![root],
            res.found@ == Seq::<String>::empty(),
    {
        let mut pending: Vec<String> = Vec::new();
        pending.push(root);
        TargetSearch { pending, found: Vec::new() }
    }

    /// The next directory to look at, taken off the queue; `None` when the
    /// search is over.
    pub fn next_dir(&mut self) -> (res: Option<String>)
        ensures
            match res {
                Some(d) => old(self).pending@.len() > 0 && d == old(self).pending@.last()
                    && final(self).pending@ == old(self).pending@.drop_last(),
                None => old(self).pending@.len() == 0 && final(self).pending@ == old(self).pending@,
            },
            final(self).found@ == old(self).found@,
    {
        self.pending.pop()
    }

    /// Records what was seen of `dir`: a target directory is found and not
    /// descended into; otherwise every entry that is a directory other than
    /// `.git` is queued, in listing order.
    pub fn visit(&mut self, dir: String, is_target: bool, entries: &Vec<SearchEntry>)
        ensures
            if is_target {
                &&& final(self).found@ == old(self).found@.push(dir)
                &&& final(self).pending@ == old(self).pending@
            } else {
                &&& final(self).found@ == old(self).found@
                &&& strings_view(final(self).pending@) == strings_view(old(self).pending@) + descended(
                    entries@,
                )
            },
    {
        if is_target {
            self.found.push(dir);
            return;
        }
        let ghost start = strings_view(self.pending@);
        let mut i: usize = 0;
        while i < entries.len()
            invariant
                i <= entries@.len(),
                self.found@ == old(self).found@,
                start == strings_view(old(self).pending@),
                strings_view(self.pending@) == start + descended(entries@.take(i as int)),
            decreases entries@.len() - i,
        {
            assert(entries@.take(i + 1).drop_last() == entries@.take(i as int));
            assert(entries@.take(i + 1).last() == entries@[i as int]);
            let e = &entries[i];
            if should_descend(e.name.as_str(), e.is_dir) {
                let ghost before = self.pending@;
                let p = e.path.clone();
                self.pending.push(p);
                proof {
                    lemma_strings_view_push(before, p);
                }
                assert(strings_view(self.pending@) =~= start + descended(entries@.take(i + 1)));
            }
            i += 1;
        }
        assert(entries@.take(entries@.len() as int) == entries@);
    }
}

} // verus!
