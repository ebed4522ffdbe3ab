//! The garbage collector's decisions: classify every unit in `target/` against
//! the current resolve, and account for what removing them achieved. Fully
//! deterministic — no file timestamps are consulted.
//!
//! A unit is removed when it is:
//! * a **dead version** — a registry crate whose `name-version` isn't in
//!   `Cargo.lock` (superseded by a bump, or a dependency removed entirely),
//! * a **removed package** — a workspace/path crate's library that's gone,
//! * a **removed target** — a bin/test/example/bench whose target no longer
//!   exists in its package,
//! * an **orphan build script** — a build-script run unit whose package is gone,
//! * a **removed incremental** — an incremental session for a crate that's gone.

use vstd::prelude::*;
use crate::resolve::{spec_normalize, LiveSet, LiveView};
use crate::text::{chars_of, chars_eq, copy_strings, owned, push_str, strings_view};
use crate::units::{find, find_char, slice_range, Unit, UnitKind, UnitView, Version, VersionView, units_view};

verus! {

/// Why a unit is being removed (for reporting).
#[derive(Debug, Clone, Copy, PartialEq, Eq, Structural)]
pub enum Reason {
    DeadVersion,
    RemovedPackage,
    RemovedTarget,
    OrphanBuildScript,
    RemovedIncremental,
}

pub open spec fn spec_label(r: Reason) -> Seq<char> {
    match r {
        Reason::DeadVersion => "dead version"@,
        Reason::RemovedPackage => "removed package"@,
        Reason::RemovedTarget => "removed target"@,
        Reason::OrphanBuildScript => "orphan build script"@,
        Reason::RemovedIncremental => "removed incremental"@,
    }
}

impl Reason {
    pub fn label(self) -> (res: &'static str)
        ensures
            res@ == spec_label(self),
    {
        match self {
            Reason::DeadVersion => "dead version",
            Reason::RemovedPackage => "removed package",
            Reason::RemovedTarget => "removed target",
            Reason::OrphanBuildScript => "orphan build script",
            Reason::RemovedIncremental => "removed incremental",
        }
    }
}

/// One thing to remove: all files/dirs of a unit (or an incremental session).
#[derive(Debug, Clone)]
pub struct Removal {
    pub label: String,
    pub reason: Reason,
    pub paths: Vec<String>,
    pub bytes: u64,
}

/// The mathematical content of a [`Removal`].
pub struct RemovalView {
    pub label: Seq<char>,
    pub reason: Reason,
    pub paths: Seq<Seq<char>>,
    pub bytes: nat,
}

impl View for Removal {
    type V = RemovalView;

    open spec fn view(&self) -> RemovalView {
        RemovalView {
            label: self.label@,
            reason: self.reason,
            paths: strings_view(self.paths@),
            bytes: self.bytes as nat,
        }
    }
}

pub open spec fn removals_view(rs: Seq<Removal>) -> Seq<RemovalView> {
    Seq::new(rs.len(), |i: int| rs[i]@)
}

/// Total bytes across removals.
pub open spec fn removals_bytes(rs: Seq<RemovalView>) -> nat
    decreases rs.len(),
{
    if rs.len() == 0 {
        0
    } else {
        removals_bytes(rs.drop_last()) + rs.last().bytes
    }
}

/// The removal plan for one target directory.
#[derive(Debug)]
pub struct Plan {
    pub target: String,
    pub removals: Vec<Removal>,
    pub remove_bytes: u64,
    pub dir_bytes: u64,
}

impl Plan {
    /// `remove_bytes` is the total of the removals' sizes.
    pub open spec fn wf(&self) -> bool {
        removals_bytes(removals_view(self.removals@)) == self.remove_bytes
    }
}

/// One incremental session directory `<profile>/incremental/<crate>-<session>/`.
pub struct Session {
    pub name: String,
    pub path: String,
    pub bytes: u64,
}

/// What to do with one unit given the live set.
pub open spec fn unit_removal(u: UnitView, live: LiveView) -> Option<RemovalView> {
    match u.version {
        VersionView::Registry(nv) => if live.registry.contains(nv) {
            None
        } else {
            Some(RemovalView { label: nv, reason: Reason::DeadVersion, paths: u.paths, bytes: u.bytes })
        },
        VersionView::Local(name) => if live.names.contains(spec_normalize(name)) {
            None
        } else {
            Some(
                RemovalView {
                    label: u.pkg_name,
                    reason: if u.kind == UnitKind::Lib {
                        Reason::RemovedPackage
                    } else {
                        Reason::RemovedTarget
                    },
                    paths: u.paths,
                    bytes: u.bytes,
                },
            )
        },
        VersionView::Unknown => if live.names.contains(spec_normalize(u.pkg_name)) {
            None
        } else {
            Some(
                RemovalView {
                    label: u.pkg_name + " (build script)"@,
                    reason: Reason::OrphanBuildScript,
                    paths: u.paths,
                    bytes: u.bytes,
                },
            )
        },
    }
}

/// The crate an incremental session belongs to: the part of its name before
/// the first `-` (crate names never contain one).
pub open spec fn session_crate(name: Seq<char>) -> Option<Seq<char>> {
    match find(name, '-') {
        Some(i) => Some(name.take(i)),
        None => None,
    }
}

/// What to do with one incremental session given the live set. Sessions of
/// `build_script_build` — cargo's reserved crate name for *every* build script —
/// can't be attributed to a package and are always kept.
pub open spec fn session_removal(s: Session, live: LiveView) -> Option<RemovalView> {
    match session_crate(s.name@) {
        None => None,
        Some(c) => if c == "build_script_build"@ || live.names.contains(spec_normalize(c)) {
            None
        } else {
            Some(
                RemovalView {
                    label: c + " (incremental)"@,
                    reason: Reason::RemovedIncremental,
                    paths: seq![s.path@],
                    bytes: s.bytes as nat,
                },
            )
        },
    }
}

pub open spec fn unit_removals(us: Seq<UnitView>, live: LiveView) -> Seq<RemovalView>
    decreases us.len(),
{
    if us.len() == 0 {
        Seq::empty()
    } else {
        match unit_removal(us.last(), live) {
            Some(r) => unit_removals(us.drop_last(), live).push(r),
            None => unit_removals(us.drop_last(), live),
        }
    }
}

pub open spec fn session_removals(ss: Seq<Session>, live: LiveView) -> Seq<RemovalView>
    decreases ss.len(),
{
    if ss.len() == 0 {
        Seq::empty()
    } else {
        match session_removal(ss.last(), live) {
            Some(r) => session_removals(ss.drop_last(), live).push(r),
            None => session_removals(ss.drop_last(), live),
        }
    }
}

/// Everything the plan removes: unreachable units, then unreachable
/// incremental sessions.
pub open spec fn spec_removals(us: Seq<UnitView>, ss: Seq<Session>, live: LiveView) -> Seq<
    RemovalView,
> {
    unit_removals(us, live) + session_removals(ss, live)
}

pub open spec fn units_bytes(us: Seq<UnitView>) -> nat
    decreases us.len(),
{
    if us.len() == 0 {
        0
    } else {
        units_bytes(us.drop_last()) + us.last().bytes
    }
}

pub open spec fn sessions_bytes(ss: Seq<Session>) -> nat
    decreases ss.len(),
{
    if ss.len() == 0 {
        0
    } else {
        sessions_bytes(ss.drop_last()) + ss.last().bytes as nat
    }
}

proof fn lemma_removals_bytes_add(a: Seq<RemovalView>, b: Seq<RemovalView>)
    ensures
        removals_bytes(a + b) == removals_bytes(a) + removals_bytes(b),
    decreases b.len(),
{
    if b.len() == 0 {
        assert(a + b == a);
    } else {
        lemma_removals_bytes_add(a, b.drop_last());
        assert((a + b).drop_last() == a + b.drop_last());
        assert((a + b).last() == b.last());
    }
}

proof fn lemma_unit_removals_bytes(us: Seq<UnitView>, live: LiveView)
    ensures
        removals_bytes(unit_removals(us, live)) <= units_bytes(us),
    decreases us.len(),
{
    if us.len() > 0 {
        lemma_unit_removals_bytes(us.drop_last(), live);
        let prev = unit_removals(us.drop_last(), live);
        match unit_removal(us.last(), live) {
            Some(r) => {
                assert(prev.push(r).drop_last() == prev);
            },
            None => {},
        }
    }
}

proof fn lemma_session_removals_bytes(ss: Seq<Session>, live: LiveView)
    ensures
        removals_bytes(session_removals(ss, live)) <= sessions_bytes(ss),
    decreases ss.len(),
{
    if ss.len() > 0 {
        lemma_session_removals_bytes(ss.drop_last(), live);
        let prev = session_removals(ss.drop_last(), live);
        match session_removal(ss.last(), live) {
            Some(r) => {
                assert(prev.push(r).drop_last() == prev);
            },
            None => {},
        }
    }
}

proof fn lemma_removals_view_push(rs: Seq<Removal>, r: Removal)
    ensures
        removals_view(rs.push(r)) == removals_view(rs).push(r@),
{
    assert(removals_view(rs.push(r)) =~= removals_view(rs).push(r@));
}

/// What to do with one unit given the live set.
pub fn removal_for_unit(u: &Unit, live: &LiveSet) -> (res: Option<Removal>)
    ensures
        match res {
            Some(r) => unit_removal(u@, live@) == Some(r@),
            None => unit_removal(u@, live@) is None,
        },
{
    match &u.version {
        Version::Registry(nv) => {
            if live.registry_is_live(nv.as_str()) {
                None
            } else {
                Some(Removal { label: nv.clone(), reason: Reason::DeadVersion, paths: copy_strings(&u.paths), bytes: u.bytes })
            }
        },
        Version::Local(name) => {
            if live.name_is_live(name.as_str()) {
                None
            } else {
                // A library's fingerprint dir is named after the package; other
                // targets after the target itself.
                let reason = if u.kind == UnitKind::Lib {
                    Reason::RemovedPackage
                } else {
                    Reason::RemovedTarget
                };
                Some(Removal { label: u.pkg_name.clone(), reason, paths: copy_strings(&u.paths), bytes: u.bytes })
            }
        },
        Version::Unknown => {
            if live.name_is_live(u.pkg_name.as_str()) {
                None
            } else {
                let mut label = u.pkg_name.clone();
                push_str(&mut label, " (build script)");
                Some(Removal { label, reason: Reason::OrphanBuildScript, paths: copy_strings(&u.paths), bytes: u.bytes })
            }
        },
    }
}

/// What to do with one incremental session given the live set.
pub fn removal_for_session(s: &Session, live: &LiveSet) -> (res: Option<Removal>)
    ensures
        match res {
            Some(r) => session_removal(*s, live@) == Some(r@),
            None => session_removal(*s, live@) is None,
        },
{
    let cs = chars_of(s.name.as_str());
    let dash = match find_char(cs.as_slice(), '-') {
        Some(d) => d,
        None => return None,
    };
    let crate_chars = slice_range(cs.as_slice(), 0, dash);
    assert(crate_chars@ == cs@.take(dash as int));
    let reserved = chars_of("build_script_build");
    if chars_eq(crate_chars, reserved.as_slice()) {
        return None;
    }
    let crate_name = crate::text::string_of(crate_chars);
    if live.name_is_live(crate_name.as_str()) {
        return None;
    }
    let mut label = crate_name;
    push_str(&mut label, " (incremental)");
    let mut paths: Vec<String> = Vec::new();
    paths.push(s.path.clone());
    assert(strings_view(paths@) =~= seq![s.path@]);
    Some(Removal { label, reason: Reason::RemovedIncremental, paths, bytes: s.bytes })
}

/// Compute what to remove from `target` given its reconstructed units, its
/// incremental sessions, its total size, and the current resolve.
pub fn plan(target: &str, units: &Vec<Unit>, sessions: &Vec<Session>, dir_bytes: u64, live: &LiveSet) -> (res: Plan)
    requires
        units_bytes(units_view(units@)) + sessions_bytes(sessions@) <= u64::MAX,
    ensures
        res.target@ == target@,
        removals_view(res.removals@) == spec_removals(units_view(units@), sessions@, live@),
        res.dir_bytes == dir_bytes,
        res.wf(),
{
    let ghost uv = units_view(units@);
    let mut removals: Vec<Removal> = Vec::new();
    let mut total: u64 = 0;
    let mut i: usize = 0;
    proof {
        lemma_unit_removals_bytes(uv, live@);
        lemma_session_removals_bytes(sessions@, live@);
    }
    while i < units.len()
        invariant
            i <= units@.len(),
            uv == units_view(units@),
            removals_bytes(unit_removals(uv, live@)) + sessions_bytes(sessions@) <= u64::MAX,
            removals_view(removals@) == unit_removals(uv.take(i as int), live@),
            total == removals_bytes(removals_view(removals@)),
        decreases units@.len() - i,
    {
        assert(uv.take(i + 1).drop_last() == uv.take(i as int));
        assert(uv.take(i + 1).last() == units@[i as int]@);
        proof {
            lemma_unit_removals_prefix(uv, live@, i + 1);
        }
        match removal_for_unit(&units[i], live) {
            Some(r) => {
                let ghost before = removals@;
                let b = r.bytes;
                proof {
                    lemma_removals_view_push(before, r);
                    assert(removals_view(before).push(r@).drop_last() == removals_view(before));
                }
                removals.push(r);
                total = total + b;
            },
            None => {},
        }
        i += 1;
    }
    assert(uv.take(units@.len() as int) == uv);
    let ghost unit_part = removals_view(removals@);
    let mut j: usize = 0;
    while j < sessions.len()
        invariant
            j <= sessions@.len(),
            unit_part == unit_removals(uv, live@),
            removals_bytes(unit_part) + removals_bytes(session_removals(sessions@, live@)) <= u64::MAX,
            removals_view(removals@) == unit_part + session_removals(sessions@.take(j as int), live@),
            total == removals_bytes(removals_view(removals@)),
        decreases sessions@.len() - j,
    {
        assert(sessions@.take(j + 1).drop_last() == sessions@.take(j as int));
        assert(sessions@.take(j + 1).last() == sessions@[j as int]);
        proof {
            lemma_session_removals_prefix(sessions@, live@, j + 1);
            lemma_removals_bytes_add(unit_part, session_removals(sessions@.take(j + 1), live@));
        }
        match removal_for_session(&sessions[j], live) {
            Some(r) => {
                let ghost before = removals@;
                let b = r.bytes;
                proof {
                    lemma_removals_view_push(before, r);
                    assert(removals_view(before).push(r@).drop_last() == removals_view(before));
                    assert(unit_part + session_removals(sessions@.take(j + 1), live@) =~= removals_view(before).push(r@));
                }
                removals.push(r);
                total = total + b;
            },
            None => {},
        }
        j += 1;
    }
    assert(sessions@.take(sessions@.len() as int) == sessions@);
    Plan { target: owned(target), removals, remove_bytes: total, dir_bytes }
}

proof fn lemma_unit_removals_prefix(us: Seq<UnitView>, live: LiveView, n: int)
    requires
        0 <= n <= us.len(),
    ensures
        removals_bytes(unit_removals(us.take(n), live)) <= removals_bytes(unit_removals(us, live)),
    decreases us.len(),
{
    if n < us.len() {
        assert(us.drop_last().take(n) == us.take(n));
        lemma_unit_removals_prefix(us.drop_last(), live, n);
        let prev = unit_removals(us.drop_last(), live);
        match unit_removal(us.last(), live) {
            Some(r) => {
                assert(prev.push(r).drop_last() == prev);
            },
            None => {},
        }
    } else {
        assert(us.take(n) == us);
    }
}

proof fn lemma_session_removals_prefix(ss: Seq<Session>, live: LiveView, n: int)
    requires
        0 <= n <= ss.len(),
    ensures
        removals_bytes(session_removals(ss.take(n), live)) <= removals_bytes(session_removals(ss, live)),
    decreases ss.len(),
{
    if n < ss.len() {
        assert(ss.drop_last().take(n) == ss.take(n));
        lemma_session_removals_prefix(ss.drop_last(), live, n);
        let prev = session_removals(ss.drop_last(), live);
        match session_removal(ss.last(), live) {
            Some(r) => {
                assert(prev.push(r).drop_last() == prev);
            },
            None => {},
        }
    } else {
        assert(ss.take(n) == ss);
    }
}

// ---------------------------------------------------------------------------
// Summaries
// ---------------------------------------------------------------------------

/// The reasons in reporting order.
pub open spec fn reason_order() -> Seq<Reason> {
    seq![
        Reason::DeadVersion,
        Reason::RemovedPackage,
        Reason::RemovedTarget,
        Reason::OrphanBuildScript,
        Reason::RemovedIncremental,
    ]
}

/// How many removals carry `r`.
pub open spec fn reason_count(rs: Seq<RemovalView>, r: Reason) -> nat
    decreases rs.len(),
{
    if rs.len() == 0 {
        0
    } else {
        reason_count(rs.drop_last(), r) + if rs.last().reason == r {
            1nat
        } else {
            0nat
        }
    }
}

/// The total size of the removals that carry `r`.
pub open spec fn reason_bytes(rs: Seq<RemovalView>, r: Reason) -> nat
    decreases rs.len(),
{
    if rs.len() == 0 {
        0
    } else {
        reason_bytes(rs.drop_last(), r) + if rs.last().reason == r {
            rs.last().bytes
        } else {
            0nat
        }
    }
}

/// One summary line per reason in `order` that has removals: the reason, how
/// many, and how many bytes.
pub open spec fn tally_over(order: Seq<Reason>, rs: Seq<RemovalView>) -> Seq<(Reason, nat, nat)>
    decreases order.len(),
{
    if order.len() == 0 {
        Seq::empty()
    } else {
        let r = order.last();
        let rest = tally_over(order.drop_last(), rs);
        if reason_count(rs, r) > 0 {
            rest.push((r, reason_count(rs, r), reason_bytes(rs, r)))
        } else {
            rest
        }
    }
}

pub open spec fn spec_tally(rs: Seq<RemovalView>) -> Seq<(Reason, nat, nat)> {
    tally_over(reason_order(), rs)
}

pub open spec fn tally_view(t: Seq<(Reason, usize, u64)>) -> Seq<(Reason, nat, nat)> {
    Seq::new(t.len(), |i: int| (t[i].0, t[i].1 as nat, t[i].2 as nat))
}

proof fn lemma_reason_bounds(rs: Seq<RemovalView>, r: Reason)
    ensures
        reason_count(rs, r) <= rs.len(),
        reason_bytes(rs, r) <= removals_bytes(rs),
    decreases rs.len(),
{
    if rs.len() > 0 {
        lemma_reason_bounds(rs.drop_last(), r);
    }
}

/// Count and total size of the removals that carry `r`.
fn count_reason(removals: &Vec<Removal>, r: Reason, limit: u64) -> (res: (usize, u64))
    requires
        removals_bytes(removals_view(removals@)) <= limit,
    ensures
        res.0 == reason_count(removals_view(removals@), r),
        res.1 == reason_bytes(removals_view(removals@), r),
{
    let ghost rv = removals_view(removals@);
    let mut count: usize = 0;
    let mut bytes: u64 = 0;
    let mut i: usize = 0;
    while i < removals.len()
        invariant
            i <= removals@.len(),
            rv == removals_view(removals@),
            removals_bytes(rv) <= limit,
            count == reason_count(rv.take(i as int), r),
            bytes == reason_bytes(rv.take(i as int), r),
        decreases removals@.len() - i,
    {
        assert(rv.take(i + 1).drop_last() == rv.take(i as int));
        assert(rv.take(i + 1).last() == removals@[i as int]@);
        proof {
            lemma_reason_bounds(rv.take(i + 1), r);
            lemma_removals_prefix_bytes(rv, i + 1);
        }
        if removals[i].reason == r {
            count = count + 1;
            bytes = bytes + removals[i].bytes;
        }
        i += 1;
    }
    assert(rv.take(removals@.len() as int) == rv);
    (count, bytes)
}

proof fn lemma_removals_prefix_bytes(rs: Seq<RemovalView>, n: int)
    requires
        0 <= n <= rs.len(),
    ensures
        removals_bytes(rs.take(n)) <= removals_bytes(rs),
    decreases rs.len(),
{
    if n < rs.len() {
        assert(rs.drop_last().take(n) == rs.take(n));
        lemma_removals_prefix_bytes(rs.drop_last(), n);
    } else {
        assert(rs.take(n) == rs);
    }
}

impl Plan {
    /// Removal counts and bytes grouped by reason, for a summary line.
    pub fn tally(&self) -> (res: Vec<(Reason, usize, u64)>)
        requires
            removals_bytes(removals_view(self.removals@)) <= u64::MAX,
        ensures
            tally_view(res@) == spec_tally(removals_view(self.removals@)),
    {
        let order = [
            Reason::DeadVersion,
            Reason::RemovedPackage,
            Reason::RemovedTarget,
            Reason::OrphanBuildScript,
            Reason::RemovedIncremental,
        ];
        assert(order@ == reason_order());
        let ghost rv = removals_view(self.removals@);
        let mut out: Vec<(Reason, usize, u64)> = Vec::new();
        let mut k: usize = 0;
        while k < 5
            invariant
                k <= 5,
                order@ == reason_order(),
                rv == removals_view(self.removals@),
                removals_bytes(rv) <= u64::MAX,
                tally_view(out@) == tally_over(reason_order().take(k as int), rv),
            decreases 5 - k,
        {
            assert(reason_order().take(k + 1).drop_last() == reason_order().take(k as int));
            assert(reason_order().take(k + 1).last() == order@[k as int]);
            let r = order[k];
            let (count, bytes) = count_reason(&self.removals, r, u64::MAX);
            if count > 0 {
                let ghost before = out@;
                out.push((r, count, bytes));
                assert(tally_view(out@) =~= tally_view(before).push((r, count as nat, bytes as nat)));
            }
            k += 1;
        }
        assert(reason_order().take(5) == reason_order());
        out
    }
}

/// Running totals across one or more targets.
#[derive(Debug, Clone, Copy)]
pub struct Stats {
    pub units_removed: u64,
    pub bytes_freed: u64,
    pub errors: u64,
}

impl Default for Stats {
    fn default() -> (res: Stats)
        ensures
            res.units_removed == 0,
            res.bytes_freed == 0,
            res.errors == 0,
    {
        Stats { units_removed: 0, bytes_freed: 0, errors: 0 }
    }
}

impl Stats {
    /// Adds `other`'s totals to these.
    pub fn merge(&mut self, other: &Stats)
        requires
            old(self).units_removed + other.units_removed <= u64::MAX,
            old(self).bytes_freed + other.bytes_freed <= u64::MAX,
            old(self).errors + other.errors <= u64::MAX,
        ensures
            final(self).units_removed == old(self).units_removed + other.units_removed,
            final(self).bytes_freed == old(self).bytes_freed + other.bytes_freed,
            final(self).errors == old(self).errors + other.errors,
    {
        self.units_removed += other.units_removed;
        self.bytes_freed += other.bytes_freed;
        self.errors += other.errors;
    }
}

/// How many of the removals succeeded, given one outcome per removal.
pub open spec fn done_count(ok: Seq<bool>) -> nat
    decreases ok.len(),
{
    if ok.len() == 0 {
        0
    } else {
        done_count(ok.drop_last()) + if ok.last() {
            1nat
        } else {
            0nat
        }
    }
}

/// The bytes freed by the removals that succeeded.
pub open spec fn done_bytes(rs: Seq<RemovalView>, ok: Seq<bool>) -> nat
    decreases ok.len(),
{
    if ok.len() == 0 || rs.len() == 0 {
        0
    } else {
        done_bytes(rs.drop_last(), ok.drop_last()) + if ok.last() {
            rs.last().bytes
        } else {
            0nat
        }
    }
}

proof fn lemma_done_bounds(rs: Seq<RemovalView>, ok: Seq<bool>)
    requires
        rs.len() == ok.len(),
    ensures
        done_count(ok) <= ok.len(),
        done_bytes(rs, ok) <= removals_bytes(rs),
    decreases ok.len(),
{
    if ok.len() > 0 {
        lemma_done_bounds(rs.drop_last(), ok.drop_last());
    }
}

/// The totals of carrying out a plan, given whether each removal succeeded
/// (`ok[i]` for `plan.removals[i]`; every removal succeeds in a dry run): a
/// removed unit counts with its bytes, a failed one counts as an error.
pub fn outcome_stats(plan: &Plan, ok: &Vec<bool>) -> (res: Stats)
    requires
        removals_bytes(removals_view(plan.removals@)) <= u64::MAX,
        ok@.len() == plan.removals@.len(),
    ensures
        res.units_removed == done_count(ok@),
        res.bytes_freed == done_bytes(removals_view(plan.removals@), ok@),
        res.errors == ok@.len() - done_count(ok@),
{
    let ghost rv = removals_view(plan.removals@);
    let mut stats = Stats::default();
    let mut i: usize = 0;
    while i < ok.len()
        invariant
            i <= ok@.len(),
            ok@.len() == plan.removals@.len(),
            rv == removals_view(plan.removals@),
            removals_bytes(rv) <= u64::MAX,
            stats.units_removed == done_count(ok@.take(i as int)),
            stats.bytes_freed == done_bytes(rv.take(i as int), ok@.take(i as int)),
            stats.errors == i - done_count(ok@.take(i as int)),
        decreases ok@.len() - i,
    {
        assert(ok@.take(i + 1).drop_last() == ok@.take(i as int));
        assert(rv.take(i + 1).drop_last() == rv.take(i as int));
        assert(rv.take(i + 1).last() == plan.removals@[i as int]@);
        proof {
            lemma_done_bounds(rv.take(i + 1), ok@.take(i + 1));
            lemma_removals_prefix_bytes(rv, i + 1);
        }
        if ok[i] {
            stats.units_removed = stats.units_removed + 1;
            stats.bytes_freed = stats.bytes_freed + plan.removals[i].bytes;
        } else {
            stats.errors = stats.errors + 1;
        }
        i += 1;
    }
    assert(ok@.take(ok@.len() as int) == ok@);
    assert(rv.take(ok@.len() as int) == rv);
    stats
}

// ---------------------------------------------------------------------------
// Laws
// ---------------------------------------------------------------------------

pub open spec fn tally_count_sum(t: Seq<(Reason, nat, nat)>) -> nat
    decreases t.len(),
{
    if t.len() == 0 {
        0
    } else {
        tally_count_sum(t.drop_last()) + t.last().1
    }
}

pub open spec fn tally_bytes_sum(t: Seq<(Reason, nat, nat)>) -> nat
    decreases t.len(),
{
    if t.len() == 0 {
        0
    } else {
        tally_bytes_sum(t.drop_last()) + t.last().2
    }
}

pub open spec fn order_count_sum(order: Seq<Reason>, rs: Seq<RemovalView>) -> nat
    decreases order.len(),
{
    if order.len() == 0 {
        0
    } else {
        order_count_sum(order.drop_last(), rs) + reason_count(rs, order.last())
    }
}

pub open spec fn order_bytes_sum(order: Seq<Reason>, rs: Seq<RemovalView>) -> nat
    decreases order.len(),
{
    if order.len() == 0 {
        0
    } else {
        order_bytes_sum(order.drop_last(), rs) + reason_bytes(rs, order.last())
    }
}

proof fn lemma_tally_over_sums(order: Seq<Reason>, rs: Seq<RemovalView>)
    ensures
        tally_count_sum(tally_over(order, rs)) == order_count_sum(order, rs),
        tally_bytes_sum(tally_over(order, rs)) == order_bytes_sum(order, rs),
    decreases order.len(),
{
    if order.len() > 0 {
        lemma_tally_over_sums(order.drop_last(), rs);
        let r = order.last();
        let rest = tally_over(order.drop_last(), rs);
        if reason_count(rs, r) > 0 {
            assert(rest.push((r, reason_count(rs, r), reason_bytes(rs, r))).drop_last() == rest);
        } else {
            lemma_zero_count_zero_bytes(rs, r);
        }
    }
}

proof fn lemma_zero_count_zero_bytes(rs: Seq<RemovalView>, r: Reason)
    requires
        reason_count(rs, r) == 0,
    ensures
        reason_bytes(rs, r) == 0,
    decreases rs.len(),
{
    if rs.len() > 0 {
        lemma_zero_count_zero_bytes(rs.drop_last(), r);
    }
}

proof fn lemma_order_sums_five(rs: Seq<RemovalView>)
    ensures
        order_count_sum(reason_order(), rs) == reason_count(rs, Reason::DeadVersion)
            + reason_count(rs, Reason::RemovedPackage) + reason_count(rs, Reason::RemovedTarget)
            + reason_count(rs, Reason::OrphanBuildScript) + reason_count(
            rs,
            Reason::RemovedIncremental,
        ),
        order_bytes_sum(reason_order(), rs) == reason_bytes(rs, Reason::DeadVersion)
            + reason_bytes(rs, Reason::RemovedPackage) + reason_bytes(rs, Reason::RemovedTarget)
            + reason_bytes(rs, Reason::OrphanBuildScript) + reason_bytes(
            rs,
            Reason::RemovedIncremental,
        ),
{
    let o = reason_order();
    let o4 = o.drop_last();
    let o3 = o4.drop_last();
    let o2 = o3.drop_last();
    let o1 = o2.drop_last();
    let o0 = o1.drop_last();
    assert(o0.len() == 0);
    assert(o.last() == Reason::RemovedIncremental);
    assert(o4.last() == Reason::OrphanBuildScript);
    assert(o3.last() == Reason::RemovedTarget);
    assert(o2.last() == Reason::RemovedPackage);
    assert(o1.last() == Reason::DeadVersion);
    assert(order_count_sum(o0, rs) == 0);
    assert(order_bytes_sum(o0, rs) == 0);
    assert(order_count_sum(o1, rs) == reason_count(rs, Reason::DeadVersion));
    assert(order_bytes_sum(o1, rs) == reason_bytes(rs, Reason::DeadVersion));
    assert(order_count_sum(o2, rs) == order_count_sum(o1, rs) + reason_count(rs, Reason::RemovedPackage));
    assert(order_bytes_sum(o2, rs) == order_bytes_sum(o1, rs) + reason_bytes(rs, Reason::RemovedPackage));
    assert(order_count_sum(o3, rs) == order_count_sum(o2, rs) + reason_count(rs, Reason::RemovedTarget));
    assert(order_bytes_sum(o3, rs) == order_bytes_sum(o2, rs) + reason_bytes(rs, Reason::RemovedTarget));
    assert(order_count_sum(o4, rs) == order_count_sum(o3, rs) + reason_count(rs, Reason::OrphanBuildScript));
    assert(order_bytes_sum(o4, rs) == order_bytes_sum(o3, rs) + reason_bytes(rs, Reason::OrphanBuildScript));
}

proof fn lemma_reasons_partition(rs: Seq<RemovalView>)
    ensures
        order_count_sum(reason_order(), rs) == rs.len(),
        order_bytes_sum(reason_order(), rs) == removals_bytes(rs),
    decreases rs.len(),
{
    lemma_order_sums_five(rs);
    if rs.len() > 0 {
        lemma_reasons_partition(rs.drop_last());
        lemma_order_sums_five(rs.drop_last());
    }
}

/// The per-reason summary accounts for every removal exactly once: its counts
/// add up to the number of removals and its sizes to their total size.
pub proof fn lemma_tally_accounts_for_all(rs: Seq<RemovalView>)
    ensures
        tally_count_sum(spec_tally(rs)) == rs.len(),
        tally_bytes_sum(spec_tally(rs)) == removals_bytes(rs),
{
    lemma_tally_over_sums(reason_order(), rs);
    lemma_reasons_partition(rs);
}

/// When every removal succeeds (as in a dry run), the totals are the plan's:
/// every unit counts, the bytes are the plan's, and nothing is an error.
pub proof fn lemma_all_done_stats(rs: Seq<RemovalView>, ok: Seq<bool>)
    requires
        rs.len() == ok.len(),
        forall|i: int| 0 <= i < ok.len() ==> ok[i],
    ensures
        done_count(ok) == ok.len(),
        done_bytes(rs, ok) == removals_bytes(rs),
    decreases ok.len(),
{
    if ok.len() > 0 {
        lemma_all_done_stats(rs.drop_last(), ok.drop_last());
    }
}

/// Recognizing more of the resolve only ever keeps more: every removal planned
/// against the larger live set is also planned against the smaller one.
pub proof fn lemma_more_live_removes_less(
    us: Seq<UnitView>,
    ss: Seq<Session>,
    small: LiveView,
    large: LiveView,
)
    requires
        small.registry.subset_of(large.registry),
        small.names.subset_of(large.names),
    ensures
        forall|r: RemovalView|
            spec_removals(us, ss, large).contains(r) ==> spec_removals(us, ss, small).contains(r),
{
    lemma_unit_removals_monotone(us, small, large);
    lemma_session_removals_monotone(ss, small, large);
    assert forall|r: RemovalView| spec_removals(us, ss, large).contains(r) implies spec_removals(
        us,
        ss,
        small,
    ).contains(r) by {
        let big = spec_removals(us, ss, large);
        let i = choose|i: int| 0 <= i < big.len() && big[i] == r;
        let ul = unit_removals(us, large);
        let us_small = unit_removals(us, small);
        if i < ul.len() {
            assert(ul.contains(r));
            let j = choose|j: int| 0 <= j < us_small.len() && us_small[j] == r;
            assert(spec_removals(us, ss, small)[j] == r);
        } else {
            let sl = session_removals(ss, large);
            assert(sl[i - ul.len()] == r);
            assert(sl.contains(r));
            let ssm = session_removals(ss, small);
            let j = choose|j: int| 0 <= j < ssm.len() && ssm[j] == r;
            assert(spec_removals(us, ss, small)[us_small.len() + j] == r);
        }
    }
}

proof fn lemma_unit_removals_monotone(us: Seq<UnitView>, small: LiveView, large: LiveView)
    requires
        small.registry.subset_of(large.registry),
        small.names.subset_of(large.names),
    ensures
        forall|r: RemovalView|
            unit_removals(us, large).contains(r) ==> unit_removals(us, small).contains(r),
    decreases us.len(),
{
    if us.len() > 0 {
        lemma_unit_removals_monotone(us.drop_last(), small, large);
        let pl = unit_removals(us.drop_last(), large);
        let ps = unit_removals(us.drop_last(), small);
        assert forall|r: RemovalView| unit_removals(us, large).contains(r) implies unit_removals(
            us,
            small,
        ).contains(r) by {
            let cur = unit_removals(us, large);
            let i = choose|i: int| 0 <= i < cur.len() && cur[i] == r;
            match unit_removal(us.last(), large) {
                Some(x) => {
                    assert(unit_removal(us.last(), small) == Some(x));
                    if i < pl.len() {
                        assert(pl.contains(r));
                        let j = choose|j: int| 0 <= j < ps.len() && ps[j] == r;
                        assert(ps.push(x)[j] == r);
                    } else {
                        assert(ps.push(x)[ps.len() as int] == r);
                    }
                },
                None => {
                    assert(pl.contains(r));
                    let j = choose|j: int| 0 <= j < ps.len() && ps[j] == r;
                    match unit_removal(us.last(), small) {
                        Some(y) => {
                            assert(ps.push(y)[j] == r);
                        },
                        None => {},
                    }
                },
            }
        }
    }
}

proof fn lemma_session_removals_monotone(ss: Seq<Session>, small: LiveView, large: LiveView)
    requires
        small.names.subset_of(large.names),
    ensures
        forall|r: RemovalView|
            session_removals(ss, large).contains(r) ==> session_removals(ss, small).contains(r),
    decreases ss.len(),
{
    if ss.len() > 0 {
        lemma_session_removals_monotone(ss.drop_last(), small, large);
        let pl = session_removals(ss.drop_last(), large);
        let ps = session_removals(ss.drop_last(), small);
        assert forall|r: RemovalView| session_removals(ss, large).contains(r) implies session_removals(
            ss,
            small,
        ).contains(r) by {
            let cur = session_removals(ss, large);
            let i = choose|i: int| 0 <= i < cur.len() && cur[i] == r;
            match session_removal(ss.last(), large) {
                Some(x) => {
                    assert(session_removal(ss.last(), small) == Some(x));
                    if i < pl.len() {
                        assert(pl.contains(r));
                        let j = choose|j: int| 0 <= j < ps.len() && ps[j] == r;
                        assert(ps.push(x)[j] == r);
                    } else {
                        assert(ps.push(x)[ps.len() as int] == r);
                    }
                },
                None => {
                    assert(pl.contains(r));
                    let j = choose|j: int| 0 <= j < ps.len() && ps[j] == r;
                    match session_removal(ss.last(), small) {
                        Some(y) => {
                            assert(ps.push(y)[j] == r);
                        },
                        None => {},
                    }
                },
            }
        }
    }
}

/// Whether the resolve still references a unit's identity: its
/// `name-version` for a registry crate, its (normalized) name otherwise.
pub open spec fn unit_is_live(u: UnitView, live: LiveView) -> bool {
    match u.version {
        VersionView::Registry(nv) => live.registry.contains(nv),
        VersionView::Local(name) => live.names.contains(spec_normalize(name)),
        VersionView::Unknown => live.names.contains(spec_normalize(u.pkg_name)),
    }
}

/// A unit is removed exactly when the resolve no longer references it: nothing
/// the current build graph can reach is ever planned for removal.
pub proof fn lemma_unit_removed_iff_unreachable(u: UnitView, live: LiveView)
    ensures
        unit_removal(u, live) is None <==> unit_is_live(u, live),
        unit_removal(u, live) matches Some(r) ==> r.paths == u.paths && r.bytes == u.bytes,
{
}

/// A registry unit is removed exactly when its `name-version` is not in the
/// resolve: every config variant of a live version is kept.
pub proof fn lemma_registry_unit_fate(u: UnitView, live: LiveView, nv: Seq<char>)
    requires
        u.version == VersionView::Registry(nv),
    ensures
        unit_removal(u, live) is Some <==> !live.registry.contains(nv),
{
}

/// Incremental sessions of build scripts are never removed.
pub proof fn lemma_build_script_sessions_kept(s: Session, live: LiveView)
    requires
        session_crate(s.name@) == Some("build_script_build"@),
    ensures
        session_removal(s, live) is None,
{
}

/// No two units share a path.
pub open spec fn paths_disjoint(us: Seq<UnitView>) -> bool {
    forall|i: int, j: int, p: Seq<char>|
        0 <= i < us.len() && 0 <= j < us.len() && i != j && #[trigger] us[i].paths.contains(p)
            ==> !#[trigger] us[j].paths.contains(p)
}

/// No incremental session directory is a path of a unit.
pub open spec fn sessions_apart(us: Seq<UnitView>, ss: Seq<Session>) -> bool {
    forall|i: int, k: int|
        0 <= i < us.len() && 0 <= k < ss.len() ==> !(#[trigger] us[i].paths).contains(
            (#[trigger] ss[k]).path@,
        )
}

proof fn lemma_unit_removal_source(us: Seq<UnitView>, live: LiveView, k: int) -> (i: int)
    requires
        0 <= k < unit_removals(us, live).len(),
    ensures
        0 <= i < us.len(),
        unit_removal(us[i], live) == Some(unit_removals(us, live)[k]),
    decreases us.len(),
{
    let prev = unit_removals(us.drop_last(), live);
    if unit_removal(us.last(), live) is Some && k == prev.len() {
        (us.len() - 1) as int
    } else {
        let i = lemma_unit_removal_source(us.drop_last(), live, k);
        assert(us.drop_last()[i] == us[i]);
        i
    }
}

proof fn lemma_unit_removal_sources(us: Seq<UnitView>, live: LiveView, k1: int, k2: int) -> (r: (
    int,
    int,
))
    requires
        0 <= k1 < k2 < unit_removals(us, live).len(),
    ensures
        0 <= r.0 < r.1 < us.len(),
        unit_removal(us[r.0], live) == Some(unit_removals(us, live)[k1]),
        unit_removal(us[r.1], live) == Some(unit_removals(us, live)[k2]),
    decreases us.len(),
{
    let prev = unit_removals(us.drop_last(), live);
    if unit_removal(us.last(), live) is Some && k2 == prev.len() {
        let i1 = lemma_unit_removal_source(us.drop_last(), live, k1);
        assert(us.drop_last()[i1] == us[i1]);
        (i1, (us.len() - 1) as int)
    } else {
        let r = lemma_unit_removal_sources(us.drop_last(), live, k1, k2);
        assert(us.drop_last()[r.0] == us[r.0]);
        assert(us.drop_last()[r.1] == us[r.1]);
        r
    }
}

proof fn lemma_unit_removal_present(us: Seq<UnitView>, live: LiveView, i: int) -> (k: int)
    requires
        0 <= i < us.len(),
        unit_removal(us[i], live) is Some,
    ensures
        0 <= k < unit_removals(us, live).len(),
        Some(unit_removals(us, live)[k]) == unit_removal(us[i], live),
    decreases us.len(),
{
    let prev = unit_removals(us.drop_last(), live);
    if i == us.len() - 1 {
        prev.len() as int
    } else {
        assert(us.drop_last()[i] == us[i]);
        lemma_unit_removal_present(us.drop_last(), live, i)
    }
}

proof fn lemma_session_removal_source(ss: Seq<Session>, live: LiveView, k: int) -> (m: int)
    requires
        0 <= k < session_removals(ss, live).len(),
    ensures
        0 <= m < ss.len(),
        session_removal(ss[m], live) == Some(session_removals(ss, live)[k]),
    decreases ss.len(),
{
    let prev = session_removals(ss.drop_last(), live);
    if session_removal(ss.last(), live) is Some && k == prev.len() {
        (ss.len() - 1) as int
    } else {
        let m = lemma_session_removal_source(ss.drop_last(), live, k);
        assert(ss.drop_last()[m] == ss[m]);
        m
    }
}

/// Nothing the resolve still references loses a file: when units own
/// disjoint paths and no session directory is a unit path, no removal of the
/// plan lists a path of a live unit.
pub proof fn lemma_live_paths_never_removed(
    us: Seq<UnitView>,
    ss: Seq<Session>,
    live: LiveView,
    i: int,
    k: int,
)
    requires
        paths_disjoint(us),
        sessions_apart(us, ss),
        0 <= i < us.len(),
        unit_is_live(us[i], live),
        0 <= k < spec_removals(us, ss, live).len(),
    ensures
        forall|p: Seq<char>|
            us[i].paths.contains(p) ==> !spec_removals(us, ss, live)[k].paths.contains(p),
{
    let ur = unit_removals(us, live);
    let rs = spec_removals(us, ss, live);
    if k < ur.len() {
        let j = lemma_unit_removal_source(us, live, k);
        assert(rs[k] == ur[k]);
        assert(j != i);
        assert forall|p: Seq<char>| us[i].paths.contains(p) implies !rs[k].paths.contains(p) by {
            assert(rs[k].paths == us[j].paths);
        }
    } else {
        let sr = session_removals(ss, live);
        let m = lemma_session_removal_source(ss, live, k - ur.len());
        assert(rs[k] == sr[k - ur.len()]);
        assert forall|p: Seq<char>| us[i].paths.contains(p) implies !rs[k].paths.contains(p) by {
            assert(rs[k].paths == seq![ss[m].path@]);
            if rs[k].paths.contains(p) {
                assert(p == ss[m].path@);
            }
        }
    }
}

/// Every unit the resolve no longer references is removed exactly once: the
/// plan holds its removal (its paths and size, with its reason and label), and
/// no other removal lists the same paths.
pub proof fn lemma_dead_unit_removed_once(us: Seq<UnitView>, ss: Seq<Session>, live: LiveView, i: int)
    requires
        paths_disjoint(us),
        sessions_apart(us, ss),
        0 <= i < us.len(),
        us[i].paths.len() > 0,
        !unit_is_live(us[i], live),
    ensures
        exists|k: int|
            0 <= k < spec_removals(us, ss, live).len() && Some(spec_removals(us, ss, live)[k])
                == unit_removal(us[i], live),
        unit_removal(us[i], live) matches Some(r) && r.paths == us[i].paths && r.bytes == us[i].bytes,
        forall|k1: int, k2: int|
            0 <= k1 < spec_removals(us, ss, live).len() && 0 <= k2 < spec_removals(us, ss, live).len()
                && (#[trigger] spec_removals(us, ss, live)[k1]).paths == us[i].paths && (
            #[trigger] spec_removals(us, ss, live)[k2]).paths == us[i].paths ==> k1 == k2,
{
    let ur = unit_removals(us, live);
    let sr = session_removals(ss, live);
    let rs = spec_removals(us, ss, live);
    let k = lemma_unit_removal_present(us, live, i);
    assert(rs[k] == ur[k]);
    let p0 = us[i].paths[0];
    assert(us[i].paths.contains(p0));
    // A removal listing the unit's paths comes from a unit, not a session.
    assert forall|n: int| 0 <= n < rs.len() && rs[n].paths == us[i].paths implies n < ur.len() by {
        if n >= ur.len() {
            let m = lemma_session_removal_source(ss, live, n - ur.len());
            assert(rs[n] == sr[n - ur.len()]);
            assert(us[i].paths == seq![ss[m].path@]);
            assert(us[i].paths.contains(ss[m].path@));
        }
    }
    assert forall|k1: int, k2: int|
        0 <= k1 < rs.len() && 0 <= k2 < rs.len() && (#[trigger] rs[k1]).paths == us[i].paths && (
        #[trigger] rs[k2]).paths == us[i].paths implies k1 == k2 by {
        if k1 != k2 {
            let (a, b) = if k1 < k2 {
                assert(rs[k1] == ur[k1] && rs[k2] == ur[k2]);
                lemma_unit_removal_sources(us, live, k1, k2)
            } else {
                assert(rs[k1] == ur[k1] && rs[k2] == ur[k2]);
                lemma_unit_removal_sources(us, live, k2, k1)
            };
            assert(us[a].paths == us[i].paths);
            assert(us[b].paths == us[i].paths);
            assert(us[a].paths.contains(p0));
            assert(us[b].paths.contains(p0));
        }
    }
}

/// Why and under what name a unit the resolve no longer references is removed:
/// a registry crate as a dead version under its `name-version`; a local
/// library as a removed package and any other local target as a removed
/// target, under the package name; a unit with no version (a build-script
/// run) as an orphan build script, under `<pkg> (build script)`.
pub proof fn lemma_removal_reason(u: UnitView, live: LiveView)
    ensures
        match u.version {
            VersionView::Registry(nv) => !live.registry.contains(nv) ==> unit_removal(u, live) == Some(
                (RemovalView { label: nv, reason: Reason::DeadVersion, paths: u.paths, bytes: u.bytes }),
            ),
            VersionView::Local(n) => !live.names.contains(spec_normalize(n)) ==> (unit_removal(u, live) matches Some(r)
                && r.label == u.pkg_name && r.paths == u.paths && r.bytes == u.bytes && (r.reason
                == Reason::RemovedPackage <==> u.kind == UnitKind::Lib) && (r.reason == Reason::RemovedPackage
                || r.reason == Reason::RemovedTarget)),
            VersionView::Unknown => !live.names.contains(spec_normalize(u.pkg_name)) ==> unit_removal(u, live)
                == Some(
                (RemovalView {
                    label: u.pkg_name + " (build script)"@,
                    reason: Reason::OrphanBuildScript,
                    paths: u.paths,
                    bytes: u.bytes,
                }),
            ),
        },
{
}

/// An incremental session `<crate>-<session>` (crate names hold no `-`) is
/// removed exactly when its crate is not `build_script_build` and is not live
/// (names compared normalized), as a removed incremental of that crate, with
/// its directory and size.
pub proof fn lemma_session_fate(s: Session, live: LiveView, c: Seq<char>, rest: Seq<char>)
    requires
        s.name@ == c + seq!['-'] + rest,
        !c.contains('-'),
    ensures
        session_removal(s, live) is Some <==> (c != "build_script_build"@ && !live.names.contains(
            spec_normalize(c),
        )),
        session_removal(s, live) matches Some(r) ==> (r == (RemovalView {
            label: c + " (incremental)"@,
            reason: Reason::RemovedIncremental,
            paths: seq![s.path@],
            bytes: s.bytes as nat,
        })),
{
    let n = s.name@;
    assert forall|j: int| 0 <= j < c.len() implies n[j] != '-' by {
        assert(n[j] == c[j]);
        if c[j] == '-' {
            assert(c.contains('-'));
        }
    }
    assert(n[c.len() as int] == '-');
    crate::units::lemma_find_first(n, '-', c.len() as int);
    assert(n.take(c.len() as int) =~= c);
}

} // verus!
