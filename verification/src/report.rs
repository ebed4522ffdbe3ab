//! The lines `cargo sift` prints.

use vstd::prelude::*;
use crate::gc::{removals_view, spec_label, spec_tally, tally_view, Plan, Removal, Stats};
use crate::human::{format_size, spec_format_size};
use crate::text::{dec_digits, push_decimal, push_str, strings_view};

verus! {

/// The items joined with `sep` between neighbours.
pub open spec fn join(items: Seq<Seq<char>>, sep: Seq<char>) -> Seq<char>
    decreases items.len(),
{
    if items.len() == 0 {
        Seq::empty()
    } else if items.len() == 1 {
        items[0]
    } else {
        join(items.drop_last(), sep) + sep + items.last()
    }
}

pub open spec fn free_verb(dry_run: bool) -> Seq<char> {
    if dry_run {
        "would free"@
    } else {
        "freed"@
    }
}

/// `"{count} {reason} {size}"` for one reason of a summary.
pub open spec fn tally_text(e: (crate::gc::Reason, nat, nat)) -> Seq<char> {
    dec_digits(e.1) + " "@ + spec_label(e.0) + " "@ + spec_format_size(e.2)
}

pub open spec fn tally_texts(t: Seq<(crate::gc::Reason, nat, nat)>) -> Seq<Seq<char>> {
    Seq::new(t.len(), |i: int| tally_text(t[i]))
}

/// The line reporting one target directory.
pub open spec fn spec_target_line(
    target: Seq<char>,
    plan: Plan,
    stats: Stats,
    dry_run: bool,
) -> Seq<char> {
    if plan.removals@.len() == 0 {
        target + ": "@ + spec_format_size(plan.dir_bytes as nat) + " — already tidy"@
    } else {
        target + ": "@ + spec_format_size(plan.dir_bytes as nat) + " → "@ + free_verb(dry_run) + " "@
            + spec_format_size(stats.bytes_freed as nat) + " ("@ + dec_digits(
            stats.units_removed as nat,
        ) + " units: "@ + join(tally_texts(spec_tally(removals_view(plan.removals@))), ", "@)
            + ")"@
    }
}

/// The line reporting one target directory: its size and, unless nothing was
/// to be removed, what was (or would be) freed, broken down by reason.
pub fn target_line(target: &str, plan: &Plan, stats: &Stats, dry_run: bool) -> (res: String)
    requires
        crate::gc::removals_bytes(crate::gc::removals_view(plan.removals@)) <= u64::MAX,
    ensures
        res@ == spec_target_line(target@, *plan, *stats, dry_run),
{
    let mut out = crate::text::owned(target);
    push_str(&mut out, ": ");
    let dir = format_size(plan.dir_bytes);
    push_str(&mut out, dir.as_str());
    if plan.removals.len() == 0 {
        push_str(&mut out, " — already tidy");
        return out;
    }
    push_str(&mut out, " → ");
    push_str(&mut out, if dry_run { "would free" } else { "freed" });
    push_str(&mut out, " ");
    let freed = format_size(stats.bytes_freed);
    push_str(&mut out, freed.as_str());
    push_str(&mut out, " (");
    push_decimal(&mut out, stats.units_removed as u128);
    push_str(&mut out, " units: ");
    let tally = plan.tally();
    let ghost texts = tally_texts(tally_view(tally@));
    let ghost head = out@;
    let mut i: usize = 0;
    while i < tally.len()
        invariant
            i <= tally@.len(),
            texts == tally_texts(tally_view(tally@)),
            out@ == head + join(texts.take(i as int), ", "@),
        decreases tally@.len() - i,
    {
        assert(texts.take(i + 1).drop_last() == texts.take(i as int));
        assert(texts.take(i + 1).last() == texts[i as int]);
        if i > 0 {
            push_str(&mut out, ", ");
        } else {
            assert(join(texts.take(0), ", "@) == Seq::<char>::empty());
        }
        let (reason, count, bytes) = tally[i];
        push_decimal(&mut out, count as u128);
        push_str(&mut out, " ");
        push_str(&mut out, reason.label());
        push_str(&mut out, " ");
        let size = format_size(bytes);
        push_str(&mut out, size.as_str());
        assert(out@ =~= head + join(texts.take(i + 1), ", "@));
        i += 1;
    }
    push_str(&mut out, ")");
    assert(texts.take(tally@.len() as int) == texts);
    assert(out@ =~= spec_target_line(target@, *plan, *stats, dry_run));
    out
}

/// Whether the run ends with a grand total: when more than one target was
/// cleaned, or in quiet mode.
pub fn shows_summary(cleaned: u64, quiet: bool) -> (res: bool)
    ensures
        res == (cleaned > 1 || quiet),
{
    cleaned > 1 || quiet
}

pub open spec fn spec_summary_line(grand: Stats, cleaned: nat, dry_run: bool) -> Seq<char> {
    "cargo-sift: "@ + free_verb(dry_run) + " "@ + spec_format_size(grand.bytes_freed as nat)
        + " across "@ + dec_digits(cleaned) + " target director"@ + (if cleaned == 1 {
        "y"@
    } else {
        "ies"@
    }) + " ("@ + dec_digits(grand.units_removed as nat) + " units removed)"@
}

/// The grand total across every target cleaned.
pub fn summary_line(grand: &Stats, cleaned: u64, dry_run: bool) -> (res: String)
    ensures
        res@ == spec_summary_line(*grand, cleaned as nat, dry_run),
{
    let mut out = String::new();
    push_str(&mut out, "cargo-sift: ");
    push_str(&mut out, if dry_run { "would free" } else { "freed" });
    push_str(&mut out, " ");
    let size = format_size(grand.bytes_freed);
    push_str(&mut out, size.as_str());
    push_str(&mut out, " across ");
    push_decimal(&mut out, cleaned as u128);
    push_str(&mut out, " target director");
    push_str(&mut out, if cleaned == 1 { "y" } else { "ies" });
    push_str(&mut out, " (");
    push_decimal(&mut out, grand.units_removed as u128);
    push_str(&mut out, " units removed)");
    assert(out@ =~= spec_summary_line(*grand, cleaned as nat, dry_run));
    out
}

pub open spec fn spec_errors_line(errors: nat) -> Seq<char> {
    "cargo-sift: "@ + dec_digits(errors) + " unit(s) could not be fully removed"@
}

/// The warning printed when some removals failed.
pub fn errors_line(errors: u64) -> (res: String)
    ensures
        res@ == spec_errors_line(errors as nat),
{
    let mut out = String::new();
    push_str(&mut out, "cargo-sift: ");
    push_decimal(&mut out, errors as u128);
    push_str(&mut out, " unit(s) could not be fully removed");
    assert(out@ =~= spec_errors_line(errors as nat));
    out
}

pub open spec fn spec_no_targets_line(paths: Seq<Seq<char>>) -> Seq<char> {
    "cargo-sift: no Cargo target directories found under "@ + join(paths, ", "@)
}

/// The notice printed when no target directory was found.
pub fn no_targets_line(paths: &Vec<String>) -> (res: String)
    ensures
        res@ == spec_no_targets_line(strings_view(paths@)),
{
    let mut out = String::new();
    push_str(&mut out, "cargo-sift: no Cargo target directories found under ");
    let ghost ps = strings_view(paths@);
    let ghost head = out@;
    let mut i: usize = 0;
    while i < paths.len()
        invariant
            i <= paths@.len(),
            ps == strings_view(paths@),
            out@ == head + join(ps.take(i as int), ", "@),
        decreases paths@.len() - i,
    {
        assert(ps.take(i + 1).drop_last() == ps.take(i as int));
        assert(ps.take(i + 1).last() == paths@[i as int]@);
        if i > 0 {
            push_str(&mut out, ", ");
        } else {
            assert(join(ps.take(0), ", "@) == Seq::<char>::empty());
        }
        push_str(&mut out, paths[i].as_str());
        assert(out@ =~= head + join(ps.take(i + 1), ", "@));
        i += 1;
    }
    assert(ps.take(paths@.len() as int) == ps);
    out
}

pub open spec fn spec_removal_line(r: Removal, dry_run: bool) -> Seq<char> {
    (if dry_run {
        "would remove"@
    } else {
        "removing"@
    }) + " "@ + r.label@ + " ["@ + spec_label(r.reason) + "] — "@ + spec_format_size(r.bytes as nat)
}

/// The line listing one removal in verbose mode.
pub fn removal_line(r: &Removal, dry_run: bool) -> (res: String)
    ensures
        res@ == spec_removal_line(*r, dry_run),
{
    let mut out = String::new();
    push_str(&mut out, if dry_run { "would remove" } else { "removing" });
    push_str(&mut out, " ");
    push_str(&mut out, r.label.as_str());
    push_str(&mut out, " [");
    push_str(&mut out, r.reason.label());
    push_str(&mut out, "] — ");
    let size = format_size(r.bytes);
    push_str(&mut out, size.as_str());
    assert(out@ =~= spec_removal_line(*r, dry_run));
    out
}

} // verus!
