//! Facts about the pass that hold for every input, with their proofs.
use vstd::prelude::*;
use crate::dedup::{is_suppressed, DedupScope};
use crate::diagnostic::{diagnostic_of, DiagnosticKind};
use crate::pass::{is_unresolved_crate, pass_diagnostics, report, suppressed_roots, Module};
use crate::ranges::{
    count_unresolved, failure_ranges, failures, lemma_failures_complete, lemma_failures_sound,
    Failure, ResolutionOutcome,
};
use crate::syntax::{
    imports, lemma_imports_list_ordered, lemma_imports_ordered, lemma_ordered_concat, ordered,
    spans_list, tree_ranges, well_formed, UseTree,
};

verus! {

/// Before deduplication a well-formed tree yields exactly one failure per
/// import that did not resolve, and no two failure ranges overlap.
pub proof fn failures_match_unresolved_imports(t: UseTree, outcomes: Seq<ResolutionOutcome>)
    requires
        well_formed(t),
        outcomes.len() == imports(t, seq![]).len(),
    ensures
        failures(tree_ranges(t), outcomes).len() == count_unresolved(outcomes),
        ordered(failure_ranges(failures(tree_ranges(t), outcomes))),
{
    lemma_imports_ordered(t, seq![]);
    lemma_failures_sound(tree_ranges(t), outcomes);
}

/// In a well-formed group every failure is reported at the range of an
/// import written inside the braces, which lies after the group's prefix;
/// when no import of the group resolves, each one has its own failure, in
/// source order.
pub proof fn group_failures_stay_inside(t: UseTree, outcomes: Seq<ResolutionOutcome>)
    requires
        t is Group,
        well_formed(t),
        outcomes.len() == imports(t, seq![]).len(),
    ensures
        forall|m: int|
            0 <= m < failures(tree_ranges(t), outcomes).len() ==> {
                let f = #[trigger] failures(tree_ranges(t), outcomes)[m];
                &&& t->Group_prefix.range.end <= f.range.start
                &&& exists|k: int|
                    0 <= k < imports(t, seq![]).len() && f.range == imports(t, seq![])[k].range
            },
        (forall|k: int| 0 <= k < outcomes.len() ==> !(#[trigger] outcomes[k] is Resolved)) ==> {
            &&& failures(tree_ranges(t), outcomes).len() == outcomes.len()
            &&& forall|k: int|
                0 <= k < outcomes.len() ==> #[trigger] failures(tree_ranges(t), outcomes)[k].range
                    == imports(t, seq![])[k].range
        },
{
    let p = t->Group_prefix;
    let children = t->Group_children;
    let inner = Seq::<crate::syntax::Segment>::empty() + p.segments@;
    let s = spans_list(children@);
    let rs = tree_ranges(t);
    let fs = failures(rs, outcomes);
    lemma_ordered_concat(seq![p.range], s);
    lemma_imports_list_ordered(children@, inner);
    lemma_failures_sound(rs, outcomes);
    assert forall|m: int| 0 <= m < fs.len() implies {
        let f = #[trigger] fs[m];
        &&& p.range.end <= f.range.start
        &&& exists|k: int| 0 <= k < imports(t, seq![]).len() && f.range == imports(t, seq![])[k].range
    } by {
        let i = choose|i: int|
            0 <= i < rs.len() && !(outcomes[i] is Resolved) && #[trigger] fs[m] == (Failure {
                range: rs[i],
                outcome: outcomes[i],
            });
        assert(rs[i] == imports(t, seq![])[i].range);
        assert(s.contains(imports(t, seq![])[i].range));
        let x = choose|x: int| 0 <= x < s.len() && s[x] == imports(t, seq![])[i].range;
        assert(seq![p.range][0] == p.range);
    }
    if forall|k: int| 0 <= k < outcomes.len() ==> !(#[trigger] outcomes[k] is Resolved) {
        lemma_failures_all_unresolved(rs, outcomes);
    }
}

/// When no outcome is `Resolved`, the failures are all the imports, in order.
proof fn lemma_failures_all_unresolved(
    ranges: Seq<crate::syntax::TextRange>,
    outcomes: Seq<ResolutionOutcome>,
)
    requires
        ranges.len() == outcomes.len(),
        forall|k: int| 0 <= k < outcomes.len() ==> !(#[trigger] outcomes[k] is Resolved),
    ensures
        failures(ranges, outcomes).len() == ranges.len(),
        forall|k: int|
            0 <= k < ranges.len() ==> #[trigger] failures(ranges, outcomes)[k] == (Failure {
                range: ranges[k],
                outcome: outcomes[k],
            }),
    decreases ranges.len(),
{
    if ranges.len() > 0 {
        let ri = ranges.drop_last();
        let oi = outcomes.drop_last();
        assert forall|k: int| 0 <= k < oi.len() implies !(#[trigger] oi[k] is Resolved) by {
            assert(oi[k] == outcomes[k]);
        }
        lemma_failures_all_unresolved(ri, oi);
        assert(!(outcomes[outcomes.len() - 1] is Resolved));
        let fs = failures(ranges, outcomes);
        assert forall|k: int| 0 <= k < ranges.len() implies #[trigger] fs[k] == (Failure {
            range: ranges[k],
            outcome: outcomes[k],
        }) by {
            if k < ri.len() {
                assert(fs[k] == failures(ri, oi)[k]);
            }
        }
    }
}

/// An import of a well-formed group that fails at some segment, even one
/// after a prefix that resolves, is reported at the range of its own path
/// inside the braces, never at the group's prefix.
pub proof fn partial_failure_reports_own_path(
    t: UseTree,
    outcomes: Seq<ResolutionOutcome>,
    k: int,
)
    requires
        t is Group,
        well_formed(t),
        outcomes.len() == imports(t, seq![]).len(),
        0 <= k < outcomes.len(),
        outcomes[k] is UnresolvedSegment,
    ensures
        failures(tree_ranges(t), outcomes).contains(
            Failure { range: imports(t, seq![])[k].range, outcome: outcomes[k] },
        ),
        t->Group_prefix.range.end <= imports(t, seq![])[k].range.start,
{
    let p = t->Group_prefix;
    let s = spans_list(t->Group_children@);
    let rs = tree_ranges(t);
    lemma_failures_complete(rs, outcomes, k);
    lemma_ordered_concat(seq![p.range], s);
    lemma_imports_list_ordered(t->Group_children@, Seq::<crate::syntax::Segment>::empty() + p.segments@);
    assert(s.contains(imports(t, seq![])[k].range));
    assert(seq![p.range][0] == p.range);
}

/// Deduplication drops exactly the failures whose root was already reported
/// unresolved: every diagnostic comes from a failure that is not suppressed,
/// every such failure has its diagnostic (in particular every failure at a
/// later segment), and when all are suppressed nothing is reported.
pub proof fn dedup_drops_only_reported_roots(fs: Seq<Failure>, roots: Set<u64>)
    ensures
        forall|m: int|
            0 <= m < report(fs, roots).len() ==> exists|i: int|
                0 <= i < fs.len() && !is_suppressed(fs[i], roots) && #[trigger] report(fs, roots)[m]
                    == diagnostic_of(DiagnosticKind::UnresolvedImport, fs[i].range),
        forall|i: int|
            0 <= i < fs.len() && !is_suppressed(#[trigger] fs[i], roots) ==> report(
                fs,
                roots,
            ).contains(diagnostic_of(DiagnosticKind::UnresolvedImport, fs[i].range)),
        forall|i: int|
            0 <= i < fs.len() && (#[trigger] fs[i]).outcome is UnresolvedSegment ==> report(
                fs,
                roots,
            ).contains(diagnostic_of(DiagnosticKind::UnresolvedImport, fs[i].range)),
        (forall|i: int| 0 <= i < fs.len() ==> is_suppressed(#[trigger] fs[i], roots)) ==> report(
            fs,
            roots,
        ).len() == 0,
    decreases fs.len(),
{
    if fs.len() > 0 {
        let fi = fs.drop_last();
        let n = fs.len() - 1;
        dedup_drops_only_reported_roots(fi, roots);
        let rest = report(fi, roots);
        let r = report(fs, roots);
        assert forall|m: int| 0 <= m < r.len() implies exists|i: int|
            0 <= i < fs.len() && !is_suppressed(fs[i], roots) && #[trigger] r[m] == diagnostic_of(
                DiagnosticKind::UnresolvedImport,
                fs[i].range,
            ) by {
            if m < rest.len() {
                assert(r[m] == rest[m]);
                let i = choose|i: int|
                    0 <= i < fi.len() && !is_suppressed(fi[i], roots) && #[trigger] rest[m]
                        == diagnostic_of(DiagnosticKind::UnresolvedImport, fi[i].range);
                assert(fi[i] == fs[i]);
            } else {
                assert(r[m] == diagnostic_of(DiagnosticKind::UnresolvedImport, fs[n].range));
            }
        }
        assert forall|i: int| 0 <= i < fs.len() && !is_suppressed(#[trigger] fs[i], roots) implies r.contains(
            diagnostic_of(DiagnosticKind::UnresolvedImport, fs[i].range),
        ) by {
            if i < n {
                assert(fi[i] == fs[i]);
                assert(rest.contains(diagnostic_of(DiagnosticKind::UnresolvedImport, fi[i].range)));
                let x = choose|x: int|
                    0 <= x < rest.len() && rest[x] == diagnostic_of(
                        DiagnosticKind::UnresolvedImport,
                        fi[i].range,
                    );
                assert(r[x] == rest[x]);
            } else {
                assert(r[r.len() - 1] == diagnostic_of(DiagnosticKind::UnresolvedImport, fs[i].range));
            }
        }
        assert forall|i: int| 0 <= i < fs.len() && (#[trigger] fs[i]).outcome is UnresolvedSegment implies r.contains(
            diagnostic_of(DiagnosticKind::UnresolvedImport, fs[i].range),
        ) by {
            assert(!is_suppressed(fs[i], roots));
        }
        if forall|i: int| 0 <= i < fs.len() ==> is_suppressed(#[trigger] fs[i], roots) {
            assert forall|i: int| 0 <= i < fi.len() implies is_suppressed(#[trigger] fi[i], roots) by {
                assert(fi[i] == fs[i]);
            }
            assert(is_suppressed(fs[n], roots));
        }
    }
}

/// A failed `extern crate` suppresses, in its own module, the imports
/// rooted at the crate it names, whatever the scope of the pass.
pub proof fn failed_crate_suppresses_its_module(
    modules: Seq<Module>,
    m: int,
    i: int,
    root: u64,
    scope: DedupScope,
)
    requires
        0 <= m < modules.len(),
        0 <= i < modules[m].items@.len(),
        is_unresolved_crate(modules[m].items@[i], root),
    ensures
        suppressed_roots(modules, m, scope).contains(root),
{
    let items = modules[m].items@;
    assert(crate::pass::unresolved_crates(items).contains(root));
}

/// A pass depends on the snapshot it reads and nothing else: two passes
/// over the same modules give the same diagnostics in the same order.
pub proof fn pass_is_deterministic(a: Seq<Module>, b: Seq<Module>, scope: DedupScope)
    requires
        a == b,
    ensures
        pass_diagnostics(a, scope) == pass_diagnostics(b, scope),
{
}

} // verus!
