//! The resolver's verdicts on imports, and the failures to report for a tree.
use vstd::prelude::*;
use crate::syntax::{expand, imports, ordered, tree_ranges, TextRange, UseTree};

verus! {

/// What the resolver found for one full path.
#[derive(Clone, Copy, PartialEq, Eq, Structural, Debug)]
pub enum ResolutionOutcome {
    Resolved,
    /// The segment at this index is the first that names nothing.
    UnresolvedSegment(usize),
    /// The root of the path is itself unresolved; the number identifies
    /// that root (for example an `extern crate` that failed).
    UnresolvedRoot(u64),
}

/// One import that failed, with the range to report.
#[derive(Clone, Copy, PartialEq, Eq, Structural, Debug)]
pub struct Failure {
    pub range: TextRange,
    pub outcome: ResolutionOutcome,
}

/// The failures among imports with these ranges and outcomes, in order.
pub open spec fn failures(ranges: Seq<TextRange>, outcomes: Seq<ResolutionOutcome>) -> Seq<Failure>
    decreases ranges.len(),
{
    if ranges.len() == 0 || outcomes.len() == 0 {
        seq![]
    } else {
        let rest = failures(ranges.drop_last(), outcomes.drop_last());
        let o = outcomes.last();
        if o is Resolved {
            rest
        } else {
            rest.push(Failure { range: ranges.last(), outcome: o })
        }
    }
}

/// How many of the outcomes are not `Resolved`.
pub open spec fn count_unresolved(outcomes: Seq<ResolutionOutcome>) -> nat
    decreases outcomes.len(),
{
    if outcomes.len() == 0 {
        0
    } else {
        count_unresolved(outcomes.drop_last()) + if outcomes.last() is Resolved {
            0nat
        } else {
            1nat
        }
    }
}

/// The ranges of a sequence of failures.
pub open spec fn failure_ranges(fs: Seq<Failure>) -> Seq<TextRange> {
    fs.map_values(|f: Failure| f.range)
}

/// The failures to report for a tree, given the outcome of each of its
/// imports in the order of [`expand`]: one per import that did not resolve,
/// at that import's own range, in source order.
pub fn unresolved_ranges(t: &UseTree, outcomes: &Vec<ResolutionOutcome>) -> (r: Vec<Failure>)
    requires
        outcomes.len() == imports(*t, seq![]).len(),
    ensures
        r@ == failures(tree_ranges(*t), outcomes@),
{
    let paths = expand(t);
    let ghost rs = tree_ranges(*t);
    assert(rs.len() == paths.len());
    let mut r: Vec<Failure> = Vec::new();
    let mut i: usize = 0;
    while i < paths.len()
        invariant
            i <= paths.len(),
            paths.len() == outcomes.len(),
            rs.len() == paths.len(),
            forall|k: int| 0 <= k < paths.len() ==> #[trigger] rs[k] == paths@[k].range,
            r@ == failures(rs.subrange(0, i as int), outcomes@.subrange(0, i as int)),
        decreases paths.len() - i,
    {
        proof {
            assert(rs.subrange(0, i + 1).drop_last() =~= rs.subrange(0, i as int));
            assert(outcomes@.subrange(0, i + 1).drop_last() =~= outcomes@.subrange(0, i as int));
            assert(rs[i as int] == paths@[i as int].range);
        }
        match outcomes[i] {
            ResolutionOutcome::Resolved => {},
            o => {
                r.push(Failure { range: paths[i].range, outcome: o });
            },
        }
        i += 1;
    }
    assert(rs.subrange(0, i as int) =~= rs);
    assert(outcomes@.subrange(0, i as int) =~= outcomes@);
    r
}

/// Each failure comes from an import that did not resolve, and the failures
/// keep the order of the imports.
pub proof fn lemma_failures_sound(ranges: Seq<TextRange>, outcomes: Seq<ResolutionOutcome>)
    requires
        ranges.len() == outcomes.len(),
    ensures
        forall|m: int|
            0 <= m < failures(ranges, outcomes).len() ==> exists|i: int|
                0 <= i < ranges.len() && !(outcomes[i] is Resolved) && #[trigger] failures(
                    ranges,
                    outcomes,
                )[m] == (Failure { range: ranges[i], outcome: outcomes[i] }),
        ordered(ranges) ==> ordered(failure_ranges(failures(ranges, outcomes))),
        failures(ranges, outcomes).len() == count_unresolved(outcomes),
    decreases ranges.len(),
{
    if ranges.len() > 0 {
        let n = ranges.len() - 1;
        let ri = ranges.drop_last();
        let oi = outcomes.drop_last();
        lemma_failures_sound(ri, oi);
        let rest = failures(ri, oi);
        let fs = failures(ranges, outcomes);
        assert forall|m: int| 0 <= m < fs.len() implies exists|i: int|
            0 <= i < ranges.len() && !(outcomes[i] is Resolved) && #[trigger] fs[m] == (Failure {
                range: ranges[i],
                outcome: outcomes[i],
            }) by {
            if m < rest.len() {
                assert(fs[m] == rest[m]);
                let i = choose|i: int|
                    0 <= i < ri.len() && !(oi[i] is Resolved) && #[trigger] rest[m] == (Failure {
                        range: ri[i],
                        outcome: oi[i],
                    });
                assert(ri[i] == ranges[i] && oi[i] == outcomes[i]);
            } else {
                assert(fs[m] == Failure { range: ranges[n], outcome: outcomes[n] });
            }
        }
        if ordered(ranges) {
            assert(ordered(ri)) by {
                assert forall|i: int, j: int| 0 <= i < j < ri.len() implies (
                #[trigger] ri[i]).end <= (#[trigger] ri[j]).start by {
                    assert(ri[i] == ranges[i] && ri[j] == ranges[j]);
                }
                assert forall|i: int| 0 <= i < ri.len() implies (#[trigger] ri[i]).start
                    <= ri[i].end by {
                    assert(ri[i] == ranges[i]);
                }
            }
            let fr = failure_ranges(fs);
            let rr = failure_ranges(rest);
            if !(outcomes[n] is Resolved) {
                assert forall|i: int, j: int| 0 <= i < j < fr.len() implies (
                #[trigger] fr[i]).end <= (#[trigger] fr[j]).start by {
                    if j < rest.len() {
                        assert(fr[i] == rr[i] && fr[j] == rr[j]);
                    } else {
                        let x = choose|x: int|
                            0 <= x < ri.len() && !(oi[x] is Resolved) && #[trigger] rest[i]
                                == (Failure { range: ri[x], outcome: oi[x] });
                        assert(fr[i] == ranges[x]);
                        assert(fr[j] == ranges[n]);
                    }
                }
                assert forall|i: int| 0 <= i < fr.len() implies (#[trigger] fr[i]).start
                    <= fr[i].end by {
                    if i < rest.len() {
                        assert(fr[i] == rr[i]);
                    } else {
                        assert(fr[i] == ranges[n]);
                    }
                }
            } else {
                assert(fr =~= rr);
            }
        }
    }
}

/// Every import that did not resolve has its failure, at its own range.
pub proof fn lemma_failures_complete(
    ranges: Seq<TextRange>,
    outcomes: Seq<ResolutionOutcome>,
    k: int,
)
    requires
        ranges.len() == outcomes.len(),
        0 <= k < ranges.len(),
        !(outcomes[k] is Resolved),
    ensures
        failures(ranges, outcomes).contains(Failure { range: ranges[k], outcome: outcomes[k] }),
    decreases ranges.len(),
{
    let n = ranges.len() - 1;
    let fs = failures(ranges, outcomes);
    if k == n {
        assert(fs.last() == Failure { range: ranges[k], outcome: outcomes[k] });
    } else {
        let ri = ranges.drop_last();
        let oi = outcomes.drop_last();
        lemma_failures_complete(ri, oi, k);
        let rest = failures(ri, oi);
        let x = choose|x: int|
            0 <= x < rest.len() && rest[x] == Failure { range: ri[k], outcome: oi[k] };
        assert(fs[x] == rest[x]);
    }
}

} // verus!
