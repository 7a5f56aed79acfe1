//! The roots already reported as unresolved in a pass.
use vstd::prelude::*;
use crate::ranges::{Failure, ResolutionOutcome};

verus! {

/// How far a failed `extern crate` suppresses the imports rooted at it.
#[derive(Clone, Copy, PartialEq, Eq, Structural, Debug)]
pub enum DedupScope {
    /// Only within the module that holds the `extern crate`.
    Module,
    /// Across every module of the pass.
    Unit,
}

/// A set of root identities, kept for one pass.
#[derive(Debug)]
pub struct SuppressedRootSet {
    roots: Vec<u64>,
}

impl View for SuppressedRootSet {
    type V = Set<u64>;

    closed spec fn view(&self) -> Set<u64> {
        self.roots@.to_set()
    }
}

impl SuppressedRootSet {
    pub fn new() -> (s: SuppressedRootSet)
        ensures
            s@ == Set::<u64>::empty(),
    {
        let s = SuppressedRootSet { roots: Vec::new() };
        assert(s.roots@.to_set() =~= Set::<u64>::empty());
        s
    }

    pub fn insert(&mut self, root: u64)
        ensures
            final(self)@ == old(self)@.insert(root),
    {
        self.roots.push(root);
        assert(self.roots@.to_set() =~= old(self).roots@.to_set().insert(root)) by {
            assert forall|x: u64| #[trigger] self.roots@.contains(x) <==> old(self).roots@.contains(x) || x == root by {
                if self.roots@.contains(x) {
                    let i = choose|i: int| 0 <= i < self.roots@.len() && self.roots@[i] == x;
                    if i < old(self).roots@.len() {
                        assert(old(self).roots@[i] == x);
                    }
                }
                if old(self).roots@.contains(x) {
                    let i = choose|i: int| 0 <= i < old(self).roots@.len() && old(self).roots@[i] == x;
                    assert(self.roots@[i] == x);
                }
                if x == root {
                    assert(self.roots@[self.roots@.len() - 1] == x);
                }
            }
        }
    }

    pub fn contains(&self, root: u64) -> (r: bool)
        ensures
            r == self@.contains(root),
    {
        let mut i: usize = 0;
        while i < self.roots.len()
            invariant
                i <= self.roots.len(),
                forall|k: int| 0 <= k < i ==> self.roots@[k] != root,
            decreases self.roots.len() - i,
        {
            if self.roots[i] == root {
                assert(self.roots@.to_set().contains(root));
                return true;
            }
            i += 1;
        }
        assert(!self.roots@.contains(root));
        false
    }
}

/// A failure is suppressed when its root is unresolved and already reported.
pub open spec fn is_suppressed(f: Failure, roots: Set<u64>) -> bool {
    f.outcome matches ResolutionOutcome::UnresolvedRoot(r) && roots.contains(r)
}

/// Whether the failure is suppressed by the roots in `roots`.
pub fn suppressed(f: &Failure, roots: &SuppressedRootSet) -> (r: bool)
    ensures
        r == is_suppressed(*f, roots@),
{
    match f.outcome {
        ResolutionOutcome::UnresolvedRoot(root) => roots.contains(root),
        _ => false,
    }
}

} // verus!
