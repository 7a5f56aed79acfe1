//! One diagnostic pass over the modules of a compilation unit.
use vstd::prelude::*;
use crate::dedup::{is_suppressed, suppressed, DedupScope, SuppressedRootSet};
use crate::diagnostic::{diagnostic_of, Diagnostic, DiagnosticKind};
use crate::ranges::{failures, unresolved_ranges, Failure, ResolutionOutcome};
use crate::syntax::{
    check_well_formed, expand, imports, tree_ranges, well_formed, TextRange, UseTree,
};

verus! {

/// An item of a module that the pass looks at.
#[derive(Debug)]
pub enum Item {
    /// `extern crate`, with the identity of the crate root it names, the
    /// range of the whole item, and whether the crate was found.
    ExternCrate { root: u64, range: TextRange, resolved: bool },
    /// A `use` declaration, with the outcome of each of its imports in the
    /// order of [`crate::syntax::expand`].
    Use { tree: UseTree, outcomes: Vec<ResolutionOutcome> },
}

impl Item {
    /// A `use` item, if its tree is well formed and there is one outcome per
    /// import; otherwise the input is malformed and nothing is built.
    pub fn use_declaration(tree: UseTree, outcomes: Vec<ResolutionOutcome>) -> (r: Option<Item>)
        ensures
            r is Some <==> well_formed(tree) && outcomes.len() == imports(tree, seq![]).len(),
            r matches Some(item) ==> item == (Item::Use { tree, outcomes }),
    {
        if !check_well_formed(&tree) {
            return None;
        }
        let n = expand(&tree).len();
        if outcomes.len() == n {
            Some(Item::Use { tree, outcomes })
        } else {
            None
        }
    }
}

/// The items of one module, in source order.
#[derive(Debug)]
pub struct Module {
    pub items: Vec<Item>,
}

/// Every `use` item has one outcome per import.
pub open spec fn items_valid(items: Seq<Item>) -> bool {
    forall|i: int|
        0 <= i < items.len() ==> (#[trigger] items[i] matches Item::Use { tree, outcomes }
            ==> outcomes.len() == imports(tree, seq![]).len())
}

/// Every module's items are valid.
pub open spec fn modules_valid(modules: Seq<Module>) -> bool {
    forall|m: int| 0 <= m < modules.len() ==> items_valid((#[trigger] modules[m]).items@)
}

/// Whether the item is an `extern crate` of `root` that was not found.
pub open spec fn is_unresolved_crate(item: Item, root: u64) -> bool {
    item matches Item::ExternCrate { root: r, resolved, .. } && r == root && !resolved
}

/// The roots of the failed `extern crate` items among `items`.
pub open spec fn unresolved_crates(items: Seq<Item>) -> Set<u64> {
    Set::new(|r: u64| exists|i: int| 0 <= i < items.len() && is_unresolved_crate(#[trigger] items[i], r))
}

/// The roots that suppress imports in module `m`.
pub open spec fn suppressed_roots(modules: Seq<Module>, m: int, scope: DedupScope) -> Set<u64> {
    match scope {
        DedupScope::Module => unresolved_crates(modules[m].items@),
        DedupScope::Unit => Set::new(
            |r: u64|
                exists|j: int|
                    0 <= j < modules.len() && #[trigger] unresolved_crates(modules[j].items@).contains(r),
        ),
    }
}

/// The diagnostics for the failures that `roots` does not suppress, in order.
pub open spec fn report(fs: Seq<Failure>, roots: Set<u64>) -> Seq<Diagnostic>
    decreases fs.len(),
{
    if fs.len() == 0 {
        seq![]
    } else {
        let rest = report(fs.drop_last(), roots);
        if is_suppressed(fs.last(), roots) {
            rest
        } else {
            rest.push(diagnostic_of(DiagnosticKind::UnresolvedImport, fs.last().range))
        }
    }
}

/// The diagnostics of one item.
pub open spec fn item_diagnostics(item: Item, roots: Set<u64>) -> Seq<Diagnostic> {
    match item {
        Item::ExternCrate { range, resolved, .. } => if resolved {
            seq![]
        } else {
            seq![diagnostic_of(DiagnosticKind::UnresolvedExternCrate, range)]
        },
        Item::Use { tree, outcomes } => report(failures(tree_ranges(tree), outcomes@), roots),
    }
}

/// The diagnostics of a sequence of items, one item after the other.
pub open spec fn items_diagnostics(items: Seq<Item>, roots: Set<u64>) -> Seq<Diagnostic>
    decreases items.len(),
{
    if items.len() == 0 {
        seq![]
    } else {
        items_diagnostics(items.drop_last(), roots) + item_diagnostics(items.last(), roots)
    }
}

/// The diagnostics of the first `n` modules of a pass.
pub open spec fn modules_diagnostics(modules: Seq<Module>, n: int, scope: DedupScope) -> Seq<
    Diagnostic,
>
    decreases n,
{
    if n <= 0 {
        seq![]
    } else {
        modules_diagnostics(modules, n - 1, scope) + items_diagnostics(
            modules[n - 1].items@,
            suppressed_roots(modules, n - 1, scope),
        )
    }
}

/// The diagnostics of a whole pass.
pub open spec fn pass_diagnostics(modules: Seq<Module>, scope: DedupScope) -> Seq<Diagnostic> {
    modules_diagnostics(modules, modules.len() as int, scope)
}

/// Adds to `roots` the roots of the failed `extern crate` items.
pub fn collect_unresolved_crates(items: &Vec<Item>, roots: &mut SuppressedRootSet)
    ensures
        final(roots)@ == old(roots)@.union(unresolved_crates(items@)),
{
    let mut i: usize = 0;
    while i < items.len()
        invariant
            i <= items.len(),
            roots@ == old(roots)@.union(unresolved_crates(items@.subrange(0, i as int))),
        decreases items.len() - i,
    {
        let ghost before = roots@;
        match &items[i] {
            Item::ExternCrate { root, resolved, .. } => {
                if !*resolved {
                    roots.insert(*root);
                }
            },
            Item::Use { .. } => {},
        }
        proof {
            let prev = items@.subrange(0, i as int);
            let next = items@.subrange(0, i + 1);
            assert forall|r: u64| #[trigger] unresolved_crates(next).contains(r) <==> unresolved_crates(
                prev,
            ).contains(r) || is_unresolved_crate(items@[i as int], r) by {
                if unresolved_crates(next).contains(r) {
                    let k = choose|k: int| 0 <= k < next.len() && is_unresolved_crate(next[k], r);
                    if k < i {
                        assert(prev[k] == next[k]);
                    }
                }
                if unresolved_crates(prev).contains(r) {
                    let k = choose|k: int| 0 <= k < prev.len() && is_unresolved_crate(prev[k], r);
                    assert(prev[k] == next[k]);
                }
                if is_unresolved_crate(items@[i as int], r) {
                    assert(next[i as int] == items@[i as int]);
                }
            }
            assert(roots@ =~= old(roots)@.union(unresolved_crates(next)));
        }
        i += 1;
    }
    assert(items@.subrange(0, i as int) =~= items@);
}

/// Appends the diagnostics for the failures that `roots` does not suppress.
fn report_into(fs: &Vec<Failure>, roots: &SuppressedRootSet, out: &mut Vec<Diagnostic>)
    ensures
        final(out)@ == old(out)@ + report(fs@, roots@),
{
    let mut i: usize = 0;
    while i < fs.len()
        invariant
            i <= fs.len(),
            out@ == old(out)@ + report(fs@.subrange(0, i as int), roots@),
        decreases fs.len() - i,
    {
        assert(fs@.subrange(0, i + 1).drop_last() =~= fs@.subrange(0, i as int));
        if !suppressed(&fs[i], roots) {
            out.push(Diagnostic::new(DiagnosticKind::UnresolvedImport, fs[i].range));
        }
        assert(out@ =~= old(out)@ + report(fs@.subrange(0, i + 1), roots@));
        i += 1;
    }
    assert(fs@.subrange(0, i as int) =~= fs@);
}

/// Appends the diagnostics of the items, given the roots that suppress imports.
pub fn diagnose_items(items: &Vec<Item>, roots: &SuppressedRootSet, out: &mut Vec<Diagnostic>)
    requires
        items_valid(items@),
    ensures
        final(out)@ == old(out)@ + items_diagnostics(items@, roots@),
{
    let mut i: usize = 0;
    while i < items.len()
        invariant
            i <= items.len(),
            items_valid(items@),
            out@ == old(out)@ + items_diagnostics(items@.subrange(0, i as int), roots@),
        decreases items.len() - i,
    {
        let ghost before = out@;
        assert(items@.subrange(0, i + 1).drop_last() =~= items@.subrange(0, i as int));
        match &items[i] {
            Item::ExternCrate { range, resolved, .. } => {
                if !*resolved {
                    out.push(Diagnostic::new(DiagnosticKind::UnresolvedExternCrate, *range));
                }
            },
            Item::Use { tree, outcomes } => {
                assert(items_valid(items@) && items@[i as int] is Use);
                let fs = unresolved_ranges(tree, outcomes);
                report_into(&fs, roots, out);
            },
        }
        assert(out@ =~= before + item_diagnostics(items@[i as int], roots@));
        assert(out@ =~= old(out)@ + items_diagnostics(items@.subrange(0, i + 1), roots@));
        i += 1;
    }
    assert(items@.subrange(0, i as int) =~= items@);
}

/// Runs one diagnostic pass over the modules of a compilation unit, in order.
/// An unresolved `extern crate` is reported once; an import that fails only
/// because its root is such a crate, within `scope`, is not reported.
pub fn diagnose(modules: &Vec<Module>, scope: DedupScope) -> (r: Vec<Diagnostic>)
    requires
        modules_valid(modules@),
    ensures
        r@ == pass_diagnostics(modules@, scope),
{
    let mut unit_roots = SuppressedRootSet::new();
    let mut j: usize = 0;
    while j < modules.len()
        invariant
            j <= modules.len(),
            forall|r: u64|
                #[trigger] unit_roots@.contains(r) <==> exists|k: int|
                    0 <= k < j && #[trigger] unresolved_crates(modules@[k].items@).contains(r),
        decreases modules.len() - j,
    {
        collect_unresolved_crates(&modules[j].items, &mut unit_roots);
        j += 1;
    }
    assert(unit_roots@ =~= suppressed_roots(modules@, 0, DedupScope::Unit));
    let mut out: Vec<Diagnostic> = Vec::new();
    let mut i: usize = 0;
    while i < modules.len()
        invariant
            i <= modules.len(),
            modules_valid(modules@),
            unit_roots@ == suppressed_roots(modules@, 0, DedupScope::Unit),
            out@ == modules_diagnostics(modules@, i as int, scope),
        decreases modules.len() - i,
    {
        assert(items_valid(modules@[i as int].items@));
        match scope {
            DedupScope::Module => {
                let mut roots = SuppressedRootSet::new();
                collect_unresolved_crates(&modules[i].items, &mut roots);
                assert(roots@ =~= suppressed_roots(modules@, i as int, scope));
                diagnose_items(&modules[i].items, &roots, &mut out);
            },
            DedupScope::Unit => {
                assert(unit_roots@ =~= suppressed_roots(modules@, i as int, scope));
                diagnose_items(&modules[i].items, &unit_roots, &mut out);
            },
        }
        i += 1;
    }
    out
}

} // verus!
