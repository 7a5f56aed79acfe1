use import_diagnostics::dedup::{suppressed, DedupScope, SuppressedRootSet};
use import_diagnostics::diagnostic::{Diagnostic, DiagnosticKind};
use import_diagnostics::pass::{collect_unresolved_crates, diagnose, diagnose_items, Item, Module};
use import_diagnostics::ranges::{unresolved_ranges, Failure, ResolutionOutcome};
use import_diagnostics::syntax::{
    check_well_formed, copy_segments, expand, is_ordered, Path, Segment, TextRange, UseTree,
};

fn name(s: &str) -> Segment {
    Segment::Name(s.to_string())
}

fn p(segments: Vec<Segment>, start: usize, end: usize) -> Path {
    Path { segments, range: TextRange::new(start, end) }
}

fn leaf(segments: Vec<Segment>, start: usize, end: usize) -> UseTree {
    UseTree::Leaf { path: p(segments, start, end), alias: None }
}

// use does_not_exist::{ a, b, c };
// 0         1         2         3
// 0123456789012345678901234567890123
fn abc_tree() -> UseTree {
    UseTree::Group {
        prefix: p(vec![name("does_not_exist")], 4, 18),
        children: vec![
            leaf(vec![name("a")], 22, 23),
            leaf(vec![name("b")], 25, 26),
            leaf(vec![name("c")], 28, 29),
        ],
    }
}

#[test]
fn three_failing_children_give_three_ranges() {
    let t = abc_tree();
    assert!(check_well_formed(&t));
    let outcomes = vec![ResolutionOutcome::UnresolvedSegment(0); 3];
    let fs = unresolved_ranges(&t, &outcomes);
    let ranges: Vec<TextRange> = fs.iter().map(|f| f.range).collect();
    assert_eq!(
        ranges,
        vec![TextRange::new(22, 23), TextRange::new(25, 26), TextRange::new(28, 29)]
    );
    let diags = diagnose(&vec![Module { items: vec![Item::Use { tree: t, outcomes }] }], DedupScope::Module);
    assert_eq!(diags.len(), 3);
    assert!(diags.iter().all(|d| d.range.start >= 18));
}

#[test]
fn failures_count_unresolved_imports_without_overlap() {
    // use x::{a, b::{c, *}, d as e};
    let t = UseTree::Group {
        prefix: p(vec![name("x")], 4, 5),
        children: vec![
            leaf(vec![name("a")], 8, 9),
            UseTree::Group {
                prefix: p(vec![name("b")], 11, 12),
                children: vec![leaf(vec![name("c")], 15, 16), UseTree::Glob { prefix: p(vec![], 18, 18) }],
            },
            UseTree::Leaf { path: p(vec![name("d")], 21, 22), alias: Some("e".to_string()) },
        ],
    };
    assert!(check_well_formed(&t));
    let outcomes = vec![
        ResolutionOutcome::Resolved,
        ResolutionOutcome::UnresolvedSegment(2),
        ResolutionOutcome::UnresolvedSegment(1),
        ResolutionOutcome::UnresolvedRoot(4),
    ];
    let fs = unresolved_ranges(&t, &outcomes);
    assert_eq!(fs.len(), 3);
    assert_eq!(
        fs,
        vec![
            Failure { range: TextRange::new(15, 16), outcome: ResolutionOutcome::UnresolvedSegment(2) },
            Failure { range: TextRange::new(18, 18), outcome: ResolutionOutcome::UnresolvedSegment(1) },
            Failure { range: TextRange::new(21, 22), outcome: ResolutionOutcome::UnresolvedRoot(4) },
        ]
    );
    let ranges: Vec<TextRange> = fs.iter().map(|f| f.range).collect();
    assert!(is_ordered(&ranges));
}

#[test]
fn partially_resolved_prefix_highlights_only_the_child() {
    // use does_exist::{Exists, DoesntExist};
    let t = UseTree::Group {
        prefix: p(vec![name("does_exist")], 4, 14),
        children: vec![leaf(vec![name("Exists")], 17, 23), leaf(vec![name("DoesntExist")], 25, 36)],
    };
    let outcomes = vec![ResolutionOutcome::Resolved, ResolutionOutcome::UnresolvedSegment(1)];
    let fs = unresolved_ranges(&t, &outcomes);
    assert_eq!(fs, vec![Failure { range: TextRange::new(25, 36), outcome: outcomes[1] }]);
}

#[test]
fn expansion_joins_prefixes_and_self() {
    // use foo::{self, bar::{baz, *}};
    let t = UseTree::Group {
        prefix: p(vec![name("foo")], 4, 7),
        children: vec![
            leaf(vec![Segment::SelfKw], 10, 14),
            UseTree::Group {
                prefix: p(vec![name("bar")], 16, 19),
                children: vec![leaf(vec![name("baz")], 22, 25), UseTree::Glob { prefix: p(vec![], 27, 27) }],
            },
        ],
    };
    let paths = expand(&t);
    assert_eq!(paths.len(), 3);
    assert_eq!(paths[0].segments, vec![name("foo")]);
    assert_eq!(paths[0].range, TextRange::new(10, 14));
    assert!(!paths[0].glob);
    assert_eq!(paths[1].segments, vec![name("foo"), name("bar"), name("baz")]);
    assert_eq!(paths[2].segments, vec![name("foo"), name("bar")]);
    assert!(paths[2].glob);
}

#[test]
fn self_at_top_level_stays_a_segment() {
    let t = leaf(vec![Segment::SelfKw], 4, 8);
    let paths = expand(&t);
    assert_eq!(paths[0].segments, vec![Segment::SelfKw]);
}

#[test]
fn empty_group_imports_nothing() {
    let t = UseTree::Group { prefix: p(vec![name("foo")], 4, 7), children: vec![] };
    assert_eq!(expand(&t).len(), 0);
    assert_eq!(unresolved_ranges(&t, &vec![]).len(), 0);
    assert!(check_well_formed(&t));
}

#[test]
fn well_formedness_rejects_overlap_and_disorder() {
    let overlapping = UseTree::Group {
        prefix: p(vec![name("x")], 4, 5),
        children: vec![leaf(vec![name("a")], 8, 10), leaf(vec![name("b")], 9, 11)],
    };
    assert!(!check_well_formed(&overlapping));
    let child_before_prefix = UseTree::Group {
        prefix: p(vec![name("x")], 10, 11),
        children: vec![leaf(vec![name("a")], 2, 3)],
    };
    assert!(!check_well_formed(&child_before_prefix));
    let backwards = leaf(vec![name("a")], 0, 1);
    assert!(check_well_formed(&backwards));
}

#[test]
fn ordered_checks_every_range() {
    assert!(is_ordered(&vec![]));
    assert!(is_ordered(&vec![TextRange::new(0, 2), TextRange::new(2, 2), TextRange::new(3, 9)]));
    assert!(!is_ordered(&vec![TextRange::new(0, 3), TextRange::new(2, 4)]));
    assert!(!is_ordered(&vec![TextRange { start: 5, end: 1 }]));
}

fn two_modules(b_outcome: ResolutionOutcome) -> Vec<Module> {
    let a = Module {
        items: vec![Item::ExternCrate { root: 1, range: TextRange::new(0, 26), resolved: false }],
    };
    let b = Module {
        items: vec![Item::Use {
            tree: leaf(vec![name("doesnotexist"), name("x")], 40, 55),
            outcomes: vec![b_outcome],
        }],
    };
    vec![a, b]
}

#[test]
fn unit_scope_suppresses_across_modules() {
    let diags = diagnose(&two_modules(ResolutionOutcome::UnresolvedRoot(1)), DedupScope::Unit);
    assert_eq!(diags, vec![Diagnostic::new(DiagnosticKind::UnresolvedExternCrate, TextRange::new(0, 26))]);
}

#[test]
fn module_scope_stays_in_its_module() {
    let diags = diagnose(&two_modules(ResolutionOutcome::UnresolvedRoot(1)), DedupScope::Module);
    assert_eq!(diags.len(), 2);
    assert_eq!(diags[1], Diagnostic::new(DiagnosticKind::UnresolvedImport, TextRange::new(40, 55)));
}

#[test]
fn other_root_is_not_merged() {
    let diags = diagnose(&two_modules(ResolutionOutcome::UnresolvedRoot(2)), DedupScope::Unit);
    assert_eq!(diags.len(), 2);
    assert_eq!(diags[1].kind, DiagnosticKind::UnresolvedImport);
}

#[test]
fn later_segment_failure_is_never_suppressed() {
    let diags = diagnose(&two_modules(ResolutionOutcome::UnresolvedSegment(1)), DedupScope::Unit);
    assert_eq!(diags.len(), 2);
}

#[test]
fn resolved_extern_crate_reports_and_suppresses_nothing() {
    let m = Module {
        items: vec![
            Item::ExternCrate { root: 3, range: TextRange::new(0, 10), resolved: true },
            Item::Use { tree: leaf(vec![name("z")], 15, 16), outcomes: vec![ResolutionOutcome::UnresolvedRoot(3)] },
        ],
    };
    let diags = diagnose(&vec![m], DedupScope::Module);
    assert_eq!(diags, vec![Diagnostic::new(DiagnosticKind::UnresolvedImport, TextRange::new(15, 16))]);
}

#[test]
fn empty_pass_has_no_diagnostics() {
    assert!(diagnose(&vec![], DedupScope::Unit).is_empty());
    assert!(diagnose(&vec![Module { items: vec![] }], DedupScope::Module).is_empty());
}

#[test]
fn pass_twice_gives_identical_output() {
    let modules = two_modules(ResolutionOutcome::UnresolvedSegment(0));
    let first = diagnose(&modules, DedupScope::Unit);
    let second = diagnose(&modules, DedupScope::Unit);
    assert_eq!(first, second);
    assert_eq!(format!("{:?}", first), format!("{:?}", second));
}

#[test]
fn collected_roots_and_item_diagnostics() {
    let modules = two_modules(ResolutionOutcome::UnresolvedRoot(1));
    let mut roots = SuppressedRootSet::new();
    assert!(!roots.contains(1));
    collect_unresolved_crates(&modules[0].items, &mut roots);
    assert!(roots.contains(1));
    assert!(!roots.contains(2));
    let mut out = Vec::new();
    diagnose_items(&modules[1].items, &roots, &mut out);
    assert!(out.is_empty());
    let empty = SuppressedRootSet::new();
    diagnose_items(&modules[1].items, &empty, &mut out);
    assert_eq!(out.len(), 1);
}

#[test]
fn root_set_insert_and_suppression() {
    let mut roots = SuppressedRootSet::new();
    roots.insert(7);
    roots.insert(7);
    assert!(roots.contains(7));
    assert!(!roots.contains(8));
    let by_root = Failure { range: TextRange::new(0, 1), outcome: ResolutionOutcome::UnresolvedRoot(7) };
    let other_root = Failure { range: TextRange::new(0, 1), outcome: ResolutionOutcome::UnresolvedRoot(8) };
    let by_segment = Failure { range: TextRange::new(0, 1), outcome: ResolutionOutcome::UnresolvedSegment(0) };
    assert!(suppressed(&by_root, &roots));
    assert!(!suppressed(&other_root, &roots));
    assert!(!suppressed(&by_segment, &roots));
}

#[test]
fn kinds_have_fixed_codes_and_messages() {
    assert_eq!(DiagnosticKind::UnresolvedImport.code(), "unresolved-import");
    assert_eq!(DiagnosticKind::UnresolvedImport.message(), "unresolved import");
    assert_eq!(DiagnosticKind::UnresolvedExternCrate.code(), "unresolved-extern-crate");
    assert_eq!(DiagnosticKind::UnresolvedExternCrate.message(), "unresolved extern crate");
    assert!(Diagnostic::new(DiagnosticKind::UnresolvedImport, TextRange::new(1, 2)).experimental);
    assert!(!Diagnostic::new(DiagnosticKind::UnresolvedExternCrate, TextRange::new(1, 2)).experimental);
}

#[test]
fn segments_are_copied_exactly() {
    let v = vec![Segment::CrateKw, name("a"), Segment::SuperKw, Segment::SelfKw];
    assert_eq!(copy_segments(&v), v);
    assert_eq!(name("q").duplicate(), name("q"));
    let r = TextRange::new(3, 7);
    assert_eq!((r.start, r.end), (3, 7));
}

#[test]
fn malformed_use_items_are_rejected() {
    assert!(Item::use_declaration(abc_tree(), vec![ResolutionOutcome::Resolved; 3]).is_some());
    assert!(Item::use_declaration(abc_tree(), vec![ResolutionOutcome::Resolved; 2]).is_none());
    let overlapping = UseTree::Group {
        prefix: p(vec![name("x")], 4, 9),
        children: vec![leaf(vec![name("a")], 8, 10)],
    };
    assert!(Item::use_declaration(overlapping, vec![ResolutionOutcome::Resolved]).is_none());
}
