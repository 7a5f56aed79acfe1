//! The syntax of a `use` declaration, and its expansion into full paths.
use vstd::prelude::*;

verus! {

/// A half-open range `[start, end)` of byte offsets in the source text.
#[derive(Clone, Copy, PartialEq, Eq, Structural, Debug)]
pub struct TextRange {
    pub start: usize,
    pub end: usize,
}

impl TextRange {
    pub fn new(start: usize, end: usize) -> (r: TextRange)
        requires
            start <= end,
        ensures
            r.start == start,
            r.end == end,
    {
        TextRange { start, end }
    }
}

/// One segment of a path: a name, or one of the keywords `self`, `super`, `crate`.
#[derive(Clone, PartialEq, Eq, Debug)]
pub enum Segment {
    Name(String),
    SelfKw,
    SuperKw,
    CrateKw,
}

impl Segment {
    /// An equal segment.
    pub fn duplicate(&self) -> (r: Segment)
        ensures
            r == *self,
    {
        match self {
            Segment::Name(s) => Segment::Name(s.clone()),
            Segment::SelfKw => Segment::SelfKw,
            Segment::SuperKw => Segment::SuperKw,
            Segment::CrateKw => Segment::CrateKw,
        }
    }
}

/// A path as written, with the range of its own text (no alias, no braces).
#[derive(Clone, Debug)]
pub struct Path {
    pub segments: Vec<Segment>,
    pub range: TextRange,
}

/// The syntax tree of one `use` declaration.
#[derive(Debug)]
pub enum UseTree {
    /// `path` or `path as alias`.
    Leaf { path: Path, alias: Option<String> },
    /// `prefix::*`.
    Glob { prefix: Path },
    /// `prefix::{children}`; the prefix of a bare `{children}` has no segments.
    Group { prefix: Path, children: Vec<UseTree> },
}

/// The ranges of all paths written in a tree, in source order; a group's
/// prefix comes before its children.
pub open spec fn spans(t: UseTree) -> Seq<TextRange>
    decreases t,
{
    match t {
        UseTree::Leaf { path, .. } => seq![path.range],
        UseTree::Glob { prefix } => seq![prefix.range],
        UseTree::Group { prefix, children } => seq![prefix.range] + spans_list(children@),
    }
}

/// [`spans`] of a sequence of sibling trees, one after the other.
pub open spec fn spans_list(ts: Seq<UseTree>) -> Seq<TextRange>
    decreases ts,
{
    if ts.len() == 0 {
        seq![]
    } else {
        spans_list(ts.subrange(0, ts.len() - 1)) + spans(ts[ts.len() - 1])
    }
}

/// Each range is well formed and lies before every later one, without overlap.
pub open spec fn ordered(rs: Seq<TextRange>) -> bool {
    &&& forall|i: int| 0 <= i < rs.len() ==> (#[trigger] rs[i]).start <= rs[i].end
    &&& forall|i: int, j: int| 0 <= i < j < rs.len() ==> (#[trigger] rs[i]).end <= (#[trigger] rs[j]).start
}

/// A full path imported by one leaf or glob of a tree, with the group
/// prefixes above it put in front.
pub struct ImportView {
    pub path: Seq<Segment>,
    /// The range to report when the path does not resolve: the leaf's own
    /// path, or the glob's own prefix (never the `*`).
    pub range: TextRange,
    pub glob: bool,
}

/// A full path imported by one leaf or glob of a tree.
#[derive(Debug)]
pub struct ImportPath {
    pub segments: Vec<Segment>,
    pub range: TextRange,
    pub glob: bool,
}

impl View for ImportPath {
    type V = ImportView;

    open spec fn view(&self) -> ImportView {
        ImportView { path: self.segments@, range: self.range, glob: self.glob }
    }
}

/// The views of a sequence of imports.
pub open spec fn import_views(s: Seq<ImportPath>) -> Seq<ImportView> {
    s.map_values(|i: ImportPath| i@)
}

/// The path that a leaf written as `path` under `prefix` imports: a lone
/// `self` inside a group names the group's prefix itself.
pub open spec fn joined(prefix: Seq<Segment>, path: Seq<Segment>) -> Seq<Segment> {
    if prefix.len() > 0 && path == seq![Segment::SelfKw] {
        prefix
    } else {
        prefix + path
    }
}

/// The full paths that a tree written under `prefix` imports, in source order.
pub open spec fn imports(t: UseTree, prefix: Seq<Segment>) -> Seq<ImportView>
    decreases t,
{
    match t {
        UseTree::Leaf { path, .. } => seq![
            ImportView { path: joined(prefix, path.segments@), range: path.range, glob: false },
        ],
        UseTree::Glob { prefix: p } => seq![
            ImportView { path: prefix + p.segments@, range: p.range, glob: true },
        ],
        UseTree::Group { prefix: p, children } => imports_list(children@, prefix + p.segments@),
    }
}

/// [`imports`] of a sequence of sibling trees, one after the other.
pub open spec fn imports_list(ts: Seq<UseTree>, prefix: Seq<Segment>) -> Seq<ImportView>
    decreases ts,
{
    if ts.len() == 0 {
        seq![]
    } else {
        imports_list(ts.subrange(0, ts.len() - 1), prefix) + imports(ts[ts.len() - 1], prefix)
    }
}

/// The ranges of a sequence of imports.
pub open spec fn import_ranges(s: Seq<ImportView>) -> Seq<TextRange> {
    s.map_values(|i: ImportView| i.range)
}

/// The ranges to report for a tree's imports, in source order.
pub open spec fn tree_ranges(t: UseTree) -> Seq<TextRange> {
    import_ranges(imports(t, seq![]))
}

/// A tree is well formed when its paths are written in source order without overlap.
pub open spec fn well_formed(t: UseTree) -> bool {
    ordered(spans(t))
}

/// `a + b` is ordered exactly when both are and every range of `a` ends
/// before every range of `b` starts.
pub proof fn lemma_ordered_concat(a: Seq<TextRange>, b: Seq<TextRange>)
    ensures
        ordered(a + b) <==> {
            &&& ordered(a)
            &&& ordered(b)
            &&& forall|i: int, j: int|
                0 <= i < a.len() && 0 <= j < b.len() ==> (#[trigger] a[i]).end <= (#[trigger] b[j]).start
        },
{
    let c = a + b;
    if ordered(c) {
        assert forall|i: int, j: int| 0 <= i < j < a.len() implies (#[trigger] a[i]).end <= (
        #[trigger] a[j]).start by {
            assert(c[i] == a[i] && c[j] == a[j]);
        }
        assert forall|i: int, j: int| 0 <= i < j < b.len() implies (#[trigger] b[i]).end <= (
        #[trigger] b[j]).start by {
            assert(c[a.len() + i] == b[i] && c[a.len() + j] == b[j]);
        }
        assert forall|i: int| 0 <= i < b.len() implies (#[trigger] b[i]).start <= b[i].end by {
            assert(c[a.len() + i] == b[i]);
        }
        assert forall|i: int| 0 <= i < a.len() implies (#[trigger] a[i]).start <= a[i].end by {
            assert(c[i] == a[i]);
        }
        assert forall|i: int, j: int| 0 <= i < a.len() && 0 <= j < b.len() implies (
        #[trigger] a[i]).end <= (#[trigger] b[j]).start by {
            assert(c[i] == a[i] && c[a.len() + j] == b[j]);
        }
    }
}

/// The ranges of a concatenation are the concatenated ranges.
pub proof fn lemma_import_ranges_concat(a: Seq<ImportView>, b: Seq<ImportView>)
    ensures
        import_ranges(a + b) == import_ranges(a) + import_ranges(b),
{
    assert(import_ranges(a + b) =~= import_ranges(a) + import_ranges(b));
}

/// In a tree whose paths are ordered, the ranges of its imports are ordered
/// too, and each is the range of a path written in the tree.
pub proof fn lemma_imports_ordered(t: UseTree, prefix: Seq<Segment>)
    requires
        ordered(spans(t)),
    ensures
        ordered(import_ranges(imports(t, prefix))),
        forall|k: int|
            0 <= k < imports(t, prefix).len() ==> spans(t).contains(
                #[trigger] imports(t, prefix)[k].range,
            ),
    decreases t,
{
    match t {
        UseTree::Leaf { path, .. } => {
            assert(spans(t)[0] == path.range);
        },
        UseTree::Glob { prefix: p } => {
            assert(spans(t)[0] == p.range);
        },
        UseTree::Group { prefix: p, children } => {
            let inner = prefix + p.segments@;
            let s = spans_list(children@);
            assert(decreases_to!(t => t->children));
            assert(decreases_to!(t->children => children@));
            lemma_ordered_concat(seq![p.range], s);
            lemma_imports_list_ordered(children@, inner);
            assert forall|k: int| 0 <= k < imports(t, prefix).len() implies spans(t).contains(
                #[trigger] imports(t, prefix)[k].range,
            ) by {
                let i = choose|i: int| 0 <= i < s.len() && s[i] == imports(t, prefix)[k].range;
                assert(spans(t)[1 + i] == s[i]);
            }
        },
    }
}

/// [`lemma_imports_ordered`] for a sequence of sibling trees.
pub proof fn lemma_imports_list_ordered(ts: Seq<UseTree>, prefix: Seq<Segment>)
    requires
        ordered(spans_list(ts)),
    ensures
        ordered(import_ranges(imports_list(ts, prefix))),
        forall|k: int|
            0 <= k < imports_list(ts, prefix).len() ==> spans_list(ts).contains(
                #[trigger] imports_list(ts, prefix)[k].range,
            ),
    decreases ts,
{
    if ts.len() == 0 {
        assert(import_ranges(imports_list(ts, prefix)) =~= Seq::<TextRange>::empty());
    } else {
        let init = ts.subrange(0, ts.len() - 1);
        let last = ts[ts.len() - 1];
        let sa = spans_list(init);
        let sb = spans(last);
        let a = imports_list(init, prefix);
        let b = imports(last, prefix);
        lemma_ordered_concat(sa, sb);
        lemma_imports_list_ordered(init, prefix);
        lemma_imports_ordered(last, prefix);
        lemma_import_ranges_concat(a, b);
        let ra = import_ranges(a);
        let rb = import_ranges(b);
        assert forall|i: int, j: int| 0 <= i < ra.len() && 0 <= j < rb.len() implies (
        #[trigger] ra[i]).end <= (#[trigger] rb[j]).start by {
            assert(sa.contains(a[i].range));
            assert(sb.contains(b[j].range));
            let x = choose|x: int| 0 <= x < sa.len() && sa[x] == a[i].range;
            let y = choose|y: int| 0 <= y < sb.len() && sb[y] == b[j].range;
            assert(sa[x] == ra[i] && sb[y] == rb[j]);
        }
        lemma_ordered_concat(ra, rb);
        assert forall|k: int| 0 <= k < imports_list(ts, prefix).len() implies spans_list(
            ts,
        ).contains(#[trigger] imports_list(ts, prefix)[k].range) by {
            let c = a + b;
            if k < a.len() {
                assert(c[k] == a[k]);
                assert(sa.contains(a[k].range));
                let x = choose|x: int| 0 <= x < sa.len() && sa[x] == a[k].range;
                assert((sa + sb)[x] == sa[x]);
            } else {
                assert(c[k] == b[k - a.len()]);
                assert(sb.contains(b[k - a.len()].range));
                let y = choose|y: int| 0 <= y < sb.len() && sb[y] == b[k - a.len()].range;
                assert((sa + sb)[sa.len() + y] == sb[y]);
            }
        }
    }
}

/// A copy of a path's segments.
pub fn copy_segments(v: &Vec<Segment>) -> (r: Vec<Segment>)
    ensures
        r@ == v@,
{
    let mut r: Vec<Segment> = Vec::new();
    let mut i: usize = 0;
    while i < v.len()
        invariant
            i <= v.len(),
            r@ == v@.subrange(0, i as int),
        decreases v.len() - i,
    {
        r.push(v[i].duplicate());
        i += 1;
    }
    assert(r@ =~= v@);
    r
}

/// `prefix` followed by `path`.
fn concat_segments(prefix: &Vec<Segment>, path: &Vec<Segment>) -> (r: Vec<Segment>)
    ensures
        r@ == prefix@ + path@,
{
    let mut r = copy_segments(prefix);
    let mut i: usize = 0;
    while i < path.len()
        invariant
            i <= path.len(),
            r@ == prefix@ + path@.subrange(0, i as int),
        decreases path.len() - i,
    {
        r.push(path[i].duplicate());
        i += 1;
    }
    assert(path@.subrange(0, path.len() as int) =~= path@);
    r
}

/// Whether a path is the lone keyword `self`.
fn is_lone_self(path: &Vec<Segment>) -> (r: bool)
    ensures
        r == (path@ == seq![Segment::SelfKw]),
{
    if path.len() == 1 {
        let r = match &path[0] {
            Segment::SelfKw => true,
            _ => false,
        };
        if r {
            assert(path@ =~= seq![Segment::SelfKw]);
        }
        r
    } else {
        false
    }
}

/// Appends to `out` the imports of `t` written under `prefix`.
fn expand_into(t: &UseTree, prefix: &Vec<Segment>, out: &mut Vec<ImportPath>)
    ensures
        import_views(final(out)@) == import_views(old(out)@) + imports(*t, prefix@),
    decreases t,
{
    match t {
        UseTree::Leaf { path, .. } => {
            let segments = if prefix.len() > 0 && is_lone_self(&path.segments) {
                copy_segments(prefix)
            } else {
                concat_segments(prefix, &path.segments)
            };
            let ghost before = out@;
            out.push(ImportPath { segments, range: path.range, glob: false });
            assert(import_views(out@) =~= import_views(before) + imports(*t, prefix@));
        },
        UseTree::Glob { prefix: p } => {
            let segments = concat_segments(prefix, &p.segments);
            let ghost before = out@;
            out.push(ImportPath { segments, range: p.range, glob: true });
            assert(import_views(out@) =~= import_views(before) + imports(*t, prefix@));
        },
        UseTree::Group { prefix: p, children } => {
            let full = concat_segments(prefix, &p.segments);
            let mut i: usize = 0;
            while i < children.len()
                invariant
                    i <= children.len(),
                    *t is Group,
                    (*t)->children == *children,
                    import_views(out@) == import_views(old(out)@) + imports_list(
                        children@.subrange(0, i as int),
                        full@,
                    ),
                decreases children.len() - i,
            {
                proof {
                    assert(decreases_to!(*t => (*t)->children));
                    assert(decreases_to!(*children => children@));
                    assert(decreases_to!(children@ => children@[i as int]));
                }
                expand_into(&children[i], &full, out);
                assert(children@.subrange(0, i + 1).subrange(0, i as int) =~= children@.subrange(
                    0,
                    i as int,
                ));
                i += 1;
            }
            assert(children@.subrange(0, children.len() as int) =~= children@);
        },
    }
}

/// Appends to `out` the ranges of the paths written in `t`.
fn collect_spans(t: &UseTree, out: &mut Vec<TextRange>)
    ensures
        final(out)@ == old(out)@ + spans(*t),
    decreases t,
{
    match t {
        UseTree::Leaf { path, .. } => {
            out.push(path.range);
            assert(final(out)@ =~= old(out)@ + spans(*t));
        },
        UseTree::Glob { prefix } => {
            out.push(prefix.range);
            assert(final(out)@ =~= old(out)@ + spans(*t));
        },
        UseTree::Group { prefix, children } => {
            out.push(prefix.range);
            let mut i: usize = 0;
            while i < children.len()
                invariant
                    i <= children.len(),
                    *t is Group,
                    (*t)->children == *children,
                    (*t)->Group_prefix == *prefix,
                    out@ == old(out)@ + seq![prefix.range] + spans_list(children@.subrange(0, i as int)),
                decreases children.len() - i,
            {
                proof {
                    assert(decreases_to!(*t => (*t)->children));
                    assert(decreases_to!(*children => children@));
                    assert(decreases_to!(children@ => children@[i as int]));
                }
                collect_spans(&children[i], out);
                assert(children@.subrange(0, i + 1).subrange(0, i as int) =~= children@.subrange(
                    0,
                    i as int,
                ));
                assert(out@ =~= old(out)@ + seq![prefix.range] + spans_list(children@.subrange(0, i + 1)));
                i += 1;
            }
            assert(children@.subrange(0, children.len() as int) =~= children@);
            assert(out@ =~= old(out)@ + spans(*t));
        },
    }
}

/// Whether the ranges are [`ordered`]: checked between neighbours.
pub fn is_ordered(rs: &Vec<TextRange>) -> (r: bool)
    ensures
        r == ordered(rs@),
{
    let mut i: usize = 0;
    while i < rs.len()
        invariant
            i <= rs.len(),
            ordered(rs@.subrange(0, i as int)),
        decreases rs.len() - i,
    {
        if rs[i].start > rs[i].end {
            return false;
        }
        if i > 0 && rs[i - 1].end > rs[i].start {
            assert(!ordered(rs@)) by {
                assert(rs@[i - 1].end > rs@[i as int].start);
            }
            return false;
        }
        proof {
            let prev = rs@.subrange(0, i as int);
            let next = rs@.subrange(0, i + 1);
            assert forall|a: int, b: int| 0 <= a < b < next.len() implies (
            #[trigger] next[a]).end <= (#[trigger] next[b]).start by {
                if b < i {
                    assert(prev[a] == next[a] && prev[b] == next[b]);
                } else if a < i - 1 {
                    assert(prev[a] == next[a] && prev[i - 1] == next[i - 1]);
                    assert(prev[a].end <= prev[i - 1].start);
                }
            }
            assert forall|a: int| 0 <= a < next.len() implies (#[trigger] next[a]).start
                <= next[a].end by {
                if a < i {
                    assert(prev[a] == next[a]);
                }
            }
        }
        i += 1;
    }
    assert(rs@.subrange(0, i as int) =~= rs@);
    true
}

/// Whether the tree is [`well_formed`]; a tree that is not should be rejected
/// before it reaches the pass.
pub fn check_well_formed(t: &UseTree) -> (r: bool)
    ensures
        r == well_formed(*t),
{
    let mut rs: Vec<TextRange> = Vec::new();
    collect_spans(t, &mut rs);
    assert(rs@ =~= spans(*t));
    is_ordered(&rs)
}

/// The full paths that a tree imports, in source order.
pub fn expand(t: &UseTree) -> (r: Vec<ImportPath>)
    ensures
        import_views(r@) == imports(*t, seq![]),
{
    let mut out: Vec<ImportPath> = Vec::new();
    let empty: Vec<Segment> = Vec::new();
    expand_into(t, &empty, &mut out);
    assert(import_views(Seq::empty()) =~= Seq::<ImportView>::empty());
    assert(import_views(out@) =~= imports(*t, seq![]));
    out
}

} // verus!
