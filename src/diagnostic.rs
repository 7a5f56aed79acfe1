//! The records handed to whoever renders diagnostics.
use vstd::prelude::*;
use crate::syntax::TextRange;

verus! {

/// The kinds of diagnostic that the pass emits.
#[derive(Clone, Copy, PartialEq, Eq, Structural, Debug)]
pub enum DiagnosticKind {
    UnresolvedImport,
    UnresolvedExternCrate,
}

/// The category name of a kind.
pub open spec fn code_of(kind: DiagnosticKind) -> Seq<char> {
    match kind {
        DiagnosticKind::UnresolvedImport => "unresolved-import"@,
        DiagnosticKind::UnresolvedExternCrate => "unresolved-extern-crate"@,
    }
}

/// The fixed message of a kind.
pub open spec fn message_of(kind: DiagnosticKind) -> Seq<char> {
    match kind {
        DiagnosticKind::UnresolvedImport => "unresolved import"@,
        DiagnosticKind::UnresolvedExternCrate => "unresolved extern crate"@,
    }
}

/// Unresolved imports are off by default: the resolver is known to miss
/// items that macros generate and paths that conditional compilation rewrites.
pub open spec fn experimental_of(kind: DiagnosticKind) -> bool {
    kind is UnresolvedImport
}

impl DiagnosticKind {
    /// The category name, e.g. `unresolved-import`.
    pub fn code(&self) -> (r: &'static str)
        ensures
            r@ == code_of(*self),
    {
        match self {
            DiagnosticKind::UnresolvedImport => {
                let s = "unresolved-import";
                proof {
                    reveal_strlit("unresolved-import");
                }
                s
            },
            DiagnosticKind::UnresolvedExternCrate => {
                let s = "unresolved-extern-crate";
                proof {
                    reveal_strlit("unresolved-extern-crate");
                }
                s
            },
        }
    }

    /// The message shown to the user, e.g. `unresolved import`.
    pub fn message(&self) -> (r: &'static str)
        ensures
            r@ == message_of(*self),
    {
        match self {
            DiagnosticKind::UnresolvedImport => {
                let s = "unresolved import";
                proof {
                    reveal_strlit("unresolved import");
                }
                s
            },
            DiagnosticKind::UnresolvedExternCrate => {
                let s = "unresolved extern crate";
                proof {
                    reveal_strlit("unresolved extern crate");
                }
                s
            },
        }
    }
}

/// One diagnostic: its kind, the range it highlights, and whether it is
/// off by default.
#[derive(Clone, Copy, PartialEq, Eq, Structural, Debug)]
pub struct Diagnostic {
    pub kind: DiagnosticKind,
    pub range: TextRange,
    pub experimental: bool,
}

/// The diagnostic of a kind at a range.
pub open spec fn diagnostic_of(kind: DiagnosticKind, range: TextRange) -> Diagnostic {
    Diagnostic { kind, range, experimental: experimental_of(kind) }
}

impl Diagnostic {
    pub fn new(kind: DiagnosticKind, range: TextRange) -> (r: Diagnostic)
        ensures
            r == diagnostic_of(kind, range),
    {
        let experimental = match kind {
            DiagnosticKind::UnresolvedImport => true,
            DiagnosticKind::UnresolvedExternCrate => false,
        };
        Diagnostic { kind, range, experimental }
    }
}

} // verus!
