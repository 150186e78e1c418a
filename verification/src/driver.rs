//! Mode selection: which of the two passes an invocation runs, and the
//! configuration error when the two exclusive flags are combined.

use vstd::prelude::*;

verus! {

/// The three run modes: rename the tree only (the default), rewrite imports
/// only, or rewrite imports first and then rename the tree.
#[derive(Debug, PartialEq, Eq, Structural, Clone, Copy)]
pub enum Mode {
    RenameOnly,
    ImportsOnly,
    Both,
}

/// Which mode the two flags select; the two flags together are the
/// configuration error and select nothing, before any filesystem effect.
pub fn resolve_mode(imports: bool, all: bool) -> (r: Option<Mode>)
    ensures
        r == (if imports && all {
            Option::<Mode>::None
        } else if all {
            Option::Some(Mode::Both)
        } else if imports {
            Option::Some(Mode::ImportsOnly)
        } else {
            Option::Some(Mode::RenameOnly)
        }),
{
    if imports && all {
        None
    } else if all {
        Some(Mode::Both)
    } else if imports {
        Some(Mode::ImportsOnly)
    } else {
        Some(Mode::RenameOnly)
    }
}

/// Whether a mode runs the import rewriting pass.
pub fn runs_imports(m: Mode) -> (r: bool)
    ensures
        r == (m == Mode::ImportsOnly || m == Mode::Both),
{
    match m {
        Mode::RenameOnly => false,
        Mode::ImportsOnly => true,
        Mode::Both => true,
    }
}

/// Whether a mode runs the tree renaming pass.
pub fn runs_renames(m: Mode) -> (r: bool)
    ensures
        r == (m == Mode::RenameOnly || m == Mode::Both),
{
    match m {
        Mode::RenameOnly => true,
        Mode::ImportsOnly => false,
        Mode::Both => true,
    }
}

} // verus!
