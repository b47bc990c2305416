//! Resolution and classification of dynamic-library references for macOS
//! application bundles.
//!
//! Given a set of "sysroot" binaries (the bundle's own libraries), the crate
//! classifies every dependency reference found in their load commands,
//! walks the dependency graph to a fixed point, and derives a plan that says
//! which libraries must be vendored next to the bundle, which references
//! must be rewritten to a relocatable form, and which binaries must be
//! re-signed.

pub mod collector;
pub mod depinfo;
pub mod index;
pub mod plan;
pub mod resolver;
pub mod text;

use vstd::prelude::*;

verus! {

/// What kind of dependency a library reference denotes, and therefore what
/// action the rewrite plan must take for it.
#[derive(Debug, Clone, Copy, PartialEq, Eq, Structural)]
pub enum Resolution {
    /// Provided by the base OS: no action needs to be taken.
    System,
    /// Third party: must be copied next to the bundle and rewritten for
    /// `@rpath` support.
    Required,
    /// Requested from a non-system source but not present in any index.
    Missing,
    /// Already inside the sysroot tree, so only reference rewriting and
    /// re-signing are needed.
    Sysroot,
    /// The reference shape is not recognized by any rule.
    Unknown,
}

impl Resolution {
    /// Whether a reference with this classification must have its own
    /// dependency list inspected by the graph collector.
    pub open spec fn spec_needs_expansion(self) -> bool {
        self is Required || self is Sysroot
    }

    /// Exec mirror of [`Self::spec_needs_expansion`].
    #[verifier::when_used_as_spec(spec_needs_expansion)]
    pub fn needs_expansion(self) -> (r: bool)
        ensures
            r == self.spec_needs_expansion(),
    {
        match self {
            Resolution::Required => true,
            Resolution::Sysroot => true,
            _ => false,
        }
    }
}

} // verus!
