//! The failures that end a report.

use vstd::prelude::*;

verus! {

/// A license string is no well-formed expression: the parser rejected it,
/// or what it read spells no single expression.
#[derive(Clone, Copy, Debug, PartialEq, Eq, Structural)]
pub struct MalformedLicenseExpression;

/// Why no report can be made of a project.
#[derive(Clone, Copy, Debug, PartialEq, Eq, Structural)]
pub enum DependencyError {
    /// The project comes without its resolved dependencies.
    MissingResolveData,
    /// The project names no root package and no workspace member that is
    /// among its packages.
    NoRootPackage,
}

} // verus!
