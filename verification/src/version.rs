//! Semantic versions and their order.

use crate::order::{compare_numbers, compare_text, number_order, text_order, Order};
use vstd::prelude::*;
use vstd::string::*;

verus! {

/// A semantic version: three numbers, the pre-release identifiers and the
/// build metadata, the last two as the text between the dots, empty where
/// the version has none.
#[derive(Clone, Debug, PartialEq, Eq, Hash)]
pub struct Version {
    pub major: u64,
    pub minor: u64,
    pub patch: u64,
    pub pre: String,
    pub build: String,
}

/// A semantic version as a value.
pub struct VersionModel {
    pub major: u64,
    pub minor: u64,
    pub patch: u64,
    pub pre: Seq<char>,
    pub build: Seq<char>,
}

impl View for Version {
    type V = VersionModel;

    open spec fn view(&self) -> VersionModel {
        VersionModel {
            major: self.major,
            minor: self.minor,
            patch: self.patch,
            pre: self.pre@,
            build: self.build@,
        }
    }
}

/// How `semver` orders two pre-releases given as text; `None` where it
/// does not accept one of the texts as pre-release identifiers.
pub uninterp spec fn semver_prerelease_order(a: Seq<char>, b: Seq<char>) -> Option<Order>;

/// How `semver` orders two build metadata given as text; `None` where it
/// does not accept one of the texts as build metadata.
pub uninterp spec fn semver_build_order(a: Seq<char>, b: Seq<char>) -> Option<Order>;

/// Reads both texts with `semver::Prerelease::new` and compares the two
/// values by the `Ord` of `semver::Prerelease`. The contract names the
/// outcome and claims nothing else of it.
#[verifier::external_body]
fn prerelease_precedence(a: &str, b: &str) -> (r: Option<Order>)
    ensures
        r == semver_prerelease_order(a@, b@),
{
    let x = semver::Prerelease::new(a).ok()?;
    let y = semver::Prerelease::new(b).ok()?;
    Some(match Ord::cmp(&x, &y) {
        std::cmp::Ordering::Less => Order::Less,
        std::cmp::Ordering::Equal => Order::Equal,
        std::cmp::Ordering::Greater => Order::Greater,
    })
}

/// Reads both texts with `semver::BuildMetadata::new` and compares the two
/// values by the `Ord` of `semver::BuildMetadata`. The contract names the
/// outcome and claims nothing else of it.
#[verifier::external_body]
fn build_precedence(a: &str, b: &str) -> (r: Option<Order>)
    ensures
        r == semver_build_order(a@, b@),
{
    let x = semver::BuildMetadata::new(a).ok()?;
    let y = semver::BuildMetadata::new(b).ok()?;
    Some(match Ord::cmp(&x, &y) {
        std::cmp::Ordering::Less => Order::Less,
        std::cmp::Ordering::Equal => Order::Equal,
        std::cmp::Ordering::Greater => Order::Greater,
    })
}

/// The order of two identifier texts: as `semver` has it, or by the text
/// where `semver` does not accept them.
pub open spec fn identifier_order(semver: Option<Order>, a: Seq<char>, b: Seq<char>) -> Order {
    match semver {
        Some(o) => o,
        None => text_order(a, b),
    }
}

/// The order of two versions, given how `semver` orders their pre-releases
/// and their build metadata: the three numbers decide from left to right,
/// then the pre-release, then the build metadata.
pub open spec fn version_order_given(
    a: VersionModel,
    b: VersionModel,
    prerelease: Option<Order>,
    build: Option<Order>,
) -> Order {
    number_order(a.major, b.major).or_else(
        number_order(a.minor, b.minor).or_else(
            number_order(a.patch, b.patch).or_else(
                identifier_order(prerelease, a.pre, b.pre).or_else(
                    identifier_order(build, a.build, b.build),
                ),
            ),
        ),
    )
}

/// The order of two versions.
pub open spec fn version_order(a: VersionModel, b: VersionModel) -> Order {
    version_order_given(
        a,
        b,
        semver_prerelease_order(a.pre, b.pre),
        semver_build_order(a.build, b.build),
    )
}

impl Version {
    /// The version of the three numbers, without pre-release and without
    /// build metadata.
    pub fn new(major: u64, minor: u64, patch: u64) -> (r: Self)
        ensures
            r.major == major,
            r.minor == minor,
            r.patch == patch,
            r.pre@ == Seq::<char>::empty(),
            r.build@ == Seq::<char>::empty(),
    {
        Version { major, minor, patch, pre: String::new(), build: String::new() }
    }

    /// A copy of the version.
    pub fn duplicate(&self) -> (r: Self)
        ensures
            r == *self,
            r@ == self@,
    {
        Version {
            major: self.major,
            minor: self.minor,
            patch: self.patch,
            pre: self.pre.clone(),
            build: self.build.clone(),
        }
    }

    /// Compares two versions, given how `semver` orders their pre-releases
    /// and their build metadata.
    pub fn compare_given(
        &self,
        other: &Version,
        prerelease: Option<Order>,
        build: Option<Order>,
    ) -> (r: Order)
        ensures
            r == version_order_given(self@, other@, prerelease, build),
    {
        let major = compare_numbers(self.major, other.major);
        if major != Order::Equal {
            return major;
        }
        let minor = compare_numbers(self.minor, other.minor);
        if minor != Order::Equal {
            return minor;
        }
        let patch = compare_numbers(self.patch, other.patch);
        if patch != Order::Equal {
            return patch;
        }
        let pre = match prerelease {
            Some(o) => o,
            None => compare_text(self.pre.as_str(), other.pre.as_str()),
        };
        if pre != Order::Equal {
            return pre;
        }
        match build {
            Some(o) => o,
            None => compare_text(self.build.as_str(), other.build.as_str()),
        }
    }

    /// Compares two versions: the three numbers decide from left to right,
    /// then the pre-release, then the build metadata, the last two as
    /// `semver` orders them.
    pub fn compare(&self, other: &Version) -> (r: Order)
        ensures
            r == version_order(self@, other@),
    {
        if self.major != other.major || self.minor != other.minor || self.patch != other.patch {
            return self.compare_given(other, None, None);
        }
        let prerelease = prerelease_precedence(self.pre.as_str(), other.pre.as_str());
        let build = build_precedence(self.build.as_str(), other.build.as_str());
        self.compare_given(other, prerelease, build)
    }
}

} // verus!
