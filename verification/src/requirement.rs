//! License requirements: the leaves of a license expression.

use crate::order::{compare_text, text_order, Order};
use vstd::prelude::*;
use vstd::string::*;

verus! {

/// A single license term: a license identifier, and the exception that
/// follows `WITH` where there is one.
#[derive(Clone, Debug, PartialEq, Eq)]
pub struct LicenseRequirement {
    pub license: String,
    pub exception: Option<String>,
}

/// The canonical text of a requirement: the license identifier, followed
/// by ` WITH ` and the exception where there is one.
pub open spec fn requirement_text(license: Seq<char>, exception: Option<Seq<char>>) -> Seq<char> {
    match exception {
        Some(e) => license + " WITH "@ + e,
        None => license,
    }
}

/// A requirement as a value.
pub struct RequirementModel {
    pub license: Seq<char>,
    pub exception: Option<Seq<char>>,
}

impl RequirementModel {
    /// The canonical text of the requirement. In a license expression a
    /// requirement is its canonical text: two requirements with the same
    /// text are the same requirement.
    pub open spec fn text(self) -> Seq<char> {
        requirement_text(self.license, self.exception)
    }
}

impl View for LicenseRequirement {
    type V = RequirementModel;

    open spec fn view(&self) -> RequirementModel {
        RequirementModel {
            license: self.license@,
            exception: match self.exception {
                Some(e) => Some(e@),
                None => None,
            },
        }
    }
}

impl LicenseRequirement {
    /// The requirement of a license alone.
    pub fn new(license: String) -> (r: Self)
        ensures
            r.license == license,
            r.exception.is_none(),
            r@.text() == license@,
    {
        LicenseRequirement { license, exception: None }
    }

    /// The requirement of a license with an exception.
    pub fn with_exception(license: String, exception: String) -> (r: Self)
        ensures
            r.license == license,
            r.exception == Some(exception),
            r@.text() == license@ + " WITH "@ + exception@,
    {
        LicenseRequirement { license, exception: Some(exception) }
    }

    /// The canonical text of the requirement.
    pub fn canonical(&self) -> (r: String)
        ensures
            r@ == self@.text(),
    {
        let mut text = self.license.clone();
        match &self.exception {
            Some(e) => {
                text.append(" WITH ");
                text.append(e.as_str());
            },
            None => {},
        }
        text
    }

    /// Compares two requirements by their canonical texts.
    pub fn compare(&self, other: &Self) -> (r: Order)
        ensures
            r == text_order(self@.text(), other@.text()),
    {
        let a = self.canonical();
        let b = other.canonical();
        compare_text(a.as_str(), b.as_str())
    }

    /// A copy of the requirement.
    pub fn duplicate(&self) -> (r: Self)
        ensures
            r == *self,
    {
        let exception = match &self.exception {
            Some(e) => Some(e.clone()),
            None => None,
        };
        LicenseRequirement { license: self.license.clone(), exception }
    }
}

} // verus!
