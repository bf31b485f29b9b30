//! License reporting for the dependencies of a package: canonical license
//! expressions, and the dependency graph filtered by edge kind, proc-macro
//! status and reachability from the roots.

pub mod canonical_text;
pub mod details;
pub mod error;
pub mod expr;
pub mod expr_order;
pub mod filter;
pub mod gitlab;
pub mod graph;
pub mod graph_model;
pub mod listing;
pub mod metadata;
pub mod normal_form;
pub mod order;
pub mod parse;
pub mod policy;
pub mod reach;
pub mod report;
pub mod requirement;
pub mod sorted_operands;
pub mod text;
pub mod tree;
pub mod version;

pub use details::DependencyDetails;
pub use parse::normalize;
pub use policy::GetDependenciesOpt;
pub use report::get_dependencies_from_cargo_lock;
