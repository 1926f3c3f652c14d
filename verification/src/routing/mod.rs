//! Route rules: what they match and what they decide.
pub mod compile;
pub mod matching;
pub mod meaning;
pub mod options;
pub mod remote;
pub mod router;

pub use compile::RouteError;
pub use matching::RouteContext;
pub use options::{RouteDecision, RouteOptions, RuleAction};
pub use router::Router;
