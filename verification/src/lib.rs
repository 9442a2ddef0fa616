//! A verified gitignore-style path matcher.
//!
//! Pattern text is compiled into an ordered rule set; candidate paths are
//! evaluated against the rules with last-rule-wins precedence and
//! parent-directory propagation, exactly as ignore files behave.  A registry
//! hands out integer handles to compiled rule sets, and byte-level entry
//! points implement the cross-boundary protocol (UTF-8 marshalling, error
//! codes, batch filtering).

pub mod boundary;
pub mod glob;
pub mod laws;
pub mod matcher;
pub mod pattern;
pub mod registry;
pub mod text;

pub use boundary::batch_filter;
pub use boundary::compile_bytes;
pub use boundary::create_matcher;
pub use boundary::destroy_matcher;
pub use boundary::is_match;
pub use boundary::match_result_code;
pub use matcher::MatchResult;
pub use matcher::evaluate;
pub use matcher::filter;
pub use pattern::RuleSet;
pub use pattern::compile;
pub use registry::Registry;
