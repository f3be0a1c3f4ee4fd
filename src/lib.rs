//! Hierarchical configuration schema: configuration types mounted at path prefixes, with
//! collision checks, aliases, tagged-union coercion, fallback values and parse error reports.

pub mod error;
pub mod fallback;
pub mod guarantees;
pub mod metadata;
pub mod mount;
pub mod path;
pub mod paths;
pub mod schema;
pub mod value;
