//! Raw values with their provenance.

use vstd::prelude::*;

verus! {

/// Where a value came from.
#[derive(Debug)]
pub enum ValueOrigin {
    /// Origin is not known.
    Unknown,
    /// Environment variables.
    EnvVars,
    /// The overlay of fallback values.
    Fallbacks,
    /// A path within another source.
    Path { source: Box<ValueOrigin>, path: String },
    /// A value derived from another source by a transform.
    Synthetic { source: Box<ValueOrigin>, transform: String },
}

/// A raw leaf value.
#[derive(Debug, Clone)]
pub enum Value {
    Null,
    Bool(bool),
    Number(i64),
    String(String),
}

/// A value together with its origin.
#[derive(Debug)]
pub struct WithOrigin {
    pub inner: Value,
    pub origin: ValueOrigin,
}

impl WithOrigin {
    /// Pairs a value with its origin.
    pub fn new(inner: Value, origin: ValueOrigin) -> (r: Self)
        ensures
            r.inner == inner,
            r.origin == origin,
    {
        WithOrigin { inner, origin }
    }
}

impl ValueOrigin {
    /// Whether the origin is unknown.
    pub fn is_unknown(&self) -> (r: bool)
        ensures
            r == (*self matches ValueOrigin::Unknown),
    {
        match self {
            ValueOrigin::Unknown => true,
            _ => false,
        }
    }

    /// Human-readable description of the origin (see [`origin_text`]).
    pub fn describe(&self) -> (r: String)
        ensures
            r@ == origin_text(*self),
        decreases *self,
    {
        match self {
            ValueOrigin::Unknown => String::from_str("unknown"),
            ValueOrigin::EnvVars => String::from_str("env variables"),
            ValueOrigin::Fallbacks => String::from_str("fallbacks"),
            ValueOrigin::Path { source, path } => {
                let mut r = source.describe();
                r.append(" -> path `");
                r.append(path.as_str());
                r.append("`");
                r
            },
            ValueOrigin::Synthetic { source, transform } => {
                let mut r = source.describe();
                r.append(" -> ");
                r.append(transform.as_str());
                r
            },
        }
    }
}

/// Human-readable description of an origin: the chain of sources from the outermost one.
pub open spec fn origin_text(o: ValueOrigin) -> Seq<char>
    decreases o,
{
    match o {
        ValueOrigin::Unknown => "unknown"@,
        ValueOrigin::EnvVars => "env variables"@,
        ValueOrigin::Fallbacks => "fallbacks"@,
        ValueOrigin::Path { source, path } => origin_text(*source) + " -> path `"@ + path@ + "`"@,
        ValueOrigin::Synthetic { source, transform } => origin_text(*source) + " -> "@ + transform@,
    }
}

} // verus!
