//! Errors of deserializing configurations, with the paths and origins they concern.

use vstd::prelude::*;

use crate::metadata::ConfigMetadata;
use crate::path::owned;
use crate::value::{origin_text, ValueOrigin};

verus! {

#[verifier::external_type_specification]
#[verifier::external_body]
pub struct ExJsonError(serde_json::Error);

/// Text of a `serde_json` error built from a custom message.
pub uninterp spec fn json_custom_text(msg: Seq<char>) -> Seq<char>;

/// Whether `m` contains " at line ", the marker of a position suffix in serde_json messages.
pub open spec fn mentions_line(m: Seq<char>) -> bool {
    exists|i: int| 0 <= i && i + 9 <= m.len() && #[trigger] m.subrange(i, i + 9) == " at line "@
}

/// Relies on `serde::de::Error::custom` for `serde_json::Error`, and on that error's
/// `Display`: the text depends on the message alone, and a message without " at line " is
/// kept as it is (serde_json only looks for a position suffix after that marker).
#[verifier::external_body]
fn json_custom(msg: &str) -> (r: (serde_json::Error, String))
    ensures
        r.1@ == json_custom_text(msg@),
        !mentions_line(msg@) ==> r.1@ == msg@,
{
    let err = <serde_json::Error as serde::de::Error>::custom(msg);
    let text = err.to_string();
    (err, text)
}

/// Relies on `serde::de::Error::missing_field` for `serde_json::Error`, and on that error's
/// `Display`: the text is "missing field `<field>`" (serde's default message, which ends in a
/// backtick, so serde_json finds no line and column suffix in it).
#[verifier::external_body]
fn json_missing_field(field: &'static str) -> (r: (serde_json::Error, String))
    ensures
        r.1@ == "missing field `"@ + field@ + "`"@,
{
    let err = <serde_json::Error as serde::de::Error>::missing_field(field);
    let text = err.to_string();
    (err, text)
}

/// A `serde_json` error together with its text.
#[derive(Debug)]
pub struct JsonError {
    err: serde_json::Error,
    text: String,
}

impl View for JsonError {
    type V = Seq<char>;

    closed spec fn view(&self) -> Seq<char> {
        self.text@
    }
}

impl JsonError {
    /// An error with a custom message.
    pub fn custom(msg: &str) -> (r: Self)
        ensures
            r@ == json_custom_text(msg@),
    {
        let (err, text) = json_custom(msg);
        JsonError { err, text }
    }

    /// An error for a missing field.
    pub fn missing_field(field: &'static str) -> (r: Self)
        ensures
            r@ == "missing field `"@ + field@ + "`"@,
    {
        let (err, text) = json_missing_field(field);
        JsonError { err, text }
    }

    /// The wrapped error.
    pub fn inner(&self) -> &serde_json::Error {
        &self.err
    }

    /// The error's text.
    pub fn text(&self) -> (r: &str)
        ensures
            r@ == self@,
    {
        self.text.as_str()
    }
}

/// Marker error of deserializing a configuration; the details are collected as [`ParseErrors`].
#[derive(Debug)]
pub struct DeserializeConfigError(());

impl DeserializeConfigError {
    pub fn new() -> Self {
        DeserializeConfigError(())
    }
}

/// What kind of failure a parse error is.
#[derive(Debug, Clone, Copy, PartialEq, Eq, Structural)]
pub enum ParseErrorCategory {
    /// Generic error.
    Generic,
    /// Missing field (parameter or configuration).
    MissingField,
}

/// Low-level deserialization error.
#[derive(Debug)]
pub enum LowLevelError {
    /// Error from JSON deserialization logic.
    Json { err: JsonError, category: ParseErrorCategory },
    InvalidArray,
    InvalidObject,
    Validation,
}

/// Text of a low-level error.
pub open spec fn low_level_text(e: LowLevelError) -> Seq<char> {
    match e {
        LowLevelError::Json { err, .. } => err@,
        LowLevelError::InvalidArray => "error(s) deserializing array items"@,
        LowLevelError::InvalidObject => "error(s) deserializing object entries"@,
        LowLevelError::Validation => "validation failed"@,
    }
}

impl LowLevelError {
    /// Text of the error (see [`low_level_text`]).
    pub fn describe(&self) -> (r: String)
        ensures
            r@ == low_level_text(*self),
    {
        match self {
            LowLevelError::Json { err, .. } => owned(err.text()),
            LowLevelError::InvalidArray => String::from_str("error(s) deserializing array items"),
            LowLevelError::InvalidObject => String::from_str("error(s) deserializing object entries"),
            LowLevelError::Validation => String::from_str("validation failed"),
        }
    }
}

/// A low-level error together with the origin of the value that caused it.
#[derive(Debug)]
pub struct ErrorWithOrigin {
    pub inner: LowLevelError,
    pub origin: ValueOrigin,
}

impl ErrorWithOrigin {
    /// A generic error with a custom message and an unknown origin.
    pub fn custom(message: &str) -> (r: Self)
        ensures
            r.origin matches ValueOrigin::Unknown,
            r.inner matches LowLevelError::Json { err, category } && err@ == json_custom_text(message@)
                && category == ParseErrorCategory::Generic,
    {
        ErrorWithOrigin {
            inner: LowLevelError::Json { err: JsonError::custom(message), category: ParseErrorCategory::Generic },
            origin: ValueOrigin::Unknown,
        }
    }

    /// A missing-field error with an unknown origin.
    pub fn missing_field(field: &'static str) -> (r: Self)
        ensures
            r.origin matches ValueOrigin::Unknown,
            r.inner matches LowLevelError::Json { err, category } && err@ == "missing field `"@ + field@ + "`"@
                && category == ParseErrorCategory::MissingField,
    {
        ErrorWithOrigin {
            inner: LowLevelError::Json {
                err: JsonError::missing_field(field),
                category: ParseErrorCategory::MissingField,
            },
            origin: ValueOrigin::Unknown,
        }
    }
}

impl ErrorWithOrigin {
    /// One-line report: the origin in brackets, then the cause.
    pub fn to_string(&self) -> (r: String)
        ensures
            r@ == "["@ + origin_text(self.origin) + "]: "@ + low_level_text(self.inner),
    {
        let mut r = String::from_str("[");
        let o = self.origin.describe();
        r.append(o.as_str());
        r.append("]: ");
        let cause = self.inner.describe();
        r.append(cause.as_str());
        r
    }
}

/// Error of deserializing one parameter or configuration.
#[derive(Debug)]
pub struct ParseError {
    pub inner: JsonError,
    pub category: ParseErrorCategory,
    /// Absolute path that was queried.
    pub path: String,
    /// Origin of the value that failed.
    pub origin: ValueOrigin,
    /// The failing configuration.
    pub config: &'static ConfigMetadata,
    /// Index of the failing parameter in the configuration, if a parameter failed.
    pub param_index: Option<usize>,
    /// Description of the failed validation, if a validation failed.
    pub validation: Option<String>,
}

/// `param `<name>` in ` if the error concerns a parameter of the configuration.
pub open spec fn field_text(e: ParseError) -> Seq<char> {
    match e.param_index {
        Some(i) => if i < e.config.params@.len() {
            "param `"@ + e.config.params@[i as int].name@ + "` in "@
        } else {
            Seq::empty()
        },
        None => Seq::empty(),
    }
}

pub open spec fn action_text(e: ParseError) -> Seq<char> {
    match e.validation {
        Some(v) => "validating '"@ + v@ + "' for"@,
        None => "parsing"@,
    }
}

pub open spec fn origin_part(e: ParseError) -> Seq<char> {
    match e.origin {
        ValueOrigin::Unknown => Seq::empty(),
        o => " [origin: "@ + origin_text(o) + "]"@,
    }
}

/// One-line report of a parse error.
pub open spec fn render(e: ParseError) -> Seq<char> {
    "error "@ + action_text(e) + " "@ + field_text(e) + "`"@ + e.config.name@ + "` at `"@ + e.path@ + "`"@
        + origin_part(e) + ": "@ + e.inner@
}

impl ParseError {
    /// An error of a generic kind at `path` in `config`, not attributed to a parameter.
    pub fn generic(path: String, config: &'static ConfigMetadata) -> (r: Self)
        ensures
            r.inner@ == json_custom_text("unspecified error deserializing configuration"@),
            r.category == ParseErrorCategory::Generic,
            r.path == path,
            r.origin matches ValueOrigin::Unknown,
            r.config == config,
            r.param_index.is_none(),
            r.validation.is_none(),
    {
        ParseError {
            inner: JsonError::custom("unspecified error deserializing configuration"),
            category: ParseErrorCategory::Generic,
            path,
            origin: ValueOrigin::Unknown,
            config,
            param_index: None,
            validation: None,
        }
    }

    /// The wrapped error.
    pub fn inner(&self) -> &serde_json::Error {
        self.inner.inner()
    }

    pub fn category(&self) -> (r: ParseErrorCategory)
        ensures
            r == self.category,
    {
        self.category
    }

    /// Absolute path on which the error occurred.
    pub fn path(&self) -> (r: &str)
        ensures
            r@ == self.path@,
    {
        self.path.as_str()
    }

    /// Origin of the value that failed.
    pub fn origin(&self) -> (r: &ValueOrigin)
        ensures
            *r == self.origin,
    {
        &self.origin
    }

    /// Description of the failed validation, if a validation failed.
    pub fn validation(&self) -> (r: Option<&str>)
        ensures
            r.is_some() == self.validation.is_some(),
            r.is_some() ==> r.unwrap()@ == self.validation.unwrap()@,
    {
        match &self.validation {
            Some(v) => Some(v.as_str()),
            None => None,
        }
    }

    /// The failing configuration.
    pub fn config(&self) -> (r: &'static ConfigMetadata)
        ensures
            r == self.config,
    {
        self.config
    }

    /// The failing parameter, if the error concerns one of the configuration.
    pub fn param(&self) -> (r: Option<&'static crate::metadata::ParamMetadata>)
        ensures
            r.is_some() == (self.param_index.is_some() && self.param_index.unwrap() < self.config.params@.len()),
            r.is_some() ==> *r.unwrap() == self.config.params@[self.param_index.unwrap() as int],
    {
        match self.param_index {
            Some(i) => if i < self.config.params.len() {
                Some(&self.config.params[i])
            } else {
                None
            },
            None => None,
        }
    }

    /// One-line report (see [`render`]): the failed action, the parameter if any, the
    /// configuration, the path, the origin unless unknown, and the cause.
    pub fn to_string(&self) -> (r: String)
        ensures
            r@ == render(*self),
    {
        let mut r = String::from_str("error ");
        match &self.validation {
            Some(v) => {
                r.append("validating '");
                r.append(v.as_str());
                r.append("' for");
            },
            None => r.append("parsing"),
        }
        r.append(" ");
        match self.param() {
            Some(p) => {
                r.append("param `");
                r.append(p.name);
                r.append("` in ");
            },
            None => {},
        }
        r.append("`");
        r.append(self.config.name);
        r.append("` at `");
        r.append(self.path.as_str());
        r.append("`");
        if !self.origin.is_unknown() {
            r.append(" [origin: ");
            let o = self.origin.describe();
            r.append(o.as_str());
            r.append("]");
        }
        r.append(": ");
        r.append(self.inner.text());
        proof {
            assert(r@ =~= render(*self));
        }
        r
    }
}

/// Non-empty ordered collection of parse errors.
#[derive(Debug)]
pub struct ParseErrors {
    errors: Vec<ParseError>,
}

impl View for ParseErrors {
    type V = Seq<ParseError>;

    closed spec fn view(&self) -> Seq<ParseError> {
        self.errors@
    }
}

impl ParseErrors {
    #[verifier::type_invariant]
    spec fn non_empty(self) -> bool {
        self.errors@.len() > 0
    }

    /// Success if there are no errors; otherwise all of them, in order.
    pub fn collect(errors: Vec<ParseError>) -> (r: Result<(), ParseErrors>)
        ensures
            r is Ok <==> errors@.len() == 0,
            r is Err ==> r->Err_0@ == errors@,
    {
        if errors.len() == 0 {
            Ok(())
        } else {
            Err(ParseErrors { errors })
        }
    }

    /// The contained errors, in order.
    pub fn iter(&self) -> (r: &[ParseError])
        ensures
            r@ == self@,
    {
        self.errors.as_slice()
    }

    /// Number of contained errors; never zero.
    pub fn len(&self) -> (r: usize)
        ensures
            r == self@.len(),
            r > 0,
    {
        proof {
            use_type_invariant(self);
        }
        self.errors.len()
    }

    /// The first error.
    pub fn first(&self) -> (r: &ParseError)
        ensures
            self@.len() > 0,
            *r == self@[0],
    {
        proof {
            use_type_invariant(self);
        }
        &self.errors[0]
    }

    /// The errors, in order.
    pub fn into_vec(self) -> (r: Vec<ParseError>)
        ensures
            r@ == self@,
    {
        self.errors
    }

    /// Multi-line report: one line per error.
    pub fn to_string(&self) -> (r: String)
        ensures
            r@ == report(self@, self@.len() as int),
    {
        let mut r = String::new();
        let mut i: usize = 0;
        while i < self.errors.len()
            invariant
                0 <= i <= self.errors@.len(),
                r@ == report(self@, i as int),
            decreases self.errors@.len() - i,
        {
            let line = self.errors[i].to_string();
            r.append(line.as_str());
            r.append("\n");
            i = i + 1;
        }
        r
    }
}

/// Report of the first `n` errors, one line each.
pub open spec fn report(errors: Seq<ParseError>, n: int) -> Seq<char>
    decreases n,
{
    if n <= 0 {
        Seq::empty()
    } else {
        report(errors, n - 1) + render(errors[n - 1]) + "\n"@
    }
}

} // verus!
