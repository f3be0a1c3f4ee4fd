//! Static descriptions of configuration types, their parameters and nested configurations.

use vstd::prelude::*;

use crate::fallback::FallbackSource;

verus! {

/// Options attached to an alias.
#[derive(Debug, Clone, Copy, PartialEq, Eq, Structural)]
pub struct AliasOptions {
    /// Whether the alias is deprecated.
    pub is_deprecated: bool,
}

impl AliasOptions {
    /// Options of a regular (non-deprecated) alias.
    pub fn new() -> (r: Self)
        ensures
            !r.is_deprecated,
    {
        AliasOptions { is_deprecated: false }
    }

    /// Combines options of a local alias with options of the enclosing path:
    /// the result is deprecated if either of them is.
    pub fn combine(self, other: Self) -> (r: Self)
        ensures
            r.is_deprecated == (self.is_deprecated || other.is_deprecated),
    {
        AliasOptions { is_deprecated: self.is_deprecated || other.is_deprecated }
    }
}

/// Set of basic value kinds that a parameter accepts, as a bit set.
#[derive(Debug, Clone, Copy, PartialEq, Eq, Structural)]
pub struct BasicTypes {
    pub bits: u8,
}

pub const STRING_BIT: u8 = 1;

pub const INTEGER_BIT: u8 = 2;

pub const FLOAT_BIT: u8 = 4;

pub const BOOL_BIT: u8 = 8;

pub const ARRAY_BIT: u8 = 16;

pub const OBJECT_BIT: u8 = 32;

impl BasicTypes {
    /// A set given by its bits.
    pub fn from_bits(bits: u8) -> (r: Self)
        ensures
            r.bits == bits,
    {
        BasicTypes { bits }
    }

    /// Union of two sets.
    pub fn or(self, other: Self) -> (r: Self)
        ensures
            r.bits == self.bits | other.bits,
    {
        BasicTypes { bits: self.bits | other.bits }
    }

    /// Whether two sets share no kind.
    pub fn is_disjoint(self, other: Self) -> (r: bool)
        ensures
            r == (self.bits & other.bits == 0),
    {
        self.bits & other.bits == 0
    }
}

/// A variant of a tagged union that a configuration type stands for.
#[derive(Debug, Clone, Copy)]
pub struct ConfigVariant {
    /// Tag name, as declared (e.g., `SomeTag`).
    pub name: &'static str,
    /// Tag aliases, in priority order.
    pub aliases: &'static [&'static str],
}

/// Description of a configuration parameter.
#[derive(Debug, Clone, Copy)]
pub struct ParamMetadata {
    /// Parameter name.
    pub name: &'static str,
    /// Local aliases in priority order; one starting with `.` is a relative path.
    pub aliases: &'static [(&'static str, AliasOptions)],
    /// Name of the field that holds the parameter.
    pub rust_field_name: &'static str,
    /// Kinds of values that the parameter accepts.
    pub expecting: BasicTypes,
    /// Tag variant, if the parameter belongs to a member of a tagged union.
    pub tag_variant: Option<&'static ConfigVariant>,
    /// Location-independent source of a last-resort value.
    pub fallback: Option<&'static FallbackSource>,
}

/// Description of a nested configuration. An empty name means a flattened configuration.
#[derive(Debug, Clone, Copy)]
pub struct NestedConfigMetadata {
    pub name: &'static str,
    pub aliases: &'static [(&'static str, AliasOptions)],
    pub meta: &'static ConfigMetadata,
    pub tag_variant: Option<&'static ConfigVariant>,
}

/// Description of a configuration type.
#[derive(Debug)]
pub struct ConfigMetadata {
    /// Identifier of the type, unique among all configuration types.
    pub ty: u64,
    /// Name of the type, for diagnostics.
    pub name: &'static str,
    pub params: &'static [ParamMetadata],
    pub nested_configs: Vec<NestedConfigMetadata>,
}

pub open spec fn is_ascii_upper(c: char) -> bool {
    'A' <= c <= 'Z'
}

pub open spec fn is_ascii_letter(c: char) -> bool {
    is_ascii_upper(c) || ('a' <= c <= 'z')
}

pub open spec fn is_tag_char(c: char) -> bool {
    is_ascii_letter(c) || ('0' <= c <= '9') || c == '_'
}

pub open spec fn lower_letters() -> Seq<char> {
    "abcdefghijklmnopqrstuvwxyz"@
}

/// Lower-case counterpart of an ASCII upper-case letter.
pub open spec fn ascii_lower(c: char) -> char {
    lower_letters()[c as int - 'A' as int]
}

/// What the `i`-th char of a tag name becomes in its path segment.
pub open spec fn snake_piece(name: Seq<char>, i: int) -> Seq<char> {
    let c = name[i];
    if is_ascii_upper(c) {
        if i > 0 {
            seq!['_', ascii_lower(c)]
        } else {
            seq![ascii_lower(c)]
        }
    } else {
        seq![c]
    }
}

pub open spec fn snake_prefix(name: Seq<char>, n: int) -> Seq<char>
    decreases n,
{
    if n <= 0 {
        Seq::empty()
    } else {
        snake_prefix(name, n - 1) + snake_piece(name, n - 1)
    }
}

/// A tag name that can become a path segment: a letter followed by letters, digits and `_`.
pub open spec fn is_tag_name(name: Seq<char>) -> bool {
    &&& name.len() > 0
    &&& is_ascii_letter(name[0])
    &&& forall|i: int| 0 <= i < name.len() ==> is_tag_char(#[trigger] name[i])
}

/// Path segment of a tag name: `PascalCase` becomes `snake_case`.
pub open spec fn tag_segment_spec(name: Seq<char>) -> Option<Seq<char>> {
    if is_tag_name(name) {
        Some(snake_prefix(name, name.len() as int))
    } else {
        None
    }
}

/// The path segment for a tag name, or `None` if the name cannot be one.
pub fn tag_segment(name: &str) -> (r: Option<String>)
    ensures
        r.is_some() == tag_segment_spec(name@).is_some(),
        r.is_some() ==> r.unwrap()@ == tag_segment_spec(name@).unwrap(),
{
    let letters = "abcdefghijklmnopqrstuvwxyz";
    proof {
        reveal_strlit("abcdefghijklmnopqrstuvwxyz");
        assert(letters@.len() == 26);
    }
    let n = name.unicode_len();
    if n == 0 {
        return None;
    }
    let first = name.get_char(0);
    if !(('A' <= first && first <= 'Z') || ('a' <= first && first <= 'z')) {
        return None;
    }
    let mut out = String::new();
    let mut i: usize = 0;
    while i < n
        invariant
            0 <= i <= n,
            n == name@.len(),
            letters@ == lower_letters(),
            letters@.len() == 26,
            is_ascii_letter(name@[0]),
            forall|k: int| 0 <= k < i ==> is_tag_char(#[trigger] name@[k]),
            out@ == snake_prefix(name@, i as int),
        decreases n - i,
    {
        let c = name.get_char(i);
        if !(('A' <= c && c <= 'Z') || ('a' <= c && c <= 'z') || ('0' <= c && c <= '9') || c
            == '_') {
            proof {
                assert(!is_tag_char(name@[i as int]));
            }
            return None;
        }
        if 'A' <= c && c <= 'Z' {
            if i > 0 {
                proof {
                    reveal_strlit("_");
                }
                assert("_"@ =~= seq!['_']);
                out.append("_");
            }
            let k = (c as u32 - 'A' as u32) as usize;
            assert(k < 26) by {
                assert('Z' as u32 == 'A' as u32 + 25);
            }
            let lower = letters.substring_char(k, k + 1);
            assert(lower@ =~= seq![letters@[k as int]]);
            out.append(lower);
        } else {
            let same = name.substring_char(i, i + 1);
            assert(same@ =~= seq![c]);
            out.append(same);
        }
        proof {
            assert(out@ =~= snake_prefix(name@, i as int) + snake_piece(name@, i as int));
        }
        i = i + 1;
    }
    Some(out)
}

} // verus!
