//! Dot-separated paths in the configuration tree.

use vstd::prelude::*;

verus! {

/// Joins two dot-separated paths; an empty side is dropped.
pub open spec fn join_spec(prefix: Seq<char>, suffix: Seq<char>) -> Seq<char> {
    if prefix.len() == 0 {
        suffix
    } else if suffix.len() == 0 {
        prefix
    } else {
        prefix + seq!['.'] + suffix
    }
}

/// Index of the first char at or after `i` that is not a dot.
pub open spec fn dots_end(s: Seq<char>, i: int) -> int
    decreases s.len() - i,
{
    if 0 <= i < s.len() && s[i] == '.' {
        dots_end(s, i + 1)
    } else {
        i
    }
}

/// Index of the last dot among the first `i` chars of `p`, or -1 if there is none.
pub open spec fn last_dot_before(p: Seq<char>, i: int) -> int
    decreases i,
{
    if i <= 0 {
        -1
    } else if p[i - 1] == '.' {
        i - 1
    } else {
        last_dot_before(p, i - 1)
    }
}

/// The parent of a path: the path without its last segment; the root has none.
pub open spec fn parent_spec(p: Seq<char>) -> Option<Seq<char>> {
    if p.len() == 0 {
        None
    } else {
        let d = last_dot_before(p, p.len() as int);
        if d < 0 {
            Some(Seq::empty())
        } else {
            Some(p.take(d))
        }
    }
}

/// The ancestor `levels` levels above `p`, if the path is deep enough.
pub open spec fn ancestor_spec(p: Seq<char>, levels: nat) -> Option<Seq<char>>
    decreases levels,
{
    if levels == 0 {
        Some(p)
    } else {
        match parent_spec(p) {
            Some(q) => ancestor_spec(q, (levels - 1) as nat),
            None => None,
        }
    }
}

/// Joins a name or a relative path to `scope`. A name without a leading dot is appended to
/// `scope`; a name with `d >= 1` leading dots is appended to the ancestor `d - 1` levels above
/// `scope` (a single dot means `scope` itself).
pub open spec fn join_path_spec(scope: Seq<char>, suffix: Seq<char>) -> Option<Seq<char>> {
    let d = dots_end(suffix, 0);
    if d == 0 {
        Some(join_spec(scope, suffix))
    } else {
        match ancestor_spec(scope, (d - 1) as nat) {
            Some(base) => Some(join_spec(base, suffix.skip(d))),
            None => None,
        }
    }
}

/// Copies a string slice into an owned string.
pub fn owned(s: &str) -> (r: String)
    ensures
        r@ == s@,
{
    String::from_str(s)
}

/// Joins two dot-separated paths.
pub fn join(prefix: &str, suffix: &str) -> (r: String)
    ensures
        r@ == join_spec(prefix@, suffix@),
{
    if prefix.unicode_len() == 0 {
        String::from_str(suffix)
    } else if suffix.unicode_len() == 0 {
        String::from_str(prefix)
    } else {
        let mut r = String::from_str(prefix);
        r.append(".");
        r.append(suffix);
        proof {
            reveal_strlit(".");
        }
        r
    }
}

/// The parent of a path (see [`parent_spec`]).
pub fn parent(p: &str) -> (r: Option<String>)
    ensures
        r.is_some() == parent_spec(p@).is_some(),
        r.is_some() ==> r.unwrap()@ == parent_spec(p@).unwrap(),
{
    let n = p.unicode_len();
    if n == 0 {
        return None;
    }
    let mut i: usize = n;
    while i > 0 && p.get_char(i - 1) != '.'
        invariant
            0 <= i <= n,
            n == p@.len(),
            last_dot_before(p@, i as int) == last_dot_before(p@, n as int),
        decreases i,
    {
        i = i - 1;
    }
    if i == 0 {
        Some(String::new())
    } else {
        Some(String::from_str(p.substring_char(0, i - 1)))
    }
}

/// Joins a name or a relative path to `scope` (see [`join_path_spec`]).
pub fn join_path(scope: &str, suffix: &str) -> (r: Option<String>)
    ensures
        r.is_some() == join_path_spec(scope@, suffix@).is_some(),
        r.is_some() ==> r.unwrap()@ == join_path_spec(scope@, suffix@).unwrap(),
{
    let n = suffix.unicode_len();
    let mut d: usize = 0;
    while d < n && suffix.get_char(d) == '.'
        invariant
            0 <= d <= n,
            n == suffix@.len(),
            dots_end(suffix@, d as int) == dots_end(suffix@, 0),
        decreases n - d,
    {
        d = d + 1;
    }
    if d == 0 {
        return Some(join(scope, suffix));
    }
    let mut base = String::from_str(scope);
    let mut level: usize = 1;
    while level < d
        invariant
            1 <= level <= d,
            d == dots_end(suffix@, 0),
            ancestor_spec(scope@, (d - 1) as nat) == ancestor_spec(base@, (d - level) as nat),
        decreases d - level,
    {
        match parent(base.as_str()) {
            Some(q) => {
                base = q;
            },
            None => {
                return None;
            },
        }
        level = level + 1;
    }
    let rest = suffix.substring_char(d, n);
    proof {
        assert(rest@ =~= suffix@.skip(d as int));
    }
    Some(join(base.as_str(), rest))
}

} // verus!
