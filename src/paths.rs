//! Generation of the absolute paths of a parameter or a nested configuration.

use vstd::prelude::*;

use crate::metadata::{tag_segment, tag_segment_spec, AliasOptions, ConfigVariant};
use crate::path::{join, join_path, join_path_spec, join_spec, owned};

verus! {

/// Paths with their alias options, in priority order.
pub type PathsView = Seq<(Seq<char>, AliasOptions)>;

pub open spec fn paths_view(v: Seq<(String, AliasOptions)>) -> PathsView {
    v.map_values(|p: (String, AliasOptions)| (p.0@, p.1))
}

pub open spec fn plain() -> AliasOptions {
    AliasOptions { is_deprecated: false }
}

/// The local name followed by the local aliases.
pub open spec fn local_names(name: &str, aliases: &[(&str, AliasOptions)]) -> PathsView {
    seq![(name@, plain())] + aliases@.map_values(|a: (&str, AliasOptions)| (a.0@, a.1))
}

/// The tag name followed by the tag aliases.
pub open spec fn variant_names(v: &ConfigVariant) -> Seq<Seq<char>> {
    seq![v.name@] + v.aliases@.map_values(|a: &str| a@)
}

/// Path segments of the first `n` names, skipping those that cannot be segments.
pub open spec fn segments(names: Seq<Seq<char>>, n: int) -> Seq<Seq<char>>
    decreases n,
{
    if n <= 0 {
        Seq::empty()
    } else {
        segments(names, n - 1) + match tag_segment_spec(names[n - 1]) {
            Some(s) => seq![s],
            None => Seq::empty(),
        }
    }
}

pub open spec fn is_relative(name: Seq<char>) -> bool {
    name.len() > 0 && name[0] == '.'
}

/// Names of the first `n` locals under the tag segment `seg`; relative paths are skipped.
pub open spec fn enum_row(seg: Seq<char>, locals: PathsView, n: int) -> PathsView
    decreases n,
{
    if n <= 0 {
        Seq::empty()
    } else {
        enum_row(seg, locals, n - 1) + if is_relative(locals[n - 1].0) {
            Seq::empty()
        } else {
            seq![(join_spec(seg, locals[n - 1].0), locals[n - 1].1)]
        }
    }
}

/// Tag-prefixed names for the first `n` segments, segment-major.
pub open spec fn enum_names(segs: Seq<Seq<char>>, locals: PathsView, n: int) -> PathsView
    decreases n,
{
    if n <= 0 {
        Seq::empty()
    } else {
        enum_names(segs, locals, n - 1) + enum_row(segs[n - 1], locals, locals.len() as int)
    }
}

/// Local names of a child, with the tag-prefixed ones appended when coercion applies.
pub open spec fn child_locals(
    name: &str,
    aliases: &[(&str, AliasOptions)],
    tag_variant: Option<&ConfigVariant>,
    coerce: bool,
) -> PathsView {
    let locals = local_names(name, aliases);
    if coerce && tag_variant.is_some() {
        let segs = segments(
            variant_names(tag_variant.unwrap()),
            variant_names(tag_variant.unwrap()).len() as int,
        );
        locals + enum_names(segs, locals, segs.len() as int)
    } else {
        locals
    }
}

/// Paths of the first `n` locals under the enclosing path `base` with options `opts`.
pub open spec fn child_row(base: Seq<char>, opts: AliasOptions, locals: PathsView, n: int) -> PathsView
    decreases n,
{
    if n <= 0 {
        Seq::empty()
    } else {
        child_row(base, opts, locals, n - 1) + match join_path_spec(base, locals[n - 1].0) {
            Some(p) => seq![(p, AliasOptions { is_deprecated: locals[n - 1].1.is_deprecated || opts.is_deprecated })],
            None => Seq::empty(),
        }
    }
}

/// All paths of a child: enclosing paths outer, local names inner.
pub open spec fn child_paths(paths: PathsView, locals: PathsView, n: int) -> PathsView
    decreases n,
{
    if n <= 0 {
        Seq::empty()
    } else {
        child_paths(paths, locals, n - 1) + child_row(paths[n - 1].0, paths[n - 1].1, locals, locals.len() as int)
    }
}

/// Absolute paths of a child named `name` with `aliases` inside a configuration mounted at
/// `paths`, in priority order.
pub open spec fn paths_for_child(
    paths: PathsView,
    name: &str,
    aliases: &[(&str, AliasOptions)],
    tag_variant: Option<&ConfigVariant>,
    coerce: bool,
) -> PathsView {
    let locals = child_locals(name, aliases, tag_variant, coerce);
    child_paths(paths, locals, paths.len() as int)
}

pub proof fn lemma_paths_view_push(v: Seq<(String, AliasOptions)>, x: (String, AliasOptions))
    ensures
        paths_view(v.push(x)) == paths_view(v).push((x.0@, x.1)),
{
    assert(paths_view(v.push(x)) =~= paths_view(v).push((x.0@, x.1)));
}

fn local_names_exec(name: &str, aliases: &[(&str, AliasOptions)]) -> (r: Vec<(String, AliasOptions)>)
    ensures
        paths_view(r@) == local_names(name, aliases),
{
    let mut r: Vec<(String, AliasOptions)> = Vec::new();
    r.push((owned(name), AliasOptions::new()));
    let ghost tail = aliases@.map_values(|a: (&str, AliasOptions)| (a.0@, a.1));
    let mut i: usize = 0;
    proof {
        assert(paths_view(r@) =~= seq![(name@, plain())] + tail.take(0));
    }
    while i < aliases.len()
        invariant
            0 <= i <= aliases@.len(),
            tail == aliases@.map_values(|a: (&str, AliasOptions)| (a.0@, a.1)),
            paths_view(r@) == seq![(name@, plain())] + tail.take(i as int),
        decreases aliases@.len() - i,
    {
        let (alias, opts) = aliases[i];
        let ghost before = r@;
        let item = (owned(alias), opts);
        r.push(item);
        proof {
            lemma_paths_view_push(before, item);
            assert(tail.take(i + 1) =~= tail.take(i as int).push(tail[i as int]));
            assert(paths_view(r@) =~= seq![(name@, plain())] + tail.take(i + 1));
        }
        i = i + 1;
    }
    proof {
        assert(tail.take(i as int) =~= tail);
    }
    r
}

fn tag_segments(v: &ConfigVariant) -> (r: Vec<String>)
    ensures
        r@.map_values(|s: String| s@) == segments(variant_names(v), variant_names(v).len() as int),
{
    let ghost names = variant_names(v);
    let mut r: Vec<String> = Vec::new();
    match tag_segment(v.name) {
        Some(s) => r.push(s),
        None => {},
    }
    proof {
        assert(segments(names, 0) =~= Seq::<Seq<char>>::empty());
        assert(r@.map_values(|s: String| s@) =~= segments(names, 1));
    }
    let mut i: usize = 0;
    while i < v.aliases.len()
        invariant
            0 <= i <= v.aliases@.len(),
            names == variant_names(v),
            names.len() == v.aliases@.len() + 1,
            r@.map_values(|s: String| s@) == segments(names, i + 1),
        decreases v.aliases@.len() - i,
    {
        let ghost before = r@;
        match tag_segment(v.aliases[i]) {
            Some(s) => r.push(s),
            None => {},
        }
        proof {
            assert(names[i + 1] == v.aliases@[i as int]@);
            assert(r@.map_values(|s: String| s@) =~= segments(names, i + 2));
        }
        i = i + 1;
    }
    r
}

fn enum_names_exec(segs: &Vec<String>, locals: &Vec<(String, AliasOptions)>) -> (r: Vec<(String, AliasOptions)>)
    ensures
        paths_view(r@) == enum_names(
            segs@.map_values(|s: String| s@),
            paths_view(locals@),
            segs@.len() as int,
        ),
{
    let ghost sv = segs@.map_values(|s: String| s@);
    let ghost lv = paths_view(locals@);
    let mut r: Vec<(String, AliasOptions)> = Vec::new();
    let mut i: usize = 0;
    while i < segs.len()
        invariant
            0 <= i <= segs@.len(),
            sv == segs@.map_values(|s: String| s@),
            lv == paths_view(locals@),
            paths_view(r@) == enum_names(sv, lv, i as int),
        decreases segs@.len() - i,
    {
        let mut j: usize = 0;
        proof {
            assert(paths_view(r@) =~= enum_names(sv, lv, i as int) + enum_row(sv[i as int], lv, 0));
        }
        while j < locals.len()
            invariant
                0 <= i < segs@.len(),
                0 <= j <= locals@.len(),
                sv == segs@.map_values(|s: String| s@),
                lv == paths_view(locals@),
                paths_view(r@) == enum_names(sv, lv, i as int) + enum_row(sv[i as int], lv, j as int),
            decreases locals@.len() - j,
        {
            let name = locals[j].0.as_str();
            let opts = locals[j].1;
            let relative = name.unicode_len() > 0 && name.get_char(0) == '.';
            let ghost before = r@;
            if !relative {
                let item = (join(segs[i].as_str(), name), opts);
                r.push(item);
                proof {
                    lemma_paths_view_push(before, item);
                }
            }
            proof {
                assert(paths_view(r@) =~= enum_names(sv, lv, i as int) + enum_row(sv[i as int], lv, j + 1));
            }
            j = j + 1;
        }
        i = i + 1;
    }
    r
}

/// Absolute paths of a child named `name` with `aliases` inside a configuration mounted at
/// `paths`, in priority order (see [`paths_for_child`]).
pub fn all_paths_for_child(
    paths: &Vec<(String, AliasOptions)>,
    name: &str,
    aliases: &[(&str, AliasOptions)],
    tag_variant: Option<&ConfigVariant>,
    coerce: bool,
) -> (r: Vec<(String, AliasOptions)>)
    ensures
        paths_view(r@) == paths_for_child(paths_view(paths@), name, aliases, tag_variant, coerce),
{
    let mut locals = local_names_exec(name, aliases);
    if coerce {
        match tag_variant {
            Some(v) => {
                let segs = tag_segments(v);
                let mut extra = enum_names_exec(&segs, &locals);
                let ghost before = locals@;
                let ghost added = extra@;
                locals.append(&mut extra);
                proof {
                    assert(paths_view(locals@) =~= paths_view(before) + paths_view(added));
                }
            },
            None => {},
        }
    }
    let ghost lv = paths_view(locals@);
    let ghost pv = paths_view(paths@);
    proof {
        assert(lv == child_locals(name, aliases, tag_variant, coerce));
    }
    let mut r: Vec<(String, AliasOptions)> = Vec::new();
    let mut i: usize = 0;
    while i < paths.len()
        invariant
            0 <= i <= paths@.len(),
            lv == paths_view(locals@),
            pv == paths_view(paths@),
            paths_view(r@) == child_paths(pv, lv, i as int),
        decreases paths@.len() - i,
    {
        let base = paths[i].0.as_str();
        let copts = paths[i].1;
        let mut j: usize = 0;
        proof {
            assert(paths_view(r@) =~= child_paths(pv, lv, i as int) + child_row(pv[i as int].0, pv[i as int].1, lv, 0));
        }
        while j < locals.len()
            invariant
                0 <= i < paths@.len(),
                0 <= j <= locals@.len(),
                lv == paths_view(locals@),
                pv == paths_view(paths@),
                base@ == pv[i as int].0,
                copts == pv[i as int].1,
                paths_view(r@) == child_paths(pv, lv, i as int) + child_row(base@, copts, lv, j as int),
            decreases locals@.len() - j,
        {
            let ghost before = r@;
            match join_path(base, locals[j].0.as_str()) {
                Some(p) => {
                    let item = (p, locals[j].1.combine(copts));
                    r.push(item);
                    proof {
                        lemma_paths_view_push(before, item);
                    }
                },
                None => {},
            }
            proof {
                assert(paths_view(r@) =~= child_paths(pv, lv, i as int) + child_row(base@, copts, lv, j + 1));
            }
            j = j + 1;
        }
        i = i + 1;
    }
    r
}

} // verus!
