//! What schema insertion guarantees: idempotence, mounting of every parameter path, failure
//! on conflicting paths, and the order of added aliases.

use vstd::prelude::*;

use crate::metadata::{AliasOptions, BasicTypes, ConfigMetadata};
use crate::mount::{
    lemma_mount_index_absent, lemma_mount_index_bounds, lemma_set_mount_at, lemma_set_mount_unique, mount_at,
    mount_index_from, set_mount, unique_keys, MountingPoint, MountsView,
};
use crate::path::{dots_end, join_path_spec, join_spec, last_dot_before, parent_spec};
use crate::paths::{child_locals, child_paths, child_row, plain, PathsView};
use crate::schema::{
    child_data, child_depth, data_link_ok, link_parent_prefix, links_ok, child_prefix, commit_configs, commit_mounts, commit_spec, config_index,
    config_index_from, config_paths, empty_view, has_config, has_path, insert_children, insert_inner,
    insert_spec, insert_tree, lemma_config_index_bounds, lookup, merge_entry, merged_data, mount_config_paths,
    mount_param_paths, mount_params, param_paths, push_alias_spec, set_config, top_data, unique_configs, with_mount, DataView,
    EntryView, SchemaErrorView, SchemaView,
};

verus! {

// ---- repeated insertion ----

proof fn lemma_commit_empty(s: SchemaView)
    ensures
        commit_spec(s, empty_view()) == s,
{
    assert(commit_configs(s.configs, Seq::empty(), 0) == s.configs);
    assert(commit_mounts(s.mounts, Seq::empty(), 0) == s.mounts);
}

/// Inserting a configuration type at a prefix where the schema already holds it succeeds
/// and leaves the schema unchanged: no new mounting points, no duplicate aliases.
pub proof fn lemma_insert_idempotent(s: SchemaView, meta: &'static ConfigMetadata, prefix: Seq<char>)
    requires
        has_config(s, prefix, meta.ty),
    ensures
        insert_spec(s, meta, prefix) == Ok::<SchemaView, SchemaErrorView>(s),
{
    lemma_commit_empty(s);
}

/// Adding an alias that the configuration already has succeeds and changes nothing.
pub proof fn lemma_push_existing_alias(
    s: SchemaView,
    prefix: Seq<char>,
    meta: &'static ConfigMetadata,
    alias: Seq<char>,
    opts: AliasOptions,
)
    requires
        has_config(s, prefix, meta.ty),
        has_path(s.configs[config_index(s.configs, prefix, meta.ty)].data.paths, alias),
    ensures
        push_alias_spec(s, prefix, meta, alias, opts) == Ok::<SchemaView, SchemaErrorView>(s),
{
}


// ---- parameters of an inserted configuration are mounted ----

/// `q` holds parameters expecting `e` (with canonical flag `flag`, if given), looking in the
/// patch first.
pub open spec fn holds_param(base: SchemaView, patch: SchemaView, q: Seq<char>, e: BasicTypes, flag: Option<bool>) -> bool {
    match lookup(base, patch, q) {
        Some(MountingPoint::Param { expecting, is_canonical }) => expecting == e && (flag is Some ==> is_canonical == flag->Some_0),
        _ => false,
    }
}

proof fn lemma_with_mount_lookup(base: SchemaView, patch: SchemaView, a: Seq<char>, m: MountingPoint, q: Seq<char>)
    ensures
        lookup(base, with_mount(patch, a, m), q) == if a == q {
            Some(m)
        } else {
            lookup(base, patch, q)
        },
        unique_keys(patch.mounts) ==> unique_keys(with_mount(patch, a, m).mounts),
{
    lemma_set_mount_at(patch.mounts, a, m, q);
    if unique_keys(patch.mounts) {
        lemma_set_mount_unique(patch.mounts, a, m);
    }
}

proof fn lemma_mount_config_paths_stable(
    base: SchemaView,
    patch: SchemaView,
    meta: &'static ConfigMetadata,
    paths: Seq<Seq<char>>,
    i: int,
    q: Seq<char>,
    e: BasicTypes,
    flag: Option<bool>,
)
    requires
        0 <= i,
        mount_config_paths(base, patch, meta, paths, i) is Ok,
        unique_keys(patch.mounts),
    ensures
        unique_keys(mount_config_paths(base, patch, meta, paths, i)->Ok_0.mounts),
        holds_param(base, patch, q, e, flag) ==> holds_param(base, mount_config_paths(base, patch, meta, paths, i)->Ok_0, q, e, flag),
    decreases paths.len() - i,
{
    if i < paths.len() {
        let next = with_mount(patch, paths[i], MountingPoint::Config);
        lemma_with_mount_lookup(base, patch, paths[i], MountingPoint::Config, q);
        lemma_mount_config_paths_stable(base, next, meta, paths, i + 1, q, e, flag);
    }
}

proof fn lemma_mount_param_paths_stable(
    base: SchemaView,
    patch: SchemaView,
    meta: &'static ConfigMetadata,
    k: int,
    paths: PathsView,
    i: int,
    q: Seq<char>,
    e: BasicTypes,
    flag: Option<bool>,
)
    requires
        0 <= i,
        mount_param_paths(base, patch, meta, k, paths, i) is Ok,
        unique_keys(patch.mounts),
    ensures
        unique_keys(mount_param_paths(base, patch, meta, k, paths, i)->Ok_0.mounts),
        holds_param(base, patch, q, e, flag) ==> holds_param(base, mount_param_paths(base, patch, meta, k, paths, i)->Ok_0, q, e, flag),
    decreases paths.len() - i,
{
    if i < paths.len() {
        let path = paths[i].0;
        let expecting = meta.params@[k].expecting;
        let m = match lookup(base, patch, path) {
            Some(MountingPoint::Param { is_canonical, .. }) => MountingPoint::Param { expecting, is_canonical },
            _ => MountingPoint::Param { expecting, is_canonical: i == 0 },
        };
        let next = with_mount(patch, path, m);
        lemma_with_mount_lookup(base, patch, path, m, q);
        lemma_mount_param_paths_stable(base, next, meta, k, paths, i + 1, q, e, flag);
    }
}

proof fn lemma_mount_param_paths_mounts(
    base: SchemaView,
    patch: SchemaView,
    meta: &'static ConfigMetadata,
    k: int,
    paths: PathsView,
    i: int,
)
    requires
        0 <= i,
        mount_param_paths(base, patch, meta, k, paths, i) is Ok,
        unique_keys(patch.mounts),
    ensures
        forall|j: int| i <= j < paths.len() ==> holds_param(
            base,
            mount_param_paths(base, patch, meta, k, paths, i)->Ok_0,
            #[trigger] paths[j].0,
            meta.params@[k].expecting,
            None,
        ),
    decreases paths.len() - i,
{
    if i < paths.len() {
        let path = paths[i].0;
        let expecting = meta.params@[k].expecting;
        let m = match lookup(base, patch, path) {
            Some(MountingPoint::Param { is_canonical, .. }) => MountingPoint::Param { expecting, is_canonical },
            _ => MountingPoint::Param { expecting, is_canonical: i == 0 },
        };
        let next = with_mount(patch, path, m);
        lemma_with_mount_lookup(base, patch, path, m, path);
        assert(holds_param(base, next, path, expecting, None));
        lemma_mount_param_paths_stable(base, next, meta, k, paths, i + 1, path, expecting, None);
        lemma_mount_param_paths_mounts(base, next, meta, k, paths, i + 1);
    }
}

proof fn lemma_mount_params_stable(
    base: SchemaView,
    patch: SchemaView,
    data: DataView,
    k: int,
    q: Seq<char>,
    e: BasicTypes,
    flag: Option<bool>,
)
    requires
        0 <= k,
        mount_params(base, patch, data, k) is Ok,
        unique_keys(patch.mounts),
    ensures
        unique_keys(mount_params(base, patch, data, k)->Ok_0.mounts),
        holds_param(base, patch, q, e, flag) ==> holds_param(base, mount_params(base, patch, data, k)->Ok_0, q, e, flag),
    decreases data.metadata.params@.len() - k,
{
    if k < data.metadata.params@.len() {
        let p = mount_param_paths(base, patch, data.metadata, k, param_paths(data, k), 0)->Ok_0;
        lemma_mount_param_paths_stable(base, patch, data.metadata, k, param_paths(data, k), 0, q, e, flag);
        lemma_mount_params_stable(base, p, data, k + 1, q, e, flag);
    }
}

proof fn lemma_mount_params_mounts(base: SchemaView, patch: SchemaView, data: DataView, k: int, k2: int, j: int)
    requires
        0 <= k <= k2 < data.metadata.params@.len(),
        0 <= j < param_paths(data, k2).len(),
        mount_params(base, patch, data, k) is Ok,
        unique_keys(patch.mounts),
    ensures
        holds_param(
            base,
            mount_params(base, patch, data, k)->Ok_0,
            param_paths(data, k2)[j].0,
            data.metadata.params@[k2].expecting,
            None,
        ),
    decreases k2 - k,
{
    let p = mount_param_paths(base, patch, data.metadata, k, param_paths(data, k), 0)->Ok_0;
    lemma_mount_param_paths_stable(base, patch, data.metadata, k, param_paths(data, k), 0, param_paths(data, k2)[j].0, data.metadata.params@[k2].expecting, None);
    if k == k2 {
        lemma_mount_param_paths_mounts(base, patch, data.metadata, k, param_paths(data, k), 0);
        assert(holds_param(base, p, param_paths(data, k2)[j].0, data.metadata.params@[k2].expecting, None));
        lemma_mount_params_stable(base, p, data, k + 1, param_paths(data, k2)[j].0, data.metadata.params@[k2].expecting, None);
    } else {
        lemma_mount_params_mounts(base, p, data, k + 1, k2, j);
    }
}

proof fn lemma_insert_inner_stable(
    base: SchemaView,
    patch: SchemaView,
    prefix: Seq<char>,
    depth: Option<usize>,
    data: DataView,
    q: Seq<char>,
    e: BasicTypes,
    flag: Option<bool>,
)
    requires
        insert_inner(base, patch, prefix, depth, data) is Ok,
        unique_keys(patch.mounts),
    ensures
        unique_keys(insert_inner(base, patch, prefix, depth, data)->Ok_0.mounts),
        holds_param(base, patch, q, e, flag) ==> holds_param(base, insert_inner(base, patch, prefix, depth, data)->Ok_0, q, e, flag),
{
    let after_config = mount_config_paths(base, patch, data.metadata, config_paths(prefix, data), 0)->Ok_0;
    lemma_mount_config_paths_stable(base, patch, data.metadata, config_paths(prefix, data), 0, q, e, flag);
    lemma_mount_params_stable(base, after_config, data, 0, q, e, flag);
}

proof fn lemma_insert_tree_stable(
    base: SchemaView,
    patch: SchemaView,
    prefix: Seq<char>,
    data: DataView,
    depth: Option<usize>,
    is_new: bool,
    q: Seq<char>,
    e: BasicTypes,
    flag: Option<bool>,
)
    requires
        insert_tree(base, patch, prefix, data, depth, is_new) is Ok,
        unique_keys(patch.mounts),
    ensures
        unique_keys(insert_tree(base, patch, prefix, data, depth, is_new)->Ok_0.mounts),
        holds_param(base, patch, q, e, flag) ==> holds_param(base, insert_tree(base, patch, prefix, data, depth, is_new)->Ok_0, q, e, flag),
    decreases data.metadata, data.metadata.nested_configs@.len() + 1,
{
    if is_new != has_config(base, prefix, data.metadata.ty) {
        let p = insert_inner(base, patch, prefix, depth, data)->Ok_0;
        lemma_insert_inner_stable(base, patch, prefix, depth, data, q, e, flag);
        lemma_insert_children_stable(base, p, prefix, data, child_depth(depth), is_new, 0, q, e, flag);
    }
}

proof fn lemma_insert_children_stable(
    base: SchemaView,
    patch: SchemaView,
    prefix: Seq<char>,
    data: DataView,
    depth: Option<usize>,
    is_new: bool,
    k: int,
    q: Seq<char>,
    e: BasicTypes,
    flag: Option<bool>,
)
    requires
        0 <= k,
        insert_children(base, patch, prefix, data, depth, is_new, k) is Ok,
        unique_keys(patch.mounts),
    ensures
        unique_keys(insert_children(base, patch, prefix, data, depth, is_new, k)->Ok_0.mounts),
        holds_param(base, patch, q, e, flag) ==> holds_param(base, insert_children(base, patch, prefix, data, depth, is_new, k)->Ok_0, q, e, flag),
    decreases data.metadata, data.metadata.nested_configs@.len() - k,
{
    if k < data.metadata.nested_configs@.len() {
        assert(decreases_to!(data.metadata => data.metadata.nested_configs@[k].meta));
        let p = insert_tree(base, patch, child_prefix(prefix, data, k), child_data(data, k), depth, is_new)->Ok_0;
        lemma_insert_tree_stable(base, patch, child_prefix(prefix, data, k), child_data(data, k), depth, is_new, q, e, flag);
        lemma_insert_children_stable(base, p, prefix, data, depth, is_new, k + 1, q, e, flag);
    }
}

proof fn lemma_commit_mounts_at(ms: MountsView, staged: MountsView, i: int, q: Seq<char>)
    requires
        0 <= i <= staged.len(),
        unique_keys(staged),
    ensures
        mount_at(commit_mounts(ms, staged, i), q) == if mount_index_from(staged, q, i) < staged.len() {
            Some(staged[mount_index_from(staged, q, i)].1)
        } else {
            mount_at(ms, q)
        },
    decreases staged.len() - i,
{
    if i < staged.len() {
        let ms2 = set_mount(ms, staged[i].0, staged[i].1);
        lemma_commit_mounts_at(ms2, staged, i + 1, q);
        lemma_set_mount_at(ms, staged[i].0, staged[i].1, q);
        lemma_mount_index_bounds(staged, q, i + 1);
        if staged[i].0 == q {
            lemma_mount_index_absent(staged, q, i + 1);
        }
    }
}

/// Right after a configuration type is inserted at a prefix where it was not registered,
/// every path of each of its parameters (as [`ConfigRef::all_paths_for_param`] lists them)
/// holds parameters expecting that parameter's types.
pub proof fn lemma_inserted_params_mounted(s: SchemaView, meta: &'static ConfigMetadata, prefix: Seq<char>, k: int, j: int)
    requires
        !has_config(s, prefix, meta.ty),
        insert_spec(s, meta, prefix) is Ok,
        0 <= k < meta.params@.len(),
        0 <= j < param_paths(top_data(meta, prefix, s.coerce), k).len(),
    ensures
        ({
            let q = param_paths(top_data(meta, prefix, s.coerce), k)[j].0;
            match mount_at(insert_spec(s, meta, prefix)->Ok_0.mounts, q) {
                Some(MountingPoint::Param { expecting, .. }) => expecting == meta.params@[k].expecting,
                _ => false,
            }
        }),
{
    let data = top_data(meta, prefix, s.coerce);
    let q = param_paths(data, k)[j].0;
    let e = meta.params@[k].expecting;
    let empty = empty_view();
    assert(unique_keys(empty.mounts));
    let after_config = mount_config_paths(s, empty, meta, config_paths(prefix, data), 0)->Ok_0;
    lemma_mount_config_paths_stable(s, empty, meta, config_paths(prefix, data), 0, q, e, None);
    lemma_mount_params_mounts(s, after_config, data, 0, k, j);
    let after_params = mount_params(s, after_config, data, 0)->Ok_0;
    lemma_mount_params_stable(s, after_config, data, 0, q, e, None);
    let after_inner = insert_inner(s, empty, prefix, Some(0), data)->Ok_0;
    assert(after_inner.mounts == after_params.mounts);
    assert(holds_param(s, after_inner, q, e, None));
    lemma_insert_children_stable(s, after_inner, prefix, data, child_depth(Some(0)), true, 0, q, e, None);
    let patch = insert_tree(s, empty, prefix, data, Some(0), true)->Ok_0;
    assert(holds_param(s, patch, q, e, None));
    lemma_commit_mounts_at(s.mounts, patch.mounts, 0, q);
    lemma_mount_index_bounds(patch.mounts, q, 0);
}


// ---- aliases are appended in call order ----

/// Data registered for `(prefix, ty)`, if any.
pub open spec fn data_of(cs: Seq<EntryView>, prefix: Seq<char>, ty: u64) -> Option<DataView> {
    let j = config_index(cs, prefix, ty);
    if 0 <= j < cs.len() {
        Some(cs[j].data)
    } else {
        None
    }
}


/// No chain of flattened configurations below the nested configurations `k..` of `meta`
/// reaches a configuration of type `ty`.
pub open spec fn avoids_from(meta: &'static ConfigMetadata, ty: u64, k: int) -> bool
    decreases meta, meta.nested_configs@.len() - k,
{
    if k < 0 || k >= meta.nested_configs@.len() {
        true
    } else {
        let nested = meta.nested_configs@[k];
        &&& (nested.name@.len() > 0 || (nested.meta.ty != ty && avoids_from(nested.meta, ty, 0)))
        &&& avoids_from(meta, ty, k + 1)
    }
}

proof fn lemma_config_index_absent(cs: Seq<EntryView>, prefix: Seq<char>, ty: u64, i: int)
    requires
        0 <= i <= cs.len(),
        forall|k: int| i <= k < cs.len() ==> !(cs[k].prefix == prefix && cs[k].data.metadata.ty == ty),
    ensures
        config_index_from(cs, prefix, ty, i) == cs.len(),
    decreases cs.len() - i,
{
    if i < cs.len() {
        lemma_config_index_absent(cs, prefix, ty, i + 1);
    }
}

proof fn lemma_config_index_at(cs: Seq<EntryView>, prefix: Seq<char>, ty: u64, i: int, r: int)
    requires
        0 <= i <= r < cs.len(),
        cs[r].prefix == prefix && cs[r].data.metadata.ty == ty,
        forall|k: int| i <= k < r ==> !(cs[k].prefix == prefix && cs[k].data.metadata.ty == ty),
    ensures
        config_index_from(cs, prefix, ty, i) == r,
    decreases r - i,
{
    if i < r {
        lemma_config_index_at(cs, prefix, ty, i + 1, r);
    }
}

proof fn lemma_config_index_found(cs: Seq<EntryView>, prefix: Seq<char>, ty: u64, i: int)
    requires
        0 <= i <= cs.len(),
    ensures
        config_index_from(cs, prefix, ty, i) == cs.len() ==> forall|k: int|
            i <= k < cs.len() ==> !(cs[k].prefix == prefix && cs[k].data.metadata.ty == ty),
        config_index_from(cs, prefix, ty, i) < cs.len() ==> forall|k: int|
            i <= k < config_index_from(cs, prefix, ty, i) ==> !(cs[k].prefix == prefix && cs[k].data.metadata.ty == ty),
    decreases cs.len() - i,
{
    lemma_config_index_bounds(cs, prefix, ty, i);
    if i < cs.len() && !(cs[i].prefix == prefix && cs[i].data.metadata.ty == ty) {
        lemma_config_index_found(cs, prefix, ty, i + 1);
    }
}

/// Where an entry lands in a sequence: the first entry with its key, or a new last one.
proof fn lemma_replace_or_push_data(cs: Seq<EntryView>, e: EntryView, ns: Seq<EntryView>, p: Seq<char>, t: u64)
    requires
        ({
            let j = config_index(cs, e.prefix, e.data.metadata.ty);
            if 0 <= j < cs.len() {
                ns.len() == cs.len() && ns[j].prefix == e.prefix && ns[j].data.metadata.ty == e.data.metadata.ty
                    && ns[j].data == e.data && forall|k: int| 0 <= k < cs.len() && k != j ==> ns[k] == cs[k]
            } else {
                ns == cs.push(e)
            }
        }),
    ensures
        data_of(ns, p, t) == if e.prefix == p && e.data.metadata.ty == t {
            Some(e.data)
        } else {
            data_of(cs, p, t)
        },
        unique_configs(cs) ==> unique_configs(ns),
{
    let j = config_index(cs, e.prefix, e.data.metadata.ty);
    lemma_config_index_bounds(cs, e.prefix, e.data.metadata.ty, 0);
    lemma_config_index_found(cs, e.prefix, e.data.metadata.ty, 0);
    lemma_config_index_bounds(cs, p, t, 0);
    lemma_config_index_found(cs, p, t, 0);
    let jp = config_index(cs, p, t);
    if e.prefix == p && e.data.metadata.ty == t {
        if 0 <= j < cs.len() {
            lemma_config_index_at(ns, p, t, 0, j);
        } else {
            lemma_config_index_at(ns, p, t, 0, cs.len() as int);
        }
    } else {
        if jp < cs.len() {
            lemma_config_index_at(ns, p, t, 0, jp);
        } else {
            lemma_config_index_absent(ns, p, t, 0);
        }
    }
}

proof fn lemma_set_config_data(cs: Seq<EntryView>, e: EntryView, p: Seq<char>, t: u64)
    ensures
        data_of(set_config(cs, e), p, t) == if e.prefix == p && e.data.metadata.ty == t {
            Some(e.data)
        } else {
            data_of(cs, p, t)
        },
        unique_configs(cs) ==> unique_configs(set_config(cs, e)),
{
    lemma_config_index_bounds(cs, e.prefix, e.data.metadata.ty, 0);
    lemma_replace_or_push_data(cs, e, set_config(cs, e), p, t);
}

pub proof fn lemma_merge_entry_data(cs: Seq<EntryView>, e: EntryView, p: Seq<char>, t: u64)
    ensures
        data_of(merge_entry(cs, e), p, t) == if e.prefix == p && e.data.metadata.ty == t {
            Some(e.data)
        } else {
            data_of(cs, p, t)
        },
        unique_configs(cs) ==> unique_configs(merge_entry(cs, e)),
{
    lemma_config_index_bounds(cs, e.prefix, e.data.metadata.ty, 0);
    lemma_replace_or_push_data(cs, e, merge_entry(cs, e), p, t);
}

proof fn lemma_commit_configs_data(cs: Seq<EntryView>, staged: Seq<EntryView>, i: int, p: Seq<char>, t: u64)
    requires
        0 <= i <= staged.len(),
        unique_configs(staged),
    ensures
        data_of(commit_configs(cs, staged, i), p, t) == if config_index_from(staged, p, t, i) < staged.len() {
            Some(staged[config_index_from(staged, p, t, i)].data)
        } else {
            data_of(cs, p, t)
        },
    decreases staged.len() - i,
{
    if i < staged.len() {
        let cs2 = merge_entry(cs, staged[i]);
        lemma_commit_configs_data(cs2, staged, i + 1, p, t);
        lemma_merge_entry_data(cs, staged[i], p, t);
        lemma_config_index_bounds(staged, p, t, i + 1);
        if staged[i].prefix == p && staged[i].data.metadata.ty == t {
            lemma_config_index_absent(staged, p, t, i + 1);
        }
    }
}

proof fn lemma_mount_config_paths_configs(
    base: SchemaView,
    patch: SchemaView,
    meta: &'static ConfigMetadata,
    paths: Seq<Seq<char>>,
    i: int,
)
    requires
        0 <= i,
        mount_config_paths(base, patch, meta, paths, i) is Ok,
    ensures
        mount_config_paths(base, patch, meta, paths, i)->Ok_0.configs == patch.configs,
    decreases paths.len() - i,
{
    if i < paths.len() {
        lemma_mount_config_paths_configs(base, with_mount(patch, paths[i], MountingPoint::Config), meta, paths, i + 1);
    }
}

proof fn lemma_mount_param_paths_configs(
    base: SchemaView,
    patch: SchemaView,
    meta: &'static ConfigMetadata,
    k: int,
    paths: PathsView,
    i: int,
)
    requires
        0 <= i,
        mount_param_paths(base, patch, meta, k, paths, i) is Ok,
    ensures
        mount_param_paths(base, patch, meta, k, paths, i)->Ok_0.configs == patch.configs,
    decreases paths.len() - i,
{
    if i < paths.len() {
        let path = paths[i].0;
        let expecting = meta.params@[k].expecting;
        let m = match lookup(base, patch, path) {
            Some(MountingPoint::Param { is_canonical, .. }) => MountingPoint::Param { expecting, is_canonical },
            _ => MountingPoint::Param { expecting, is_canonical: i == 0 },
        };
        lemma_mount_param_paths_configs(base, with_mount(patch, path, m), meta, k, paths, i + 1);
    }
}

proof fn lemma_mount_params_configs(base: SchemaView, patch: SchemaView, data: DataView, k: int)
    requires
        0 <= k,
        mount_params(base, patch, data, k) is Ok,
    ensures
        mount_params(base, patch, data, k)->Ok_0.configs == patch.configs,
    decreases data.metadata.params@.len() - k,
{
    if k < data.metadata.params@.len() {
        let p = mount_param_paths(base, patch, data.metadata, k, param_paths(data, k), 0)->Ok_0;
        lemma_mount_param_paths_configs(base, patch, data.metadata, k, param_paths(data, k), 0);
        lemma_mount_params_configs(base, p, data, k + 1);
    }
}

proof fn lemma_insert_inner_configs(
    base: SchemaView,
    patch: SchemaView,
    prefix: Seq<char>,
    depth: Option<usize>,
    data: DataView,
    p: Seq<char>,
    t: u64,
)
    requires
        insert_inner(base, patch, prefix, depth, data) is Ok,
    ensures
        data_of(insert_inner(base, patch, prefix, depth, data)->Ok_0.configs, p, t) == if prefix == p && data.metadata.ty == t {
            Some(merged_data(base, prefix, data))
        } else {
            data_of(patch.configs, p, t)
        },
        unique_configs(patch.configs) ==> unique_configs(insert_inner(base, patch, prefix, depth, data)->Ok_0.configs),
{
    let after_config = mount_config_paths(base, patch, data.metadata, config_paths(prefix, data), 0)->Ok_0;
    lemma_mount_config_paths_configs(base, patch, data.metadata, config_paths(prefix, data), 0);
    lemma_mount_params_configs(base, after_config, data, 0);
    let after_params = mount_params(base, after_config, data, 0)->Ok_0;
    lemma_set_config_data(after_params.configs, EntryView { prefix, data: merged_data(base, prefix, data), depth }, p, t);
}

/// Staging a configuration at `prefix` and the configurations below it leaves the entry
/// for `(p, t)` alone when nothing staged can have that key.
proof fn lemma_insert_tree_configs(
    base: SchemaView,
    patch: SchemaView,
    prefix: Seq<char>,
    data: DataView,
    depth: Option<usize>,
    is_new: bool,
    p: Seq<char>,
    t: u64,
)
    requires
        insert_tree(base, patch, prefix, data, depth, is_new) is Ok,
    ensures
        unique_configs(patch.configs) ==> unique_configs(insert_tree(base, patch, prefix, data, depth, is_new)->Ok_0.configs),
        data_of(patch.configs, p, t).is_some() ==> data_of(insert_tree(base, patch, prefix, data, depth, is_new)->Ok_0.configs, p, t).is_some(),
        (prefix.len() > p.len() || (prefix == p && data.metadata.ty != t && avoids_from(data.metadata, t, 0)))
            ==> data_of(insert_tree(base, patch, prefix, data, depth, is_new)->Ok_0.configs, p, t) == data_of(patch.configs, p, t),
    decreases data.metadata, data.metadata.nested_configs@.len() + 1,
{
    if is_new != has_config(base, prefix, data.metadata.ty) {
        let q = insert_inner(base, patch, prefix, depth, data)->Ok_0;
        lemma_insert_inner_configs(base, patch, prefix, depth, data, p, t);
        lemma_insert_children_configs(base, q, prefix, data, child_depth(depth), is_new, 0, p, t);
    }
}

proof fn lemma_insert_children_configs(
    base: SchemaView,
    patch: SchemaView,
    prefix: Seq<char>,
    data: DataView,
    depth: Option<usize>,
    is_new: bool,
    k: int,
    p: Seq<char>,
    t: u64,
)
    requires
        0 <= k,
        insert_children(base, patch, prefix, data, depth, is_new, k) is Ok,
    ensures
        unique_configs(patch.configs) ==> unique_configs(insert_children(base, patch, prefix, data, depth, is_new, k)->Ok_0.configs),
        data_of(patch.configs, p, t).is_some() ==> data_of(insert_children(base, patch, prefix, data, depth, is_new, k)->Ok_0.configs, p, t).is_some(),
        (prefix.len() > p.len() || (prefix == p && avoids_from(data.metadata, t, k)))
            ==> data_of(insert_children(base, patch, prefix, data, depth, is_new, k)->Ok_0.configs, p, t) == data_of(patch.configs, p, t),
    decreases data.metadata, data.metadata.nested_configs@.len() - k,
{
    if k < data.metadata.nested_configs@.len() {
        assert(decreases_to!(data.metadata => data.metadata.nested_configs@[k].meta));
        let cp = child_prefix(prefix, data, k);
        let name = data.metadata.nested_configs@[k].name@;
        if name.len() > 0 {
            assert(cp.len() > prefix.len());
        } else {
            assert(cp == prefix);
        }
        let q = insert_tree(base, patch, cp, child_data(data, k), depth, is_new)->Ok_0;
        lemma_insert_tree_configs(base, patch, cp, child_data(data, k), depth, is_new, p, t);
        lemma_insert_children_configs(base, q, prefix, data, depth, is_new, k + 1, p, t);
    }
}

/// After a new alias is added successfully, the configuration's paths are its former paths
/// followed by the alias, with the options it was added with; provided that no chain of
/// flattened configurations below it holds a configuration of its own type.
pub proof fn lemma_push_alias_appends(
    s: SchemaView,
    prefix: Seq<char>,
    meta: &'static ConfigMetadata,
    alias: Seq<char>,
    opts: AliasOptions,
)
    requires
        has_config(s, prefix, meta.ty),
        push_alias_spec(s, prefix, meta, alias, opts) is Ok,
        !has_path(data_of(s.configs, prefix, meta.ty).unwrap().paths, alias),
        avoids_from(data_of(s.configs, prefix, meta.ty).unwrap().metadata, meta.ty, 0),
    ensures
        data_of(push_alias_spec(s, prefix, meta, alias, opts)->Ok_0.configs, prefix, meta.ty) == Some(
            DataView {
                paths: data_of(s.configs, prefix, meta.ty).unwrap().paths.push((alias, opts)),
                ..data_of(s.configs, prefix, meta.ty).unwrap()
            },
        ),
{
    let ty = meta.ty;
    let j = config_index(s.configs, prefix, ty);
    lemma_config_index_bounds(s.configs, prefix, ty, 0);
    let e = s.configs[j];
    let staged = DataView { paths: seq![(alias, opts)], ..e.data };
    assert(e.data.metadata.ty == ty);
    let empty = empty_view();
    assert(unique_configs(empty.configs));
    let q = insert_inner(s, empty, prefix, None, staged)->Ok_0;
    lemma_insert_inner_configs(s, empty, prefix, None, staged, prefix, ty);
    assert(merged_data(s, prefix, staged).paths =~= e.data.paths.push((alias, opts)));
    lemma_insert_children_configs(s, q, prefix, staged, child_depth(None), false, 0, prefix, ty);
    let patch = insert_tree(s, empty, prefix, staged, None, false)->Ok_0;
    assert(data_of(patch.configs, prefix, ty) == Some(merged_data(s, prefix, staged)));
    lemma_commit_configs_data(s.configs, patch.configs, 0, prefix, ty);
    lemma_config_index_bounds(patch.configs, prefix, ty, 0);
    assert(merged_data(s, prefix, staged) =~= DataView { paths: e.data.paths.push((alias, opts)), ..e.data });
}

/// Adding an alias and then a deprecated alias, at two different paths that the
/// configuration did not have, leaves both at the end of its paths in call order, the
/// first plain and the second deprecated.
pub proof fn lemma_alias_then_deprecated_alias(
    s: SchemaView,
    prefix: Seq<char>,
    meta: &'static ConfigMetadata,
    first: Seq<char>,
    second: Seq<char>,
)
    requires
        has_config(s, prefix, meta.ty),
        first != second,
        !has_path(data_of(s.configs, prefix, meta.ty).unwrap().paths, first),
        !has_path(data_of(s.configs, prefix, meta.ty).unwrap().paths, second),
        avoids_from(data_of(s.configs, prefix, meta.ty).unwrap().metadata, meta.ty, 0),
        push_alias_spec(s, prefix, meta, first, plain()) is Ok,
        push_alias_spec(
            push_alias_spec(s, prefix, meta, first, plain())->Ok_0,
            prefix,
            meta,
            second,
            AliasOptions { is_deprecated: true },
        ) is Ok,
    ensures
        ({
            let s2 = push_alias_spec(
                push_alias_spec(s, prefix, meta, first, plain())->Ok_0,
                prefix,
                meta,
                second,
                AliasOptions { is_deprecated: true },
            )->Ok_0;
            data_of(s2.configs, prefix, meta.ty).unwrap().paths == data_of(s.configs, prefix, meta.ty).unwrap().paths.push(
                (first, plain()),
            ).push((second, AliasOptions { is_deprecated: true }))
        }),
{
    let d0 = data_of(s.configs, prefix, meta.ty).unwrap();
    lemma_push_alias_appends(s, prefix, meta, first, plain());
    let s1 = push_alias_spec(s, prefix, meta, first, plain())->Ok_0;
    let d1 = data_of(s1.configs, prefix, meta.ty).unwrap();
    assert(d1.paths == d0.paths.push((first, plain())));
    assert(has_config(s1, prefix, meta.ty));
    assert(!has_path(d1.paths, second)) by {
        if has_path(d1.paths, second) {
            let i = choose|i: int| 0 <= i < d1.paths.len() && #[trigger] d1.paths[i].0 == second;
            if i < d0.paths.len() {
                assert(d0.paths[i].0 == second);
            }
        }
    }
    lemma_push_alias_appends(s1, prefix, meta, second, AliasOptions { is_deprecated: true });
}


/// After a configuration type is inserted successfully at a prefix, the schema holds it there,
/// so inserting it there again succeeds and changes nothing.
pub proof fn lemma_insert_twice(s: SchemaView, meta: &'static ConfigMetadata, prefix: Seq<char>)
    requires
        insert_spec(s, meta, prefix) is Ok,
    ensures
        has_config(insert_spec(s, meta, prefix)->Ok_0, prefix, meta.ty),
        insert_spec(insert_spec(s, meta, prefix)->Ok_0, meta, prefix) == Ok::<SchemaView, SchemaErrorView>(
            insert_spec(s, meta, prefix)->Ok_0,
        ),
{
    let ty = meta.ty;
    if has_config(s, prefix, ty) {
        lemma_commit_empty(s);
    } else {
        let data = top_data(meta, prefix, s.coerce);
        let empty = empty_view();
        assert(unique_configs(empty.configs));
        let q = insert_inner(s, empty, prefix, Some(0), data)->Ok_0;
        lemma_insert_inner_configs(s, empty, prefix, Some(0), data, prefix, ty);
        lemma_insert_children_configs(s, q, prefix, data, child_depth(Some(0)), true, 0, prefix, ty);
        let patch = insert_tree(s, empty, prefix, data, Some(0), true)->Ok_0;
        assert(data_of(patch.configs, prefix, ty).is_some());
        lemma_commit_configs_data(s.configs, patch.configs, 0, prefix, ty);
        lemma_config_index_bounds(patch.configs, prefix, ty, 0);
        let s1 = insert_spec(s, meta, prefix)->Ok_0;
        assert(data_of(s1.configs, prefix, ty).is_some());
    }
    lemma_insert_idempotent(insert_spec(s, meta, prefix)->Ok_0, meta, prefix);
}

// ---- conflicting insertions fail ----

proof fn lemma_mount_config_paths_keeps_config(
    base: SchemaView,
    patch: SchemaView,
    meta: &'static ConfigMetadata,
    paths: Seq<Seq<char>>,
    i: int,
    q: Seq<char>,
)
    requires
        0 <= i,
        mount_config_paths(base, patch, meta, paths, i) is Ok,
        lookup(base, patch, q) == Some(MountingPoint::Config),
    ensures
        lookup(base, mount_config_paths(base, patch, meta, paths, i)->Ok_0, q) == Some(MountingPoint::Config),
    decreases paths.len() - i,
{
    if i < paths.len() {
        lemma_with_mount_lookup(base, patch, paths[i], MountingPoint::Config, q);
        lemma_mount_config_paths_keeps_config(base, with_mount(patch, paths[i], MountingPoint::Config), meta, paths, i + 1, q);
    }
}

proof fn lemma_mount_param_paths_keeps_config(
    base: SchemaView,
    patch: SchemaView,
    meta: &'static ConfigMetadata,
    k: int,
    paths: PathsView,
    i: int,
    q: Seq<char>,
)
    requires
        0 <= i,
        mount_param_paths(base, patch, meta, k, paths, i) is Ok,
        lookup(base, patch, q) == Some(MountingPoint::Config),
    ensures
        lookup(base, mount_param_paths(base, patch, meta, k, paths, i)->Ok_0, q) == Some(MountingPoint::Config),
    decreases paths.len() - i,
{
    if i < paths.len() {
        let path = paths[i].0;
        let expecting = meta.params@[k].expecting;
        let m = match lookup(base, patch, path) {
            Some(MountingPoint::Param { is_canonical, .. }) => MountingPoint::Param { expecting, is_canonical },
            _ => MountingPoint::Param { expecting, is_canonical: i == 0 },
        };
        lemma_with_mount_lookup(base, patch, path, m, q);
        lemma_mount_param_paths_keeps_config(base, with_mount(patch, path, m), meta, k, paths, i + 1, q);
    }
}

proof fn lemma_mount_params_keeps_config(base: SchemaView, patch: SchemaView, data: DataView, k: int, q: Seq<char>)
    requires
        0 <= k,
        mount_params(base, patch, data, k) is Ok,
        lookup(base, patch, q) == Some(MountingPoint::Config),
    ensures
        lookup(base, mount_params(base, patch, data, k)->Ok_0, q) == Some(MountingPoint::Config),
    decreases data.metadata.params@.len() - k,
{
    if k < data.metadata.params@.len() {
        let p = mount_param_paths(base, patch, data.metadata, k, param_paths(data, k), 0)->Ok_0;
        lemma_mount_param_paths_keeps_config(base, patch, data.metadata, k, param_paths(data, k), 0, q);
        lemma_mount_params_keeps_config(base, p, data, k + 1, q);
    }
}

proof fn lemma_insert_tree_keeps_config(
    base: SchemaView,
    patch: SchemaView,
    prefix: Seq<char>,
    data: DataView,
    depth: Option<usize>,
    is_new: bool,
    q: Seq<char>,
)
    requires
        insert_tree(base, patch, prefix, data, depth, is_new) is Ok,
        lookup(base, patch, q) == Some(MountingPoint::Config),
    ensures
        lookup(base, insert_tree(base, patch, prefix, data, depth, is_new)->Ok_0, q) == Some(MountingPoint::Config),
    decreases data.metadata, data.metadata.nested_configs@.len() + 1,
{
    if is_new != has_config(base, prefix, data.metadata.ty) {
        let after_config = mount_config_paths(base, patch, data.metadata, config_paths(prefix, data), 0)->Ok_0;
        lemma_mount_config_paths_keeps_config(base, patch, data.metadata, config_paths(prefix, data), 0, q);
        lemma_mount_params_keeps_config(base, after_config, data, 0, q);
        let p = insert_inner(base, patch, prefix, depth, data)->Ok_0;
        lemma_insert_children_keeps_config(base, p, prefix, data, child_depth(depth), is_new, 0, q);
    }
}

proof fn lemma_insert_children_keeps_config(
    base: SchemaView,
    patch: SchemaView,
    prefix: Seq<char>,
    data: DataView,
    depth: Option<usize>,
    is_new: bool,
    k: int,
    q: Seq<char>,
)
    requires
        0 <= k,
        insert_children(base, patch, prefix, data, depth, is_new, k) is Ok,
        lookup(base, patch, q) == Some(MountingPoint::Config),
    ensures
        lookup(base, insert_children(base, patch, prefix, data, depth, is_new, k)->Ok_0, q) == Some(MountingPoint::Config),
    decreases data.metadata, data.metadata.nested_configs@.len() - k,
{
    if k < data.metadata.nested_configs@.len() {
        assert(decreases_to!(data.metadata => data.metadata.nested_configs@[k].meta));
        let cp = child_prefix(prefix, data, k);
        let p = insert_tree(base, patch, cp, child_data(data, k), depth, is_new)->Ok_0;
        lemma_insert_tree_keeps_config(base, patch, cp, child_data(data, k), depth, is_new, q);
        lemma_insert_children_keeps_config(base, p, prefix, data, depth, is_new, k + 1, q);
    }
}

/// What the schema holds at `q` after a successful insertion is what the staged patch
/// holds there, else what the schema held.
proof fn lemma_insert_result_lookup(s: SchemaView, meta: &'static ConfigMetadata, prefix: Seq<char>, q: Seq<char>)
    requires
        insert_spec(s, meta, prefix) is Ok,
    ensures
        mount_at(insert_spec(s, meta, prefix)->Ok_0.mounts, q) == lookup(
            s,
            insert_tree(s, empty_view(), prefix, top_data(meta, prefix, s.coerce), Some(0), true)->Ok_0,
            q,
        ),
{
    let empty = empty_view();
    assert(unique_keys(empty.mounts));
    let data = top_data(meta, prefix, s.coerce);
    lemma_insert_tree_stable(s, empty, prefix, data, Some(0), true, q, BasicTypes { bits: 0 }, None);
    let patch = insert_tree(s, empty, prefix, data, Some(0), true)->Ok_0;
    lemma_commit_mounts_at(s.mounts, patch.mounts, 0, q);
    lemma_mount_index_bounds(patch.mounts, q, 0);
}

/// Inserting a configuration whose parameter would be mounted at a path where a
/// configuration is mounted fails.
pub proof fn lemma_param_at_config_fails(s: SchemaView, meta: &'static ConfigMetadata, prefix: Seq<char>, k: int, j: int)
    requires
        !has_config(s, prefix, meta.ty),
        0 <= k < meta.params@.len(),
        0 <= j < param_paths(top_data(meta, prefix, s.coerce), k).len(),
        mount_at(s.mounts, param_paths(top_data(meta, prefix, s.coerce), k)[j].0) == Some(MountingPoint::Config),
    ensures
        insert_spec(s, meta, prefix) is Err,
{
    if insert_spec(s, meta, prefix) is Ok {
        let q = param_paths(top_data(meta, prefix, s.coerce), k)[j].0;
        let empty = empty_view();
        assert(lookup(s, empty, q) == mount_at(s.mounts, q));
        lemma_insert_tree_keeps_config(s, empty, prefix, top_data(meta, prefix, s.coerce), Some(0), true, q);
        lemma_insert_result_lookup(s, meta, prefix, q);
        lemma_inserted_params_mounted(s, meta, prefix, k, j);
    }
}

/// Inserting a configuration whose parameter would be mounted at a path holding parameters
/// that expect other types fails.
pub proof fn lemma_param_type_mismatch_fails(
    s: SchemaView,
    meta: &'static ConfigMetadata,
    prefix: Seq<char>,
    k: int,
    j: int,
    existing: BasicTypes,
    canonical: bool,
)
    requires
        !has_config(s, prefix, meta.ty),
        0 <= k < meta.params@.len(),
        0 <= j < param_paths(top_data(meta, prefix, s.coerce), k).len(),
        mount_at(s.mounts, param_paths(top_data(meta, prefix, s.coerce), k)[j].0) == Some(
            MountingPoint::Param { expecting: existing, is_canonical: canonical },
        ),
        existing != meta.params@[k].expecting,
    ensures
        insert_spec(s, meta, prefix) is Err,
{
    if insert_spec(s, meta, prefix) is Ok {
        let q = param_paths(top_data(meta, prefix, s.coerce), k)[j].0;
        let empty = empty_view();
        assert(unique_keys(empty.mounts));
        assert(holds_param(s, empty, q, existing, None));
        lemma_insert_tree_stable(s, empty, prefix, top_data(meta, prefix, s.coerce), Some(0), true, q, existing, None);
        lemma_insert_result_lookup(s, meta, prefix, q);
        lemma_inserted_params_mounted(s, meta, prefix, k, j);
    }
}

/// A successful insertion keeps what a path holding parameters held: the same expected
/// types and the same canonical flag (the first registration at a path decides it).
pub proof fn lemma_insert_keeps_param_mount(
    s: SchemaView,
    meta: &'static ConfigMetadata,
    prefix: Seq<char>,
    q: Seq<char>,
    e: BasicTypes,
    canonical: bool,
)
    requires
        insert_spec(s, meta, prefix) is Ok,
        mount_at(s.mounts, q) == Some(MountingPoint::Param { expecting: e, is_canonical: canonical }),
    ensures
        mount_at(insert_spec(s, meta, prefix)->Ok_0.mounts, q) == Some(
            MountingPoint::Param { expecting: e, is_canonical: canonical },
        ),
{
    let empty = empty_view();
    assert(unique_keys(empty.mounts));
    assert(holds_param(s, empty, q, e, Some(canonical)));
    lemma_insert_tree_stable(s, empty, prefix, top_data(meta, prefix, s.coerce), Some(0), true, q, e, Some(canonical));
    lemma_insert_result_lookup(s, meta, prefix, q);
}

/// Right after a configuration type is inserted at a prefix where it was not registered, its
/// entry there holds exactly the top-level data: the prefix as its only, non-deprecated path.
/// So the paths that [`ConfigRef::all_paths_for_param`] lists for it are those of
/// [`lemma_inserted_params_mounted`]. This needs that no chain of flattened configurations
/// below it holds a configuration of its own type.
pub proof fn lemma_inserted_entry(s: SchemaView, meta: &'static ConfigMetadata, prefix: Seq<char>)
    requires
        !has_config(s, prefix, meta.ty),
        insert_spec(s, meta, prefix) is Ok,
        avoids_from(meta, meta.ty, 0),
    ensures
        data_of(insert_spec(s, meta, prefix)->Ok_0.configs, prefix, meta.ty) == Some(top_data(meta, prefix, s.coerce)),
        top_data(meta, prefix, s.coerce).paths == seq![(prefix, plain())],
{
    let ty = meta.ty;
    let data = top_data(meta, prefix, s.coerce);
    let empty = empty_view();
    assert(unique_configs(empty.configs));
    let q = insert_inner(s, empty, prefix, Some(0), data)->Ok_0;
    lemma_insert_inner_configs(s, empty, prefix, Some(0), data, prefix, ty);
    assert(merged_data(s, prefix, data) == data);
    lemma_insert_children_configs(s, q, prefix, data, child_depth(Some(0)), true, 0, prefix, ty);
    let patch = insert_tree(s, empty, prefix, data, Some(0), true)->Ok_0;
    assert(data_of(patch.configs, prefix, ty) == Some(data));
    lemma_commit_configs_data(s.configs, patch.configs, 0, prefix, ty);
    lemma_config_index_bounds(patch.configs, prefix, ty, 0);
}

// ---- adding an alias registers nothing new ----

/// Every staged entry is for a prefix and type that the base holds.
pub open spec fn staged_in_base(base: SchemaView, patch: SchemaView) -> bool {
    forall|i: int|
        0 <= i < patch.configs.len() ==> has_config(base, #[trigger] patch.configs[i].prefix, patch.configs[i].data.metadata.ty)
}

proof fn lemma_insert_tree_in_base(
    base: SchemaView,
    patch: SchemaView,
    prefix: Seq<char>,
    data: DataView,
    depth: Option<usize>,
)
    requires
        insert_tree(base, patch, prefix, data, depth, false) is Ok,
        staged_in_base(base, patch),
    ensures
        staged_in_base(base, insert_tree(base, patch, prefix, data, depth, false)->Ok_0),
    decreases data.metadata, data.metadata.nested_configs@.len() + 1,
{
    if has_config(base, prefix, data.metadata.ty) {
        let after_config = mount_config_paths(base, patch, data.metadata, config_paths(prefix, data), 0)->Ok_0;
        lemma_mount_config_paths_configs(base, patch, data.metadata, config_paths(prefix, data), 0);
        lemma_mount_params_configs(base, after_config, data, 0);
        let q = insert_inner(base, patch, prefix, depth, data)->Ok_0;
        let e = EntryView { prefix, data: merged_data(base, prefix, data), depth };
        assert(staged_in_base(base, q)) by {
            lemma_config_index_bounds(patch.configs, prefix, data.metadata.ty, 0);
        }
        lemma_insert_children_in_base(base, q, prefix, data, child_depth(depth), 0);
    }
}

proof fn lemma_insert_children_in_base(
    base: SchemaView,
    patch: SchemaView,
    prefix: Seq<char>,
    data: DataView,
    depth: Option<usize>,
    k: int,
)
    requires
        0 <= k,
        insert_children(base, patch, prefix, data, depth, false, k) is Ok,
        staged_in_base(base, patch),
    ensures
        staged_in_base(base, insert_children(base, patch, prefix, data, depth, false, k)->Ok_0),
    decreases data.metadata, data.metadata.nested_configs@.len() - k,
{
    if k < data.metadata.nested_configs@.len() {
        assert(decreases_to!(data.metadata => data.metadata.nested_configs@[k].meta));
        let cp = child_prefix(prefix, data, k);
        let q = insert_tree(base, patch, cp, child_data(data, k), depth, false)->Ok_0;
        lemma_insert_tree_in_base(base, patch, cp, child_data(data, k), depth);
        lemma_insert_children_in_base(base, q, prefix, data, depth, k + 1);
    }
}

proof fn lemma_has_config_data(cs: Seq<EntryView>, p: Seq<char>, t: u64)
    ensures
        data_of(cs, p, t).is_some() == (config_index(cs, p, t) < cs.len()),
{
    lemma_config_index_bounds(cs, p, t, 0);
}

proof fn lemma_commit_keeps_keys(cs: Seq<EntryView>, staged: Seq<EntryView>, i: int, p: Seq<char>, t: u64)
    requires
        0 <= i <= staged.len(),
        forall|j: int| i <= j < staged.len() ==> config_index(cs, #[trigger] staged[j].prefix, staged[j].data.metadata.ty) < cs.len(),
    ensures
        (config_index(commit_configs(cs, staged, i), p, t) < commit_configs(cs, staged, i).len()) == (config_index(cs, p, t) < cs.len()),
    decreases staged.len() - i,
{
    if i < staged.len() {
        let e = staged[i];
        let cs2 = merge_entry(cs, e);
        assert forall|q: Seq<char>, u: u64| (config_index(cs2, q, u) < cs2.len()) == (config_index(cs, q, u) < cs.len()) by {
            lemma_merge_entry_data(cs, e, q, u);
            lemma_has_config_data(cs, q, u);
            lemma_has_config_data(cs2, q, u);
            assert(config_index(cs, e.prefix, e.data.metadata.ty) < cs.len());
            lemma_has_config_data(cs, e.prefix, e.data.metadata.ty);
        }
        assert forall|j: int| i + 1 <= j < staged.len() implies config_index(cs2, #[trigger] staged[j].prefix, staged[j].data.metadata.ty) < cs2.len() by {
            assert(config_index(cs, staged[j].prefix, staged[j].data.metadata.ty) < cs.len());
        }
        lemma_commit_keeps_keys(cs2, staged, i + 1, p, t);
        assert((config_index(cs2, p, t) < cs2.len()) == (config_index(cs, p, t) < cs.len()));
    }
}

/// Adding an alias registers no configuration that was not registered: the prefixes and
/// types held are the same before and after.
pub proof fn lemma_push_alias_keeps_entries(
    s: SchemaView,
    prefix: Seq<char>,
    meta: &'static ConfigMetadata,
    alias: Seq<char>,
    opts: AliasOptions,
    p: Seq<char>,
    t: u64,
)
    requires
        push_alias_spec(s, prefix, meta, alias, opts) is Ok,
    ensures
        has_config(push_alias_spec(s, prefix, meta, alias, opts)->Ok_0, p, t) == has_config(s, p, t),
{
    let j = config_index(s.configs, prefix, meta.ty);
    if has_config(s, prefix, meta.ty) && !has_path(s.configs[j].data.paths, alias) {
        let e = s.configs[j];
        let staged = DataView { paths: seq![(alias, opts)], ..e.data };
        lemma_config_index_bounds(s.configs, prefix, meta.ty, 0);
        let empty = empty_view();
        assert(staged_in_base(s, empty));
        lemma_insert_tree_in_base(s, empty, prefix, staged, None);
        let patch = insert_tree(s, empty, prefix, staged, None, false)->Ok_0;
        lemma_commit_keeps_keys(s.configs, patch.configs, 0, p, t);
    }
}


// ---- the canonical prefix comes first ----

/// Every entry's first path is its prefix, not deprecated.
pub open spec fn heads_ok(cs: Seq<EntryView>) -> bool {
    forall|i: int| 0 <= i < cs.len() ==> head_ok(#[trigger] cs[i])
}

pub open spec fn head_ok(e: EntryView) -> bool {
    e.data.paths.len() > 0 && e.data.paths[0] == (e.prefix, plain())
}

/// No nested configuration below the nested configurations `k..` of `meta` has a name
/// starting with `.`.
pub open spec fn names_plain(meta: &'static ConfigMetadata, k: int) -> bool
    decreases meta, meta.nested_configs@.len() - k,
{
    if k < 0 || k >= meta.nested_configs@.len() {
        true
    } else {
        let nested = meta.nested_configs@[k];
        &&& !(nested.name@.len() > 0 && nested.name@[0] == '.')
        &&& names_plain(nested.meta, 0)
        &&& names_plain(meta, k + 1)
    }
}

proof fn lemma_child_paths_head(paths: PathsView, locals: PathsView, n: int)
    requires
        1 <= n <= paths.len(),
        child_row(paths[0].0, paths[0].1, locals, locals.len() as int).len() > 0,
    ensures
        child_paths(paths, locals, n).len() > 0,
        child_paths(paths, locals, n)[0] == child_row(paths[0].0, paths[0].1, locals, locals.len() as int)[0],
    decreases n,
{
    if n > 1 {
        lemma_child_paths_head(paths, locals, n - 1);
    } else {
        assert(child_paths(paths, locals, 0) =~= Seq::<(Seq<char>, AliasOptions)>::empty());
    }
}

proof fn lemma_child_row_head(base: Seq<char>, opts: AliasOptions, locals: PathsView, n: int)
    requires
        1 <= n <= locals.len(),
        join_path_spec(base, locals[0].0).is_some(),
    ensures
        child_row(base, opts, locals, n).len() > 0,
        child_row(base, opts, locals, n)[0] == (
            join_path_spec(base, locals[0].0).unwrap(),
            AliasOptions { is_deprecated: locals[0].1.is_deprecated || opts.is_deprecated },
        ),
    decreases n,
{
    if n > 1 {
        lemma_child_row_head(base, opts, locals, n - 1);
    } else {
        assert(child_row(base, opts, locals, 0) =~= Seq::<(Seq<char>, AliasOptions)>::empty());
    }
}

proof fn lemma_child_head(prefix: Seq<char>, data: DataView, k: int)
    requires
        0 <= k < data.metadata.nested_configs@.len(),
        data.paths.len() > 0,
        data.paths[0] == (prefix, plain()),
        !(data.metadata.nested_configs@[k].name@.len() > 0 && data.metadata.nested_configs@[k].name@[0] == '.'),
    ensures
        child_data(data, k).paths.len() > 0,
        child_data(data, k).paths[0] == (child_prefix(prefix, data, k), plain()),
{
    let nested = data.metadata.nested_configs@[k];
    let locals = child_locals(nested.name, nested.aliases, nested.tag_variant, data.coerce);
    assert(locals[0] == (nested.name@, plain()));
    assert(dots_end(nested.name@, 0) == 0);
    lemma_child_row_head(prefix, plain(), locals, locals.len() as int);
    lemma_child_paths_head(data.paths, locals, data.paths.len() as int);
}

proof fn lemma_insert_inner_heads(
    base: SchemaView,
    patch: SchemaView,
    prefix: Seq<char>,
    depth: Option<usize>,
    data: DataView,
)
    requires
        insert_inner(base, patch, prefix, depth, data) is Ok,
        heads_ok(base.configs),
        heads_ok(patch.configs),
        has_config(base, prefix, data.metadata.ty) || (data.paths.len() > 0 && data.paths[0] == (prefix, plain())),
    ensures
        heads_ok(insert_inner(base, patch, prefix, depth, data)->Ok_0.configs),
{
    let after_config = mount_config_paths(base, patch, data.metadata, config_paths(prefix, data), 0)->Ok_0;
    lemma_mount_config_paths_configs(base, patch, data.metadata, config_paths(prefix, data), 0);
    lemma_mount_params_configs(base, after_config, data, 0);
    lemma_config_index_bounds(base.configs, prefix, data.metadata.ty, 0);
    let e = EntryView { prefix, data: merged_data(base, prefix, data), depth };
    let j = config_index(base.configs, prefix, data.metadata.ty);
    if 0 <= j < base.configs.len() {
        assert(head_ok(base.configs[j]));
    }
    assert(head_ok(e));
    lemma_config_index_bounds(patch.configs, prefix, data.metadata.ty, 0);
}

proof fn lemma_insert_tree_heads(
    base: SchemaView,
    patch: SchemaView,
    prefix: Seq<char>,
    data: DataView,
    depth: Option<usize>,
    is_new: bool,
)
    requires
        insert_tree(base, patch, prefix, data, depth, is_new) is Ok,
        heads_ok(base.configs),
        heads_ok(patch.configs),
        is_new ==> data.paths.len() > 0 && data.paths[0] == (prefix, plain()),
        names_plain(data.metadata, 0),
    ensures
        heads_ok(insert_tree(base, patch, prefix, data, depth, is_new)->Ok_0.configs),
    decreases data.metadata, data.metadata.nested_configs@.len() + 1,
{
    if is_new != has_config(base, prefix, data.metadata.ty) {
        lemma_insert_inner_heads(base, patch, prefix, depth, data);
        let q = insert_inner(base, patch, prefix, depth, data)->Ok_0;
        lemma_insert_children_heads(base, q, prefix, data, child_depth(depth), is_new, 0);
    }
}

proof fn lemma_insert_children_heads(
    base: SchemaView,
    patch: SchemaView,
    prefix: Seq<char>,
    data: DataView,
    depth: Option<usize>,
    is_new: bool,
    k: int,
)
    requires
        0 <= k,
        insert_children(base, patch, prefix, data, depth, is_new, k) is Ok,
        heads_ok(base.configs),
        heads_ok(patch.configs),
        is_new ==> data.paths.len() > 0 && data.paths[0] == (prefix, plain()),
        names_plain(data.metadata, k),
    ensures
        heads_ok(insert_children(base, patch, prefix, data, depth, is_new, k)->Ok_0.configs),
    decreases data.metadata, data.metadata.nested_configs@.len() - k,
{
    if k < data.metadata.nested_configs@.len() {
        assert(decreases_to!(data.metadata => data.metadata.nested_configs@[k].meta));
        let cp = child_prefix(prefix, data, k);
        if is_new {
            lemma_child_head(prefix, data, k);
        }
        let q = insert_tree(base, patch, cp, child_data(data, k), depth, is_new)->Ok_0;
        lemma_insert_tree_heads(base, patch, cp, child_data(data, k), depth, is_new);
        lemma_insert_children_heads(base, q, prefix, data, depth, is_new, k + 1);
    }
}

proof fn lemma_commit_heads(cs: Seq<EntryView>, staged: Seq<EntryView>, i: int)
    requires
        0 <= i <= staged.len(),
        heads_ok(cs),
        heads_ok(staged),
    ensures
        heads_ok(commit_configs(cs, staged, i)),
    decreases staged.len() - i,
{
    if i < staged.len() {
        let e = staged[i];
        assert(head_ok(e));
        lemma_config_index_bounds(cs, e.prefix, e.data.metadata.ty, 0);
        let cs2 = merge_entry(cs, e);
        assert(heads_ok(cs2));
        lemma_commit_heads(cs2, staged, i + 1);
    }
}

/// A successful insertion keeps every entry's first path equal to its prefix, provided no
/// nested configuration below the inserted one has a name starting with `.`.
pub proof fn lemma_insert_keeps_heads(s: SchemaView, meta: &'static ConfigMetadata, prefix: Seq<char>)
    requires
        heads_ok(s.configs),
        names_plain(meta, 0),
        insert_spec(s, meta, prefix) is Ok,
    ensures
        heads_ok(insert_spec(s, meta, prefix)->Ok_0.configs),
{
    let empty = empty_view();
    assert(heads_ok(empty.configs));
    let data = top_data(meta, prefix, s.coerce);
    lemma_insert_tree_heads(s, empty, prefix, data, Some(0), true);
    let patch = insert_tree(s, empty, prefix, data, Some(0), true)->Ok_0;
    lemma_commit_heads(s.configs, patch.configs, 0);
}

/// A successful alias addition keeps every entry's first path equal to its prefix.
pub proof fn lemma_push_alias_keeps_heads(
    s: SchemaView,
    prefix: Seq<char>,
    meta: &'static ConfigMetadata,
    alias: Seq<char>,
    opts: AliasOptions,
)
    requires
        heads_ok(s.configs),
        push_alias_spec(s, prefix, meta, alias, opts) is Ok,
    ensures
        heads_ok(push_alias_spec(s, prefix, meta, alias, opts)->Ok_0.configs),
{
    let j = config_index(s.configs, prefix, meta.ty);
    if has_config(s, prefix, meta.ty) && !has_path(s.configs[j].data.paths, alias) {
        let e = s.configs[j];
        let staged = DataView { paths: seq![(alias, opts)], ..e.data };
        lemma_config_index_bounds(s.configs, prefix, meta.ty, 0);
        let empty = empty_view();
        assert(heads_ok(empty.configs));
        lemma_insert_tree_heads_update(s, empty, prefix, staged, None);
        let patch = insert_tree(s, empty, prefix, staged, None, false)->Ok_0;
        lemma_commit_heads(s.configs, patch.configs, 0);
    }
}

/// Updates (adding an alias) keep first paths whatever the nested names are.
proof fn lemma_insert_tree_heads_update(
    base: SchemaView,
    patch: SchemaView,
    prefix: Seq<char>,
    data: DataView,
    depth: Option<usize>,
)
    requires
        insert_tree(base, patch, prefix, data, depth, false) is Ok,
        heads_ok(base.configs),
        heads_ok(patch.configs),
    ensures
        heads_ok(insert_tree(base, patch, prefix, data, depth, false)->Ok_0.configs),
    decreases data.metadata, data.metadata.nested_configs@.len() + 1,
{
    if has_config(base, prefix, data.metadata.ty) {
        lemma_insert_inner_heads(base, patch, prefix, depth, data);
        let q = insert_inner(base, patch, prefix, depth, data)->Ok_0;
        lemma_insert_children_heads_update(base, q, prefix, data, child_depth(depth), 0);
    }
}

proof fn lemma_insert_children_heads_update(
    base: SchemaView,
    patch: SchemaView,
    prefix: Seq<char>,
    data: DataView,
    depth: Option<usize>,
    k: int,
)
    requires
        0 <= k,
        insert_children(base, patch, prefix, data, depth, false, k) is Ok,
        heads_ok(base.configs),
        heads_ok(patch.configs),
    ensures
        heads_ok(insert_children(base, patch, prefix, data, depth, false, k)->Ok_0.configs),
    decreases data.metadata, data.metadata.nested_configs@.len() - k,
{
    if k < data.metadata.nested_configs@.len() {
        assert(decreases_to!(data.metadata => data.metadata.nested_configs@[k].meta));
        let cp = child_prefix(prefix, data, k);
        let q = insert_tree(base, patch, cp, child_data(data, k), depth, false)->Ok_0;
        lemma_insert_tree_heads_update(base, patch, cp, child_data(data, k), depth);
        lemma_insert_children_heads_update(base, q, prefix, data, depth, k + 1);
    }
}

/// With first paths in place, adding a configuration's own prefix as an alias changes nothing.
pub proof fn lemma_push_prefix_alias_noop(
    s: SchemaView,
    prefix: Seq<char>,
    meta: &'static ConfigMetadata,
    opts: AliasOptions,
)
    requires
        heads_ok(s.configs),
        has_config(s, prefix, meta.ty),
    ensures
        push_alias_spec(s, prefix, meta, prefix, opts) == Ok::<SchemaView, SchemaErrorView>(s),
{
    let j = config_index(s.configs, prefix, meta.ty);
    lemma_config_index_bounds(s.configs, prefix, meta.ty, 0);
    assert(head_ok(s.configs[j]));
    assert(s.configs[j].data.paths[0].0 == prefix);
    assert(has_path(s.configs[j].data.paths, prefix));
}

// ---- parent links name this configuration ----

/// Merging an entry whose link is in order keeps all links in order.
pub proof fn lemma_merge_entry_links(cs: Seq<EntryView>, e: EntryView)
    requires
        links_ok(cs),
        data_link_ok(e.data),
    ensures
        links_ok(merge_entry(cs, e)),
{
    let j = config_index(cs, e.prefix, e.data.metadata.ty);
    lemma_config_index_bounds(cs, e.prefix, e.data.metadata.ty, 0);
    let ns = merge_entry(cs, e);
    assert forall|i: int| 0 <= i < ns.len() implies data_link_ok(#[trigger] ns[i].data) by {
        if i < cs.len() && i != j {
            assert(ns[i] == cs[i]);
        }
    }
}

proof fn lemma_insert_inner_links(
    base: SchemaView,
    patch: SchemaView,
    prefix: Seq<char>,
    depth: Option<usize>,
    data: DataView,
)
    requires
        insert_inner(base, patch, prefix, depth, data) is Ok,
        links_ok(patch.configs),
        data_link_ok(data),
    ensures
        links_ok(insert_inner(base, patch, prefix, depth, data)->Ok_0.configs),
{
    let after_config = mount_config_paths(base, patch, data.metadata, config_paths(prefix, data), 0)->Ok_0;
    lemma_mount_config_paths_configs(base, patch, data.metadata, config_paths(prefix, data), 0);
    lemma_mount_params_configs(base, after_config, data, 0);
    let cs = patch.configs;
    let e = EntryView { prefix, data: merged_data(base, prefix, data), depth };
    assert(data_link_ok(e.data));
    lemma_config_index_bounds(cs, prefix, data.metadata.ty, 0);
    let ns = set_config(cs, e);
    let j = config_index(cs, prefix, data.metadata.ty);
    assert forall|i: int| 0 <= i < ns.len() implies data_link_ok(#[trigger] ns[i].data) by {
        if i < cs.len() && i != j {
            assert(ns[i] == cs[i]);
        }
    }
}

/// Staging keeps every staged link in order when the incoming data's link is.
pub proof fn lemma_insert_tree_links(
    base: SchemaView,
    patch: SchemaView,
    prefix: Seq<char>,
    data: DataView,
    depth: Option<usize>,
    is_new: bool,
)
    requires
        insert_tree(base, patch, prefix, data, depth, is_new) is Ok,
        links_ok(patch.configs),
        data_link_ok(data),
    ensures
        links_ok(insert_tree(base, patch, prefix, data, depth, is_new)->Ok_0.configs),
    decreases data.metadata, data.metadata.nested_configs@.len() + 1,
{
    if is_new != has_config(base, prefix, data.metadata.ty) {
        lemma_insert_inner_links(base, patch, prefix, depth, data);
        let q = insert_inner(base, patch, prefix, depth, data)->Ok_0;
        lemma_insert_children_links(base, q, prefix, data, child_depth(depth), is_new, 0);
    }
}

proof fn lemma_insert_children_links(
    base: SchemaView,
    patch: SchemaView,
    prefix: Seq<char>,
    data: DataView,
    depth: Option<usize>,
    is_new: bool,
    k: int,
)
    requires
        0 <= k,
        insert_children(base, patch, prefix, data, depth, is_new, k) is Ok,
        links_ok(patch.configs),
    ensures
        links_ok(insert_children(base, patch, prefix, data, depth, is_new, k)->Ok_0.configs),
    decreases data.metadata, data.metadata.nested_configs@.len() - k,
{
    if k < data.metadata.nested_configs@.len() {
        assert(decreases_to!(data.metadata => data.metadata.nested_configs@[k].meta));
        let cp = child_prefix(prefix, data, k);
        assert(data.metadata.nested_configs@.len() == data.metadata.nested_configs.len());
        assert((k as usize) as int == k);
        assert(data_link_ok(child_data(data, k)));
        let q = insert_tree(base, patch, cp, child_data(data, k), depth, is_new)->Ok_0;
        lemma_insert_tree_links(base, patch, cp, child_data(data, k), depth, is_new);
        lemma_insert_children_links(base, q, prefix, data, depth, is_new, k + 1);
    }
}


// ---- every parent a link names is registered ----

/// The parent that entry `e`'s link names is registered in `s1` or `s2`.
pub open spec fn entry_parent_ok(s1: SchemaView, s2: SchemaView, e: EntryView) -> bool {
    match e.data.parent_link {
        Some(l) => match link_parent_prefix(e.prefix, l) {
            Some(pp) => has_config(s1, pp, l.parent_ty) || has_config(s2, pp, l.parent_ty),
            None => false,
        },
        None => true,
    }
}

/// Every parent that a link of `s` names is registered in `s`.
pub open spec fn parents_ok(s: SchemaView) -> bool {
    forall|i: int| 0 <= i < s.configs.len() ==> entry_parent_ok(s, s, #[trigger] s.configs[i])
}

pub open spec fn staged_parents_ok(base: SchemaView, patch: SchemaView) -> bool {
    forall|i: int| 0 <= i < patch.configs.len() ==> entry_parent_ok(base, patch, #[trigger] patch.configs[i])
}

/// No nested configuration below the nested configurations `k..` of `meta` has a dot in its
/// name.
pub open spec fn names_simple(meta: &'static ConfigMetadata, k: int) -> bool
    decreases meta, meta.nested_configs@.len() - k,
{
    if k < 0 || k >= meta.nested_configs@.len() {
        true
    } else {
        let nested = meta.nested_configs@[k];
        &&& forall|c: int| 0 <= c < nested.name@.len() ==> #[trigger] nested.name@[c] != '.'
        &&& names_simple(nested.meta, 0)
        &&& names_simple(meta, k + 1)
    }
}

proof fn lemma_last_dot_scan(q: Seq<char>, i: int, d: int)
    requires
        -1 <= d < i <= q.len(),
        d >= 0 ==> q[d] == '.',
        forall|c: int| d < c < i ==> q[c] != '.',
    ensures
        last_dot_before(q, i) == d,
    decreases i,
{
    if i - 1 > d {
        lemma_last_dot_scan(q, i - 1, d);
    }
}

proof fn lemma_parent_of_join(p: Seq<char>, name: Seq<char>)
    requires
        name.len() > 0,
        forall|c: int| 0 <= c < name.len() ==> name[c] != '.',
    ensures
        parent_spec(join_spec(p, name)) == Some(p),
{
    let q = join_spec(p, name);
    if p.len() == 0 {
        lemma_last_dot_scan(q, q.len() as int, -1);
        assert(p =~= Seq::<char>::empty());
    } else {
        assert forall|c: int| p.len() < c < q.len() implies q[c] != '.' by {
            assert(q[c] == name[c - p.len() - 1]);
        }
        lemma_last_dot_scan(q, q.len() as int, p.len() as int);
        assert(q.take(p.len() as int) =~= p);
    }
}

proof fn lemma_has_config_set(cs: Seq<EntryView>, e: EntryView, p: Seq<char>, t: u64)
    ensures
        config_index(cs, p, t) < cs.len() ==> config_index(set_config(cs, e), p, t) < set_config(cs, e).len(),
        config_index(set_config(cs, e), e.prefix, e.data.metadata.ty) < set_config(cs, e).len(),
{
    lemma_set_config_data(cs, e, p, t);
    lemma_set_config_data(cs, e, e.prefix, e.data.metadata.ty);
    lemma_has_config_data(cs, p, t);
    lemma_has_config_data(set_config(cs, e), p, t);
    lemma_has_config_data(set_config(cs, e), e.prefix, e.data.metadata.ty);
}

proof fn lemma_insert_inner_parents(
    base: SchemaView,
    patch: SchemaView,
    prefix: Seq<char>,
    depth: Option<usize>,
    data: DataView,
)
    requires
        insert_inner(base, patch, prefix, depth, data) is Ok,
        staged_parents_ok(base, patch),
        entry_parent_ok(base, patch, EntryView { prefix, data, depth }),
    ensures
        staged_parents_ok(base, insert_inner(base, patch, prefix, depth, data)->Ok_0),
        has_config(insert_inner(base, patch, prefix, depth, data)->Ok_0, prefix, data.metadata.ty),
        forall|p: Seq<char>, t: u64| #[trigger] has_config(patch, p, t) ==> has_config(insert_inner(base, patch, prefix, depth, data)->Ok_0, p, t),
{
    let after_config = mount_config_paths(base, patch, data.metadata, config_paths(prefix, data), 0)->Ok_0;
    lemma_mount_config_paths_configs(base, patch, data.metadata, config_paths(prefix, data), 0);
    lemma_mount_params_configs(base, after_config, data, 0);
    let cs = patch.configs;
    let e = EntryView { prefix, data: merged_data(base, prefix, data), depth };
    let ns = set_config(cs, e);
    let j = config_index(cs, prefix, data.metadata.ty);
    lemma_config_index_bounds(cs, prefix, data.metadata.ty, 0);
    lemma_has_config_set(cs, e, prefix, data.metadata.ty);
    assert forall|p: Seq<char>, t: u64| #[trigger] has_config(patch, p, t) implies config_index(ns, p, t) < ns.len() by {
        lemma_has_config_set(cs, e, p, t);
    }
    let q = insert_inner(base, patch, prefix, depth, data)->Ok_0;
    assert(q.configs == ns);
    assert forall|i: int| 0 <= i < ns.len() implies entry_parent_ok(base, q, #[trigger] ns[i]) by {
        if i < cs.len() && i != j {
            assert(ns[i] == cs[i]);
            assert(entry_parent_ok(base, patch, cs[i]));
        } else {
            assert(ns[i] == e);
        }
    }
}

proof fn lemma_insert_tree_parents(
    base: SchemaView,
    patch: SchemaView,
    prefix: Seq<char>,
    data: DataView,
    depth: Option<usize>,
    is_new: bool,
)
    requires
        insert_tree(base, patch, prefix, data, depth, is_new) is Ok,
        staged_parents_ok(base, patch),
        entry_parent_ok(base, patch, EntryView { prefix, data, depth }),
        names_simple(data.metadata, 0),
    ensures
        staged_parents_ok(base, insert_tree(base, patch, prefix, data, depth, is_new)->Ok_0),
        forall|p: Seq<char>, t: u64| #[trigger] has_config(patch, p, t) ==> has_config(insert_tree(base, patch, prefix, data, depth, is_new)->Ok_0, p, t),
    decreases data.metadata, data.metadata.nested_configs@.len() + 1,
{
    if is_new != has_config(base, prefix, data.metadata.ty) {
        lemma_insert_inner_parents(base, patch, prefix, depth, data);
        let q = insert_inner(base, patch, prefix, depth, data)->Ok_0;
        lemma_insert_children_parents(base, q, prefix, data, child_depth(depth), is_new, 0);
    }
}

proof fn lemma_insert_children_parents(
    base: SchemaView,
    patch: SchemaView,
    prefix: Seq<char>,
    data: DataView,
    depth: Option<usize>,
    is_new: bool,
    k: int,
)
    requires
        0 <= k,
        insert_children(base, patch, prefix, data, depth, is_new, k) is Ok,
        staged_parents_ok(base, patch),
        has_config(patch, prefix, data.metadata.ty),
        names_simple(data.metadata, k),
    ensures
        staged_parents_ok(base, insert_children(base, patch, prefix, data, depth, is_new, k)->Ok_0),
        forall|p: Seq<char>, t: u64| #[trigger] has_config(patch, p, t) ==> has_config(insert_children(base, patch, prefix, data, depth, is_new, k)->Ok_0, p, t),
    decreases data.metadata, data.metadata.nested_configs@.len() - k,
{
    if k < data.metadata.nested_configs@.len() {
        assert(decreases_to!(data.metadata => data.metadata.nested_configs@[k].meta));
        let nested = data.metadata.nested_configs@[k];
        let cp = child_prefix(prefix, data, k);
        let cd = child_data(data, k);
        assert(data.metadata.nested_configs@.len() == data.metadata.nested_configs.len());
        assert((k as usize) as int == k);
        if nested.name@.len() > 0 {
            lemma_parent_of_join(prefix, nested.name@);
        } else {
            assert(cp == prefix);
        }
        assert(link_parent_prefix(cp, cd.parent_link.unwrap()) == Some(prefix));
        assert(entry_parent_ok(base, patch, EntryView { prefix: cp, data: cd, depth }));
        let q = insert_tree(base, patch, cp, cd, depth, is_new)->Ok_0;
        lemma_insert_tree_parents(base, patch, cp, cd, depth, is_new);
        lemma_insert_children_parents(base, q, prefix, data, depth, is_new, k + 1);
    }
}

/// Entries of a committed schema come from the base or from the staged entries, with the
/// same prefix and data; and keys of either are registered afterwards.
proof fn lemma_commit_entries(cs: Seq<EntryView>, staged: Seq<EntryView>, i: int)
    requires
        0 <= i <= staged.len(),
    ensures
        forall|x: int| 0 <= x < commit_configs(cs, staged, i).len() ==> {
            ||| exists|b: int| 0 <= b < cs.len() && cs[b].prefix == (#[trigger] commit_configs(cs, staged, i)[x]).prefix
                && cs[b].data == commit_configs(cs, staged, i)[x].data
            ||| exists|j: int| i <= j < staged.len() && staged[j].prefix == commit_configs(cs, staged, i)[x].prefix
                && staged[j].data == commit_configs(cs, staged, i)[x].data
        },
        forall|p: Seq<char>, t: u64| config_index(cs, p, t) < cs.len() ==> config_index(commit_configs(cs, staged, i), p, t) < #[trigger] commit_configs(cs, staged, i).len() && #[trigger] config_index(cs, p, t) == config_index(cs, p, t),
        forall|j: int| i <= j < staged.len() ==> config_index(commit_configs(cs, staged, i), #[trigger] staged[j].prefix, staged[j].data.metadata.ty) < commit_configs(cs, staged, i).len(),
    decreases staged.len() - i,
{
    if i < staged.len() {
        let e = staged[i];
        let cs2 = merge_entry(cs, e);
        lemma_commit_entries(cs2, staged, i + 1);
        let r = commit_configs(cs, staged, i);
        let jj = config_index(cs, e.prefix, e.data.metadata.ty);
        lemma_config_index_bounds(cs, e.prefix, e.data.metadata.ty, 0);
        assert forall|y: int| 0 <= y < cs2.len() implies {
            ||| exists|b: int| 0 <= b < cs.len() && cs[b].prefix == (#[trigger] cs2[y]).prefix && cs[b].data == cs2[y].data
            ||| (e.prefix == cs2[y].prefix && e.data == cs2[y].data)
        } by {
            if y < cs.len() && y != jj {
                assert(cs2[y] == cs[y]);
            }
        }
        assert forall|x: int| 0 <= x < r.len() implies {
            ||| exists|b: int| 0 <= b < cs.len() && cs[b].prefix == (#[trigger] r[x]).prefix && cs[b].data == r[x].data
            ||| exists|j: int| i <= j < staged.len() && staged[j].prefix == r[x].prefix && staged[j].data == r[x].data
        } by {
            let r2 = commit_configs(cs2, staged, i + 1);
            assert(r == r2);
            let rx = r2[x];
            if exists|j: int| i + 1 <= j < staged.len() && staged[j].prefix == rx.prefix && staged[j].data == rx.data {
                let j = choose|j: int| i + 1 <= j < staged.len() && staged[j].prefix == rx.prefix && staged[j].data == rx.data;
                assert(i <= j);
            } else {
                let y = choose|y: int| 0 <= y < cs2.len() && cs2[y].prefix == rx.prefix && cs2[y].data == rx.data;
                let cy = cs2[y];
                if e.prefix == cy.prefix && e.data == cy.data {
                    assert(staged[i] == e);
                } else {
                    let b = choose|b: int| 0 <= b < cs.len() && cs[b].prefix == cy.prefix && cs[b].data == cy.data;
                    assert(cs[b].prefix == r[x].prefix && cs[b].data == r[x].data);
                }
            }
        }
        assert forall|p: Seq<char>, t: u64| config_index(cs, p, t) < cs.len() implies config_index(cs2, p, t) < cs2.len() by {
            lemma_merge_entry_data(cs, e, p, t);
            lemma_has_config_data(cs, p, t);
            lemma_has_config_data(cs2, p, t);
        }
        lemma_merge_entry_data(cs, e, e.prefix, e.data.metadata.ty);
        lemma_has_config_data(cs2, e.prefix, e.data.metadata.ty);
        assert(config_index(cs2, e.prefix, e.data.metadata.ty) < cs2.len());
    }
}

proof fn lemma_commit_parents(base: SchemaView, patch: SchemaView)
    requires
        parents_ok(base),
        staged_parents_ok(base, patch),
    ensures
        parents_ok(commit_spec(base, patch)),
{
    let r = commit_spec(base, patch);
    lemma_commit_entries(base.configs, patch.configs, 0);
    assert forall|p: Seq<char>, t: u64| has_config(base, p, t) implies has_config(r, p, t) by {
        assert(config_index(base.configs, p, t) == config_index(base.configs, p, t));
    }
    assert forall|p: Seq<char>, t: u64| has_config(patch, p, t) implies has_config(r, p, t) by {
        lemma_config_index_bounds(patch.configs, p, t, 0);
        let j = config_index(patch.configs, p, t);
        assert(patch.configs[j].prefix == p);
    }
    assert forall|x: int| 0 <= x < r.configs.len() implies entry_parent_ok(r, r, #[trigger] r.configs[x]) by {
        let rx = r.configs[x];
        if exists|b: int| 0 <= b < base.configs.len() && base.configs[b].prefix == rx.prefix && base.configs[b].data == rx.data {
            let b = choose|b: int| 0 <= b < base.configs.len() && base.configs[b].prefix == rx.prefix && base.configs[b].data == rx.data;
            assert(entry_parent_ok(base, base, base.configs[b]));
        } else {
            let j = choose|j: int| 0 <= j < patch.configs.len() && patch.configs[j].prefix == rx.prefix && patch.configs[j].data == rx.data;
            assert(entry_parent_ok(base, patch, patch.configs[j]));
        }
    }
}

/// A successful insertion keeps every parent that a link names registered, provided no
/// nested configuration below the inserted one has a dot in its name.
pub proof fn lemma_insert_keeps_parents(s: SchemaView, meta: &'static ConfigMetadata, prefix: Seq<char>)
    requires
        parents_ok(s),
        names_simple(meta, 0),
        insert_spec(s, meta, prefix) is Ok,
    ensures
        parents_ok(insert_spec(s, meta, prefix)->Ok_0),
{
    let empty = empty_view();
    assert(staged_parents_ok(s, empty));
    let data = top_data(meta, prefix, s.coerce);
    lemma_insert_tree_parents(s, empty, prefix, data, Some(0), true);
    let patch = insert_tree(s, empty, prefix, data, Some(0), true)->Ok_0;
    lemma_commit_parents(s, patch);
}

/// A successful alias addition keeps every parent that a link names registered, provided no
/// nested configuration below the configuration has a dot in its name.
pub proof fn lemma_push_alias_keeps_parents(
    s: SchemaView,
    prefix: Seq<char>,
    meta: &'static ConfigMetadata,
    alias: Seq<char>,
    opts: AliasOptions,
)
    requires
        parents_ok(s),
        has_config(s, prefix, meta.ty),
        names_simple(s.configs[config_index(s.configs, prefix, meta.ty)].data.metadata, 0),
        push_alias_spec(s, prefix, meta, alias, opts) is Ok,
    ensures
        parents_ok(push_alias_spec(s, prefix, meta, alias, opts)->Ok_0),
{
    let j = config_index(s.configs, prefix, meta.ty);
    lemma_config_index_bounds(s.configs, prefix, meta.ty, 0);
    if !has_path(s.configs[j].data.paths, alias) {
        let e = s.configs[j];
        let staged = DataView { paths: seq![(alias, opts)], ..e.data };
        let empty = empty_view();
        assert(staged_parents_ok(s, empty));
        assert(entry_parent_ok(s, s, e));
        assert(entry_parent_ok(s, empty, EntryView { prefix, data: staged, depth: None }));
        lemma_insert_tree_parents(s, empty, prefix, staged, None, false);
        let patch = insert_tree(s, empty, prefix, staged, None, false)->Ok_0;
        lemma_commit_parents(s, patch);
    }
}

} // verus!
