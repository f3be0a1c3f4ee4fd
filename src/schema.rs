//! Configuration schema: configuration types mounted at path prefixes.

use vstd::prelude::*;

use crate::metadata::{
    AliasOptions, BasicTypes, ConfigMetadata, NestedConfigMetadata, ParamMetadata, ARRAY_BIT, BOOL_BIT, FLOAT_BIT,
    INTEGER_BIT, OBJECT_BIT, STRING_BIT,
};
use crate::paths::{lemma_paths_view_push, plain};
use crate::guarantees::{
    entry_parent_ok, parents_ok,
    lemma_insert_tree_links, lemma_merge_entry_data, lemma_merge_entry_links, lemma_push_alias_keeps_entries,
};
use crate::mount::{
    get_mount, lemma_mount_index_absent, lemma_mount_index_bounds, lemma_set_mount_at, lemma_set_mount_unique,
    mount_at, mount_index_from, mounts_view, put_mount, set_mount, unique_keys, MountingPoint, MountsView,
};
use crate::path::{join, join_spec, owned};
use crate::paths::{all_paths_for_child, paths_for_child, paths_view, PathsView};

verus! {

/// Link from a nested configuration to the configuration that holds it.
#[derive(Debug, Clone, Copy)]
pub struct ParentLink {
    pub parent_ty: u64,
    /// Index of this configuration among the parent's nested configurations.
    pub this_index: usize,
    /// Metadata of the parent configuration type.
    pub parent_meta: &'static ConfigMetadata,
}

/// A parent link, if any, names a nested configuration of the parent's metadata whose
/// metadata is this configuration's.
pub open spec fn data_link_ok(d: DataView) -> bool {
    match d.parent_link {
        Some(l) => l.parent_meta.ty == l.parent_ty && l.this_index < l.parent_meta.nested_configs@.len()
            && l.parent_meta.nested_configs@[l.this_index as int].meta == d.metadata,
        None => true,
    }
}

pub open spec fn links_ok(cs: Seq<EntryView>) -> bool {
    forall|i: int| 0 <= i < cs.len() ==> data_link_ok(#[trigger] cs[i].data)
}

/// One registration of a configuration type at a prefix.
#[derive(Debug)]
pub struct ConfigData {
    pub metadata: &'static ConfigMetadata,
    pub parent_link: Option<ParentLink>,
    pub is_top_level: bool,
    pub coerce_serde_enums: bool,
    /// Paths of the configuration in priority order: the canonical one first, then aliases.
    pub all_paths: Vec<(String, AliasOptions)>,
}

pub struct DataView {
    pub metadata: &'static ConfigMetadata,
    pub parent_link: Option<ParentLink>,
    pub is_top_level: bool,
    pub coerce: bool,
    pub paths: PathsView,
}

impl View for ConfigData {
    type V = DataView;

    open spec fn view(&self) -> DataView {
        DataView {
            metadata: self.metadata,
            parent_link: self.parent_link,
            is_top_level: self.is_top_level,
            coerce: self.coerce_serde_enums,
            paths: paths_view(self.all_paths@),
        }
    }
}

/// A registered configuration: its canonical prefix, its data and its depth below the
/// top-level configuration that brought it in.
#[derive(Debug)]
pub struct ConfigEntry {
    pub prefix: String,
    pub data: ConfigData,
    pub depth: Option<usize>,
}

pub struct EntryView {
    pub prefix: Seq<char>,
    pub data: DataView,
    pub depth: Option<usize>,
}

impl View for ConfigEntry {
    type V = EntryView;

    open spec fn view(&self) -> EntryView {
        EntryView { prefix: self.prefix@, data: self.data@, depth: self.depth }
    }
}

/// Why a schema operation failed.
#[derive(Debug)]
pub enum SchemaError {
    /// A configuration would be mounted where parameters are mounted.
    ConfigAtParam { config: &'static ConfigMetadata, path: String },
    /// The parameter with index `param` would be mounted where configurations are mounted.
    ParamAtConfig { config: &'static ConfigMetadata, param: usize, path: String },
    /// The parameter with index `param` expects other types than those mounted at the path.
    TypeMismatch {
        config: &'static ConfigMetadata,
        param: usize,
        path: String,
        existing: BasicTypes,
    },
    /// The configuration is not registered.
    NotRegistered { config: &'static ConfigMetadata },
    /// The configuration is registered at two or more prefixes.
    MultipleLocations { config: &'static ConfigMetadata, first: String, second: String },
}

pub enum SchemaErrorView {
    ConfigAtParam { config: &'static ConfigMetadata, path: Seq<char> },
    ParamAtConfig { config: &'static ConfigMetadata, param: int, path: Seq<char> },
    TypeMismatch {
        config: &'static ConfigMetadata,
        param: int,
        path: Seq<char>,
        existing: BasicTypes,
    },
    NotRegistered { config: &'static ConfigMetadata },
    MultipleLocations { config: &'static ConfigMetadata, first: Seq<char>, second: Seq<char> },
}

impl View for SchemaError {
    type V = SchemaErrorView;

    open spec fn view(&self) -> SchemaErrorView {
        match self {
            SchemaError::ConfigAtParam { config, path } => SchemaErrorView::ConfigAtParam {
                config: *config,
                path: path@,
            },
            SchemaError::ParamAtConfig { config, param, path } => SchemaErrorView::ParamAtConfig {
                config: *config,
                param: *param as int,
                path: path@,
            },
            SchemaError::TypeMismatch { config, param, path, existing } =>
                SchemaErrorView::TypeMismatch {
                config: *config,
                param: *param as int,
                path: path@,
                existing: *existing,
            },
            SchemaError::NotRegistered { config } => SchemaErrorView::NotRegistered {
                config: *config,
            },
            SchemaError::MultipleLocations { config, first, second } =>
                SchemaErrorView::MultipleLocations { config: *config, first: first@, second: second@ },
        }
    }
}

pub open spec fn kind_text(types: BasicTypes, bit: u8, name: Seq<char>) -> Seq<char> {
    if types.bits & bit != 0 {
        " "@ + name
    } else {
        Seq::empty()
    }
}

/// The kinds in a type set, each preceded by a space.
pub open spec fn types_text(t: BasicTypes) -> Seq<char> {
    kind_text(t, STRING_BIT, "string"@) + kind_text(t, INTEGER_BIT, "integer"@) + kind_text(t, FLOAT_BIT, "float"@)
        + kind_text(t, BOOL_BIT, "boolean"@) + kind_text(t, ARRAY_BIT, "array"@) + kind_text(t, OBJECT_BIT, "object"@)
}

fn push_kind(out: &mut String, types: BasicTypes, bit: u8, name: &str)
    ensures
        final(out)@ == old(out)@ + kind_text(types, bit, name@),
{
    if types.bits & bit != 0 {
        out.append(" ");
        out.append(name);
    }
}

fn append_types(out: &mut String, t: BasicTypes)
    ensures
        final(out)@ == old(out)@ + types_text(t),
{
    push_kind(out, t, STRING_BIT, "string");
    push_kind(out, t, INTEGER_BIT, "integer");
    push_kind(out, t, FLOAT_BIT, "float");
    push_kind(out, t, BOOL_BIT, "boolean");
    push_kind(out, t, ARRAY_BIT, "array");
    push_kind(out, t, OBJECT_BIT, "object");
    proof {
        assert(final(out)@ =~= old(out)@ + types_text(t));
    }
}

/// Names of parameter `param` of `config` in messages: its name and its field.
pub open spec fn param_names(config: &'static ConfigMetadata, param: usize) -> Seq<char> {
    if param < config.params@.len() {
        "`"@ + config.params@[param as int].name@ + "` [Rust field: `"@ + config.params@[param as int].rust_field_name@
            + "`]"@
    } else {
        "#"@
    }
}

/// Message of a schema error.
pub open spec fn schema_error_text(e: SchemaError) -> Seq<char> {
    match e {
        SchemaError::ConfigAtParam { config, path } => "Cannot mount config `"@ + config.name@ + "` at `"@ + path@
            + "` because parameter(s) are already mounted at this path"@,
        SchemaError::ParamAtConfig { config, param, path } => "Cannot insert param "@ + param_names(config, param)
            + " from config `"@ + config.name@ + "` at `"@ + path@ + "`: config(s) are already mounted at this path"@,
        SchemaError::TypeMismatch { config, param, path, existing } => "Cannot insert param "@ + param_names(
            config,
            param,
        ) + " from config `"@ + config.name@ + "` at `"@ + path@ + "`: it expects"@ + (if param
            < config.params@.len() {
            types_text(config.params@[param as int].expecting)
        } else {
            Seq::empty()
        }) + ", while the existing param(s) mounted at this path expect"@ + types_text(existing),
        SchemaError::NotRegistered { config } => "configuration `"@ + config.name@ + "` is not registered in schema"@,
        SchemaError::MultipleLocations { config, first, second } => "configuration `"@ + config.name@
            + "` is registered in at least 2 locations: \""@ + first@ + "\", \""@ + second@ + "\""@,
    }
}

fn append_param_names(out: &mut String, config: &'static ConfigMetadata, param: usize)
    ensures
        final(out)@ == old(out)@ + param_names(config, param),
{
    if param < config.params.len() {
        out.append("`");
        out.append(config.params[param].name);
        out.append("` [Rust field: `");
        out.append(config.params[param].rust_field_name);
        out.append("`]");
    } else {
        out.append("#");
    }
    proof {
        assert(final(out)@ =~= old(out)@ + param_names(config, param));
    }
}

impl SchemaError {
    /// Human-readable description of the error (see [`schema_error_text`]).
    pub fn to_string(&self) -> (r: String)
        ensures
            r@ == schema_error_text(*self),
    {
        let mut r = String::new();
        match self {
            SchemaError::ConfigAtParam { config, path } => {
                r.append("Cannot mount config `");
                r.append(config.name);
                r.append("` at `");
                r.append(path.as_str());
                r.append("` because parameter(s) are already mounted at this path");
            },
            SchemaError::ParamAtConfig { config, param, path } => {
                r.append("Cannot insert param ");
                append_param_names(&mut r, config, *param);
                r.append(" from config `");
                r.append(config.name);
                r.append("` at `");
                r.append(path.as_str());
                r.append("`: config(s) are already mounted at this path");
            },
            SchemaError::TypeMismatch { config, param, path, existing } => {
                r.append("Cannot insert param ");
                append_param_names(&mut r, config, *param);
                r.append(" from config `");
                r.append(config.name);
                r.append("` at `");
                r.append(path.as_str());
                r.append("`: it expects");
                if *param < config.params.len() {
                    append_types(&mut r, config.params[*param].expecting);
                }
                r.append(", while the existing param(s) mounted at this path expect");
                append_types(&mut r, *existing);
            },
            SchemaError::NotRegistered { config } => {
                r.append("configuration `");
                r.append(config.name);
                r.append("` is not registered in schema");
            },
            SchemaError::MultipleLocations { config, first, second } => {
                r.append("configuration `");
                r.append(config.name);
                r.append("` is registered in at least 2 locations: \"");
                r.append(first.as_str());
                r.append("\", \"");
                r.append(second.as_str());
                r.append("\"");
            },
        }
        proof {
            assert(r@ =~= schema_error_text(*self));
        }
        r
    }
}

/// Schema for configuration: configuration types bound to prefixes, and the index of what is
/// mounted at each absolute path.
#[derive(Debug)]
pub struct ConfigSchema {
    configs: Vec<ConfigEntry>,
    mounting_points: Vec<(String, MountingPoint)>,
    coerce_serde_enums: bool,
}

pub struct SchemaView {
    pub configs: Seq<EntryView>,
    pub mounts: MountsView,
    pub coerce: bool,
}

impl View for ConfigSchema {
    type V = SchemaView;

    closed spec fn view(&self) -> SchemaView {
        SchemaView {
            configs: self.configs@.map_values(|e: ConfigEntry| e@),
            mounts: mounts_view(self.mounting_points@),
            coerce: self.coerce_serde_enums,
        }
    }
}

impl ConfigSchema {
    /// Each configuration type is registered at most once per prefix, each path has one
    /// mounting point, and each parent link names a nested configuration of this entry's
    /// metadata.
    #[verifier::type_invariant]
    spec fn well_formed(self) -> bool {
        unique_configs(self@.configs) && unique_keys(self@.mounts) && links_ok(self@.configs)
    }
}

/// No two entries share a prefix and a type.
pub open spec fn unique_configs(cs: Seq<EntryView>) -> bool {
    forall|i: int, j: int|
        0 <= i < j < cs.len() ==> !(cs[i].prefix == cs[j].prefix && cs[i].data.metadata.ty == cs[j].data.metadata.ty)
}

/// Configurations and mounting points staged against a schema, not yet committed.
struct Patch {
    configs: Vec<ConfigEntry>,
    mounting_points: Vec<(String, MountingPoint)>,
}

impl View for Patch {
    type V = SchemaView;

    closed spec fn view(&self) -> SchemaView {
        SchemaView {
            configs: self.configs@.map_values(|e: ConfigEntry| e@),
            mounts: mounts_view(self.mounting_points@),
            coerce: false,
        }
    }
}

impl Patch {
    fn new() -> (r: Self)
        ensures
            r@ == empty_view(),
    {
        let r = Patch { configs: Vec::new(), mounting_points: Vec::new() };
        proof {
            assert(r@.configs =~= Seq::<EntryView>::empty());
            assert(r@.mounts =~= Seq::<(Seq<char>, MountingPoint)>::empty());
        }
        r
    }
}

pub open spec fn empty_view() -> SchemaView {
    SchemaView { configs: Seq::empty(), mounts: Seq::empty(), coerce: false }
}

// ---- lookups ----

/// Index of the first entry for `(prefix, ty)`, searching from `i`; the length if there is none.
pub open spec fn config_index_from(cs: Seq<EntryView>, prefix: Seq<char>, ty: u64, i: int) -> int
    decreases cs.len() - i,
{
    if i < 0 || i >= cs.len() {
        cs.len() as int
    } else if cs[i].prefix == prefix && cs[i].data.metadata.ty == ty {
        i
    } else {
        config_index_from(cs, prefix, ty, i + 1)
    }
}

pub open spec fn config_index(cs: Seq<EntryView>, prefix: Seq<char>, ty: u64) -> int {
    config_index_from(cs, prefix, ty, 0)
}

/// Whether a configuration of type `ty` is registered with canonical prefix `prefix`.
pub open spec fn has_config(s: SchemaView, prefix: Seq<char>, ty: u64) -> bool {
    config_index(s.configs, prefix, ty) < s.configs.len()
}

pub proof fn lemma_config_index_bounds(cs: Seq<EntryView>, prefix: Seq<char>, ty: u64, i: int)
    requires
        0 <= i <= cs.len(),
    ensures
        i <= config_index_from(cs, prefix, ty, i) <= cs.len(),
        config_index_from(cs, prefix, ty, i) < cs.len() ==> cs[config_index_from(cs, prefix, ty, i)].prefix == prefix
            && cs[config_index_from(cs, prefix, ty, i)].data.metadata.ty == ty,
    decreases cs.len() - i,
{
    if i < cs.len() && !(cs[i].prefix == prefix && cs[i].data.metadata.ty == ty) {
        lemma_config_index_bounds(cs, prefix, ty, i + 1);
    }
}

/// What is mounted at `path`, looking in the patch first and then in the base.
pub open spec fn lookup(base: SchemaView, patch: SchemaView, path: Seq<char>) -> Option<MountingPoint> {
    match mount_at(patch.mounts, path) {
        Some(m) => Some(m),
        None => mount_at(base.mounts, path),
    }
}

pub open spec fn with_mount(s: SchemaView, path: Seq<char>, m: MountingPoint) -> SchemaView {
    SchemaView { mounts: set_mount(s.mounts, path, m), ..s }
}

// ---- insertion of one configuration ----

/// Paths at which a configuration is mounted: its prefix, then its paths.
pub open spec fn config_paths(prefix: Seq<char>, data: DataView) -> Seq<Seq<char>> {
    seq![prefix] + data.paths.map_values(|p: (Seq<char>, AliasOptions)| p.0)
}

/// Mounts the configuration at `paths[i..]`, failing at a path where parameters are mounted.
pub open spec fn mount_config_paths(
    base: SchemaView,
    patch: SchemaView,
    meta: &'static ConfigMetadata,
    paths: Seq<Seq<char>>,
    i: int,
) -> Result<SchemaView, SchemaErrorView>
    decreases paths.len() - i,
{
    if i < 0 || i >= paths.len() {
        Ok(patch)
    } else {
        match lookup(base, patch, paths[i]) {
            Some(MountingPoint::Param { .. }) => Err(
                SchemaErrorView::ConfigAtParam { config: meta, path: paths[i] },
            ),
            _ => mount_config_paths(
                base,
                with_mount(patch, paths[i], MountingPoint::Config),
                meta,
                paths,
                i + 1,
            ),
        }
    }
}

/// Paths of the parameter with index `k` of a configuration, in priority order.
pub open spec fn param_paths(data: DataView, k: int) -> PathsView {
    let p = data.metadata.params@[k];
    paths_for_child(data.paths, p.name, p.aliases, p.tag_variant, data.coerce)
}

/// Mounts parameter `k` at `paths[i..]`. A path holding configurations, or parameters that
/// expect other types, fails. A path that already holds parameters keeps its canonical flag
/// (the first registration wins); a fresh path is canonical if it is the parameter's first.
pub open spec fn mount_param_paths(
    base: SchemaView,
    patch: SchemaView,
    meta: &'static ConfigMetadata,
    k: int,
    paths: PathsView,
    i: int,
) -> Result<SchemaView, SchemaErrorView>
    decreases paths.len() - i,
{
    if i < 0 || i >= paths.len() {
        Ok(patch)
    } else {
        let path = paths[i].0;
        let expecting = meta.params@[k].expecting;
        match lookup(base, patch, path) {
            Some(MountingPoint::Config) => Err(
                SchemaErrorView::ParamAtConfig { config: meta, param: k, path },
            ),
            Some(MountingPoint::Param { expecting: prev, is_canonical }) => if prev != expecting {
                Err(SchemaErrorView::TypeMismatch { config: meta, param: k, path, existing: prev })
            } else {
                mount_param_paths(
                    base,
                    with_mount(
                        patch,
                        path,
                        MountingPoint::Param { expecting, is_canonical },
                    ),
                    meta,
                    k,
                    paths,
                    i + 1,
                )
            },
            None => mount_param_paths(
                base,
                with_mount(patch, path, MountingPoint::Param { expecting, is_canonical: i == 0 }),
                meta,
                k,
                paths,
                i + 1,
            ),
        }
    }
}

/// Mounts the parameters `k..` of a configuration.
pub open spec fn mount_params(base: SchemaView, patch: SchemaView, data: DataView, k: int) -> Result<
    SchemaView,
    SchemaErrorView,
>
    decreases data.metadata.params@.len() - k,
{
    if k < 0 || k >= data.metadata.params@.len() {
        Ok(patch)
    } else {
        match mount_param_paths(base, patch, data.metadata, k, param_paths(data, k), 0) {
            Ok(p) => mount_params(base, p, data, k + 1),
            Err(e) => Err(e),
        }
    }
}

/// The data to record for a configuration: new paths go after those already registered in
/// the base, since their order is their priority.
pub open spec fn merged_data(base: SchemaView, prefix: Seq<char>, data: DataView) -> DataView {
    let j = config_index(base.configs, prefix, data.metadata.ty);
    if 0 <= j < base.configs.len() {
        DataView { paths: base.configs[j].data.paths + data.paths, ..data }
    } else {
        data
    }
}

/// Records `e`, replacing an entry for the same prefix and type.
pub open spec fn set_config(cs: Seq<EntryView>, e: EntryView) -> Seq<EntryView> {
    let j = config_index(cs, e.prefix, e.data.metadata.ty);
    if 0 <= j < cs.len() {
        cs.update(j, e)
    } else {
        cs.push(e)
    }
}

/// Stages one configuration: its mounting points, those of its parameters, and its entry.
pub open spec fn insert_inner(
    base: SchemaView,
    patch: SchemaView,
    prefix: Seq<char>,
    depth: Option<usize>,
    data: DataView,
) -> Result<SchemaView, SchemaErrorView> {
    match mount_config_paths(base, patch, data.metadata, config_paths(prefix, data), 0) {
        Err(e) => Err(e),
        Ok(after_config) => match mount_params(base, after_config, data, 0) {
            Err(e) => Err(e),
            Ok(after_params) => Ok(
                SchemaView {
                    configs: set_config(
                        after_params.configs,
                        EntryView { prefix, data: merged_data(base, prefix, data), depth },
                    ),
                    ..after_params
                },
            ),
        },
    }
}

// ---- insertion of a configuration with its nested configurations ----

pub open spec fn child_depth(depth: Option<usize>) -> Option<usize> {
    match depth {
        Some(d) => Some(if d < usize::MAX { (d + 1) as usize } else { d }),
        None => None,
    }
}

/// Data of the nested configuration with index `k` of a configuration.
pub open spec fn child_data(data: DataView, k: int) -> DataView {
    let nested = data.metadata.nested_configs@[k];
    DataView {
        metadata: nested.meta,
        parent_link: Some(ParentLink { parent_ty: data.metadata.ty, this_index: k as usize, parent_meta: data.metadata }),
        is_top_level: false,
        coerce: data.coerce,
        paths: paths_for_child(data.paths, nested.name, nested.aliases, nested.tag_variant, data.coerce),
    }
}

/// Prefix of the nested configuration with index `k`; a flattened one keeps the parent's.
pub open spec fn child_prefix(prefix: Seq<char>, data: DataView, k: int) -> Seq<char> {
    join_spec(prefix, data.metadata.nested_configs@[k].name@)
}

/// Stages a configuration and, depth-first, its nested configurations in declaration order.
/// A brand-new configuration (`is_new`) that the base already holds at this prefix is
/// skipped together with everything below it; an update (`!is_new`, adding an alias) only
/// touches configurations that the base holds, and skips any other one with everything
/// below it.
pub open spec fn insert_tree(
    base: SchemaView,
    patch: SchemaView,
    prefix: Seq<char>,
    data: DataView,
    depth: Option<usize>,
    is_new: bool,
) -> Result<SchemaView, SchemaErrorView>
    decreases data.metadata, data.metadata.nested_configs@.len() + 1,
{
    if is_new == has_config(base, prefix, data.metadata.ty) {
        Ok(patch)
    } else {
        match insert_inner(base, patch, prefix, depth, data) {
            Err(e) => Err(e),
            Ok(p) => insert_children(base, p, prefix, data, child_depth(depth), is_new, 0),
        }
    }
}

/// Stages the nested configurations `k..` of a configuration.
pub open spec fn insert_children(
    base: SchemaView,
    patch: SchemaView,
    prefix: Seq<char>,
    data: DataView,
    depth: Option<usize>,
    is_new: bool,
    k: int,
) -> Result<SchemaView, SchemaErrorView>
    decreases data.metadata, data.metadata.nested_configs@.len() - k,
{
    if k < 0 || k >= data.metadata.nested_configs@.len() {
        Ok(patch)
    } else {
        match insert_tree(base, patch, child_prefix(prefix, data, k), child_data(data, k), depth, is_new) {
            Err(e) => Err(e),
            Ok(p) => insert_children(base, p, prefix, data, depth, is_new, k + 1),
        }
    }
}

// ---- commit ----

/// Merges a staged entry: an entry for the same prefix and type is replaced, keeping its depth
/// unless the staged entry has one.
pub open spec fn merge_entry(cs: Seq<EntryView>, e: EntryView) -> Seq<EntryView> {
    let j = config_index(cs, e.prefix, e.data.metadata.ty);
    if 0 <= j < cs.len() {
        cs.update(j, EntryView { depth: if e.depth.is_some() { e.depth } else { cs[j].depth }, ..e })
    } else {
        cs.push(e)
    }
}

pub open spec fn commit_configs(cs: Seq<EntryView>, staged: Seq<EntryView>, i: int) -> Seq<EntryView>
    decreases staged.len() - i,
{
    if i < 0 || i >= staged.len() {
        cs
    } else {
        commit_configs(merge_entry(cs, staged[i]), staged, i + 1)
    }
}

pub open spec fn commit_mounts(ms: MountsView, staged: MountsView, i: int) -> MountsView
    decreases staged.len() - i,
{
    if i < 0 || i >= staged.len() {
        ms
    } else {
        commit_mounts(set_mount(ms, staged[i].0, staged[i].1), staged, i + 1)
    }
}

/// The base with a staged patch merged into it.
pub open spec fn commit_spec(base: SchemaView, patch: SchemaView) -> SchemaView {
    SchemaView {
        configs: commit_configs(base.configs, patch.configs, 0),
        mounts: commit_mounts(base.mounts, patch.mounts, 0),
        coerce: base.coerce,
    }
}

/// Data of a top-level configuration inserted at `prefix`.
pub open spec fn top_data(meta: &'static ConfigMetadata, prefix: Seq<char>, coerce: bool) -> DataView {
    DataView {
        metadata: meta,
        parent_link: None,
        is_top_level: true,
        coerce,
        paths: seq![(prefix, plain())],
    }
}

/// Outcome of inserting configuration `meta` at `prefix` into `s`.
pub open spec fn insert_spec(s: SchemaView, meta: &'static ConfigMetadata, prefix: Seq<char>) -> Result<
    SchemaView,
    SchemaErrorView,
> {
    match insert_tree(s, empty_view(), prefix, top_data(meta, prefix, s.coerce), Some(0), true) {
        Ok(p) => Ok(commit_spec(s, p)),
        Err(e) => Err(e),
    }
}

/// Whether an operation's result and the state it left agree with an expected outcome.
pub open spec fn agrees(r: Result<(), SchemaError>, after: SchemaView, expected: Result<SchemaView, SchemaErrorView>) -> bool {
    match r {
        Ok(_) => expected == Ok::<SchemaView, SchemaErrorView>(after),
        Err(e) => expected == Err::<SchemaView, SchemaErrorView>(e@),
    }
}

// ---- executable staging ----

fn clone_paths(v: &Vec<(String, AliasOptions)>) -> (r: Vec<(String, AliasOptions)>)
    ensures
        paths_view(r@) == paths_view(v@),
{
    let mut r: Vec<(String, AliasOptions)> = Vec::new();
    let mut i: usize = 0;
    while i < v.len()
        invariant
            0 <= i <= v@.len(),
            paths_view(r@) == paths_view(v@).take(i as int),
        decreases v@.len() - i,
    {
        let item = (v[i].0.clone(), v[i].1);
        let ghost prev = r@;
        r.push(item);
        proof {
            lemma_paths_view_push(prev, item);
            assert(paths_view(r@) =~= paths_view(v@).take(i + 1));
        }
        i = i + 1;
    }
    proof {
        assert(paths_view(v@).take(i as int) =~= paths_view(v@));
    }
    r
}

fn find_config(cs: &Vec<ConfigEntry>, prefix: &str, ty: u64) -> (r: usize)
    ensures
        r == config_index(cs@.map_values(|e: ConfigEntry| e@), prefix@, ty),
        r <= cs@.len(),
{
    let ghost v = cs@.map_values(|e: ConfigEntry| e@);
    let mut i: usize = 0;
    while i < cs.len()
        invariant
            0 <= i <= cs@.len(),
            v == cs@.map_values(|e: ConfigEntry| e@),
            config_index_from(v, prefix@, ty, i as int) == config_index(v, prefix@, ty),
        decreases cs@.len() - i,
    {
        if cs[i].data.metadata.ty == ty && crate::mount::string_eq(&cs[i].prefix, prefix) {
            return i;
        }
        i = i + 1;
    }
    i
}

fn lookup_exec(base: &ConfigSchema, patch: &Patch, path: &str) -> (r: Option<MountingPoint>)
    ensures
        r == lookup(base@, patch@, path@),
{
    match get_mount(&patch.mounting_points, path) {
        Some(m) => Some(m),
        None => get_mount(&base.mounting_points, path),
    }
}

fn mount_in(patch: &mut Patch, path: String, m: MountingPoint)
    ensures
        final(patch)@ == with_mount(old(patch)@, path@, m),
{
    put_mount(&mut patch.mounting_points, path, m);
    proof {
        assert(final(patch)@.configs =~= old(patch)@.configs);
    }
}

fn mount_config_paths_exec(
    base: &ConfigSchema,
    patch: &mut Patch,
    prefix: &str,
    data: &ConfigData,
) -> (r: Result<(), SchemaError>)
    ensures
        agrees(r, final(patch)@, mount_config_paths(base@, old(patch)@, data.metadata, config_paths(prefix@, data@), 0)),
{
    let ghost cp = config_paths(prefix@, data@);
    let ghost expected = mount_config_paths(base@, patch@, data.metadata, cp, 0);
    let first = owned(prefix);
    match lookup_exec(base, patch, first.as_str()) {
        Some(MountingPoint::Param { .. }) => {
            return Err(SchemaError::ConfigAtParam { config: data.metadata, path: first });
        },
        _ => {},
    }
    mount_in(patch, first, MountingPoint::Config);
    let mut j: usize = 0;
    while j < data.all_paths.len()
        invariant
            0 <= j <= data.all_paths@.len(),
            cp.len() == data.all_paths@.len() + 1,
            cp == config_paths(prefix@, data@),
            expected == mount_config_paths(base@, old(patch)@, data.metadata, cp, 0),
            expected == mount_config_paths(base@, patch@, data.metadata, cp, j + 1),
        decreases data.all_paths@.len() - j,
    {
        let path = data.all_paths[j].0.clone();
        assert(path@ == cp[j + 1]);
        match lookup_exec(base, patch, path.as_str()) {
            Some(MountingPoint::Param { .. }) => {
                return Err(SchemaError::ConfigAtParam { config: data.metadata, path });
            },
            _ => {},
        }
        mount_in(patch, path, MountingPoint::Config);
        j = j + 1;
    }
    Ok(())
}

fn mount_param_paths_exec(
    base: &ConfigSchema,
    patch: &mut Patch,
    meta: &'static ConfigMetadata,
    k: usize,
    paths: &Vec<(String, AliasOptions)>,
) -> (r: Result<(), SchemaError>)
    requires
        k < meta.params@.len(),
    ensures
        agrees(r, final(patch)@, mount_param_paths(base@, old(patch)@, meta, k as int, paths_view(paths@), 0)),
{
    let ghost pv = paths_view(paths@);
    let ghost expected = mount_param_paths(base@, patch@, meta, k as int, pv, 0);
    let expecting = meta.params[k].expecting;
    let mut i: usize = 0;
    while i < paths.len()
        invariant
            0 <= i <= paths@.len(),
            k < meta.params@.len(),
            pv == paths_view(paths@),
            expecting == meta.params@[k as int].expecting,
            expected == mount_param_paths(base@, old(patch)@, meta, k as int, pv, 0),
            expected == mount_param_paths(base@, patch@, meta, k as int, pv, i as int),
        decreases paths@.len() - i,
    {
        let path = paths[i].0.clone();
        assert(path@ == pv[i as int].0);
        let mut canonical = i == 0;
        match lookup_exec(base, patch, path.as_str()) {
            Some(MountingPoint::Config) => {
                return Err(SchemaError::ParamAtConfig { config: meta, param: k, path });
            },
            Some(MountingPoint::Param { expecting: prev, is_canonical }) => {
                if prev != expecting {
                    return Err(SchemaError::TypeMismatch { config: meta, param: k, path, existing: prev });
                }
                canonical = is_canonical;
            },
            None => {},
        }
        mount_in(patch, path, MountingPoint::Param { expecting, is_canonical: canonical });
        i = i + 1;
    }
    Ok(())
}

fn mount_params_exec(base: &ConfigSchema, patch: &mut Patch, data: &ConfigData) -> (r: Result<(), SchemaError>)
    ensures
        agrees(r, final(patch)@, mount_params(base@, old(patch)@, data@, 0)),
{
    let ghost expected = mount_params(base@, patch@, data@, 0);
    let meta = data.metadata;
    let mut k: usize = 0;
    while k < meta.params.len()
        invariant
            0 <= k <= meta.params@.len(),
            meta == data.metadata,
            expected == mount_params(base@, old(patch)@, data@, 0),
            expected == mount_params(base@, patch@, data@, k as int),
        decreases meta.params@.len() - k,
    {
        let p = &meta.params[k];
        let paths = all_paths_for_child(&data.all_paths, p.name, p.aliases, p.tag_variant, data.coerce_serde_enums);
        assert(paths_view(paths@) == param_paths(data@, k as int));
        match mount_param_paths_exec(base, patch, meta, k, &paths) {
            Ok(()) => {},
            Err(e) => {
                return Err(e);
            },
        }
        k = k + 1;
    }
    Ok(())
}

fn put_config(cs: &mut Vec<ConfigEntry>, e: ConfigEntry)
    ensures
        final(cs)@.map_values(|x: ConfigEntry| x@) == set_config(old(cs)@.map_values(|x: ConfigEntry| x@), e@),
{
    let j = find_config(cs, e.prefix.as_str(), e.data.metadata.ty);
    let ghost ev = e@;
    if j < cs.len() {
        cs.set(j, e);
    } else {
        cs.push(e);
    }
    proof {
        assert(cs@.map_values(|x: ConfigEntry| x@) =~= set_config(old(cs)@.map_values(|x: ConfigEntry| x@), ev));
    }
}

fn insert_inner_exec(
    base: &ConfigSchema,
    patch: &mut Patch,
    prefix: &str,
    depth: Option<usize>,
    data: &ConfigData,
) -> (r: Result<(), SchemaError>)
    ensures
        agrees(r, final(patch)@, insert_inner(base@, old(patch)@, prefix@, depth, data@)),
{
    match mount_config_paths_exec(base, patch, prefix, data) {
        Ok(()) => {},
        Err(e) => {
            return Err(e);
        },
    }
    match mount_params_exec(base, patch, data) {
        Ok(()) => {},
        Err(e) => {
            return Err(e);
        },
    }
    let j = find_config(&base.configs, prefix, data.metadata.ty);
    let mut all_paths = if j < base.configs.len() {
        clone_paths(&base.configs[j].data.all_paths)
    } else {
        Vec::new()
    };
    let ghost before = all_paths@;
    let mut added = clone_paths(&data.all_paths);
    let ghost added_v = added@;
    all_paths.append(&mut added);
    proof {
        assert(paths_view(all_paths@) =~= paths_view(before) + paths_view(added_v));
        if j < base.configs.len() {
            assert(paths_view(all_paths@) =~= merged_data(base@, prefix@, data@).paths);
        } else {
            assert(paths_view(all_paths@) =~= merged_data(base@, prefix@, data@).paths);
        }
    }
    let entry = ConfigEntry {
        prefix: owned(prefix),
        data: ConfigData {
            metadata: data.metadata,
            parent_link: data.parent_link,
            is_top_level: data.is_top_level,
            coerce_serde_enums: data.coerce_serde_enums,
            all_paths,
        },
        depth,
    };
    let ghost mid = patch@;
    put_config(&mut patch.configs, entry);
    proof {
        assert(patch@.mounts == mid.mounts);
    }
    Ok(())
}

fn child_depth_exec(depth: Option<usize>) -> (r: Option<usize>)
    ensures
        r == child_depth(depth),
{
    match depth {
        Some(d) => Some(if d < usize::MAX { d + 1 } else { d }),
        None => None,
    }
}

/// Data of the nested configuration with index `k`.
fn child_data_exec(data: &ConfigData, k: usize) -> (r: ConfigData)
    requires
        k < data.metadata.nested_configs@.len(),
    ensures
        r@ == child_data(data@, k as int),
{
    let nested = &data.metadata.nested_configs[k];
    let all_paths = all_paths_for_child(
        &data.all_paths,
        nested.name,
        nested.aliases,
        nested.tag_variant,
        data.coerce_serde_enums,
    );
    ConfigData {
        metadata: nested.meta,
        parent_link: Some(ParentLink { parent_ty: data.metadata.ty, this_index: k, parent_meta: data.metadata }),
        is_top_level: false,
        coerce_serde_enums: data.coerce_serde_enums,
        all_paths,
    }
}

fn insert_tree_exec(
    base: &ConfigSchema,
    patch: &mut Patch,
    prefix: &str,
    data: &ConfigData,
    depth: Option<usize>,
    is_new: bool,
) -> (r: Result<(), SchemaError>)
    ensures
        agrees(r, final(patch)@, insert_tree(base@, old(patch)@, prefix@, data@, depth, is_new)),
    decreases data.metadata, data.metadata.nested_configs@.len() + 1,
{
    if is_new == (find_config(&base.configs, prefix, data.metadata.ty) < base.configs.len()) {
        return Ok(());
    }
    match insert_inner_exec(base, patch, prefix, depth, data) {
        Ok(()) => {},
        Err(e) => {
            return Err(e);
        },
    }
    insert_children_exec(base, patch, prefix, data, child_depth_exec(depth), is_new)
}

fn insert_children_exec(
    base: &ConfigSchema,
    patch: &mut Patch,
    prefix: &str,
    data: &ConfigData,
    depth: Option<usize>,
    is_new: bool,
) -> (r: Result<(), SchemaError>)
    ensures
        agrees(r, final(patch)@, insert_children(base@, old(patch)@, prefix@, data@, depth, is_new, 0)),
    decreases data.metadata, data.metadata.nested_configs@.len(),
{
    let ghost expected = insert_children(base@, patch@, prefix@, data@, depth, is_new, 0);
    let n = data.metadata.nested_configs.len();
    let mut k: usize = 0;
    while k < n
        invariant
            0 <= k <= n,
            n == data.metadata.nested_configs@.len(),
            expected == insert_children(base@, old(patch)@, prefix@, data@, depth, is_new, 0),
            expected == insert_children(base@, patch@, prefix@, data@, depth, is_new, k as int),
        decreases n - k,
    {
        let child = child_data_exec(data, k);
        let child_prefix = join(prefix, data.metadata.nested_configs[k].name);
        proof {
            assert(decreases_to!(data.metadata => data.metadata.nested_configs@[k as int].meta));
        }
        match insert_tree_exec(base, patch, child_prefix.as_str(), &child, depth, is_new) {
            Ok(()) => {},
            Err(e) => {
                return Err(e);
            },
        }
        k = k + 1;
    }
    Ok(())
}

fn merge_entry_exec(cs: &mut Vec<ConfigEntry>, e: ConfigEntry)
    ensures
        final(cs)@.map_values(|x: ConfigEntry| x@) == merge_entry(old(cs)@.map_values(|x: ConfigEntry| x@), e@),
{
    let ghost ev = e@;
    let j = find_config(cs, e.prefix.as_str(), e.data.metadata.ty);
    if j < cs.len() {
        let depth = if e.depth.is_some() { e.depth } else { cs[j].depth };
        cs.set(j, ConfigEntry { prefix: e.prefix, data: e.data, depth });
    } else {
        cs.push(e);
    }
    proof {
        assert(cs@.map_values(|x: ConfigEntry| x@) =~= merge_entry(old(cs)@.map_values(|x: ConfigEntry| x@), ev));
    }
}

/// Merges a staged patch into the base.
fn commit(base: &mut ConfigSchema, patch: Patch)
    requires
        links_ok(patch@.configs),
    ensures
        final(base)@ == commit_spec(old(base)@, patch@),
{
    proof {
        use_type_invariant(&*base);
    }
    let ghost pv = patch@;
    let ghost ov = base@;
    let Patch { configs: mut staged, mounting_points: mut mounts } = patch;
    let mut configs: Vec<ConfigEntry> = Vec::new();
    std::mem::swap(&mut configs, &mut base.configs);
    let ghost sc = staged@.map_values(|x: ConfigEntry| x@);
    let ghost k: int = 0;
    while staged.len() > 0
        invariant
            0 <= k <= sc.len(),
            staged@.map_values(|x: ConfigEntry| x@) == sc.skip(k),
            commit_configs(ov.configs, sc, 0) == commit_configs(configs@.map_values(|x: ConfigEntry| x@), sc, k),
            unique_configs(configs@.map_values(|x: ConfigEntry| x@)),
            links_ok(configs@.map_values(|x: ConfigEntry| x@)),
            links_ok(sc),
            sc == pv.configs,
        decreases staged@.len(),
    {
        let ghost before = staged@;
        let e = staged.remove(0);
        proof {
            assert(before.map_values(|x: ConfigEntry| x@).len() == sc.skip(k).len());
            assert(k < sc.len());
            assert(before.map_values(|x: ConfigEntry| x@)[0] == sc.skip(k)[0]);
            assert(e@ == sc[k]);
            assert forall|i: int| 0 <= i < staged@.len() implies #[trigger] staged@[i]@ == sc.skip(k + 1)[i] by {
                assert(staged@[i] == before[i + 1]);
                assert(before.map_values(|x: ConfigEntry| x@)[i + 1] == sc.skip(k)[i + 1]);
            }
            assert(staged@.map_values(|x: ConfigEntry| x@) =~= sc.skip(k + 1));
            lemma_merge_entry_data(configs@.map_values(|x: ConfigEntry| x@), e@, e@.prefix, e@.data.metadata.ty);
            lemma_merge_entry_links(configs@.map_values(|x: ConfigEntry| x@), e@);
        }
        merge_entry_exec(&mut configs, e);
        proof {
            k = k + 1;
        }
    }
    base.configs = configs;
    let mut points: Vec<(String, MountingPoint)> = Vec::new();
    std::mem::swap(&mut points, &mut base.mounting_points);
    let ghost sm = mounts_view(mounts@);
    let ghost m: int = 0;
    while mounts.len() > 0
        invariant
            0 <= m <= sm.len(),
            mounts_view(mounts@) == sm.skip(m),
            commit_mounts(ov.mounts, sm, 0) == commit_mounts(mounts_view(points@), sm, m),
            unique_keys(mounts_view(points@)),
            sm == pv.mounts,
        decreases mounts@.len(),
    {
        let ghost before = mounts@;
        let (path, point) = mounts.remove(0);
        proof {
            assert(mounts_view(before).len() == sm.skip(m).len());
            assert(m < sm.len());
            assert(mounts_view(before)[0] == sm.skip(m)[0]);
            assert((path@, point) == sm[m]);
            assert forall|i: int| 0 <= i < mounts@.len() implies #[trigger] mounts_view(mounts@)[i] == sm.skip(m + 1)[i] by {
                assert(mounts@[i] == before[i + 1]);
                assert(mounts_view(before)[i + 1] == sm.skip(m)[i + 1]);
            }
            assert(mounts_view(mounts@) =~= sm.skip(m + 1));
            lemma_set_mount_unique(mounts_view(points@), path@, point);
        }
        put_mount(&mut points, path, point);
        proof {
            m = m + 1;
        }
    }
    base.mounting_points = points;
}

/// Stages an insertion against `base` and returns the patch to commit.
fn stage(base: &ConfigSchema, prefix: &str, data: &ConfigData, depth: Option<usize>, is_new: bool) -> (r: Result<
    Patch,
    SchemaError,
>)
    requires
        data_link_ok(data@),
    ensures
        match insert_tree(base@, empty_view(), prefix@, data@, depth, is_new) {
            Ok(p) => r is Ok && r->Ok_0@ == p,
            Err(e) => r is Err && r->Err_0@ == e,
        },
        r is Ok ==> links_ok(r->Ok_0@.configs),
{
    proof {
        use_type_invariant(base);
        assert(links_ok(empty_view().configs));
        if insert_tree(base@, empty_view(), prefix@, data@, depth, is_new) is Ok {
            lemma_insert_tree_links(base@, empty_view(), prefix@, data@, depth, is_new);
        }
    }
    let mut patch = Patch::new();
    match insert_tree_exec(base, &mut patch, prefix, data, depth, is_new) {
        Ok(()) => Ok(patch),
        Err(e) => Err(e),
    }
}

impl ConfigSchema {
    /// An empty schema, with coercion of tagged unions off.
    fn empty() -> (r: Self)
        ensures
            r@ == empty_view(),
    {
        let r = ConfigSchema { configs: Vec::new(), mounting_points: Vec::new(), coerce_serde_enums: false };
        proof {
            assert(r@.configs =~= Seq::<EntryView>::empty());
            assert(r@.mounts =~= Seq::<(Seq<char>, MountingPoint)>::empty());
        }
        r
    }

    /// Inserts a new configuration type at the specified prefix, together with its nested
    /// configurations. Fails, leaving the schema as it was, if a configuration would be
    /// mounted where parameters are, a parameter where configurations are, or a parameter
    /// where parameters expecting other types are. Inserting a type again at the same
    /// prefix changes nothing.
    pub fn insert(&mut self, metadata: &'static ConfigMetadata, prefix: &'static str) -> (r: Result<
        ConfigMut,
        SchemaError,
    >)
        ensures
            match insert_spec(old(self)@, metadata, prefix@) {
                Ok(s) => r is Ok && final(self)@ == s && r->Ok_0@ == (prefix@, metadata),
                Err(e) => r is Err && r->Err_0@ == e && final(self)@ == old(self)@,
            },
    {
        let data = ConfigData {
            metadata,
            parent_link: None,
            is_top_level: true,
            coerce_serde_enums: self.coerce_serde_enums,
            all_paths: vec![(owned(prefix), AliasOptions::new())],
        };
        proof {
            assert(data@.paths =~= seq![(prefix@, plain())]);
        }
        match stage(self, prefix, &data, Some(0), true) {
            Ok(patch) => {
                commit(self, patch);
                Ok(ConfigMut { prefix: owned(prefix), metadata })
            },
            Err(e) => Err(e),
        }
    }
}

/// Handle of one configuration of a schema: its canonical prefix and its type.
#[derive(Debug)]
pub struct ConfigMut {
    prefix: String,
    metadata: &'static ConfigMetadata,
}

impl View for ConfigMut {
    type V = (Seq<char>, &'static ConfigMetadata);

    closed spec fn view(&self) -> (Seq<char>, &'static ConfigMetadata) {
        (self.prefix@, self.metadata)
    }
}

/// View of a reference to entry `e` of schema `s`, under the metadata `m`.
pub open spec fn ref_view_as(e: EntryView, s: SchemaView, m: &'static ConfigMetadata) -> (
    Seq<char>,
    DataView,
    SchemaView,
    &'static ConfigMetadata,
) {
    (e.prefix, e.data, s, m)
}

/// View of a reference to entry `e` of schema `s`, under its registered metadata.
pub open spec fn ref_view(e: EntryView, s: SchemaView) -> (Seq<char>, DataView, SchemaView, &'static ConfigMetadata) {
    ref_view_as(e, s, e.data.metadata)
}

/// Where the parent of a configuration registered at `prefix` with link `l` is registered:
/// the same prefix if the linked nested configuration is flattened, else the parent path.
pub open spec fn link_parent_prefix(prefix: Seq<char>, l: ParentLink) -> Option<Seq<char>> {
    if l.this_index < l.parent_meta.nested_configs@.len() && l.parent_meta.nested_configs@[l.this_index as int].name@.len()
        == 0 {
        Some(prefix)
    } else {
        crate::path::parent_spec(prefix)
    }
}

/// The configuration type is registered at exactly one prefix.
pub open spec fn registered_once(s: SchemaView, ty: u64) -> bool {
    exists|p: Seq<char>| has_config(s, p, ty) && forall|p2: Seq<char>| #[trigger] has_config(s, p2, ty) ==> p2 == p
}

/// Canonical prefixes of the first `n` entries of type `ty`, in order.
pub open spec fn located(cs: Seq<EntryView>, ty: u64, n: int) -> Seq<Seq<char>>
    decreases n,
{
    if n <= 0 {
        Seq::empty()
    } else {
        located(cs, ty, n - 1) + if cs[n - 1].data.metadata.ty == ty {
            seq![cs[n - 1].prefix]
        } else {
            Seq::empty()
        }
    }
}

pub open spec fn locations(s: SchemaView, ty: u64) -> Seq<Seq<char>> {
    located(s.configs, ty, s.configs.len() as int)
}

pub open spec fn has_path(paths: PathsView, alias: Seq<char>) -> bool {
    exists|i: int| 0 <= i < paths.len() && #[trigger] paths[i].0 == alias
}

/// Outcome of adding `alias` with `opts` to the configuration `meta` at `prefix`. An alias
/// that the configuration already has changes nothing; a new one goes last, and the
/// paths of the parameters and nested configurations under it are mounted.
pub open spec fn push_alias_spec(
    s: SchemaView,
    prefix: Seq<char>,
    meta: &'static ConfigMetadata,
    alias: Seq<char>,
    opts: AliasOptions,
) -> Result<SchemaView, SchemaErrorView> {
    if !has_config(s, prefix, meta.ty) {
        Err(SchemaErrorView::NotRegistered { config: meta })
    } else {
        let e = s.configs[config_index(s.configs, prefix, meta.ty)];
        if has_path(e.data.paths, alias) {
            Ok(s)
        } else {
            match insert_tree(s, empty_view(), prefix, DataView { paths: seq![(alias, opts)], ..e.data }, None, false) {
                Ok(p) => Ok(commit_spec(s, p)),
                Err(x) => Err(x),
            }
        }
    }
}

/// Reference to one configuration inside a [`ConfigSchema`].
#[derive(Debug, Clone, Copy)]
pub struct ConfigRef<'a> {
    schema: &'a ConfigSchema,
    prefix: &'a str,
    data: &'a ConfigData,
    /// Metadata of the configuration type: the one that it was looked up by, or the
    /// registered one. Either way it has the registered type id, which identifies a
    /// configuration type.
    metadata: &'static ConfigMetadata,
}

impl<'a> View for ConfigRef<'a> {
    type V = (Seq<char>, DataView, SchemaView, &'static ConfigMetadata);

    closed spec fn view(&self) -> (Seq<char>, DataView, SchemaView, &'static ConfigMetadata) {
        (self.prefix@, self.data@, self.schema@, self.metadata)
    }
}

impl<'a> ConfigRef<'a> {
    /// The referenced data is an entry of the schema, registered at the prefix.
    #[verifier::type_invariant]
    spec fn is_entry(self) -> bool {
        exists|i: int|
            0 <= i < self.schema@.configs.len() && self.schema@.configs[i].prefix == self.prefix@
                && self.schema@.configs[i].data == self.data@
    }

    /// The canonical prefix.
    pub fn prefix(&self) -> (r: &'a str)
        ensures
            r@ == self@.0,
    {
        self.prefix
    }

    /// The configuration's metadata.
    pub fn metadata(&self) -> (r: &'static ConfigMetadata)
        ensures
            r == self@.3,
    {
        self.metadata
    }

    /// Whether the configuration was inserted directly rather than as a nested one.
    pub fn is_top_level(&self) -> (r: bool)
        ensures
            r == self@.1.parent_link.is_none(),
    {
        self.data.parent_link.is_none()
    }

    /// Aliases of the configuration (its paths after the canonical one), in priority order.
    pub fn aliases(&self) -> (r: Vec<(String, AliasOptions)>)
        ensures
            self@.1.paths.len() > 0 ==> paths_view(r@) == self@.1.paths.skip(1),
            self@.1.paths.len() == 0 ==> r@.len() == 0,
    {
        let mut r: Vec<(String, AliasOptions)> = Vec::new();
        let n = self.data.all_paths.len();
        if n == 0 {
            return r;
        }
        let ghost pv = self@.1.paths;
        let mut i: usize = 1;
        while i < n
            invariant
                1 <= i <= n,
                n == self.data.all_paths@.len(),
                pv == paths_view(self.data.all_paths@),
                paths_view(r@) == pv.subrange(1, i as int),
            decreases n - i,
        {
            let item = (self.data.all_paths[i].0.clone(), self.data.all_paths[i].1);
            let ghost prev = r@;
            r.push(item);
            proof {
                lemma_paths_view_push(prev, item);
                assert(paths_view(r@) =~= pv.subrange(1, i + 1));
            }
            i = i + 1;
        }
        proof {
            assert(pv.subrange(1, n as int) =~= pv.skip(1));
        }
        r
    }

    /// Absolute paths of `param` (a parameter of this configuration), highest priority first.
    pub fn all_paths_for_param(&self, param: &ParamMetadata) -> (r: Vec<(String, AliasOptions)>)
        ensures
            paths_view(r@) == paths_for_child(self@.1.paths, param.name, param.aliases, param.tag_variant, self@.1.coerce),
    {
        all_paths_for_child(
            &self.data.all_paths,
            param.name,
            param.aliases,
            param.tag_variant,
            self.data.coerce_serde_enums,
        )
    }

    /// The configuration holding this nested one, with this one's description in it. A
    /// flattened configuration shares the parent's prefix; another one lives one segment
    /// below it. In a schema where every linked parent is registered (which inserting and
    /// adding aliases keep, see `lemma_insert_keeps_parents`), the result is `None` exactly
    /// for a top-level configuration.
    pub fn parent_link(&self) -> (r: Option<(ConfigRef<'a>, &'static NestedConfigMetadata)>)
        ensures
            self@.1.parent_link.is_none() ==> r.is_none(),
            self@.1.parent_link.is_some() ==> ({
                let l = self@.1.parent_link.unwrap();
                let pp = link_parent_prefix(self@.0, l);
                &&& r.is_some() == (pp.is_some() && has_config(self@.2, pp.unwrap(), l.parent_ty))
                &&& r.is_some() ==> {
                    &&& r.unwrap().0@ == ref_view(
                        self@.2.configs[config_index(self@.2.configs, pp.unwrap(), l.parent_ty)],
                        self@.2,
                    )
                    &&& *r.unwrap().1 == l.parent_meta.nested_configs@[l.this_index as int]
                    &&& r.unwrap().1.meta == self@.1.metadata
                    &&& r.unwrap().0@.1.metadata.ty == l.parent_ty
                }
            }),
            parents_ok(self@.2) ==> (r.is_none() <==> self@.1.parent_link.is_none()),
    {
        proof {
            use_type_invariant(self);
            use_type_invariant(self.schema);
            let i = choose|i: int|
                0 <= i < self.schema@.configs.len() && self.schema@.configs[i].prefix == self.prefix@
                    && self.schema@.configs[i].data == self.data@;
            assert(data_link_ok(self.schema@.configs[i].data));
            if parents_ok(self@.2) {
                assert(entry_parent_ok(self@.2, self@.2, self@.2.configs[i]));
            }
        }
        let link = match self.data.parent_link {
            Some(link) => link,
            None => {
                return None;
            },
        };
        let parent_meta = link.parent_meta;
        let nested = &parent_meta.nested_configs[link.this_index];
        let pp = if nested.name.unicode_len() == 0 {
            owned(self.prefix)
        } else {
            match crate::path::parent(self.prefix) {
                Some(p) => p,
                None => {
                    return None;
                },
            }
        };
        let schema = self.schema;
        let ghost cs = schema@.configs;
        let j = find_config(&schema.configs, pp.as_str(), link.parent_ty);
        proof {
            lemma_config_index_bounds(cs, pp@, link.parent_ty, 0);
        }
        if j < schema.configs.len() {
            let entry = &schema.configs[j];
            assert(entry@ == cs[j as int]);
            Some((ConfigRef { schema, prefix: entry.prefix.as_str(), data: &entry.data, metadata: entry.data.metadata }, nested))
        } else {
            None
        }
    }
}

impl ConfigMut {
    /// The canonical prefix.
    pub fn prefix(&self) -> (r: &str)
        ensures
            r@ == self@.0,
    {
        self.prefix.as_str()
    }

    /// Aliases of this configuration in `schema`, in priority order; `None` if `schema` does
    /// not hold it.
    pub fn aliases(&self, schema: &ConfigSchema) -> (r: Option<Vec<(String, AliasOptions)>>)
        ensures
            r.is_some() == has_config(schema@, self@.0, self@.1.ty),
            r.is_some() ==> ({
                let e = schema@.configs[config_index(schema@.configs, self@.0, self@.1.ty)];
                &&& e.data.paths.len() > 0 ==> paths_view(r.unwrap()@) == e.data.paths.skip(1)
                &&& e.data.paths.len() == 0 ==> r.unwrap()@.len() == 0
            }),
    {
        match schema.get(self.metadata, self.prefix.as_str()) {
            Some(c) => Some(c.aliases()),
            None => None,
        }
    }

    /// Adds an alias for the configuration, with lower priority than its existing paths.
    /// Fails, leaving the schema as it was, on the conflicts that [`ConfigSchema::insert`]
    /// reports, or if `schema` does not hold the configuration.
    pub fn push_alias(self, schema: &mut ConfigSchema, alias: &'static str) -> (r: Result<Self, SchemaError>)
        ensures
            match push_alias_spec(old(schema)@, self@.0, self@.1, alias@, plain()) {
                Ok(s) => r is Ok && final(schema)@ == s && r->Ok_0@ == self@,
                Err(e) => r is Err && r->Err_0@ == e && final(schema)@ == old(schema)@,
            },
            forall|p: Seq<char>, t: u64| #[trigger] has_config(final(schema)@, p, t) == has_config(old(schema)@, p, t),
    {
        self.push_alias_inner(schema, alias, AliasOptions::new())
    }

    /// Same as [`Self::push_alias`], but marks the alias as deprecated.
    pub fn push_deprecated_alias(self, schema: &mut ConfigSchema, alias: &'static str) -> (r: Result<
        Self,
        SchemaError,
    >)
        ensures
            match push_alias_spec(old(schema)@, self@.0, self@.1, alias@, AliasOptions { is_deprecated: true }) {
                Ok(s) => r is Ok && final(schema)@ == s && r->Ok_0@ == self@,
                Err(e) => r is Err && r->Err_0@ == e && final(schema)@ == old(schema)@,
            },
            forall|p: Seq<char>, t: u64| #[trigger] has_config(final(schema)@, p, t) == has_config(old(schema)@, p, t),
    {
        self.push_alias_inner(schema, alias, AliasOptions { is_deprecated: true })
    }

    fn push_alias_inner(self, schema: &mut ConfigSchema, alias: &'static str, options: AliasOptions) -> (r: Result<
        Self,
        SchemaError,
    >)
        ensures
            match push_alias_spec(old(schema)@, self@.0, self@.1, alias@, options) {
                Ok(s) => r is Ok && final(schema)@ == s && r->Ok_0@ == self@,
                Err(e) => r is Err && r->Err_0@ == e && final(schema)@ == old(schema)@,
            },
            forall|p: Seq<char>, t: u64| #[trigger] has_config(final(schema)@, p, t) == has_config(old(schema)@, p, t),
    {
        let ghost cs = schema@.configs;
        let j = find_config(&schema.configs, self.prefix.as_str(), self.metadata.ty);
        if j >= schema.configs.len() {
            return Err(SchemaError::NotRegistered { config: self.metadata });
        }
        proof {
            lemma_config_index_bounds(cs, self.prefix@, self.metadata.ty, 0);
        }
        let data = &schema.configs[j].data;
        assert(data@ == cs[j as int].data);
        proof {
            use_type_invariant(&*schema);
            assert(data_link_ok(cs[j as int].data));
        }
        let mut i: usize = 0;
        while i < data.all_paths.len()
            invariant
                0 <= i <= data.all_paths@.len(),
                j < cs.len(),
                j == config_index(cs, self.prefix@, self.metadata.ty),
                data@ == cs[j as int].data,
                cs == old(schema)@.configs,
                forall|k: int| 0 <= k < i ==> #[trigger] paths_view(data.all_paths@)[k].0 != alias@,
            decreases data.all_paths@.len() - i,
        {
            if crate::mount::string_eq(&data.all_paths[i].0, alias) {
                proof {
                    let pv = cs[j as int].data.paths;
                    assert(pv == paths_view(data.all_paths@));
                    assert(pv[i as int].0 == alias@);
                    assert(has_path(pv, alias@));
                }
                return Ok(self);
            }
            i = i + 1;
        }
        let staged = ConfigData {
            metadata: data.metadata,
            parent_link: data.parent_link,
            is_top_level: data.is_top_level,
            coerce_serde_enums: data.coerce_serde_enums,
            all_paths: vec![(owned(alias), options)],
        };
        proof {
            assert(staged@.paths =~= seq![(alias@, options)]);
            assert(staged@ == DataView { paths: seq![(alias@, options)], ..cs[j as int].data });
        }
        match stage(schema, self.prefix.as_str(), &staged, None, false) {
            Ok(patch) => {
                commit(schema, patch);
                proof {
                    assert forall|p: Seq<char>, t: u64| #[trigger] has_config(schema@, p, t) == has_config(old(schema)@, p, t) by {
                        lemma_push_alias_keeps_entries(old(schema)@, self@.0, self@.1, alias@, options, p, t);
                    }
                }
                Ok(self)
            },
            Err(e) => Err(e),
        }
    }
}

impl Default for ConfigSchema {
    fn default() -> (r: Self)
        ensures
            r@ == empty_view(),
    {
        ConfigSchema::empty()
    }
}

impl ConfigSchema {
    /// A schema with a single configuration at `prefix`. The configuration must not conflict
    /// with itself.
    pub fn new(metadata: &'static ConfigMetadata, prefix: &'static str) -> (r: Self)
        requires
            insert_spec(empty_view(), metadata, prefix@) is Ok,
        ensures
            Ok::<SchemaView, SchemaErrorView>(r@) == insert_spec(empty_view(), metadata, prefix@),
    {
        let mut this = ConfigSchema::empty();
        let _ = this.insert(metadata, prefix);
        this
    }

    /// Switches coercion of tagged unions for configurations inserted afterwards.
    pub fn coerce_serde_enums(&mut self, coerce: bool) -> (r: &mut Self)
        ensures
            r@ == (SchemaView { coerce, ..old(self)@ }),
            *final(self) == *final(r),
    {
        proof {
            use_type_invariant(&*self);
        }
        self.coerce_serde_enums = coerce;
        self
    }

    /// All configurations with their canonical prefixes, in registration order; no prefix and
    /// type come twice, and each is registered.
    pub fn iter(&self) -> (r: Vec<ConfigRef<'_>>)
        ensures
            r@.len() == self@.configs.len(),
            forall|i: int| 0 <= i < r@.len() ==> #[trigger] r@[i]@ == ref_view(self@.configs[i], self@),
            forall|i: int, j: int|
                0 <= i < j < r@.len() ==> !(#[trigger] r@[i]@.0 == #[trigger] r@[j]@.0 && r@[i]@.1.metadata.ty == r@[j]@.1.metadata.ty),
            forall|i: int| 0 <= i < r@.len() ==> has_config(self@, #[trigger] r@[i]@.0, r@[i]@.1.metadata.ty),
    {
        proof {
            use_type_invariant(self);
            assert forall|i: int| 0 <= i < self@.configs.len() implies #[trigger] has_config(
                self@,
                self@.configs[i].prefix,
                self@.configs[i].data.metadata.ty,
            ) by {
                lemma_config_index_bounds(self@.configs, self@.configs[i].prefix, self@.configs[i].data.metadata.ty, 0);
                lemma_config_found(self@.configs, self@.configs[i].prefix, self@.configs[i].data.metadata.ty, 0, i);
            }
        }
        let mut r: Vec<ConfigRef<'_>> = Vec::new();
        let mut i: usize = 0;
        while i < self.configs.len()
            invariant
                0 <= i <= self.configs@.len(),
                r@.len() == i,
                forall|k: int| 0 <= k < i ==> #[trigger] r@[k]@ == ref_view(self@.configs[k], self@),
            decreases self.configs@.len() - i,
        {
            let e = &self.configs[i];
            assert(e@ == self@.configs[i as int]);
            r.push(ConfigRef { schema: self, prefix: e.prefix.as_str(), data: &e.data, metadata: e.data.metadata });
            i = i + 1;
        }
        r
    }

    /// Canonical prefixes of the configuration type, in registration order.
    pub fn locate(&self, metadata: &'static ConfigMetadata) -> (r: Vec<&str>)
        ensures
            r@.map_values(|p: &str| p@) == locations(self@, metadata.ty),
            locations(self@, metadata.ty).no_duplicates(),
            forall|p: Seq<char>| #[trigger] has_config(self@, p, metadata.ty) <==> locations(self@, metadata.ty).contains(p),
    {
        proof {
            use_type_invariant(self);
            let cs = self@.configs;
            lemma_located_distinct(cs, metadata.ty, cs.len() as int);
            assert forall|p: Seq<char>| #[trigger] has_config(self@, p, metadata.ty) <==> locations(self@, metadata.ty).contains(p) by {
                lemma_located_member(cs, metadata.ty, cs.len() as int, p);
                lemma_has_config_iff(cs, p, metadata.ty);
            }
        }
        let ghost cs = self@.configs;
        let mut r: Vec<&str> = Vec::new();
        let mut i: usize = 0;
        while i < self.configs.len()
            invariant
                0 <= i <= self.configs@.len(),
                cs == self@.configs,
                r@.map_values(|p: &str| p@) == located(cs, metadata.ty, i as int),
            decreases self.configs@.len() - i,
        {
            let e = &self.configs[i];
            assert(e@ == cs[i as int]);
            if e.data.metadata.ty == metadata.ty {
                r.push(e.prefix.as_str());
            }
            proof {
                assert(r@.map_values(|p: &str| p@) =~= located(cs, metadata.ty, i + 1));
            }
            i = i + 1;
        }
        r
    }

    /// The configuration of type `metadata` with canonical prefix `prefix`.
    pub fn get<'s>(&'s self, metadata: &'static ConfigMetadata, prefix: &str) -> (r: Option<ConfigRef<'s>>)
        ensures
            r.is_some() == has_config(self@, prefix@, metadata.ty),
            r.is_some() ==> r.unwrap()@ == ref_view_as(self@.configs[config_index(self@.configs, prefix@, metadata.ty)], self@, metadata),
            r.is_some() ==> r.unwrap()@.1.metadata.ty == metadata.ty,
    {
        let j = find_config(&self.configs, prefix, metadata.ty);
        if j < self.configs.len() {
            proof {
                lemma_config_index_bounds(self@.configs, prefix@, metadata.ty, 0);
            }
            let e = &self.configs[j];
            assert(e@ == self@.configs[j as int]);
            Some(ConfigRef { schema: self, prefix: e.prefix.as_str(), data: &e.data, metadata })
        } else {
            None
        }
    }

    /// A handle of the configuration of type `metadata` with canonical prefix `prefix`.
    pub fn get_mut(&self, metadata: &'static ConfigMetadata, prefix: &str) -> (r: Option<ConfigMut>)
        ensures
            r.is_some() == has_config(self@, prefix@, metadata.ty),
            r.is_some() ==> r.unwrap()@ == (prefix@, metadata),
    {
        let j = find_config(&self.configs, prefix, metadata.ty);
        if j < self.configs.len() {
            Some(ConfigMut { prefix: owned(prefix), metadata })
        } else {
            None
        }
    }

    /// The only registration of the configuration type. Fails if it has none, or more than one.
    pub fn single(&self, metadata: &'static ConfigMetadata) -> (r: Result<ConfigRef<'_>, SchemaError>)
        ensures
            r is Ok <==> registered_once(self@, metadata.ty),
            ({
                let locs = locations(self@, metadata.ty);
                &&& locs.len() == 0 ==> r is Err && r->Err_0@ == (SchemaErrorView::NotRegistered { config: metadata })
                &&& locs.len() >= 2 ==> r is Err && r->Err_0@ == (SchemaErrorView::MultipleLocations {
                    config: metadata,
                    first: locs[0],
                    second: locs[1],
                })
                &&& locs.len() == 1 ==> r is Ok && r->Ok_0@ == ref_view_as(self@.configs[config_index(self@.configs, locs[0], metadata.ty)], self@, metadata)
            }),
    {
        let prefixes = self.locate(metadata);
        proof {
            lemma_registered_once(self@, metadata.ty);
        }
        let ghost lv = prefixes@.map_values(|p: &str| p@);
        if prefixes.len() == 0 {
            return Err(SchemaError::NotRegistered { config: metadata });
        }
        if prefixes.len() >= 2 {
            assert(lv[0] == prefixes@[0]@);
            assert(lv[1] == prefixes@[1]@);
            return Err(SchemaError::MultipleLocations {
                config: metadata,
                first: owned(prefixes[0]),
                second: owned(prefixes[1]),
            });
        }
        assert(lv[0] == prefixes@[0]@);
        proof {
            lemma_located_registered(self@.configs, metadata.ty, self@.configs.len() as int, 0);
        }
        match self.get(metadata, prefixes[0]) {
            Some(c) => Ok(c),
            None => Err(SchemaError::NotRegistered { config: metadata }),
        }
    }

    /// A handle of the only registration of the configuration type. Fails if it has none, or
    /// more than one.
    pub fn single_mut(&self, metadata: &'static ConfigMetadata) -> (r: Result<ConfigMut, SchemaError>)
        ensures
            r is Ok <==> registered_once(self@, metadata.ty),
            ({
                let locs = locations(self@, metadata.ty);
                &&& locs.len() == 0 ==> r is Err && r->Err_0@ == (SchemaErrorView::NotRegistered { config: metadata })
                &&& locs.len() >= 2 ==> r is Err && r->Err_0@ == (SchemaErrorView::MultipleLocations {
                    config: metadata,
                    first: locs[0],
                    second: locs[1],
                })
                &&& locs.len() == 1 ==> r is Ok && r->Ok_0@ == (locs[0], metadata)
            }),
    {
        let prefixes = self.locate(metadata);
        proof {
            lemma_registered_once(self@, metadata.ty);
        }
        let ghost lv = prefixes@.map_values(|p: &str| p@);
        if prefixes.len() == 0 {
            return Err(SchemaError::NotRegistered { config: metadata });
        }
        if prefixes.len() >= 2 {
            assert(lv[0] == prefixes@[0]@);
            assert(lv[1] == prefixes@[1]@);
            return Err(SchemaError::MultipleLocations {
                config: metadata,
                first: owned(prefixes[0]),
                second: owned(prefixes[1]),
            });
        }
        assert(lv[0] == prefixes@[0]@);
        Ok(ConfigMut { prefix: owned(prefixes[0]), metadata })
    }

    /// Whether the first (canonical) path of some parameter is mounted at `at`.
    pub fn contains_canonical_param(&self, at: &str) -> (r: bool)
        ensures
            r == (mount_at(self@.mounts, at@) matches Some(MountingPoint::Param { is_canonical: true, .. })),
    {
        match get_mount(&self.mounting_points, at) {
            Some(MountingPoint::Param { is_canonical, .. }) => is_canonical,
            _ => false,
        }
    }

    /// What is mounted at `at`.
    pub fn mount(&self, at: &str) -> (r: Option<MountingPoint>)
        ensures
            r == mount_at(self@.mounts, at@),
    {
        get_mount(&self.mounting_points, at)
    }
}

/// Each located prefix belongs to a registered configuration of that type.
pub proof fn lemma_located_registered(cs: Seq<EntryView>, ty: u64, n: int, i: int)
    requires
        0 <= n <= cs.len(),
        0 <= i < located(cs, ty, n).len(),
    ensures
        config_index(cs, located(cs, ty, n)[i], ty) < cs.len(),
    decreases n,
{
    if n > 0 {
        if i < located(cs, ty, n - 1).len() {
            lemma_located_registered(cs, ty, n - 1, i);
        } else {
            lemma_config_found(cs, cs[n - 1].prefix, ty, 0, n - 1);
        }
    }
}

proof fn lemma_located_member(cs: Seq<EntryView>, ty: u64, n: int, p: Seq<char>)
    requires
        0 <= n <= cs.len(),
    ensures
        located(cs, ty, n).contains(p) <==> exists|i: int|
            0 <= i < n && #[trigger] cs[i].prefix == p && cs[i].data.metadata.ty == ty,
    decreases n,
{
    if n > 0 {
        lemma_located_member(cs, ty, n - 1, p);
        let l1 = located(cs, ty, n - 1);
        let l = located(cs, ty, n);
        if l.contains(p) {
            let k = choose|k: int| 0 <= k < l.len() && l[k] == p;
            if k < l1.len() {
                assert(l1[k] == p);
                assert(l1.contains(p));
            } else {
                assert(cs[n - 1].prefix == p && cs[n - 1].data.metadata.ty == ty);
            }
        }
        if exists|i: int| 0 <= i < n && #[trigger] cs[i].prefix == p && cs[i].data.metadata.ty == ty {
            let i = choose|i: int| 0 <= i < n && #[trigger] cs[i].prefix == p && cs[i].data.metadata.ty == ty;
            if i < n - 1 {
                let k = choose|k: int| 0 <= k < l1.len() && l1[k] == p;
                assert(l[k] == p);
            } else {
                assert(l[l.len() - 1] == p);
            }
        }
    }
}

proof fn lemma_located_distinct(cs: Seq<EntryView>, ty: u64, n: int)
    requires
        0 <= n <= cs.len(),
        unique_configs(cs),
    ensures
        located(cs, ty, n).no_duplicates(),
    decreases n,
{
    if n > 0 {
        lemma_located_distinct(cs, ty, n - 1);
        if cs[n - 1].data.metadata.ty == ty {
            lemma_located_member(cs, ty, n - 1, cs[n - 1].prefix);
            let l1 = located(cs, ty, n - 1);
            assert(!l1.contains(cs[n - 1].prefix));
            let l = located(cs, ty, n);
            assert forall|i: int, j: int| 0 <= i < l.len() && 0 <= j < l.len() && i != j implies l[i] != l[j] by {
                if j == l.len() - 1 {
                    assert(l1[i] == l[i]);
                } else if i == l.len() - 1 {
                    assert(l1[j] == l[j]);
                }
            }
        }
    }
}

proof fn lemma_has_config_iff(cs: Seq<EntryView>, p: Seq<char>, ty: u64)
    ensures
        config_index(cs, p, ty) < cs.len() <==> exists|i: int|
            0 <= i < cs.len() && #[trigger] cs[i].prefix == p && cs[i].data.metadata.ty == ty,
{
    lemma_config_index_bounds(cs, p, ty, 0);
    if exists|i: int| 0 <= i < cs.len() && #[trigger] cs[i].prefix == p && cs[i].data.metadata.ty == ty {
        let i = choose|i: int| 0 <= i < cs.len() && #[trigger] cs[i].prefix == p && cs[i].data.metadata.ty == ty;
        lemma_config_found(cs, p, ty, 0, i);
    }
    if config_index(cs, p, ty) < cs.len() {
        let j = config_index(cs, p, ty);
        assert(cs[j].prefix == p);
    }
}

/// Given distinct locations that are exactly the registered prefixes, the type is
/// registered once exactly when it has one location.
proof fn lemma_registered_once(s: SchemaView, ty: u64)
    requires
        locations(s, ty).no_duplicates(),
        forall|p: Seq<char>| #[trigger] has_config(s, p, ty) <==> locations(s, ty).contains(p),
    ensures
        registered_once(s, ty) <==> locations(s, ty).len() == 1,
{
    let l = locations(s, ty);
    if l.len() == 1 {
        assert(l.contains(l[0]));
        assert(has_config(s, l[0], ty));
        assert forall|p2: Seq<char>| #[trigger] has_config(s, p2, ty) implies p2 == l[0] by {
            assert(l.contains(p2));
        }
    }
    if registered_once(s, ty) {
        let p = choose|p: Seq<char>| has_config(s, p, ty) && forall|p2: Seq<char>| #[trigger] has_config(s, p2, ty) ==> p2 == p;
        assert(l.contains(p));
        if l.len() >= 2 {
            assert(l.contains(l[0]));
            assert(l.contains(l[1]));
            assert(has_config(s, l[0], ty));
            assert(has_config(s, l[1], ty));
            assert(l[0] != l[1]);
        }
    }
}

proof fn lemma_config_found(cs: Seq<EntryView>, prefix: Seq<char>, ty: u64, i: int, j: int)
    requires
        0 <= i <= j < cs.len(),
        cs[j].prefix == prefix,
        cs[j].data.metadata.ty == ty,
    ensures
        config_index_from(cs, prefix, ty, i) <= j,
    decreases j - i,
{
    if !(cs[i].prefix == prefix && cs[i].data.metadata.ty == ty) {
        lemma_config_found(cs, prefix, ty, i + 1, j);
    }
}


/// A path as a flat key: every `.` becomes `_`.
pub open spec fn kv_form(path: Seq<char>) -> Seq<char> {
    path.map_values(|c: char| if c == '.' { '_' } else { c })
}

/// Parameter mounting points among the first `n` whose path has the flat key `kv_path`.
pub open spec fn kv_params(ms: MountsView, kv_path: Seq<char>, n: int) -> Seq<(Seq<char>, BasicTypes)>
    decreases n,
{
    if n <= 0 {
        Seq::empty()
    } else {
        kv_params(ms, kv_path, n - 1) + match ms[n - 1].1 {
            MountingPoint::Param { expecting, .. } => if kv_form(ms[n - 1].0) == kv_path {
                seq![(ms[n - 1].0, expecting)]
            } else {
                Seq::empty()
            },
            MountingPoint::Config => Seq::empty(),
        }
    }
}

fn kv_matches(path: &str, kv_path: &str) -> (r: bool)
    ensures
        r == (kv_form(path@) == kv_path@),
{
    let n = path.unicode_len();
    if n != kv_path.unicode_len() {
        proof {
            assert(kv_form(path@).len() != kv_path@.len());
        }
        return false;
    }
    let mut i: usize = 0;
    while i < n
        invariant
            0 <= i <= n,
            n == path@.len(),
            n == kv_path@.len(),
            forall|k: int| 0 <= k < i ==> kv_form(path@)[k] == kv_path@[k],
        decreases n - i,
    {
        let c = path.get_char(i);
        let flat = if c == '.' { '_' } else { c };
        if flat != kv_path.get_char(i) {
            return false;
        }
        i = i + 1;
    }
    proof {
        assert(kv_form(path@) =~= kv_path@);
    }
    true
}

impl ConfigSchema {
    /// Parameters mounted at a path whose flat key (dots replaced by underscores) is
    /// `kv_path`, with the types they expect, in mounting order.
    pub fn params_with_kv_path(&self, kv_path: &str) -> (r: Vec<(String, BasicTypes)>)
        ensures
            r@.map_values(|p: (String, BasicTypes)| (p.0@, p.1)) == kv_params(self@.mounts, kv_path@, self@.mounts.len() as int),
    {
        let ghost ms = self@.mounts;
        let mut r: Vec<(String, BasicTypes)> = Vec::new();
        let mut i: usize = 0;
        while i < self.mounting_points.len()
            invariant
                0 <= i <= self.mounting_points@.len(),
                ms == self@.mounts,
                ms == mounts_view(self.mounting_points@),
                r@.map_values(|p: (String, BasicTypes)| (p.0@, p.1)) == kv_params(ms, kv_path@, i as int),
            decreases self.mounting_points@.len() - i,
        {
            let ghost before = r@;
            match self.mounting_points[i].1 {
                MountingPoint::Param { expecting, .. } => {
                    if kv_matches(self.mounting_points[i].0.as_str(), kv_path) {
                        r.push((self.mounting_points[i].0.clone(), expecting));
                    }
                },
                MountingPoint::Config => {},
            }
            proof {
                assert(r@.map_values(|p: (String, BasicTypes)| (p.0@, p.1)) =~= kv_params(ms, kv_path@, i + 1));
            }
            i = i + 1;
        }
        r
    }
}


} // verus!
