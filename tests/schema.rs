use smart_config::fallback::{Env, FallbackSource};
use smart_config::metadata::{
    tag_segment, AliasOptions, BasicTypes, ConfigMetadata, ConfigVariant, NestedConfigMetadata,
    ParamMetadata, INTEGER_BIT, STRING_BIT,
};
use smart_config::mount::MountingPoint;
use smart_config::path::{join, join_path, parent};
use smart_config::schema::{ConfigSchema, SchemaError};

const PLAIN: AliasOptions = AliasOptions { is_deprecated: false };
const DEPRECATED: AliasOptions = AliasOptions { is_deprecated: true };

fn param(
    name: &'static str,
    aliases: &'static [(&'static str, AliasOptions)],
    bits: u8,
) -> ParamMetadata {
    ParamMetadata {
        name,
        aliases,
        rust_field_name: name,
        expecting: BasicTypes { bits },
        tag_variant: None,
        fallback: None,
    }
}

fn config(
    ty: u64,
    name: &'static str,
    params: Vec<ParamMetadata>,
    nested: Vec<NestedConfigMetadata>,
) -> &'static ConfigMetadata {
    Box::leak(Box::new(ConfigMetadata {
        ty,
        name,
        params: Box::leak(params.into_boxed_slice()),
        nested_configs: nested,
    }))
}

fn nested(name: &'static str, meta: &'static ConfigMetadata) -> NestedConfigMetadata {
    NestedConfigMetadata { name, aliases: &[], meta, tag_variant: None }
}

fn server_config() -> &'static ConfigMetadata {
    config(1, "ServerConfig", vec![param("port", &[("listen_port", PLAIN)], INTEGER_BIT)], vec![])
}

fn paths_of(schema: &ConfigSchema, meta: &'static ConfigMetadata, prefix: &str, k: usize) -> Vec<(String, AliasOptions)> {
    let c = schema.get(meta, prefix).expect("registered");
    c.all_paths_for_param(&meta.params[k])
}

fn is_param(m: Option<MountingPoint>, canonical: bool) -> bool {
    matches!(m, Some(MountingPoint::Param { is_canonical, .. }) if is_canonical == canonical)
}

#[test]
fn insert_mounts_config_and_params() {
    let meta = server_config();
    let mut schema = ConfigSchema::default();
    assert!(schema.insert(meta, "server").is_ok());
    assert_eq!(
        paths_of(&schema, meta, "server", 0),
        vec![("server.port".to_owned(), PLAIN), ("server.listen_port".to_owned(), PLAIN)]
    );
    assert_eq!(schema.mount("server"), Some(MountingPoint::Config));
    assert!(is_param(schema.mount("server.port"), true));
    assert!(is_param(schema.mount("server.listen_port"), false));
    assert!(schema.contains_canonical_param("server.port"));
    assert!(!schema.contains_canonical_param("server.listen_port"));
    assert_eq!(schema.mount("other"), None);
    let c = schema.single(meta).unwrap();
    assert_eq!(c.prefix(), "server");
    assert!(c.is_top_level());
    assert_eq!(c.metadata().name, "ServerConfig");
    assert!(c.aliases().is_empty());
}

#[test]
fn new_schema_holds_one_config() {
    let meta = server_config();
    let schema = ConfigSchema::new(meta, "server");
    assert_eq!(schema.iter().len(), 1);
    assert_eq!(schema.locate(meta), vec!["server"]);
}

#[test]
fn insert_twice_is_idempotent() {
    let meta = server_config();
    let mut schema = ConfigSchema::default();
    schema.insert(meta, "server").unwrap();
    let before = format!("{schema:?}");
    assert!(schema.insert(meta, "server").is_ok());
    assert_eq!(format!("{schema:?}"), before);
    assert_eq!(schema.iter().len(), 1);
    assert!(schema.get(meta, "server").unwrap().aliases().is_empty());
}

#[test]
fn param_at_config_path_fails_without_change() {
    let inner = config(2, "Inner", vec![param("x", &[], STRING_BIT)], vec![]);
    let outer = config(3, "Outer", vec![], vec![nested("db", inner)]);
    let mut schema = ConfigSchema::default();
    schema.insert(outer, "app").unwrap();
    assert_eq!(schema.iter().len(), 2);
    let clash = config(4, "Clash", vec![param("db", &[], STRING_BIT)], vec![]);
    let before = format!("{schema:?}");
    let err = schema.insert(clash, "app").unwrap_err();
    assert!(matches!(err, SchemaError::ParamAtConfig { ref path, param: 0, .. } if path == "app.db"));
    assert_eq!(format!("{schema:?}"), before);
    assert!(schema.get(clash, "app").is_none());
}

#[test]
fn config_at_param_path_fails_without_change() {
    let meta = server_config();
    let mut schema = ConfigSchema::default();
    schema.insert(meta, "server").unwrap();
    let other = config(5, "Other", vec![], vec![]);
    let before = format!("{schema:?}");
    let err = schema.insert(other, "server.port").unwrap_err();
    assert!(matches!(err, SchemaError::ConfigAtParam { ref path, .. } if path == "server.port"));
    assert_eq!(format!("{schema:?}"), before);
}

#[test]
fn param_type_mismatch_fails_and_equal_types_share() {
    let a = config(6, "A", vec![param("x", &[], STRING_BIT)], vec![]);
    let b = config(7, "B", vec![param("x", &[], INTEGER_BIT)], vec![]);
    let c = config(8, "C", vec![param("x", &[], STRING_BIT)], vec![]);
    let mut schema = ConfigSchema::default();
    schema.insert(a, "a").unwrap();
    let before = format!("{schema:?}");
    let err = schema.insert(b, "a").unwrap_err();
    match err {
        SchemaError::TypeMismatch { path, existing, .. } => {
            assert_eq!(path, "a.x");
            assert_eq!(existing, BasicTypes { bits: STRING_BIT });
        }
        other => panic!("unexpected error {other:?}"),
    }
    assert_eq!(format!("{schema:?}"), before);
    assert!(schema.insert(c, "a").is_ok());
    assert!(is_param(schema.mount("a.x"), true));
    assert_eq!(schema.iter().len(), 2);
}

#[test]
fn push_alias_then_deprecated_alias() {
    let meta = server_config();
    let mut schema = ConfigSchema::default();
    let handle = schema.insert(meta, "server").unwrap();
    let handle = handle.push_alias(&mut schema, "http").unwrap();
    let handle = handle.push_deprecated_alias(&mut schema, "legacy").unwrap();
    assert_eq!(handle.prefix(), "server");
    assert_eq!(
        handle.aliases(&schema).unwrap(),
        vec![("http".to_owned(), PLAIN), ("legacy".to_owned(), DEPRECATED)]
    );
    assert_eq!(
        paths_of(&schema, meta, "server", 0),
        vec![
            ("server.port".to_owned(), PLAIN),
            ("server.listen_port".to_owned(), PLAIN),
            ("http.port".to_owned(), PLAIN),
            ("http.listen_port".to_owned(), PLAIN),
            ("legacy.port".to_owned(), DEPRECATED),
            ("legacy.listen_port".to_owned(), DEPRECATED),
        ]
    );
    assert_eq!(schema.mount("http"), Some(MountingPoint::Config));
    assert!(is_param(schema.mount("http.port"), true));
    assert!(is_param(schema.mount("legacy.listen_port"), false));
    // Pushing an existing alias changes nothing.
    let before = format!("{schema:?}");
    let handle = handle.push_alias(&mut schema, "http").unwrap();
    assert_eq!(format!("{schema:?}"), before);
    assert_eq!(handle.aliases(&schema).unwrap().len(), 2);
}

#[test]
fn push_alias_on_param_path_fails() {
    let meta = server_config();
    let mut schema = ConfigSchema::default();
    let handle = schema.insert(meta, "server").unwrap();
    let before = format!("{schema:?}");
    let err = handle.push_alias(&mut schema, "server.port").unwrap_err();
    assert!(matches!(err, SchemaError::ConfigAtParam { .. }));
    assert_eq!(format!("{schema:?}"), before);
}

#[test]
fn enum_tag_coercion_adds_tag_paths() {
    static VARIANT: ConfigVariant = ConfigVariant { name: "Foo", aliases: &["Bar"] };
    let mut p = param("baz", &[("qux", PLAIN)], STRING_BIT);
    p.tag_variant = Some(&VARIANT);
    let meta = config(9, "Tagged", vec![p], vec![]);
    let mut schema = ConfigSchema::default();
    schema.coerce_serde_enums(true);
    schema.insert(meta, "prefix").unwrap();
    let paths: Vec<String> = paths_of(&schema, meta, "prefix", 0).into_iter().map(|(p, _)| p).collect();
    assert_eq!(
        paths,
        vec![
            "prefix.baz", "prefix.qux", "prefix.foo.baz", "prefix.foo.qux", "prefix.bar.baz",
            "prefix.bar.qux",
        ]
    );
    for path in &paths {
        assert!(schema.mount(path).is_some());
    }
}

#[test]
fn enum_tag_coercion_off_by_default() {
    static VARIANT: ConfigVariant = ConfigVariant { name: "Foo", aliases: &[] };
    let mut p = param("baz", &[], STRING_BIT);
    p.tag_variant = Some(&VARIANT);
    let meta = config(10, "Tagged2", vec![p], vec![]);
    let mut schema = ConfigSchema::default();
    schema.insert(meta, "prefix").unwrap();
    assert_eq!(paths_of(&schema, meta, "prefix", 0), vec![("prefix.baz".to_owned(), PLAIN)]);
}

#[test]
fn enum_tag_coercion_skips_path_aliases_and_bad_tags() {
    static VARIANT: ConfigVariant = ConfigVariant { name: "SomeTag", aliases: &["not a tag"] };
    let mut p = param("baz", &[(".other", PLAIN)], STRING_BIT);
    p.tag_variant = Some(&VARIANT);
    let meta = config(11, "Tagged3", vec![p], vec![]);
    let mut schema = ConfigSchema::default();
    schema.coerce_serde_enums(true);
    schema.insert(meta, "a.b").unwrap();
    let paths: Vec<String> = paths_of(&schema, meta, "a.b", 0).into_iter().map(|(p, _)| p).collect();
    assert_eq!(paths, vec!["a.b.baz", "a.b.other", "a.b.some_tag.baz"]);
}

#[test]
fn tag_segments() {
    assert_eq!(tag_segment("FooBar"), Some("foo_bar".to_owned()));
    assert_eq!(tag_segment("Foo"), Some("foo".to_owned()));
    assert_eq!(tag_segment("already_snake"), Some("already_snake".to_owned()));
    assert_eq!(tag_segment(""), None);
    assert_eq!(tag_segment("9Lives"), None);
    assert_eq!(tag_segment("Has Space"), None);
}

#[test]
fn path_joining() {
    assert_eq!(join("", "a"), "a");
    assert_eq!(join("a", ""), "a");
    assert_eq!(join("a.b", "c"), "a.b.c");
    assert_eq!(parent("a.b.c"), Some("a.b".to_owned()));
    assert_eq!(parent("a"), Some(String::new()));
    assert_eq!(parent(""), None);
    assert_eq!(join_path("a.b", "c"), Some("a.b.c".to_owned()));
    assert_eq!(join_path("a.b", ".c.d"), Some("a.b.c.d".to_owned()));
    assert_eq!(join_path("a.b", "..c"), Some("a.c".to_owned()));
    assert_eq!(join_path("a.b", "...c"), Some("c".to_owned()));
    assert_eq!(join_path("a.b", "....c"), None);
}

#[test]
fn nested_and_flattened_configs() {
    let inner = config(12, "Inner", vec![param("x", &[], STRING_BIT)], vec![]);
    let flat = config(13, "Flat", vec![param("y", &[], STRING_BIT)], vec![]);
    let outer = config(14, "Outer", vec![], vec![nested("inner", inner), nested("", flat)]);
    let mut schema = ConfigSchema::default();
    schema.insert(outer, "app").unwrap();
    assert_eq!(schema.iter().len(), 3);
    assert!(is_param(schema.mount("app.inner.x"), true));
    assert!(is_param(schema.mount("app.y"), true));
    let inner_ref = schema.get(inner, "app.inner").unwrap();
    assert!(!inner_ref.is_top_level());
    let (parent_ref, link) = inner_ref.parent_link().unwrap();
    assert_eq!(parent_ref.prefix(), "app");
    assert_eq!(link.name, "inner");
    let flat_ref = schema.get(flat, "app").unwrap();
    let (parent_ref, link) = flat_ref.parent_link().unwrap();
    assert_eq!(parent_ref.prefix(), "app");
    assert_eq!(link.name, "");
    assert!(schema.get(outer, "app").unwrap().parent_link().is_none());
}

#[test]
fn single_reports_missing_and_duplicate() {
    let meta = server_config();
    let mut schema = ConfigSchema::default();
    assert!(matches!(schema.single(meta), Err(SchemaError::NotRegistered { .. })));
    assert!(matches!(schema.single_mut(meta), Err(SchemaError::NotRegistered { .. })));
    schema.insert(meta, "a").unwrap();
    assert_eq!(schema.single_mut(meta).unwrap().prefix(), "a");
    schema.insert(meta, "b").unwrap();
    match schema.single(meta) {
        Err(SchemaError::MultipleLocations { first, second, .. }) => {
            assert_eq!(first, "a");
            assert_eq!(second, "b");
        }
        other => panic!("unexpected {other:?}"),
    }
    assert!(matches!(schema.single_mut(meta), Err(SchemaError::MultipleLocations { .. })));
    assert_eq!(schema.locate(meta), vec!["a", "b"]);
    assert!(schema.get_mut(meta, "b").is_some());
    assert!(schema.get_mut(meta, "c").is_none());
}

#[test]
fn fallback_source_in_metadata() {
    static SOURCE: FallbackSource = FallbackSource::Env(Env("RUST_LOG"));
    let mut p = param("log", &[], STRING_BIT);
    p.fallback = Some(&SOURCE);
    let meta = config(15, "LogConfig", vec![p], vec![]);
    let schema = ConfigSchema::new(meta, "");
    let requests = smart_config::fallback::fallback_requests(&schema);
    assert_eq!(requests.len(), 1);
    assert_eq!(requests[0].prefix, "");
    assert_eq!(requests[0].param_index, 0);
    assert!(matches!(requests[0].source(), Some(FallbackSource::Env(Env("RUST_LOG")))));
}

#[test]
fn params_found_by_flat_key() {
    let meta = config(16, "Flat", vec![param("max_size", &[], INTEGER_BIT)], vec![]);
    let mut schema = ConfigSchema::default();
    schema.insert(meta, "cache.items").unwrap();
    assert_eq!(
        schema.params_with_kv_path("cache_items_max_size"),
        vec![("cache.items.max_size".to_owned(), BasicTypes { bits: INTEGER_BIT })]
    );
    assert!(schema.params_with_kv_path("cache_items").is_empty());
    assert!(schema.params_with_kv_path("cache.items.max_size").is_empty());
}

#[test]
fn existing_param_mount_keeps_its_canonical_flag() {
    let a = config(17, "A", vec![param("x", &[("y", PLAIN)], STRING_BIT)], vec![]);
    let b = config(18, "B", vec![param("y", &[], STRING_BIT)], vec![]);
    let mut schema = ConfigSchema::default();
    schema.insert(a, "a").unwrap();
    assert!(is_param(schema.mount("a.y"), false));
    schema.insert(b, "a").unwrap();
    // `a.y` is the first path of B's param, but A registered it first, as an alias.
    assert!(is_param(schema.mount("a.y"), false));
    assert!(is_param(schema.mount("a.x"), true));
}

#[test]
fn schema_error_messages() {
    let inner = config(19, "Inner", vec![param("x", &[], STRING_BIT)], vec![]);
    let outer = config(20, "Outer", vec![], vec![nested("db", inner)]);
    let clash = config(21, "Clash", vec![param("db", &[], STRING_BIT)], vec![]);
    let mut schema = ConfigSchema::default();
    schema.insert(outer, "app").unwrap();
    assert_eq!(
        schema.insert(clash, "app").unwrap_err().to_string(),
        "Cannot insert param `db` [Rust field: `db`] from config `Clash` at `app.db`: \
         config(s) are already mounted at this path"
    );
    let other = config(22, "Other", vec![param("x", &[], INTEGER_BIT)], vec![]);
    assert_eq!(
        schema.insert(other, "app.db").unwrap_err().to_string(),
        "Cannot insert param `x` [Rust field: `x`] from config `Other` at `app.db.x`: \
         it expects integer, while the existing param(s) mounted at this path expect string"
    );
    let bare = config(23, "Bare", vec![], vec![]);
    assert_eq!(
        schema.insert(bare, "app.db.x").unwrap_err().to_string(),
        "Cannot mount config `Bare` at `app.db.x` because parameter(s) are already mounted at this path"
    );
    assert_eq!(
        schema.single(bare).unwrap_err().to_string(),
        "configuration `Bare` is not registered in schema"
    );
    schema.insert(bare, "one").unwrap();
    schema.insert(bare, "two").unwrap();
    assert_eq!(
        schema.single(bare).unwrap_err().to_string(),
        "configuration `Bare` is registered in at least 2 locations: \"one\", \"two\""
    );
}

#[test]
fn alias_on_config_with_nested_updates_only() {
    let inner = config(24, "Inner", vec![param("x", &[], STRING_BIT)], vec![]);
    let outer = config(25, "Outer", vec![], vec![nested("db", inner)]);
    let mut schema = ConfigSchema::default();
    let handle = schema.insert(outer, "app").unwrap();
    assert_eq!(schema.iter().len(), 2);
    handle.push_alias(&mut schema, "legacy").unwrap();
    assert_eq!(schema.iter().len(), 2);
    assert!(is_param(schema.mount("legacy.db.x"), true));
    let inner_ref = schema.get(inner, "app.db").unwrap();
    assert_eq!(inner_ref.aliases(), vec![("legacy.db".to_owned(), PLAIN)]);
    assert!(std::ptr::eq(inner_ref.metadata(), inner));
}

#[test]
fn parent_link_names_this_configuration() {
    let inner = config(26, "Inner", vec![param("x", &[], STRING_BIT)], vec![]);
    let outer = config(27, "Outer", vec![], vec![nested("db", inner)]);
    let mut schema = ConfigSchema::default();
    schema.insert(outer, "app").unwrap();
    for r in schema.iter() {
        match r.parent_link() {
            None => assert!(r.is_top_level()),
            Some((parent, link)) => {
                assert!(!r.is_top_level());
                assert!(std::ptr::eq(link.meta, r.metadata()));
                assert_eq!(parent.prefix(), "app");
            }
        }
    }
}
