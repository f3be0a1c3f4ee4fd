use smart_config::error::{
    ErrorWithOrigin, JsonError, LowLevelError, ParseError, ParseErrorCategory, ParseErrors,
};
use smart_config::fallback::{Fallbacks, FallbackRequest, resolve_param};
use smart_config::metadata::{AliasOptions, BasicTypes, ConfigMetadata, ParamMetadata, INTEGER_BIT, STRING_BIT};
use smart_config::value::{Value, ValueOrigin, WithOrigin};

fn meta(name: &'static str, params: Vec<ParamMetadata>) -> &'static ConfigMetadata {
    Box::leak(Box::new(ConfigMetadata {
        ty: 100,
        name,
        params: Box::leak(params.into_boxed_slice()),
        nested_configs: vec![],
    }))
}

fn plain_param(name: &'static str, field: &'static str, bits: u8) -> ParamMetadata {
    const NO_ALIASES: &[(&str, AliasOptions)] = &[];
    ParamMetadata {
        name,
        aliases: NO_ALIASES,
        rust_field_name: field,
        expecting: BasicTypes { bits },
        tag_variant: None,
        fallback: None,
    }
}

fn server_meta() -> &'static ConfigMetadata {
    meta("ServerConfig", vec![plain_param("port", "port", INTEGER_BIT)])
}

fn missing_port(path: &str, origin: ValueOrigin, validation: Option<String>) -> ParseError {
    ParseError {
        inner: JsonError::missing_field("port"),
        category: ParseErrorCategory::MissingField,
        path: path.to_owned(),
        origin,
        config: server_meta(),
        param_index: Some(0),
        validation,
    }
}

#[test]
fn missing_field_error_mentions_param_config_and_path() {
    let err = missing_port("server.port", ValueOrigin::Unknown, None);
    let text = err.to_string();
    assert!(text.contains("param `port`"), "{text}");
    assert!(text.contains("ServerConfig"), "{text}");
    assert!(text.contains("server.port"), "{text}");
    assert_eq!(
        text,
        "error parsing param `port` in `ServerConfig` at `server.port`: missing field `port`"
    );
    assert_eq!(err.param().unwrap().name, "port");
    assert_eq!(err.category(), ParseErrorCategory::MissingField);
    assert_eq!(err.path(), "server.port");
}

#[test]
fn error_text_with_origin_and_validation() {
    let origin = ValueOrigin::Path { source: Box::new(ValueOrigin::EnvVars), path: "APP_PORT".to_owned() };
    let err = missing_port("server.port", origin, Some("port > 0".to_owned()));
    assert_eq!(
        err.to_string(),
        "error validating 'port > 0' for param `port` in `ServerConfig` at `server.port` \
         [origin: env variables -> path `APP_PORT`]: missing field `port`"
    );
    assert_eq!(err.validation(), Some("port > 0"));
}

#[test]
fn generic_error_is_not_attributed_to_param() {
    let err = ParseError::generic("server".to_owned(), server_meta());
    assert!(err.param().is_none());
    assert_eq!(err.category(), ParseErrorCategory::Generic);
    assert!(matches!(err.origin(), ValueOrigin::Unknown));
    assert_eq!(
        err.to_string(),
        "error parsing `ServerConfig` at `server`: unspecified error deserializing configuration"
    );
    assert_eq!(err.inner().to_string(), "unspecified error deserializing configuration");
}

#[test]
fn no_errors_collect_to_success() {
    assert!(ParseErrors::collect(vec![]).is_ok());
}

#[test]
fn errors_collect_in_order() {
    let errs = vec![
        missing_port("a.port", ValueOrigin::Unknown, None),
        missing_port("b.port", ValueOrigin::Unknown, None),
        ParseError::generic("c".to_owned(), server_meta()),
    ];
    let errors = ParseErrors::collect(errs).unwrap_err();
    assert_eq!(errors.len(), 3);
    assert_eq!(errors.first().path(), "a.port");
    let paths: Vec<&str> = errors.iter().iter().map(|e| e.path()).collect();
    assert_eq!(paths, vec!["a.port", "b.port", "c"]);
    let report = errors.to_string();
    assert_eq!(report.lines().count(), 3);
    assert!(report.ends_with('\n'));
    assert_eq!(errors.into_vec().len(), 3);
}

#[test]
fn low_level_error_texts() {
    assert_eq!(LowLevelError::InvalidArray.describe(), "error(s) deserializing array items");
    assert_eq!(LowLevelError::InvalidObject.describe(), "error(s) deserializing object entries");
    assert_eq!(LowLevelError::Validation.describe(), "validation failed");
    let custom = ErrorWithOrigin::custom("bad value");
    assert_eq!(custom.inner.describe(), "bad value");
    let missing = ErrorWithOrigin::missing_field("port");
    assert_eq!(missing.inner.describe(), "missing field `port`");
    assert!(matches!(
        missing.inner,
        LowLevelError::Json { category: ParseErrorCategory::MissingField, .. }
    ));
}

fn log_meta() -> &'static ConfigMetadata {
    meta("TestConfig", vec![plain_param("log", "log_directives", STRING_BIT)])
}

fn env_value(s: &str) -> WithOrigin {
    WithOrigin::new(
        Value::String(s.to_owned()),
        ValueOrigin::Path { source: Box::new(ValueOrigin::EnvVars), path: "RUST_LOG".to_owned() },
    )
}

#[test]
fn fallback_value_used_when_nothing_supplied() {
    let requests = vec![FallbackRequest { prefix: "app".to_owned(), config: log_meta(), param_index: 0 }];
    let fallbacks = Fallbacks::new(&requests, vec![Some(env_value("warn"))]).unwrap();
    assert!(matches!(fallbacks.origin, ValueOrigin::Fallbacks));
    assert_eq!(fallbacks.entries.len(), 1);
    let entry = fallbacks.entries.into_iter().next().unwrap();
    assert_eq!(entry.prefix, "app");
    assert_eq!(entry.name, "log");
    match &entry.value.origin {
        ValueOrigin::Synthetic { transform, source } => {
            assert_eq!(transform, "fallback for `TestConfig.log_directives`");
            assert!(matches!(**source, ValueOrigin::Path { .. }));
        }
        other => panic!("unexpected origin {other:?}"),
    }
    let resolved = resolve_param(vec![None, None], Some(entry.value)).unwrap();
    assert!(matches!(resolved.inner, Value::String(ref s) if s == "warn"));
    assert!(matches!(resolved.origin, ValueOrigin::Synthetic { .. }));
}

#[test]
fn supplied_value_beats_fallback() {
    let supplied = WithOrigin::new(Value::String("info".to_owned()), ValueOrigin::Unknown);
    let resolved = resolve_param(vec![None, Some(supplied)], Some(env_value("warn"))).unwrap();
    assert!(matches!(resolved.inner, Value::String(ref s) if s == "info"));
    assert!(matches!(resolved.origin, ValueOrigin::Unknown));
    assert!(resolve_param(vec![None], None).is_none());
}

#[test]
fn no_fallback_values_means_no_overlay() {
    let requests = vec![FallbackRequest { prefix: "app".to_owned(), config: log_meta(), param_index: 0 }];
    assert!(Fallbacks::new(&requests, vec![None]).is_none());
    assert!(Fallbacks::new(&vec![], vec![]).is_none());
}

#[test]
fn origin_descriptions() {
    let o = ValueOrigin::Synthetic {
        source: Box::new(ValueOrigin::Fallbacks),
        transform: "fallback for `A.b`".to_owned(),
    };
    assert_eq!(o.describe(), "fallbacks -> fallback for `A.b`");
    assert!(!o.is_unknown());
    assert!(ValueOrigin::Unknown.is_unknown());
}

#[test]
fn fallback_paths_join_prefix_and_name() {
    let requests = vec![
        FallbackRequest { prefix: "app".to_owned(), config: log_meta(), param_index: 0 },
        FallbackRequest { prefix: String::new(), config: log_meta(), param_index: 0 },
    ];
    let fallbacks = Fallbacks::new(&requests, vec![Some(env_value("a")), Some(env_value("b"))]).unwrap();
    let paths: Vec<String> = fallbacks.into_paths().into_iter().map(|(p, _)| p).collect();
    assert_eq!(paths, vec!["app.log", "log"]);
}

#[test]
fn error_with_origin_text() {
    let mut err = ErrorWithOrigin::custom("bad value");
    assert_eq!(err.to_string(), "[unknown]: bad value");
    err.origin = ValueOrigin::EnvVars;
    assert_eq!(err.to_string(), "[env variables]: bad value");
}

#[test]
fn fallback_values_are_keyed_by_prefix_and_name() {
    let requests = vec![
        FallbackRequest { prefix: "app".to_owned(), config: log_meta(), param_index: 0 },
        FallbackRequest { prefix: "app".to_owned(), config: log_meta(), param_index: 0 },
    ];
    let fallbacks = Fallbacks::new(&requests, vec![Some(env_value("first")), Some(env_value("second"))]).unwrap();
    assert_eq!(fallbacks.entries.len(), 1);
    assert!(matches!(fallbacks.entries[0].value.inner, Value::String(ref s) if s == "second"));
}

#[test]
fn env_source_value_has_env_origin() {
    let v = smart_config::fallback::Env("RUST_LOG").value_of("warn".to_owned());
    assert!(matches!(v.inner, Value::String(ref s) if s == "warn"));
    match v.origin {
        ValueOrigin::Path { source, path } => {
            assert_eq!(path, "RUST_LOG");
            assert!(matches!(*source, ValueOrigin::EnvVars));
        }
        other => panic!("unexpected {other:?}"),
    }
}
