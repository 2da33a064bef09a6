use neomake::error::{
    format_cycle, line_suffix, CacheError, ConfigError, CoreError, DagError, ExecError, IoError,
    IoErrorKind,
};
use neomake::tomlx_error::TomlxError;

fn io(message: &str) -> IoError {
    IoError { kind: IoErrorKind::Other, message: message.to_string() }
}

#[test]
fn configuration_errors_name_path_and_line() {
    let with_line = ConfigError::new("a.toml".to_string(), Some(12), "oops".to_string());
    assert_eq!(with_line.display(), "a.toml:12: oops");
    let without = ConfigError::new("a.toml".to_string(), None, "oops".to_string());
    assert_eq!(without.display(), "a.toml: oops");
    assert_eq!(line_suffix(Some(0)), ":0");
    assert_eq!(line_suffix(None), "");
}

#[test]
fn graph_errors_are_spelled_out() {
    let path = vec!["a".to_string(), "b".to_string(), "a".to_string()];
    assert_eq!(format_cycle(&path), "a -> b -> a");
    assert_eq!(format_cycle(&[]), "");
    assert_eq!(DagError::Cycle { path }.display(), "dependency cycle detected: a -> b -> a");
    let unknown = DagError::UnknownDependency { task: "a".to_string(), missing: "x".to_string() };
    assert_eq!(unknown.display(), "task `a` depends on unknown task `x`");
    let repeated = DagError::DuplicateTask { task: "a".to_string() };
    assert_eq!(repeated.display(), "duplicate task definition: `a`");
}

#[test]
fn execution_errors_are_spelled_out() {
    let failed = ExecError::TaskFailed { task: "a".to_string(), code: -2147483648 };
    assert_eq!(failed.display(), "task `a` failed with exit code -2147483648");
    let upstream = ExecError::UpstreamFailed { task: "b".to_string(), upstream: "a".to_string() };
    assert_eq!(upstream.display(), "task `b` skipped because upstream dependency `a` failed");
    let failure = ExecError::Io { task: "a".to_string(), source: io("gone") };
    assert_eq!(failure.display(), "task `a`: i/o error: gone");
}

#[test]
fn cache_errors_are_spelled_out() {
    let failure = CacheError::Io { path: "d".to_string(), source: io("full") };
    assert_eq!(failure.display(), "cache i/o error at d: full");
    let corrupt = CacheError::Corrupt { path: "d/e".to_string(), message: "bad header".to_string() };
    assert_eq!(corrupt.display(), "corrupt cache entry at d/e: bad header");
}

#[test]
fn every_error_becomes_a_core_error_that_says_the_same() {
    let config = ConfigError::new("a.toml".to_string(), None, "oops".to_string());
    assert_eq!(CoreError::from(config).display(), "a.toml: oops");
    let unknown = DagError::UnknownDependency { task: "a".to_string(), missing: "x".to_string() };
    assert_eq!(CoreError::from(unknown).display(), "task `a` depends on unknown task `x`");
    let failed = ExecError::TaskFailed { task: "a".to_string(), code: 2 };
    assert_eq!(CoreError::from(failed).display(), "task `a` failed with exit code 2");
    let corrupt = CacheError::Corrupt { path: "p".to_string(), message: "m".to_string() };
    assert!(matches!(CoreError::from(corrupt), CoreError::Cache(_)));
}

#[test]
fn tomlx_errors_name_line_and_column() {
    let e = TomlxError::new("a.tomlx".to_string(), 3, 14, "undefined variable `x`".to_string());
    assert_eq!(e.display(), "a.tomlx:3:14: undefined variable `x`");
    let e = TomlxError::at_unknown("a.tomlx".to_string(), "oops".to_string());
    assert_eq!(e.clone().display(), "a.tomlx:0:0: oops");
}
