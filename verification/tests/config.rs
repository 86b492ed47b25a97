use std::path::PathBuf;

use bloomy::config::{config_path_from_args, validate, DEFAULT_MEMTABLE_BYTES};
use bloomy::error::Error;
use bloomy::{BloomyConfig, BloomyOptions};

#[test]
fn config_path_from_args_accepts_config_path() {
    let path = config_path_from_args(
        ["--config".to_string(), "local/bloomy.json".to_string()].into_iter().collect(),
    )
    .unwrap();

    assert_eq!(path.map(PathBuf::from), Some(PathBuf::from("local/bloomy.json")));
}

#[test]
fn config_path_from_args_rejects_binary_alias() {
    let error = config_path_from_args(
        ["--binary".to_string(), "local/bloomy.json".to_string()].into_iter().collect(),
    )
    .unwrap_err();

    assert!(error.message().contains("unknown argument: --binary"));
}

#[test]
fn config_path_from_args_other_shapes() {
    assert_eq!(config_path_from_args(Vec::new()).unwrap(), None);
    let missing = config_path_from_args(vec!["--config".to_string()]).unwrap_err();
    assert_eq!(missing.message(), "--config requires a path");
    let extra = config_path_from_args(vec![
        "--config".to_string(),
        "a.json".to_string(),
        "b.json".to_string(),
    ])
    .unwrap_err();
    assert_eq!(extra, Error::UnknownArgument { arg: "b.json".to_string() });
}

#[test]
fn default_config_is_valid() {
    let config = BloomyConfig::default();
    assert_eq!(config.storage_path, "./bloomy-data");
    assert_eq!(config.memtable_bytes, DEFAULT_MEMTABLE_BYTES);
    assert_eq!(DEFAULT_MEMTABLE_BYTES, 4 * 1024 * 1024);
    assert!(validate(&config).is_ok());
}

#[test]
fn validate_rejects_empty_path_and_zero_memtable() {
    let empty = BloomyConfig { storage_path: String::new(), memtable_bytes: 0 };
    assert_eq!(validate(&empty), Err(Error::EmptyStoragePath));
    assert_eq!(
        validate(&empty).unwrap_err().message(),
        "storage_path must not be empty"
    );
    let zero = BloomyConfig { storage_path: "./data".to_string(), memtable_bytes: 0 };
    assert_eq!(
        validate(&zero).unwrap_err().message(),
        "memtable_bytes must be greater than zero"
    );
}

#[test]
fn options_follow_config_and_defaults() {
    let options = BloomyOptions::new("./x".to_string());
    assert_eq!(options.path, "./x");
    assert_eq!(options.memtable_bytes, DEFAULT_MEMTABLE_BYTES);
    let options = BloomyOptions::from(BloomyConfig {
        storage_path: "./tmp-data".to_string(),
        memtable_bytes: 1024,
    });
    assert_eq!(options.path, "./tmp-data");
    assert_eq!(options.memtable_bytes, 1024);
}
