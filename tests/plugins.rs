use xtomate::config::Config;
use xtomate::executor::RunError;
use xtomate::plugins::{
    classify_source, library_file_name, validate_manifest, PluginManager, PluginManifest, SourceKind,
};
use xtomate::versions::{check_engine_version, satisfies, VersionError};

fn manifest(name: &str, version: &str, runner: &str) -> PluginManifest {
    PluginManifest {
        name: name.to_string(),
        version: version.to_string(),
        runner_version: runner.to_string(),
        build: "make".to_string(),
        output_dir: "target".to_string(),
    }
}

#[test]
fn test_load_or_default() {
    let default_dir = directories::ProjectDirs::from("me", "vyPal", "XTomate")
        .unwrap()
        .data_dir()
        .to_str()
        .unwrap()
        .to_string();
    let (config, save) =
        Config::load_or_default(None, Config { plugin_dir: default_dir.clone() }, false);
    assert_eq!(config.get_plugin_dir(), default_dir);
    assert!(!save);
}

#[test]
fn load_or_default_prefers_stored_config() {
    let stored = Config { plugin_dir: "/stored".to_string() };
    let (config, save) =
        Config::load_or_default(Some(stored), Config { plugin_dir: "/default".to_string() }, true);
    assert_eq!(config.get_plugin_dir(), "/stored");
    assert!(!save);
    let (config, save) = Config::load_or_default(None, Config { plugin_dir: "/default".to_string() }, true);
    assert_eq!(config.get_plugin_dir(), "/default");
    assert!(save);
}

#[test]
fn version_requirements() {
    assert_eq!(satisfies("^0.1", "0.1.5"), Ok(true));
    assert_eq!(satisfies(">=1.0.0", "0.1.0"), Ok(false));
    assert_eq!(satisfies("@1", "0.1.0"), Err(VersionError::BadRequirement));
    assert_eq!(satisfies("*", "1.0"), Err(VersionError::BadVersion));
    assert_eq!(check_engine_version("^0.1", "0.1.0"), Ok(()));
    assert_eq!(check_engine_version("^2", "0.1.0"), Err(RunError::VersionMismatch));
    assert_eq!(check_engine_version("nonsense!", "0.1.0"), Err(RunError::VersionMismatch));
}

#[test]
fn manifest_checks() {
    assert_eq!(validate_manifest("p", "^1", &manifest("p", "1.2.0", "^0.1"), "0.1.0"), Ok(()));
    assert_eq!(
        validate_manifest("p", "^1", &manifest("q", "1.2.0", "^0.1"), "0.1.0"),
        Err(RunError::PluginManifestInvalid)
    );
    assert_eq!(
        validate_manifest("p", "^2", &manifest("p", "1.2.0", "^0.1"), "0.1.0"),
        Err(RunError::VersionMismatch)
    );
    assert_eq!(
        validate_manifest("p", "^1", &manifest("p", "1.2", "^0.1"), "0.1.0"),
        Err(RunError::PluginManifestInvalid)
    );
    assert_eq!(
        validate_manifest("p", "^1", &manifest("p", "1.2.0", "^3"), "0.1.0"),
        Err(RunError::VersionMismatch)
    );
}

#[test]
fn source_classification() {
    match classify_source("https://example.com/p.git", false) {
        SourceKind::Git(u) => assert_eq!(u, "https://example.com/p.git"),
        _ => panic!(),
    }
    match classify_source("owner/repo", false) {
        SourceKind::Git(u) => assert_eq!(u, "https://github.com/owner/repo"),
        _ => panic!(),
    }
    match classify_source("owner/repo", true) {
        SourceKind::Local(p) => assert_eq!(p, "owner/repo"),
        _ => panic!(),
    }
    match classify_source("/abs/path/plugin", false) {
        SourceKind::Local(p) => assert_eq!(p, "/abs/path/plugin"),
        _ => panic!(),
    }
    match classify_source("git@host:x.git", false) {
        SourceKind::Git(u) => assert_eq!(u, "git@host:x.git"),
        _ => panic!(),
    }
}

#[test]
fn library_names() {
    assert_eq!(library_file_name("lib", "hello", ".so"), "libhello.so");
    assert_eq!(library_file_name("", "hello", ".dll"), "hello.dll");
}

#[test]
fn registry_adds_once_with_default_requirement() {
    let mut m = PluginManager::new("/plugins".to_string());
    assert!(m.register("p".to_string(), "owner/p".to_string(), None));
    assert!(!m.register("p".to_string(), "elsewhere".to_string(), Some("^2".to_string())));
    assert_eq!(m.plugins.len(), 1);
    let p = m.get_plugin("p").unwrap();
    assert_eq!(p.version, Some("0.1.0".to_string()));
    assert_eq!(p.source, "owner/p");
    assert!(m.get_plugin("q").is_none());
}
