use sync_typing_deps::deps::ProjectSources;
use sync_typing_deps::doc::{DocEntry, DocValue};
use sync_typing_deps::error::SyncError;
use sync_typing_deps::precommit::{rewrite_additional_deps, update_config_content};
use sync_typing_deps::run;

const MYPY_CONFIG: &str = "repos:\n- repo: https://github.com/pre-commit/mirrors-mypy\n  rev: v1.0.0\n  hooks:\n  - id: mypy\n";

fn project(setup_cfg: &str) -> ProjectSources {
    ProjectSources {
        setup_cfg: Some(setup_cfg.to_owned()),
        pyproject: None,
        manifests: Vec::new(),
        coveragerc: None,
        tox_ini: None,
    }
}

fn from_toml(v: &toml::Value) -> DocValue {
    match v {
        toml::Value::String(s) => DocValue::Str(s.clone()),
        toml::Value::Array(a) => DocValue::Array(a.iter().map(from_toml).collect()),
        toml::Value::Table(t) => DocValue::Table(
            t.iter()
                .map(|(k, v)| DocEntry { key: k.clone(), value: from_toml(v) })
                .collect(),
        ),
        _ => DocValue::Other,
    }
}

fn with_pyproject(text: &str) -> ProjectSources {
    ProjectSources {
        setup_cfg: None,
        pyproject: Some(from_toml(&toml::from_str::<toml::Value>(text).unwrap())),
        manifests: Vec::new(),
        coveragerc: None,
        tox_ini: None,
    }
}

fn no_sources() -> ProjectSources {
    ProjectSources {
        setup_cfg: None,
        pyproject: None,
        manifests: Vec::new(),
        coveragerc: None,
        tox_ini: None,
    }
}

// run: the dependency files as read, and the configuration's text

#[test]
fn test_run_inserts_and_sorts_deps() {
    let src = with_pyproject("[dependency-groups]\ndev = [\"z-dep\", \"a-dep\"]\n");
    let config = "# keep this comment\nrepos:\n- repo: https://github.com/pre-commit/mirrors-mypy\n  rev: v1.0.0\n  hooks:\n  - id: mypy\n";
    let updated = run(&src, config).unwrap();
    assert!(updated.is_some());
    let content = updated.unwrap();
    assert!(content.starts_with("# keep this comment\n"), "comment preserved");
    let a_pos = content.find("a-dep").unwrap();
    let z_pos = content.find("z-dep").unwrap();
    assert!(a_pos < z_pos, "deps sorted");
}

#[test]
fn test_run_no_matching_hooks() {
    let src = with_pyproject("[dependency-groups]\ndev = [\"mypy>=1.0\"]\n");
    let config = "repos:\n- repo: https://github.com/pre-commit/pre-commit-hooks\n  rev: v4.5.0\n  hooks:\n  - id: trailing-whitespace\n";
    let updated = run(&src, config).unwrap();
    assert!(updated.is_none());
}

#[test]
fn test_run_no_dep_files() {
    let config = "repos:\n- repo: https://github.com/pre-commit/mirrors-mypy\n  rev: v1.0.0\n  hooks:\n  - id: mypy\n    additional_dependencies:\n    - old\n";
    let updated = run(&no_sources(), config).unwrap();
    // No dependency files: the old block is replaced by an empty one.
    assert!(updated.is_some());
    assert!(!updated.unwrap().contains("old"));
}

#[test]
fn test_run_idempotent() {
    let src = with_pyproject("[dependency-groups]\ndev = [\"mypy>=1.0\"]\n");
    // The configuration already has the right sorted dependency.
    let config = "repos:\n- repo: https://github.com/pre-commit/mirrors-mypy\n  rev: v1.0.0\n  hooks:\n  - id: mypy\n    additional_dependencies:\n    - mypy>=1.0\n";
    let updated = run(&src, config).unwrap();
    assert!(updated.is_none(), "second run should be a no-op");
}

#[test]
fn test_sync_writes_declared_deps_sorted() {
    let src = project("[options]\ninstall_requires =\n    requests\n    attrs\n");
    let new = run(&src, MYPY_CONFIG).unwrap().unwrap();
    assert_eq!(
        new,
        "repos:\n- repo: https://github.com/pre-commit/mirrors-mypy\n  rev: v1.0.0\n  hooks:\n  - id: mypy\n    additional_dependencies:\n    - attrs\n    - requests\n"
    );
}

#[test]
fn test_sync_substitutes_and_drops_plugins() {
    let mut src = project("[options]\ninstall_requires =\n    homeassistant\n    covdefaults\n");
    src.coveragerc = Some("[run]\nplugins = covdefaults\n".to_owned());
    let new = run(&src, MYPY_CONFIG).unwrap().unwrap();
    assert!(new.ends_with("    additional_dependencies:\n    - homeassistant-stubs\n"));
    assert!(!new.contains("covdefaults"));
}

#[test]
fn test_sync_unchanged_gives_none() {
    let src = project("[options]\ninstall_requires =\n    attrs\n");
    let config = format!("{MYPY_CONFIG}    additional_dependencies:\n    - attrs\n");
    assert_eq!(run(&src, &config).unwrap(), None);
}

#[test]
fn test_sync_invalid_yaml() {
    let src = project("");
    assert!(matches!(run(&src, "a: [b"), Err(SyncError::Yaml(_))));
}

#[test]
fn test_sync_missing_repos() {
    let src = project("");
    match run(&src, "hooks: []\n") {
        Err(SyncError::Config(m)) => assert_eq!(m, "missing 'repos' sequence"),
        other => panic!("unexpected: {other:?}"),
    }
}

#[test]
fn test_sync_twice_finds_nothing_to_change() {
    let deps = ["z".to_owned(), "a".to_owned()];
    let config = format!("{MYPY_CONFIG}    additional_dependencies: [old]\n    args: []\n");
    let new = update_config_content(&config, &deps).unwrap().unwrap();
    assert_eq!(update_config_content(&new, &deps).unwrap(), None);
}

#[test]
fn test_rewrite_twice_without_final_newline() {
    let config = "repos:\n- repo: https://github.com/pre-commit/mirrors-mypy\n  hooks:\n  - id: mypy";
    let deps = ["b".to_owned()];
    let once = rewrite_additional_deps(config, &deps);
    assert_eq!(
        once,
        "repos:\n- repo: https://github.com/pre-commit/mirrors-mypy\n  hooks:\n  - id: mypy\n    additional_dependencies:\n    - b"
    );
    assert_eq!(rewrite_additional_deps(&once, &deps), once);
}

#[test]
fn test_rewrite_keeps_final_newline_state() {
    let deps = ["x".to_owned()];
    let with_nl = rewrite_additional_deps(MYPY_CONFIG, &deps);
    assert!(with_nl.ends_with('\n'));
    let without = rewrite_additional_deps(MYPY_CONFIG.trim_end(), &deps);
    assert!(!without.ends_with('\n'));
    assert_eq!(rewrite_additional_deps("", &deps), "");
}
