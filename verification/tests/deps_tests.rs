use sync_typing_deps::deps::{
    collect_deps, dep_name, find_coverage_plugins, nonempty_lines, normalize_pkg_name,
    parse_manifest_json, parse_pyproject_toml, parse_setup_cfg, substitute, substitutions,
    ProjectSources,
};
use sync_typing_deps::doc::{DocEntry, DocValue};

fn from_toml(v: &toml::Value) -> DocValue {
    match v {
        toml::Value::String(s) => DocValue::Str(s.clone()),
        toml::Value::Array(a) => DocValue::Array(a.iter().map(from_toml).collect()),
        toml::Value::Table(t) => DocValue::Table(
            t.iter()
                .map(|(k, v)| DocEntry { key: k.clone(), value: from_toml(v) })
                .collect(),
        ),
        _ => DocValue::Other,
    }
}

fn from_json(v: &serde_json::Value) -> DocValue {
    match v {
        serde_json::Value::String(s) => DocValue::Str(s.clone()),
        serde_json::Value::Array(a) => DocValue::Array(a.iter().map(from_json).collect()),
        serde_json::Value::Object(o) => DocValue::Table(
            o.iter()
                .map(|(k, v)| DocEntry { key: k.clone(), value: from_json(v) })
                .collect(),
        ),
        _ => DocValue::Other,
    }
}

fn toml_doc(text: &str) -> DocValue {
    from_toml(&toml::from_str::<toml::Value>(text).unwrap())
}

fn json_doc(text: &str) -> DocValue {
    from_json(&serde_json::from_str::<serde_json::Value>(text).unwrap())
}

fn sources() -> ProjectSources {
    ProjectSources {
        setup_cfg: None,
        pyproject: None,
        manifests: Vec::new(),
        coveragerc: None,
        tox_ini: None,
    }
}

// nonempty_lines, dep_name, normalize_pkg_name

#[test]
fn test_nonempty_lines_empty_input() {
    assert_eq!(nonempty_lines(""), Vec::<String>::new());
}

#[test]
fn test_nonempty_lines_blank_lines() {
    assert_eq!(nonempty_lines("  \n  \n"), Vec::<String>::new());
}

#[test]
fn test_nonempty_lines_trims_and_skips() {
    assert_eq!(nonempty_lines("a\n  b  \n\nc"), vec!["a".to_owned(), "b".to_owned(), "c".to_owned()]);
}

#[test]
fn test_dep_name_plain() {
    assert_eq!(dep_name("covdefaults"), "covdefaults");
}

#[test]
fn test_dep_name_version() {
    assert_eq!(dep_name("mypy>=1.0"), "mypy");
}

#[test]
fn test_dep_name_extra() {
    assert_eq!(dep_name("mypy[extra]"), "mypy");
}

#[test]
fn test_dep_name_marker_and_space() {
    assert_eq!(dep_name("foo ; python_version<'3.8'"), "foo");
    assert_eq!(dep_name("bar~=1.2"), "bar");
}

#[test]
fn test_normalize_pkg_name_case_and_underscore() {
    assert_eq!(normalize_pkg_name("Cov_Defaults"), "cov-defaults");
}

#[test]
fn test_normalize_pkg_name_dot() {
    assert_eq!(normalize_pkg_name("cov.defaults"), "cov-defaults");
}

// setup.cfg

#[test]
fn test_parse_setup_cfg_install_requires() {
    let deps = parse_setup_cfg("[options]\ninstall_requires =\n    requests>=2.0\n    click\n");
    assert_eq!(deps, ["requests>=2.0", "click"]);
}

#[test]
fn test_parse_setup_cfg_extras_require() {
    let deps = parse_setup_cfg("[options.extras_require]\ndev =\n    mypy\n    pytest\n");
    assert_eq!(deps, ["mypy", "pytest"]);
}

#[test]
fn test_parse_setup_cfg_empty() {
    let deps = parse_setup_cfg("[metadata]\nname = foo\n");
    assert!(deps.is_empty());
}

#[test]
fn test_parse_setup_cfg_options_without_install_requires() {
    let deps = parse_setup_cfg("[options]\nsetup_requires = setuptools\n");
    assert!(deps.is_empty());
}

#[test]
fn test_parse_setup_cfg_extras_in_file_order() {
    let deps = parse_setup_cfg(
        "[options]\ninstall_requires = a\n[options.extras_require]\ntest = b\ndev =\n    c\n    d\n",
    );
    assert_eq!(deps, ["a", "b", "c", "d"]);
}

// pyproject.toml

#[test]
fn test_parse_pyproject_project_dependencies() {
    let deps = parse_pyproject_toml(&toml_doc("[project]\ndependencies = [\"aiohttp>=3\", \"requests\"]\n"));
    assert_eq!(deps, ["aiohttp>=3", "requests"]);
}

#[test]
fn test_parse_pyproject_dependency_groups() {
    let deps = parse_pyproject_toml(&toml_doc("[dependency-groups]\ndev = [\"mypy>=1.0\", \"pytest\"]\n"));
    assert_eq!(deps, ["mypy>=1.0", "pytest"]);
}

#[test]
fn test_parse_pyproject_dependency_groups_multiple() {
    let mut deps = parse_pyproject_toml(&toml_doc(
        "[dependency-groups]\ndev = [\"mypy\"]\ntest = [\"pytest>7\", \"coverage\"]\ndocs = [\"sphinx\"]\n",
    ));
    deps.sort();
    assert_eq!(deps, ["coverage", "mypy", "pytest>7"]);
}

#[test]
fn test_parse_pyproject_dependency_groups_non_string_item() {
    let deps = parse_pyproject_toml(&toml_doc(
        "[dependency-groups]\ndev = [\"mypy\", {include-group = \"typing\"}]\n",
    ));
    assert_eq!(deps, ["mypy"]);
}

#[test]
fn test_parse_pyproject_optional_deps() {
    let deps = parse_pyproject_toml(&toml_doc(
        "[project.optional-dependencies]\ndev = [\"mypy\", \"types-requests\"]\n",
    ));
    assert_eq!(deps, ["mypy", "types-requests"]);
}

#[test]
fn test_parse_pyproject_optional_deps_multiple() {
    let mut deps = parse_pyproject_toml(&toml_doc(
        "[project.optional-dependencies]\ndev = [\"mypy\"]\ntest = [\"pytest\", \"coverage\"]\ndocs = [\"sphinx\"]\n",
    ));
    deps.sort();
    assert_eq!(deps, ["coverage", "mypy", "pytest"]);
}

#[test]
fn test_parse_pyproject_optional_deps_non_string_item() {
    let deps = parse_pyproject_toml(&toml_doc("[project.optional-dependencies]\ndev = [\"mypy\", 42]\n"));
    assert_eq!(deps, ["mypy"]);
}

#[test]
fn test_parse_pyproject_poetry_old_style() {
    let mut deps = parse_pyproject_toml(&toml_doc(
        "[tool.poetry.dev-dependencies]\nmypy = \">=1.0\"\npytest = \"*\"\npython = \"^3.9\"\n",
    ));
    deps.sort();
    assert_eq!(deps, ["mypy>=1.0", "pytest"]);
}

#[test]
fn test_parse_pyproject_poetry_new_style() {
    let mut deps = parse_pyproject_toml(&toml_doc(
        "[tool.poetry.group.dev.dependencies]\nmypy = \">=1.0\"\npytest = \"*\"\n",
    ));
    deps.sort();
    assert_eq!(deps, ["mypy>=1.0", "pytest"]);
}

#[test]
fn test_parse_pyproject_poetry_inline_table_version() {
    let deps = parse_pyproject_toml(&toml_doc(
        "[tool.poetry.dev-dependencies]\nmypy = {version = \">=1.0\", extras = [\"extra\"]}\n",
    ));
    assert_eq!(deps, ["mypy"]);
}

#[test]
fn test_parse_pyproject_poetry_python_any_case_skipped() {
    let deps = parse_pyproject_toml(&toml_doc("[tool.poetry.dev-dependencies]\nPython = \"^3.9\"\n"));
    assert!(deps.is_empty());
}

#[test]
fn test_parse_pyproject_build_system_requires() {
    let deps = parse_pyproject_toml(&toml_doc(
        "[build-system]\nrequires = [\"setuptools\", \"wheel\"]\nbuild-backend = \"setuptools.build_meta\"\n",
    ));
    assert_eq!(deps, ["setuptools", "wheel"]);
}

#[test]
fn test_parse_pyproject_build_system_no_requires() {
    let deps = parse_pyproject_toml(&toml_doc("[build-system]\nbuild-backend = \"setuptools.build_meta\"\n"));
    assert!(deps.is_empty());
}

#[test]
fn test_parse_pyproject_empty() {
    let deps = parse_pyproject_toml(&toml_doc("[tool]\n"));
    assert!(deps.is_empty());
}

#[test]
fn test_parse_pyproject_sources_in_order() {
    let deps = parse_pyproject_toml(&toml_doc(
        "[project]\ndependencies = [\"a\"]\noptional-dependencies = {test = [\"d\"], dev = [\"c\"]}\n[dependency-groups]\ntest = [\"b2\"]\ndev = [\"b1\"]\n[build-system]\nrequires = [\"e\"]\n",
    ));
    assert_eq!(deps, ["a", "b1", "b2", "c", "d", "e"]);
}

// component manifests

#[test]
fn test_parse_manifest_json_requirements_direct() {
    let deps = parse_manifest_json(&json_doc(
        r#"{"domain":"my_component","requirements":["aiosqlite~=0.21.0","requests>=2.0"]}"#,
    ));
    assert_eq!(deps, ["aiosqlite~=0.21.0", "requests>=2.0"]);
}

// the dependencies of a project

#[test]
fn test_find_deps_no_files() {
    let deps = collect_deps(&sources());
    assert!(deps.is_empty());
}

#[test]
fn test_find_deps_setup_cfg_only() {
    let mut src = sources();
    src.setup_cfg = Some("[options]\ninstall_requires =\n    requests\n".to_owned());
    assert_eq!(collect_deps(&src), ["requests"]);
}

#[test]
fn test_find_deps_pyproject_only() {
    let mut src = sources();
    src.pyproject = Some(toml_doc("[dependency-groups]\ndev = [\"mypy\"]\n"));
    assert_eq!(collect_deps(&src), ["mypy"]);
}

#[test]
fn test_find_deps_both_files() {
    let mut src = sources();
    src.setup_cfg = Some("[options]\ninstall_requires =\n    requests\n".to_owned());
    src.pyproject = Some(toml_doc("[dependency-groups]\ndev = [\"mypy\"]\n"));
    let mut deps = collect_deps(&src);
    deps.sort();
    assert_eq!(deps, ["mypy", "requests"]);
}

#[test]
fn test_find_deps_coveragerc_no_plugins_key() {
    let mut src = sources();
    src.coveragerc = Some("[run]\nomit = tests/*\n".to_owned());
    src.setup_cfg = Some("[options]\ninstall_requires =\n    mypy\n".to_owned());
    assert_eq!(collect_deps(&src), ["mypy"]);
}

#[test]
fn test_find_deps_excludes_coverage_plugin_coveragerc() {
    let mut src = sources();
    src.setup_cfg = Some("[options]\ninstall_requires =\n    mypy\n    covdefaults\n".to_owned());
    src.coveragerc = Some("[run]\nplugins = covdefaults\n".to_owned());
    assert_eq!(collect_deps(&src), ["mypy"]);
}

#[test]
fn test_find_deps_excludes_coverage_plugin_tox_ini() {
    let mut src = sources();
    src.setup_cfg = Some("[options]\ninstall_requires =\n    mypy\n    covdefaults\n".to_owned());
    src.tox_ini = Some("[coverage:run]\nplugins = covdefaults\n".to_owned());
    assert_eq!(collect_deps(&src), ["mypy"]);
}

#[test]
fn test_find_deps_excludes_coverage_plugin_setup_cfg() {
    let mut src = sources();
    src.setup_cfg = Some(
        "[options]\ninstall_requires =\n    mypy\n    covdefaults\n\n[coverage:run]\nplugins = covdefaults\n"
            .to_owned(),
    );
    assert_eq!(collect_deps(&src), ["mypy"]);
}

#[test]
fn test_find_deps_excludes_coverage_plugin_pyproject() {
    let mut src = sources();
    src.pyproject = Some(toml_doc(
        "[dependency-groups]\ndev = [\"mypy\", \"covdefaults\"]\n\n[tool.coverage.run]\nplugins = [\"covdefaults\"]\n",
    ));
    assert_eq!(collect_deps(&src), ["mypy"]);
}

#[test]
fn test_find_deps_excludes_coverage_plugin_multiline() {
    let mut src = sources();
    src.coveragerc = Some("[run]\nplugins =\n    covdefaults\n    other-plugin\n".to_owned());
    src.setup_cfg = Some(
        "[options]\ninstall_requires =\n    mypy\n    covdefaults\n    other-plugin\n    requests\n"
            .to_owned(),
    );
    assert_eq!(collect_deps(&src), ["mypy", "requests"]);
}

#[test]
fn test_find_deps_excludes_plugin_with_version_specifier() {
    let mut src = sources();
    src.coveragerc = Some("[run]\nplugins = covdefaults\n".to_owned());
    src.setup_cfg = Some("[options]\ninstall_requires =\n    mypy\n    covdefaults>=1.0\n".to_owned());
    assert_eq!(collect_deps(&src), ["mypy"]);
}

#[test]
fn test_find_deps_excludes_plugin_name_normalization() {
    let mut src = sources();
    src.coveragerc = Some("[run]\nplugins = cov_defaults\n".to_owned());
    src.setup_cfg = Some("[options]\ninstall_requires =\n    mypy\n    cov-defaults\n".to_owned());
    assert_eq!(collect_deps(&src), ["mypy"]);
}

#[test]
fn test_parse_manifest_json_requirements() {
    let mut src = sources();
    src.manifests = vec![json_doc(
        r#"{"domain":"my_component","requirements":["aiosqlite~=0.21.0","requests>=2.0"]}"#,
    )];
    assert_eq!(collect_deps(&src), ["aiosqlite~=0.21.0", "requests>=2.0"]);
}

#[test]
fn test_parse_manifest_json_no_requirements() {
    let mut src = sources();
    src.manifests = vec![json_doc(r#"{"domain":"my_component","version":"1.0.0"}"#)];
    assert!(collect_deps(&src).is_empty());
}

#[test]
fn test_find_deps_homeassistant_replaced_with_stubs() {
    let mut src = sources();
    src.manifests = vec![json_doc(
        r#"{"domain":"my_component","requirements":["homeassistant>=2024.1","aiohttp>=3"]}"#,
    )];
    let mut deps = collect_deps(&src);
    deps.sort();
    assert_eq!(deps, ["aiohttp>=3", "homeassistant-stubs"]);
}

#[test]
fn test_find_deps_manifest_json_multiple_components() {
    let mut src = sources();
    src.manifests = vec![
        json_doc(r#"{"domain":"comp_a","requirements":["aiohttp>=3"]}"#),
        json_doc(r#"{"domain":"comp_b","requirements":["requests"]}"#),
    ];
    let mut deps = collect_deps(&src);
    deps.sort();
    assert_eq!(deps, ["aiohttp>=3", "requests"]);
}

#[test]
fn test_find_deps_substitutes_case_insensitively() {
    let mut src = sources();
    src.setup_cfg = Some("[options]\ninstall_requires =\n    PyYAML>=6\n    python_dateutil\n    requests\n".to_owned());
    assert_eq!(collect_deps(&src), ["types-PyYAML", "types-python-dateutil", "requests"]);
}

#[test]
fn test_substitute_leaves_unlisted_packages() {
    let table = substitutions();
    assert_eq!(substitute(&"requests>=2".to_owned(), &table), "requests>=2");
    assert_eq!(substitute(&"Markdown".to_owned(), &table), "types-Markdown");
}

#[test]
fn test_find_coverage_plugins_all_sources() {
    let mut src = sources();
    src.coveragerc = Some("[run]\nplugins = A_b\n".to_owned());
    src.setup_cfg = Some("[coverage:run]\nplugins = c.d\n".to_owned());
    src.tox_ini = Some("[coverage:run]\nplugins =\n  e\n".to_owned());
    src.pyproject = Some(toml_doc("[tool.coverage.run]\nplugins = [\"F\"]\n"));
    assert_eq!(find_coverage_plugins(&src), ["a-b", "c-d", "e", "f"]);
}

#[test]
fn test_find_deps_substituted_stub_excluded_when_plugin() {
    let mut src = sources();
    src.setup_cfg = Some("[options]\ninstall_requires = six\n".to_owned());
    src.coveragerc = Some("[run]\nplugins = types-six\n".to_owned());
    assert!(collect_deps(&src).is_empty());
}
