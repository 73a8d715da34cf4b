use sync_typing_deps::error::SyncError;
use sync_typing_deps::precommit::{
    inject_deps, is_typing_hook, plan_update, rewrite_additional_deps, update_config_content,
};

fn mypy_config(extra: &str) -> String {
    format!(
        "repos:\n- repo: https://github.com/pre-commit/mirrors-mypy\n  rev: v1.0.0\n  hooks:\n  - id: mypy\n{extra}"
    )
}

// is_typing_hook

#[test]
fn test_is_typing_hook_mirror_url_and_mypy_id() {
    assert!(is_typing_hook("https://github.com/pre-commit/mirrors-mypy", "mypy"));
}

#[test]
fn test_is_typing_hook_mirror_url_other_id() {
    assert!(is_typing_hook("https://github.com/pre-commit/mirrors-mypy", "check-something"));
}

#[test]
fn test_is_typing_hook_ty_id_any_url() {
    assert!(is_typing_hook("https://example.com/some-repo", "ty"));
}

#[test]
fn test_is_typing_hook_ty_mirror_url() {
    assert!(is_typing_hook("https://github.com/mxr/mirrors-ty", "check-something"));
}

#[test]
fn test_is_typing_hook_unrelated() {
    assert!(!is_typing_hook("https://github.com/pre-commit/pre-commit-hooks", "check-json"));
}

#[test]
fn test_is_typing_hook_pyright() {
    assert!(is_typing_hook("https://example.com/some-repo", "pyright"));
    assert!(is_typing_hook("https://github.com/RobertCraigie/mirrors-pyright", "x"));
}

// inject_deps

#[test]
fn test_inject_deps_empty() {
    let mut out = Vec::new();
    inject_deps(&mut out, 4, &[]);
    assert_eq!(out, ["    additional_dependencies:"]);
}

#[test]
fn test_inject_deps_with_values() {
    let mut out = Vec::new();
    inject_deps(&mut out, 4, &["b".to_owned(), "a".to_owned()]);
    assert_eq!(out, ["    additional_dependencies:", "    - b", "    - a"]);
}

#[test]
fn test_inject_deps_appends_after_existing_lines() {
    let mut out = vec!["keep".to_owned()];
    inject_deps(&mut out, 0, &["x".to_owned()]);
    assert_eq!(out, ["keep", "additional_dependencies:", "- x"]);
}

// rewrite_additional_deps

#[test]
fn test_rewrite_inserts_when_missing() {
    let input = mypy_config("");
    let out = rewrite_additional_deps(&input, &["a".to_owned(), "b".to_owned()]);
    assert!(out.contains("additional_dependencies:\n    - a\n    - b\n"));
}

#[test]
fn test_rewrite_inserts_via_leaving_hook() {
    let input = format!(
        "{}{}",
        mypy_config(""),
        "- repo: https://github.com/pre-commit/pre-commit-hooks\n  rev: v4.5.0\n  hooks:\n  - id: trailing-whitespace\n"
    );
    let out = rewrite_additional_deps(&input, &["dep".to_owned()]);
    assert!(out.contains("    additional_dependencies:\n    - dep\n"));
    assert!(out.contains("id: trailing-whitespace"));
}

#[test]
fn test_rewrite_url_based_hook_matching() {
    let input = "repos:\n- repo: https://github.com/pre-commit/mirrors-mypy\n  rev: v1.0.0\n  hooks:\n  - id: mypy-custom\n";
    let out = rewrite_additional_deps(input, &["dep".to_owned()]);
    assert!(out.contains("    additional_dependencies:\n    - dep\n"));
}

#[test]
fn test_rewrite_no_hooks_section() {
    let input = "repos:\n- repo: https://github.com/pre-commit/mirrors-mypy\n  rev: v1.0.0\n";
    let out = rewrite_additional_deps(input, &["dep".to_owned()]);
    assert_eq!(out, input);
}

#[test]
fn test_rewrite_sorts_deps() {
    let input = mypy_config("    additional_dependencies:\n    - z\n    - a\n");
    let mut sorted = vec!["a".to_owned(), "z".to_owned()];
    sorted.sort_unstable();
    let out = rewrite_additional_deps(&input, &sorted);
    assert!(out.contains("    - a\n    - z\n"));
}

#[test]
fn test_rewrite_replaces_compact_notation() {
    let input = mypy_config("    additional_dependencies:\n    - old\n");
    let out = rewrite_additional_deps(&input, &["new".to_owned()]);
    assert!(out.contains("    additional_dependencies:\n    - new\n"));
    assert!(!out.contains("old"));
}

#[test]
fn test_rewrite_replaces_indented_notation() {
    let input = mypy_config("    additional_dependencies:\n      - old\n");
    let out = rewrite_additional_deps(&input, &["new".to_owned()]);
    assert!(out.contains("    additional_dependencies:\n    - new\n"));
    assert!(!out.contains("old"));
}

#[test]
fn test_rewrite_replaces_flow_style() {
    let input = mypy_config("    additional_dependencies: [old-dep]\n");
    let out = rewrite_additional_deps(&input, &["new".to_owned()]);
    assert!(out.contains("    additional_dependencies:\n    - new\n"));
    assert!(!out.contains("old-dep"));
}

#[test]
fn test_rewrite_empty_inline_list() {
    let input = mypy_config("    additional_dependencies: []\n");
    let out = rewrite_additional_deps(&input, &["dep".to_owned()]);
    assert!(out.contains("    additional_dependencies:\n    - dep\n"));
}

#[test]
fn test_rewrite_preserves_comments() {
    let input = "# top comment\nrepos:\n# repo comment\n- repo: https://github.com/pre-commit/mirrors-mypy\n  rev: v1.0.0\n  hooks:\n  - id: mypy\n    additional_dependencies:\n    - old\n".to_owned();
    let out = rewrite_additional_deps(&input, &["new".to_owned()]);
    assert!(out.starts_with("# top comment\n"));
    assert!(out.contains("# repo comment\n"));
    assert!(!out.contains("old"));
}

#[test]
fn test_rewrite_no_typing_hooks() {
    let input = "repos:\n- repo: https://github.com/pre-commit/pre-commit-hooks\n  rev: v4.5.0\n  hooks:\n  - id: trailing-whitespace\n";
    let out = rewrite_additional_deps(input, &["dep".to_owned()]);
    assert_eq!(out, input);
}

#[test]
fn test_rewrite_empty_deps_replaces_block() {
    let input = mypy_config("    additional_dependencies:\n    - old\n");
    let out = rewrite_additional_deps(&input, &[]);
    assert!(out.contains("    additional_dependencies:\n"));
    assert!(!out.contains("old"));
}

#[test]
fn test_rewrite_preserves_trailing_newline() {
    let input = mypy_config("");
    assert!(input.ends_with('\n'));
    let out = rewrite_additional_deps(&input, &["dep".to_owned()]);
    assert!(out.ends_with('\n'));
}

#[test]
fn test_rewrite_no_trailing_newline() {
    let input = mypy_config("").trim_end_matches('\n').to_owned();
    let out = rewrite_additional_deps(&input, &["dep".to_owned()]);
    assert!(!out.ends_with('\n'));
}

#[test]
fn test_rewrite_multiple_repos_only_updates_typing() {
    let input = "repos:\n- repo: https://github.com/pre-commit/pre-commit-hooks\n  rev: v4.5.0\n  hooks:\n  - id: trailing-whitespace\n- repo: https://github.com/pre-commit/mirrors-mypy\n  rev: v1.0.0\n  hooks:\n  - id: mypy\n    additional_dependencies:\n    - old\n";
    let out = rewrite_additional_deps(input, &["new".to_owned()]);
    assert!(!out.contains("old"));
    assert!(out.contains("    - new"));
    assert!(out.contains("id: trailing-whitespace"));
}

#[test]
fn test_rewrite_multiple_hooks_same_repo() {
    let input = "repos:\n- repo: https://github.com/pre-commit/mirrors-mypy\n  rev: v1.0.0\n  hooks:\n  - id: mypy\n    additional_dependencies:\n    - old\n- repo: https://github.com/pre-commit/pre-commit-hooks\n  rev: v4.0.0\n  hooks:\n  - id: check-yaml\n    additional_dependencies:\n    - should-stay\n";
    let out = rewrite_additional_deps(input, &["new".to_owned()]);
    assert!(!out.contains("old"));
    assert!(out.contains("should-stay"));
}

#[test]
fn test_rewrite_whole_output_exact() {
    let input = mypy_config("    additional_dependencies:\n    - old\n    entry: x\n");
    let out = rewrite_additional_deps(&input, &["a".to_owned(), "b".to_owned()]);
    assert_eq!(
        out,
        "repos:\n- repo: https://github.com/pre-commit/mirrors-mypy\n  rev: v1.0.0\n  hooks:\n  - id: mypy\n    additional_dependencies:\n    - a\n    - b\n    entry: x\n"
    );
}

#[test]
fn test_rewrite_quoted_id_and_url() {
    let input = "repos:\n- repo: 'https://example.com/x'\n  hooks:\n  - id: \"mypy\"\n";
    let out = rewrite_additional_deps(input, &["d".to_owned()]);
    assert_eq!(
        out,
        "repos:\n- repo: 'https://example.com/x'\n  hooks:\n  - id: \"mypy\"\n    additional_dependencies:\n    - d\n"
    );
}

#[test]
fn test_rewrite_crlf_without_typing_hooks_is_unchanged() {
    let input = "repos:\r\n- repo: https://example.com/x\r\n  hooks:\r\n  - id: trailing-whitespace\r\n";
    let out = rewrite_additional_deps(input, &["d".to_owned()]);
    assert_eq!(out, input);
}

#[test]
fn test_rewrite_crlf_block_gets_crlf_lines() {
    let input = "repos:\r\n- repo: https://github.com/pre-commit/mirrors-mypy\r\n  hooks:\r\n  - id: mypy\r\n    additional_dependencies: [old]\r\n";
    let out = rewrite_additional_deps(input, &["new".to_owned()]);
    assert_eq!(
        out,
        "repos:\r\n- repo: https://github.com/pre-commit/mirrors-mypy\r\n  hooks:\r\n  - id: mypy\r\n    additional_dependencies:\r\n    - new\r\n"
    );
    assert_eq!(rewrite_additional_deps(&out, &["new".to_owned()]), out);
}

#[test]
fn test_update_config_crlf_without_typing_hooks_is_unchanged() {
    let c = "repos:\r\n- repo: https://github.com/pre-commit/pre-commit-hooks\r\n  rev: v4.5.0\r\n  hooks:\r\n  - id: trailing-whitespace\r\n";
    assert_eq!(update_config_content(c, &["dep".to_owned()]).unwrap(), None);
}

#[test]
fn test_rewrite_keeps_comment_after_replaced_block() {
    let content = "repos:\n- repo: https://github.com/pre-commit/mirrors-mypy\n  rev: v1.0.0\n  hooks:\n  - id: mypy\n    additional_dependencies:\n    - old\n# keep me\n- repo: https://github.com/pre-commit/pre-commit-hooks\n";
    let out = rewrite_additional_deps(content, &["new".to_owned()]);
    assert_eq!(out, content.replace("    - old\n", "    - new\n"));
}

#[test]
fn test_rewrite_keeps_blank_line_after_replaced_block() {
    let content = "repos:\n- repo: https://github.com/pre-commit/mirrors-mypy\n  hooks:\n  - id: mypy\n    additional_dependencies:\n    - old\n\n    # about args\n    args: [--strict]\n";
    let out = rewrite_additional_deps(content, &["new".to_owned()]);
    assert_eq!(out, content.replace("    - old\n", "    - new\n"));
}

#[test]
fn test_rewrite_drops_comments_inside_replaced_block() {
    let content = "repos:\n- repo: https://github.com/pre-commit/mirrors-mypy\n  hooks:\n  - id: mypy\n    additional_dependencies:\n    - a\n    # inside\n\n    - b\n";
    let out = rewrite_additional_deps(content, &["new".to_owned()]);
    assert_eq!(
        out,
        "repos:\n- repo: https://github.com/pre-commit/mirrors-mypy\n  hooks:\n  - id: mypy\n    additional_dependencies:\n    - new\n"
    );
}

#[test]
fn test_rewrite_wide_dash_layout() {
    let content = "repos:\n-   repo: https://github.com/pre-commit/mirrors-mypy\n    rev: v1.0.0\n    hooks:\n    -   id: mypy\n        additional_dependencies: [old]\n";
    let out = rewrite_additional_deps(content, &["new".to_owned()]);
    assert_eq!(
        out,
        content.replace(
            "additional_dependencies: [old]\n",
            "additional_dependencies:\n        - new\n"
        )
    );
}

#[test]
fn test_rewrite_wide_dash_layout_inserts_at_field_column() {
    let content = "repos:\n-   repo: https://github.com/pre-commit/mirrors-mypy\n    hooks:\n    -   id: mypy\n        args: [--strict]\n";
    let out = rewrite_additional_deps(content, &["new".to_owned()]);
    assert_eq!(
        out,
        format!("{content}        additional_dependencies:\n        - new\n")
    );
}

#[test]
fn test_rewrite_twice_is_unchanged() {
    let input = mypy_config("    additional_dependencies: [z]\n");
    let deps = ["a".to_owned(), "b".to_owned()];
    let once = rewrite_additional_deps(&input, &deps);
    let twice = rewrite_additional_deps(&once, &deps);
    assert_eq!(once, twice);
}

// update_config_content (the computing part of update_config)

#[test]
fn test_update_config_updates_ty_hook() {
    let content = "repos:\n- repo: https://github.com/mxr/mirrors-ty\n  rev: v0.0.1\n  hooks:\n  - id: ty\n";
    let updated = update_config_content(content, &["mypy>=1.0".to_owned()]).unwrap();
    assert!(updated.is_some());
}

#[test]
fn test_update_config_updates_mypy_hook() {
    let content = "repos:\n- repo: https://github.com/pre-commit/mirrors-mypy\n  rev: v1.0.0\n  hooks:\n  - id: mypy\n";
    let deps = vec!["mypy>=1.0".to_owned(), "types-requests".to_owned()];
    let new = update_config_content(content, &deps).unwrap().unwrap();
    assert!(new.contains("- mypy>=1.0"));
    assert!(new.contains("- types-requests"));
}

#[test]
fn test_update_config_sorts_deps() {
    let content = "repos:\n- repo: https://github.com/pre-commit/mirrors-mypy\n  rev: v1.0.0\n  hooks:\n  - id: mypy\n";
    let deps = vec!["z-dep".to_owned(), "a-dep".to_owned()];
    let new = update_config_content(content, &deps).unwrap().unwrap();
    let a_pos = new.find("a-dep").unwrap();
    let z_pos = new.find("z-dep").unwrap();
    assert!(a_pos < z_pos, "deps should be sorted alphabetically");
}

#[test]
fn test_update_config_no_typing_hooks() {
    let content = "repos:\n- repo: https://github.com/pre-commit/pre-commit-hooks\n  rev: v4.5.0\n  hooks:\n  - id: trailing-whitespace\n";
    let updated = update_config_content(content, &["mypy>=1.0".to_owned()]).unwrap();
    assert!(updated.is_none());
}

#[test]
fn test_update_config_replaces_existing_deps() {
    let content = "repos:\n- repo: https://github.com/pre-commit/mirrors-mypy\n  rev: v1.0.0\n  hooks:\n  - id: mypy\n    additional_dependencies:\n    - old-dep\n";
    let new = update_config_content(content, &["new-dep".to_owned()]).unwrap().unwrap();
    assert!(new.contains("new-dep"));
    assert!(!new.contains("old-dep"));
}

#[test]
fn test_update_config_idempotent() {
    let content = "repos:\n- repo: https://github.com/pre-commit/mirrors-mypy\n  rev: v1.0.0\n  hooks:\n  - id: mypy\n    additional_dependencies:\n    - a-dep\n    - b-dep\n";
    let updated =
        update_config_content(content, &["b-dep".to_owned(), "a-dep".to_owned()]).unwrap();
    assert!(updated.is_none(), "should be idempotent when content is unchanged");
}

#[test]
fn test_update_config_empty_deps() {
    let content = "repos:\n- repo: https://github.com/pre-commit/mirrors-mypy\n  rev: v1.0.0\n  hooks:\n  - id: mypy\n    additional_dependencies:\n    - old-dep\n";
    let new = update_config_content(content, &[]).unwrap().unwrap();
    assert!(!new.contains("old-dep"));
}

#[test]
fn test_update_config_invalid_yaml() {
    let result = update_config_content("not: valid: yaml: [[[", &[]);
    assert!(matches!(result, Err(SyncError::Yaml(_))));
}

#[test]
fn test_update_config_missing_repos() {
    let result = update_config_content("foo: bar\n", &[]);
    match result {
        Err(SyncError::Config(m)) => assert_eq!(m, "missing 'repos' sequence"),
        _ => panic!("expected a configuration error"),
    }
}

#[test]
fn test_update_config_repos_not_a_sequence() {
    let result = update_config_content("repos: 3\n", &[]);
    assert!(matches!(result, Err(SyncError::Config(_))));
}

#[test]
fn test_plan_update_without_repos_is_refused() {
    let result = plan_update("repos:\n", &[], false);
    assert!(matches!(result, Err(SyncError::Config(_))));
}

#[test]
fn test_plan_update_with_repos_rewrites() {
    let content = "repos:\n- repo: x\n  hooks:\n  - id: mypy\n";
    let new = plan_update(content, &["b".to_owned(), "a".to_owned()], true).unwrap().unwrap();
    assert_eq!(
        new,
        "repos:\n- repo: x\n  hooks:\n  - id: mypy\n    additional_dependencies:\n    - a\n    - b\n"
    );
}

#[test]
fn test_update_config_order_of_deps_does_not_matter() {
    let content = "repos:\n- repo: x\n  hooks:\n  - id: mypy\n";
    let a = update_config_content(content, &["b".to_owned(), "a".to_owned(), "c".to_owned()]).unwrap();
    let b = update_config_content(content, &["c".to_owned(), "b".to_owned(), "a".to_owned()]).unwrap();
    assert_eq!(a.unwrap(), b.unwrap());
}

#[test]
fn test_rewrite_typing_mirror_without_hooks_then_other_repo_is_unchanged() {
    let content = "repos:\n- repo: https://github.com/pre-commit/mirrors-mypy\n  rev: v1.0.0\n- repo: https://github.com/pre-commit/pre-commit-hooks\n  rev: v4.5.0\n  hooks:\n  - id: trailing-whitespace\n";
    assert_eq!(rewrite_additional_deps(content, &["x".to_owned()]), content);
}

#[test]
fn test_rewrite_keeps_lines_around_replaced_blocks() {
    let content = "# top\nrepos:\n\n- repo: https://github.com/pre-commit/mirrors-mypy\n  rev: v1.0.0  # pinned\n  hooks:\n  - id: mypy\n    # types\n    additional_dependencies:\n      - old\n    args: [--strict]\n\n# tail\n";
    let out = rewrite_additional_deps(content, &["new".to_owned()]);
    assert_eq!(
        out,
        "# top\nrepos:\n\n- repo: https://github.com/pre-commit/mirrors-mypy\n  rev: v1.0.0  # pinned\n  hooks:\n  - id: mypy\n    # types\n    additional_dependencies:\n    - new\n    args: [--strict]\n\n# tail\n"
    );
}
