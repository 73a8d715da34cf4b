use sync_typing_deps::ini::parse_ini;

#[test]
fn test_parse_ini_section_and_key() {
    let sections = parse_ini("[s]\nkey = val\n");
    assert_eq!(sections.get("s", "key"), Some("val".to_owned()));
}

#[test]
fn test_parse_ini_continuation_line() {
    let sections = parse_ini("[s]\nkey =\n    a\n    b\n");
    assert_eq!(sections.get("s", "key"), Some("\na\nb".to_owned()));
}

#[test]
fn test_parse_ini_orphan_continuation() {
    // A continuation line before any key in the section is ignored.
    let sections = parse_ini("[s]\n    orphan\nk = v\n");
    assert_eq!(sections.get("s", "k"), Some("v".to_owned()));
    assert_eq!(sections.section_len("s"), Some(1));
}

#[test]
fn test_parse_ini_unclosed_section_header() {
    // A '[' line without ']' is ignored; the keys after it stay in the
    // previous (empty-named) section.
    let sections = parse_ini("[unclosed\nk = v\n");
    assert!(!sections.has_section("unclosed"));
    assert_eq!(sections.get("", "k"), Some("v".to_owned()));
}

#[test]
fn test_parse_ini_line_without_equals() {
    let sections = parse_ini("[s]\n# comment\nk = v\n");
    assert_eq!(sections.get("s", "k"), Some("v".to_owned()));
    assert_eq!(sections.section_len("s"), Some(1));
}

#[test]
fn test_parse_ini_lowercases_section_and_key() {
    let sections = parse_ini("[MySection]\nMyKey = val\n");
    assert_eq!(sections.get("mysection", "mykey"), Some("val".to_owned()));
}

#[test]
fn test_parse_ini_no_sections() {
    let sections = parse_ini("key = val\n");
    assert!(!sections.has_section("mysection"));
}

#[test]
fn test_parse_ini_keys_before_any_section_go_to_empty_name() {
    let sections = parse_ini("key = val\n");
    assert_eq!(sections.get("", "key"), Some("val".to_owned()));
}

#[test]
fn test_parse_ini_later_key_overwrites_earlier() {
    let sections = parse_ini("[s]\nk = one\nK = two\n");
    assert_eq!(sections.get("s", "k"), Some("two".to_owned()));
    assert_eq!(sections.section_len("s"), Some(1));
}

#[test]
fn test_parse_ini_whitespace_only_line_extends_value_with_newline() {
    let sections = parse_ini("[s]\nk = a\n   \n");
    assert_eq!(sections.get("s", "k"), Some("a\n".to_owned()));
}

#[test]
fn test_parse_ini_section_header_trimmed_and_first_bracket() {
    let sections = parse_ini("[ Coverage:Run ] trailing ]\nplugins = x\n");
    assert_eq!(sections.get("coverage:run", "plugins"), Some("x".to_owned()));
}

#[test]
fn test_parse_ini_value_keeps_later_equals() {
    let sections = parse_ini("[s]\nk = a=b\n");
    assert_eq!(sections.get("s", "k"), Some("a=b".to_owned()));
}

#[test]
fn test_parse_ini_crlf_lines() {
    let sections = parse_ini("[s]\r\nk = v\r\n");
    assert_eq!(sections.get("s", "k"), Some("v".to_owned()));
}

#[test]
fn test_parse_ini_header_resets_current_key() {
    let sections = parse_ini("[a]\nk = v\n[b]\n    more\n");
    assert_eq!(sections.get("a", "k"), Some("v".to_owned()));
    assert!(!sections.has_section("b"));
}

#[test]
fn test_parse_ini_repeated_section_is_one_section() {
    let sections = parse_ini("[s]\na = 1\n[t]\nx = 0\n[S]\nb = 2\n");
    assert_eq!(sections.sections.len(), 2);
    assert_eq!(sections.section_len("s"), Some(2));
    assert_eq!(sections.get("s", "a"), Some("1".to_owned()));
    assert_eq!(sections.get("s", "b"), Some("2".to_owned()));
}
