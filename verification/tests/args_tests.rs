use sync_typing_deps::args::parse_args;

fn string_args(v: &[&str]) -> Vec<String> {
    v.iter().map(|s| (*s).to_owned()).collect()
}

#[test]
fn test_parse_args_defaults() {
    let a = parse_args(string_args(&[])).unwrap();
    assert_eq!(a.config, ".pre-commit-config.yaml");
    assert_eq!(a.dir, ".");
}

#[test]
fn test_parse_args_config_flag_long() {
    let a = parse_args(string_args(&["--config", "my.yaml"])).unwrap();
    assert_eq!(a.config, "my.yaml");
}

#[test]
fn test_parse_args_config_flag_short() {
    let a = parse_args(string_args(&["-c", "my.yaml"])).unwrap();
    assert_eq!(a.config, "my.yaml");
}

#[test]
fn test_parse_args_dir_flag_long() {
    let a = parse_args(string_args(&["--dir", "/some/path"])).unwrap();
    assert_eq!(a.dir, "/some/path");
}

#[test]
fn test_parse_args_dir_flag_short() {
    let a = parse_args(string_args(&["-d", "/some/path"])).unwrap();
    assert_eq!(a.dir, "/some/path");
}

#[test]
fn test_parse_args_missing_config_value() {
    assert_eq!(
        parse_args(string_args(&["--config"])).err().unwrap(),
        "--config requires a value"
    );
}

#[test]
fn test_parse_args_missing_dir_value() {
    assert_eq!(
        parse_args(string_args(&["--dir"])).err().unwrap(),
        "--dir requires a value"
    );
}

#[test]
fn test_parse_args_unknown_arg() {
    assert_eq!(
        parse_args(string_args(&["--unknown"])).err().unwrap(),
        "unknown argument: --unknown"
    );
}

#[test]
fn test_parse_args_later_option_wins() {
    let a = parse_args(string_args(&["-c", "a.yaml", "--dir", "x", "--config", "b.yaml"])).unwrap();
    assert_eq!(a.config, "b.yaml");
    assert_eq!(a.dir, "x");
}
