use enforcer::config::{default_cfg, fix_config, parse_config, s, suggestion, ConfigError, EnforcerCfg};

#[test]
fn test_load_simple_config() {
    let c = "ignore = [\"**/.git\", \"**/.repo\"]\nendings = [\".c\", \".cpp\", \".h\"]\n";
    let cfg = parse_config(c).unwrap();
    assert_eq!(cfg.ignore.len(), 2);
    let expected = EnforcerCfg {
        ignore: vec![s("**/.git"), s("**/.repo")],
        endings: vec![s(".c"), s(".cpp"), s(".h")],
    };
    assert_eq!(expected.ignore, cfg.ignore);
    assert_eq!(expected, cfg);
}

#[test]
fn test_load_broken_config_reports_missing_key() {
    let c = "endings = [\".c\"]\n";
    assert_eq!(parse_config(c), Err(ConfigError::MissingIgnore));
}

#[test]
fn test_matches() {
    assert_eq!("**/abc/**".to_string(), suggestion("abc"));
    assert_eq!("**/.repo".to_string(), suggestion(".repo"));
    assert_eq!("**/.repo2".to_string(), suggestion(".repo2"));
    assert_eq!("**/build_*/**".to_string(), suggestion("build_*"));
    assert_eq!("**/*.o".to_string(), suggestion("*.o"));
    assert_eq!("**/*.dld".to_string(), suggestion("*.dld"));
    assert_eq!("**/*.s".to_string(), suggestion("*.s"));
    assert_eq!("**/autosarOs/**".to_string(), suggestion("autosarOs"));
    assert_eq!("**/fat32/**".to_string(), suggestion("fat32"));
    assert_eq!("**/gtest.h".to_string(), suggestion("gtest.h"));
}

#[test]
fn test_full_glob_entries_are_kept_as_they_are() {
    assert_eq!("**/.git".to_string(), suggestion("**/.git"));
    assert_eq!("**/abc/**".to_string(), suggestion("**/abc/**"));
}

#[test]
fn test_unparseable_document_is_invalid() {
    assert_eq!(parse_config("not toml ]["), Err(ConfigError::Invalid));
}

#[test]
fn test_missing_endings_key() {
    assert_eq!(
        parse_config("ignore = [\".git\"]\n"),
        Err(ConfigError::MissingEndings)
    );
}

#[test]
fn test_non_string_list_is_invalid() {
    let c = "ignore = [1, 2]\nendings = [\".c\"]\n";
    assert_eq!(parse_config(c), Err(ConfigError::Invalid));
}

#[test]
fn test_invalid_ignore_pattern_is_a_config_error() {
    let c = "ignore = [\"a[\"]\nendings = [\".c\"]\n";
    assert_eq!(parse_config(c), Err(ConfigError::InvalidPattern));
}

#[test]
fn test_old_style_entries_are_rewritten() {
    let c = "ignore = [\".git\", \"build_*\"]\nendings = [\".c\"]\n";
    let cfg = parse_config(c).unwrap();
    assert_eq!(cfg.ignore, vec![s("**/.git"), s("**/build_*/**")]);
    assert_eq!(cfg.endings, vec![s(".c")]);
}

#[test]
fn test_default_cfg_values() {
    let cfg = default_cfg();
    assert_eq!(cfg.ignore, vec![s("**/.git"), s("**/.bake"), s("**/.repo")]);
    assert_eq!(cfg.endings, vec![s(".c"), s(".cpp"), s(".h")]);
}

#[test]
fn test_fix_config_rewrites_only_ignores() {
    let cfg = EnforcerCfg {
        ignore: vec![s("abc"), s("**/done/**")],
        endings: vec![s(".cpp")],
    };
    let fixed = fix_config(&cfg);
    assert_eq!(fixed.ignore, vec![s("**/abc/**"), s("**/done/**")]);
    assert_eq!(fixed.endings, vec![s(".cpp")]);
}
