use git_sidecar::config::{
    check_config, config_dir_from_env, config_dir_macos, config_dir_other, config_dir_windows, config_path_for_origin, config_set_standalone,
    config_with_sidecar, config_without_sidecar, sidecar_config_snippet, sidecar_table, Config,
    Sidecar, RESERVED_NICKNAMES,
};

const EXAMPLE_TOML: &str = r#"
version = 1

[sidecars.cardlet]
repo = "git@github.com:andre-a-alves/cardlet.git"
mapping = ".test/"
"#;

/// Reads a config file's text the way the command-line tool does: TOML into
/// plain values, then the library's checks.
fn parse_config(content: &str) -> Result<Config, String> {
    let table: toml::Table = content.parse().map_err(|e: toml::de::Error| e.to_string())?;
    let version = match table.get("version") {
        None => None,
        Some(v) => {
            let n = v.as_integer().ok_or("version must be an integer")?;
            Some(u32::try_from(n).map_err(|_| "version is out of range".to_string())?)
        }
    };
    let mut sidecars: Vec<(String, Sidecar)> = Vec::new();
    if let Some(all) = table.get("sidecars") {
        let all = all.as_table().ok_or("sidecars must be a table")?;
        for (name, entry) in all {
            let entry = entry.as_table().ok_or("a sidecar must be a table")?;
            let repo = entry
                .get("repo")
                .and_then(|v| v.as_str())
                .ok_or("missing field `repo`")?
                .to_string();
            let mapping = entry
                .get("mapping")
                .and_then(|v| v.as_str())
                .ok_or("missing field `mapping`")?
                .to_string();
            let standalone = entry
                .get("standalone")
                .and_then(|v| v.as_bool())
                .unwrap_or(false);
            sidecars.push((
                name.clone(),
                Sidecar {
                    repo,
                    mapping,
                    standalone,
                },
            ));
        }
    }
    check_config(version, sidecars)
}

#[test]
fn parses_config() {
    let config = parse_config(EXAMPLE_TOML).unwrap();
    assert_eq!(config.len(), 1);

    let sidecar = config.get("cardlet").unwrap();
    assert_eq!(sidecar.repo, "git@github.com:andre-a-alves/cardlet.git");
    assert_eq!(sidecar.mapping, ".test/");
}

#[test]
fn finds_sidecar_by_nickname() {
    let config = parse_config(EXAMPLE_TOML).unwrap();
    assert!(config.contains_key("cardlet"));
    assert!(!config.contains_key("nonexistent"));
}

#[test]
fn missing_version_is_an_error() {
    let err = parse_config(
        r#"
[sidecars.cardlet]
repo = "git@github.com:andre-a-alves/cardlet.git"
mapping = ".test/"
"#,
    )
    .unwrap_err();

    assert!(err.contains("missing required top-level version"));
}

#[test]
fn unsupported_version_is_an_error() {
    let err = parse_config(
        r#"
version = 2

[sidecars.cardlet]
repo = "git@github.com:andre-a-alves/cardlet.git"
mapping = ".test/"
"#,
    )
    .unwrap_err();

    assert!(err.contains("unsupported config version 2"));
}

#[test]
fn empty_sidecar_repo_is_an_error() {
    let err = parse_config(
        r#"
version = 1

[sidecars.cardlet]
repo = ""
mapping = ".test/"
"#,
    )
    .unwrap_err();

    assert!(err.contains("sidecar 'cardlet' has an empty repo"));
}

#[test]
fn absolute_sidecar_mapping_is_an_error() {
    let err = parse_config(
        r#"
version = 1

[sidecars.cardlet]
repo = "git@github.com:andre-a-alves/cardlet.git"
mapping = "/tmp/cardlet"
"#,
    )
    .unwrap_err();

    assert!(err.contains("sidecar 'cardlet' mapping must be relative"));
}

#[test]
fn windows_absolute_sidecar_mapping_is_an_error() {
    let err = parse_config(
        r#"
version = 1

[sidecars.cardlet]
repo = "git@github.com:andre-a-alves/cardlet.git"
mapping = "C:\\tmp\\cardlet"
"#,
    )
    .unwrap_err();

    assert!(err.contains("sidecar 'cardlet' mapping must be relative"));
}

#[test]
fn reserved_nicknames_are_errors() {
    for nickname in RESERVED_NICKNAMES {
        let err = parse_config(&format!(
            r#"
version = 1

[sidecars.{nickname}]
repo = "git@github.com:example/x.git"
mapping = ".vendor/x/"
"#
        ))
        .unwrap_err();

        assert!(err.contains(&format!("sidecar nickname '{nickname}' is reserved")));
    }
}

#[test]
fn version_only_config_parses_with_no_sidecars() {
    let config = parse_config("version = 1\n").unwrap();
    assert!(config.is_empty());
}

#[test]
fn resolves_config_path_under_git_sidecar_dir() {
    let path = config_path_for_origin(
        "/home/user/.config",
        "git@github.com:andre-a-alves/git-sidecar.git",
    )
    .unwrap();
    assert!(std::path::Path::new(&path)
        .ends_with("git-sidecar/github.com/andre-a-alves/git-sidecar/config.toml"));
}

#[test]
fn new_config_with_sidecar_parses() {
    let snippet =
        sidecar_config_snippet("foobar", "git@github.com:example/foobar.git", "foobar/", false);
    let content = config_with_sidecar(None, &snippet);

    let config = parse_config(&content).unwrap();
    let sidecar = config.get("foobar").unwrap();
    assert_eq!(sidecar.repo, "git@github.com:example/foobar.git");
    assert_eq!(sidecar.mapping, "foobar/");
}

#[test]
fn appended_config_keeps_existing_sidecars() {
    let snippet =
        sidecar_config_snippet("foobar", "git@github.com:example/foobar.git", "foobar/", false);
    let content = config_with_sidecar(Some(EXAMPLE_TOML), &snippet);

    let config = parse_config(&content).unwrap();
    assert_eq!(config.len(), 2);
    assert!(config.contains_key("cardlet"));
    assert!(config.contains_key("foobar"));
}

#[test]
fn config_snippet_escapes_special_characters() {
    let snippet = sidecar_config_snippet("has spaces", "url\"with\"quotes", "dir/", false);
    let content = config_with_sidecar(None, &snippet);

    let config = parse_config(&content).unwrap();
    let sidecar = config.get("has spaces").unwrap();
    assert_eq!(sidecar.repo, "url\"with\"quotes");
}

#[test]
fn removes_sidecar_table_and_keeps_the_rest() {
    let content = "\
version = 1

# keep me
[sidecars.cardlet]
repo = \"git@github.com:andre-a-alves/cardlet.git\"
mapping = \".test/\"

[sidecars.foobar]
repo = \"git@github.com:example/foobar.git\"
mapping = \".vendor/foobar/\"
";

    let out = config_without_sidecar(content, "cardlet").unwrap();
    let config = parse_config(&out).unwrap();

    assert_eq!(config.len(), 1);
    assert!(config.contains_key("foobar"));
    assert!(out.contains("# keep me"));
    assert!(!out.contains("cardlet"));
}

#[test]
fn removes_last_sidecar_leaving_version_only() {
    let out = config_without_sidecar(EXAMPLE_TOML, "cardlet").unwrap();

    assert_eq!(out.trim(), "version = 1");
    let config = parse_config(&out).unwrap();
    assert!(config.is_empty());
}

#[test]
fn removes_quoted_key_sidecar_table() {
    let snippet = sidecar_config_snippet("has spaces", "url", "dir/", false);
    let content = config_with_sidecar(Some(EXAMPLE_TOML), &snippet);

    let out = config_without_sidecar(&content, "has spaces").unwrap();
    let config = parse_config(&out).unwrap();

    assert_eq!(config.len(), 1);
    assert!(config.contains_key("cardlet"));
}

#[test]
fn unlocatable_sidecar_table_is_an_error() {
    let err = config_without_sidecar(EXAMPLE_TOML, "missing").unwrap_err();
    assert!(err.contains("remove it manually"));
}

#[test]
fn old_config_without_standalone_key_reads_as_unified() {
    let config = parse_config(EXAMPLE_TOML).unwrap();
    assert!(!config.get("cardlet").unwrap().standalone);
}

#[test]
fn empty_nickname_is_an_error() {
    let err = parse_config(
        r#"
version = 1

[sidecars." "]
repo = "git@github.com:example/x.git"
mapping = "x/"
"#,
    )
    .unwrap_err();
    assert_eq!(err, "sidecar nickname cannot be empty");
}

#[test]
fn blank_mapping_is_an_error() {
    let err = parse_config(
        r#"
version = 1

[sidecars.x]
repo = "git@github.com:example/x.git"
mapping = "  "
"#,
    )
    .unwrap_err();
    assert_eq!(err, "sidecar 'x' has an empty mapping");
}

#[test]
fn unsupported_version_message_names_the_expected_version() {
    let err = check_config(Some(17), Vec::new()).err().unwrap();
    assert_eq!(err, "unsupported config version 17; expected 1");
}

#[test]
fn snippet_writes_a_bare_key_and_quoted_values() {
    let snippet =
        sidecar_config_snippet("foobar", "git@github.com:example/foobar.git", "foobar/", false);
    assert_eq!(
        snippet,
        "[sidecars.foobar]\nrepo = \"git@github.com:example/foobar.git\"\nmapping = \"foobar/\"\n"
    );
}

#[test]
fn snippet_quotes_a_key_that_cannot_be_bare() {
    let snippet = sidecar_config_snippet("has spaces", "url", "dir/", false);
    assert!(snippet.starts_with("[sidecars.\"has spaces\"]\n"));
}

#[test]
fn standalone_snippet_records_the_flag() {
    let snippet = sidecar_config_snippet("x", "u", "x/", true);
    assert!(snippet.ends_with("mapping = \"x/\"\nstandalone = true\n"));
    let config = parse_config(&config_with_sidecar(None, &snippet)).unwrap();
    assert!(config.get("x").unwrap().standalone);
}

#[test]
fn sidecar_table_lays_out_the_given_texts() {
    assert_eq!(
        sidecar_table("k", "'r'", "'m'", true),
        "[sidecars.k]\nrepo = 'r'\nmapping = 'm'\nstandalone = true\n"
    );
    assert_eq!(
        sidecar_table("k", "'r'", "'m'", false),
        "[sidecars.k]\nrepo = 'r'\nmapping = 'm'\n"
    );
}

#[test]
fn fresh_config_starts_with_the_version() {
    assert_eq!(config_with_sidecar(None, "S"), "version = 1\n\nS");
    assert_eq!(config_with_sidecar(Some("version = 1\n\n\n"), "S"), "version = 1\n\nS");
    assert_eq!(config_with_sidecar(Some(" \n"), "S"), "S");
}

#[test]
fn setting_standalone_marks_and_clears_the_table() {
    let marked = config_set_standalone(EXAMPLE_TOML, "cardlet", true).unwrap();
    let config = parse_config(&marked).unwrap();
    assert!(config.get("cardlet").unwrap().standalone);

    let cleared = config_set_standalone(&marked, "cardlet", false).unwrap();
    let config = parse_config(&cleared).unwrap();
    assert!(!config.get("cardlet").unwrap().standalone);
    assert!(!cleared.contains("standalone"));
}

#[test]
fn setting_standalone_on_a_missing_table_is_an_error() {
    let err = config_set_standalone(EXAMPLE_TOML, "missing", true).unwrap_err();
    assert!(err.contains("missing"));
}

#[test]
fn config_dir_prefers_xdg_then_home() {
    assert_eq!(config_dir_from_env(Some("/x"), Some("/h")).unwrap(), "/x");
    assert_eq!(config_dir_from_env(Some(""), Some("/h")).unwrap(), "/h/.config");
    assert_eq!(config_dir_from_env(None, Some("/h")).unwrap(), "/h/.config");
    assert!(config_dir_from_env(None, Some("")).is_err());
    assert!(config_dir_from_env(None, None).is_err());
}

#[test]
fn config_path_joins_dir_name_remote_and_file() {
    assert_eq!(
        config_path_for_origin("/c", "https://github.com/o/r.git").unwrap(),
        "/c/git-sidecar/github.com/o/r/config.toml"
    );
    assert!(config_path_for_origin("/c", "/local/path").is_err());
}

#[test]
fn out_of_range_version_is_refused_by_the_parse() {
    assert!(parse_config("version = 4294967297\n").is_err());
}

#[test]
fn adding_then_removing_a_sidecar_gives_back_the_config() {
    let c = "version = 1\n\n# keep\n[sidecars.cardlet]\nrepo = \"x\"\nmapping = \"c/\"\n";
    for standalone in [false, true] {
        let snippet = sidecar_config_snippet("foobar", "git@github.com:example/foobar.git", "foobar/", standalone);
        let added = config_with_sidecar(Some(c), &snippet);
        assert_eq!(config_without_sidecar(&added, "foobar").unwrap(), c);
    }
}

#[test]
fn config_dir_on_other_platforms() {
    assert_eq!(config_dir_macos(Some("/Users/u")).unwrap(), "/Users/u/Library/Application Support");
    assert!(config_dir_macos(Some("")).is_err());
    assert_eq!(config_dir_windows(Some("C:\\AppData")).unwrap(), "C:\\AppData");
    assert_eq!(
        config_dir_windows(None).unwrap_err(),
        "APPDATA is not set; cannot locate the Windows config directory"
    );
    assert_eq!(config_dir_other(Some("/h")).unwrap(), "/h/.config");
    assert!(config_dir_other(None).is_err());
}
