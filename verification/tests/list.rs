use git_sidecar::commands::list::{
    format_sidecar_rows, global_label, global_listing, sorted_sidecar_rows,
};
use git_sidecar::config::{check_config, Sidecar};

fn row(cols: &[&str]) -> Vec<String> {
    cols.iter().map(|c| c.to_string()).collect()
}

fn sidecar(repo: &str, mapping: &str, standalone: bool) -> Sidecar {
    Sidecar {
        repo: repo.to_string(),
        mapping: mapping.to_string(),
        standalone,
    }
}

#[test]
fn formats_sidecar_rows_with_aligned_columns() {
    let rows = vec![
        row(&[
            "cardlet",
            "git@github.com:andre-a-alves/cardlet.git",
            ".test/",
        ]),
        row(&["fb", "git@github.com:example/foobar.git", ".vendor/foobar/"]),
    ];

    let lines = format_sidecar_rows(&rows);

    assert_eq!(
        lines,
        vec![
            "cardlet   git@github.com:andre-a-alves/cardlet.git   .test/",
            "fb        git@github.com:example/foobar.git          .vendor/foobar/",
        ]
    );
}

#[test]
fn sorts_sidecar_rows_by_nickname() {
    let config = check_config(
        Some(1),
        vec![
            (
                "zeta".to_string(),
                sidecar("git@github.com:example/zeta.git", ".vendor/zeta/", false),
            ),
            (
                "alpha".to_string(),
                sidecar("git@github.com:example/alpha.git", ".vendor/alpha/", false),
            ),
        ],
    )
    .ok()
    .unwrap();

    let rows = sorted_sidecar_rows(&config);
    assert_eq!(rows[0][0], "alpha");
    assert_eq!(rows[1][0], "zeta");
}

#[test]
fn rows_end_with_the_layout() {
    let config = check_config(
        Some(1),
        vec![
            ("b".to_string(), sidecar("u2", "b/", true)),
            ("a".to_string(), sidecar("u1", "a/", false)),
        ],
    )
    .ok()
    .unwrap();

    let rows = sorted_sidecar_rows(&config);
    assert_eq!(
        rows,
        vec![row(&["a", "u1", "a/", "unified"]), row(&["b", "u2", "b/", "standalone"])]
    );
    assert_eq!(
        format_sidecar_rows(&rows),
        vec!["a   u1   a/   unified", "b   u2   b/   standalone"]
    );
}

#[test]
fn no_rows_format_to_no_lines() {
    assert!(format_sidecar_rows(&Vec::new()).is_empty());
}

#[test]
fn columns_pad_by_byte_length() {
    let rows = vec![row(&["é", "x"]), row(&["ab", "y"])];
    assert_eq!(format_sidecar_rows(&rows), vec!["é    x", "ab   y"]);
}

#[test]
fn list_distinguishes_unified_and_standalone_sidecars() {
    let config = check_config(
        Some(1),
        vec![
            ("sidecar".to_string(), sidecar("/tmp/t/sidecar.git", "sidecar/", false)),
            ("loner".to_string(), sidecar("/tmp/t/sidecar.git", "loner/", true)),
        ],
    )
    .ok()
    .unwrap();
    let out = format_sidecar_rows(&sorted_sidecar_rows(&config));
    let sidecar_row = out.iter().find(|l| l.starts_with("sidecar")).unwrap();
    let loner_row = out.iter().find(|l| l.starts_with("loner")).unwrap();
    assert!(sidecar_row.ends_with("unified"), "row: {sidecar_row}");
    assert!(loner_row.ends_with("standalone"), "row: {loner_row}");
}

#[test]
fn rows_of_different_lengths_pad_the_columns_they_have() {
    let rows = vec![row(&["a", "bb", "c"]), row(&["xyz"]), row(&[])];
    assert_eq!(format_sidecar_rows(&rows), vec!["a     bb   c", "xyz", ""]);
}

fn cfg(entries: &[(&str, &str, &str, bool)]) -> git_sidecar::config::Config {
    check_config(
        Some(1),
        entries
            .iter()
            .map(|(n, r, m, s)| (n.to_string(), sidecar(r, m, *s)))
            .collect(),
    )
    .ok()
    .unwrap()
}

#[test]
fn global_listing_groups_rows_under_each_parent_repo() {
    let root = "/home/u/.config/git-sidecar";
    let files = vec![
        (
            format!("{root}/github.com/example/alpha/config.toml"),
            Some(cfg(&[("zz", "u2", "z/", true), ("aa", "u1", "a/", false)])),
        ),
        (format!("{root}/broken/config.toml"), None),
        (
            format!("{root}/gitlab.com/example/beta/config.toml"),
            Some(cfg(&[("fb", "url", "fb/", false)])),
        ),
    ];
    assert_eq!(
        global_listing(root, &files, false),
        vec![
            "github.com/example/alpha:",
            "  aa   u1   a/   unified",
            "  zz   u2   z/   standalone",
            "",
            "gitlab.com/example/beta:",
            "  fb   url   fb/   unified",
        ]
    );
}

#[test]
fn global_listing_without_config_files_says_so() {
    assert_eq!(
        global_listing("/r", &Vec::new(), false),
        vec!["no sidecars configured under /r"]
    );
}

#[test]
fn global_label_is_the_directory_under_the_root_or_the_whole_path() {
    assert_eq!(global_label("/r", "/r/h/o/p/config.toml", false), "h/o/p");
    assert_eq!(global_label("/r", "/elsewhere/config.toml", false), "/elsewhere/config.toml");
    assert_eq!(global_label("/r/", "/r/./h/config.toml", false), "h");
    assert_eq!(global_label("C:\\r", "C:\\r\\h\\o\\config.toml", true), "h\\o");
}
