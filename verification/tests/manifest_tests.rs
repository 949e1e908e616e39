use depgraph::{
    crate_info_from_document, crate_info_from_text, member_pattern, workspace_members,
    workspace_members_from_text, ManifestError, TomlValue, WorkspaceMember,
};
use std::path::PathBuf;

fn s(x: &str) -> TomlValue {
    TomlValue::String(x.to_string())
}

fn table(entries: Vec<(&str, TomlValue)>) -> TomlValue {
    TomlValue::Table(entries.into_iter().map(|(k, v)| (k.to_string(), v)).collect())
}

fn manifest(name: &str, deps: &[&str]) -> TomlValue {
    table(vec![
        (
            "package",
            table(vec![
                ("name", s(name)),
                ("version", s("0.1.0")),
                ("edition", s("2021")),
            ]),
        ),
        (
            "dependencies",
            table(deps.iter().map(|d| (*d, s("1"))).collect()),
        ),
    ])
}

#[test]
fn reads_package_name_and_sorted_dependency_names() {
    let doc = manifest("foo", &["serde", "anyhow"]);
    let info = crate_info_from_document(&doc, PathBuf::from("foo/Cargo.toml")).unwrap();
    assert_eq!(info.name, "foo");
    assert_eq!(info.dependencies, vec!["anyhow".to_string(), "serde".to_string()]);
    assert_eq!(info.manifest_path, PathBuf::from("foo/Cargo.toml"));
}

#[test]
fn inline_table_and_path_dependencies_count_by_key() {
    let doc = table(vec![
        ("package", table(vec![("name", s("bar"))])),
        (
            "dependencies",
            table(vec![
                (
                    "clap",
                    table(vec![
                        ("version", s("4")),
                        ("features", TomlValue::Array(vec![s("derive")])),
                    ]),
                ),
                ("localcrate", table(vec![("path", s("../localcrate"))])),
            ]),
        ),
    ]);
    let info = crate_info_from_document(&doc, PathBuf::from("Cargo.toml")).unwrap();
    assert_eq!(info.name, "bar");
    assert_eq!(
        info.dependencies,
        vec!["clap".to_string(), "localcrate".to_string()]
    );
}

#[test]
fn missing_package_name_is_an_error() {
    let doc = table(vec![("dependencies", table(vec![]))]);
    let result = crate_info_from_document(&doc, PathBuf::from("Cargo.toml"));
    assert_eq!(result.unwrap_err(), ManifestError::MissingPackageName);
}

#[test]
fn a_name_that_is_not_a_string_is_missing() {
    let doc = table(vec![("package", table(vec![("name", TomlValue::Integer(3))]))]);
    let result = crate_info_from_document(&doc, PathBuf::from("Cargo.toml"));
    assert_eq!(result.unwrap_err(), ManifestError::MissingPackageName);
}

#[test]
fn no_dependencies_table_yields_empty_deps() {
    let doc = table(vec![(
        "package",
        table(vec![("name", s("nodep")), ("version", s("0.1.0"))]),
    )]);
    let info = crate_info_from_document(&doc, PathBuf::from("Cargo.toml")).unwrap();
    assert!(info.dependencies.is_empty());
}

#[test]
fn dependencies_that_are_not_a_table_are_ignored() {
    let doc = table(vec![
        ("package", table(vec![("name", s("odd"))])),
        ("dependencies", TomlValue::Boolean(true)),
    ]);
    let info = crate_info_from_document(&doc, PathBuf::from("Cargo.toml")).unwrap();
    assert!(info.dependencies.is_empty());
}

#[test]
fn dev_and_build_dependencies_are_not_read() {
    let doc = table(vec![
        ("package", table(vec![("name", s("p"))])),
        ("dependencies", table(vec![("serde", s("1"))])),
        ("dev-dependencies", table(vec![("tempfile", s("3"))])),
        ("build-dependencies", table(vec![("cc", s("1"))])),
    ]);
    let info = crate_info_from_document(&doc, PathBuf::from("Cargo.toml")).unwrap();
    assert_eq!(info.dependencies, vec!["serde".to_string()]);
}

#[test]
fn member_patterns_tell_globs_from_paths() {
    assert_eq!(
        member_pattern(&s("crates/*")),
        WorkspaceMember::Glob("crates".to_string())
    );
    assert_eq!(
        member_pattern(&s("standalone")),
        WorkspaceMember::Path("standalone".to_string())
    );
    assert_eq!(member_pattern(&s("/*")), WorkspaceMember::Glob(String::new()));
    assert_eq!(
        member_pattern(&s("crates/**")),
        WorkspaceMember::Path("crates/**".to_string())
    );
    assert_eq!(member_pattern(&s("*")), WorkspaceMember::Path("*".to_string()));
    assert_eq!(member_pattern(&TomlValue::Integer(1)), WorkspaceMember::NotString);
}

#[test]
fn workspace_members_are_read_in_order() {
    let doc = table(vec![(
        "workspace",
        table(vec![(
            "members",
            TomlValue::Array(vec![s("crates/*"), s("standalone"), TomlValue::Boolean(false)]),
        )]),
    )]);
    assert_eq!(
        workspace_members(&doc),
        Some(vec![
            WorkspaceMember::Glob("crates".to_string()),
            WorkspaceMember::Path("standalone".to_string()),
            WorkspaceMember::NotString,
        ])
    );
}

#[test]
fn missing_workspace_members_is_none() {
    let doc = table(vec![("workspace", table(vec![("resolver", s("2"))]))]);
    assert_eq!(workspace_members(&doc), None);
    let doc = table(vec![("workspace", table(vec![("members", s("crates/*"))]))]);
    assert_eq!(workspace_members(&doc), None);
    assert_eq!(workspace_members(&table(vec![])), None);
}

fn manifest_text(name: &str, deps: &[&str]) -> String {
    let deps_block = deps
        .iter()
        .map(|d| format!("{d} = \"1\""))
        .collect::<Vec<_>>()
        .join("\n");
    format!(
        "[package]\nname = \"{name}\"\nversion = \"0.1.0\"\nedition = \"2021\"\n\n[dependencies]\n{deps_block}\n"
    )
}

#[test]
fn parses_package_name_and_dependency_names() {
    let text = manifest_text("foo", &["serde", "anyhow"]);
    let info = crate_info_from_text(&text, PathBuf::from("Cargo.toml")).unwrap();
    assert_eq!(info.name, "foo");
    assert_eq!(
        info.dependencies,
        vec!["anyhow".to_string(), "serde".to_string()]
    );
}

#[test]
fn parses_manifest_with_inline_table_and_path_dependencies() {
    let contents = r#"
[package]
name = "bar"
version = "0.1.0"
edition = "2021"

[dependencies]
clap = { version = "4", features = ["derive"] }
localcrate = { path = "../localcrate" }
"#;
    let info = crate_info_from_text(contents, PathBuf::from("Cargo.toml")).unwrap();
    assert_eq!(info.name, "bar");
    assert_eq!(
        info.dependencies,
        vec!["clap".to_string(), "localcrate".to_string()]
    );
}

#[test]
fn missing_package_name_is_an_error_not_a_panic() {
    let result = crate_info_from_text("[dependencies]\n", PathBuf::from("Cargo.toml"));
    assert!(result.is_err());
    assert_eq!(result.unwrap_err(), ManifestError::MissingPackageName);
}

#[test]
fn manifest_with_no_dependencies_table_yields_empty_deps() {
    let info = crate_info_from_text(
        "[package]\nname = \"nodep\"\nversion = \"0.1.0\"\nedition = \"2021\"\n",
        PathBuf::from("Cargo.toml"),
    )
    .unwrap();
    assert!(info.dependencies.is_empty());
}

#[test]
fn text_that_is_not_toml_is_refused() {
    let result = crate_info_from_text("[package\nname = ", PathBuf::from("Cargo.toml"));
    assert_eq!(result.unwrap_err(), ManifestError::InvalidToml);
    let members = workspace_members_from_text("members = [");
    assert_eq!(members.unwrap_err(), ManifestError::InvalidToml);
}

#[test]
fn manifest_text_keeps_its_path_and_reads_every_value_kind() {
    let text = "[package]\nname = \"kinds\"\nrust-version = 1.5\npublish = false\nbuilt = 1979-05-27T07:32:00Z\ncount = 3\n\n[dependencies]\nzeta = \"1\"\nalpha = { version = \"2\", optional = true }\n";
    let info = crate_info_from_text(text, PathBuf::from("kinds/Cargo.toml")).unwrap();
    assert_eq!(info.name, "kinds");
    assert_eq!(info.manifest_path, PathBuf::from("kinds/Cargo.toml"));
    assert_eq!(info.dependencies, vec!["alpha".to_string(), "zeta".to_string()]);
    assert_eq!(info.clone(), info);
}

#[test]
fn workspace_text_reads_star_glob_and_explicit_member() {
    let members =
        workspace_members_from_text("[workspace]\nmembers = [\"crates/*\", \"standalone\"]\n")
            .unwrap();
    assert_eq!(
        members,
        vec![
            WorkspaceMember::Glob("crates".to_string()),
            WorkspaceMember::Path("standalone".to_string()),
        ]
    );
}

#[test]
fn workspace_text_without_members_is_an_error() {
    let result = workspace_members_from_text("[workspace]\nresolver = \"2\"\n");
    assert_eq!(result.unwrap_err(), ManifestError::MissingWorkspaceMembers);
    let result = workspace_members_from_text("[workspace]\nmembers = [1, \"a\"]\n").unwrap();
    assert_eq!(result, vec![WorkspaceMember::NotString, WorkspaceMember::Path("a".to_string())]);
}
