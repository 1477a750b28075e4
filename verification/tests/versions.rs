//! Tests for the manifest model: semver checking, parsing, build order and
//! cycle detection.

use versions_manifest::{is_valid_semver, ManifestEntry, RepoVersion, VersionsManifest};

/// Build a manifest from TOML text, as the file loader does.
fn manifest_from_toml(content: &str) -> VersionsManifest {
    let table: toml::Table = toml::from_str(content).expect("well-formed TOML");
    let versions_tbl = table
        .get("versions")
        .expect("a [versions] table")
        .as_table()
        .expect("a table of records");
    let mut versions = Vec::new();
    for (name, val) in versions_tbl.iter() {
        let rec = val.as_table().expect("a record table");
        let version = rec
            .get("version")
            .and_then(|v| v.as_str())
            .expect("a version string")
            .to_string();
        let git_tag = rec
            .get("git_tag")
            .and_then(|v| v.as_str())
            .expect("a git_tag string")
            .to_string();
        let git_commit = rec
            .get("git_commit")
            .and_then(|v| v.as_str())
            .map(|s| s.to_string());
        let requires = match rec.get("requires") {
            Some(v) => v
                .as_array()
                .expect("an array")
                .iter()
                .map(|x| x.as_str().expect("a string").to_string())
                .collect(),
            None => Vec::new(),
        };
        let binaries = match rec.get("binaries") {
            Some(v) => v
                .as_array()
                .expect("an array")
                .iter()
                .map(|x| x.as_str().expect("a string").to_string())
                .collect(),
            None => Vec::new(),
        };
        versions.push(ManifestEntry {
            name: name.clone(),
            record: RepoVersion { version, git_tag, git_commit, requires, binaries },
        });
    }
    let metadata = table.get("metadata").map(|v| {
        v.as_table()
            .expect("a table")
            .iter()
            .map(|(k, val)| (k.clone(), val.as_str().expect("a string").to_string()))
            .collect()
    });
    VersionsManifest { versions, metadata }
}

#[test]
fn test_valid_semver() {
    assert!(is_valid_semver("0.1.0"));
    assert!(is_valid_semver("1.2.3"));
    assert!(is_valid_semver("10.20.30"));
    assert!(!is_valid_semver("1.2"));
    assert!(!is_valid_semver("v1.2.3"));
    assert!(!is_valid_semver("1.2.3.4"));
}

#[test]
fn test_parse_versions_toml() {
    let content = r#"
[versions]
bllvm-consensus = { version = "0.1.0", git_tag = "v0.1.0" }
bllvm-protocol = { version = "0.1.0", git_tag = "v0.1.0", requires = ["bllvm-consensus=0.1.0"] }
"#;

    let manifest = manifest_from_toml(content);
    assert_eq!(manifest.versions.len(), 2);
    assert!(manifest.contains_key(&"bllvm-consensus".to_string()));
    assert!(manifest.contains_key(&"bllvm-protocol".to_string()));
}

#[test]
fn versions_test_build_order() {
    let content = r#"
[versions]
bllvm-consensus = { version = "0.1.0", git_tag = "v0.1.0" }
bllvm-protocol = { version = "0.1.0", git_tag = "v0.1.0", requires = ["bllvm-consensus=0.1.0"] }
bllvm-node = { version = "0.1.0", git_tag = "v0.1.0", requires = ["bllvm-protocol=0.1.0"] }
"#;

    let manifest = manifest_from_toml(content);
    let order = manifest.build_order().unwrap();

    let consensus_pos = order.iter().position(|r| r == "bllvm-consensus").unwrap();
    let protocol_pos = order.iter().position(|r| r == "bllvm-protocol").unwrap();
    let node_pos = order.iter().position(|r| r == "bllvm-node").unwrap();

    assert!(consensus_pos < protocol_pos);
    assert!(protocol_pos < node_pos);
}

#[test]
fn versions_test_circular_dependency_detection() {
    let content = r#"
[versions]
A = { version = "0.1.0", git_tag = "v0.1.0", requires = ["B=0.1.0"] }
B = { version = "0.1.0", git_tag = "v0.1.0", requires = ["A=0.1.0"] }
"#;

    let manifest = manifest_from_toml(content);
    assert!(manifest.detect_circular_dependencies().is_some());
}
