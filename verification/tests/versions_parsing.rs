//! Tests for manifest parsing and validation.

use versions_manifest::{ManifestEntry, RepoVersion, VersionsManifest};

/// Build a manifest from TOML text, as the file loader does.
fn parse_manifest(content: &str) -> VersionsManifest {
    let table: toml::Table = toml::from_str(content).expect("well-formed TOML");
    let versions_tbl = table
        .get("versions")
        .expect("a [versions] table")
        .as_table()
        .expect("a table of records");
    let mut versions = Vec::new();
    for (name, val) in versions_tbl.iter() {
        let rec = val.as_table().expect("a record table");
        let version = rec
            .get("version")
            .and_then(|v| v.as_str())
            .expect("a version string")
            .to_string();
        let git_tag = rec
            .get("git_tag")
            .and_then(|v| v.as_str())
            .expect("a git_tag string")
            .to_string();
        let git_commit = rec
            .get("git_commit")
            .and_then(|v| v.as_str())
            .map(|s| s.to_string());
        let requires = match rec.get("requires") {
            Some(v) => v
                .as_array()
                .expect("an array")
                .iter()
                .map(|x| x.as_str().expect("a string").to_string())
                .collect(),
            None => Vec::new(),
        };
        let binaries = match rec.get("binaries") {
            Some(v) => v
                .as_array()
                .expect("an array")
                .iter()
                .map(|x| x.as_str().expect("a string").to_string())
                .collect(),
            None => Vec::new(),
        };
        versions.push(ManifestEntry {
            name: name.clone(),
            record: RepoVersion { version, git_tag, git_commit, requires, binaries },
        });
    }
    let metadata = table.get("metadata").map(|v| {
        v.as_table()
            .expect("a table")
            .iter()
            .map(|(k, val)| (k.clone(), val.as_str().expect("a string").to_string()))
            .collect()
    });
    VersionsManifest { versions, metadata }
}

/// Test parsing valid versions manifest text
#[test]
fn test_parse_valid_versions_toml() {
    let content = r#"
[versions]
blvm-consensus = { version = "0.1.0", git_tag = "v0.1.0" }
blvm-protocol = { version = "0.1.0", git_tag = "v0.1.0", requires = ["blvm-consensus=0.1.0"] }
blvm-node = { version = "0.1.0", git_tag = "v0.1.0", requires = ["blvm-protocol=0.1.0", "blvm-consensus=0.1.0"] }
"#;

    let manifest = parse_manifest(content);
    assert_eq!(manifest.versions.len(), 3);
    assert!(manifest.contains_key(&"blvm-consensus".to_string()));
    assert!(manifest.contains_key(&"blvm-protocol".to_string()));
    assert!(manifest.contains_key(&"blvm-node".to_string()));
}

/// Test dependency resolution
#[test]
fn test_dependency_resolution() {
    let content = r#"
[versions]
blvm-consensus = { version = "0.1.0", git_tag = "v0.1.0" }
blvm-protocol = { version = "0.1.0", git_tag = "v0.1.0", requires = ["blvm-consensus=0.1.0"] }
blvm-node = { version = "0.1.0", git_tag = "v0.1.0", requires = ["blvm-protocol=0.1.0"] }
"#;

    let manifest = parse_manifest(content);

    // Verify blvm-protocol requires blvm-consensus
    let protocol = manifest.get_record(&"blvm-protocol".to_string());
    assert!(protocol.requires.iter().any(|r| r.contains("blvm-consensus")));

    // Verify blvm-node requires blvm-protocol
    let node = manifest.get_record(&"blvm-node".to_string());
    assert!(node.requires.iter().any(|r| r.contains("blvm-protocol")));
}

/// Test version format validation
#[test]
fn test_version_format_validation() {
    let valid_content = r#"
[versions]
repo1 = { version = "0.1.0", git_tag = "v0.1.0" }
repo2 = { version = "1.2.3", git_tag = "v1.2.3" }
repo3 = { version = "10.20.30", git_tag = "v10.20.30" }
"#;

    let manifest = parse_manifest(valid_content);
    let validation = manifest.validate();
    assert!(
        validation.is_valid(),
        "Valid versions should pass validation"
    );
}

/// Test invalid version format
#[test]
fn test_invalid_version_format() {
    let invalid_content = r#"
[versions]
repo1 = { version = "1.2", git_tag = "v1.2" }
repo2 = { version = "v1.2.3", git_tag = "v1.2.3" }
repo3 = { version = "1.2.3.4", git_tag = "v1.2.3.4" }
"#;

    let manifest = parse_manifest(invalid_content);
    let validation = manifest.validate();
    assert!(
        !validation.is_valid(),
        "Invalid versions should fail validation"
    );
    assert!(!validation.errors().is_empty());
}

/// Test circular dependency detection
#[test]
fn versions_parsing_test_circular_dependency_detection() {
    let content = r#"
[versions]
A = { version = "0.1.0", git_tag = "v0.1.0", requires = ["B=0.1.0"] }
B = { version = "0.1.0", git_tag = "v0.1.0", requires = ["A=0.1.0"] }
"#;

    let manifest = parse_manifest(content);
    assert!(
        manifest.detect_circular_dependencies().is_some(),
        "Should detect circular dependency"
    );

    let validation = manifest.validate();
    assert!(
        !validation.is_valid(),
        "Circular dependencies should fail validation"
    );
}

/// Test missing dependency detection
#[test]
fn test_missing_dependency_detection() {
    let content = r#"
[versions]
blvm-protocol = { version = "0.1.0", git_tag = "v0.1.0", requires = ["blvm-consensus=0.1.0"] }
# blvm-consensus is missing!
"#;

    let manifest = parse_manifest(content);
    let validation = manifest.validate();
    assert!(
        !validation.is_valid(),
        "Missing dependencies should fail validation"
    );
    assert!(validation.errors().iter().any(|e| e.contains("blvm-consensus")));
}

/// Test build order calculation
#[test]
fn versions_parsing_test_build_order() {
    let content = r#"
[versions]
blvm-consensus = { version = "0.1.0", git_tag = "v0.1.0" }
blvm-protocol = { version = "0.1.0", git_tag = "v0.1.0", requires = ["blvm-consensus=0.1.0"] }
blvm-node = { version = "0.1.0", git_tag = "v0.1.0", requires = ["blvm-protocol=0.1.0"] }
"#;

    let manifest = parse_manifest(content);
    let order = manifest.build_order().expect("Should calculate build order");

    let consensus_pos = order.iter().position(|r| r == "blvm-consensus").unwrap();
    let protocol_pos = order.iter().position(|r| r == "blvm-protocol").unwrap();
    let node_pos = order.iter().position(|r| r == "blvm-node").unwrap();

    assert!(
        consensus_pos < protocol_pos,
        "blvm-consensus should come before blvm-protocol"
    );
    assert!(
        protocol_pos < node_pos,
        "blvm-protocol should come before blvm-node"
    );
}

/// Test build order with circular dependency
#[test]
fn test_build_order_circular() {
    let content = r#"
[versions]
A = { version = "0.1.0", git_tag = "v0.1.0", requires = ["B=0.1.0"] }
B = { version = "0.1.0", git_tag = "v0.1.0", requires = ["A=0.1.0"] }
"#;

    let manifest = parse_manifest(content);
    let result = manifest.build_order();
    assert!(result.is_err(), "Should fail with circular dependency");
    assert!(result.unwrap_err().message().contains("Circular dependency"));
}

/// Parsing manifest text and constructing the value directly agree.
#[test]
fn test_direct_construction_matches_parsed() {
    let content = r#"
[versions]
solo = { version = "0.1.0", git_tag = "v0.1.0" }
"#;
    let parsed = parse_manifest(content);
    let direct = VersionsManifest {
        versions: vec![ManifestEntry {
            name: "solo".to_string(),
            record: RepoVersion {
                version: "0.1.0".to_string(),
                git_tag: "v0.1.0".to_string(),
                git_commit: None,
                requires: Vec::new(),
                binaries: Vec::new(),
            },
        }],
        metadata: None,
    };
    assert_eq!(parsed.versions, direct.versions);
    assert_eq!(parsed.metadata, direct.metadata);
}
