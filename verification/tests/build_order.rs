//! Tests for build order and dependency resolution.

use versions_manifest::{ManifestEntry, RepoVersion, VersionsManifest};

/// A manifest entry without optional fields.
fn entry(name: &str, version: &str, git_tag: &str, requires: &[&str]) -> ManifestEntry {
    ManifestEntry {
        name: name.to_string(),
        record: RepoVersion {
            version: version.to_string(),
            git_tag: git_tag.to_string(),
            git_commit: None,
            requires: requires.iter().map(|s| s.to_string()).collect(),
            binaries: Vec::new(),
        },
    }
}

/// Test that build order respects dependencies
#[test]
fn test_build_order_respects_dependencies() {
    // Given: blvm-node depends on blvm-protocol and blvm-consensus
    // When: calculating build order
    // Then: blvm-consensus and blvm-protocol should come before blvm-node

    let manifest = VersionsManifest {
        versions: vec![
            entry("blvm-consensus", "0.1.0", "v0.1.0", &[]),
            entry("blvm-protocol", "0.1.0", "v0.1.0", &["blvm-consensus=0.1.0"]),
            entry(
                "blvm-node",
                "0.1.0",
                "v0.1.0",
                &["blvm-protocol=0.1.0", "blvm-consensus=0.1.0"],
            ),
        ],
        metadata: None,
    };

    let build_order = manifest.build_order().expect("Should calculate build order");

    let consensus_pos = build_order
        .iter()
        .position(|r| r == "blvm-consensus")
        .unwrap();
    let protocol_pos = build_order
        .iter()
        .position(|r| r == "blvm-protocol")
        .unwrap();
    let node_pos = build_order.iter().position(|r| r == "blvm-node").unwrap();

    assert!(
        consensus_pos < protocol_pos,
        "blvm-consensus should come before blvm-protocol"
    );
    assert!(
        protocol_pos < node_pos,
        "blvm-protocol should come before blvm-node"
    );
}

/// Test circular dependency detection in build order
#[test]
fn build_order_test_circular_dependency_detection() {
    // A depends on B, B depends on A - should fail
    let manifest = VersionsManifest {
        versions: vec![
            entry("A", "0.1.0", "v0.1.0", &["B=0.1.0"]),
            entry("B", "0.1.0", "v0.1.0", &["A=0.1.0"]),
        ],
        metadata: None,
    };

    let result = manifest.build_order();

    assert!(result.is_err(), "Should fail with circular dependency");
    assert!(result.unwrap_err().message().contains("Circular dependency"));
}

/// Test parallel builds (repos with no dependencies can be built in parallel)
#[test]
fn test_parallel_builds() {
    let manifest = VersionsManifest {
        versions: vec![
            entry("blvm-consensus", "0.1.0", "v0.1.0", &[]),
            entry("bllvm-sdk", "0.1.0", "v0.1.0", &[]),
            entry("blvm-protocol", "0.1.0", "v0.1.0", &["blvm-consensus=0.1.0"]),
        ],
        metadata: None,
    };

    let build_order = manifest.build_order().expect("Should calculate build order");

    // blvm-consensus and bllvm-sdk have no dependencies, so they can be built in parallel
    // blvm-protocol depends on blvm-consensus, so consensus must come before protocol
    // bllvm-sdk has no dependencies, so its position relative to protocol is non-deterministic
    let consensus_pos = build_order
        .iter()
        .position(|r| r == "blvm-consensus")
        .unwrap();
    let protocol_pos = build_order
        .iter()
        .position(|r| r == "blvm-protocol")
        .unwrap();

    // Consensus must come before protocol (it's a dependency)
    assert!(
        consensus_pos < protocol_pos,
        "blvm-consensus should come before blvm-protocol (it's a dependency)"
    );

    // Verify all repos are present (order between independent repos is non-deterministic)
    assert!(build_order.contains(&"blvm-consensus".to_string()));
    assert!(build_order.contains(&"bllvm-sdk".to_string()));
    assert!(build_order.contains(&"blvm-protocol".to_string()));
    assert_eq!(
        build_order.len(),
        3,
        "Should have exactly 3 repos in build order"
    );
}
