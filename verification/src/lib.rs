//! A dependency manifest for a project split into independently versioned
//! repositories: the data model, its validation rules, cycle detection, and
//! a dependency-respecting build order.

pub mod cycle;
pub mod graph;
pub mod manifest;
pub mod order;
pub mod semver;
pub mod validate;

pub use manifest::{ManifestEntry, RepoVersion, VersionsManifest};
pub use order::CircularDependencyError;
pub use semver::is_valid_semver;
pub use validate::ValidationResult;
