//! The validator: checks version formats, dependency existence and
//! acyclicity independently, collecting every problem found.

use vstd::prelude::*;

use crate::cycle::join_arrows_spec;
use crate::graph::{has_cycle, is_cycle, lemma_name_seq_push};
use crate::manifest::{dep_name_of, dep_name_spec, name_seq, ManifestEntry, VersionsManifest};
use crate::semver::{is_valid_semver, is_valid_semver_spec};

verus! {

/// The outcome of validating a manifest: all problems found, collected
/// rather than thrown. No rule of the current design produces a warning,
/// but the outcome leaves room for non-fatal diagnostics.
#[derive(Debug, Clone)]
pub enum ValidationResult {
    /// No errors and no warnings.
    Valid,
    /// No errors, but some non-fatal diagnostics.
    ValidWithWarnings(Vec<String>),
    /// At least one error.
    Invalid { errors: Vec<String>, warnings: Vec<String> },
}

impl ValidationResult {
    /// Whether the outcome carries no error.
    pub open spec fn is_valid_spec(self) -> bool {
        !(self is Invalid)
    }

    /// Whether validation found no error (warnings alone do not invalidate).
    pub fn is_valid(&self) -> (r: bool)
        ensures
            r == self.is_valid_spec(),
    {
        match self {
            ValidationResult::Invalid { .. } => false,
            _ => true,
        }
    }

    /// The collected errors; empty unless the outcome is `Invalid`.
    pub fn errors(&self) -> (r: &[String])
        ensures
            match *self {
                ValidationResult::Invalid { errors, .. } => r@ == errors@,
                _ => r@.len() == 0,
            },
    {
        match self {
            ValidationResult::Invalid { errors, .. } => errors.as_slice(),
            _ => &[],
        }
    }
}

/// The error reported for a malformed version string.
pub open spec fn invalid_version_message(repo: Seq<char>, version: Seq<char>) -> Seq<char> {
    "Repository '"@ + repo + "' has invalid version '"@ + version + "' (must be X.Y.Z)"@
}

/// The error reported for a dependency on an undefined repository.
pub open spec fn missing_dependency_message(repo: Seq<char>, dep: Seq<char>) -> Seq<char> {
    "Repository '"@ + repo + "' requires '"@ + dep + "' which is not defined"@
}

/// The error reported for a dependency cycle.
pub open spec fn circular_dependency_message(cycle: Seq<char>) -> Seq<char> {
    "Circular dependency detected: "@ + cycle
}

/// The version-format errors of one entry: one message when its version is
/// malformed, none otherwise.
pub open spec fn entry_version_errors(e: ManifestEntry) -> Seq<Seq<char>> {
    if is_valid_semver_spec(e.record.version@) {
        Seq::empty()
    } else {
        seq![invalid_version_message(e.name@, e.record.version@)]
    }
}

/// The missing-dependency errors of one entry's first `k` dependency
/// specifiers, in order.
pub open spec fn dep_errors_upto(m: VersionsManifest, e: ManifestEntry, k: int) -> Seq<Seq<char>>
    decreases k,
{
    if k <= 0 {
        Seq::empty()
    } else {
        dep_errors_upto(m, e, k - 1) + if m.has_key(dep_name_spec(e.record.requires@[k - 1]@)) {
            Seq::empty()
        } else {
            seq![missing_dependency_message(e.name@, dep_name_spec(e.record.requires@[k - 1]@))]
        }
    }
}

/// All errors of one entry: its version error, then its missing-dependency
/// errors in specifier order.
pub open spec fn entry_errors(m: VersionsManifest, e: ManifestEntry) -> Seq<Seq<char>> {
    entry_version_errors(e) + dep_errors_upto(m, e, e.record.requires@.len() as int)
}

/// The per-entry errors of the manifest's first `k` entries, in manifest
/// order.
pub open spec fn structural_errors_upto(m: VersionsManifest, k: int) -> Seq<Seq<char>>
    decreases k,
{
    if k <= 0 {
        Seq::empty()
    } else {
        structural_errors_upto(m, k - 1) + entry_errors(m, m.versions@[k - 1])
    }
}

/// Every per-entry error of the manifest: version-format and
/// missing-dependency errors, in manifest order.
pub open spec fn structural_errors(m: VersionsManifest) -> Seq<Seq<char>> {
    structural_errors_upto(m, m.versions@.len() as int)
}

/// Every version string of the manifest is well-formed.
pub open spec fn versions_ok(m: VersionsManifest) -> bool {
    forall|i: int|
        0 <= i < m.versions@.len() ==> is_valid_semver_spec(
            #[trigger] m.versions@[i].record.version@,
        )
}

/// Every dependency specifier of the manifest names a defined repository.
pub open spec fn deps_ok(m: VersionsManifest) -> bool {
    forall|i: int, j: int|
        0 <= i < m.versions@.len() && 0 <= j < m.versions@[i].record.requires@.len() ==> m.has_key(
            dep_name_spec(#[trigger] m.versions@[i].record.requires@[j]@),
        )
}

/// The three validation rules together: well-formed versions, defined
/// dependencies, no cycle.
pub open spec fn manifest_valid(m: VersionsManifest) -> bool {
    versions_ok(m) && deps_ok(m) && !has_cycle(m)
}

/// One entry's dependency errors are absent exactly when each of its first
/// `k` dependencies is defined.
proof fn lemma_dep_errors_empty(m: VersionsManifest, e: ManifestEntry, k: int)
    requires
        0 <= k <= e.record.requires@.len(),
    ensures
        dep_errors_upto(m, e, k).len() == 0 <==> forall|j: int|
            0 <= j < k ==> m.has_key(dep_name_spec(#[trigger] e.record.requires@[j]@)),
    decreases k,
{
    if k > 0 {
        lemma_dep_errors_empty(m, e, k - 1);
    }
}

/// The per-entry errors are absent exactly when every version is
/// well-formed and every dependency is defined.
proof fn lemma_structural_errors_empty(m: VersionsManifest, k: int)
    requires
        0 <= k <= m.versions@.len(),
    ensures
        structural_errors_upto(m, k).len() == 0 <==> ((forall|i: int|
            0 <= i < k ==> is_valid_semver_spec(#[trigger] m.versions@[i].record.version@))
            && (forall|i: int, j: int|
            0 <= i < k && 0 <= j < m.versions@[i].record.requires@.len() ==> m.has_key(
                dep_name_spec(#[trigger] m.versions@[i].record.requires@[j]@),
            ))),
    decreases k,
{
    if k > 0 {
        lemma_structural_errors_empty(m, k - 1);
        let e = m.versions@[k - 1];
        lemma_dep_errors_empty(m, e, e.record.requires@.len() as int);
    }
}

/// Build the error text for a malformed version.
fn invalid_version_error(repo: &String, version: &String) -> (r: String)
    ensures
        r@ == invalid_version_message(repo@, version@),
{
    let mut s = String::from_str("Repository '");
    s.append(repo.as_str());
    s.append("' has invalid version '");
    s.append(version.as_str());
    s.append("' (must be X.Y.Z)");
    s
}

/// Build the error text for an undefined dependency.
fn missing_dependency_error(repo: &String, dep: &String) -> (r: String)
    ensures
        r@ == missing_dependency_message(repo@, dep@),
{
    let mut s = String::from_str("Repository '");
    s.append(repo.as_str());
    s.append("' requires '");
    s.append(dep.as_str());
    s.append("' which is not defined");
    s
}

/// Build the error text for a dependency cycle.
fn circular_dependency_error(cycle: &String) -> (r: String)
    ensures
        r@ == circular_dependency_message(cycle@),
{
    let mut s = String::from_str("Circular dependency detected: ");
    s.append(cycle.as_str());
    s
}

impl VersionsManifest {
    /// Validate the manifest: check every version string, every dependency
    /// reference and the absence of cycles, all independently, and collect
    /// every error found. The outcome is `Valid` exactly when all three
    /// rules hold; otherwise it lists the per-entry errors in manifest
    /// order, followed by one cycle error when the graph is cyclic.
    pub fn validate(&self) -> (r: ValidationResult)
        requires
            self.wf(),
        ensures
            !(r is ValidWithWarnings),
            r is Valid <==> manifest_valid(*self),
            r.is_valid_spec() <==> manifest_valid(*self),
            match r {
                ValidationResult::Invalid { errors, warnings } => {
                    &&& warnings@.len() == 0
                    &&& errors@.len() > 0
                    &&& if has_cycle(*self) {
                        exists|c: Seq<Seq<char>>|
                            is_cycle(*self, c) && name_seq(errors@) == structural_errors(
                                *self,
                            ).push(circular_dependency_message(join_arrows_spec(c)))
                    } else {
                        name_seq(errors@) == structural_errors(*self)
                    }
                },
                _ => true,
            },
    {
        let mut errors: Vec<String> = Vec::new();
        let mut i: usize = 0;
        while i < self.versions.len()
            invariant
                self.wf(),
                i <= self.versions@.len(),
                name_seq(errors@) == structural_errors_upto(*self, i as int),
            decreases self.versions@.len() - i,
        {
            let entry = &self.versions[i];
            let ghost e = self.versions@[i as int];
            if !is_valid_semver(entry.record.version.as_str()) {
                let ghost pre = errors@;
                let msg = invalid_version_error(&entry.name, &entry.record.version);
                errors.push(msg);
                proof {
                    lemma_name_seq_push(pre, msg);
                    assert(name_seq(errors@) =~= structural_errors_upto(*self, i as int)
                        + entry_version_errors(e));
                }
            }
            proof {
                assert(name_seq(errors@) =~= structural_errors_upto(*self, i as int)
                    + entry_version_errors(e) + dep_errors_upto(*self, e, 0));
            }
            let mut j: usize = 0;
            while j < entry.record.requires.len()
                invariant
                    self.wf(),
                    i < self.versions@.len(),
                    e == self.versions@[i as int],
                    *entry == e,
                    j <= entry.record.requires@.len(),
                    name_seq(errors@) == structural_errors_upto(*self, i as int)
                        + entry_version_errors(e) + dep_errors_upto(*self, e, j as int),
                decreases entry.record.requires@.len() - j,
            {
                let dep = dep_name_of(&entry.record.requires[j]);
                let ghost pre = errors@;
                if !self.contains_key(&dep) {
                    let msg = missing_dependency_error(&entry.name, &dep);
                    errors.push(msg);
                    proof {
                        lemma_name_seq_push(pre, msg);
                    }
                }
                proof {
                    assert(dep@ == dep_name_spec(e.record.requires@[j as int]@));
                    assert(name_seq(errors@) =~= structural_errors_upto(*self, i as int)
                        + entry_version_errors(e) + dep_errors_upto(*self, e, j + 1));
                }
                j = j + 1;
            }
            proof {
                assert(entry_errors(*self, e) == entry_version_errors(e) + dep_errors_upto(
                    *self,
                    e,
                    e.record.requires@.len() as int,
                ));
                assert(name_seq(errors@) =~= structural_errors_upto(*self, i + 1));
            }
            i = i + 1;
        }
        proof {
            lemma_structural_errors_empty(*self, self.versions@.len() as int);
        }
        let cycle_found = self.detect_circular_dependencies();
        match cycle_found {
            Some(cycle) => {
                let ghost pre = errors@;
                let msg = circular_dependency_error(&cycle);
                errors.push(msg);
                proof {
                    lemma_name_seq_push(pre, msg);
                }
                let warnings: Vec<String> = Vec::new();
                proof {
                    let c = choose|p: Seq<Seq<char>>|
                        is_cycle(*self, p) && cycle@ == join_arrows_spec(p);
                    assert(name_seq(errors@) == structural_errors(*self).push(
                        circular_dependency_message(join_arrows_spec(c)),
                    ));
                }
                ValidationResult::Invalid { errors, warnings }
            },
            None => {
                if errors.len() == 0 {
                    proof {
                        assert(structural_errors(*self).len() == 0);
                    }
                    ValidationResult::Valid
                } else {
                    let warnings: Vec<String> = Vec::new();
                    proof {
                        assert(structural_errors(*self).len() > 0);
                        assert(!(versions_ok(*self) && deps_ok(*self)));
                    }
                    ValidationResult::Invalid { errors, warnings }
                }
            },
        }
    }
}

} // verus!
