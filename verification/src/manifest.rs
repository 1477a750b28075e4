//! The manifest data model: one version record per repository, keyed by
//! repository name, plus free-form metadata.

use vstd::prelude::*;

verus! {

/// Version information for one repository.
#[derive(Debug, Clone, PartialEq, Eq)]
pub struct RepoVersion {
    /// Semantic version, three dot-separated integers (e.g. "0.1.0").
    pub version: String,
    /// Source control tag for this version; opaque to the core.
    pub git_tag: String,
    /// Optional source control commit hash; opaque to the core.
    pub git_commit: Option<String>,
    /// Dependency specifiers, each "<name>" or "<name>=<version-constraint>";
    /// only the name portion forms a graph edge.
    pub requires: Vec<String>,
    /// Names of the binary artifacts this repository produces.
    pub binaries: Vec<String>,
}

/// One named entry of the manifest: a repository and its version record.
#[derive(Debug, Clone, PartialEq, Eq)]
pub struct ManifestEntry {
    /// The repository name, the unique key of this entry.
    pub name: String,
    /// The repository's version record.
    pub record: RepoVersion,
}

/// The manifest: every repository's version record, in insertion order,
/// plus optional free-form metadata that the core does not interpret.
#[derive(Debug, Clone)]
pub struct VersionsManifest {
    /// The repository entries, with pairwise distinct, non-empty names.
    pub versions: Vec<ManifestEntry>,
    /// Optional metadata key/value pairs, carried through untouched.
    pub metadata: Option<Vec<(String, String)>>,
}

/// The views of a sequence of owned strings.
pub open spec fn name_seq(v: Seq<String>) -> Seq<Seq<char>> {
    v.map_values(|s: String| s@)
}

/// Whether one of the strings in `v` equals `x`.
pub(crate) fn contains_name(v: &Vec<String>, x: &String) -> (r: bool)
    ensures
        r == name_seq(v@).contains(x@),
{
    let mut i: usize = 0;
    while i < v.len()
        invariant
            0 <= i <= v@.len(),
            forall|k: int| 0 <= k < i ==> name_seq(v@)[k] != x@,
        decreases v@.len() - i,
    {
        if v[i] == *x {
            assert(name_seq(v@)[i as int] == x@);
            return true;
        }
        assert(name_seq(v@)[i as int] == v@[i as int]@);
        i = i + 1;
    }
    false
}

/// The name portion of a dependency specifier: everything before the first
/// `'='`, or the whole specifier when it has none.
pub open spec fn dep_name_spec(s: Seq<char>) -> Seq<char> {
    s.subrange(0, first_eq_from(s, 0))
}

/// The position of the first `'='` in `s` at or after `i`, or `s.len()`
/// when there is none.
pub open spec fn first_eq_from(s: Seq<char>, i: int) -> int
    decreases s.len() - i,
{
    if i < 0 || i >= s.len() {
        s.len() as int
    } else if s[i] == '=' {
        i
    } else {
        first_eq_from(s, i + 1)
    }
}

impl VersionsManifest {
    /// The repository names, in manifest order.
    pub open spec fn names(self) -> Seq<Seq<char>> {
        self.versions@.map_values(|e: ManifestEntry| e.name@)
    }

    /// Well-formedness: repository names are non-empty and pairwise distinct.
    pub open spec fn wf(self) -> bool {
        &&& forall|i: int, j: int|
            0 <= i < j < self.versions@.len() ==> self.versions@[i].name@ != self.versions@[j].name@
        &&& forall|i: int| 0 <= i < self.versions@.len() ==> #[trigger] self.versions@[i].name@.len() > 0
    }

    /// Whether some entry is named `n`.
    pub open spec fn has_key(self, n: Seq<char>) -> bool {
        exists|i: int| 0 <= i < self.versions@.len() && #[trigger] self.versions@[i].name@ == n
    }

    /// The index of the entry named `n` (meaningful only when `has_key(n)`).
    pub open spec fn index_of_key(self, n: Seq<char>) -> int {
        choose|i: int| 0 <= i < self.versions@.len() && #[trigger] self.versions@[i].name@ == n
    }

    /// The version record of the entry named `n` (meaningful only when
    /// `has_key(n)`).
    pub open spec fn record_of(self, n: Seq<char>) -> RepoVersion {
        self.versions@[self.index_of_key(n)].record
    }

    /// The dependency names of the entry named `n`: the name portion of each
    /// of its dependency specifiers, in order.
    pub open spec fn deps_of(self, n: Seq<char>) -> Seq<Seq<char>> {
        self.record_of(n).requires@.map_values(|s: String| dep_name_spec(s@))
    }

    /// The dependency graph: an edge from `a` to `b` when both are
    /// repository names and `a`'s record requires `b`.
    pub open spec fn edge(self, a: Seq<char>, b: Seq<char>) -> bool {
        self.has_key(a) && self.has_key(b) && self.deps_of(a).contains(b)
    }

    /// Whether the manifest has an entry named `name`.
    pub fn contains_key(&self, name: &String) -> (r: bool)
        ensures
            r == self.has_key(name@),
    {
        let mut i: usize = 0;
        while i < self.versions.len()
            invariant
                0 <= i <= self.versions@.len(),
                forall|k: int| 0 <= k < i ==> self.versions@[k].name@ != name@,
            decreases self.versions@.len() - i,
        {
            if self.versions[i].name == *name {
                return true;
            }
            i = i + 1;
        }
        false
    }

    /// The version record of the entry named `name`.
    pub fn get_record(&self, name: &String) -> (r: &RepoVersion)
        requires
            self.wf(),
            self.has_key(name@),
        ensures
            *r == self.record_of(name@),
    {
        let mut i: usize = 0;
        while i < self.versions.len()
            invariant
                self.wf(),
                self.has_key(name@),
                0 <= i <= self.versions@.len(),
                forall|k: int| 0 <= k < i ==> self.versions@[k].name@ != name@,
            decreases self.versions@.len() - i,
        {
            if self.versions[i].name == *name {
                proof {
                    let j = self.index_of_key(name@);
                    assert(self.versions@[j].name@ == name@);
                    assert(j == i);
                }
                return &self.versions[i].record;
            }
            i = i + 1;
        }
        proof {
            let j = self.index_of_key(name@);
            assert(self.versions@[j].name@ == name@);
        }
        vstd::pervasive::unreached()
    }
}

/// The name portion of a dependency specifier, as an owned string.
pub fn dep_name_of(spec_str: &String) -> (r: String)
    ensures
        r@ == dep_name_spec(spec_str@),
{
    let s = spec_str.as_str();
    let n = s.unicode_len();
    let mut i: usize = 0;
    while i < n
        invariant
            0 <= i <= n,
            n == s@.len(),
            s@ == spec_str@,
            forall|k: int| 0 <= k < i ==> s@[k] != '=',
            first_eq_from(s@, 0) == first_eq_from(s@, i as int),
        decreases n - i,
    {
        if s.get_char(i) == '=' {
            assert(first_eq_from(s@, i as int) == i);
            let r = s.substring_char(0, i);
            return r.to_owned();
        }
        assert(first_eq_from(s@, i as int) == first_eq_from(s@, i + 1));
        i = i + 1;
    }
    assert(first_eq_from(s@, i as int) == s@.len());
    assert(dep_name_spec(s@) =~= s@);
    s.to_owned()
}

} // verus!
