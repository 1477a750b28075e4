//! The build-order computation: a depth-first topological sort that places
//! every dependency before its dependent and fails fast on a cycle.

use vstd::prelude::*;

use crate::graph::{
    cycle_through, has_cycle, is_build_order, is_cycle, lemma_build_order_acyclic,
    lemma_disjoint_concat_no_dup, lemma_distinct_keys_bound, lemma_name_prefix_contains,
    lemma_build_order_len, lemma_name_seq_push, lemma_stack_closes_cycle, lemma_walk_enter,
    lemma_walk_finish, walk_inv,
};
use crate::manifest::{contains_name, dep_name_of, name_seq, VersionsManifest};

verus! {

/// The failure of a build-order computation: a dependency cycle runs through
/// the named repository.
#[derive(Debug, Clone)]
pub struct CircularDependencyError {
    /// A repository on a dependency cycle.
    pub repo: String,
}

/// The text of a build-order failure.
pub open spec fn circular_message_spec(n: Seq<char>) -> Seq<char> {
    "Circular dependency detected involving "@ + n
}

impl CircularDependencyError {
    /// Render the error for diagnostics.
    pub fn message(&self) -> (r: String)
        ensures
            r@ == circular_message_spec(self.repo@),
    {
        let s = String::from_str("Circular dependency detected involving ");
        s.concat(self.repo.as_str())
    }
}

impl VersionsManifest {
    /// Compute a build order: every repository name exactly once, each one
    /// after all the repositories it requires, directly or transitively.
    /// Fails, with a repository on the cycle, exactly when the dependency
    /// graph is cyclic. A required name that is not a repository of the
    /// manifest forms no edge and is skipped.
    pub fn build_order(&self) -> (r: Result<Vec<String>, CircularDependencyError>)
        requires
            self.wf(),
        ensures
            match r {
                Ok(order) => {
                    &&& is_build_order(*self, name_seq(order@))
                    &&& order@.len() == self.versions@.len()
                },
                Err(e) => cycle_through(*self, e.repo@),
            },
            r is Ok <==> !has_cycle(*self),
    {
        let mut result: Vec<String> = Vec::new();
        let mut visiting: Vec<String> = Vec::new();
        let mut idx: usize = 0;
        while idx < self.versions.len()
            invariant
                self.wf(),
                idx <= self.versions@.len(),
                visiting@.len() == 0,
                walk_inv(*self, name_seq(visiting@), name_seq(result@)),
                forall|t: int|
                    0 <= t < idx ==> name_seq(result@).contains(
                        #[trigger] self.versions@[t].name@,
                    ),
            decreases self.versions@.len() - idx,
        {
            let name = &self.versions[idx].name;
            proof {
                assert(self.versions@[idx as int].name@ == name@);
            }
            if !contains_name(&result, name) {
                let ghost pre = result@;
                match self.dfs(name, &mut visiting, &mut result) {
                    Ok(()) => {
                        proof {
                            assert forall|t: int| 0 <= t < idx implies name_seq(
                                result@,
                            ).contains(#[trigger] self.versions@[t].name@) by {
                                lemma_name_prefix_contains(
                                    pre,
                                    result@,
                                    self.versions@[t].name@,
                                );
                            }
                        }
                    },
                    Err(e) => {
                        proof {
                            let p = choose|p: Seq<Seq<char>>|
                                is_cycle(*self, p) && p[0] == e.repo@;
                            assert(is_cycle(*self, p));
                        }
                        return Err(e);
                    },
                }
            }
            idx = idx + 1;
        }
        proof {
            let names = name_seq(result@);
            assert forall|n: Seq<char>| self.has_key(n) implies names.contains(n) by {
                let i = choose|i: int|
                    0 <= i < self.versions@.len() && self.versions@[i].name@ == n;
                assert(names.contains(self.versions@[i].name@));
            }
            assert forall|n: Seq<char>| names.contains(n) implies self.has_key(n) by {
                let i = choose|i: int| 0 <= i < names.len() && names[i] == n;
            }
            assert(is_build_order(*self, names));
            lemma_build_order_acyclic(*self, names);
            lemma_build_order_len(*self, names);
        }
        Ok(result)
    }

    /// One depth-first walk: explore `repo`'s dependencies, then append
    /// `repo` to `result`. `visiting` is the walk's stack; a name met again
    /// while still on it closes a cycle and aborts the computation.
    fn dfs(
        &self,
        repo: &String,
        visiting: &mut Vec<String>,
        result: &mut Vec<String>,
    ) -> (r: Result<(), CircularDependencyError>)
        requires
            self.wf(),
            self.has_key(repo@),
            walk_inv(*self, name_seq(old(visiting)@), name_seq(old(result)@)),
            name_seq(old(visiting)@).len() > 0 ==> self.edge(
                name_seq(old(visiting)@).last(),
                repo@,
            ),
        ensures
            match r {
                Ok(()) => {
                    &&& final(visiting)@ == old(visiting)@
                    &&& old(result)@.is_prefix_of(final(result)@)
                    &&& walk_inv(*self, name_seq(final(visiting)@), name_seq(final(result)@))
                    &&& name_seq(final(result)@).contains(repo@)
                },
                Err(e) => cycle_through(*self, e.repo@),
            },
        decreases self.versions@.len() - old(visiting)@.len() - old(result)@.len(),
    {
        let ghost g0 = name_seq(visiting@);
        let ghost b0 = name_seq(result@);
        if contains_name(visiting, repo) {
            proof {
                let t = choose|t: int| 0 <= t < g0.len() && g0[t] == repo@;
                lemma_stack_closes_cycle(*self, g0, repo@, t);
            }
            return Err(CircularDependencyError { repo: repo.clone() });
        }
        if contains_name(result, repo) {
            return Ok(());
        }
        visiting.push(repo.clone());
        proof {
            lemma_name_seq_push(old(visiting)@, *repo);
            lemma_walk_enter(*self, g0, b0, repo@);
        }
        let record = self.get_record(repo);
        let ghost deps = self.deps_of(repo@);
        let mut j: usize = 0;
        while j < record.requires.len()
            invariant
                self.wf(),
                self.has_key(repo@),
                *record == self.record_of(repo@),
                deps == self.deps_of(repo@),
                deps.len() == record.requires@.len(),
                j <= record.requires@.len(),
                visiting@ == old(visiting)@.push(*repo),
                name_seq(visiting@) == name_seq(old(visiting)@).push(repo@),
                old(result)@.is_prefix_of(result@),
                walk_inv(*self, name_seq(visiting@), name_seq(result@)),
                forall|t: int|
                    0 <= t < j && self.has_key(#[trigger] deps[t]) ==> name_seq(
                        result@,
                    ).contains(deps[t]),
            decreases record.requires@.len() - j,
        {
            let dep_full = &record.requires[j];
            let dep = dep_name_of(dep_full);
            proof {
                assert(deps[j as int] == dep@);
            }
            if self.contains_key(&dep) {
                proof {
                    assert(self.deps_of(repo@).contains(dep@)) by {
                        assert(self.deps_of(repo@)[j as int] == dep@);
                    }
                    assert(self.edge(repo@, dep@));
                    assert(name_seq(visiting@)[name_seq(visiting@).len() - 1] == repo@);
                    lemma_disjoint_concat_no_dup(name_seq(visiting@), name_seq(result@));
                    lemma_distinct_keys_bound(
                        *self,
                        name_seq(visiting@) + name_seq(result@),
                    );
                }
                let ghost pre = result@;
                match self.dfs(&dep, visiting, result) {
                    Ok(()) => {
                        proof {
                            assert forall|t: int|
                                0 <= t < j + 1 && self.has_key(
                                    #[trigger] deps[t],
                                ) implies name_seq(result@).contains(deps[t]) by {
                                if t < j {
                                    lemma_name_prefix_contains(pre, result@, deps[t]);
                                }
                            }
                            assert(old(result)@.is_prefix_of(result@)) by {
                                assert forall|i: int|
                                    0 <= i < old(result)@.len() implies old(result)@[i]
                                    == result@.subrange(0, old(result)@.len() as int)[i] by {
                                    assert(old(result)@[i] == pre[i]);
                                    assert(pre[i] == result@[i]);
                                }
                                assert(old(result)@ =~= result@.subrange(
                                    0,
                                    old(result)@.len() as int,
                                ));
                            }
                        }
                    },
                    Err(e) => {
                        return Err(e);
                    },
                }
            }
            j = j + 1;
        }
        let ghost b1 = name_seq(result@);
        let ghost r1 = result@;
        visiting.pop();
        result.push(repo.clone());
        proof {
            assert(visiting@ =~= old(visiting)@);
            lemma_name_seq_push(r1, *repo);
            assert(result@ == r1.push(*repo));
            let b2 = name_seq(result@);
            assert(b2 == b1.push(repo@));
            // every dependency edge out of `repo` leads into the black set
            assert forall|b: Seq<char>| #[trigger] self.edge(repo@, b) implies b1.contains(b) by {
                let t = choose|t: int| 0 <= t < deps.len() && deps[t] == b;
                assert(self.has_key(deps[t]));
            }
            lemma_walk_finish(*self, g0, b1, repo@);
            assert(b2[b2.len() - 1] == repo@);
            assert(old(result)@.is_prefix_of(result@)) by {
                assert(old(result)@ =~= result@.subrange(0, old(result)@.len() as int));
            }
        }
        Ok(())
    }
}

} // verus!
