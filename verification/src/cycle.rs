//! The cycle detector: a depth-first search that reports one dependency
//! cycle, rendered as an arrow-joined path that starts and ends at the
//! repeated repository.

use vstd::prelude::*;

use crate::graph::{
    cycle_through, has_cycle, is_chain, is_cycle, lemma_chain_push, lemma_disjoint_concat_no_dup,
    lemma_distinct_keys_bound, lemma_name_prefix_contains, lemma_name_seq_push,
    lemma_stack_closes_cycle, lemma_walk_enter, lemma_walk_finish, walk_inv,
};
use crate::manifest::{contains_name, dep_name_of, name_seq, VersionsManifest};

verus! {

/// The display form of a path: its names joined by `" -> "`.
pub open spec fn join_arrows_spec(p: Seq<Seq<char>>) -> Seq<char>
    decreases p.len(),
{
    if p.len() == 0 {
        Seq::empty()
    } else if p.len() == 1 {
        p[0]
    } else {
        join_arrows_spec(p.drop_last()) + " -> "@ + p[p.len() - 1]
    }
}

/// Join the names with `" -> "` for display.
fn join_arrows(parts: &Vec<String>) -> (r: String)
    ensures
        r@ == join_arrows_spec(name_seq(parts@)),
{
    let ghost pn = name_seq(parts@);
    let mut r = String::new();
    let mut i: usize = 0;
    while i < parts.len()
        invariant
            0 <= i <= parts@.len(),
            pn == name_seq(parts@),
            r@ == join_arrows_spec(pn.subrange(0, i as int)),
        decreases parts@.len() - i,
    {
        if i > 0 {
            r.append(" -> ");
        }
        r.append(parts[i].as_str());
        proof {
            let pre = pn.subrange(0, i as int);
            let cur = pn.subrange(0, i + 1);
            assert(cur.drop_last() =~= pre);
            assert(cur[cur.len() - 1] == pn[i as int]);
            assert(pn[i as int] == parts@[i as int]@);
            if i == 0 {
                assert(cur.len() == 1);
                assert(Seq::empty() + pn[0] =~= pn[0]);
            }
        }
        i = i + 1;
    }
    proof {
        assert(pn.subrange(0, pn.len() as int) =~= pn);
    }
    r
}

impl VersionsManifest {
    /// Look for a dependency cycle. Returns the names along one cycle,
    /// joined by `" -> "` and starting and ending at the repeated
    /// repository, exactly when the dependency graph has a cycle; `None`
    /// exactly when it is acyclic.
    pub fn detect_circular_dependencies(&self) -> (r: Option<String>)
        requires
            self.wf(),
        ensures
            r is Some <==> has_cycle(*self),
            match r {
                Some(s) => exists|p: Seq<Seq<char>>|
                    is_cycle(*self, p) && s@ == join_arrows_spec(p),
                None => true,
            },
    {
        let mut visited: Vec<String> = Vec::new();
        let mut path: Vec<String> = Vec::new();
        let mut idx: usize = 0;
        while idx < self.versions.len()
            invariant
                self.wf(),
                idx <= self.versions@.len(),
                path@.len() == 0,
                walk_inv(*self, name_seq(path@), name_seq(visited@)),
                forall|t: int|
                    0 <= t < idx ==> name_seq(visited@).contains(
                        #[trigger] self.versions@[t].name@,
                    ),
            decreases self.versions@.len() - idx,
        {
            let name = &self.versions[idx].name;
            proof {
                assert(self.versions@[idx as int].name@ == name@);
            }
            let ghost pre = visited@;
            if self.has_circular_dependency(name, &mut visited, &mut path) {
                let cyc = extract_cycle(self, &path);
                let joined = join_arrows(&cyc);
                proof {
                    assert(is_cycle(*self, name_seq(cyc@)) && joined@ == join_arrows_spec(
                        name_seq(cyc@),
                    ));
                }
                return Some(joined);
            }
            proof {
                assert forall|t: int| 0 <= t < idx implies name_seq(visited@).contains(
                    #[trigger] self.versions@[t].name@,
                ) by {
                    lemma_name_prefix_contains(pre, visited@, self.versions@[t].name@);
                }
            }
            idx = idx + 1;
        }
        proof {
            if has_cycle(*self) {
                let p = choose|p: Seq<Seq<char>>| is_cycle(*self, p);
                assert(self.edge(p[0], p[1]));
                let i = choose|i: int|
                    0 <= i < self.versions@.len() && self.versions@[i].name@ == p[0];
                assert(name_seq(visited@).contains(self.versions@[i].name@));
                let w = choose|w: int|
                    0 <= w < name_seq(visited@).len() && name_seq(visited@)[w] == p[0];
                assert(!cycle_through(*self, name_seq(visited@)[w]));
                assert(is_cycle(*self, p) && p[0] == p[0]);
                assert(false);
            }
        }
        None
    }

    /// One depth-first walk looking for a cycle. `path` is the walk's
    /// stack; meeting a name that is already on it closes a cycle, which is
    /// left in `path` with the repeated name appended. `visited` keeps the
    /// repositories explored without finding a cycle, so no walk repeats
    /// them.
    fn has_circular_dependency(
        &self,
        repo: &String,
        visited: &mut Vec<String>,
        path: &mut Vec<String>,
    ) -> (found: bool)
        requires
            self.wf(),
            self.has_key(repo@),
            walk_inv(*self, name_seq(old(path)@), name_seq(old(visited)@)),
            name_seq(old(path)@).len() > 0 ==> self.edge(
                name_seq(old(path)@).last(),
                repo@,
            ),
        ensures
            found ==> ({
                let pn = name_seq(final(path)@);
                &&& pn.len() >= 2
                &&& is_chain(*self, pn)
                &&& exists|t: int| 0 <= t < pn.len() - 1 && #[trigger] pn[t] == pn[pn.len() - 1]
                &&& cycle_through(*self, pn[pn.len() - 1])
            }),
            !found ==> ({
                &&& final(path)@ == old(path)@
                &&& old(visited)@.is_prefix_of(final(visited)@)
                &&& walk_inv(*self, name_seq(final(path)@), name_seq(final(visited)@))
                &&& name_seq(final(visited)@).contains(repo@)
            }),
        decreases self.versions@.len() - old(path)@.len() - old(visited)@.len(),
    {
        let ghost g0 = name_seq(path@);
        let ghost b0 = name_seq(visited@);
        if contains_name(path, repo) {
            path.push(repo.clone());
            proof {
                lemma_name_seq_push(old(path)@, *repo);
                let t = choose|t: int| 0 <= t < g0.len() && g0[t] == repo@;
                lemma_stack_closes_cycle(*self, g0, repo@, t);
                lemma_chain_push(*self, g0, repo@);
                let pn = name_seq(path@);
                assert(pn == g0.push(repo@));
                assert(pn[t] == g0[t]);
                assert(pn[pn.len() - 1] == repo@);
            }
            return true;
        }
        if contains_name(visited, repo) {
            return false;
        }
        path.push(repo.clone());
        proof {
            lemma_name_seq_push(old(path)@, *repo);
            lemma_walk_enter(*self, g0, b0, repo@);
        }
        let record = self.get_record(repo);
        let ghost deps = self.deps_of(repo@);
        let mut j: usize = 0;
        while j < record.requires.len()
            invariant
                self.wf(),
                self.has_key(repo@),
                *record == self.record_of(repo@),
                deps == self.deps_of(repo@),
                deps.len() == record.requires@.len(),
                j <= record.requires@.len(),
                path@ == old(path)@.push(*repo),
                name_seq(path@) == name_seq(old(path)@).push(repo@),
                old(visited)@.is_prefix_of(visited@),
                walk_inv(*self, name_seq(path@), name_seq(visited@)),
                forall|t: int|
                    0 <= t < j && self.has_key(#[trigger] deps[t]) ==> name_seq(
                        visited@,
                    ).contains(deps[t]),
            decreases record.requires@.len() - j,
        {
            let dep_full = &record.requires[j];
            let dep = dep_name_of(dep_full);
            proof {
                assert(deps[j as int] == dep@);
            }
            if self.contains_key(&dep) {
                proof {
                    assert(self.deps_of(repo@).contains(dep@)) by {
                        assert(self.deps_of(repo@)[j as int] == dep@);
                    }
                    assert(self.edge(repo@, dep@));
                    assert(name_seq(path@)[name_seq(path@).len() - 1] == repo@);
                    lemma_disjoint_concat_no_dup(name_seq(path@), name_seq(visited@));
                    lemma_distinct_keys_bound(*self, name_seq(path@) + name_seq(visited@));
                }
                let ghost pre = visited@;
                if self.has_circular_dependency(&dep, visited, path) {
                    return true;
                }
                proof {
                    assert forall|t: int|
                        0 <= t < j + 1 && self.has_key(#[trigger] deps[t]) implies name_seq(
                        visited@,
                    ).contains(deps[t]) by {
                        if t < j {
                            lemma_name_prefix_contains(pre, visited@, deps[t]);
                        }
                    }
                    assert(old(visited)@.is_prefix_of(visited@)) by {
                        assert forall|i: int|
                            0 <= i < old(visited)@.len() implies old(visited)@[i]
                            == visited@.subrange(0, old(visited)@.len() as int)[i] by {
                            assert(old(visited)@[i] == pre[i]);
                            assert(pre[i] == visited@[i]);
                        }
                        assert(old(visited)@ =~= visited@.subrange(
                            0,
                            old(visited)@.len() as int,
                        ));
                    }
                }
            }
            j = j + 1;
        }
        let ghost b1 = name_seq(visited@);
        let ghost v1 = visited@;
        path.pop();
        visited.push(repo.clone());
        proof {
            assert(path@ =~= old(path)@);
            lemma_name_seq_push(v1, *repo);
            assert(visited@ == v1.push(*repo));
            let b2 = name_seq(visited@);
            assert(b2 == b1.push(repo@));
            assert forall|b: Seq<char>| #[trigger] self.edge(repo@, b) implies b1.contains(b) by {
                let t = choose|t: int| 0 <= t < deps.len() && deps[t] == b;
                assert(self.has_key(deps[t]));
            }
            lemma_walk_finish(*self, g0, b1, repo@);
            assert(b2[b2.len() - 1] == repo@);
            assert(old(visited)@.is_prefix_of(visited@)) by {
                assert(old(visited)@ =~= visited@.subrange(0, old(visited)@.len() as int));
            }
        }
        false
    }
}

/// Copy the closed cycle out of a walk's stack: the segment from the first
/// occurrence of the stack's last name through the end.
fn extract_cycle(m: &VersionsManifest, path: &Vec<String>) -> (cyc: Vec<String>)
    requires
        ({
            let pn = name_seq(path@);
            &&& pn.len() >= 2
            &&& is_chain(*m, pn)
            &&& exists|t: int| 0 <= t < pn.len() - 1 && #[trigger] pn[t] == pn[pn.len() - 1]
        }),
    ensures
        is_cycle(*m, name_seq(cyc@)),
{
    let ghost pn = name_seq(path@);
    let n = path.len();
    let ghost w = choose|t: int| 0 <= t < pn.len() - 1 && #[trigger] pn[t] == pn[pn.len() - 1];
    let mut t: usize = 0;
    while !(path[t] == path[n - 1])
        invariant
            0 <= t <= w < pn.len() - 1,
            n == pn.len(),
            pn == name_seq(path@),
            pn[w] == pn[pn.len() - 1],
            forall|k: int| 0 <= k < t ==> #[trigger] pn[k] != pn[pn.len() - 1],
        decreases w - t,
    {
        proof {
            assert(pn[t as int] == path@[t as int]@);
            assert(pn[n - 1] == path@[n - 1]@);
        }
        t = t + 1;
    }
    proof {
        assert(pn[t as int] == pn[n - 1]);
    }
    let start = t;
    let mut cyc: Vec<String> = Vec::new();
    let mut k: usize = start;
    while k < n
        invariant
            start <= k <= n,
            n == pn.len(),
            pn == name_seq(path@),
            0 <= start < n - 1,
            pn[start as int] == pn[n - 1],
            is_chain(*m, pn),
            name_seq(cyc@) =~= pn.subrange(start as int, k as int),
        decreases n - k,
    {
        let ghost c0 = cyc@;
        cyc.push(path[k].clone());
        proof {
            lemma_name_seq_push(c0, path@[k as int]);
        }
        k = k + 1;
    }
    proof {
        let c = name_seq(cyc@);
        assert(c =~= pn.subrange(start as int, n as int));
        assert(c[0] == pn[start as int]);
        assert(c[c.len() - 1] == pn[n - 1]);
        assert forall|u: int| 0 <= u < c.len() - 1 implies m.edge(#[trigger] c[u], c[u + 1]) by {
            assert(c[u] == pn[start + u]);
            assert(c[u + 1] == pn[start + u + 1]);
        }
    }
    cyc
}

} // verus!
