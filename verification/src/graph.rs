//! Paths, cycles and topological orders over the dependency graph, and the
//! facts relating them that the traversals rely on.

use vstd::prelude::*;

use crate::manifest::name_seq;
use crate::manifest::VersionsManifest;

verus! {

/// A walk along dependency edges: consecutive elements are connected.
pub open spec fn is_chain(m: VersionsManifest, p: Seq<Seq<char>>) -> bool {
    forall|k: int| 0 <= k < p.len() - 1 ==> m.edge(#[trigger] p[k], p[k + 1])
}

/// A cycle: a walk of at least one edge that returns to its first element.
pub open spec fn is_cycle(m: VersionsManifest, p: Seq<Seq<char>>) -> bool {
    &&& p.len() >= 2
    &&& p[0] == p[p.len() - 1]
    &&& is_chain(m, p)
}

/// Whether the dependency graph contains any cycle.
pub open spec fn has_cycle(m: VersionsManifest) -> bool {
    exists|p: Seq<Seq<char>>| is_cycle(m, p)
}

/// Whether some cycle starts (and ends) at `n`.
pub open spec fn cycle_through(m: VersionsManifest, n: Seq<char>) -> bool {
    exists|p: Seq<Seq<char>>| is_cycle(m, p) && p[0] == n
}

/// Whether `b` can be reached from `a` along one or more dependency edges.
pub open spec fn reaches(m: VersionsManifest, a: Seq<char>, b: Seq<char>) -> bool {
    exists|p: Seq<Seq<char>>|
        is_chain(m, p) && p.len() >= 2 && p[0] == a && p[p.len() - 1] == b
}

/// Whether `names` lists every dependency before its dependent: for every
/// edge between listed names, the target stands at an earlier position.
pub open spec fn respects_edges(m: VersionsManifest, names: Seq<Seq<char>>) -> bool {
    forall|i: int, j: int|
        0 <= i < names.len() && 0 <= j < names.len() && m.edge(
            #[trigger] names[i],
            #[trigger] names[j],
        ) ==> j < i
}

/// A build order: every repository name exactly once, dependencies first.
pub open spec fn is_build_order(m: VersionsManifest, names: Seq<Seq<char>>) -> bool {
    &&& names.no_duplicates()
    &&& forall|n: Seq<char>| m.has_key(n) <==> names.contains(n)
    &&& respects_edges(m, names)
}

/// The position of `n` in `names` (meaningful only when `names` contains
/// `n`; unambiguous when `names` has no duplicates).
pub open spec fn position_of(names: Seq<Seq<char>>, n: Seq<char>) -> int {
    choose|i: int| 0 <= i < names.len() && names[i] == n
}

/// The state shared by the depth-first traversals: `gray` names the walk's
/// current stack, `black` the repositories already fully explored. Black
/// repositories have all their dependencies black, lie on no cycle, and
/// stand after their dependencies; the gray stack follows edges.
pub(crate) open spec fn walk_inv(m: VersionsManifest, gray: Seq<Seq<char>>, black: Seq<Seq<char>>) -> bool {
    &&& gray.no_duplicates()
    &&& black.no_duplicates()
    &&& forall|t: int| 0 <= t < gray.len() ==> m.has_key(#[trigger] gray[t])
    &&& forall|t: int| 0 <= t < black.len() ==> m.has_key(#[trigger] black[t])
    &&& forall|t: int| 0 <= t < black.len() ==> !gray.contains(#[trigger] black[t])
    &&& is_chain(m, gray)
    &&& forall|t: int, b: Seq<char>|
        0 <= t < black.len() && #[trigger] m.edge(black[t], b) ==> black.contains(b)
    &&& forall|t: int| 0 <= t < black.len() ==> !cycle_through(m, #[trigger] black[t])
    &&& respects_edges(m, black)
}

/// Concatenating duplicate-free sequences with no common element yields a
/// duplicate-free sequence.
pub(crate) proof fn lemma_disjoint_concat_no_dup(g: Seq<Seq<char>>, b: Seq<Seq<char>>)
    requires
        g.no_duplicates(),
        b.no_duplicates(),
        forall|t: int| 0 <= t < b.len() ==> !g.contains(#[trigger] b[t]),
    ensures
        (g + b).no_duplicates(),
{
    let c = g + b;
    assert forall|i: int, j: int| 0 <= i < j < c.len() implies c[i] != c[j] by {
        if i < g.len() && j >= g.len() {
            assert(c[i] == g[i]);
            assert(c[j] == b[j - g.len()]);
            if c[i] == c[j] {
                assert(g.contains(b[j - g.len()]));
            }
        } else if i >= g.len() {
            assert(c[i] == b[i - g.len()]);
            assert(c[j] == b[j - g.len()]);
        }
    }
}

/// Mapping to views commutes with appending one string.
pub(crate) proof fn lemma_name_seq_push(v: Seq<String>, x: String)
    ensures
        name_seq(v.push(x)) == name_seq(v).push(x@),
{
    assert(name_seq(v.push(x)) =~= name_seq(v).push(x@));
}

/// A name contained in a prefix's views is contained in the full
/// sequence's views.
pub(crate) proof fn lemma_name_prefix_contains(a: Seq<String>, c: Seq<String>, x: Seq<char>)
    requires
        a.is_prefix_of(c),
        name_seq(a).contains(x),
    ensures
        name_seq(c).contains(x),
{
    let i = choose|i: int| 0 <= i < name_seq(a).len() && name_seq(a)[i] == x;
    assert(c[i] == a[i]);
    assert(name_seq(c)[i] == x);
}

/// A walk's stack closes a cycle: when the stack is an edge chain whose last
/// element has an edge to `n`, and `n` already stands on the stack, the
/// stack's tail from `n` onward loops back to `n`.
pub(crate) proof fn lemma_stack_closes_cycle(
    m: VersionsManifest,
    gray: Seq<Seq<char>>,
    n: Seq<char>,
    t: int,
)
    requires
        is_chain(m, gray),
        0 <= t < gray.len(),
        gray[t] == n,
        m.edge(gray[gray.len() - 1], n),
    ensures
        cycle_through(m, n),
{
    let q = gray.subrange(t, gray.len() as int).push(n);
    assert(q[0] == n);
    assert(q[q.len() - 1] == n);
    assert forall|k: int| 0 <= k < q.len() - 1 implies m.edge(#[trigger] q[k], q[k + 1]) by {
        assert(q[k] == gray[t + k]);
        if k < q.len() - 2 {
            assert(q[k + 1] == gray[t + k + 1]);
        } else {
            assert(q[k] == gray[gray.len() - 1]);
        }
    }
    assert(is_cycle(m, q) && q[0] == n);
}

/// A chain stays a chain when a name reached from its last element is
/// appended.
pub(crate) proof fn lemma_chain_push(m: VersionsManifest, gray: Seq<Seq<char>>, n: Seq<char>)
    requires
        is_chain(m, gray),
        gray.len() > 0 ==> m.edge(gray[gray.len() - 1], n),
    ensures
        is_chain(m, gray.push(n)),
{
    let g1 = gray.push(n);
    assert forall|k: int| 0 <= k < g1.len() - 1 implies m.edge(#[trigger] g1[k], g1[k + 1]) by {
        if k < gray.len() - 1 {
            assert(g1[k] == gray[k]);
            assert(g1[k + 1] == gray[k + 1]);
        } else {
            assert(g1[k] == gray[gray.len() - 1]);
            assert(g1[k + 1] == n);
        }
    }
}

/// Entering a repository: pushing a fresh name reached by an edge onto the
/// walk's stack preserves the traversal invariant.
pub(crate) proof fn lemma_walk_enter(
    m: VersionsManifest,
    gray: Seq<Seq<char>>,
    black: Seq<Seq<char>>,
    n: Seq<char>,
)
    requires
        walk_inv(m, gray, black),
        m.has_key(n),
        !gray.contains(n),
        !black.contains(n),
        gray.len() > 0 ==> m.edge(gray[gray.len() - 1], n),
    ensures
        walk_inv(m, gray.push(n), black),
{
    let g1 = gray.push(n);
    assert forall|i: int, j: int| 0 <= i < j < g1.len() implies g1[i] != g1[j] by {
        if j == g1.len() - 1 {
            assert(g1[i] == gray[i]);
            if g1[i] == n {
                assert(gray.contains(n));
            }
        }
    }
    assert forall|t: int| 0 <= t < black.len() implies !g1.contains(#[trigger] black[t]) by {
        if g1.contains(black[t]) {
            let w = choose|w: int| 0 <= w < g1.len() && g1[w] == black[t];
            if w < gray.len() {
                assert(gray.contains(black[t]));
            }
        }
    }
    assert forall|k: int| 0 <= k < g1.len() - 1 implies m.edge(#[trigger] g1[k], g1[k + 1]) by {
        if k < gray.len() - 1 {
            assert(g1[k] == gray[k]);
            assert(g1[k + 1] == gray[k + 1]);
        } else {
            assert(g1[k] == gray[gray.len() - 1]);
            assert(g1[k + 1] == n);
        }
    }
    assert forall|t: int| 0 <= t < g1.len() implies m.has_key(#[trigger] g1[t]) by {
        if t < gray.len() {
            assert(g1[t] == gray[t]);
        } else {
            assert(g1[t] == n);
        }
    }
}

/// Finishing a repository: once every dependency edge out of the stack's
/// top leads into the black set, the top can leave the stack and turn black.
pub(crate) proof fn lemma_walk_finish(
    m: VersionsManifest,
    gray: Seq<Seq<char>>,
    black: Seq<Seq<char>>,
    n: Seq<char>,
)
    requires
        walk_inv(m, gray.push(n), black),
        m.has_key(n),
        forall|b: Seq<char>| #[trigger] m.edge(n, b) ==> black.contains(b),
    ensures
        walk_inv(m, gray, black.push(n)),
        !black.contains(n),
        !cycle_through(m, n),
{
    let g1 = gray.push(n);
    let b2 = black.push(n);
    assert(g1[g1.len() - 1] == n);
    assert(!black.contains(n)) by {
        if black.contains(n) {
            let w = choose|w: int| 0 <= w < black.len() && black[w] == n;
            assert(!g1.contains(black[w]));
            assert(false);
        }
    }
    assert(!gray.contains(n)) by {
        if gray.contains(n) {
            let w = choose|w: int| 0 <= w < gray.len() && gray[w] == n;
            assert(g1[w] == n);
            assert(false);
        }
    }
    // `n` lies on no cycle: a cycle's second element would be a black
    // dependency of `n`, and every black repository is cycle-free
    assert(!cycle_through(m, n)) by {
        if cycle_through(m, n) {
            let p = choose|p: Seq<Seq<char>>| is_cycle(m, p) && p[0] == n;
            assert(m.edge(p[0], p[1]));
            assert(black.contains(p[1]));
            let w = choose|w: int| 0 <= w < black.len() && black[w] == p[1];
            if p[1] == n {
                assert(false);
            } else if p.len() == 2 {
                assert(p[1] == p[p.len() - 1]);
                assert(false);
            } else {
                lemma_cycle_rotate(m, p, 1);
                assert(!cycle_through(m, black[w]));
                assert(false);
            }
        }
    }
    assert forall|i: int, t: int| 0 <= i < t < b2.len() implies b2[i] != b2[t] by {
        if t == b2.len() - 1 {
            assert(b2[i] == black[i]);
            if b2[i] == n {
                assert(black.contains(n));
            }
        } else {
            assert(b2[i] == black[i]);
            assert(b2[t] == black[t]);
        }
    }
    assert forall|t: int| 0 <= t < b2.len() implies !gray.contains(#[trigger] b2[t]) by {
        if t < black.len() {
            assert(b2[t] == black[t]);
            if gray.contains(black[t]) {
                let w = choose|w: int| 0 <= w < gray.len() && gray[w] == black[t];
                assert(g1[w] == black[t]);
                assert(g1.contains(black[t]));
                assert(false);
            }
        } else {
            assert(b2[t] == n);
        }
    }
    assert forall|t: int| 0 <= t < b2.len() implies m.has_key(#[trigger] b2[t]) by {
        if t < black.len() {
            assert(b2[t] == black[t]);
        } else {
            assert(b2[t] == n);
        }
    }
    assert forall|t: int| 0 <= t < b2.len() implies !cycle_through(m, #[trigger] b2[t]) by {
        if t < black.len() {
            assert(b2[t] == black[t]);
        } else {
            assert(b2[t] == n);
        }
    }
    assert forall|k: int| 0 <= k < gray.len() - 1 implies m.edge(#[trigger] gray[k], gray[k + 1]) by {
        assert(g1[k] == gray[k]);
        assert(g1[k + 1] == gray[k + 1]);
        assert(m.edge(g1[k], g1[k + 1]));
    }
    assert forall|i: int, j: int| 0 <= i < j < gray.len() implies gray[i] != gray[j] by {
        assert(g1[i] == gray[i]);
        assert(g1[j] == gray[j]);
    }
    assert forall|t: int| 0 <= t < gray.len() implies m.has_key(#[trigger] gray[t]) by {
        assert(g1[t] == gray[t]);
    }
    assert forall|t: int, b: Seq<char>|
        0 <= t < b2.len() && #[trigger] m.edge(b2[t], b) implies b2.contains(b) by {
        if t < black.len() {
            assert(b2[t] == black[t]);
            assert(m.edge(black[t], b));
        } else {
            assert(b2[t] == n);
            assert(m.edge(n, b));
        }
        assert(black.contains(b));
        let w = choose|w: int| 0 <= w < black.len() && black[w] == b;
        assert(b2[w] == b);
    }
    assert forall|i: int, t: int|
        0 <= i < b2.len() && 0 <= t < b2.len() && m.edge(
            #[trigger] b2[i],
            #[trigger] b2[t],
        ) implies t < i by {
        if i < black.len() && t < black.len() {
            assert(b2[i] == black[i]);
            assert(b2[t] == black[t]);
        } else if i < black.len() && t == black.len() {
            assert(b2[i] == black[i]);
            assert(m.edge(black[i], n));
            assert(black.contains(n));
            assert(false);
        } else if i == black.len() && t == black.len() {
            assert(m.edge(n, n));
            assert(black.contains(n));
            assert(false);
        }
    }
}

/// Every element of a cycle starts a cycle of its own: the cycle can be
/// rotated to begin there.
pub proof fn lemma_cycle_rotate(m: VersionsManifest, p: Seq<Seq<char>>, k: int)
    requires
        is_cycle(m, p),
        0 <= k < p.len() - 1,
    ensures
        cycle_through(m, p[k]),
{
    let q = p.subrange(k, p.len() as int) + p.subrange(1, k + 1);
    assert(q.len() == p.len());
    assert(q[0] == p[k]);
    assert(q[q.len() - 1] == p[k]);
    assert forall|t: int| 0 <= t < q.len() - 1 implies m.edge(#[trigger] q[t], q[t + 1]) by {
        if t + 1 < p.len() - k {
            assert(q[t] == p[k + t]);
            assert(q[t + 1] == p[k + t + 1]);
        } else if t + 1 == p.len() - k {
            assert(q[t] == p[p.len() - 1]);
            assert(q[t + 1] == p[1]);
            assert(m.edge(p[0], p[1]));
        } else {
            assert(q[t] == p[t - (p.len() - k) + 1]);
            assert(q[t + 1] == p[t - (p.len() - k) + 2]);
        }
    }
    assert(is_cycle(m, q) && q[0] == p[k]);
}

/// Along a chain, positions in an edge-respecting order strictly decrease:
/// the last element stands at least the chain's length of steps earlier
/// than the first.
proof fn lemma_chain_positions(m: VersionsManifest, names: Seq<Seq<char>>, p: Seq<Seq<char>>)
    requires
        names.no_duplicates(),
        forall|n: Seq<char>| m.has_key(n) <==> names.contains(n),
        respects_edges(m, names),
        is_chain(m, p),
        p.len() >= 1,
        names.contains(p[0]),
    ensures
        names.contains(p[p.len() - 1]),
        position_of(names, p[p.len() - 1]) + p.len() - 1 <= position_of(names, p[0]),
        0 <= position_of(names, p[0]) < names.len(),
        names[position_of(names, p[0])] == p[0],
    decreases p.len(),
{
    let i0 = position_of(names, p[0]);
    assert(0 <= i0 < names.len() && names[i0] == p[0]) by {
        let w = choose|i: int| 0 <= i < names.len() && names[i] == p[0];
        assert(names[w] == p[0]);
    }
    if p.len() >= 2 {
        assert(m.edge(p[0], p[1]));
        assert(names.contains(p[1]));
        let rest = p.drop_first();
        assert(rest[0] == p[1]);
        assert forall|k: int| 0 <= k < rest.len() - 1 implies m.edge(
            #[trigger] rest[k],
            rest[k + 1],
        ) by {
            assert(rest[k] == p[k + 1]);
            assert(rest[k + 1] == p[k + 2]);
        }
        lemma_chain_positions(m, names, rest);
        let i1 = position_of(names, p[1]);
        assert(0 <= i1 < names.len() && names[i1] == p[1]);
        assert(i1 < i0);
        assert(rest[rest.len() - 1] == p[p.len() - 1]);
    }
}

/// An order that lists every repository once and respects every edge rules
/// out cycles entirely.
pub proof fn lemma_build_order_acyclic(m: VersionsManifest, names: Seq<Seq<char>>)
    requires
        is_build_order(m, names),
    ensures
        !has_cycle(m),
{
    if has_cycle(m) {
        let p = choose|p: Seq<Seq<char>>| is_cycle(m, p);
        assert(m.edge(p[0], p[1]));
        assert(names.contains(p[0]));
        lemma_chain_positions(m, names, p);
        assert(position_of(names, p[p.len() - 1]) == position_of(names, p[0]));
        assert(false);
    }
}

/// In any two build orders of the same manifest, a repository stands after
/// everything it depends on, directly or transitively: the relative order
/// of dependent and dependency never varies between runs.
pub proof fn lemma_dependency_order_deterministic(
    m: VersionsManifest,
    ord1: Seq<Seq<char>>,
    ord2: Seq<Seq<char>>,
    a: Seq<char>,
    b: Seq<char>,
    i1: int,
    j1: int,
    i2: int,
    j2: int,
)
    requires
        is_build_order(m, ord1),
        is_build_order(m, ord2),
        reaches(m, a, b),
        a != b,
        0 <= i1 < ord1.len() && ord1[i1] == a,
        0 <= j1 < ord1.len() && ord1[j1] == b,
        0 <= i2 < ord2.len() && ord2[i2] == a,
        0 <= j2 < ord2.len() && ord2[j2] == b,
    ensures
        j1 < i1,
        j2 < i2,
{
    lemma_order_respects_reachability(m, ord1, a, b, i1, j1);
    lemma_order_respects_reachability(m, ord2, a, b, i2, j2);
}

/// In a build order, a repository stands after everything it reaches along
/// dependency edges.
pub proof fn lemma_order_respects_reachability(
    m: VersionsManifest,
    names: Seq<Seq<char>>,
    a: Seq<char>,
    b: Seq<char>,
    i: int,
    j: int,
)
    requires
        is_build_order(m, names),
        reaches(m, a, b),
        a != b,
        0 <= i < names.len() && names[i] == a,
        0 <= j < names.len() && names[j] == b,
    ensures
        j < i,
{
    let p = choose|p: Seq<Seq<char>>|
        is_chain(m, p) && p.len() >= 2 && p[0] == a && p[p.len() - 1] == b;
    assert(m.edge(p[0], p[1]));
    assert(names.contains(p[0]));
    lemma_chain_positions(m, names, p);
    let ia = position_of(names, a);
    let jb = position_of(names, b);
    assert(names[ia] == a && names[jb] == b);
    assert(jb < ia);
    assert(i == ia) by {
        if i != ia {
            assert(names[i] == names[ia]);
        }
    }
    assert(j == jb) by {
        if j != jb {
            assert(names[j] == names[jb]);
        }
    }
}

/// A build order has exactly one position per manifest entry.
pub proof fn lemma_build_order_len(m: VersionsManifest, names: Seq<Seq<char>>)
    requires
        m.wf(),
        is_build_order(m, names),
    ensures
        names.len() == m.versions@.len(),
{
    broadcast use vstd::seq_lib::seq_to_set_is_finite;

    assert forall|t: int| 0 <= t < names.len() implies m.has_key(#[trigger] names[t]) by {
        assert(names.contains(names[t]));
    }
    lemma_distinct_keys_bound(m, names);
    let keys = m.names();
    assert(keys.no_duplicates()) by {
        assert forall|i: int, j: int| 0 <= i < j < keys.len() implies keys[i] != keys[j] by {
            assert(keys[i] == m.versions@[i].name@);
            assert(keys[j] == m.versions@[j].name@);
        }
    }
    assert forall|t: int| 0 <= t < keys.len() implies names.contains(#[trigger] keys[t]) by {
        assert(keys[t] == m.versions@[t].name@);
        assert(m.has_key(keys[t]));
    }
    assert(keys.to_set().subset_of(names.to_set()));
    keys.unique_seq_to_set();
    names.unique_seq_to_set();
    vstd::set_lib::lemma_len_subset(keys.to_set(), names.to_set());
}

/// Distinct repository names can be no more numerous than the manifest's
/// entries.
pub(crate) proof fn lemma_distinct_keys_bound(m: VersionsManifest, s: Seq<Seq<char>>)
    requires
        m.wf(),
        s.no_duplicates(),
        forall|t: int| 0 <= t < s.len() ==> m.has_key(#[trigger] s[t]),
    ensures
        s.len() <= m.versions@.len(),
{
    broadcast use vstd::seq_lib::seq_to_set_is_finite;

    let keys = m.names();
    assert(keys.no_duplicates()) by {
        assert forall|i: int, j: int| 0 <= i < j < keys.len() implies keys[i] != keys[j] by {
            assert(keys[i] == m.versions@[i].name@);
            assert(keys[j] == m.versions@[j].name@);
        }
    }
    assert forall|t: int| 0 <= t < s.len() implies keys.contains(#[trigger] s[t]) by {
        let w = choose|w: int| 0 <= w < m.versions@.len() && m.versions@[w].name@ == s[t];
        assert(keys[w] == s[t]);
    }
    assert(s.to_set().subset_of(keys.to_set()));
    s.unique_seq_to_set();
    keys.unique_seq_to_set();
    vstd::set_lib::lemma_len_subset(s.to_set(), keys.to_set());
}

} // verus!
