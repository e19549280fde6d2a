//! Laws of the resolver core: what a solution must satisfy, and properties
//! the components are held to beyond their own contracts.
use vstd::prelude::*;

use crate::model::provide_matches;
use crate::model::provides_name_spec;
use crate::universe::Requirement;
use crate::universe::Universe;
use crate::universe::arch_satisfies;
use crate::version::Rel;
use crate::version::VersionRange;
use crate::version::range_matches;
use crate::version::version_cmp;

verus! {

impl Universe {
    /// A requirement is satisfied by a solution when some member matches one
    /// of its version sets (the first-listed alternative has priority for
    /// the solver, but any alternative satisfies).
    pub open spec fn req_satisfied(self, r: Requirement, sol: Seq<usize>) -> bool {
        match r {
            Requirement::Single(v) => exists|i: int|
                0 <= i < sol.len() && self.vs_selected(v as int, (#[trigger] sol[i]) as int, false),
            Requirement::Union(u) => exists|k: int, i: int|
                0 <= k < self.version_set_unions@[u as int]@.len() && 0 <= i < sol.len()
                    && self.vs_selected(
                    (#[trigger] self.version_set_unions@[u as int]@[k]) as int,
                    (#[trigger] sol[i]) as int,
                    false,
                ),
        }
    }

    /// A constraining (negated) version set is respected when no member
    /// violates the prohibition it stands for: filtering the solution with
    /// `inverse` set keeps nothing.
    pub open spec fn con_respected(self, v: int, sol: Seq<usize>) -> bool {
        forall|i: int| 0 <= i < sol.len() ==> !self.vs_selected(v, (#[trigger] sol[i]) as int, true)
    }
}

/// Self-provide, self-break is consistent: a constraint a package declares
/// on a name it itself provides is interned with the package as its
/// self-reference, so it never matches — and so never excludes — the
/// package itself. A package may break a name it provides and still be
/// selected alone.
pub proof fn lemma_self_constraint_excludes_owner(u: Universe, vsid: int, c: crate::model::Constraint, owner: int)
    requires
        u.vs_for_con(vsid, c, owner),
        0 <= owner < u.solvables@.len(),
        provides_name_spec(u.solvables@[owner].package, c.name@),
    ensures
        !u.vs_selected(vsid, owner, true),
{
    assert(u.version_sets@[vsid].selfref == Option::Some(owner as usize));
    assert(!u.vs_raw_match(vsid, owner));
}

/// Self-provide, self-break is consistent, solution-wide: a package alone
/// respects every prohibition it declares on a name it itself provides.
pub proof fn lemma_self_break_alone_consistent(
    u: Universe,
    vsid: int,
    c: crate::model::Constraint,
    owner: usize,
)
    requires
        u.vs_for_con(vsid, c, owner as int),
        (owner as int) < u.solvables@.len(),
        provides_name_spec(u.solvables@[owner as int].package, c.name@),
    ensures
        u.con_respected(vsid, seq![owner]),
{
    lemma_self_constraint_excludes_owner(u, vsid, c, owner as int);
    assert forall|i: int| 0 <= i < seq![owner].len() implies !u.vs_selected(
        vsid,
        (#[trigger] seq![owner][i]) as int,
        true,
    ) by {
        assert(seq![owner][i] == owner);
    }
}

/// Absent optional names do not block, solution-wide: a prohibition on a
/// name that no member of the solution carries or provides is respected by
/// the whole solution.
pub proof fn lemma_absent_name_constraint_respected(u: Universe, vsid: int, sol: Seq<usize>)
    requires
        u.wf(),
        0 <= vsid < u.version_sets@.len(),
        u.version_sets@[vsid].negated,
        forall|i: int|
            0 <= i < sol.len() ==> (#[trigger] sol[i]) < u.solvables@.len()
                && !provides_name_spec(
                u.solvables@[sol[i] as int].package,
                u.names@[u.version_sets@[vsid].name as int].name@,
            ),
    ensures
        u.con_respected(vsid, sol),
{
    assert forall|i: int| 0 <= i < sol.len() implies !u.vs_selected(
        vsid,
        (#[trigger] sol[i]) as int,
        true,
    ) by {
        lemma_absent_name_blocks_nothing(u, vsid, sol[i] as int);
    }
}

/// Absent optional names do not block: a version set over a name a solvable
/// neither carries nor provides never matches that solvable, so a
/// `Conflicts` on a name nothing provides excludes nothing.
pub proof fn lemma_absent_name_blocks_nothing(u: Universe, vsid: int, s: int)
    requires
        u.wf(),
        0 <= vsid < u.version_sets@.len(),
        0 <= s < u.solvables@.len(),
        !provides_name_spec(
            u.solvables@[s].package,
            u.names@[u.version_sets@[vsid].name as int].name@,
        ),
        u.version_sets@[vsid].negated,
    ensures
        !u.vs_selected(vsid, s, true),
{
    assert(u.vs_ok(vsid));
    assert(u.solvable_ok(s));
    if u.vs_name_matches(vsid, s) {
        let vs = u.version_sets@[vsid];
        let sv = u.solvables@[s];
        if sv.name == vs.name && range_matches(vs.range, sv.package.version@) {
            assert(u.names@[vs.name as int].name@ == sv.package.name@);
            assert(provides_name_spec(sv.package, u.names@[vs.name as int].name@));
        } else {
            let j = choose|j: int|
                0 <= j < sv.package.provides->Ok_0@.len() && (#[trigger] sv.package.provides->Ok_0@[
                    j
                ]).name@ == u.names@[vs.name as int].name@ && provide_matches(
                    sv.package.provides->Ok_0@[j],
                    vs.range,
                );
            assert(provides_name_spec(sv.package, u.names@[vs.name as int].name@));
        }
    }
}

/// A union falls through to a present alternative: when any member of the
/// solution matches any alternative of the union, the union requirement is
/// satisfied — the absence of an earlier alternative never blocks it.
pub proof fn lemma_union_falls_through(u: Universe, uid: usize, k: int, sol: Seq<usize>, i: int)
    requires
        uid < u.version_set_unions@.len(),
        0 <= k < u.version_set_unions@[uid as int]@.len(),
        0 <= i < sol.len(),
        u.vs_selected(u.version_set_unions@[uid as int]@[k] as int, sol[i] as int, false),
    ensures
        u.req_satisfied(Requirement::Union(uid), sol),
{
    let r = Requirement::Union(uid);
    assert(r->Union_0 == uid);
    assert(0 <= k < u.version_set_unions@[(r->Union_0) as int]@.len() && 0 <= i < sol.len()
        && u.vs_selected(
        (u.version_set_unions@[(r->Union_0) as int]@[k]) as int,
        (sol[i]) as int,
        false,
    ));
}

/// Provides satisfies a versioned dependency: a solvable declaring
/// `Provides: n (= v)` with `v` inside the version set's range, whose
/// architecture satisfies the set's and which is not the set's
/// self-reference, matches the set.
pub proof fn lemma_provides_satisfies(u: Universe, vsid: int, s: int, j: int)
    requires
        u.wf(),
        0 <= vsid < u.version_sets@.len(),
        0 <= s < u.solvables@.len(),
        !u.version_sets@[vsid].negated,
        u.version_sets@[vsid].selfref != Option::Some(s as usize),
        arch_satisfies(u.solvables@[s].arch, u.version_sets@[vsid].arch),
        u.solvables@[s].package.provides is Ok,
        0 <= j < u.solvables@[s].package.provides->Ok_0@.len(),
        u.solvables@[s].package.provides->Ok_0@[j].name@ == u.names@[u.version_sets@[
            vsid
        ].name as int].name@,
        provide_matches(u.solvables@[s].package.provides->Ok_0@[j], u.version_sets@[vsid].range),
    ensures
        u.vs_selected(vsid, s, false),
{
    assert(u.vs_name_matches(vsid, s)) by {
        let pv = u.solvables@[s].package.provides->Ok_0@[j];
        assert(0 <= j < u.solvables@[s].package.provides->Ok_0@.len() && pv.name@ == u.names@[
            u.version_sets@[vsid].name as int
        ].name@ && provide_matches(pv, u.version_sets@[vsid].range));
    }
}

/// Mutual depends: when a satisfied single requirement can only be matched
/// by one solvable, that solvable is in the solution. Two packages each
/// requiring the other are therefore both selected as soon as either is.
pub proof fn lemma_forced_member(u: Universe, v: usize, sol: Seq<usize>, b: usize)
    requires
        u.req_satisfied(Requirement::Single(v), sol),
        forall|s: int|
            0 <= s < u.solvables@.len() && u.vs_selected(v as int, s, false) ==> s == b as int,
        forall|i: int| 0 <= i < sol.len() ==> (#[trigger] sol[i]) < u.solvables@.len(),
    ensures
        sol.contains(b),
{
    let i = choose|i: int|
        0 <= i < sol.len() && u.vs_selected(v as int, (#[trigger] sol[i]) as int, false);
    assert(sol[i] == b);
}

/// Range intersection: a candidate version lies in both halves of
/// `>= a, << b` exactly when `a <= v < b` in the Debian ordering.
pub proof fn lemma_range_intersection(lo: VersionRange, hi: VersionRange, v: Seq<u8>)
    requires
        lo is Bounded && lo->0 == Rel::LaterEq,
        hi is Bounded && hi->0 == Rel::Earlier,
    ensures
        (range_matches(lo, v) && range_matches(hi, v)) <==> (version_cmp(v, lo->1@) >= 0
            && version_cmp(v, hi->1@) < 0),
{
}

/// Architecture fallback: `Any` satisfies and is satisfied by every
/// architecture; two distinct concrete architectures satisfy neither the
/// one nor the other.
pub proof fn lemma_arch_fallback(x: usize, y: usize)
    ensures
        arch_satisfies(0, x),
        arch_satisfies(x, 0),
        x != 0 && y != 0 && x != y ==> !arch_satisfies(x, y) && !arch_satisfies(y, x),
{
}

/// Essential seeding: a solution that satisfies every requirement of a
/// built problem satisfies in particular every seeded baseline requirement,
/// since the problem builder appends them all.
pub proof fn lemma_essential_seeded(
    u: Universe,
    reqs: Seq<Requirement>,
    nuser: int,
    sol: Seq<usize>,
)
    requires
        0 <= nuser,
        reqs.len() == nuser + u.required@.len(),
        forall|i: int| 0 <= i < u.required@.len() ==> reqs[nuser + i] == u.required@[i],
        forall|t: int| 0 <= t < reqs.len() ==> u.req_satisfied(#[trigger] reqs[t], sol),
    ensures
        forall|i: int|
            0 <= i < u.required@.len() ==> u.req_satisfied(#[trigger] u.required@[i], sol),
{
    assert forall|i: int|
        0 <= i < u.required@.len() implies u.req_satisfied(#[trigger] u.required@[i], sol) by {
        assert(u.req_satisfied(reqs[nuser + i], sol));
    }
}

/// Graph restriction: every edge of the dependency graph has both endpoints
/// in the solution and is no self-loop.
pub proof fn lemma_graph_restriction(u: Universe, sol: Seq<usize>, edges: Seq<(usize, usize)>)
    requires
        forall|p: usize, q: usize| edges.contains((p, q)) ==> u.dep_edge(sol, p, q),
    ensures
        forall|t: int|
            0 <= t < edges.len() ==> sol.contains((#[trigger] edges[t]).0) && sol.contains(
                edges[t].1,
            ) && edges[t].0 != edges[t].1,
{
    assert forall|t: int|
        0 <= t < edges.len() implies sol.contains((#[trigger] edges[t]).0) && sol.contains(
        edges[t].1,
    ) && edges[t].0 != edges[t].1 by {
        let e = edges[t];
        assert(edges.contains((e.0, e.1)));
        assert(u.dep_edge(sol, e.0, e.1));
    }
}

/// Idempotence of ordering: running the install ordering on its own output
/// gives the same multiset back. The dependency edges of the output are
/// exactly those of the input solution, because every edge endpoint is
/// kept, so the second ordering sees the same graph.
pub proof fn lemma_sort_solution_idempotent(
    u: Universe,
    sol1: Seq<usize>,
    r1: Seq<usize>,
    r2: Seq<usize>,
)
    requires
        r1.no_duplicates(),
        r2.no_duplicates(),
        forall|n: usize|
            r1.contains(n) <==> (exists|q: usize| u.dep_edge(sol1, n, q) || u.dep_edge(sol1, q, n)),
        forall|n: usize|
            r2.contains(n) <==> (exists|q: usize| u.dep_edge(r1, n, q) || u.dep_edge(r1, q, n)),
    ensures
        r2.to_multiset() =~= r1.to_multiset(),
{
    assert forall|a: usize, b: usize| #[trigger]
        u.dep_edge(r1, a, b) == u.dep_edge(sol1, a, b) by {
        if u.dep_edge(sol1, a, b) {
            assert(r1.contains(a)) by {
                assert(u.dep_edge(sol1, a, b) || u.dep_edge(sol1, b, a));
            }
            assert(r1.contains(b)) by {
                assert(u.dep_edge(sol1, a, b) || u.dep_edge(sol1, b, a));
            }
            assert(u.dep_edge(r1, a, b));
        }
        if u.dep_edge(r1, a, b) {
            assert(sol1.contains(a)) by {
                assert(r1.contains(a));
                let q = choose|q: usize| u.dep_edge(sol1, a, q) || u.dep_edge(sol1, q, a);
                assert(u.dep_edge(sol1, a, q) || u.dep_edge(sol1, q, a));
            }
            assert(sol1.contains(b)) by {
                assert(r1.contains(b));
                let q = choose|q: usize| u.dep_edge(sol1, b, q) || u.dep_edge(sol1, q, b);
                assert(u.dep_edge(sol1, b, q) || u.dep_edge(sol1, q, b));
            }
            assert(u.dep_edge(sol1, a, b));
        }
    }
    assert forall|n: usize| r2.contains(n) == r1.contains(n) by {
        if r1.contains(n) {
            let q = choose|q: usize| u.dep_edge(sol1, n, q) || u.dep_edge(sol1, q, n);
            assert(u.dep_edge(r1, n, q) == u.dep_edge(sol1, n, q));
            assert(u.dep_edge(r1, q, n) == u.dep_edge(sol1, q, n));
            assert(r2.contains(n));
        }
        if r2.contains(n) {
            let q = choose|q: usize| u.dep_edge(r1, n, q) || u.dep_edge(r1, q, n);
            assert(u.dep_edge(r1, n, q) == u.dep_edge(sol1, n, q));
            assert(u.dep_edge(r1, q, n) == u.dep_edge(sol1, q, n));
            assert(r1.contains(n));
        }
    }
    {
        broadcast use vstd::seq_lib::group_to_multiset_ensures;

        r1.lemma_multiset_has_no_duplicates();
        r2.lemma_multiset_has_no_duplicates();
        assert forall|x: usize| r1.to_multiset().count(x) == r2.to_multiset().count(x) by {
            if r1.contains(x) {
                assert(r1.to_multiset().count(x) == 1);
                assert(r2.contains(x));
                assert(r2.to_multiset().count(x) == 1);
            } else {
                assert(r1.to_multiset().count(x) == 0);
                assert(!r2.contains(x));
                assert(r2.to_multiset().count(x) == 0);
            }
        }
    }
}

} // verus!
