//! Post-solve ordering: build the dependency graph of a solution and emit
//! its members grouped by strongly-connected component, dependencies first.
use vstd::prelude::*;

use crate::model::Constraint;
use crate::model::Dependency;
use crate::model::provides_name_spec;
use crate::universe::Requirement;
use crate::universe::SolvableDeps;
use crate::universe::Universe;

verus! {

/// The constituent constraints of a dependency: the single one, or the
/// union's alternatives.
pub open spec fn dep_constraints(d: Dependency) -> Seq<Constraint> {
    match d {
        Dependency::Single(c) => seq![c],
        Dependency::Union(cs) => cs@,
    }
}

/// The nodes a list of edges touches.
pub open spec fn edge_endpoints(edges: Seq<(usize, usize)>) -> Set<usize> {
    Set::new(
        |n: usize|
            exists|t: int| 0 <= t < edges.len() && ((#[trigger] edges[t]).0 == n || edges[t].1 == n),
    )
}

impl Universe {
    /// The dependency-graph edge relation of a solution: `p` depends on `q`
    /// when both are in the solution, they differ, and some constraint of
    /// `p`'s requirement lists names a package `q` carries or provides. The
    /// graph deliberately ignores version ranges: an edge goes to every
    /// candidate of the constrained name.
    pub open spec fn dep_edge(self, sol: Seq<usize>, p: usize, q: usize) -> bool {
        &&& sol.contains(p)
        &&& sol.contains(q)
        &&& p != q
        &&& p < self.solvables@.len()
        &&& q < self.solvables@.len()
        &&& exists|di: int, ci: int|
            0 <= di < self.solvables@[p as int].package.flat_depends().len() && 0 <= ci
                < dep_constraints(self.solvables@[p as int].package.flat_depends()[di]).len()
                && provides_name_spec(
                self.solvables@[q as int].package,
                (#[trigger] dep_constraints(
                    self.solvables@[p as int].package.flat_depends()[di],
                )[ci]).name@,
            )
    }

    /// Whether solvable `q` carries or provides the name of some constituent
    /// version set of one requirement.
    pub open spec fn req_name_hit(self, r: Requirement, q: int) -> bool {
        match r {
            Requirement::Single(v) => self.vs_name_hit(v as int, q),
            Requirement::Union(u) => exists|k: int|
                0 <= k < self.version_set_unions@[u as int]@.len() && self.vs_name_hit(
                    (#[trigger] self.version_set_unions@[u as int]@[k]) as int,
                    q,
                ),
        }
    }

    /// Whether solvable `q` carries or provides the name of some constituent
    /// version set of the given requirements.
    pub open spec fn reqs_name_hit(self, reqs: Seq<Requirement>, q: int) -> bool {
        exists|t: int| 0 <= t < reqs.len() && self.req_name_hit(#[trigger] reqs[t], q)
    }

    /// Whether solvable `q` carries or provides the name of version set `v`.
    pub open spec fn vs_name_hit(self, v: int, q: int) -> bool {
        provides_name_spec(
            self.solvables@[q].package,
            self.names@[self.version_sets@[v].name as int].name@,
        )
    }

    /// Exec test for [`Universe::vs_name_hit`].
    fn vs_name_hit_exec(&self, v: usize, q: usize) -> (r: bool)
        requires
            self.wf(),
            v < self.version_sets@.len(),
            q < self.solvables@.len(),
        ensures
            r == self.vs_name_hit(v as int, q as int),
    {
        proof {
            assert(self.vs_ok(v as int));
        }
        let name = self.version_sets[v].name;
        self.solvables[q].package.provides_name(self.names[name].name.as_slice())
    }

    /// Exec test for [`Universe::reqs_name_hit`].
    fn reqs_name_hit_exec(&self, reqs: &Vec<Requirement>, q: usize) -> (r: bool)
        requires
            self.wf(),
            q < self.solvables@.len(),
            forall|t: int| 0 <= t < reqs@.len() ==> self.req_ok(#[trigger] reqs@[t]),
        ensures
            r == self.reqs_name_hit(reqs@, q as int),
    {
        let mut t: usize = 0;
        while t < reqs.len()
            invariant
                t <= reqs@.len(),
                self.wf(),
                q < self.solvables@.len(),
                forall|t2: int| 0 <= t2 < reqs@.len() ==> self.req_ok(#[trigger] reqs@[t2]),
                forall|t2: int| 0 <= t2 < t ==> !self.req_name_hit(#[trigger] reqs@[t2], q as int),
            decreases reqs@.len() - t,
        {
            match &reqs[t] {
                Requirement::Single(v) => {
                    if self.vs_name_hit_exec(*v, q) {
                        proof {
                            assert(self.req_name_hit(reqs@[t as int], q as int));
                        }
                        return true;
                    }
                },
                Requirement::Union(u) => {
                    proof {
                        assert(self.union_ok(*u as int));
                    }
                    let ulen = self.version_set_unions[*u].len();
                    let mut k: usize = 0;
                    while k < ulen
                        invariant
                            k <= ulen,
                            self.wf(),
                            q < self.solvables@.len(),
                            t < reqs@.len(),
                            reqs@[t as int] == Requirement::Union(*u),
                            *u < self.version_set_unions@.len(),
                            ulen == self.version_set_unions@[*u as int]@.len(),
                            forall|k2: int|
                                0 <= k2 < k ==> !self.vs_name_hit(
                                    (#[trigger] self.version_set_unions@[*u as int]@[k2]) as int,
                                    q as int,
                                ),
                        decreases ulen - k,
                    {
                        proof {
                            assert(self.union_ok(*u as int));
                        }
                        let v = self.version_set_unions[*u][k];
                        if self.vs_name_hit_exec(v, q) {
                            proof {
                                let ki = k as int;
                                assert(0 <= ki < self.version_set_unions@[*u as int]@.len());
                                assert(self.vs_name_hit(
                                    self.version_set_unions@[*u as int]@[ki] as int,
                                    q as int,
                                ));
                                assert(reqs@[t as int] is Union);
                                assert(reqs@[t as int]->Union_0 == *u);
                                assert(exists|k2: int|
                                    0 <= k2 < self.version_set_unions@[(reqs@[
                                        t as int
                                    ]->Union_0) as int]@.len() && self.vs_name_hit(
                                        (#[trigger] self.version_set_unions@[(reqs@[
                                            t as int
                                        ]->Union_0) as int]@[k2]) as int,
                                        q as int,
                                    ));
                                assert(self.req_name_hit(reqs@[t as int], q as int));
                            }
                            return true;
                        }
                        k = k + 1;
                    }
                    proof {
                        assert(!self.req_name_hit(reqs@[t as int], q as int));
                    }
                },
            }
            t = t + 1;
        }
        false
    }

    /// Sort a solution ascending by solvable id.
    pub fn sort_ids(solution: &mut Vec<usize>)
        ensures
            final(solution)@.to_multiset() == old(solution)@.to_multiset(),
            final(solution)@.len() == old(solution)@.len(),
            forall|i: int, j: int|
                0 <= i <= j < final(solution)@.len() ==> #[trigger] final(solution)@[i]
                    <= #[trigger] final(solution)@[j],
            forall|x: usize| final(solution)@.contains(x) <==> old(solution)@.contains(x),
    {
        let mut out: Vec<usize> = Vec::new();
        let mut i: usize = 0;
        proof {
            broadcast use vstd::seq_lib::group_to_multiset_ensures;

            assert(solution@.take(0).to_multiset() =~= Seq::<usize>::empty().to_multiset());
        }
        while i < solution.len()
            invariant
                i <= solution@.len(),
                *solution == *old(solution),
                out@.to_multiset() == solution@.take(i as int).to_multiset(),
                out@.len() == i,
                forall|a: int, b: int|
                    0 <= a <= b < out@.len() ==> #[trigger] out@[a] <= #[trigger] out@[b],
            decreases solution@.len() - i,
        {
            let x = solution[i];
            let p = Self::id_insert_pos(&out, x);
            let ghost outpre = out@;
            out.insert(p, x);
            proof {
                broadcast use vstd::seq_lib::group_to_multiset_ensures;

                assert(out@ == outpre.insert(p as int, x));
                assert(out@.remove(p as int) =~= outpre);
                assert(out@.remove(p as int).to_multiset() =~= out@.to_multiset().remove(
                    out@[p as int],
                ));
                assert(out@.to_multiset().contains(x)) by {
                    assert(out@[p as int] == x);
                }
                assert(out@.to_multiset() =~= outpre.to_multiset().insert(x));
                assert(solution@.take(i + 1).drop_last() =~= solution@.take(i as int));
                assert(solution@.take(i + 1) =~= solution@.take(i as int).push(x));
                assert(out@.to_multiset() =~= solution@.take(i + 1).to_multiset());
                assert forall|a: int, b: int|
                    0 <= a <= b < out@.len() implies #[trigger] out@[a] <= #[trigger] out@[b] by {
                    if b < p {
                        assert(out@[a] == outpre[a] && out@[b] == outpre[b]);
                    } else if b == p as int {
                        assert(out@[b] == x);
                        if a < b {
                            assert(out@[a] == outpre[a] && outpre[a] <= x);
                        }
                    } else {
                        assert(out@[b] == outpre[b - 1]);
                        if a == p as int {
                            assert(out@[a] == x);
                            assert(outpre[p as int] > x);
                            assert(outpre[p as int] <= outpre[b - 1]);
                        } else if a < p {
                            assert(out@[a] == outpre[a]);
                        } else {
                            assert(out@[a] == outpre[a - 1]);
                        }
                    }
                }
            }
            i = i + 1;
        }
        proof {
            assert(solution@.take(solution@.len() as int) =~= solution@);
            broadcast use vstd::seq_lib::group_to_multiset_ensures;

            assert forall|x: usize| out@.contains(x) <==> solution@.contains(x) by {
                assert(out@.to_multiset() == solution@.to_multiset());
                assert(out@.contains(x) <==> out@.to_multiset().count(x) > 0);
                assert(solution@.contains(x) <==> solution@.to_multiset().count(x) > 0);
            }
        }
        *solution = out;
    }

    /// First position in `out` strictly greater than `x`.
    fn id_insert_pos(out: &Vec<usize>, x: usize) -> (p: usize)
        ensures
            p <= out@.len(),
            forall|k: int| 0 <= k < p ==> #[trigger] out@[k] <= x,
            p < out@.len() ==> out@[p as int] > x,
    {
        let mut p: usize = 0;
        while p < out.len()
            invariant
                p <= out@.len(),
                forall|k: int| 0 <= k < p ==> #[trigger] out@[k] <= x,
            decreases out@.len() - p,
        {
            if out[p] > x {
                return p;
            }
            p = p + 1;
        }
        p
    }


    /// Sort the solution ascending and emit the edges of its dependency
    /// graph: one edge `p -> q` for every pair of distinct solution members
    /// where `q` carries or provides a name that `p`'s requirements
    /// constrain.
    pub fn dependency_graph(&mut self, solution: &mut Vec<usize>) -> (r: Vec<(usize, usize)>)
        requires
            old(self).wf(),
            forall|t: int| 0 <= t < old(solution)@.len() ==> (#[trigger] old(solution)@[t]) < old(
                self,
            ).solvables@.len(),
            forall|t: int|
                0 <= t < old(solution)@.len() ==> (#[trigger] old(self).solvables@[old(
                    solution,
                )@[t] as int]).package.deps_parse_ok() && old(self).solvables@[old(solution)@[
                    t
                ] as int].package.deps_shape_ok(),
        ensures
            final(self).wf(),
            old(self).grows_to(*final(self)),
            final(solution)@.to_multiset() == old(solution)@.to_multiset(),
            forall|x: usize| final(solution)@.contains(x) <==> old(solution)@.contains(x),
            forall|i: int, j: int|
                0 <= i <= j < final(solution)@.len() ==> #[trigger] final(solution)@[i]
                    <= #[trigger] final(solution)@[j],
            forall|p: usize, q: usize|
                r@.contains((p, q)) <==> final(self).dep_edge(final(solution)@, p, q),
    {
        Self::sort_ids(solution);
        proof {
            assert forall|t: int| 0 <= t < solution@.len() implies (#[trigger] solution@[t])
                < self.solvables@.len() && self.solvables@[solution@[
                t
            ] as int].package.deps_parse_ok() && self.solvables@[solution@[
                t
            ] as int].package.deps_shape_ok() by {
                assert(solution@.contains(solution@[t]));
                assert(old(solution)@.contains(solution@[t]));
                let k = choose|k: int|
                    0 <= k < old(solution)@.len() && old(solution)@[k] == solution@[t];
                assert(old(solution)@[k] < old(self).solvables@.len());
                assert(old(self).solvables@[old(solution)@[k] as int].package.deps_parse_ok());
            }
        }
        let mut edges: Vec<(usize, usize)> = Vec::new();
        let mut i: usize = 0;
        while i < solution.len()
            invariant
                i <= solution@.len(),
                self.wf(),
                old(self).grows_to(*self),
                *solution == *final(solution),
                forall|t: int| 0 <= t < solution@.len() ==> (#[trigger] solution@[t])
                    < self.solvables@.len(),
                forall|t: int|
                    0 <= t < solution@.len() ==> (#[trigger] self.solvables@[solution@[
                        t
                    ] as int]).package.deps_parse_ok() && self.solvables@[solution@[
                        t
                    ] as int].package.deps_shape_ok(),
                forall|t: int|
                    0 <= t < edges@.len() ==> self.dep_edge(
                        solution@,
                        (#[trigger] edges@[t]).0,
                        edges@[t].1,
                    ),
                forall|i2: int, j2: int|
                    0 <= i2 < i && 0 <= j2 < solution@.len() ==> (self.dep_edge(
                        solution@,
                        #[trigger] solution@[i2],
                        #[trigger] solution@[j2],
                    ) ==> edges@.contains((solution@[i2], solution@[j2]))),
            decreases solution@.len() - i,
        {
            let p = solution[i];
            let ghost w1 = *self;
            let deps = self.get_dependencies(p);
            let ghost pkg = self.solvables@[p as int].package;
            match deps {
                SolvableDeps::Unknown(_) => {
                    proof {
                        assert(false);
                    }
                },
                SolvableDeps::Known(reqs, _cons) => {
                    proof {
                        assert forall|t2: int|
                            0 <= t2 < reqs@.len() implies self.req_ok(#[trigger] reqs@[t2]) by {
                            assert(self.req_for_dep(
                                reqs@[t2],
                                pkg.flat_depends()[t2],
                                p as int,
                            ));
                            match reqs@[t2] {
                                Requirement::Single(v) => {
                                    assert(self.vs_for_dep(
                                        v as int,
                                        pkg.flat_depends()[t2]->Single_0,
                                        p as int,
                                    ));
                                },
                                Requirement::Union(_) => {},
                            }
                        }
                    }
                    let mut j: usize = 0;
                    while j < solution.len()
                        invariant
                            j <= solution@.len(),
                            i < solution@.len(),
                            p == solution@[i as int],
                            self.wf(),
                            w1.grows_to(*self),
                            old(self).grows_to(*self),
                            *solution == *final(solution),
                            p < self.solvables@.len(),
                            pkg == self.solvables@[p as int].package,
                            pkg.deps_parse_ok(),
                            forall|t: int| 0 <= t < solution@.len() ==> (#[trigger] solution@[t])
                                < self.solvables@.len(),
                            forall|t: int|
                                0 <= t < solution@.len() ==> (#[trigger] self.solvables@[solution@[
                                    t
                                ] as int]).package.deps_parse_ok() && self.solvables@[solution@[
                                    t
                                ] as int].package.deps_shape_ok(),
                            forall|t2: int|
                                0 <= t2 < reqs@.len() ==> self.req_ok(#[trigger] reqs@[t2]),
                            reqs@.len() == pkg.flat_depends().len(),
                            forall|t2: int|
                                0 <= t2 < reqs@.len() ==> self.req_for_dep(
                                    #[trigger] reqs@[t2],
                                    pkg.flat_depends()[t2],
                                    p as int,
                                ),
                            forall|t: int|
                                0 <= t < edges@.len() ==> self.dep_edge(
                                    solution@,
                                    (#[trigger] edges@[t]).0,
                                    edges@[t].1,
                                ),
                            forall|i2: int, j2: int|
                                0 <= i2 < i && 0 <= j2 < solution@.len() ==> (self.dep_edge(
                                    solution@,
                                    #[trigger] solution@[i2],
                                    #[trigger] solution@[j2],
                                ) ==> edges@.contains((solution@[i2], solution@[j2]))),
                            forall|j2: int|
                                0 <= j2 < j ==> (self.dep_edge(
                                    solution@,
                                    solution@[i as int],
                                    #[trigger] solution@[j2],
                                ) ==> edges@.contains((solution@[i as int], solution@[j2]))),
                        decreases solution@.len() - j,
                    {
                        let q = solution[j];
                        let ghost epre = edges@;
                        let mut hit = false;
                        if q != p {
                            hit = self.reqs_name_hit_exec(&reqs, q);
                            if hit {
                                edges.push((p, q));
                            }
                        }
                        proof {
                            assert(solution@.contains(p)) by {
                                assert(solution@[i as int] == p);
                            }
                            assert(solution@.contains(q)) by {
                                assert(solution@[j as int] == q);
                            }
                            if q != p {
                                lemma_hit_edge(*self, solution@, reqs@, p, q, pkg);
                            }
                            if hit {
                                assert(edges@ == epre.push((p, q)));
                                assert(edges@[edges@.len() - 1] == (p, q));
                            } else {
                                assert(edges@ == epre);
                            }
                            assert forall|i2: int, j2: int|
                                0 <= i2 < i && 0 <= j2 < solution@.len() && self.dep_edge(
                                    solution@,
                                    #[trigger] solution@[i2],
                                    #[trigger] solution@[j2],
                                ) implies edges@.contains((solution@[i2], solution@[j2])) by {
                                assert(epre.contains((solution@[i2], solution@[j2])));
                                let idx = choose|idx: int|
                                    0 <= idx < epre.len() && epre[idx] == (solution@[i2],
                                    solution@[j2]);
                                assert(edges@[idx] == (solution@[i2], solution@[j2]));
                            }
                            assert forall|j2: int|
                                0 <= j2 < j + 1 && self.dep_edge(
                                    solution@,
                                    solution@[i as int],
                                    #[trigger] solution@[j2],
                                ) implies edges@.contains((solution@[i as int], solution@[j2])) by {
                                if j2 < j {
                                    assert(epre.contains((solution@[i as int], solution@[j2])));
                                    let idx = choose|idx: int|
                                        0 <= idx < epre.len() && epre[idx] == (solution@[i as int],
                                        solution@[j2]);
                                    assert(edges@[idx] == (solution@[i as int], solution@[j2]));
                                } else {
                                    assert(solution@[j2] == q);
                                    assert(q != p);
                                    assert(hit);
                                    assert(edges@[edges@.len() - 1] == (p, q));
                                }
                            }
                        }
                        j = j + 1;
                    }
                },
            }
            i = i + 1;
        }
        proof {
            assert forall|p: usize, q: usize|
                edges@.contains((p, q)) <==> final(self).dep_edge(final(solution)@, p, q) by {
                if edges@.contains((p, q)) {
                    let t = choose|t: int| 0 <= t < edges@.len() && edges@[t] == (p, q);
                    assert(self.dep_edge(solution@, edges@[t].0, edges@[t].1));
                }
                if self.dep_edge(solution@, p, q) {
                    let i2 = choose|i2: int|
                        0 <= i2 < solution@.len() && solution@[i2] == p;
                    let j2 = choose|j2: int|
                        0 <= j2 < solution@.len() && solution@[j2] == q;
                    assert(edges@.contains((solution@[i2], solution@[j2])));
                }
            }
        }
        edges
    }
}

/// A name hit through the interned requirements is exactly a record-level
/// dependency edge, and conversely.
proof fn lemma_hit_edge(
    u: Universe,
    sol: Seq<usize>,
    reqs: Seq<Requirement>,
    p: usize,
    q: usize,
    pkg: crate::model::PackageRecord,
)
    requires
        u.wf(),
        sol.contains(p),
        sol.contains(q),
        p != q,
        p < u.solvables@.len(),
        q < u.solvables@.len(),
        pkg == u.solvables@[p as int].package,
        reqs.len() == pkg.flat_depends().len(),
        forall|t2: int|
            0 <= t2 < reqs.len() ==> u.req_for_dep(#[trigger] reqs[t2], pkg.flat_depends()[t2], p as int),
    ensures
        u.reqs_name_hit(reqs, q as int) == u.dep_edge(sol, p, q),
{
    if u.reqs_name_hit(reqs, q as int) {
        let t = choose|t: int| 0 <= t < reqs.len() && u.req_name_hit(#[trigger] reqs[t], q as int);
        assert(u.req_for_dep(reqs[t], pkg.flat_depends()[t], p as int));
        match reqs[t] {
            Requirement::Single(v) => {
                let c = pkg.flat_depends()[t]->Single_0;
                assert(u.vs_for_dep(v as int, c, p as int));
                assert(provides_name_spec(u.solvables@[q as int].package, c.name@));
                assert(dep_constraints(pkg.flat_depends()[t])[0] == c);
                assert(u.dep_edge(sol, p, q));
            },
            Requirement::Union(w) => {
                let k = choose|k: int|
                    0 <= k < u.version_set_unions@[w as int]@.len() && u.vs_name_hit(
                        (#[trigger] u.version_set_unions@[w as int]@[k]) as int,
                        q as int,
                    );
                let cs = pkg.flat_depends()[t]->Union_0;
                let v = u.version_set_unions@[w as int]@[k];
                assert(u.vs_for_dep(v as int, cs@[k], p as int));
                assert(provides_name_spec(u.solvables@[q as int].package, cs@[k].name@));
                assert(dep_constraints(pkg.flat_depends()[t])[k] == cs@[k]);
                assert(u.dep_edge(sol, p, q));
            },
        }
    }
    if u.dep_edge(sol, p, q) {
        let (di, ci) = choose|di: int, ci: int|
            0 <= di < pkg.flat_depends().len() && 0 <= ci < dep_constraints(
                pkg.flat_depends()[di],
            ).len() && provides_name_spec(
                u.solvables@[q as int].package,
                (#[trigger] dep_constraints(pkg.flat_depends()[di])[ci]).name@,
            );
        assert(u.req_for_dep(reqs[di], pkg.flat_depends()[di], p as int));
        match pkg.flat_depends()[di] {
            Dependency::Single(c) => {
                let v = reqs[di]->Single_0;
                assert(u.vs_for_dep(v as int, c, p as int));
                assert(dep_constraints(pkg.flat_depends()[di])[ci] == c);
                assert(u.vs_name_hit(v as int, q as int));
                assert(u.req_name_hit(reqs[di], q as int));
                assert(u.reqs_name_hit(reqs, q as int));
            },
            Dependency::Union(cs) => {
                let w = reqs[di]->Union_0;
                let v = u.version_set_unions@[w as int]@[ci];
                assert(u.vs_for_dep(v as int, cs@[ci], p as int));
                assert(dep_constraints(pkg.flat_depends()[di])[ci] == cs@[ci]);
                assert(u.vs_name_hit(v as int, q as int));
                assert(u.req_name_hit(reqs[di], q as int));
                assert(u.reqs_name_hit(reqs, q as int));
            },
        }
    }
}

/// Membership in a list of groups.
pub open spec fn in_groups(gs: Seq<Vec<usize>>, n: usize) -> bool {
    exists|gi: int, k: int|
        0 <= gi < gs.len() && 0 <= k < gs[gi]@.len() && (#[trigger] gs[gi]@[k]) == n
}

/// Relies on petgraph's `kosaraju_scc` over a `DiGraphMap` built with
/// `from_edges`: the returned strongly-connected components partition the
/// graph's nodes (the endpoints of the edges), and their order is the
/// postorder, a reverse topological sort: an edge's target never stands in a
/// later component than its source.
#[verifier::external_body]
fn kosaraju_components(edges: &Vec<(usize, usize)>) -> (r: Vec<Vec<usize>>)
    ensures
        forall|gi: int| 0 <= gi < r@.len() ==> (#[trigger] r@[gi])@.len() >= 1,
        forall|gi: int, k: int, gj: int, l: int|
            0 <= gi < r@.len() && 0 <= k < r@[gi]@.len() && 0 <= gj < r@.len() && 0 <= l < r@[
                gj
            ]@.len() && (#[trigger] r@[gi]@[k]) == (#[trigger] r@[gj]@[l]) ==> gi == gj && k == l,
        forall|n: usize| in_groups(r@, n) == edge_endpoints(edges@).contains(n),
        forall|t: int, gi: int, k: int, gj: int, l: int|
            0 <= t < edges@.len() && 0 <= gi < r@.len() && 0 <= k < r@[gi]@.len() && 0 <= gj
                < r@.len() && 0 <= l < r@[gj]@.len() && (#[trigger] r@[gi]@[k]) == (
            #[trigger] edges@[t]).0 && (#[trigger] r@[gj]@[l]) == edges@[t].1 ==> gj <= gi,
{
    petgraph::algo::kosaraju_scc(
        &petgraph::graphmap::DiGraphMap::<usize, ()>::from_edges(edges.iter().copied()),
    )
}

impl Universe {
    /// Order a solution for installation: sort it, build its dependency
    /// graph, and emit its members grouped by strongly-connected component
    /// in reverse topological order, so that (cycles aside) a package
    /// follows everything it depends on. Members with no graph edge at all
    /// do not appear. The result lists each graph node exactly once:
    /// exactly the solution members standing in some dependency edge.
    /// Group a solution's graph nodes by strongly-connected component, in
    /// reverse topological order: whenever `p` depends on `q`, the group of
    /// `q` comes no later than the group of `p`, so (cycles aside) a
    /// package's dependencies stand in earlier groups. The groups partition
    /// exactly the solution members standing in some dependency edge.
    pub fn install_groups(&mut self, solution: &mut Vec<usize>) -> (r: Vec<Vec<usize>>)
        requires
            old(self).wf(),
            forall|t: int| 0 <= t < old(solution)@.len() ==> (#[trigger] old(solution)@[t]) < old(
                self,
            ).solvables@.len(),
            forall|t: int|
                0 <= t < old(solution)@.len() ==> (#[trigger] old(self).solvables@[old(
                    solution,
                )@[t] as int]).package.deps_parse_ok() && old(self).solvables@[old(solution)@[
                    t
                ] as int].package.deps_shape_ok(),
        ensures
            final(self).wf(),
            old(self).grows_to(*final(self)),
            final(solution)@.to_multiset() == old(solution)@.to_multiset(),
            forall|x: usize| final(solution)@.contains(x) <==> old(solution)@.contains(x),
            forall|gi: int| 0 <= gi < r@.len() ==> (#[trigger] r@[gi])@.len() >= 1,
            forall|gi: int, k: int, gj: int, l: int|
                0 <= gi < r@.len() && 0 <= k < r@[gi]@.len() && 0 <= gj < r@.len() && 0 <= l < r@[
                    gj
                ]@.len() && (#[trigger] r@[gi]@[k]) == (#[trigger] r@[gj]@[l]) ==> gi == gj && k
                    == l,
            forall|n: usize|
                in_groups(r@, n) <==> (exists|q: usize|
                    final(self).dep_edge(final(solution)@, n, q) || final(self).dep_edge(
                        final(solution)@,
                        q,
                        n,
                    )),
            forall|gi: int, k: int, gj: int, l: int|
                0 <= gi < r@.len() && 0 <= k < r@[gi]@.len() && 0 <= gj < r@.len() && 0 <= l < r@[
                    gj
                ]@.len() && final(self).dep_edge(
                    final(solution)@,
                    #[trigger] r@[gi]@[k],
                    #[trigger] r@[gj]@[l],
                ) ==> gj <= gi,
    {
        let edges = self.dependency_graph(solution);
        let groups = kosaraju_components(&edges);
        proof {
            assert forall|n: usize|
                in_groups(groups@, n) <==> (exists|q: usize|
                    self.dep_edge(solution@, n, q) || self.dep_edge(solution@, q, n)) by {
                if in_groups(groups@, n) {
                    assert(edge_endpoints(edges@).contains(n));
                    let t = choose|t: int|
                        0 <= t < edges@.len() && ((#[trigger] edges@[t]).0 == n || edges@[t].1
                            == n);
                    let e = edges@[t];
                    assert(edges@.contains(e));
                    assert(self.dep_edge(solution@, e.0, e.1));
                    if e.0 == n {
                        assert(self.dep_edge(solution@, n, e.1));
                    } else {
                        assert(self.dep_edge(solution@, e.0, n));
                    }
                }
                if exists|q: usize|
                    self.dep_edge(solution@, n, q) || self.dep_edge(solution@, q, n) {
                    let q = choose|q: usize|
                        self.dep_edge(solution@, n, q) || self.dep_edge(solution@, q, n);
                    if self.dep_edge(solution@, n, q) {
                        assert(edges@.contains((n, q)));
                        let t = choose|t: int| 0 <= t < edges@.len() && edges@[t] == (n, q);
                        assert(edge_endpoints(edges@).contains(n)) by {
                            assert((edges@[t]).0 == n);
                        }
                    } else {
                        assert(edges@.contains((q, n)));
                        let t = choose|t: int| 0 <= t < edges@.len() && edges@[t] == (q, n);
                        assert(edge_endpoints(edges@).contains(n)) by {
                            assert((edges@[t]).1 == n);
                        }
                    }
                    assert(in_groups(groups@, n));
                }
            }
            assert forall|gi: int, k: int, gj: int, l: int|
                0 <= gi < groups@.len() && 0 <= k < groups@[gi]@.len() && 0 <= gj < groups@.len()
                    && 0 <= l < groups@[gj]@.len() && self.dep_edge(
                    solution@,
                    #[trigger] groups@[gi]@[k],
                    #[trigger] groups@[gj]@[l],
                ) implies gj <= gi by {
                let p = groups@[gi]@[k];
                let q = groups@[gj]@[l];
                assert(edges@.contains((p, q)));
                let t = choose|t: int| 0 <= t < edges@.len() && edges@[t] == (p, q);
                assert((edges@[t]).0 == p && (edges@[t]).1 == q);
            }
        }
        groups
    }

    /// Order a solution for installation: sort it, build its dependency
    /// graph, and emit its members grouped by strongly-connected component
    /// in reverse topological order, so that (cycles aside) a package
    /// follows everything it depends on. Members with no graph edge at all
    /// do not appear. The result lists each graph node exactly once:
    /// exactly the solution members standing in some dependency edge.
    pub fn sort_solution(&mut self, solution: &mut Vec<usize>) -> (r: Vec<usize>)
        requires
            old(self).wf(),
            forall|t: int| 0 <= t < old(solution)@.len() ==> (#[trigger] old(solution)@[t]) < old(
                self,
            ).solvables@.len(),
            forall|t: int|
                0 <= t < old(solution)@.len() ==> (#[trigger] old(self).solvables@[old(
                    solution,
                )@[t] as int]).package.deps_parse_ok() && old(self).solvables@[old(solution)@[
                    t
                ] as int].package.deps_shape_ok(),
        ensures
            final(self).wf(),
            old(self).grows_to(*final(self)),
            final(solution)@.to_multiset() == old(solution)@.to_multiset(),
            forall|x: usize| final(solution)@.contains(x) <==> old(solution)@.contains(x),
            r@.no_duplicates(),
            forall|n: usize|
                r@.contains(n) <==> (exists|q: usize|
                    final(self).dep_edge(final(solution)@, n, q) || final(self).dep_edge(
                        final(solution)@,
                        q,
                        n,
                    )),
    {
        let groups = self.install_groups(solution);
        let mut out: Vec<usize> = Vec::new();
        let mut gi: usize = 0;
        while gi < groups.len()
            invariant
                gi <= groups@.len(),
                forall|gi2: int, k2: int, gj: int, l: int|
                    0 <= gi2 < groups@.len() && 0 <= k2 < groups@[gi2]@.len() && 0 <= gj
                        < groups@.len() && 0 <= l < groups@[gj]@.len() && (
                    #[trigger] groups@[gi2]@[k2]) == (#[trigger] groups@[gj]@[l]) ==> gi2 == gj
                        && k2 == l,
                forall|idx: int|
                    0 <= idx < out@.len() ==> from_groups(groups@, gi as int, 0, #[trigger] out@[idx]),
                forall|gi2: int, k2: int|
                    0 <= gi2 < gi && 0 <= k2 < groups@[gi2]@.len() ==> out@.contains(
                        #[trigger] groups@[gi2]@[k2],
                    ),
                out@.no_duplicates(),
            decreases groups@.len() - gi,
        {
            let glen = groups[gi].len();
            let mut k: usize = 0;
            proof {
                assert forall|idx: int| 0 <= idx < out@.len() implies from_groups(
                    groups@,
                    gi as int,
                    0,
                    #[trigger] out@[idx],
                ) by {
                }
            }
            while k < glen
                invariant
                    k <= glen,
                    gi < groups@.len(),
                    glen == groups@[gi as int]@.len(),
                    forall|gi2: int, k2: int, gj: int, l: int|
                        0 <= gi2 < groups@.len() && 0 <= k2 < groups@[gi2]@.len() && 0 <= gj
                            < groups@.len() && 0 <= l < groups@[gj]@.len() && (
                        #[trigger] groups@[gi2]@[k2]) == (#[trigger] groups@[gj]@[l]) ==> gi2 == gj
                            && k2 == l,
                    forall|idx: int|
                        0 <= idx < out@.len() ==> from_groups(
                            groups@,
                            gi as int,
                            k as int,
                            #[trigger] out@[idx],
                        ),
                    forall|gi2: int, k2: int|
                        0 <= gi2 < gi && 0 <= k2 < groups@[gi2]@.len() ==> out@.contains(
                            #[trigger] groups@[gi2]@[k2],
                        ),
                    forall|k2: int|
                        0 <= k2 < k ==> out@.contains(#[trigger] groups@[gi as int]@[k2]),
                    out@.no_duplicates(),
                decreases glen - k,
            {
                let x = groups[gi][k];
                let ghost opre = out@;
                out.push(x);
                proof {
                    assert(out@ == opre.push(x));
                    assert(out@[out@.len() - 1] == x);
                    assert(out@.no_duplicates()) by {
                        assert forall|a: int, b: int|
                            0 <= a < b < out@.len() implies out@[a] != out@[b] by {
                            if b == out@.len() - 1 {
                                if out@[a] == x {
                                    assert(from_groups(groups@, gi as int, k as int, opre[a]));
                                    let (gi2, k2) = choose|gi2: int, k2: int|
                                        0 <= gi2 < groups@.len() && 0 <= k2 < groups@[
                                            gi2
                                        ]@.len() && (gi2 < gi as int || (gi2 == gi as int && k2
                                            < k as int)) && (#[trigger] groups@[gi2]@[k2])
                                            == opre[a];
                                    assert(groups@[gi2]@[k2] == groups@[gi as int]@[k as int]);
                                    assert(false);
                                }
                            } else {
                                assert(opre[a] != opre[b]);
                            }
                        }
                    }
                    assert forall|idx: int| 0 <= idx < out@.len() implies from_groups(
                        groups@,
                        gi as int,
                        k as int + 1,
                        #[trigger] out@[idx],
                    ) by {
                        if idx == out@.len() - 1 {
                            assert(0 <= (gi as int) && (gi as int) < groups@.len());
                            assert(0 <= (k as int) && (k as int) < groups@[gi as int]@.len());
                            assert(groups@[gi as int]@[k as int] == out@[idx]);
                        } else {
                            assert(from_groups(groups@, gi as int, k as int, opre[idx]));
                            lemma_from_groups_mono(
                                groups@,
                                gi as int,
                                k as int,
                                gi as int,
                                k as int + 1,
                                opre[idx],
                            );
                        }
                    }
                    assert forall|gi2: int, k2: int|
                        0 <= gi2 < gi && 0 <= k2 < groups@[gi2]@.len() implies out@.contains(
                        #[trigger] groups@[gi2]@[k2],
                    ) by {
                        assert(opre.contains(groups@[gi2]@[k2]));
                        let idx = choose|idx: int|
                            0 <= idx < opre.len() && opre[idx] == groups@[gi2]@[k2];
                        assert(out@[idx] == groups@[gi2]@[k2]);
                    }
                    assert forall|k2: int|
                        0 <= k2 < k + 1 implies out@.contains(
                        #[trigger] groups@[gi as int]@[k2],
                    ) by {
                        if k2 < k {
                            assert(opre.contains(groups@[gi as int]@[k2]));
                            let idx = choose|idx: int|
                                0 <= idx < opre.len() && opre[idx] == groups@[gi as int]@[k2];
                            assert(out@[idx] == groups@[gi as int]@[k2]);
                        } else {
                            assert(out@[out@.len() - 1] == groups@[gi as int]@[k2]);
                        }
                    }
                }
                k = k + 1;
            }
            proof {
                assert forall|idx: int| 0 <= idx < out@.len() implies from_groups(
                    groups@,
                    gi as int + 1,
                    0,
                    #[trigger] out@[idx],
                ) by {
                    assert(from_groups(groups@, gi as int, glen as int, out@[idx]));
                    lemma_from_groups_mono(
                        groups@,
                        gi as int,
                        glen as int,
                        gi as int + 1,
                        0,
                        out@[idx],
                    );
                }
            }
            gi = gi + 1;
        }
        proof {
            assert forall|n: usize|
                out@.contains(n) <==> (exists|q: usize|
                    self.dep_edge(solution@, n, q) || self.dep_edge(solution@, q, n)) by {
                if out@.contains(n) {
                    let idx = choose|idx: int| 0 <= idx < out@.len() && out@[idx] == n;
                    assert(from_groups(groups@, groups@.len() as int, 0, n));
                    assert(in_groups(groups@, n));
                }
                if exists|q: usize|
                    self.dep_edge(solution@, n, q) || self.dep_edge(solution@, q, n) {
                    assert(in_groups(groups@, n));
                    let (gi2, k2) = choose|gi2: int, k2: int|
                        0 <= gi2 < groups@.len() && 0 <= k2 < groups@[gi2]@.len() && (
                        #[trigger] groups@[gi2]@[k2]) == n;
                    assert(out@.contains(groups@[gi2]@[k2]));
                }
            }
        }
        out
    }
}

/// Membership in the part of the groups before position `(hi_g, hi_k)`.
pub open spec fn from_groups(gs: Seq<Vec<usize>>, hi_g: int, hi_k: int, x: usize) -> bool {
    exists|gi2: int, k2: int|
        0 <= gi2 < gs.len() && 0 <= k2 < gs[gi2]@.len() && (gi2 < hi_g || (gi2 == hi_g && k2
            < hi_k)) && (#[trigger] gs[gi2]@[k2]) == x
}

/// Membership before a position is membership before any later position.
proof fn lemma_from_groups_mono(gs: Seq<Vec<usize>>, g1: int, k1: int, g2: int, k2: int, x: usize)
    requires
        from_groups(gs, g1, k1, x),
        g1 < g2 || (g1 == g2 && k1 <= k2),
    ensures
        from_groups(gs, g2, k2, x),
{
    let (ga, ka) = choose|ga: int, ka: int|
        0 <= ga < gs.len() && 0 <= ka < gs[ga]@.len() && (ga < g1 || (ga == g1 && ka < k1)) && (
        #[trigger] gs[ga]@[ka]) == x;
    assert(0 <= ga < gs.len() && 0 <= ka < gs[ga]@.len() && (ga < g2 || (ga == g2 && ka < k2))
        && gs[ga]@[ka] == x);
}


} // verus!
