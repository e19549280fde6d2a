//! The provider queries the clause solver drives the search with: candidate
//! lookup, version-set filtering, and candidate ordering.
use vstd::prelude::*;

use crate::bytes::lex_cmp;
use crate::model::provide_matches;
use crate::universe::Universe;
use crate::universe::arch_satisfies;
use crate::version::range_matches;

verus! {

impl Universe {
    /// Whether solvable `s` carries or provides the version set's name at a
    /// version inside its range: its own name at its own version, or a
    /// `Provides` entry for the name whose pinned version (if any) lies in
    /// the range.
    pub open spec fn vs_name_matches(self, v: int, s: int) -> bool {
        let vs = self.version_sets@[v];
        let sv = self.solvables@[s];
        ||| (sv.name == vs.name && range_matches(vs.range, sv.package.version@))
        ||| match sv.package.provides {
            Result::Ok(list) => exists|j: int|
                0 <= j < list@.len() && list@[j].name@ == self.names@[vs.name as int].name@
                    && provide_matches(list@[j], vs.range),
            Result::Err(_) => false,
        }
    }

    /// Whether solvable `s` violates a plain reading of version set `v`: it
    /// is not the self-reference, its architecture satisfies the set's, and
    /// its name and version (or a `Provides`) match.
    pub open spec fn vs_raw_match(self, v: int, s: int) -> bool {
        &&& self.version_sets@[v].selfref != Option::Some(s as usize)
        &&& arch_satisfies(self.solvables@[s].arch, self.version_sets@[v].arch)
        &&& self.vs_name_matches(v, s)
    }

    /// Whether the filter keeps solvable `s` for version set `v`. For a
    /// plain set, `inverse` flips only the name/version clause: the
    /// self-reference and an unsatisfied architecture exclude regardless. A
    /// negated set (a prohibition) keeps exactly the candidates that do not
    /// violate it, and with `inverse` exactly the violators.
    pub open spec fn vs_selected(self, v: int, s: int, inverse: bool) -> bool {
        if self.version_sets@[v].negated {
            self.vs_raw_match(v, s) == inverse
        } else {
            &&& self.version_sets@[v].selfref != Option::Some(s as usize)
            &&& arch_satisfies(self.solvables@[s].arch, self.version_sets@[v].arch)
            &&& (self.vs_name_matches(v, s) != inverse)
        }
    }

    /// All solvables recorded under a name, or nothing when the bucket is
    /// empty.
    pub fn get_candidates(&self, name: usize) -> (r: Option<Vec<usize>>)
        requires
            name < self.names@.len(),
        ensures
            match r {
                Option::Some(v) => v@ == self.names@[name as int].packages@ && v@.len() > 0,
                Option::None => self.names@[name as int].packages@.len() == 0,
            },
    {
        let bucket = &self.names[name].packages;
        if bucket.len() == 0 {
            return None;
        }
        let mut v: Vec<usize> = Vec::new();
        let mut i: usize = 0;
        while i < bucket.len()
            invariant
                i <= bucket@.len(),
                v@ == bucket@.take(i as int),
            decreases bucket@.len() - i,
        {
            v.push(bucket[i]);
            assert(v@ =~= bucket@.take(i + 1 as int));
            i = i + 1;
        }
        assert(v@ =~= bucket@);
        Some(v)
    }

    /// The subset of `candidates` the version set keeps, in order.
    pub fn filter_candidates(&self, candidates: &[usize], version_set: usize, inverse: bool) -> (r:
        Vec<usize>)
        requires
            self.wf(),
            version_set < self.version_sets@.len(),
            forall|t: int| 0 <= t < candidates@.len() ==> (#[trigger] candidates@[t])
                < self.solvables@.len(),
        ensures
            r@ == candidates@.filter(
                |c: usize| self.vs_selected(version_set as int, c as int, inverse),
            ),
    {
        let ghost pred = |c: usize| self.vs_selected(version_set as int, c as int, inverse);
        let mut r: Vec<usize> = Vec::new();
        let mut i: usize = 0;
        proof {
            assert(candidates@.take(0).filter(pred) =~= Seq::<usize>::empty()) by {
                reveal(Seq::filter);
            }
        }
        while i < candidates.len()
            invariant
                i <= candidates@.len(),
                self.wf(),
                version_set < self.version_sets@.len(),
                forall|t: int| 0 <= t < candidates@.len() ==> (#[trigger] candidates@[t])
                    < self.solvables@.len(),
                pred == (|c: usize| self.vs_selected(version_set as int, c as int, inverse)),
                r@ == candidates@.take(i as int).filter(pred),
            decreases candidates@.len() - i,
        {
            let c = candidates[i];
            let keep = self.candidate_selected(c, version_set, inverse);
            if keep {
                r.push(c);
            }
            proof {
                reveal(Seq::filter);
                assert(candidates@.take(i + 1).drop_last() =~= candidates@.take(i as int));
                assert(candidates@.take(i + 1).last() == c);
            }
            i = i + 1;
        }
        proof {
            assert(candidates@.take(candidates@.len() as int) =~= candidates@);
        }
        r
    }

    /// Exec test for [`Universe::vs_selected`] on one candidate.
    pub fn candidate_selected(&self, c: usize, version_set: usize, inverse: bool) -> (keep: bool)
        requires
            self.wf(),
            version_set < self.version_sets@.len(),
            c < self.solvables@.len(),
        ensures
            keep == self.vs_selected(version_set as int, c as int, inverse),
    {
        let vs = &self.version_sets[version_set];
        let sv = &self.solvables[c];
        let effective = if vs.negated {
            !inverse
        } else {
            inverse
        };
        let is_selfref = match &vs.selfref {
            Option::Some(k) => *k == c,
            Option::None => false,
        };
        if is_selfref {
            return if vs.negated {
                effective
            } else {
                false
            };
        }
        if !crate::universe::arch_ok_for(sv.arch, vs.arch) {
            return if vs.negated {
                effective
            } else {
                false
            };
        }
        let own = sv.name == vs.name && vs.range.contains_version(sv.package.version.as_slice());
        if own {
            proof {
                assert(self.vs_name_matches(version_set as int, c as int));
            }
            return !effective;
        }
        proof {
            assert(self.vs_ok(version_set as int));
            assert(self.solvable_ok(c as int));
        }
        let sname = &self.names[vs.name].name;
        match &sv.package.provides {
            Result::Ok(list) => {
                let mut j: usize = 0;
                while j < list.len()
                    invariant
                        j <= list@.len(),
                        sv.package.provides == Result::<
                            Vec<crate::model::Provide>,
                            Vec<u8>,
                        >::Ok(*list),
                        sname@ == self.names@[self.version_sets@[version_set as int].name as int].name@,
                        self.wf(),
                        version_set < self.version_sets@.len(),
                        c < self.solvables@.len(),
                        sv == self.solvables@[c as int],
                        vs == self.version_sets@[version_set as int],
                        effective == if self.version_sets@[version_set as int].negated {
                            !inverse
                        } else {
                            inverse
                        },
                        self.version_sets@[version_set as int].selfref != Option::Some(c),
                        arch_satisfies(
                            self.solvables@[c as int].arch,
                            self.version_sets@[version_set as int].arch,
                        ),
                        forall|t: int|
                            0 <= t < j ==> !((#[trigger] list@[t]).name@ == sname@
                                && provide_matches(list@[t], self.version_sets@[
                                version_set as int
                            ].range)),
                    decreases list@.len() - j,
                {
                    if crate::bytes::bytes_eq(list[j].name.as_slice(), sname.as_slice())
                        && crate::model::provide_in_range(&list[j], &vs.range) {
                        proof {
                            assert(list@[j as int].name@ == sname@ && provide_matches(
                                list@[j as int],
                                self.version_sets@[version_set as int].range,
                            ));
                            assert(self.vs_name_matches(version_set as int, c as int));
                        }
                        return !effective;
                    }
                    j = j + 1;
                }
                proof {
                    assert(!self.vs_name_matches(version_set as int, c as int));
                }
                effective
            },
            Result::Err(_) => {
                proof {
                    assert(!self.vs_name_matches(version_set as int, c as int));
                }
                effective
            },
        }
    }

    /// The candidate order the solver tries: candidates whose architecture
    /// does not satisfy the preferred one come first, then ascending by
    /// package name, then ascending by version.
    pub open spec fn cand_cmp(self, x: int, y: int) -> int {
        let ax = arch_satisfies(self.solvables@[x].arch, self.arch);
        let ay = arch_satisfies(self.solvables@[y].arch, self.arch);
        if !ax && ay {
            -1
        } else if ax && !ay {
            1
        } else {
            let c = lex_cmp(self.solvables@[x].package.name@, self.solvables@[y].package.name@);
            if c != 0 {
                c
            } else {
                crate::version::version_cmp(
                    self.solvables@[x].package.version@,
                    self.solvables@[y].package.version@,
                )
            }
        }
    }

    /// The candidate order is antisymmetric.
    pub proof fn lemma_cand_cmp_antisym(self, x: int, y: int)
        ensures
            self.cand_cmp(x, y) == -self.cand_cmp(y, x),
    {
        crate::bytes::lemma_lex_cmp_antisym(
            self.solvables@[x].package.name@,
            self.solvables@[y].package.name@,
        );
        crate::version::lemma_version_cmp_antisym(
            self.solvables@[x].package.version@,
            self.solvables@[y].package.version@,
        );
    }

    /// Exec comparison of two candidates in the order of
    /// [`Universe::cand_cmp`].
    pub fn compare_candidates(&self, x: usize, y: usize) -> (r: i32)
        requires
            x < self.solvables@.len(),
            y < self.solvables@.len(),
        ensures
            r as int == self.cand_cmp(x as int, y as int),
    {
        let sx = &self.solvables[x];
        let sy = &self.solvables[y];
        let ax = crate::universe::arch_ok_for(sx.arch, self.arch);
        let ay = crate::universe::arch_ok_for(sy.arch, self.arch);
        if !ax && ay {
            -1
        } else if ax && !ay {
            1
        } else {
            let c = crate::bytes::compare_bytes(
                sx.package.name.as_slice(),
                sy.package.name.as_slice(),
            );
            if c != 0 {
                c
            } else {
                crate::version::compare_versions(
                    sx.package.version.as_slice(),
                    sy.package.version.as_slice(),
                )
            }
        }
    }

    /// First position in `out` whose candidate sorts strictly after `x`.
    fn insert_pos(&self, out: &Vec<usize>, x: usize) -> (p: usize)
        requires
            x < self.solvables@.len(),
            forall|t: int| 0 <= t < out@.len() ==> (#[trigger] out@[t]) < self.solvables@.len(),
        ensures
            p <= out@.len(),
            forall|k: int| 0 <= k < p ==> self.cand_cmp(#[trigger] out@[k] as int, x as int) <= 0,
            p < out@.len() ==> self.cand_cmp(out@[p as int] as int, x as int) > 0,
    {
        let mut p: usize = 0;
        while p < out.len()
            invariant
                p <= out@.len(),
                x < self.solvables@.len(),
                forall|t: int| 0 <= t < out@.len() ==> (#[trigger] out@[t]) < self.solvables@.len(),
                forall|k: int| 0 <= k < p ==> self.cand_cmp(#[trigger] out@[k] as int, x as int)
                    <= 0,
            decreases out@.len() - p,
        {
            if self.compare_candidates(out[p], x) > 0 {
                return p;
            }
            p = p + 1;
        }
        p
    }

    /// Sort candidates into the solver's try order: a permutation of the
    /// input, adjacent elements ordered by [`Universe::cand_cmp`].
    #[verifier::rlimit(40)]
    pub fn sort_candidates(&self, solvables: &mut Vec<usize>)
        requires
            forall|t: int| 0 <= t < old(solvables)@.len() ==> (#[trigger] old(solvables)@[t])
                < self.solvables@.len(),
        ensures
            final(solvables)@.to_multiset() == old(solvables)@.to_multiset(),
            final(solvables)@.len() == old(solvables)@.len(),
            forall|t: int| 0 <= t < final(solvables)@.len() ==> (#[trigger] final(solvables)@[t])
                < self.solvables@.len(),
            forall|i: int|
                0 <= i < final(solvables)@.len() - 1 ==> self.cand_cmp(
                    #[trigger] final(solvables)@[i] as int,
                    final(solvables)@[i + 1] as int,
                ) <= 0,
    {
        let mut out: Vec<usize> = Vec::new();
        let mut i: usize = 0;
        proof {
            broadcast use vstd::seq_lib::group_to_multiset_ensures;

            assert(solvables@.take(0).to_multiset() =~= Seq::<usize>::empty().to_multiset());
        }
        while i < solvables.len()
            invariant
                i <= solvables@.len(),
                *solvables == *old(solvables),
                forall|t: int| 0 <= t < solvables@.len() ==> (#[trigger] solvables@[t])
                    < self.solvables@.len(),
                out@.to_multiset() == solvables@.take(i as int).to_multiset(),
                out@.len() == i,
                forall|t: int| 0 <= t < out@.len() ==> (#[trigger] out@[t])
                    < self.solvables@.len(),
                forall|k: int|
                    0 <= k < out@.len() - 1 ==> self.cand_cmp(
                        #[trigger] out@[k] as int,
                        out@[k + 1] as int,
                    ) <= 0,
            decreases solvables@.len() - i,
        {
            let x = solvables[i];
            let p = self.insert_pos(&out, x);
            let ghost outpre = out@;
            out.insert(p, x);
            proof {
                broadcast use vstd::seq_lib::group_to_multiset_ensures;

                assert(out@ == outpre.insert(p as int, x));
                assert(out@.remove(p as int) =~= outpre);
                assert(out@.remove(p as int).to_multiset() =~= out@.to_multiset().remove(
                    out@[p as int],
                ));
                assert(out@.to_multiset().contains(x)) by {
                    assert(out@[p as int] == x);
                }
                assert(out@.to_multiset() =~= outpre.to_multiset().insert(x));
                assert(solvables@.take(i + 1).drop_last() =~= solvables@.take(i as int));
                assert(solvables@.take(i + 1) =~= solvables@.take(i as int).push(x));
                assert(out@.to_multiset() =~= solvables@.take(i + 1).to_multiset());
                assert forall|k: int|
                    0 <= k < out@.len() - 1 implies self.cand_cmp(
                    #[trigger] out@[k] as int,
                    out@[k + 1] as int,
                ) <= 0 by {
                    if k + 1 < p {
                        assert(out@[k] == outpre[k] && out@[k + 1] == outpre[k + 1]);
                    } else if k + 1 == p {
                        assert(out@[k] == outpre[k] && out@[k + 1] == x);
                    } else if k == p {
                        assert(out@[k] == x && out@[k + 1] == outpre[k]);
                        assert(self.cand_cmp(outpre[k] as int, x as int) > 0);
                        self.lemma_cand_cmp_antisym(outpre[k] as int, x as int);
                    } else {
                        assert(out@[k] == outpre[k - 1] && out@[k + 1] == outpre[k]);
                    }
                }
            }
            i = i + 1;
        }
        proof {
            assert(solvables@.take(solvables@.len() as int) =~= solvables@);
        }
        *solvables = out;
    }
}

} // verus!
