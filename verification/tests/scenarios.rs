//! End-to-end scenarios: the universe drives resolvo's clause solver through
//! the provider queries of the library.
use std::cell::RefCell;
use std::fmt::Display;

use debuniverse::model::Constraint;
use debuniverse::model::Dependency;
use debuniverse::model::PackageRecord;
use debuniverse::model::Provide;
use debuniverse::universe::Requirement;
use debuniverse::universe::SolvableDeps;
use debuniverse::universe::Universe;
use debuniverse::version::Rel;
use debuniverse::version::VersionRange;
use resolvo::Candidates;
use resolvo::Condition;
use resolvo::ConditionId;
use resolvo::Dependencies;
use resolvo::DependencyProvider;
use resolvo::DenseIndex;
use resolvo::HintDependenciesAvailable;
use resolvo::Interner;
use resolvo::KnownDependencies;
use resolvo::SolverCache;
use resolvo::UnsolvableOrCancelled;

struct UniverseProvider {
    uni: RefCell<Universe>,
}

fn to_string_lossy(v: Vec<u8>) -> String {
    String::from_utf8(v).expect("display strings are ASCII")
}

impl Interner for UniverseProvider {
    type NameId = resolvo::NameId;
    type SolvableId = resolvo::SolvableId;

    fn display_solvable(&self, solvable: Self::SolvableId) -> impl Display + '_ {
        to_string_lossy(self.uni.borrow().display_solvable(solvable.to_index()))
    }

    fn display_name(&self, name: Self::NameId) -> impl Display + '_ {
        to_string_lossy(self.uni.borrow().display_name(name.to_index()).clone())
    }

    fn display_version_set(&self, version_set: resolvo::VersionSetId) -> impl Display + '_ {
        to_string_lossy(self.uni.borrow().display_version_set(version_set.to_index()))
    }

    fn display_string(&self, string_id: resolvo::StringId) -> impl Display + '_ {
        to_string_lossy(self.uni.borrow().display_string(string_id.to_index()).clone())
    }

    fn version_set_name(&self, version_set: resolvo::VersionSetId) -> Self::NameId {
        resolvo::NameId::from_index(self.uni.borrow().version_set_name(version_set.to_index()))
    }

    fn solvable_name(&self, solvable: Self::SolvableId) -> Self::NameId {
        resolvo::NameId::from_index(self.uni.borrow().solvable_name(solvable.to_index()))
    }

    fn version_sets_in_union(
        &self,
        version_set_union: resolvo::VersionSetUnionId,
    ) -> impl Iterator<Item = resolvo::VersionSetId> {
        let ids: Vec<usize> = self
            .uni
            .borrow()
            .version_sets_in_union(version_set_union.to_index())
            .clone();
        ids.into_iter().map(resolvo::VersionSetId::from_index)
    }

    fn resolve_condition(&self, _condition: ConditionId) -> Condition {
        unreachable!("the universe never emits conditional requirements")
    }
}

impl DependencyProvider for UniverseProvider {
    async fn filter_candidates(
        &self,
        candidates: &[Self::SolvableId],
        version_set: resolvo::VersionSetId,
        inverse: bool,
    ) -> Vec<Self::SolvableId> {
        let plain: Vec<usize> = candidates.iter().map(|s| s.to_index()).collect();
        self.uni
            .borrow()
            .filter_candidates(&plain, version_set.to_index(), inverse)
            .into_iter()
            .map(resolvo::SolvableId::from_index)
            .collect()
    }

    async fn get_candidates(&self, name: Self::NameId) -> Option<Candidates<Self::SolvableId>> {
        self.uni.borrow().get_candidates(name.to_index()).map(|v| {
            let ids: Vec<resolvo::SolvableId> = v
                .into_iter()
                .map(resolvo::SolvableId::from_index)
                .collect();
            Candidates {
                candidates: ids.clone(),
                hint_dependencies_available: HintDependenciesAvailable::Some(ids),
                ..Candidates::default()
            }
        })
    }

    async fn sort_candidates(
        &self,
        _solver: &SolverCache<Self>,
        solvables: &mut [Self::SolvableId],
    ) {
        let mut plain: Vec<usize> = solvables.iter().map(|s| s.to_index()).collect();
        self.uni.borrow().sort_candidates(&mut plain);
        for (slot, id) in solvables.iter_mut().zip(plain.into_iter()) {
            *slot = resolvo::SolvableId::from_index(id);
        }
    }

    async fn get_dependencies(&self, solvable: Self::SolvableId) -> Dependencies {
        match self.uni.borrow_mut().get_dependencies(solvable.to_index()) {
            SolvableDeps::Unknown(m) => Dependencies::Unknown(resolvo::StringId::from_index(m)),
            SolvableDeps::Known(reqs, cons) => Dependencies::Known(KnownDependencies {
                requirements: reqs
                    .into_iter()
                    .map(|r| match r {
                        Requirement::Single(v) => resolvo::Requirement::Single(
                            resolvo::VersionSetId::from_index(v),
                        )
                        .into(),
                        Requirement::Union(u) => resolvo::Requirement::Union(
                            resolvo::VersionSetUnionId::from_index(u),
                        )
                        .into(),
                    })
                    .collect(),
                constrains: cons
                    .into_iter()
                    .map(resolvo::VersionSetId::from_index)
                    .collect(),
            }),
        }
    }
}

fn record(name: &str, arch: &str, version: &str) -> PackageRecord {
    PackageRecord {
        name: name.as_bytes().to_vec(),
        architecture: arch.as_bytes().to_vec(),
        version: version.as_bytes().to_vec(),
        essential: false,
        required: false,
        provides: Ok(vec![]),
        pre_depends: Ok(vec![]),
        depends: Ok(vec![]),
        conflicts: Ok(vec![]),
        breaks: Ok(vec![]),
    }
}

fn whole(name: &str) -> Constraint {
    Constraint {
        arch: None,
        name: name.as_bytes().to_vec(),
        range: VersionRange::Whole,
    }
}

fn bounded(name: &str, rel: Rel, version: &str) -> Constraint {
    Constraint {
        arch: None,
        name: name.as_bytes().to_vec(),
        range: VersionRange::Bounded(rel, version.as_bytes().to_vec()),
    }
}

fn provide(name: &str, version: Option<&str>) -> Provide {
    Provide {
        name: name.as_bytes().to_vec(),
        version: version.map(|v| v.as_bytes().to_vec()),
    }
}

fn solve_sorted(packages: Vec<PackageRecord>, requires: Vec<&str>) -> Vec<String> {
    solve_constrained(packages, requires, vec![])
}

fn solve_constrained(
    packages: Vec<PackageRecord>,
    requires: Vec<&str>,
    constraints: Vec<Constraint>,
) -> Vec<String> {
    let mut uni = Universe::new(b"amd64", vec![packages]).expect("universe construction");
    let reqs: Vec<Dependency> = requires
        .into_iter()
        .map(|n| Dependency::Single(whole(n)))
        .collect();
    let problem = uni.problem(reqs, constraints);
    let provider = UniverseProvider {
        uni: RefCell::new(uni),
    };
    let mut solver = resolvo::Solver::new(provider);
    let p = resolvo::Problem::new()
        .requirements(
            problem
                .requirements
                .iter()
                .map(|r| match r {
                    Requirement::Single(v) => resolvo::Requirement::Single(
                        resolvo::VersionSetId::from_index(*v),
                    )
                    .into(),
                    Requirement::Union(u) => resolvo::Requirement::Union(
                        resolvo::VersionSetUnionId::from_index(*u),
                    )
                    .into(),
                })
                .collect(),
        )
        .constraints(
            problem
                .constraints
                .iter()
                .map(|v| resolvo::VersionSetId::from_index(*v))
                .collect(),
        );
    let solution = match solver.solve(p) {
        Ok(solution) => solution,
        Err(UnsolvableOrCancelled::Unsolvable(conflict)) => {
            panic!("{}", conflict.display_user_friendly(&solver))
        }
        Err(err) => panic!("{:?}", err),
    };
    let mut out: Vec<String> = solution
        .into_iter()
        .map(|s| {
            to_string_lossy(
                solver
                    .provider()
                    .uni
                    .borrow()
                    .display_solvable(s.to_index()),
            )
        })
        .collect();
    out.sort();
    out
}

#[test]
fn self_dependent() {
    let mut alpha = record("alpha", "amd64", "1.0");
    alpha.provides = Ok(vec![provide("beta", None)]);
    alpha.breaks = Ok(vec![whole("beta")]);
    assert_eq!(solve_sorted(vec![alpha], vec!["alpha"]), vec!["alpha:amd64=1.0"]);
}

#[test]
fn absent() {
    let mut alpha = record("alpha", "amd64", "1.0");
    alpha.conflicts = Ok(vec![whole("beta")]);
    assert_eq!(solve_sorted(vec![alpha], vec!["alpha"]), vec!["alpha:amd64=1.0"]);
}

#[test]
fn absent_2() {
    let mut alpha = record("alpha", "amd64", "1.0");
    alpha.depends = Ok(vec![Dependency::Union(vec![
        bounded("beta", Rel::Exact, "1.0"),
        whole("omega"),
    ])]);
    let beta = record("beta", "amd64", "1.0");
    assert_eq!(
        solve_sorted(vec![alpha, beta], vec!["alpha"]),
        vec!["alpha:amd64=1.0", "beta:amd64=1.0"]
    );
}

#[test]
fn mutual() {
    let mut alpha = record("alpha", "amd64", "2.6.1");
    alpha.provides = Ok(vec![provide("beta", Some("2.6.1"))]);
    alpha.breaks = Ok(vec![bounded("beta", Rel::EarlierEq, "1.5~alpha4~")]);
    let mut beta = record("beta", "amd64", "2.6.1");
    beta.depends = Ok(vec![Dependency::Single(bounded(
        "alpha",
        Rel::LaterEq,
        "1.5~alpha4~",
    ))]);
    assert_eq!(
        solve_sorted(vec![alpha, beta], vec!["alpha"]),
        vec!["alpha:amd64=2.6.1"]
    );
}

#[test]
fn dep_break() {
    let mut alpha = record("alpha", "amd64", "2.38.1-5+deb12u2");
    alpha.depends = Ok(vec![Dependency::Single(whole("beta"))]);
    let mut beta = record("beta", "amd64", "2.38.1-5+deb12u2");
    beta.breaks = Ok(vec![bounded("alpha", Rel::EarlierEq, "2.38~")]);
    assert_eq!(
        solve_sorted(vec![alpha, beta], vec!["alpha"]),
        vec![
            "alpha:amd64=2.38.1-5+deb12u2",
            "beta:amd64=2.38.1-5+deb12u2"
        ]
    );
}

#[test]
fn dep_range() {
    let mut kc = record("keyboard-configuration", "all", "1.221");
    kc.depends = Ok(vec![
        Dependency::Single(bounded("xkb-data", Rel::LaterEq, "2.35.1~")),
        Dependency::Single(bounded("xkb-data", Rel::Earlier, "2.35.1A")),
    ]);
    let xkb = record("xkb-data", "all", "2.35.1-1");
    assert_eq!(
        solve_sorted(vec![kc, xkb], vec!["keyboard-configuration"]),
        vec!["keyboard-configuration:all=1.221", "xkb-data:all=2.35.1-1"]
    );
}

#[test]
fn user_constraint_prohibits_versions() {
    // A problem constraint is a prohibition: no selected solvable may match
    // it. Forbidding alpha (<< 2.0) leaves only the newer candidate.
    let old = record("alpha", "amd64", "1.0");
    let new = record("alpha", "amd64", "2.5");
    assert_eq!(
        solve_constrained(
            vec![old, new],
            vec!["alpha"],
            vec![bounded("alpha", Rel::Earlier, "2.0")],
        ),
        vec!["alpha:amd64=2.5"]
    );
}
