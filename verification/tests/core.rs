//! Unit tests of the core components: version ordering, candidate
//! filtering, candidate ordering, universe construction, dependency
//! materialization and post-solve ordering.
use debuniverse::model::Constraint;
use debuniverse::model::Dependency;
use debuniverse::model::PackageRecord;
use debuniverse::model::Provide;
use debuniverse::universe::Requirement;
use debuniverse::universe::SolvableDeps;
use debuniverse::universe::Universe;
use debuniverse::version::Rel;
use debuniverse::version::VersionRange;
use debuniverse::version::compare_versions;

fn record(name: &str, arch: &str, version: &str) -> PackageRecord {
    PackageRecord {
        name: name.as_bytes().to_vec(),
        architecture: arch.as_bytes().to_vec(),
        version: version.as_bytes().to_vec(),
        essential: false,
        required: false,
        provides: Ok(vec![]),
        pre_depends: Ok(vec![]),
        depends: Ok(vec![]),
        conflicts: Ok(vec![]),
        breaks: Ok(vec![]),
    }
}

fn whole(name: &str) -> Constraint {
    Constraint {
        arch: None,
        name: name.as_bytes().to_vec(),
        range: VersionRange::Whole,
    }
}

fn bounded(name: &str, rel: Rel, version: &str) -> Constraint {
    Constraint {
        arch: None,
        name: name.as_bytes().to_vec(),
        range: VersionRange::Bounded(rel, version.as_bytes().to_vec()),
    }
}

fn cmp(a: &str, b: &str) -> i32 {
    compare_versions(a.as_bytes(), b.as_bytes())
}

#[test]
fn version_ordering_basics() {
    assert_eq!(cmp("1.0", "1.0"), 0);
    assert_eq!(cmp("1.0", "2.0"), -1);
    assert_eq!(cmp("2.0", "1.0"), 1);
    assert_eq!(cmp("1.10", "1.9"), 1);
    assert_eq!(cmp("1.007", "1.7"), 0);
    assert_eq!(cmp("1.0", "1.0-0"), 0);
    assert_eq!(cmp("1.0-1", "1.0-2"), -1);
}

#[test]
fn version_ordering_tilde() {
    // A tilde sorts before anything, even the end of the string.
    assert_eq!(cmp("2.35.1-1", "2.35.1~"), 1);
    assert_eq!(cmp("2.35.1~", "2.35.1"), -1);
    assert_eq!(cmp("2.35.1-1", "2.35.1A"), -1);
    assert_eq!(cmp("1.5~alpha4~", "1.5~alpha4"), -1);
    assert_eq!(cmp("2.6.1", "1.5~alpha4~"), 1);
    assert_eq!(cmp("2.38.1-5+deb12u2", "2.38~"), 1);
}

#[test]
fn version_ordering_epoch_and_letters() {
    assert_eq!(cmp("1:0.1", "2.0"), 1);
    assert_eq!(cmp("2:0.1", "1:9.9"), 1);
    assert_eq!(cmp("1.0a", "1.0"), 1);
    // Letters sort before non-letters inside a part.
    assert_eq!(cmp("1.0a", "1.0+"), -1);
}

#[test]
fn range_membership() {
    let r = VersionRange::Bounded(Rel::LaterEq, b"2.35.1~".to_vec());
    assert!(r.contains_version(b"2.35.1-1"));
    assert!(!r.contains_version(b"2.35.0"));
    let r = VersionRange::Bounded(Rel::Earlier, b"2.35.1A".to_vec());
    assert!(r.contains_version(b"2.35.1-1"));
    assert!(!r.contains_version(b"2.35.1B"));
    assert!(VersionRange::Whole.contains_version(b"anything"));
}

#[test]
fn construction_and_buckets() {
    let mut alpha = record("alpha", "amd64", "2.6.1");
    alpha.provides = Ok(vec![Provide {
        name: b"beta".to_vec(),
        version: Some(b"2.6.1".to_vec()),
    }]);
    let beta = record("beta", "amd64", "1.0");
    let uni = Universe::new(b"amd64", vec![vec![alpha, beta]]).unwrap();
    // alpha is solvable 0 and beta solvable 1; the bucket of "beta" holds both.
    let beta_name = uni.solvable_name(1);
    let cands = uni.get_candidates(beta_name).unwrap();
    assert_eq!(cands, vec![0, 1]);
    assert_eq!(uni.display_solvable(0), b"alpha:amd64=2.6.1".to_vec());
    assert_eq!(uni.display_solvable(1), b"beta:amd64=1.0".to_vec());
}

#[test]
fn construction_rejects_bad_provides() {
    let mut alpha = record("alpha", "amd64", "1.0");
    alpha.provides = Err(b"bad provides field".to_vec());
    assert!(Universe::new(b"amd64", vec![vec![alpha]]).is_err());
}

#[test]
fn dependencies_unknown_on_parse_error() {
    let mut alpha = record("alpha", "amd64", "1.0");
    alpha.depends = Err(b"garbled".to_vec());
    let mut uni = Universe::new(b"amd64", vec![vec![alpha]]).unwrap();
    match uni.get_dependencies(0) {
        SolvableDeps::Unknown(m) => {
            let msg = uni.display_string(m).clone();
            let text = String::from_utf8(msg).unwrap();
            assert!(text.contains("alpha:amd64=1.0"));
            assert!(text.contains("garbled"));
        }
        SolvableDeps::Known(_, _) => panic!("dependencies should be unknown"),
    }
}

#[test]
fn filter_by_version_and_provides() {
    let mut alpha = record("alpha", "amd64", "2.6.1");
    alpha.provides = Ok(vec![Provide {
        name: b"beta".to_vec(),
        version: Some(b"2.6.1".to_vec()),
    }]);
    let beta = record("beta", "amd64", "1.0");
    let mut uni = Universe::new(b"amd64", vec![vec![alpha, beta]]).unwrap();
    // Requirement beta (>= 2.0): only alpha (via its provide) matches.
    let problem = uni.problem(
        vec![Dependency::Single(bounded("beta", Rel::LaterEq, "2.0"))],
        vec![],
    );
    let vs = match problem.requirements[0] {
        Requirement::Single(v) => v,
        Requirement::Union(_) => panic!("single expected"),
    };
    assert_eq!(uni.filter_candidates(&[0, 1], vs, false), vec![0]);
    assert_eq!(uni.filter_candidates(&[0, 1], vs, true), vec![1]);
}

#[test]
fn filter_excludes_selfref() {
    // alpha provides beta and breaks beta: the break constraint never
    // matches alpha itself, and (negated) it allows alpha.
    let mut alpha = record("alpha", "amd64", "1.0");
    alpha.provides = Ok(vec![Provide {
        name: b"beta".to_vec(),
        version: None,
    }]);
    alpha.breaks = Ok(vec![whole("beta")]);
    let mut uni = Universe::new(b"amd64", vec![vec![alpha]]).unwrap();
    let (_reqs, cons) = match uni.get_dependencies(0) {
        SolvableDeps::Known(r, c) => (r, c),
        SolvableDeps::Unknown(_) => panic!("known expected"),
    };
    assert_eq!(cons.len(), 1);
    // With `inverse` the filter yields the violators: none, because the
    // self-reference is never a violator of its own constraint.
    assert_eq!(uni.filter_candidates(&[0], cons[0], true), Vec::<usize>::new());
}

#[test]
fn arch_mismatch_excludes() {
    let alpha_amd = record("alpha", "amd64", "1.0");
    let alpha_arm = record("alpha", "arm64", "1.0");
    let alpha_all = record("alpha", "all", "1.0");
    let mut uni = Universe::new(b"amd64", vec![vec![alpha_amd, alpha_arm, alpha_all]]).unwrap();
    let mut c = whole("alpha");
    c.arch = Some(b"amd64".to_vec());
    let problem = uni.problem(vec![Dependency::Single(c)], vec![]);
    let vs = match problem.requirements[0] {
        Requirement::Single(v) => v,
        Requirement::Union(_) => panic!("single expected"),
    };
    // The arm64 candidate does not satisfy an amd64 constraint; `all` does.
    assert_eq!(uni.filter_candidates(&[0, 1, 2], vs, false), vec![0, 2]);
}

#[test]
fn candidate_order_prefers_native_arch_last() {
    let a_foreign = record("alpha", "arm64", "1.0");
    let a_native_old = record("alpha", "amd64", "1.0");
    let a_native_new = record("alpha", "amd64", "2.0");
    let uni = Universe::new(
        b"amd64",
        vec![vec![a_native_new, a_foreign, a_native_old]],
    )
    .unwrap();
    let mut ids = vec![0usize, 1, 2];
    uni.sort_candidates(&mut ids);
    // Foreign arch first, then natives ascending by version.
    assert_eq!(ids, vec![1, 2, 0]);
}

#[test]
fn essential_package_is_seeded() {
    let mut base = record("base-files", "amd64", "12.4");
    base.essential = true;
    let other = record("alpha", "amd64", "1.0");
    let mut uni = Universe::new(b"amd64", vec![vec![base, other]]).unwrap();
    let problem = uni.problem(vec![Dependency::Single(whole("alpha"))], vec![]);
    // One user requirement plus the seeded baseline pin of base-files.
    assert_eq!(problem.requirements.len(), 2);
    let vs = match problem.requirements[1] {
        Requirement::Single(v) => v,
        Requirement::Union(_) => panic!("single pin expected"),
    };
    // The seeded pin matches exactly the essential solvable.
    assert_eq!(uni.filter_candidates(&[0, 1], vs, false), vec![0]);
}

#[test]
fn graph_and_install_order() {
    // alpha depends on beta, beta depends on gamma; install order must put
    // gamma before beta before alpha.
    let mut alpha = record("alpha", "amd64", "1.0");
    alpha.depends = Ok(vec![Dependency::Single(whole("beta"))]);
    let mut beta = record("beta", "amd64", "1.0");
    beta.depends = Ok(vec![Dependency::Single(whole("gamma"))]);
    let gamma = record("gamma", "amd64", "1.0");
    let mut uni = Universe::new(b"amd64", vec![vec![alpha, beta, gamma]]).unwrap();
    let mut sol = vec![2usize, 0, 1];
    let edges = uni.dependency_graph(&mut sol);
    assert_eq!(sol, vec![0, 1, 2]);
    let mut e = edges.clone();
    e.sort();
    assert_eq!(e, vec![(0, 1), (1, 2)]);
    let mut sol2 = vec![0usize, 1, 2];
    let order = uni.sort_solution(&mut sol2);
    assert_eq!(order, vec![2, 1, 0]);
}

#[test]
fn install_order_groups_mutual_dependencies() {
    // alpha and beta depend on each other: one strongly-connected
    // component, listed consecutively, and gamma (their dependency) first.
    let mut alpha = record("alpha", "amd64", "1.0");
    alpha.depends = Ok(vec![
        Dependency::Single(whole("beta")),
        Dependency::Single(whole("gamma")),
    ]);
    let mut beta = record("beta", "amd64", "1.0");
    beta.depends = Ok(vec![Dependency::Single(whole("alpha"))]);
    let gamma = record("gamma", "amd64", "1.0");
    let mut uni = Universe::new(b"amd64", vec![vec![alpha, beta, gamma]]).unwrap();
    let mut sol = vec![0usize, 1, 2];
    let order = uni.sort_solution(&mut sol);
    assert_eq!(order.len(), 3);
    assert_eq!(order[0], 2);
    let pair = vec![order[1], order[2]];
    assert!(pair == vec![0, 1] || pair == vec![1, 0]);
}

#[test]
fn install_order_idempotent() {
    let mut alpha = record("alpha", "amd64", "1.0");
    alpha.depends = Ok(vec![Dependency::Single(whole("beta"))]);
    let beta = record("beta", "amd64", "1.0");
    let lonely = record("omega", "amd64", "9");
    let mut uni = Universe::new(b"amd64", vec![vec![alpha, beta, lonely]]).unwrap();
    let mut sol = vec![0usize, 1, 2];
    let once = uni.sort_solution(&mut sol);
    let mut sol2 = once.clone();
    let twice = uni.sort_solution(&mut sol2);
    let mut a = once.clone();
    let mut b = twice.clone();
    a.sort();
    b.sort();
    assert_eq!(a, b);
}

#[test]
fn union_requirement_interns_alternatives_in_order() {
    let alpha = record("alpha", "amd64", "1.0");
    let mut uni = Universe::new(b"amd64", vec![vec![alpha]]).unwrap();
    let problem = uni.problem(
        vec![Dependency::Union(vec![
            bounded("beta", Rel::Exact, "1.0"),
            whole("omega"),
        ])],
        vec![],
    );
    let u = match problem.requirements[0] {
        Requirement::Union(u) => u,
        Requirement::Single(_) => panic!("union expected"),
    };
    let members = uni.version_sets_in_union(u).clone();
    assert_eq!(members.len(), 2);
    assert_eq!(
        uni.display_version_set(members[0]),
        b"beta (= 1.0)".to_vec()
    );
    assert_eq!(uni.display_version_set(members[1]), b"omega".to_vec());
}

#[test]
fn merged_solvables_display() {
    let alpha = record("alpha", "amd64", "1.0");
    let beta = record("beta", "amd64", "2.0");
    let uni = Universe::new(b"amd64", vec![vec![alpha, beta]]).unwrap();
    assert_eq!(
        uni.display_merged_solvables(&[0, 1]),
        b"alpha=1.0, beta=2.0".to_vec()
    );
    assert_eq!(uni.display_merged_solvables(&[1]), b"beta=2.0".to_vec());
    assert_eq!(uni.display_merged_solvables(&[]), Vec::<u8>::new());
}

#[test]
fn install_groups_reverse_topological() {
    let mut alpha = record("alpha", "amd64", "1.0");
    alpha.depends = Ok(vec![
        Dependency::Single(whole("beta")),
        Dependency::Single(whole("gamma")),
    ]);
    let mut beta = record("beta", "amd64", "1.0");
    beta.depends = Ok(vec![Dependency::Single(whole("alpha"))]);
    let gamma = record("gamma", "amd64", "1.0");
    let mut uni = Universe::new(b"amd64", vec![vec![alpha, beta, gamma]]).unwrap();
    let mut sol = vec![0usize, 1, 2];
    let groups = uni.install_groups(&mut sol);
    // gamma is its own component and precedes the mutual alpha/beta pair,
    // which forms a single component.
    assert_eq!(groups.len(), 2);
    assert_eq!(groups[0], vec![2]);
    let mut pair = groups[1].clone();
    pair.sort();
    assert_eq!(pair, vec![0, 1]);
}
