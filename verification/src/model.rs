//! Parsed package records: the input the universe is built from.
//!
//! The control-file parser is an outside collaborator; it hands the core
//! records whose fields are already split into byte strings, flags and parsed
//! dependency constraints. A field that failed to parse carries the parse
//! error message instead, so the resolver can exclude the package and report
//! why.
use vstd::prelude::*;

use crate::version::VersionRange;
use crate::version::range_eqv;
use crate::version::range_matches;

verus! {

/// One parsed dependency element: an optional architecture qualifier, a
/// package name, and a version range.
#[derive(Clone, Debug)]
pub struct Constraint {
    pub arch: Option<Vec<u8>>,
    pub name: Vec<u8>,
    pub range: VersionRange,
}

/// One entry of a `Depends`/`Pre-Depends` list: a single constraint or a
/// union of alternatives (Debian `|`), in priority order.
#[derive(Clone, Debug)]
pub enum Dependency {
    Single(Constraint),
    Union(Vec<Constraint>),
}

/// One `Provides` declaration: a name, optionally pinned to an exact version.
#[derive(Clone, Debug)]
pub struct Provide {
    pub name: Vec<u8>,
    pub version: Option<Vec<u8>>,
}

/// A parsed package paragraph. `Err` fields hold the parse error message of
/// a field that could not be parsed.
#[derive(Debug)]
pub struct PackageRecord {
    pub name: Vec<u8>,
    pub architecture: Vec<u8>,
    pub version: Vec<u8>,
    pub essential: bool,
    pub required: bool,
    pub provides: Result<Vec<Provide>, Vec<u8>>,
    pub pre_depends: Result<Vec<Dependency>, Vec<u8>>,
    pub depends: Result<Vec<Dependency>, Vec<u8>>,
    pub conflicts: Result<Vec<Constraint>, Vec<u8>>,
    pub breaks: Result<Vec<Constraint>, Vec<u8>>,
}

/// Spec equality of two constraints: same qualifier, name and range.
pub open spec fn constraint_eqv(a: Constraint, b: Constraint) -> bool {
    &&& match (a.arch, b.arch) {
        (Option::None, Option::None) => true,
        (Option::Some(x), Option::Some(y)) => x@ == y@,
        _ => false,
    }
    &&& a.name@ == b.name@
    &&& range_eqv(a.range, b.range)
}

/// Whether a package declares (or is) the given name: its own name counts,
/// and so does every parsed `Provides` entry.
pub open spec fn provides_name_spec(p: PackageRecord, n: Seq<u8>) -> bool {
    ||| p.name@ == n
    ||| match p.provides {
        Result::Ok(list) => exists|j: int| 0 <= j < list@.len() && list@[j].name@ == n,
        Result::Err(_) => false,
    }
}

/// Whether one `Provides` entry satisfies a version range: an unversioned
/// provide satisfies only an unconstrained range; a versioned provide
/// satisfies a range its pinned version lies in.
pub open spec fn provide_matches(pv: Provide, r: VersionRange) -> bool {
    match pv.version {
        Option::None => r is Whole,
        Option::Some(v) => range_matches(r, v@),
    }
}

impl PackageRecord {
    /// Exec test for [`provides_name_spec`].
    pub fn provides_name(&self, n: &[u8]) -> (r: bool)
        ensures
            r == provides_name_spec(*self, n@),
    {
        if crate::bytes::bytes_eq(self.name.as_slice(), n) {
            return true;
        }
        match &self.provides {
            Result::Ok(list) => {
                proof {
                    assert(self.provides == Result::<Vec<Provide>, Vec<u8>>::Ok(*list));
                }
                let mut j: usize = 0;
                while j < list.len()
                    invariant
                        j <= list.len(),
                        self.provides == Result::<Vec<Provide>, Vec<u8>>::Ok(*list),
                        forall|k: int| 0 <= k < j ==> list@[k].name@ != n@,
                    decreases list.len() - j,
                {
                    let pv: &Provide = &list[j];
                    if crate::bytes::bytes_eq(pv.name.as_slice(), n) {
                        proof {
                            let wl = self.provides->Ok_0;
                            assert(wl == *list);
                            assert(wl@[j as int].name@ == n@);
                        }
                        return true;
                    }
                    j = j + 1;
                }
                false
            },
            Result::Err(_) => false,
        }
    }

    /// True when every dependency-bearing field of the record parsed: the
    /// provider can materialize known dependencies for it.
    pub open spec fn deps_parse_ok(self) -> bool {
        self.pre_depends is Ok && self.depends is Ok && self.conflicts is Ok
            && self.breaks is Ok
    }

    /// The requirement-side dependency list: `Pre-Depends` then `Depends`.
    pub open spec fn flat_depends(self) -> Seq<Dependency>
        recommends
            self.pre_depends is Ok,
            self.depends is Ok,
    {
        self.pre_depends->Ok_0@ + self.depends->Ok_0@
    }

    /// The constraint-side list: `Conflicts` then `Breaks`.
    pub open spec fn flat_constrains(self) -> Seq<Constraint>
        recommends
            self.conflicts is Ok,
            self.breaks is Ok,
    {
        self.conflicts->Ok_0@ + self.breaks->Ok_0@
    }
}

/// Exec test for [`provide_matches`].
pub fn provide_in_range(pv: &Provide, r: &VersionRange) -> (b: bool)
    ensures
        b == provide_matches(*pv, *r),
{
    match &pv.version {
        Option::None => match r {
            VersionRange::Whole => true,
            VersionRange::Bounded(_, _) => false,
        },
        Option::Some(v) => r.contains_version(v.as_slice()),
    }
}

/// Deep copy of a version range.
pub fn clone_range(r: &VersionRange) -> (c: VersionRange)
    ensures
        range_eqv(c, *r),
{
    match r {
        VersionRange::Whole => VersionRange::Whole,
        VersionRange::Bounded(rel, v) => VersionRange::Bounded(
            *rel,
            crate::universe::copy_bytes(v.as_slice()),
        ),
    }
}

/// Deep copy of a constraint.
pub fn clone_constraint(c: &Constraint) -> (r: Constraint)
    ensures
        constraint_eqv(r, *c),
{
    let arch = match &c.arch {
        Option::None => Option::None,
        Option::Some(a) => Option::Some(crate::universe::copy_bytes(a.as_slice())),
    };
    Constraint { arch, name: crate::universe::copy_bytes(c.name.as_slice()), range: clone_range(&c.range) }
}

/// Spec equality of dependencies: same shape, element-wise equal constraints.
pub open spec fn dependency_eqv(a: Dependency, b: Dependency) -> bool {
    match (a, b) {
        (Dependency::Single(x), Dependency::Single(y)) => constraint_eqv(x, y),
        (Dependency::Union(xs), Dependency::Union(ys)) => xs@.len() == ys@.len() && forall|k: int|
            0 <= k < xs@.len() ==> constraint_eqv(#[trigger] xs@[k], ys@[k]),
        _ => false,
    }
}

/// Deep copy of a dependency.
pub fn clone_dependency(d: &Dependency) -> (r: Dependency)
    ensures
        dependency_eqv(r, *d),
{
    match d {
        Dependency::Single(c) => Dependency::Single(clone_constraint(c)),
        Dependency::Union(cs) => {
            let mut v: Vec<Constraint> = Vec::new();
            let mut i: usize = 0;
            while i < cs.len()
                invariant
                    i <= cs@.len(),
                    v@.len() == i,
                    forall|k: int| 0 <= k < i ==> constraint_eqv(#[trigger] v@[k], cs@[k]),
                decreases cs@.len() - i,
            {
                let c = clone_constraint(&cs[i]);
                v.push(c);
                i = i + 1;
            }
            Dependency::Union(v)
        },
    }
}

/// A dependency of a well-shaped record: a union holds at least one
/// alternative, as the Debian grammar guarantees.
pub open spec fn dep_shape_ok(d: Dependency) -> bool {
    match d {
        Dependency::Single(_) => true,
        Dependency::Union(cs) => cs@.len() >= 1,
    }
}

impl PackageRecord {
    /// All dependency lists of the record are well-shaped.
    pub open spec fn deps_shape_ok(self) -> bool {
        &&& (self.pre_depends is Ok ==> forall|i: int|
            0 <= i < self.pre_depends->Ok_0@.len() ==> dep_shape_ok(
                #[trigger] self.pre_depends->Ok_0@[i],
            ))
        &&& (self.depends is Ok ==> forall|i: int|
            0 <= i < self.depends->Ok_0@.len() ==> dep_shape_ok(#[trigger] self.depends->Ok_0@[i]))
    }
}

} // verus!
