//! The interning universe: dense integer ids for architectures, strings,
//! names, version sets and unions, and the index of all solvables.
//!
//! All tables are append-only: an id, once handed out, keeps denoting the
//! same entry. Architecture id 0 is reserved for `Any` (the Debian
//! `all`/`any` keyword), which satisfies and is satisfied by every
//! architecture.
use vstd::prelude::*;

use crate::bytes::lower_seq;
use crate::model::Constraint;
use crate::model::Dependency;
use crate::model::PackageRecord;
use crate::model::provides_name_spec;
use crate::version::VersionRange;
use crate::version::range_eqv;

verus! {

/// The byte string `any`.
pub open spec fn any_bytes() -> Seq<u8> {
    seq![97u8, 110u8, 121u8]
}

/// The byte string `all`.
pub open spec fn all_bytes() -> Seq<u8> {
    seq![97u8, 108u8, 108u8]
}

/// Architecture satisfaction: `Any` (id 0) satisfies everything and is
/// satisfied by everything; otherwise the ids must be equal.
pub open spec fn arch_satisfies(a: usize, b: usize) -> bool {
    a == 0 || b == 0 || a == b
}

/// Exec test for [`arch_satisfies`].
pub fn arch_ok_for(a: usize, b: usize) -> (r: bool)
    ensures
        r == arch_satisfies(a, b),
{
    a == 0 || b == 0 || a == b
}

/// A name entry: the display string, every solvable providing this name
/// (directly or through `Provides`), and the subset of solvables whose own
/// name this is and that are essential or required.
#[derive(Debug)]
pub struct NameEntry {
    pub name: Vec<u8>,
    pub packages: Vec<usize>,
    pub required: Vec<usize>,
}

/// An interned version set: a predicate over solvables. A plain set matches
/// a candidate when it is not the self-reference, its architecture satisfies
/// `arch`, and it carries or provides `name` at a version inside `range`; a
/// negated set matches exactly the candidates a plain one would not.
#[derive(Debug)]
pub struct VersionSet {
    pub arch: usize,
    pub name: usize,
    pub selfref: Option<usize>,
    pub range: VersionRange,
    /// A negated set stands for a `Conflicts`/`Breaks` prohibition: it
    /// matches exactly the candidates that do *not* violate the
    /// prohibition, as the clause solver expects of a constraining set.
    pub negated: bool,
}

/// One concrete candidate package.
#[derive(Debug)]
pub struct Solvable {
    pub arch: usize,
    pub name: usize,
    pub pkgs: usize,
    pub package: PackageRecord,
}

/// A requirement the solver must satisfy: one version set, or an ordered
/// union of alternatives.
#[derive(Clone, Copy, Debug, PartialEq, Eq, Structural)]
pub enum Requirement {
    Single(usize),
    Union(usize),
}

/// The package universe: interning tables, the solvable index, and the
/// seeded baseline requirements of essential/required packages.
#[derive(Debug)]
pub struct Universe {
    /// The preferred (native) architecture id.
    pub arch: usize,
    /// Architecture names; index 0 is `any`.
    pub archlist: Vec<Vec<u8>>,
    /// Interned strings (dependency parse error messages).
    pub strings: Vec<Vec<u8>>,
    /// Name table; buckets are finalized at construction.
    pub names: Vec<NameEntry>,
    /// Every candidate package, in ingestion order.
    pub solvables: Vec<Solvable>,
    /// Interned version sets, deduplicated structurally.
    pub version_sets: Vec<VersionSet>,
    /// Interned unions: non-empty ordered lists of version-set ids.
    pub version_set_unions: Vec<Vec<usize>>,
    /// Baseline requirements seeded from essential/required packages.
    pub required: Vec<Requirement>,
}

/// Exact equality of two id lists.
fn usize_vecs_eq(a: &Vec<usize>, b: &Vec<usize>) -> (r: bool)
    ensures
        r == (a@ == b@),
{
    if a.len() != b.len() {
        assert(a@ != b@) by {
            assert(a@.len() != b@.len());
        }
        return false;
    }
    let mut i: usize = 0;
    while i < a.len()
        invariant
            i <= a@.len(),
            a@.len() == b@.len(),
            forall|k: int| 0 <= k < i ==> a@[k] == b@[k],
        decreases a@.len() - i,
    {
        if a[i] != b[i] {
            return false;
        }
        i = i + 1;
    }
    assert(a@ =~= b@);
    true
}

/// Spec equality of two version sets: all four components agree.
pub open spec fn vs_eqv(a: VersionSet, b: VersionSet) -> bool {
    a.arch == b.arch && a.name == b.name && a.selfref == b.selfref && a.negated == b.negated
        && range_eqv(a.range, b.range)
}

impl Universe {
    /// Architecture table invariant: entry 0 is `any`, the preferred arch is
    /// a valid id, entries are distinct.
    pub open spec fn arch_table_ok(self) -> bool {
        &&& self.archlist@.len() >= 1
        &&& self.archlist@[0]@ == any_bytes()
        &&& self.arch < self.archlist@.len()
        &&& forall|i: int, j: int|
            0 <= i < j < self.archlist@.len() ==> self.archlist@[i]@ != self.archlist@[j]@
    }

    /// Name entries carry distinct display strings.
    pub open spec fn names_distinct(self) -> bool {
        forall|i: int, j: int|
            0 <= i < j < self.names@.len() ==> self.names@[i].name@ != self.names@[j].name@
    }

    /// One solvable's ids resolve: its name entry carries its package's own
    /// name, its arch id is valid, and its `Provides` field parsed.
    pub open spec fn solvable_ok(self, s: int) -> bool {
        &&& self.solvables@[s].name < self.names@.len()
        &&& self.solvables@[s].arch < self.archlist@.len()
        &&& self.names@[self.solvables@[s].name as int].name@ == self.solvables@[s].package.name@
        &&& self.solvables@[s].package.provides is Ok
    }

    pub open spec fn solvables_ok(self) -> bool {
        forall|s: int| 0 <= s < self.solvables@.len() ==> #[trigger] self.solvable_ok(s)
    }

    /// One version set's ids are in range.
    pub open spec fn vs_ok(self, v: int) -> bool {
        &&& self.version_sets@[v].name < self.names@.len()
        &&& self.version_sets@[v].arch < self.archlist@.len()
        &&& match self.version_sets@[v].selfref {
            Option::Some(k) => k < self.solvables@.len(),
            Option::None => true,
        }
    }

    pub open spec fn version_sets_ok(self) -> bool {
        forall|v: int| 0 <= v < self.version_sets@.len() ==> #[trigger] self.vs_ok(v)
    }

    /// One union is non-empty and holds valid version-set ids.
    pub open spec fn union_ok(self, u: int) -> bool {
        &&& self.version_set_unions@[u]@.len() >= 1
        &&& forall|k: int|
            0 <= k < self.version_set_unions@[u]@.len() ==> #[trigger] self.version_set_unions@[u]@[k]
                < self.version_sets@.len()
    }

    pub open spec fn unions_ok(self) -> bool {
        forall|u: int| 0 <= u < self.version_set_unions@.len() ==> #[trigger] self.union_ok(u)
    }

    /// A requirement refers to a valid version set or union.
    pub open spec fn req_ok(self, r: Requirement) -> bool {
        match r {
            Requirement::Single(v) => v < self.version_sets@.len(),
            Requirement::Union(u) => u < self.version_set_unions@.len(),
        }
    }

    pub open spec fn required_ok(self) -> bool {
        forall|i: int| 0 <= i < self.required@.len() ==> #[trigger] self.req_ok(self.required@[i])
    }

    /// Bucket soundness: every id in a name's `packages` list is a solvable
    /// that carries or provides the name; every id in `required` is an
    /// essential/required solvable whose own name this is.
    pub open spec fn buckets_sound(self) -> bool {
        &&& forall|n: int, i: int|
            0 <= n < self.names@.len() && 0 <= i < self.names@[n].packages@.len() ==> {
                let k = #[trigger] self.names@[n].packages@[i];
                &&& k < self.solvables@.len()
                &&& provides_name_spec(self.solvables@[k as int].package, self.names@[n].name@)
            }
        &&& forall|n: int, i: int|
            0 <= n < self.names@.len() && 0 <= i < self.names@[n].required@.len() ==> {
                let k = #[trigger] self.names@[n].required@[i];
                &&& k < self.solvables@.len()
                &&& self.solvables@[k as int].name == n
                &&& (self.solvables@[k as int].package.essential
                    || self.solvables@[k as int].package.required)
            }
    }

    /// Bucket completeness over the first `m` solvables: each one stands in
    /// the bucket of every name it carries or provides, and in the
    /// `required` list of its own name when flagged.
    pub open spec fn buckets_complete(self, m: int) -> bool {
        &&& forall|n: int, s: int|
            0 <= n < self.names@.len() && 0 <= s < m && provides_name_spec(
                #[trigger] self.solvables@[s].package,
                #[trigger] self.names@[n].name@,
            ) ==> self.names@[n].packages@.contains(s as usize)
        &&& forall|n: int, s: int|
            0 <= n < self.names@.len() && 0 <= s < m && #[trigger] self.solvables@[s].name == n
                && (self.solvables@[s].package.essential
                || self.solvables@[s].package.required) ==> #[trigger] self.names@[
                n
            ].required@.contains(s as usize)
    }

    /// Name coverage over the first `m` solvables: every name one of them
    /// provides has an entry in the name table.
    pub open spec fn name_coverage(self, m: int) -> bool {
        forall|s: int, j: int|
            0 <= s < m && 0 <= j < self.solvables@[s].package.provides->Ok_0@.len()
                && self.solvables@[s].package.provides is Ok ==> exists|n: int|
                0 <= n < self.names@.len() && self.names@[n].name@ == (
                #[trigger] self.solvables@[s].package.provides->Ok_0@[j]).name@
    }

    /// The full universe invariant.
    pub open spec fn wf(self) -> bool {
        &&& self.arch_table_ok()
        &&& self.names_distinct()
        &&& self.solvables_ok()
        &&& self.version_sets_ok()
        &&& self.unions_ok()
        &&& self.required_ok()
        &&& self.buckets_sound()
        &&& self.buckets_complete(self.solvables@.len() as int)
        &&& self.name_coverage(self.solvables@.len() as int)
    }

    /// All tables of `other` extend those of `self`: nothing is removed or
    /// rewritten, the preferred arch and the solvable index are untouched.
    pub open spec fn grows_to(self, other: Universe) -> bool {
        &&& other.arch == self.arch
        &&& self.archlist@.is_prefix_of(other.archlist@)
        &&& self.strings@.is_prefix_of(other.strings@)
        &&& self.names@.len() <= other.names@.len()
        &&& forall|n: int|
            0 <= n < self.names@.len() ==> #[trigger] other.names@[n] == self.names@[n]
        &&& other.solvables == self.solvables
        &&& self.version_sets@.is_prefix_of(other.version_sets@)
        &&& self.version_set_unions@.is_prefix_of(other.version_set_unions@)
        &&& other.required == self.required
    }

    /// Intern a string by content.
    pub fn intern_string(&mut self, s: Vec<u8>) -> (id: usize)
        ensures
            id < final(self).strings@.len(),
            final(self).strings@[id as int]@ == s@,
            old(self).grows_to(*final(self)),
            final(self).names == old(self).names,
            final(self).version_sets == old(self).version_sets,
            final(self).version_set_unions == old(self).version_set_unions,
            final(self).archlist == old(self).archlist,
    {
        let mut i: usize = 0;
        while i < self.strings.len()
            invariant
                i <= self.strings@.len(),
                *self == *old(self),
            decreases self.strings@.len() - i,
        {
            if crate::bytes::bytes_eq(self.strings[i].as_slice(), s.as_slice()) {
                return i;
            }
            i = i + 1;
        }
        let id = self.strings.len();
        self.strings.push(s);
        assert(old(self).strings@.is_prefix_of(self.strings@));
        id
    }

    /// Look a name up by its display string.
    fn find_name(&self, name: &[u8]) -> (r: Option<usize>)
        ensures
            match r {
                Option::Some(i) => i < self.names@.len() && self.names@[i as int].name@ == name@,
                Option::None => forall|i: int|
                    0 <= i < self.names@.len() ==> self.names@[i].name@ != name@,
            },
    {
        let mut i: usize = 0;
        while i < self.names.len()
            invariant
                i <= self.names@.len(),
                forall|k: int| 0 <= k < i ==> self.names@[k].name@ != name@,
            decreases self.names@.len() - i,
        {
            if crate::bytes::bytes_eq(self.names[i].name.as_slice(), name) {
                return Some(i);
            }
            i = i + 1;
        }
        None
    }

    /// Get or insert a name entry (without touching its buckets). Returns
    /// the id and whether the entry is fresh.
    pub fn intern_name(&mut self, name: &[u8]) -> (r: (usize, bool))
        requires
            old(self).names_distinct(),
        ensures
            r.0 < final(self).names@.len(),
            final(self).names@[r.0 as int].name@ == name@,
            final(self).names_distinct(),
            old(self).grows_to(*final(self)),
            final(self).strings == old(self).strings,
            final(self).version_sets == old(self).version_sets,
            final(self).version_set_unions == old(self).version_set_unions,
            final(self).archlist == old(self).archlist,
            r.1 == !(exists|i: int|
                0 <= i < old(self).names@.len() && old(self).names@[i].name@ == name@),
            !r.1 ==> *final(self) == *old(self),
            r.1 ==> final(self).names@.len() == old(self).names@.len() + 1 && r.0 == old(
                self,
            ).names@.len() && final(self).names@[r.0 as int].packages@ == Seq::<usize>::empty()
                && final(self).names@[r.0 as int].required@ == Seq::<usize>::empty(),
    {
        match self.find_name(name) {
            Option::Some(i) => {
                proof {
                    assert(self.names@[i as int].name@ == name@);
                }
                (i, false)
            },
            Option::None => {
                let id = self.names.len();
                let mut nv: Vec<u8> = Vec::new();
                let mut k: usize = 0;
                while k < name.len()
                    invariant
                        k <= name@.len(),
                        nv@ == name@.take(k as int),
                    decreases name@.len() - k,
                {
                    nv.push(name[k]);
                    assert(nv@ =~= name@.take(k + 1 as int));
                    k = k + 1;
                }
                assert(nv@ =~= name@);
                self.names.push(
                    NameEntry { name: nv, packages: Vec::new(), required: Vec::new() },
                );
                (id, true)
            },
        }
    }

    /// Map an architecture string to its id: `all` (case-insensitively) is
    /// `Any`; anything else is interned, `any` itself landing on id 0.
    pub fn get_arch_id(&mut self, arch: &[u8]) -> (id: usize)
        requires
            old(self).arch_table_ok(),
        ensures
            final(self).arch_table_ok(),
            id < final(self).archlist@.len(),
            old(self).grows_to(*final(self)),
            final(self).strings == old(self).strings,
            final(self).names == old(self).names,
            final(self).version_sets == old(self).version_sets,
            final(self).version_set_unions == old(self).version_set_unions,
            lower_seq(arch@) == all_bytes() ==> id == 0 && *final(self) == *old(self),
            lower_seq(arch@) != all_bytes() ==> final(self).archlist@[id as int]@ == arch@,
            lower_seq(arch@) != all_bytes() && (exists|i: int|
                0 <= i < old(self).archlist@.len() && old(self).archlist@[i]@ == arch@) ==> *final(self)
                == *old(self),
            lower_seq(arch@) != all_bytes() && !(exists|i: int|
                0 <= i < old(self).archlist@.len() && old(self).archlist@[i]@ == arch@) ==> id
                == old(self).archlist@.len() && final(self).archlist@.len() == old(
                self,
            ).archlist@.len() + 1,
    {
        let all_lit: [u8; 3] = [97, 108, 108];
        if crate::bytes::eq_ignore_case(arch, all_lit.as_slice()) {
            proof {
                assert(lower_seq(all_lit@) =~= all_bytes());
            }
            return 0;
        }
        proof {
            assert(lower_seq(all_lit@) =~= all_bytes());
        }
        let mut i: usize = 0;
        while i < self.archlist.len()
            invariant
                i <= self.archlist@.len(),
                *self == *old(self),
                old(self).arch_table_ok(),
                lower_seq(arch@) != all_bytes(),
                forall|k: int| 0 <= k < i ==> self.archlist@[k]@ != arch@,
            decreases self.archlist@.len() - i,
        {
            if crate::bytes::bytes_eq(self.archlist[i].as_slice(), arch) {
                return i;
            }
            i = i + 1;
        }
        let id = self.archlist.len();
        let mut av: Vec<u8> = Vec::new();
        let mut k: usize = 0;
        while k < arch.len()
            invariant
                k <= arch@.len(),
                av@ == arch@.take(k as int),
            decreases arch@.len() - k,
        {
            av.push(arch[k]);
            assert(av@ =~= arch@.take(k + 1 as int));
            k = k + 1;
        }
        assert(av@ =~= arch@);
        self.archlist.push(av);
        assert(old(self).archlist@.is_prefix_of(self.archlist@));
        id
    }

    /// Get or insert a version set, deduplicating structurally.
    pub fn get_version_set_id(&mut self, vs: VersionSet) -> (id: usize)
        requires
            old(self).vs_fits(vs),
        ensures
            id < final(self).version_sets@.len(),
            vs_eqv(final(self).version_sets@[id as int], vs),
            old(self).grows_to(*final(self)),
            final(self).strings == old(self).strings,
            final(self).names == old(self).names,
            final(self).archlist == old(self).archlist,
            final(self).version_set_unions == old(self).version_set_unions,
            (exists|i: int|
                0 <= i < old(self).version_sets@.len() && vs_eqv(
                    old(self).version_sets@[i],
                    vs,
                )) ==> *final(self) == *old(self),
            !(exists|i: int|
                0 <= i < old(self).version_sets@.len() && vs_eqv(
                    old(self).version_sets@[i],
                    vs,
                )) ==> id == old(self).version_sets@.len() && final(self).version_sets@.len() == old(
                self,
            ).version_sets@.len() + 1 && final(self).version_sets@[id as int] == vs,
            old(self).version_sets_ok() ==> final(self).version_sets_ok(),
    {
        let mut i: usize = 0;
        while i < self.version_sets.len()
            invariant
                i <= self.version_sets@.len(),
                *self == *old(self),
                forall|k: int| 0 <= k < i ==> !vs_eqv(self.version_sets@[k], vs),
            decreases self.version_sets@.len() - i,
        {
            let cur = &self.version_sets[i];
            let selfref_eq = match (&cur.selfref, &vs.selfref) {
                (Option::None, Option::None) => true,
                (Option::Some(a), Option::Some(b)) => *a == *b,
                _ => false,
            };
            if cur.arch == vs.arch && cur.name == vs.name && selfref_eq && cur.negated
                == vs.negated && cur.range.same_range(&vs.range) {
                assert(vs_eqv(self.version_sets@[i as int], vs));
                return i;
            }
            i = i + 1;
        }
        let id = self.version_sets.len();
        self.version_sets.push(vs);
        assert(old(self).version_sets@.is_prefix_of(self.version_sets@));
        assert forall|v: int| 0 <= v < self.version_sets@.len() && old(self).version_sets_ok()
            implies self.vs_ok(v) by {
            if v < id {
                assert(old(self).vs_ok(v));
            }
        }
        id
    }

    /// A version set the table can absorb: its ids are in range.
    pub open spec fn vs_fits(self, vs: VersionSet) -> bool {
        &&& vs.name < self.names@.len()
        &&& vs.arch < self.archlist@.len()
        &&& match vs.selfref {
            Option::Some(k) => k < self.solvables@.len(),
            Option::None => true,
        }
    }

    /// Get or insert a union of version sets, deduplicating by sequence.
    pub fn get_union_id(&mut self, u: Vec<usize>) -> (id: usize)
        requires
            u@.len() >= 1,
            forall|k: int| 0 <= k < u@.len() ==> u@[k] < old(self).version_sets@.len(),
        ensures
            id < final(self).version_set_unions@.len(),
            final(self).version_set_unions@[id as int]@ == u@,
            old(self).grows_to(*final(self)),
            final(self).strings == old(self).strings,
            final(self).names == old(self).names,
            final(self).archlist == old(self).archlist,
            final(self).version_sets == old(self).version_sets,
            old(self).unions_ok() ==> final(self).unions_ok(),
    {
        let mut i: usize = 0;
        while i < self.version_set_unions.len()
            invariant
                i <= self.version_set_unions@.len(),
                *self == *old(self),
            decreases self.version_set_unions@.len() - i,
        {
            if usize_vecs_eq(&self.version_set_unions[i], &u) {
                return i;
            }
            i = i + 1;
        }
        let id = self.version_set_unions.len();
        self.version_set_unions.push(u);
        assert(old(self).version_set_unions@.is_prefix_of(self.version_set_unions@));
        assert forall|w: int| 0 <= w < self.version_set_unions@.len() && old(self).unions_ok()
            implies self.union_ok(w) by {
            if w < id {
                assert(old(self).union_ok(w));
            }
        }
        id
    }
}

/// Copy a byte slice into an owned vector.
pub fn copy_bytes(src: &[u8]) -> (r: Vec<u8>)
    ensures
        r@ == src@,
{
    let mut v: Vec<u8> = Vec::new();
    let mut k: usize = 0;
    while k < src.len()
        invariant
            k <= src@.len(),
            v@ == src@.take(k as int),
        decreases src@.len() - k,
    {
        v.push(src[k]);
        assert(v@ =~= src@.take(k + 1 as int));
        k = k + 1;
    }
    assert(v@ =~= src@);
    v
}

impl Universe {
    /// Append a solvable id to a name's bucket, and to its `required` list
    /// when asked.
    fn push_bucket(&mut self, n: usize, sid: usize, also_required: bool)
        requires
            n < old(self).names@.len(),
        ensures
            final(self).names@.len() == old(self).names@.len(),
            forall|m: int|
                0 <= m < old(self).names@.len() && m != n ==> final(self).names@[m] == old(
                    self,
                ).names@[m],
            final(self).names@[n as int].name == old(self).names@[n as int].name,
            final(self).names@[n as int].packages@ == old(self).names@[n as int].packages@.push(
                sid,
            ),
            also_required ==> final(self).names@[n as int].required@ == old(self).names@[
                n as int
            ].required@.push(sid),
            !also_required ==> final(self).names@[n as int].required == old(self).names@[
                n as int
            ].required,
            final(self).arch == old(self).arch,
            final(self).archlist == old(self).archlist,
            final(self).strings == old(self).strings,
            final(self).solvables == old(self).solvables,
            final(self).version_sets == old(self).version_sets,
            final(self).version_set_unions == old(self).version_set_unions,
            final(self).required == old(self).required,
    {
        let entry = &mut self.names[n];
        entry.packages.push(sid);
        if also_required {
            entry.required.push(sid);
        }
    }

    /// The construction-phase invariant: everything of [`Universe::wf`] that
    /// ingestion touches.
    pub open spec fn ingest_wf(self) -> bool {
        &&& self.arch_table_ok()
        &&& self.names_distinct()
        &&& self.solvables_ok()
        &&& self.buckets_sound()
        &&& self.buckets_complete(self.solvables@.len() as int)
        &&& self.name_coverage(self.solvables@.len() as int)
    }

    /// Ingest one package record: give it the next solvable id, intern its
    /// architecture and name, file it in the bucket of its own name and of
    /// every name it provides, and note its name for baseline seeding when
    /// the name is fresh and the package essential/required. A record whose
    /// `Provides` failed to parse aborts with the parse error message.
    pub fn add_package(
        &mut self,
        pkgs: usize,
        baseline: &mut Vec<usize>,
        package: PackageRecord,
    ) -> (r: Result<(), Vec<u8>>)
        requires
            old(self).ingest_wf(),
        ensures
            final(self).ingest_wf(),
            final(self).arch == old(self).arch,
            final(self).strings == old(self).strings,
            final(self).version_sets == old(self).version_sets,
            final(self).version_set_unions == old(self).version_set_unions,
            final(self).required == old(self).required,
            old(self).archlist@.is_prefix_of(final(self).archlist@),
            match r {
                Result::Err(e) => package.provides is Err && *final(self) == *old(self)
                    && *final(baseline) == *old(baseline) && e@ == package.provides->Err_0@,
                Result::Ok(_) => {
                    let sid = old(self).solvables@.len() as int;
                    let nid = final(self).solvables@[sid].name as int;
                    let flag = package.essential || package.required;
                    let fresh = !(exists|i: int|
                        0 <= i < old(self).names@.len() && old(self).names@[i].name@
                            == package.name@);
                    &&& package.provides is Ok
                    &&& old(self).solvables@.len() <= usize::MAX
                    &&& final(self).solvables@.len() == sid + 1
                    &&& final(self).solvables@.subrange(0, sid) == old(self).solvables@
                    &&& final(self).solvables@[sid].package == package
                    &&& final(self).solvables@[sid].pkgs == pkgs
                    &&& (lower_seq(package.architecture@) == all_bytes() ==> final(self).solvables@[sid].arch == 0)
                    &&& (lower_seq(package.architecture@) != all_bytes() ==> final(self).archlist@[final(self).solvables@[sid].arch as int]@ == package.architecture@)
                    &&& final(self).names@[nid].name@ == package.name@
                    &&& 0 <= nid < final(self).names@.len()
                    &&& old(self).names@.len() <= final(self).names@.len()
                    &&& (fresh <==> nid == old(self).names@.len())
                    &&& (!fresh ==> nid < old(self).names@.len())
                    &&& forall|m: int|
                        0 <= m < old(self).names@.len() ==> {
                            &&& (#[trigger] final(self).names@[m]).name == old(self).names@[m].name
                            &&& old(self).names@[m].packages@.is_prefix_of(
                                final(self).names@[m].packages@,
                            )
                            &&& (m == nid && flag ==> final(self).names@[m].required@ == old(
                                self,
                            ).names@[m].required@.push(sid as usize))
                            &&& (m != nid || !flag ==> final(self).names@[m].required == old(
                                self,
                            ).names@[m].required)
                        }
                    &&& forall|m: int|
                        old(self).names@.len() <= m < final(self).names@.len() ==> {
                            &&& (#[trigger] final(self).names@[m]).packages@.len() >= 1
                            &&& final(self).names@[m].packages@[0] == sid as usize
                            &&& (m == nid && flag ==> final(self).names@[m].required@ == seq![
                                sid as usize,
                            ])
                            &&& (m != nid || !flag ==> final(self).names@[m].required@
                                == Seq::<usize>::empty())
                        }
                    &&& (fresh && flag ==> final(baseline)@ == old(baseline)@.push(nid as usize))
                    &&& (!(fresh && flag) ==> *final(baseline) == *old(baseline))
                },
            },
    {
        let sid = self.solvables.len();
        let mut pnames: Vec<Vec<u8>> = Vec::new();
        match &package.provides {
            Result::Err(e) => {
                return Result::Err(copy_bytes(e.as_slice()));
            },
            Result::Ok(list) => {
                let mut j: usize = 0;
                while j < list.len()
                    invariant
                        j <= list@.len(),
                        package.provides == Result::<Vec<crate::model::Provide>, Vec<u8>>::Ok(
                            *list,
                        ),
                        pnames@.len() == j,
                        forall|t: int| 0 <= t < j ==> (#[trigger] pnames@[t])@ == list@[t].name@,
                    decreases list@.len() - j,
                {
                    pnames.push(copy_bytes(list[j].name.as_slice()));
                    j = j + 1;
                }
            },
        }
        let flag = package.essential || package.required;
        let arch = self.get_arch_id(package.architecture.as_slice());
        let (nid, fresh) = self.intern_name(package.name.as_slice());
        if fresh && flag {
            baseline.push(nid);
        }
        proof {
            if fresh {
                assert forall|n2: int, s: int|
                    0 <= n2 < self.names@.len() && 0 <= s < sid && provides_name_spec(
                        #[trigger] self.solvables@[s].package,
                        #[trigger] self.names@[n2].name@,
                    ) implies self.names@[n2].packages@.contains(s as usize) by {
                    if n2 < old(self).names@.len() {
                        assert(old(self).buckets_complete(sid as int));
                        assert(old(self).names@[n2] == self.names@[n2]);
                    } else {
                        lemma_no_old_provider(*old(self), sid as int, s, self.names@[n2].name@);
                        assert(false);
                    }
                }
                assert forall|n2: int, s: int|
                    0 <= n2 < self.names@.len() && 0 <= s < sid && #[trigger] self.solvables@[
                        s
                    ].name == n2 && (self.solvables@[s].package.essential || self.solvables@[
                        s
                    ].package.required) implies #[trigger] self.names@[n2].required@.contains(
                    s as usize,
                ) by {
                    assert(old(self).solvable_ok(s));
                    assert(n2 < old(self).names@.len());
                    assert(old(self).buckets_complete(sid as int));
                    assert(old(self).names@[n2] == self.names@[n2]);
                }
                assert(self.buckets_complete(sid as int));
            }
            assert(self.buckets_sound()) by {
                assert forall|n: int, i: int|
                    0 <= n < self.names@.len() && 0 <= i < self.names@[n].packages@.len() implies {
                    let k = #[trigger] self.names@[n].packages@[i];
                    k < self.solvables@.len() && provides_name_spec(
                        self.solvables@[k as int].package,
                        self.names@[n].name@,
                    )
                } by {
                    assert(n < old(self).names@.len());
                    assert(self.names@[n] == old(self).names@[n]);
                }
                assert forall|n: int, i: int|
                    0 <= n < self.names@.len() && 0 <= i < self.names@[n].required@.len() implies {
                    let k = #[trigger] self.names@[n].required@[i];
                    k < self.solvables@.len() && self.solvables@[k as int].name == n && (
                    self.solvables@[k as int].package.essential || self.solvables@[
                        k as int
                    ].package.required)
                } by {
                    assert(n < old(self).names@.len());
                    assert(self.names@[n] == old(self).names@[n]);
                }
            }
            assert(self.buckets_complete(sid as int));
            assert(self.name_coverage(sid as int)) by {
                assert forall|s: int, j2: int|
                    0 <= s < sid && 0 <= j2 < self.solvables@[s].package.provides->Ok_0@.len()
                        && self.solvables@[s].package.provides is Ok implies exists|n: int|
                    0 <= n < self.names@.len() && self.names@[n].name@ == (
                    #[trigger] self.solvables@[s].package.provides->Ok_0@[j2]).name@ by {
                    let n0 = choose|n0: int|
                        0 <= n0 < old(self).names@.len() && old(self).names@[n0].name@ == old(
                            self,
                        ).solvables@[s].package.provides->Ok_0@[j2].name@;
                    assert(self.names@[n0].name@ == self.solvables@[s].package.provides->Ok_0@[
                        j2
                    ].name@);
                }
            }
        }
        let ghost a1 = *self;
        self.solvables.push(Solvable { arch, name: nid, pkgs, package });
        proof {
            assert(self.solvables@.subrange(0, sid as int) =~= old(self).solvables@);
            assert forall|s: int| 0 <= s < self.solvables@.len() implies #[trigger] self.solvable_ok(
                s,
            ) by {
                if s < sid {
                    assert(old(self).solvable_ok(s));
                    assert(self.solvables@[s] == old(self).solvables@[s]);
                    if old(self).solvables@[s].name as int >= old(self).names@.len() {
                    }
                    assert(self.names@[self.solvables@[s].name as int] == old(self).names@[old(
                        self,
                    ).solvables@[s].name as int]);
                }
            }
            assert(self.buckets_sound()) by {
                assert forall|n: int, i: int|
                    0 <= n < self.names@.len() && 0 <= i < self.names@[n].packages@.len() implies {
                    let k = #[trigger] self.names@[n].packages@[i];
                    k < self.solvables@.len() && provides_name_spec(
                        self.solvables@[k as int].package,
                        self.names@[n].name@,
                    )
                } by {
                    assert(a1.buckets_sound());
                    assert(self.names@[n] == a1.names@[n]);
                    let k = self.names@[n].packages@[i];
                    assert(k < a1.solvables@.len());
                    assert(self.solvables@[k as int] == a1.solvables@[k as int]);
                }
                assert forall|n: int, i: int|
                    0 <= n < self.names@.len() && 0 <= i < self.names@[n].required@.len() implies {
                    let k = #[trigger] self.names@[n].required@[i];
                    k < self.solvables@.len() && self.solvables@[k as int].name == n && (
                    self.solvables@[k as int].package.essential || self.solvables@[
                        k as int
                    ].package.required)
                } by {
                    assert(a1.buckets_sound());
                    assert(self.names@[n] == a1.names@[n]);
                    let k = self.names@[n].required@[i];
                    assert(k < a1.solvables@.len());
                    assert(self.solvables@[k as int] == a1.solvables@[k as int]);
                }
            }
            assert(self.buckets_complete(sid as int)) by {
                assert forall|n: int, s: int|
                    0 <= n < self.names@.len() && 0 <= s < sid && provides_name_spec(
                        #[trigger] self.solvables@[s].package,
                        #[trigger] self.names@[n].name@,
                    ) implies self.names@[n].packages@.contains(s as usize) by {
                    assert(self.solvables@[s] == a1.solvables@[s]);
                    assert(self.names@[n] == a1.names@[n]);
                    assert(a1.buckets_complete(sid as int));
                }
                assert forall|n: int, s: int|
                    0 <= n < self.names@.len() && 0 <= s < sid && #[trigger] self.solvables@[
                        s
                    ].name == n && (self.solvables@[s].package.essential || self.solvables@[
                        s
                    ].package.required) implies #[trigger] self.names@[n].required@.contains(
                    s as usize,
                ) by {
                    assert(self.solvables@[s] == a1.solvables@[s]);
                    assert(self.names@[n] == a1.names@[n]);
                    assert(a1.buckets_complete(sid as int));
                }
            }
            assert(self.name_coverage(sid as int)) by {
                assert forall|s: int, j2: int|
                    0 <= s < sid && 0 <= j2 < self.solvables@[s].package.provides->Ok_0@.len()
                        && self.solvables@[s].package.provides is Ok implies exists|n: int|
                    0 <= n < self.names@.len() && self.names@[n].name@ == (
                    #[trigger] self.solvables@[s].package.provides->Ok_0@[j2]).name@ by {
                    assert(self.solvables@[s] == a1.solvables@[s]);
                    assert(a1.name_coverage(sid as int));
                    let n0 = choose|n0: int|
                        0 <= n0 < a1.names@.len() && a1.names@[n0].name@ == a1.solvables@[
                            s
                        ].package.provides->Ok_0@[j2].name@;
                    assert(self.names@[n0].name@ == self.solvables@[s].package.provides->Ok_0@[
                        j2
                    ].name@);
                }
            }
        }
        let ghost g1 = *self;
        self.push_bucket(nid, sid, flag);
        proof {
            assert(self.solvables@.subrange(0, sid as int) =~= old(self).solvables@);
            assert(self.names@[nid as int].packages@.contains(sid)) by {
                let pk = self.names@[nid as int].packages@;
                assert(pk[pk.len() - 1] == sid);
            }
            if flag {
                assert(self.names@[nid as int].required@.contains(sid)) by {
                    let rq = self.names@[nid as int].required@;
                    assert(rq[rq.len() - 1] == sid);
                }
            }
            assert forall|s: int| 0 <= s < self.solvables@.len() implies #[trigger] self.solvable_ok(
                s,
            ) by {
                assert(g1.solvable_ok(s));
                assert(self.names@[self.solvables@[s].name as int].name == g1.names@[g1.solvables@[
                    s
                ].name as int].name);
            }
            assert(self.buckets_sound()) by {
                assert forall|n: int, i: int|
                    0 <= n < self.names@.len() && 0 <= i < self.names@[n].packages@.len() implies {
                    let k = #[trigger] self.names@[n].packages@[i];
                    k < self.solvables@.len() && provides_name_spec(
                        self.solvables@[k as int].package,
                        self.names@[n].name@,
                    )
                } by {
                    if n == nid as int && i == self.names@[n].packages@.len() - 1 {
                        assert(self.names@[n].packages@[i] == sid);
                    } else {
                        lemma_bucket_entry_old(g1, *self, n, i, nid as int, sid);
                    }
                }
                assert forall|n: int, i: int|
                    0 <= n < self.names@.len() && 0 <= i < self.names@[n].required@.len() implies {
                    let k = #[trigger] self.names@[n].required@[i];
                    k < self.solvables@.len() && self.solvables@[k as int].name == n && (
                    self.solvables@[k as int].package.essential || self.solvables@[
                        k as int
                    ].package.required)
                } by {
                    if n == nid as int && flag && i == self.names@[n].required@.len() - 1 {
                        assert(self.names@[n].required@[i] == sid);
                    } else {
                        lemma_required_entry_old(g1, *self, n, i, nid as int, sid, flag);
                    }
                }
            }
            assert(self.buckets_complete(sid as int)) by {
                assert forall|n: int, s: int|
                    0 <= n < self.names@.len() && 0 <= s < sid && provides_name_spec(
                        #[trigger] self.solvables@[s].package,
                        #[trigger] self.names@[n].name@,
                    ) implies self.names@[n].packages@.contains(s as usize) by {
                    assert(self.solvables@[s] == g1.solvables@[s]);
                    assert(self.names@[n].name@ == g1.names@[n].name@);
                    assert(g1.buckets_complete(sid as int));
                    assert(g1.names@[n].packages@.contains(s as usize));
                    if n == nid as int {
                        lemma_prefix_contains(
                            g1.names@[n].packages@,
                            self.names@[n].packages@,
                            s as usize,
                        );
                    } else {
                        assert(self.names@[n] == g1.names@[n]);
                    }
                }
                assert forall|n: int, s: int|
                    0 <= n < self.names@.len() && 0 <= s < sid && #[trigger] self.solvables@[
                        s
                    ].name == n && (self.solvables@[s].package.essential || self.solvables@[
                        s
                    ].package.required) implies #[trigger] self.names@[n].required@.contains(
                    s as usize,
                ) by {
                    assert(self.solvables@[s] == g1.solvables@[s]);
                    assert(g1.buckets_complete(sid as int));
                    assert(g1.names@[n].required@.contains(s as usize));
                    if n == nid as int && flag {
                        lemma_prefix_contains(
                            g1.names@[n].required@,
                            self.names@[n].required@,
                            s as usize,
                        );
                    } else {
                        assert(self.names@[n].required == g1.names@[n].required);
                    }
                }
            }
            assert(self.name_coverage(sid as int)) by {
                assert forall|s: int, j2: int|
                    0 <= s < sid && 0 <= j2 < self.solvables@[s].package.provides->Ok_0@.len()
                        && self.solvables@[s].package.provides is Ok implies exists|n: int|
                    0 <= n < self.names@.len() && self.names@[n].name@ == (
                    #[trigger] self.solvables@[s].package.provides->Ok_0@[j2]).name@ by {
                    assert(self.solvables@[s] == g1.solvables@[s]);
                    assert(g1.name_coverage(sid as int));
                    let n0 = choose|n0: int|
                        0 <= n0 < g1.names@.len() && g1.names@[n0].name@ == g1.solvables@[
                            s
                        ].package.provides->Ok_0@[j2].name@;
                    assert(self.names@[n0].name@ == self.solvables@[s].package.provides->Ok_0@[
                        j2
                    ].name@);
                }
            }
        }
        let ghost pre = *self;
        let mut j: usize = 0;
        while j < pnames.len()
            invariant
                j <= pnames@.len(),
                sid == old(self).solvables@.len(),
                self.arch == old(self).arch,
                self.strings == old(self).strings,
                self.version_sets == old(self).version_sets,
                self.version_set_unions == old(self).version_set_unions,
                self.required == old(self).required,
                self.archlist == pre.archlist,
                old(self).archlist@.is_prefix_of(self.archlist@),
                self.solvables == pre.solvables,
                self.solvables@.len() == sid + 1,
                self.solvables@.subrange(0, sid as int) == old(self).solvables@,
                self.solvables@[sid as int].package == package,
                self.solvables@[sid as int].pkgs == pkgs,
                self.solvables@[sid as int].name == nid,
                self.solvables@[sid as int].arch == arch,
                (lower_seq(package.architecture@) == all_bytes() ==> arch == 0),
                (lower_seq(package.architecture@) != all_bytes() ==> self.archlist@[
                    arch as int
                ]@ == package.architecture@),
                nid < self.names@.len(),
                self.names@[nid as int].name@ == package.name@,
                (fresh <==> nid == old(self).names@.len()),
                (!fresh ==> nid < old(self).names@.len()),
                self.names@.len() >= old(self).names@.len(),
                flag == (package.essential || package.required),
                package.provides is Ok,
                pnames@.len() == package.provides->Ok_0@.len(),
                forall|t: int|
                    0 <= t < pnames@.len() ==> (#[trigger] pnames@[t])@
                        == package.provides->Ok_0@[t].name@,
                forall|m: int|
                    0 <= m < old(self).names@.len() ==> {
                        &&& (#[trigger] self.names@[m]).name == old(self).names@[m].name
                        &&& old(self).names@[m].packages@.is_prefix_of(self.names@[m].packages@)
                        &&& (m == nid as int && flag ==> self.names@[m].required@ == old(
                            self,
                        ).names@[m].required@.push(sid as usize))
                        &&& (m != nid as int || !flag ==> self.names@[m].required == old(
                            self,
                        ).names@[m].required)
                    },
                forall|m: int|
                    old(self).names@.len() <= m < self.names@.len() ==> {
                        &&& (#[trigger] self.names@[m]).packages@.len() >= 1
                        &&& self.names@[m].packages@[0] == sid as usize
                        &&& (m == nid as int && flag ==> self.names@[m].required@ == seq![
                            sid as usize,
                        ])
                        &&& (m != nid as int || !flag ==> self.names@[m].required@
                            == Seq::<usize>::empty())
                    },
                (fresh && flag ==> baseline@ == old(baseline)@.push(nid)),
                (!(fresh && flag) ==> *baseline == *old(baseline)),
                self.arch_table_ok(),
                self.names_distinct(),
                self.solvables_ok(),
                self.buckets_sound(),
                self.buckets_complete(sid as int),
                self.name_coverage(sid as int),
                self.names@[nid as int].packages@.contains(sid),
                (flag ==> self.names@[nid as int].required@.contains(sid)),
                forall|t: int|
                    0 <= t < j ==> exists|n: int|
                        0 <= n < self.names@.len() && self.names@[n].name@ == (
                        #[trigger] pnames@[t])@ && self.names@[n].packages@.contains(sid),
            decreases pnames@.len() - j,
        {
            let ghost before = *self;
            let (pid, _pfresh) = self.intern_name(pnames[j].as_slice());
            proof {
                if _pfresh {
                    assert forall|n2: int, s: int|
                        0 <= n2 < self.names@.len() && 0 <= s < sid && provides_name_spec(
                            #[trigger] self.solvables@[s].package,
                            #[trigger] self.names@[n2].name@,
                        ) implies self.names@[n2].packages@.contains(s as usize) by {
                        if n2 < before.names@.len() {
                            assert(before.buckets_complete(sid as int));
                            assert(before.names@[n2] == self.names@[n2]);
                        } else {
                            lemma_no_old_provider(before, sid as int, s, self.names@[n2].name@);
                            assert(false);
                        }
                    }
                    assert forall|n2: int, s: int|
                        0 <= n2 < self.names@.len() && 0 <= s < sid && #[trigger] self.solvables@[
                            s
                        ].name == n2 && (self.solvables@[s].package.essential || self.solvables@[
                            s
                        ].package.required) implies #[trigger] self.names@[n2].required@.contains(
                        s as usize,
                    ) by {
                        assert(before.solvable_ok(s));
                        assert(n2 < before.names@.len());
                        assert(before.buckets_complete(sid as int));
                        assert(before.names@[n2] == self.names@[n2]);
                    }
                    assert(self.buckets_complete(sid as int));
                }
                assert forall|s: int|
                    0 <= s < self.solvables@.len() implies #[trigger] self.solvable_ok(s) by {
                    assert(before.solvable_ok(s));
                    assert(self.names@[self.solvables@[s].name as int] == before.names@[
                        before.solvables@[s].name as int
                    ]);
                }
            }
            let ghost mid2 = *self;
            self.push_bucket(pid, sid, false);
            proof {
                assert forall|s: int|
                    0 <= s < self.solvables@.len() implies #[trigger] self.solvable_ok(s) by {
                    assert(mid2.solvable_ok(s));
                    assert(self.names@[self.solvables@[s].name as int].name == mid2.names@[
                        mid2.solvables@[s].name as int
                    ].name);
                }
                assert(self.names@[pid as int].packages@.contains(sid)) by {
                    let pk = self.names@[pid as int].packages@;
                    assert(pk[pk.len() - 1] == sid);
                }
                assert(self.buckets_sound()) by {
                    assert forall|n: int, i: int|
                        0 <= n < self.names@.len() && 0 <= i
                            < self.names@[n].packages@.len() implies {
                        let k = #[trigger] self.names@[n].packages@[i];
                        k < self.solvables@.len() && provides_name_spec(
                            self.solvables@[k as int].package,
                            self.names@[n].name@,
                        )
                    } by {
                        if n == pid as int && i == self.names@[n].packages@.len() - 1 {
                            assert(self.names@[n].packages@[i] == sid);
                            assert(self.names@[n].name@ == pnames@[j as int]@);
                            assert(provides_name_spec(package, pnames@[j as int]@)) by {
                                assert(package.provides->Ok_0@[j as int].name@ == pnames@[
                                    j as int
                                ]@);
                            }
                        } else {
                            assert(mid2.names@[n].packages@[i] == self.names@[n].packages@[i]);
                            assert(mid2.buckets_sound());
                        }
                    }
                    assert forall|n: int, i: int|
                        0 <= n < self.names@.len() && 0 <= i
                            < self.names@[n].required@.len() implies {
                        let k = #[trigger] self.names@[n].required@[i];
                        k < self.solvables@.len() && self.solvables@[k as int].name == n && (
                        self.solvables@[k as int].package.essential || self.solvables@[
                            k as int
                        ].package.required)
                    } by {
                        assert(mid2.names@[n].required == self.names@[n].required);
                        assert(mid2.buckets_sound());
                    }
                }
                assert(self.buckets_complete(sid as int)) by {
                    assert forall|n: int, s: int|
                        0 <= n < self.names@.len() && 0 <= s < sid && provides_name_spec(
                            #[trigger] self.solvables@[s].package,
                            #[trigger] self.names@[n].name@,
                        ) implies self.names@[n].packages@.contains(s as usize) by {
                        assert(mid2.buckets_complete(sid as int));
                        assert(mid2.names@[n].name@ == self.names@[n].name@);
                        assert(mid2.names@[n].packages@.contains(s as usize));
                        lemma_prefix_contains(
                            mid2.names@[n].packages@,
                            self.names@[n].packages@,
                            s as usize,
                        );
                    }
                    assert forall|n: int, s: int|
                        0 <= n < self.names@.len() && 0 <= s < sid && #[trigger] self.solvables@[
                            s
                        ].name == n && (self.solvables@[s].package.essential || self.solvables@[
                            s
                        ].package.required) implies #[trigger] self.names@[n].required@.contains(
                        s as usize,
                    ) by {
                        assert(mid2.buckets_complete(sid as int));
                        assert(mid2.names@[n].required@.contains(s as usize));
                    }
                }
                assert forall|t: int| 0 <= t < j + 1 implies exists|n: int|
                    0 <= n < self.names@.len() && self.names@[n].name@ == (#[trigger] pnames@[t])@
                        && self.names@[n].packages@.contains(sid) by {
                    if t < j {
                        let n0 = choose|n0: int|
                            0 <= n0 < before.names@.len() && before.names@[n0].name@ == pnames@[t]@
                                && before.names@[n0].packages@.contains(sid);
                        assert(mid2.names@[n0].name@ == pnames@[t]@);
                        lemma_prefix_contains(
                            before.names@[n0].packages@,
                            mid2.names@[n0].packages@,
                            sid,
                        );
                        lemma_prefix_contains(
                            mid2.names@[n0].packages@,
                            self.names@[n0].packages@,
                            sid,
                        );
                        assert(self.names@[n0].name@ == pnames@[t]@);
                    } else {
                        assert(self.names@[pid as int].name@ == pnames@[j as int]@);
                        assert(self.names@[pid as int].packages@.contains(sid));
                    }
                }
                assert(self.names@[nid as int].packages@.contains(sid)) by {
                    lemma_prefix_contains(
                        before.names@[nid as int].packages@,
                        mid2.names@[nid as int].packages@,
                        sid,
                    );
                    lemma_prefix_contains(
                        mid2.names@[nid as int].packages@,
                        self.names@[nid as int].packages@,
                        sid,
                    );
                }
                assert(self.name_coverage(sid as int)) by {
                    assert forall|s: int, j2: int|
                        0 <= s < sid && 0 <= j2 < self.solvables@[
                            s
                        ].package.provides->Ok_0@.len() && self.solvables@[
                            s
                        ].package.provides is Ok implies exists|n: int|
                        0 <= n < self.names@.len() && self.names@[n].name@ == (
                        #[trigger] self.solvables@[s].package.provides->Ok_0@[j2]).name@ by {
                        assert(self.solvables@[s] == before.solvables@[s]);
                        assert(before.name_coverage(sid as int));
                        let n0 = choose|n0: int|
                            0 <= n0 < before.names@.len() && before.names@[n0].name@
                                == before.solvables@[s].package.provides->Ok_0@[j2].name@;
                        assert(mid2.names@[n0].name@ == before.names@[n0].name@);
                        assert(self.names@[n0].name == mid2.names@[n0].name);
                    }
                }
                assert forall|m: int| 0 <= m < old(self).names@.len() implies {
                    &&& (#[trigger] self.names@[m]).name == old(self).names@[m].name
                    &&& old(self).names@[m].packages@.is_prefix_of(self.names@[m].packages@)
                    &&& (m == nid as int && flag ==> self.names@[m].required@ == old(
                        self,
                    ).names@[m].required@.push(sid as usize))
                    &&& (m != nid as int || !flag ==> self.names@[m].required == old(
                        self,
                    ).names@[m].required)
                } by {
                    assert(old(self).names@[m].packages@.is_prefix_of(before.names@[m].packages@));
                    assert(before.names@[m].packages@.is_prefix_of(mid2.names@[m].packages@)) by {
                        assert(before.names@[m] == mid2.names@[m]);
                    }
                    if m == pid as int {
                        assert(mid2.names@[m].packages@.is_prefix_of(self.names@[m].packages@)) by {
                            assert(self.names@[m].packages@ == mid2.names@[m].packages@.push(sid));
                        }
                    } else {
                        assert(mid2.names@[m] == self.names@[m]);
                    }
                }
            }
            j = j + 1;
        }
        proof {
            assert(self.buckets_complete(sid as int + 1)) by {
                assert forall|n: int, s: int|
                    0 <= n < self.names@.len() && 0 <= s < sid + 1 && provides_name_spec(
                        #[trigger] self.solvables@[s].package,
                        #[trigger] self.names@[n].name@,
                    ) implies self.names@[n].packages@.contains(s as usize) by {
                    if s < sid {
                        assert(self.buckets_complete(sid as int));
                    } else {
                        if self.names@[n].name@ == package.name@ {
                            assert(self.names@[nid as int].name@ == package.name@);
                            lemma_distinct_same_name(*self, n, nid as int);
                            assert(n == nid as int);
                        } else {
                            let pj = choose|pj: int|
                                0 <= pj < package.provides->Ok_0@.len()
                                    && package.provides->Ok_0@[pj].name@ == self.names@[n].name@;
                            assert(pnames@[pj]@ == self.names@[n].name@);
                            let n0 = choose|n0: int|
                                0 <= n0 < self.names@.len() && self.names@[n0].name@ == pnames@[pj]@
                                    && self.names@[n0].packages@.contains(sid);
                            lemma_distinct_same_name(*self, n, n0);
                            assert(n == n0);
                        }
                    }
                }
                assert forall|n: int, s: int|
                    0 <= n < self.names@.len() && 0 <= s < sid + 1 && #[trigger] self.solvables@[
                        s
                    ].name == n && (self.solvables@[s].package.essential || self.solvables@[
                        s
                    ].package.required) implies #[trigger] self.names@[n].required@.contains(
                    s as usize,
                ) by {
                    if s < sid {
                        assert(self.buckets_complete(sid as int));
                    } else {
                        assert(n == nid as int && flag);
                    }
                }
            }
            assert(self.name_coverage(sid as int + 1)) by {
                assert forall|s: int, j2: int|
                    0 <= s < sid + 1 && 0 <= j2 < self.solvables@[
                        s
                    ].package.provides->Ok_0@.len() && self.solvables@[
                        s
                    ].package.provides is Ok implies exists|n: int|
                    0 <= n < self.names@.len() && self.names@[n].name@ == (
                    #[trigger] self.solvables@[s].package.provides->Ok_0@[j2]).name@ by {
                    if s < sid {
                        assert(self.name_coverage(sid as int));
                    } else {
                        let n0 = choose|n0: int|
                            0 <= n0 < self.names@.len() && self.names@[n0].name@ == pnames@[j2]@
                                && self.names@[n0].packages@.contains(sid);
                        assert(self.names@[n0].name@ == package.provides->Ok_0@[j2].name@);
                    }
                }
            }
        }
        Result::Ok(())
    }
}

/// With distinct names, equal display strings mean equal indices.
proof fn lemma_distinct_same_name(u: Universe, a: int, b: int)
    requires
        u.names_distinct(),
        0 <= a < u.names@.len(),
        0 <= b < u.names@.len(),
        u.names@[a].name@ == u.names@[b].name@,
    ensures
        a == b,
{
}

/// Membership survives prefix extension.
proof fn lemma_prefix_contains(a: Seq<usize>, b: Seq<usize>, x: usize)
    requires
        a.is_prefix_of(b),
        a.contains(x),
    ensures
        b.contains(x),
{
    let i = choose|i: int| 0 <= i < a.len() && a[i] == x;
    assert(b[i] == x);
}

/// In a covered universe, a name some solvable carries or provides has an
/// entry in the name table.
proof fn lemma_no_old_provider(u: Universe, m: int, s: int, nm: Seq<u8>)
    requires
        u.solvables_ok(),
        u.name_coverage(m),
        0 <= s < m,
        m <= u.solvables@.len(),
        provides_name_spec(u.solvables@[s].package, nm),
    ensures
        exists|i: int| 0 <= i < u.names@.len() && u.names@[i].name@ == nm,
{
    assert(u.solvable_ok(s));
    if u.solvables@[s].package.name@ == nm {
        assert(u.names@[u.solvables@[s].name as int].name@ == nm);
    } else {
        let pj = choose|pj: int|
            0 <= pj < u.solvables@[s].package.provides->Ok_0@.len() && u.solvables@[
                s
            ].package.provides->Ok_0@[pj].name@ == nm;
        assert(exists|n: int|
            0 <= n < u.names@.len() && u.names@[n].name@ == u.solvables@[
                s
            ].package.provides->Ok_0@[pj].name@);
    }
}

/// A bucket entry other than the one just pushed was already sound before.
proof fn lemma_bucket_entry_old(pre: Universe, cur: Universe, n: int, i: int, nid: int, sid: usize)
    requires
        pre.buckets_sound(),
        0 <= n < cur.names@.len(),
        0 <= i < cur.names@[n].packages@.len(),
        cur.names@.len() == pre.names@.len(),
        cur.solvables == pre.solvables,
        forall|m: int| 0 <= m < pre.names@.len() && m != nid ==> cur.names@[m] == pre.names@[m],
        0 <= nid < cur.names@.len(),
        cur.names@[nid].name == pre.names@[nid].name,
        cur.names@[nid].packages@ == pre.names@[nid].packages@.push(sid),
        !(n == nid && i == cur.names@[n].packages@.len() - 1),
    ensures
        ({
            let k = cur.names@[n].packages@[i];
            k < cur.solvables@.len() && provides_name_spec(
                cur.solvables@[k as int].package,
                cur.names@[n].name@,
            )
        }),
{
    let k = cur.names@[n].packages@[i];
    assert(k == pre.names@[n].packages@[i]);
    assert(k < pre.solvables@.len());
}

/// A required-list entry other than the one just pushed was already sound.
proof fn lemma_required_entry_old(
    pre: Universe,
    cur: Universe,
    n: int,
    i: int,
    nid: int,
    sid: usize,
    flag: bool,
)
    requires
        pre.buckets_sound(),
        0 <= n < cur.names@.len(),
        0 <= i < cur.names@[n].required@.len(),
        cur.names@.len() == pre.names@.len(),
        cur.solvables == pre.solvables,
        forall|m: int| 0 <= m < pre.names@.len() && m != nid ==> cur.names@[m] == pre.names@[m],
        0 <= nid < cur.names@.len(),
        flag ==> cur.names@[nid].required@ == pre.names@[nid].required@.push(sid),
        !flag ==> cur.names@[nid].required == pre.names@[nid].required,
        !(n == nid && flag && i == cur.names@[n].required@.len() - 1),
    ensures
        ({
            let k = cur.names@[n].required@[i];
            k < cur.solvables@.len() && cur.solvables@[k as int].name == n && (cur.solvables@[
                k as int
            ].package.essential || cur.solvables@[k as int].package.required)
        }),
{
    let k = cur.names@[n].required@[i];
    assert(k == pre.names@[n].required@[i]);
    assert(k < pre.solvables@.len());
}

/// The packages of a solvable list, in order.
pub open spec fn sol_packages(s: Seq<Solvable>) -> Seq<PackageRecord> {
    s.map_values(|x: Solvable| x.package)
}

/// Deep view of a list of package sets.
pub open spec fn sets_view(sets: Seq<Vec<PackageRecord>>) -> Seq<Seq<PackageRecord>> {
    sets.map_values(|v: Vec<PackageRecord>| v@)
}

/// All records of the first `si` package sets, flattened in order.
pub open spec fn flat_upto(g: Seq<Seq<PackageRecord>>, si: int) -> Seq<PackageRecord>
    decreases si,
{
    if si <= 0 {
        Seq::empty()
    } else {
        flat_upto(g, si - 1) + g[si - 1]
    }
}

/// Some name's baseline requirement: the requirement pins the required
/// solvables of one of the universe's names.
pub open spec fn req_is_seeded(u: Universe, r: Requirement) -> bool {
    exists|n: int| u.seeded_req_for(n, r)
}

/// The name has a baseline requirement seeded for it.
pub open spec fn name_is_seeded(u: Universe, n: int) -> bool {
    exists|i: int| 0 <= i < u.required@.len() && u.seeded_req_for(n, #[trigger] u.required@[i])
}

impl Universe {
    /// One seeded pin: version set `vsid` pins name `n` to the exact version
    /// and architecture of the `kidx`-th required solvable of `n`.
    pub open spec fn seeded_pin_ok(self, n: int, kidx: int, vsid: int) -> bool {
        &&& 0 <= vsid < self.version_sets@.len()
        &&& {
            let k = self.names@[n].required@[kidx] as int;
            let vs = self.version_sets@[vsid];
            &&& vs.name == n
            &&& vs.arch == self.solvables@[k].arch
            &&& vs.selfref is None
            &&& !vs.negated
            &&& match vs.range {
                VersionRange::Bounded(rel, b) => rel == crate::version::Rel::Exact && b@
                    == self.solvables@[k].package.version@,
                _ => false,
            }
        }
    }

    /// A baseline requirement for name `n`: one exact pin per required
    /// solvable of `n`, a single version set when there is one, a union in
    /// order when there are several.
    pub open spec fn seeded_req_for(self, n: int, r: Requirement) -> bool {
        &&& 0 <= n < self.names@.len()
        &&& self.names@[n].required@.len() >= 1
        &&& match r {
            Requirement::Single(v) => self.names@[n].required@.len() == 1 && self.seeded_pin_ok(
                n,
                0,
                v as int,
            ),
            Requirement::Union(u) => u < self.version_set_unions@.len()
                && self.version_set_unions@[u as int]@.len() == self.names@[n].required@.len()
                && forall|kidx: int|
                0 <= kidx < self.names@[n].required@.len() ==> self.seeded_pin_ok(
                    n,
                    kidx,
                    #[trigger] self.version_set_unions@[u as int]@[kidx] as int,
                ),
        }
    }

    /// A name whose entry was created by an essential/required package under
    /// its own name: exactly these are seeded into the baseline.
    pub open spec fn seed_name(self, n: int) -> bool {
        &&& self.names@[n].packages@.len() >= 1
        &&& {
            let k = self.names@[n].packages@[0] as int;
            &&& k < self.solvables@.len()
            &&& self.solvables@[k].name == n
            &&& (self.solvables@[k].package.essential || self.solvables@[k].package.required)
        }
    }

    /// Build a universe from a preferred architecture and a list of package
    /// sets. Every record is ingested in order; a record whose `Provides`
    /// failed to parse aborts construction with its parse error. Afterwards
    /// every name first recorded by an essential/required package under its
    /// own name is seeded as a baseline requirement pinning the exact
    /// versions of its required solvables.
    pub fn new(arch: &[u8], sets: Vec<Vec<PackageRecord>>) -> (r: Result<Universe, Vec<u8>>)
        ensures
            match r {
                Result::Ok(u) => {
                    let g = sets_view(sets@);
                    &&& u.wf()
                    &&& sol_packages(u.solvables@) == flat_upto(g, g.len() as int)
                    &&& (lower_seq(arch@) != all_bytes() ==> u.archlist@[u.arch as int]@ == arch@)
                    &&& (lower_seq(arch@) == all_bytes() ==> u.arch == 0)
                    &&& forall|i: int|
                        0 <= i < u.required@.len() ==> req_is_seeded(u, #[trigger] u.required@[i])
                    &&& forall|n: int|
                        0 <= n < u.names@.len() && #[trigger] u.seed_name(n) ==> name_is_seeded(
                            u,
                            n,
                        )
                },
                Result::Err(_) => {
                    let g = sets_view(sets@);
                    exists|si: int, pi: int|
                        0 <= si < g.len() && 0 <= pi < g[si].len()
                            && (#[trigger] g[si][pi]).provides is Err
                },
            },
    {
        let ghost g = sets_view(sets@);
        let mut uni = Universe {
            arch: 0,
            archlist: Vec::new(),
            strings: Vec::new(),
            names: Vec::new(),
            solvables: Vec::new(),
            version_sets: Vec::new(),
            version_set_unions: Vec::new(),
            required: Vec::new(),
        };
        let mut anyv: Vec<u8> = Vec::new();
        anyv.push(97);
        anyv.push(110);
        anyv.push(121);
        proof {
            assert(anyv@ =~= any_bytes());
        }
        uni.archlist.push(anyv);
        uni.strings.push(copy_bytes(arch));
        let aid = uni.get_arch_id(arch);
        uni.arch = aid;
        proof {
            assert(uni.arch_table_ok());
            assert(uni.ingest_wf());
        }
        let mut baseline: Vec<usize> = Vec::new();
        let total_sets = sets.len();
        proof {
            assert(g.len() == sets@.len());
        }
        let mut rest = sets;
        let mut si: usize = 0;
        while rest.len() > 0
            invariant
                g == sets_view(sets@),
                si + rest@.len() == g.len(),
                g.len() == total_sets as int,
                forall|t: int| 0 <= t < rest@.len() ==> (#[trigger] rest@[t])@ == g[si + t],
                sol_packages(uni.solvables@) == flat_upto(g, si as int),
                uni.ingest_wf(),
                uni.version_sets@.len() == 0,
                uni.version_set_unions@.len() == 0,
                uni.required@.len() == 0,
                (lower_seq(arch@) != all_bytes() ==> uni.archlist@[uni.arch as int]@ == arch@),
                (lower_seq(arch@) == all_bytes() ==> uni.arch == 0),
                forall|n: int| 0 <= n < uni.names@.len() ==> (#[trigger] uni.names@[n]).packages@.len() >= 1,
                forall|t: int| 0 <= t < baseline@.len() ==> (#[trigger] baseline@[t]) < uni.names@.len(),
                forall|n: int|
                    0 <= n < uni.names@.len() ==> (#[trigger] uni.seed_name(n) <==> baseline@.contains(
                        n as usize,
                    )),
            decreases rest@.len(),
        {
            let mut cur = rest.remove(0);
            let ghost gcur = g[si as int];
            let ghost pi: int = 0;
            proof {
                assert(cur@ == gcur);
            }
            while cur.len() > 0
                invariant
                    g == sets_view(sets@),
                    0 <= pi,
                    pi + cur@.len() == gcur.len(),
                    cur@ == gcur.skip(pi),
                    0 <= si < g.len(),
                    gcur == g[si as int],
                    sol_packages(uni.solvables@) == flat_upto(g, si as int) + gcur.take(pi),
                    uni.ingest_wf(),
                    uni.version_sets@.len() == 0,
                    uni.version_set_unions@.len() == 0,
                    uni.required@.len() == 0,
                    (lower_seq(arch@) != all_bytes() ==> uni.archlist@[uni.arch as int]@ == arch@),
                    (lower_seq(arch@) == all_bytes() ==> uni.arch == 0),
                    forall|n: int|
                        0 <= n < uni.names@.len() ==> (#[trigger] uni.names@[n]).packages@.len() >= 1,
                    forall|t: int|
                        0 <= t < baseline@.len() ==> (#[trigger] baseline@[t]) < uni.names@.len(),
                    forall|n: int|
                        0 <= n < uni.names@.len() ==> (#[trigger] uni.seed_name(n)
                            <==> baseline@.contains(n as usize)),
                decreases cur@.len(),
            {
                let rec = cur.remove(0);
                proof {
                    assert(rec == gcur[pi]);
                    assert(cur@ =~= gcur.skip(pi + 1));
                }
                let ghost pre = uni;
                let ghost bpre = baseline;
                let ghost grec = rec;
                let res = uni.add_package(si, &mut baseline, rec);
                match res {
                    Result::Err(e) => {
                        proof {
                            assert(0 <= (si as int) && (si as int) < g.len());
                            assert(0 <= pi < g[si as int].len());
                            assert(g[si as int][pi] == grec);
                            assert((sets_view(sets@)[si as int][pi]).provides is Err);
                        }
                        return Result::Err(e);
                    },
                    Result::Ok(_) => {},
                }
                proof {
                    let sid = pre.solvables@.len() as int;
                    let nid = uni.solvables@[sid].name as int;
                    let flag = grec.essential || grec.required;
                    assert(sol_packages(uni.solvables@) =~= flat_upto(g, si as int) + gcur.take(
                        pi + 1,
                    )) by {
                        assert(uni.solvables@.subrange(0, sid) == pre.solvables@);
                        let fl = flat_upto(g, si as int);
                        assert(sol_packages(pre.solvables@).len() == pre.solvables@.len());
                        assert(fl.len() + pi == pre.solvables@.len());
                        assert(sol_packages(uni.solvables@).len() == fl.len() + pi + 1);
                        assert forall|t: int|
                            0 <= t < uni.solvables@.len() implies #[trigger] sol_packages(
                            uni.solvables@,
                        )[t] == (fl + gcur.take(pi + 1))[t] by {
                            assert(sol_packages(uni.solvables@)[t] == uni.solvables@[t].package);
                            if t < sid {
                                assert(uni.solvables@[t] == pre.solvables@.index(t));
                                assert(sol_packages(pre.solvables@)[t] == pre.solvables@[
                                    t
                                ].package);
                                assert(sol_packages(pre.solvables@)[t] == (fl + gcur.take(pi))[t]);
                                if t < fl.len() {
                                    assert((fl + gcur.take(pi))[t] == fl[t]);
                                    assert((fl + gcur.take(pi + 1))[t] == fl[t]);
                                } else {
                                    assert((fl + gcur.take(pi))[t] == gcur.take(pi)[t - fl.len()]);
                                    assert(gcur.take(pi)[t - fl.len()] == gcur[t - fl.len()]);
                                    assert((fl + gcur.take(pi + 1))[t] == gcur.take(pi + 1)[t
                                        - fl.len()]);
                                    assert(gcur.take(pi + 1)[t - fl.len()] == gcur[t - fl.len()]);
                                }
                            } else {
                                assert(t == sid);
                                assert(uni.solvables@[t].package == grec);
                                assert(grec == gcur[pi]);
                                assert((fl + gcur.take(pi + 1))[t] == gcur.take(pi + 1)[pi]);
                            }
                        }
                    }
                    assert forall|n: int|
                        0 <= n < uni.names@.len() implies (#[trigger] uni.names@[
                        n
                    ]).packages@.len() >= 1 by {
                        if n < pre.names@.len() {
                            assert(pre.names@[n].packages@.is_prefix_of(uni.names@[n].packages@));
                        }
                    }
                    assert forall|n: int|
                        0 <= n < uni.names@.len() implies (#[trigger] uni.seed_name(n)
                            <==> baseline@.contains(n as usize)) by {
                        assert(uni.names.len() == uni.names@.len());
                        assert((n as usize) as int == n);
                        if n < pre.names@.len() {
                            assert(pre.seed_name(n) <==> bpre@.contains(n as usize));
                            assert(uni.seed_name(n) == pre.seed_name(n)) by {
                                assert(pre.names@[n].packages@.is_prefix_of(
                                    uni.names@[n].packages@,
                                ));
                                assert(pre.names@[n].packages@.len() >= 1);
                                assert(uni.names@[n].packages@[0] == pre.names@[n].packages@[0]);
                                let k = pre.names@[n].packages@[0] as int;
                                assert(k < pre.solvables@.len());
                                assert(uni.solvables@[k] == pre.solvables@[k]);
                            }
                            if uni.seed_name(n) {
                                assert(bpre@.contains(n as usize));
                                lemma_prefix_contains_gen(bpre@, baseline@, n as usize);
                            }
                            if baseline@.contains(n as usize) {
                                let t = choose|t: int|
                                    0 <= t < baseline@.len() && baseline@[t] == n as usize;
                                if t < bpre@.len() {
                                    assert(bpre@[t] == n as usize);
                                } else {
                                    assert(baseline@[t] == nid as usize);
                                    assert(nid == pre.names@.len());
                                    assert(false);
                                }
                            }
                        } else {
                            assert(pre.solvables@.len() <= usize::MAX);
                            assert((sid as usize) as int == sid);
                            assert(uni.names@[n].packages@[0] == sid as usize);
                            assert(uni.solvables@[sid].name == nid);
                            assert(uni.seed_name(n) <==> (n == nid && flag)) by {
                                assert(uni.solvables@[sid].package == grec);
                            }
                            let fresh = nid == pre.names@.len();
                            if baseline@.contains(n as usize) {
                                let t = choose|t: int|
                                    0 <= t < baseline@.len() && baseline@[t] == n as usize;
                                if t < bpre@.len() {
                                    assert(bpre@[t] < pre.names@.len());
                                    assert(false);
                                } else {
                                    assert(fresh && flag && baseline@ == bpre@.push(nid as usize));
                                    assert(n == nid);
                                }
                            }
                            if n == nid && flag {
                                assert(fresh);
                                assert(baseline@ == bpre@.push(nid as usize));
                                assert(baseline@[baseline@.len() - 1] == n as usize);
                            }
                        }
                    }
                }
                proof {
                    assert(uni.names.len() == uni.names@.len());
                    assert forall|t: int|
                        0 <= t < baseline@.len() implies (#[trigger] baseline@[t])
                        < uni.names@.len() by {
                        if t < bpre@.len() {
                            assert(bpre@[t] < pre.names@.len());
                            assert(pre.names@.len() <= uni.names@.len());
                        } else {
                            let sid = pre.solvables@.len() as int;
                            let nid = uni.solvables@[sid].name as int;
                            assert(baseline@ == bpre@.push(nid as usize));
                            assert(baseline@[t] == nid as usize);
                            assert(nid < uni.names@.len());
                        }
                    }
                    pi = pi + 1;
                }
            }
            proof {
                assert(gcur.take(pi) =~= gcur);
                assert(flat_upto(g, si as int + 1) == flat_upto(g, si as int) + gcur);
                assert forall|t: int| 0 <= t < rest@.len() implies (#[trigger] rest@[t])@ == g[
                    si + 1 + t
                ] by {
                }
            }
            si = si + 1;
        }
        proof {
            assert(sol_packages(uni.solvables@) == flat_upto(g, g.len() as int));
        }
        let ghost ingested = uni;
        let mut bi: usize = 0;
        while bi < baseline.len()
            invariant
                g == sets_view(sets@),
                bi <= baseline@.len(),
                sol_packages(uni.solvables@) == flat_upto(g, g.len() as int),
                (lower_seq(arch@) != all_bytes() ==> uni.archlist@[uni.arch as int]@ == arch@),
                (lower_seq(arch@) == all_bytes() ==> uni.arch == 0),
                uni.names == ingested.names,
                uni.solvables == ingested.solvables,
                uni.archlist == ingested.archlist,
                uni.arch == ingested.arch,
                uni.ingest_wf(),
                uni.version_sets_ok(),
                uni.unions_ok(),
                uni.required_ok(),
                forall|t: int|
                    0 <= t < baseline@.len() ==> (#[trigger] baseline@[t]) < uni.names@.len(),
                forall|n: int|
                    0 <= n < uni.names@.len() ==> (#[trigger] uni.seed_name(n)
                        <==> baseline@.contains(n as usize)),
                uni.required@.len() == bi,
                forall|i: int|
                    0 <= i < bi ==> uni.seeded_req_for(
                        baseline@[i] as int,
                        #[trigger] uni.required@[i],
                    ),
            decreases baseline@.len() - bi,
        {
            let n = baseline[bi];
            proof {
                assert(baseline@.contains(n));
                assert(uni.seed_name(n as int));
                let k0 = uni.names@[n as int].packages@[0];
                assert(uni.names@[n as int].required@.contains(k0)) by {
                    assert(uni.buckets_complete(uni.solvables@.len() as int));
                }
                assert(uni.names@[n as int].required@.len() >= 1);
            }
            let ghost upre = uni;
            let mut pins: Vec<usize> = Vec::new();
            let mut k: usize = 0;
            let rlen = uni.names[n].required.len();
            while k < rlen
                invariant
                    k <= rlen,
                    n < uni.names@.len(),
                    rlen == uni.names@[n as int].required@.len(),
                    uni.names == upre.names,
                    uni.solvables == upre.solvables,
                    uni.archlist == upre.archlist,
                    uni.arch == upre.arch,
                    uni.version_set_unions == upre.version_set_unions,
                    uni.required == upre.required,
                    upre.version_sets@.is_prefix_of(uni.version_sets@),
                    uni.ingest_wf(),
                    uni.version_sets_ok(),
                    uni.unions_ok(),
                    pins@.len() == k,
                    forall|t: int|
                        0 <= t < k ==> uni.seeded_pin_ok(
                            n as int,
                            t,
                            (#[trigger] pins@[t]) as int,
                        ),
                decreases rlen - k,
            {
                let ks = uni.names[n].required[k];
                proof {
                    assert(uni.buckets_sound());
                    assert(ks == uni.names@[n as int].required@[k as int]);
                    assert(ks < uni.solvables@.len());
                    assert(uni.solvable_ok(ks as int));
                }
                let a = uni.solvables[ks].arch;
                let ver = copy_bytes(uni.solvables[ks].package.version.as_slice());
                let ghost vpre = uni;
                let vsid = uni.get_version_set_id(
                    VersionSet {
                        arch: a,
                        name: n,
                        selfref: None,
                        range: VersionRange::Bounded(crate::version::Rel::Exact, ver),
                        negated: false,
                    },
                );
                pins.push(vsid);
                proof {
                    lemma_ingest_frame(vpre, uni);
                    lemma_unions_grow(vpre, uni);
                    assert(uni.seeded_pin_ok(n as int, k as int, vsid as int));
                    assert forall|t: int|
                        0 <= t < k + 1 implies uni.seeded_pin_ok(
                        n as int,
                        t,
                        (#[trigger] pins@[t]) as int,
                    ) by {
                        if t < k {
                            assert(vpre.seeded_pin_ok(n as int, t, pins@[t] as int));
                            assert(uni.version_sets@[pins@[t] as int] == vpre.version_sets@[
                                pins@[t] as int
                            ]);
                        }
                    }
                }
                k = k + 1;
            }
            let ghost upost = uni;
            let req = if pins.len() == 1 {
                Requirement::Single(pins[0])
            } else {
                let ghost pinsv = pins@;
                let u = uni.get_union_id(pins);
                proof {
                    assert(uni.version_set_unions@[u as int]@ == pinsv);
                }
                Requirement::Union(u)
            };
            proof {
                assert(uni.seeded_req_for(n as int, req)) by {
                    assert(uni.names@[n as int].required@.len() == rlen);
                    if rlen == 1 {
                    } else {
                        assert(req is Union);
                    }
                }
            }
            let ghost rpre = uni;
            uni.required.push(req);
            proof {
                lemma_ingest_frame(upost, rpre);
                lemma_ingest_frame(rpre, uni);
                lemma_version_sets_frame(upost, rpre);
                lemma_version_sets_frame(rpre, uni);
                lemma_unions_grow(rpre, uni);
                assert(uni.required@ == rpre.required@.push(req));
                assert forall|i: int|
                    0 <= i < bi + 1 implies uni.seeded_req_for(
                    baseline@[i] as int,
                    #[trigger] uni.required@[i],
                ) by {
                    if i < bi {
                        assert(upre.seeded_req_for(baseline@[i] as int, upre.required@[i]));
                        lemma_seeded_stable(upre, uni, baseline@[i] as int, upre.required@[i]);
                        assert(uni.required@[i] == upre.required@[i]);
                    } else {
                        lemma_seeded_stable(rpre, uni, n as int, req);
                    }
                }
                assert forall|i: int|
                    0 <= i < uni.required@.len() implies uni.req_ok(
                    #[trigger] uni.required@[i],
                ) by {
                    if i < bi {
                        assert(uni.seeded_req_for(baseline@[i] as int, uni.required@[i]));
                    } else {
                        assert(uni.seeded_req_for(n as int, uni.required@[i]));
                    }
                }
                assert forall|n2: int|
                    0 <= n2 < uni.names@.len() implies (#[trigger] uni.seed_name(n2)
                        <==> baseline@.contains(n2 as usize)) by {
                    assert(upre.seed_name(n2) <==> baseline@.contains(n2 as usize));
                    assert(uni.names@[n2] == upre.names@[n2]);
                    if upre.seed_name(n2) {
                        let k = upre.names@[n2].packages@[0] as int;
                        assert(uni.solvables@[k] == upre.solvables@[k]);
                        assert(uni.seed_name(n2));
                    }
                    if uni.seed_name(n2) {
                        let k = uni.names@[n2].packages@[0] as int;
                        assert(uni.solvables@[k] == upre.solvables@[k]);
                        assert(upre.seed_name(n2));
                    }
                }
            }
            bi = bi + 1;
        }
        proof {
            assert(uni.wf());
            assert forall|i: int|
                0 <= i < uni.required@.len() implies req_is_seeded(
                uni,
                #[trigger] uni.required@[i],
            ) by {
                assert(uni.seeded_req_for(baseline@[i] as int, uni.required@[i]));
            }
            assert forall|n2: int|
                0 <= n2 < uni.names@.len() && #[trigger] uni.seed_name(n2) implies name_is_seeded(
                uni,
                n2,
            ) by {
                assert(baseline@.contains(n2 as usize));
                let t = choose|t: int| 0 <= t < baseline@.len() && baseline@[t] == n2 as usize;
                assert(uni.seeded_req_for(baseline@[t] as int, uni.required@[t]));
            }
        }
        Result::Ok(uni)
    }
}

/// The ingestion invariant only reads the index fields: it carries over to
/// any universe that keeps them.
proof fn lemma_ingest_frame(a: Universe, b: Universe)
    requires
        a.ingest_wf(),
        b.names == a.names,
        b.solvables == a.solvables,
        b.archlist == a.archlist,
        b.arch == a.arch,
    ensures
        b.ingest_wf(),
{
    assert forall|s: int| 0 <= s < b.solvables@.len() implies #[trigger] b.solvable_ok(s) by {
        assert(a.solvable_ok(s));
    }
    assert(b.buckets_sound()) by {
        assert forall|n: int, i: int|
            0 <= n < b.names@.len() && 0 <= i < b.names@[n].packages@.len() implies {
            let k = #[trigger] b.names@[n].packages@[i];
            k < b.solvables@.len() && provides_name_spec(
                b.solvables@[k as int].package,
                b.names@[n].name@,
            )
        } by {
            assert(a.buckets_sound());
            assert(a.names@[n].packages@[i] == b.names@[n].packages@[i]);
        }
        assert forall|n: int, i: int|
            0 <= n < b.names@.len() && 0 <= i < b.names@[n].required@.len() implies {
            let k = #[trigger] b.names@[n].required@[i];
            k < b.solvables@.len() && b.solvables@[k as int].name == n && (b.solvables@[
                k as int
            ].package.essential || b.solvables@[k as int].package.required)
        } by {
            assert(a.buckets_sound());
            assert(a.names@[n].required@[i] == b.names@[n].required@[i]);
        }
    }
    assert(b.buckets_complete(b.solvables@.len() as int)) by {
        assert forall|n: int, s: int|
            0 <= n < b.names@.len() && 0 <= s < b.solvables@.len() && provides_name_spec(
                #[trigger] b.solvables@[s].package,
                #[trigger] b.names@[n].name@,
            ) implies b.names@[n].packages@.contains(s as usize) by {
            assert(a.buckets_complete(a.solvables@.len() as int));
            assert(a.names@[n].packages@.contains(s as usize));
        }
        assert forall|n: int, s: int|
            0 <= n < b.names@.len() && 0 <= s < b.solvables@.len() && #[trigger] b.solvables@[
                s
            ].name == n && (b.solvables@[s].package.essential || b.solvables@[
                s
            ].package.required) implies #[trigger] b.names@[n].required@.contains(s as usize) by {
            assert(a.buckets_complete(a.solvables@.len() as int));
            assert(a.names@[n].required@.contains(s as usize));
        }
    }
    assert(b.name_coverage(b.solvables@.len() as int)) by {
        assert forall|s: int, j2: int|
            0 <= s < b.solvables@.len() && 0 <= j2 < b.solvables@[
                s
            ].package.provides->Ok_0@.len() && b.solvables@[
                s
            ].package.provides is Ok implies exists|n: int|
            0 <= n < b.names@.len() && b.names@[n].name@ == (#[trigger] b.solvables@[
                s
            ].package.provides->Ok_0@[j2]).name@ by {
            assert(a.name_coverage(a.solvables@.len() as int));
            let n0 = choose|n0: int|
                0 <= n0 < a.names@.len() && a.names@[n0].name@ == a.solvables@[
                    s
                ].package.provides->Ok_0@[j2].name@;
            assert(b.names@[n0].name@ == b.solvables@[s].package.provides->Ok_0@[j2].name@);
        }
    }
}

/// Union validity survives version-set growth when the union table itself is
/// untouched.
proof fn lemma_unions_grow(a: Universe, b: Universe)
    requires
        a.unions_ok(),
        b.version_set_unions == a.version_set_unions,
        a.version_sets@.len() <= b.version_sets@.len(),
    ensures
        b.unions_ok(),
{
    assert forall|u: int| 0 <= u < b.version_set_unions@.len() implies #[trigger] b.union_ok(
        u,
    ) by {
        assert(a.union_ok(u));
        assert forall|k: int|
            0 <= k < b.version_set_unions@[u]@.len() implies #[trigger] b.version_set_unions@[
            u
        ]@[k] < b.version_sets@.len() by {
            assert(a.version_set_unions@[u]@[k] < a.version_sets@.len());
        }
    }
}

/// Version-set validity survives unchanged tables.
proof fn lemma_version_sets_frame(a: Universe, b: Universe)
    requires
        a.version_sets_ok(),
        b.version_sets == a.version_sets,
        b.names == a.names,
        b.archlist == a.archlist,
        b.solvables == a.solvables,
    ensures
        b.version_sets_ok(),
{
    assert forall|v: int| 0 <= v < b.version_sets@.len() implies #[trigger] b.vs_ok(v) by {
        assert(a.vs_ok(v));
    }
}

/// Membership survives appending.
proof fn lemma_prefix_contains_gen(a: Seq<usize>, b: Seq<usize>, x: usize)
    requires
        a.is_prefix_of(b) || (exists|y: usize| b == a.push(y)),
        a.contains(x),
    ensures
        b.contains(x),
{
    let i = choose|i: int| 0 <= i < a.len() && a[i] == x;
    assert(b[i] == x);
}

/// A seeded requirement stays seeded when the interning tables only grow and
/// the index is untouched.
proof fn lemma_seeded_stable(a: Universe, b: Universe, n: int, r: Requirement)
    requires
        a.seeded_req_for(n, r),
        b.names == a.names,
        b.solvables == a.solvables,
        a.version_sets@.is_prefix_of(b.version_sets@),
        a.version_set_unions@.is_prefix_of(b.version_set_unions@),
    ensures
        b.seeded_req_for(n, r),
{
    match r {
        Requirement::Single(v) => {
            assert(b.version_sets@[v as int] == a.version_sets@[v as int]);
        },
        Requirement::Union(u) => {
            assert(b.version_set_unions@[u as int] == a.version_set_unions@[u as int]);
            assert forall|kidx: int|
                0 <= kidx < b.names@[n].required@.len() implies b.seeded_pin_ok(
                n,
                kidx,
                #[trigger] b.version_set_unions@[u as int]@[kidx] as int,
            ) by {
                let v = a.version_set_unions@[u as int]@[kidx];
                assert(a.seeded_pin_ok(n, kidx, v as int));
                assert(b.version_sets@[v as int] == a.version_sets@[v as int]);
            }
        },
    }
}

/// Append a byte slice to a vector.
pub fn append_bytes(dst: &mut Vec<u8>, src: &[u8])
    ensures
        final(dst)@ == old(dst)@ + src@,
{
    let mut k: usize = 0;
    while k < src.len()
        invariant
            k <= src@.len(),
            dst@ == old(dst)@ + src@.take(k as int),
        decreases src@.len() - k,
    {
        dst.push(src[k]);
        assert(dst@ =~= old(dst)@ + src@.take(k + 1 as int));
        k = k + 1;
    }
    assert(dst@ =~= old(dst)@ + src@);
}

/// The display form of a package: `name:architecture=version`.
pub open spec fn solvable_display(p: PackageRecord) -> Seq<u8> {
    p.name@ + seq![58u8] + p.architecture@ + seq![61u8] + p.version@
}

/// The result of materializing a solvable's dependencies: the requirement
/// and constraint lists, or the id of an interned parse error message.
#[derive(Debug)]
pub enum SolvableDeps {
    Known(Vec<Requirement>, Vec<usize>),
    Unknown(usize),
}

/// A fresh name entry (or several) keeps the universe invariant: nothing can
/// already provide a name that had no entry.
proof fn lemma_wf_after_intern(pre: Universe, cur: Universe)
    requires
        pre.wf(),
        cur.solvables == pre.solvables,
        cur.archlist == pre.archlist,
        cur.arch == pre.arch,
        cur.version_sets == pre.version_sets,
        cur.version_set_unions == pre.version_set_unions,
        cur.required == pre.required,
        cur.names_distinct(),
        pre.names@.len() <= cur.names@.len(),
        forall|n: int| 0 <= n < pre.names@.len() ==> #[trigger] cur.names@[n] == pre.names@[n],
        forall|n: int|
            pre.names@.len() <= n < cur.names@.len() ==> (#[trigger] cur.names@[n]).packages@
                == Seq::<usize>::empty() && cur.names@[n].required@ == Seq::<usize>::empty(),
        forall|n: int|
            pre.names@.len() <= n < cur.names@.len() ==> !(exists|i: int|
                0 <= i < pre.names@.len() && (#[trigger] pre.names@[i]).name@ == (
                #[trigger] cur.names@[n]).name@),
    ensures
        cur.wf(),
{
    assert forall|s: int| 0 <= s < cur.solvables@.len() implies #[trigger] cur.solvable_ok(s) by {
        assert(pre.solvable_ok(s));
    }
    assert forall|v: int| 0 <= v < cur.version_sets@.len() implies #[trigger] cur.vs_ok(v) by {
        assert(pre.vs_ok(v));
    }
    assert forall|u: int| 0 <= u < cur.version_set_unions@.len() implies #[trigger] cur.union_ok(
        u,
    ) by {
        assert(pre.union_ok(u));
    }
    assert forall|i: int| 0 <= i < cur.required@.len() implies cur.req_ok(
        #[trigger] cur.required@[i],
    ) by {
        assert(pre.req_ok(pre.required@[i]));
    }
    assert(cur.buckets_sound()) by {
        assert forall|n: int, i: int|
            0 <= n < cur.names@.len() && 0 <= i < cur.names@[n].packages@.len() implies {
            let k = #[trigger] cur.names@[n].packages@[i];
            k < cur.solvables@.len() && provides_name_spec(
                cur.solvables@[k as int].package,
                cur.names@[n].name@,
            )
        } by {
            assert(n < pre.names@.len());
            assert(cur.names@[n] == pre.names@[n]);
            assert(pre.buckets_sound());
        }
        assert forall|n: int, i: int|
            0 <= n < cur.names@.len() && 0 <= i < cur.names@[n].required@.len() implies {
            let k = #[trigger] cur.names@[n].required@[i];
            k < cur.solvables@.len() && cur.solvables@[k as int].name == n && (cur.solvables@[
                k as int
            ].package.essential || cur.solvables@[k as int].package.required)
        } by {
            assert(n < pre.names@.len());
            assert(cur.names@[n] == pre.names@[n]);
            assert(pre.buckets_sound());
        }
    }
    assert(cur.buckets_complete(cur.solvables@.len() as int)) by {
        assert forall|n: int, s: int|
            0 <= n < cur.names@.len() && 0 <= s < cur.solvables@.len() && provides_name_spec(
                #[trigger] cur.solvables@[s].package,
                #[trigger] cur.names@[n].name@,
            ) implies cur.names@[n].packages@.contains(s as usize) by {
            if n < pre.names@.len() {
                assert(pre.buckets_complete(pre.solvables@.len() as int));
                assert(pre.names@[n].packages@.contains(s as usize));
            } else {
                lemma_no_old_provider(pre, pre.solvables@.len() as int, s, cur.names@[n].name@);
                assert(false);
            }
        }
        assert forall|n: int, s: int|
            0 <= n < cur.names@.len() && 0 <= s < cur.solvables@.len() && #[trigger] cur.solvables@[
                s
            ].name == n && (cur.solvables@[s].package.essential || cur.solvables@[
                s
            ].package.required) implies #[trigger] cur.names@[n].required@.contains(s as usize) by {
            assert(pre.solvable_ok(s));
            assert(n < pre.names@.len());
            assert(pre.buckets_complete(pre.solvables@.len() as int));
            assert(pre.names@[n].required@.contains(s as usize));
        }
    }
    assert(cur.name_coverage(cur.solvables@.len() as int)) by {
        assert forall|s: int, j2: int|
            0 <= s < cur.solvables@.len() && 0 <= j2 < cur.solvables@[
                s
            ].package.provides->Ok_0@.len() && cur.solvables@[
                s
            ].package.provides is Ok implies exists|n: int|
            0 <= n < cur.names@.len() && cur.names@[n].name@ == (#[trigger] cur.solvables@[
                s
            ].package.provides->Ok_0@[j2]).name@ by {
            assert(pre.name_coverage(pre.solvables@.len() as int));
            let n0 = choose|n0: int|
                0 <= n0 < pre.names@.len() && pre.names@[n0].name@ == pre.solvables@[
                    s
                ].package.provides->Ok_0@[j2].name@;
            assert(cur.names@[n0].name@ == cur.solvables@[s].package.provides->Ok_0@[j2].name@);
        }
    }
}

/// The invariant survives growth of the architecture table alone.
proof fn lemma_wf_archlist_grow(pre: Universe, cur: Universe)
    requires
        pre.wf(),
        cur.arch_table_ok(),
        cur.names == pre.names,
        cur.solvables == pre.solvables,
        cur.strings == pre.strings,
        cur.version_sets == pre.version_sets,
        cur.version_set_unions == pre.version_set_unions,
        cur.required == pre.required,
        pre.archlist@.is_prefix_of(cur.archlist@),
    ensures
        cur.wf(),
{
    assert forall|s: int| 0 <= s < cur.solvables@.len() implies #[trigger] cur.solvable_ok(s) by {
        assert(pre.solvable_ok(s));
    }
    assert forall|v: int| 0 <= v < cur.version_sets@.len() implies #[trigger] cur.vs_ok(v) by {
        assert(pre.vs_ok(v));
    }
    assert forall|u: int| 0 <= u < cur.version_set_unions@.len() implies #[trigger] cur.union_ok(
        u,
    ) by {
        assert(pre.union_ok(u));
    }
    assert forall|i: int| 0 <= i < cur.required@.len() implies cur.req_ok(
        #[trigger] cur.required@[i],
    ) by {
        assert(pre.req_ok(pre.required@[i]));
    }
    lemma_ingest_frame_buckets(pre, cur);
}

/// Bucket and coverage predicates only read names and solvables.
proof fn lemma_ingest_frame_buckets(pre: Universe, cur: Universe)
    requires
        pre.buckets_sound(),
        pre.buckets_complete(pre.solvables@.len() as int),
        pre.name_coverage(pre.solvables@.len() as int),
        cur.names == pre.names,
        cur.solvables == pre.solvables,
    ensures
        cur.buckets_sound(),
        cur.buckets_complete(cur.solvables@.len() as int),
        cur.name_coverage(cur.solvables@.len() as int),
{
    assert(cur.buckets_sound()) by {
        assert forall|n: int, i: int|
            0 <= n < cur.names@.len() && 0 <= i < cur.names@[n].packages@.len() implies {
            let k = #[trigger] cur.names@[n].packages@[i];
            k < cur.solvables@.len() && provides_name_spec(
                cur.solvables@[k as int].package,
                cur.names@[n].name@,
            )
        } by {
            assert(pre.names@[n].packages@[i] == cur.names@[n].packages@[i]);
        }
        assert forall|n: int, i: int|
            0 <= n < cur.names@.len() && 0 <= i < cur.names@[n].required@.len() implies {
            let k = #[trigger] cur.names@[n].required@[i];
            k < cur.solvables@.len() && cur.solvables@[k as int].name == n && (cur.solvables@[
                k as int
            ].package.essential || cur.solvables@[k as int].package.required)
        } by {
            assert(pre.names@[n].required@[i] == cur.names@[n].required@[i]);
        }
    }
    assert(cur.buckets_complete(cur.solvables@.len() as int)) by {
        assert forall|n: int, s: int|
            0 <= n < cur.names@.len() && 0 <= s < cur.solvables@.len() && provides_name_spec(
                #[trigger] cur.solvables@[s].package,
                #[trigger] cur.names@[n].name@,
            ) implies cur.names@[n].packages@.contains(s as usize) by {
            assert(pre.names@[n].packages@.contains(s as usize));
        }
        assert forall|n: int, s: int|
            0 <= n < cur.names@.len() && 0 <= s < cur.solvables@.len() && #[trigger] cur.solvables@[
                s
            ].name == n && (cur.solvables@[s].package.essential || cur.solvables@[
                s
            ].package.required) implies #[trigger] cur.names@[n].required@.contains(s as usize) by {
            assert(pre.names@[n].required@.contains(s as usize));
        }
    }
    assert(cur.name_coverage(cur.solvables@.len() as int)) by {
        assert forall|s: int, j2: int|
            0 <= s < cur.solvables@.len() && 0 <= j2 < cur.solvables@[
                s
            ].package.provides->Ok_0@.len() && cur.solvables@[
                s
            ].package.provides is Ok implies exists|n: int|
            0 <= n < cur.names@.len() && cur.names@[n].name@ == (#[trigger] cur.solvables@[
                s
            ].package.provides->Ok_0@[j2]).name@ by {
            let n0 = choose|n0: int|
                0 <= n0 < pre.names@.len() && pre.names@[n0].name@ == pre.solvables@[
                    s
                ].package.provides->Ok_0@[j2].name@;
            assert(cur.names@[n0].name@ == cur.solvables@[s].package.provides->Ok_0@[j2].name@);
        }
    }
}

/// The invariant survives growth of the version-set and union tables alone.
proof fn lemma_wf_tables_grow(pre: Universe, cur: Universe)
    requires
        pre.wf(),
        cur.version_sets_ok(),
        cur.unions_ok(),
        cur.names == pre.names,
        cur.solvables == pre.solvables,
        cur.archlist == pre.archlist,
        cur.arch == pre.arch,
        cur.required == pre.required,
        pre.version_sets@.len() <= cur.version_sets@.len(),
        pre.version_set_unions@.len() <= cur.version_set_unions@.len(),
    ensures
        cur.wf(),
{
    assert forall|s: int| 0 <= s < cur.solvables@.len() implies #[trigger] cur.solvable_ok(s) by {
        assert(pre.solvable_ok(s));
    }
    assert forall|i: int| 0 <= i < cur.required@.len() implies cur.req_ok(
        #[trigger] cur.required@[i],
    ) by {
        assert(pre.req_ok(pre.required@[i]));
    }
    lemma_ingest_frame_buckets(pre, cur);
}

impl Universe {
    /// The architecture id a package dependency resolves to: the owning
    /// solvable's architecture when the qualifier is absent, `Any` for a
    /// literal `any` (or `all`), otherwise the named architecture.
    pub open spec fn dep_arch_ok(self, c: Constraint, owner: int, aid: int) -> bool {
        match c.arch {
            Option::None => aid == self.solvables@[owner].arch,
            Option::Some(a) => {
                if lower_seq(a@) == any_bytes() || lower_seq(a@) == all_bytes() {
                    aid == 0
                } else {
                    0 <= aid < self.archlist@.len() && self.archlist@[aid]@ == a@
                }
            },
        }
    }

    /// Version set `vsid` is the interned form of package dependency `c` of
    /// solvable `owner`: name and range carried over, architecture resolved
    /// by [`Universe::dep_arch_ok`], and the self-reference set exactly when
    /// the owner itself declares the constrained name.
    pub open spec fn vs_for_dep(self, vsid: int, c: Constraint, owner: int) -> bool {
        &&& 0 <= vsid < self.version_sets@.len()
        &&& {
            let vs = self.version_sets@[vsid];
            &&& vs.name < self.names@.len()
            &&& self.names@[vs.name as int].name@ == c.name@
            &&& self.dep_arch_ok(c, owner, vs.arch as int)
            &&& vs.selfref == if provides_name_spec(self.solvables@[owner].package, c.name@) {
                Option::Some(owner as usize)
            } else {
                Option::None::<usize>
            }
            &&& !vs.negated
            &&& crate::version::range_eqv(vs.range, c.range)
        }
    }

    /// Version set `vsid` is the interned, negated form of constraint `c` of
    /// solvable `owner` (`Conflicts`/`Breaks`): the same components, but the
    /// set matches the candidates that do not violate the prohibition.
    pub open spec fn vs_for_con(self, vsid: int, c: Constraint, owner: int) -> bool {
        &&& 0 <= vsid < self.version_sets@.len()
        &&& {
            let vs = self.version_sets@[vsid];
            &&& vs.name < self.names@.len()
            &&& self.names@[vs.name as int].name@ == c.name@
            &&& self.dep_arch_ok(c, owner, vs.arch as int)
            &&& vs.selfref == if provides_name_spec(self.solvables@[owner].package, c.name@) {
                Option::Some(owner as usize)
            } else {
                Option::None::<usize>
            }
            &&& vs.negated
            &&& crate::version::range_eqv(vs.range, c.range)
        }
    }

    /// Requirement `r` is the interned form of dependency `d` of `owner`.
    pub open spec fn req_for_dep(self, r: Requirement, d: Dependency, owner: int) -> bool {
        match d {
            Dependency::Single(c) => r is Single && self.vs_for_dep(r->Single_0 as int, c, owner),
            Dependency::Union(cs) => r is Union && {
                let u = r->Union_0 as int;
                &&& 0 <= u < self.version_set_unions@.len()
                &&& self.version_set_unions@[u]@.len() == cs@.len()
                &&& forall|k: int|
                    0 <= k < cs@.len() ==> self.vs_for_dep(
                        (#[trigger] self.version_set_unions@[u]@[k]) as int,
                        cs@[k],
                        owner,
                    )
            },
        }
    }

    /// Intern one dependency constraint of a package, with the owner's
    /// architecture as default and the self-reference rule applied; a
    /// `Conflicts`/`Breaks` constraint is interned negated.
    pub fn add_single_package_dependency(&mut self, owner: usize, dep: &Constraint, negated: bool) -> (vsid:
        usize)
        requires
            old(self).wf(),
            owner < old(self).solvables@.len(),
        ensures
            final(self).wf(),
            old(self).grows_to(*final(self)),
            final(self).strings == old(self).strings,
            final(self).version_set_unions == old(self).version_set_unions,
            !negated ==> final(self).vs_for_dep(vsid as int, *dep, owner as int),
            negated ==> final(self).vs_for_con(vsid as int, *dep, owner as int),
    {
        let selfref = self.solvables[owner].package.provides_name(dep.name.as_slice());
        let (nid, _fresh) = self.intern_name(dep.name.as_slice());
        proof {
            lemma_wf_after_intern(*old(self), *self);
        }
        let ghost a1 = *self;
        let aid: usize = match &dep.arch {
            Option::None => self.solvables[owner].arch,
            Option::Some(a) => {
                let any_lit: [u8; 3] = [97, 110, 121];
                if crate::bytes::eq_ignore_case(a.as_slice(), any_lit.as_slice()) {
                    proof {
                        assert(lower_seq(any_lit@) =~= any_bytes());
                    }
                    0
                } else {
                    proof {
                        assert(lower_seq(any_lit@) =~= any_bytes());
                    }
                    self.get_arch_id(a.as_slice())
                }
            },
        };
        proof {
            lemma_wf_archlist_grow(a1, *self);
        }
        let ghost a2 = *self;
        proof {
            assert(a2.solvable_ok(owner as int));
            assert(aid < a2.archlist@.len());
        }
        let range = crate::model::clone_range(&dep.range);
        let vsid = self.get_version_set_id(
            VersionSet {
                arch: aid,
                name: nid,
                selfref: if selfref {
                    Some(owner)
                } else {
                    None
                },
                range,
                negated,
            },
        );
        proof {
            lemma_unions_grow(a2, *self);
            lemma_wf_tables_grow(a2, *self);
            assert(final(self).names@[nid as int].name@ == dep.name@);
        }
        vsid
    }
}

/// Growth is transitive.
proof fn lemma_grows_trans(a: Universe, b: Universe, c: Universe)
    requires
        a.grows_to(b),
        b.grows_to(c),
    ensures
        a.grows_to(c),
{
    assert forall|n: int| 0 <= n < a.names@.len() implies #[trigger] c.names@[n] == a.names@[n] by {
        assert(b.names@[n] == a.names@[n]);
    }
}

/// An interned package dependency stays interned as the tables grow.
proof fn lemma_vs_for_dep_stable(a: Universe, b: Universe, vsid: int, c: Constraint, owner: int)
    requires
        a.vs_for_dep(vsid, c, owner),
        a.grows_to(b),
    ensures
        b.vs_for_dep(vsid, c, owner),
{
    assert(b.version_sets@[vsid] == a.version_sets@[vsid]);
    let vs = a.version_sets@[vsid];
    assert(b.names@[vs.name as int] == a.names@[vs.name as int]);
    match c.arch {
        Option::None => {},
        Option::Some(x) => {
            if lower_seq(x@) != any_bytes() && lower_seq(x@) != all_bytes() {
                assert(b.archlist@[vs.arch as int] == a.archlist@[vs.arch as int]);
            }
        },
    }
}

/// An interned requirement stays interned as the tables grow.
proof fn lemma_req_for_dep_stable(a: Universe, b: Universe, r: Requirement, d: Dependency, owner: int)
    requires
        a.req_for_dep(r, d, owner),
        a.grows_to(b),
    ensures
        b.req_for_dep(r, d, owner),
{
    match d {
        Dependency::Single(c) => {
            lemma_vs_for_dep_stable(a, b, r->Single_0 as int, c, owner);
        },
        Dependency::Union(cs) => {
            let u = r->Union_0 as int;
            assert(b.version_set_unions@[u] == a.version_set_unions@[u]);
            assert forall|k: int| 0 <= k < cs@.len() implies b.vs_for_dep(
                (#[trigger] b.version_set_unions@[u]@[k]) as int,
                cs@[k],
                owner,
            ) by {
                lemma_vs_for_dep_stable(a, b, a.version_set_unions@[u]@[k] as int, cs@[k], owner);
            }
        },
    }
}

/// Interning does not look at the constraint value's identity: an equal
/// constraint is interned by the same version set.
proof fn lemma_vs_for_dep_eqv(u: Universe, vsid: int, c1: Constraint, c2: Constraint, owner: int)
    requires
        u.vs_for_dep(vsid, c1, owner),
        crate::model::constraint_eqv(c1, c2),
    ensures
        u.vs_for_dep(vsid, c2, owner),
{
}

/// As [`lemma_vs_for_dep_eqv`], for negated constraint sets.
proof fn lemma_vs_for_con_eqv(u: Universe, vsid: int, c1: Constraint, c2: Constraint, owner: int)
    requires
        u.vs_for_con(vsid, c1, owner),
        crate::model::constraint_eqv(c1, c2),
    ensures
        u.vs_for_con(vsid, c2, owner),
{
}

/// An interned negated constraint stays interned as the tables grow.
proof fn lemma_vs_for_con_stable(a: Universe, b: Universe, vsid: int, c: Constraint, owner: int)
    requires
        a.vs_for_con(vsid, c, owner),
        a.grows_to(b),
    ensures
        b.vs_for_con(vsid, c, owner),
{
    assert(b.version_sets@[vsid] == a.version_sets@[vsid]);
    let vs = a.version_sets@[vsid];
    assert(b.names@[vs.name as int] == a.names@[vs.name as int]);
    match c.arch {
        Option::None => {},
        Option::Some(x) => {
            if lower_seq(x@) != any_bytes() && lower_seq(x@) != all_bytes() {
                assert(b.archlist@[vs.arch as int] == a.archlist@[vs.arch as int]);
            }
        },
    }
}

/// The invariant does not read the string table.
proof fn lemma_wf_strings_frame(a: Universe, b: Universe)
    requires
        a.wf(),
        b.names == a.names,
        b.solvables == a.solvables,
        b.archlist == a.archlist,
        b.arch == a.arch,
        b.version_sets == a.version_sets,
        b.version_set_unions == a.version_set_unions,
        b.required == a.required,
    ensures
        b.wf(),
{
    assert forall|s: int| 0 <= s < b.solvables@.len() implies #[trigger] b.solvable_ok(s) by {
        assert(a.solvable_ok(s));
    }
    assert forall|v: int| 0 <= v < b.version_sets@.len() implies #[trigger] b.vs_ok(v) by {
        assert(a.vs_ok(v));
    }
    assert forall|w: int| 0 <= w < b.version_set_unions@.len() implies #[trigger] b.union_ok(
        w,
    ) by {
        assert(a.union_ok(w));
    }
    assert forall|i: int| 0 <= i < b.required@.len() implies b.req_ok(#[trigger] b.required@[i]) by {
        assert(a.req_ok(a.required@[i]));
    }
    lemma_ingest_frame_buckets(a, b);
}

impl Universe {
    /// The display form of a solvable, `name:architecture=version`.
    pub fn display_solvable(&self, s: usize) -> (r: Vec<u8>)
        requires
            s < self.solvables@.len(),
        ensures
            r@ == solvable_display(self.solvables@[s as int].package),
    {
        let p = &self.solvables[s].package;
        let mut r = copy_bytes(p.name.as_slice());
        r.push(58);
        append_bytes(&mut r, p.architecture.as_slice());
        r.push(61);
        append_bytes(&mut r, p.version.as_slice());
        proof {
            assert(r@ =~= solvable_display(self.solvables@[s as int].package));
        }
        r
    }

    /// Materialize the dependencies of a solvable: `Pre-Depends` then
    /// `Depends` as requirements, `Conflicts` then `Breaks` as constraints,
    /// every constraint interned with the owner's architecture as default.
    /// When one of the four fields failed to parse, an explanatory message
    /// is interned and returned instead.
    pub fn get_dependencies(&mut self, solvable: usize) -> (r: SolvableDeps)
        requires
            old(self).wf(),
            solvable < old(self).solvables@.len(),
            old(self).solvables@[solvable as int].package.deps_shape_ok(),
        ensures
            final(self).wf(),
            old(self).grows_to(*final(self)),
            ({
                let pkg = final(self).solvables@[solvable as int].package;
                match r {
                    SolvableDeps::Unknown(m) => m < final(self).strings@.len()
                        && !pkg.deps_parse_ok(),
                    SolvableDeps::Known(reqs, cons) => {
                        &&& pkg.deps_parse_ok()
                        &&& reqs@.len() == pkg.flat_depends().len()
                        &&& forall|i: int|
                            0 <= i < reqs@.len() ==> final(self).req_for_dep(
                                #[trigger] reqs@[i],
                                pkg.flat_depends()[i],
                                solvable as int,
                            )
                        &&& cons@.len() == pkg.flat_constrains().len()
                        &&& forall|i: int|
                            0 <= i < cons@.len() ==> final(self).vs_for_con(
                                (#[trigger] cons@[i]) as int,
                                pkg.flat_constrains()[i],
                                solvable as int,
                            )
                    },
                }
            }),
    {
        let ghost pkg = old(self).solvables@[solvable as int].package;
        let bad: Option<(bool, Vec<u8>)> = {
            let p = &self.solvables[solvable].package;
            match &p.pre_depends {
                Result::Err(e) => Some((true, copy_bytes(e.as_slice()))),
                Result::Ok(_) => match &p.depends {
                    Result::Err(e) => Some((true, copy_bytes(e.as_slice()))),
                    Result::Ok(_) => match &p.conflicts {
                        Result::Err(e) => Some((false, copy_bytes(e.as_slice()))),
                        Result::Ok(_) => match &p.breaks {
                            Result::Err(e) => Some((false, copy_bytes(e.as_slice()))),
                            Result::Ok(_) => None,
                        },
                    },
                },
            }
        };
        match bad {
            Option::Some((phase, err)) => {
                let disp = self.display_solvable(solvable);
                let dep_lit: [u8; 31] = [
                    101, 114, 114, 111, 114, 32, 112, 97, 114, 115, 105, 110, 103, 32, 100, 101,
                    112, 101, 110, 100, 101, 110, 99, 105, 101, 115, 32, 102, 111, 114, 32,
                ];
                let con_lit: [u8; 30] = [
                    101, 114, 114, 111, 114, 32, 112, 97, 114, 115, 105, 110, 103, 32, 99, 111,
                    110, 115, 116, 114, 97, 105, 110, 115, 32, 102, 111, 114, 32,  32,
                ];
                let mut msg = if phase {
                    copy_bytes(dep_lit.as_slice())
                } else {
                    copy_bytes(con_lit.as_slice())
                };
                append_bytes(&mut msg, disp.as_slice());
                let sep: [u8; 2] = [58, 32];
                append_bytes(&mut msg, sep.as_slice());
                append_bytes(&mut msg, err.as_slice());
                let ghost w0 = *self;
                let m = self.intern_string(msg);
                proof {
                    lemma_wf_strings_frame(w0, *self);
                }
                SolvableDeps::Unknown(m)
            },
            Option::None => {
                let mut deps: Vec<Dependency> = Vec::new();
                {
                    let p = &self.solvables[solvable].package;
                    match &p.pre_depends {
                        Result::Ok(list) => {
                            let mut i: usize = 0;
                            while i < list.len()
                                invariant
                                    i <= list@.len(),
                                    pkg.pre_depends == Result::<Vec<Dependency>, Vec<u8>>::Ok(
                                        *list,
                                    ),
                                    deps@.len() == i,
                                    forall|t: int|
                                        0 <= t < i ==> crate::model::dependency_eqv(
                                            #[trigger] deps@[t],
                                            list@[t],
                                        ),
                                decreases list@.len() - i,
                            {
                                let d = crate::model::clone_dependency(&list[i]);
                                deps.push(d);
                                i = i + 1;
                            }
                        },
                        Result::Err(_) => {
                            proof {
                                assert(false);
                            }
                        },
                    }
                    match &p.depends {
                        Result::Ok(list) => {
                            let base = deps.len();
                            let mut i: usize = 0;
                            while i < list.len()
                                invariant
                                    i <= list@.len(),
                                    pkg.depends == Result::<Vec<Dependency>, Vec<u8>>::Ok(*list),
                                    pkg.pre_depends is Ok,
                                    base == pkg.pre_depends->Ok_0@.len(),
                                    deps@.len() == base + i,
                                    forall|t: int|
                                        0 <= t < base + i ==> crate::model::dependency_eqv(
                                            #[trigger] deps@[t],
                                            pkg.flat_depends()[t],
                                        ),
                                decreases list@.len() - i,
                            {
                                let d = crate::model::clone_dependency(&list[i]);
                                deps.push(d);
                                proof {
                                    assert(pkg.flat_depends()[base + i] == list@[i as int]);
                                }
                                i = i + 1;
                            }
                        },
                        Result::Err(_) => {
                            proof {
                                assert(false);
                            }
                        },
                    }
                }
                proof {
                    assert forall|t: int|
                        0 <= t < deps@.len() implies crate::model::dependency_eqv(
                        #[trigger] deps@[t],
                        pkg.flat_depends()[t],
                    ) by {
                        if t < pkg.pre_depends->Ok_0@.len() {
                            assert(pkg.flat_depends()[t] == pkg.pre_depends->Ok_0@[t]);
                        }
                    }
                    assert(deps@.len() == pkg.flat_depends().len());
                }
                let mut cons_src: Vec<Constraint> = Vec::new();
                {
                    let p = &self.solvables[solvable].package;
                    match &p.conflicts {
                        Result::Ok(list) => {
                            let mut i: usize = 0;
                            while i < list.len()
                                invariant
                                    i <= list@.len(),
                                    pkg.conflicts == Result::<Vec<Constraint>, Vec<u8>>::Ok(
                                        *list,
                                    ),
                                    cons_src@.len() == i,
                                    forall|t: int|
                                        0 <= t < i ==> crate::model::constraint_eqv(
                                            #[trigger] cons_src@[t],
                                            list@[t],
                                        ),
                                decreases list@.len() - i,
                            {
                                let c = crate::model::clone_constraint(&list[i]);
                                cons_src.push(c);
                                i = i + 1;
                            }
                        },
                        Result::Err(_) => {
                            proof {
                                assert(false);
                            }
                        },
                    }
                    match &p.breaks {
                        Result::Ok(list) => {
                            let base = cons_src.len();
                            let mut i: usize = 0;
                            while i < list.len()
                                invariant
                                    i <= list@.len(),
                                    pkg.breaks == Result::<Vec<Constraint>, Vec<u8>>::Ok(*list),
                                    pkg.conflicts is Ok,
                                    base == pkg.conflicts->Ok_0@.len(),
                                    cons_src@.len() == base + i,
                                    forall|t: int|
                                        0 <= t < base + i ==> crate::model::constraint_eqv(
                                            #[trigger] cons_src@[t],
                                            pkg.flat_constrains()[t],
                                        ),
                                decreases list@.len() - i,
                            {
                                let c = crate::model::clone_constraint(&list[i]);
                                cons_src.push(c);
                                proof {
                                    assert(pkg.flat_constrains()[base + i] == list@[i as int]);
                                }
                                i = i + 1;
                            }
                        },
                        Result::Err(_) => {
                            proof {
                                assert(false);
                            }
                        },
                    }
                }
                proof {
                    assert forall|t: int|
                        0 <= t < cons_src@.len() implies crate::model::constraint_eqv(
                        #[trigger] cons_src@[t],
                        pkg.flat_constrains()[t],
                    ) by {
                        if t < pkg.conflicts->Ok_0@.len() {
                            assert(pkg.flat_constrains()[t] == pkg.conflicts->Ok_0@[t]);
                        }
                    }
                    assert(cons_src@.len() == pkg.flat_constrains().len());
                }
                let mut reqs: Vec<Requirement> = Vec::new();
                let mut i: usize = 0;
                while i < deps.len()
                    invariant
                        i <= deps@.len(),
                        self.wf(),
                        old(self).grows_to(*self),
                        solvable < self.solvables@.len(),
                        pkg == self.solvables@[solvable as int].package,
                        deps@.len() == pkg.flat_depends().len(),
                        forall|t: int|
                            0 <= t < deps@.len() ==> crate::model::dependency_eqv(
                                #[trigger] deps@[t],
                                pkg.flat_depends()[t],
                            ),
                        forall|t: int|
                            0 <= t < deps@.len() ==> crate::model::dep_shape_ok(
                                #[trigger] pkg.flat_depends()[t],
                            ),
                        reqs@.len() == i,
                        forall|t: int|
                            0 <= t < i ==> self.req_for_dep(
                                #[trigger] reqs@[t],
                                pkg.flat_depends()[t],
                                solvable as int,
                            ),
                    decreases deps@.len() - i,
                {
                    let ghost w1 = *self;
                    match &deps[i] {
                        Dependency::Single(c) => {
                            let v = self.add_single_package_dependency(solvable, c, false);
                            reqs.push(Requirement::Single(v));
                            proof {
                                lemma_vs_for_dep_eqv(
                                    *self,
                                    v as int,
                                    *c,
                                    pkg.flat_depends()[i as int]->Single_0,
                                    solvable as int,
                                );
                            }
                        },
                        Dependency::Union(cs) => {
                            let ghost ocs = pkg.flat_depends()[i as int]->Union_0;
                            let mut pins: Vec<usize> = Vec::new();
                            let mut k: usize = 0;
                            while k < cs.len()
                                invariant
                                    k <= cs@.len(),
                                    self.wf(),
                                    w1.grows_to(*self),
                                    solvable < self.solvables@.len(),
                                    pkg == self.solvables@[solvable as int].package,
                                    ocs@.len() == cs@.len(),
                                    forall|t: int|
                                        0 <= t < cs@.len() ==> crate::model::constraint_eqv(
                                            #[trigger] cs@[t],
                                            ocs@[t],
                                        ),
                                    pins@.len() == k,
                                    forall|t: int|
                                        0 <= t < k ==> self.vs_for_dep(
                                            (#[trigger] pins@[t]) as int,
                                            ocs@[t],
                                            solvable as int,
                                        ),
                                decreases cs@.len() - k,
                            {
                                let ghost w2 = *self;
                                let v = self.add_single_package_dependency(solvable, &cs[k], false);
                                pins.push(v);
                                proof {
                                    lemma_vs_for_dep_eqv(
                                        *self,
                                        v as int,
                                        cs@[k as int],
                                        ocs@[k as int],
                                        solvable as int,
                                    );
                                    assert forall|t: int|
                                        0 <= t < k + 1 implies self.vs_for_dep(
                                        (#[trigger] pins@[t]) as int,
                                        ocs@[t],
                                        solvable as int,
                                    ) by {
                                        if t < k {
                                            lemma_vs_for_dep_stable(
                                                w2,
                                                *self,
                                                pins@[t] as int,
                                                ocs@[t],
                                                solvable as int,
                                            );
                                        }
                                    }
                                    lemma_grows_trans(w1, w2, *self);
                                }
                                k = k + 1;
                            }
                            let ghost w3 = *self;
                            let ghost pinsv = pins@;
                            proof {
                                assert forall|t: int|
                                    0 <= t < pins@.len() implies (#[trigger] pins@[t])
                                    < self.version_sets@.len() by {
                                    assert(self.vs_for_dep(
                                        pins@[t] as int,
                                        ocs@[t],
                                        solvable as int,
                                    ));
                                }
                            }
                            let u = self.get_union_id(pins);
                            reqs.push(Requirement::Union(u));
                            proof {
                                lemma_version_sets_frame(w3, *self);
                                lemma_wf_tables_grow(w3, *self);
                                lemma_grows_trans(w1, w3, *self);
                                assert(self.version_set_unions@[u as int]@ == pinsv);
                                assert forall|t: int|
                                    0 <= t < ocs@.len() implies self.vs_for_dep(
                                    (#[trigger] self.version_set_unions@[u as int]@[t]) as int,
                                    ocs@[t],
                                    solvable as int,
                                ) by {
                                    lemma_vs_for_dep_stable(
                                        w3,
                                        *self,
                                        pinsv[t] as int,
                                        ocs@[t],
                                        solvable as int,
                                    );
                                }
                                assert(self.req_for_dep(
                                    Requirement::Union(u),
                                    pkg.flat_depends()[i as int],
                                    solvable as int,
                                ));
                            }
                        },
                    }
                    proof {
                        assert forall|t: int|
                            0 <= t < i + 1 implies self.req_for_dep(
                            #[trigger] reqs@[t],
                            pkg.flat_depends()[t],
                            solvable as int,
                        ) by {
                            if t < i {
                                lemma_req_for_dep_stable(
                                    w1,
                                    *self,
                                    reqs@[t],
                                    pkg.flat_depends()[t],
                                    solvable as int,
                                );
                            }
                        }
                        lemma_grows_trans(*old(self), w1, *self);
                    }
                    i = i + 1;
                }
                let mut cons: Vec<usize> = Vec::new();
                let mut i2: usize = 0;
                while i2 < cons_src.len()
                    invariant
                        i2 <= cons_src@.len(),
                        self.wf(),
                        old(self).grows_to(*self),
                        solvable < self.solvables@.len(),
                        pkg == self.solvables@[solvable as int].package,
                        cons_src@.len() == pkg.flat_constrains().len(),
                        forall|t: int|
                            0 <= t < cons_src@.len() ==> crate::model::constraint_eqv(
                                #[trigger] cons_src@[t],
                                pkg.flat_constrains()[t],
                            ),
                        reqs@.len() == pkg.flat_depends().len(),
                        forall|t: int|
                            0 <= t < reqs@.len() ==> self.req_for_dep(
                                #[trigger] reqs@[t],
                                pkg.flat_depends()[t],
                                solvable as int,
                            ),
                        cons@.len() == i2,
                        forall|t: int|
                            0 <= t < i2 ==> self.vs_for_con(
                                (#[trigger] cons@[t]) as int,
                                pkg.flat_constrains()[t],
                                solvable as int,
                            ),
                    decreases cons_src@.len() - i2,
                {
                    let ghost w1 = *self;
                    let v = self.add_single_package_dependency(solvable, &cons_src[i2], true);
                    cons.push(v);
                    proof {
                        lemma_vs_for_con_eqv(
                            *self,
                            v as int,
                            cons_src@[i2 as int],
                            pkg.flat_constrains()[i2 as int],
                            solvable as int,
                        );
                        assert forall|t: int|
                            0 <= t < i2 + 1 implies self.vs_for_con(
                            (#[trigger] cons@[t]) as int,
                            pkg.flat_constrains()[t],
                            solvable as int,
                        ) by {
                            if t < i2 {
                                lemma_vs_for_con_stable(
                                    w1,
                                    *self,
                                    cons@[t] as int,
                                    pkg.flat_constrains()[t],
                                    solvable as int,
                                );
                            }
                        }
                        assert forall|t: int|
                            0 <= t < reqs@.len() implies self.req_for_dep(
                            #[trigger] reqs@[t],
                            pkg.flat_depends()[t],
                            solvable as int,
                        ) by {
                            lemma_req_for_dep_stable(
                                w1,
                                *self,
                                reqs@[t],
                                pkg.flat_depends()[t],
                                solvable as int,
                            );
                        }
                        lemma_grows_trans(*old(self), w1, *self);
                    }
                    i2 = i2 + 1;
                }
                SolvableDeps::Known(reqs, cons)
            },
        }
    }
}

/// A problem handed to the clause solver: interned user requirements with
/// the seeded baseline appended, and interned user constraints.
#[derive(Debug)]
pub struct SolveRequest {
    pub requirements: Vec<Requirement>,
    pub constraints: Vec<usize>,
}

impl Universe {
    /// The architecture id a user-level constraint resolves to: the
    /// universe's preferred architecture when the qualifier is absent,
    /// otherwise the named architecture (`all` and `any` meaning `Any`).
    pub open spec fn user_arch_ok(self, c: Constraint, aid: int) -> bool {
        match c.arch {
            Option::None => aid == self.arch,
            Option::Some(a) => {
                if lower_seq(a@) == all_bytes() {
                    aid == 0
                } else {
                    0 <= aid < self.archlist@.len() && self.archlist@[aid]@ == a@
                }
            },
        }
    }

    /// Version set `vsid` is the interned form of user constraint `c`.
    pub open spec fn user_vs_for(self, vsid: int, c: Constraint) -> bool {
        &&& 0 <= vsid < self.version_sets@.len()
        &&& {
            let vs = self.version_sets@[vsid];
            &&& vs.name < self.names@.len()
            &&& self.names@[vs.name as int].name@ == c.name@
            &&& self.user_arch_ok(c, vs.arch as int)
            &&& vs.selfref is None
            &&& !vs.negated
            &&& crate::version::range_eqv(vs.range, c.range)
        }
    }

    /// Version set `vsid` is the interned, negated form of user constraint
    /// `c`.
    pub open spec fn user_vs_for_con(self, vsid: int, c: Constraint) -> bool {
        &&& 0 <= vsid < self.version_sets@.len()
        &&& {
            let vs = self.version_sets@[vsid];
            &&& vs.name < self.names@.len()
            &&& self.names@[vs.name as int].name@ == c.name@
            &&& self.user_arch_ok(c, vs.arch as int)
            &&& vs.selfref is None
            &&& vs.negated
            &&& crate::version::range_eqv(vs.range, c.range)
        }
    }

    /// Requirement `r` is the interned form of user dependency `d`.
    pub open spec fn user_req_for(self, r: Requirement, d: Dependency) -> bool {
        match d {
            Dependency::Single(c) => r is Single && self.user_vs_for(r->Single_0 as int, c),
            Dependency::Union(cs) => r is Union && {
                let u = r->Union_0 as int;
                &&& 0 <= u < self.version_set_unions@.len()
                &&& self.version_set_unions@[u]@.len() == cs@.len()
                &&& forall|k: int|
                    0 <= k < cs@.len() ==> self.user_vs_for(
                        (#[trigger] self.version_set_unions@[u]@[k]) as int,
                        cs@[k],
                    )
            },
        }
    }

    /// Intern one user-level constraint; a prohibiting constraint is
    /// interned negated.
    fn intern_user_constraint(&mut self, c: &Constraint, negated: bool) -> (vsid: usize)
        requires
            old(self).wf(),
        ensures
            final(self).wf(),
            old(self).grows_to(*final(self)),
            final(self).strings == old(self).strings,
            final(self).version_set_unions == old(self).version_set_unions,
            !negated ==> final(self).user_vs_for(vsid as int, *c),
            negated ==> final(self).user_vs_for_con(vsid as int, *c),
    {
        let (nid, _fresh) = self.intern_name(c.name.as_slice());
        proof {
            lemma_wf_after_intern(*old(self), *self);
        }
        let ghost a1 = *self;
        let aid: usize = match &c.arch {
            Option::None => self.arch,
            Option::Some(a) => self.get_arch_id(a.as_slice()),
        };
        proof {
            lemma_wf_archlist_grow(a1, *self);
        }
        let ghost a2 = *self;
        proof {
            assert(aid < a2.archlist@.len());
        }
        let range = crate::model::clone_range(&c.range);
        let vsid = self.get_version_set_id(
            VersionSet { arch: aid, name: nid, selfref: None, range, negated },
        );
        proof {
            lemma_unions_grow(a2, *self);
            lemma_wf_tables_grow(a2, *self);
            assert(final(self).names@[nid as int].name@ == c.name@);
        }
        vsid
    }

    /// A user constraint stays interned as the tables grow.
    proof fn lemma_user_vs_stable(a: Universe, b: Universe, vsid: int, c: Constraint)
        requires
            a.user_vs_for(vsid, c),
            a.grows_to(b),
        ensures
            b.user_vs_for(vsid, c),
    {
        assert(b.version_sets@[vsid] == a.version_sets@[vsid]);
        let vs = a.version_sets@[vsid];
        assert(b.names@[vs.name as int] == a.names@[vs.name as int]);
        match c.arch {
            Option::None => {},
            Option::Some(x) => {
                if lower_seq(x@) != all_bytes() {
                    assert(b.archlist@[vs.arch as int] == a.archlist@[vs.arch as int]);
                }
            },
        }
    }

    /// A negated user constraint stays interned as the tables grow.
    proof fn lemma_user_con_stable(a: Universe, b: Universe, vsid: int, c: Constraint)
        requires
            a.user_vs_for_con(vsid, c),
            a.grows_to(b),
        ensures
            b.user_vs_for_con(vsid, c),
    {
        assert(b.version_sets@[vsid] == a.version_sets@[vsid]);
        let vs = a.version_sets@[vsid];
        assert(b.names@[vs.name as int] == a.names@[vs.name as int]);
        match c.arch {
            Option::None => {},
            Option::Some(x) => {
                if lower_seq(x@) != all_bytes() {
                    assert(b.archlist@[vs.arch as int] == a.archlist@[vs.arch as int]);
                }
            },
        }
    }

    /// A user requirement stays interned as the tables grow.
    proof fn lemma_user_req_stable(a: Universe, b: Universe, r: Requirement, d: Dependency)
        requires
            a.user_req_for(r, d),
            a.grows_to(b),
        ensures
            b.user_req_for(r, d),
    {
        match d {
            Dependency::Single(c) => {
                Self::lemma_user_vs_stable(a, b, r->Single_0 as int, c);
            },
            Dependency::Union(cs) => {
                let u = r->Union_0 as int;
                assert(b.version_set_unions@[u] == a.version_set_unions@[u]);
                assert forall|k: int| 0 <= k < cs@.len() implies b.user_vs_for(
                    (#[trigger] b.version_set_unions@[u]@[k]) as int,
                    cs@[k],
                ) by {
                    Self::lemma_user_vs_stable(a, b, a.version_set_unions@[u]@[k] as int, cs@[k]);
                }
            },
        }
    }

    /// Build a problem: intern each user requirement and constraint, and
    /// append the seeded baseline requirements so essential packages are
    /// never omitted.
    pub fn problem(&mut self, requirements: Vec<Dependency>, constraints: Vec<Constraint>) -> (r:
        SolveRequest)
        requires
            old(self).wf(),
            forall|t: int| 0 <= t < requirements@.len() ==> crate::model::dep_shape_ok(
                #[trigger] requirements@[t],
            ),
        ensures
            final(self).wf(),
            old(self).grows_to(*final(self)),
            r.requirements@.len() == requirements@.len() + final(self).required@.len(),
            forall|i: int|
                0 <= i < requirements@.len() ==> final(self).user_req_for(
                    #[trigger] r.requirements@[i],
                    requirements@[i],
                ),
            forall|i: int|
                0 <= i < final(self).required@.len() ==> r.requirements@[requirements@.len() + i]
                    == final(self).required@[i],
            r.constraints@.len() == constraints@.len(),
            forall|i: int|
                0 <= i < constraints@.len() ==> final(self).user_vs_for_con(
                    (#[trigger] r.constraints@[i]) as int,
                    constraints@[i],
                ),
    {
        let mut reqs: Vec<Requirement> = Vec::new();
        let mut i: usize = 0;
        while i < requirements.len()
            invariant
                i <= requirements@.len(),
                self.wf(),
                old(self).grows_to(*self),
                forall|t: int| 0 <= t < requirements@.len() ==> crate::model::dep_shape_ok(
                    #[trigger] requirements@[t],
                ),
                reqs@.len() == i,
                forall|t: int|
                    0 <= t < i ==> self.user_req_for(#[trigger] reqs@[t], requirements@[t]),
            decreases requirements@.len() - i,
        {
            let ghost w1 = *self;
            match &requirements[i] {
                Dependency::Single(c) => {
                    let v = self.intern_user_constraint(c, false);
                    reqs.push(Requirement::Single(v));
                },
                Dependency::Union(cs) => {
                    let mut pins: Vec<usize> = Vec::new();
                    let mut k: usize = 0;
                    while k < cs.len()
                        invariant
                            k <= cs@.len(),
                            self.wf(),
                            w1.grows_to(*self),
                            cs@ == requirements@[i as int]->Union_0@,
                            i < requirements@.len(),
                            pins@.len() == k,
                            forall|t: int|
                                0 <= t < k ==> self.user_vs_for(
                                    (#[trigger] pins@[t]) as int,
                                    cs@[t],
                                ),
                        decreases cs@.len() - k,
                    {
                        let ghost w2 = *self;
                        let v = self.intern_user_constraint(&cs[k], false);
                        pins.push(v);
                        proof {
                            assert forall|t: int|
                                0 <= t < k + 1 implies self.user_vs_for(
                                (#[trigger] pins@[t]) as int,
                                cs@[t],
                            ) by {
                                if t < k {
                                    Self::lemma_user_vs_stable(w2, *self, pins@[t] as int, cs@[t]);
                                }
                            }
                            lemma_grows_trans(w1, w2, *self);
                        }
                        k = k + 1;
                    }
                    let ghost w3 = *self;
                    let ghost pinsv = pins@;
                    proof {
                        assert(crate::model::dep_shape_ok(requirements@[i as int]));
                        assert forall|t: int|
                            0 <= t < pins@.len() implies (#[trigger] pins@[t])
                            < self.version_sets@.len() by {
                            assert(self.user_vs_for(pins@[t] as int, cs@[t]));
                        }
                    }
                    let u = self.get_union_id(pins);
                    reqs.push(Requirement::Union(u));
                    proof {
                        lemma_version_sets_frame(w3, *self);
                        lemma_wf_tables_grow(w3, *self);
                        lemma_grows_trans(w1, w3, *self);
                        assert(self.version_set_unions@[u as int]@ == pinsv);
                        assert forall|t: int|
                            0 <= t < requirements@[i as int]->Union_0@.len() implies self.user_vs_for(
                            (#[trigger] self.version_set_unions@[u as int]@[t]) as int,
                            requirements@[i as int]->Union_0@[t],
                        ) by {
                            Self::lemma_user_vs_stable(
                                w3,
                                *self,
                                pinsv[t] as int,
                                requirements@[i as int]->Union_0@[t],
                            );
                        }
                        assert(self.user_req_for(
                            Requirement::Union(u),
                            requirements@[i as int],
                        ));
                    }
                },
            }
            proof {
                assert forall|t: int|
                    0 <= t < i + 1 implies self.user_req_for(
                    #[trigger] reqs@[t],
                    requirements@[t],
                ) by {
                    if t < i {
                        Self::lemma_user_req_stable(w1, *self, reqs@[t], requirements@[t]);
                    }
                }
                lemma_grows_trans(*old(self), w1, *self);
            }
            i = i + 1;
        }
        let nuser = reqs.len();
        let mut bi: usize = 0;
        while bi < self.required.len()
            invariant
                bi <= self.required@.len(),
                self.wf(),
                old(self).grows_to(*self),
                nuser == requirements@.len(),
                reqs@.len() == nuser + bi,
                forall|t: int|
                    0 <= t < nuser ==> self.user_req_for(#[trigger] reqs@[t], requirements@[t]),
                forall|t: int|
                    0 <= t < bi ==> reqs@[nuser + t] == self.required@[t],
            decreases self.required@.len() - bi,
        {
            let rq = self.required[bi];
            reqs.push(rq);
            bi = bi + 1;
        }
        let mut cons: Vec<usize> = Vec::new();
        let mut i2: usize = 0;
        while i2 < constraints.len()
            invariant
                i2 <= constraints@.len(),
                self.wf(),
                old(self).grows_to(*self),
                nuser == requirements@.len(),
                reqs@.len() == nuser + self.required@.len(),
                forall|t: int|
                    0 <= t < nuser ==> self.user_req_for(#[trigger] reqs@[t], requirements@[t]),
                forall|t: int|
                    0 <= t < self.required@.len() ==> reqs@[nuser + t] == self.required@[t],
                cons@.len() == i2,
                forall|t: int|
                    0 <= t < i2 ==> self.user_vs_for_con(
                        (#[trigger] cons@[t]) as int,
                        constraints@[t],
                    ),
            decreases constraints@.len() - i2,
        {
            let ghost w1 = *self;
            let v = self.intern_user_constraint(&constraints[i2], true);
            cons.push(v);
            proof {
                assert forall|t: int|
                    0 <= t < i2 + 1 implies self.user_vs_for_con(
                    (#[trigger] cons@[t]) as int,
                    constraints@[t],
                ) by {
                    if t < i2 {
                        Self::lemma_user_con_stable(w1, *self, cons@[t] as int, constraints@[t]);
                    }
                }
                assert forall|t: int|
                    0 <= t < nuser implies self.user_req_for(
                    #[trigger] reqs@[t],
                    requirements@[t],
                ) by {
                    Self::lemma_user_req_stable(w1, *self, reqs@[t], requirements@[t]);
                }
                lemma_grows_trans(*old(self), w1, *self);
            }
            i2 = i2 + 1;
        }
        SolveRequest { requirements: reqs, constraints: cons }
    }
}

/// The display form of a relation: `<<`, `<=`, `=`, `>=`, `>>`.
pub open spec fn rel_display(r: crate::version::Rel) -> Seq<u8> {
    match r {
        crate::version::Rel::Earlier => seq![60u8, 60u8],
        crate::version::Rel::EarlierEq => seq![60u8, 61u8],
        crate::version::Rel::Exact => seq![61u8],
        crate::version::Rel::LaterEq => seq![62u8, 61u8],
        crate::version::Rel::Later => seq![62u8, 62u8],
    }
}

impl Universe {
    /// The parsed record behind a solvable.
    pub fn package(&self, solvable: usize) -> (r: &PackageRecord)
        requires
            solvable < self.solvables@.len(),
        ensures
            *r == self.solvables@[solvable as int].package,
    {
        &self.solvables[solvable].package
    }

    /// Every solvable of the universe, in ingestion order.
    pub fn packages(&self) -> (r: &Vec<Solvable>)
        ensures
            r@ == self.solvables@,
    {
        &self.solvables
    }

    /// An interned string.
    pub fn display_string(&self, id: usize) -> (r: &Vec<u8>)
        requires
            id < self.strings@.len(),
        ensures
            r@ == self.strings@[id as int]@,
    {
        &self.strings[id]
    }

    /// The name id of a solvable.
    pub fn solvable_name(&self, solvable: usize) -> (r: usize)
        requires
            solvable < self.solvables@.len(),
        ensures
            r == self.solvables@[solvable as int].name,
    {
        self.solvables[solvable].name
    }

    /// The name id a version set constrains.
    pub fn version_set_name(&self, version_set: usize) -> (r: usize)
        requires
            version_set < self.version_sets@.len(),
        ensures
            r == self.version_sets@[version_set as int].name,
    {
        self.version_sets[version_set].name
    }

    /// The display string of a name.
    pub fn display_name(&self, name: usize) -> (r: &Vec<u8>)
        requires
            name < self.names@.len(),
        ensures
            r@ == self.names@[name as int].name@,
    {
        &self.names[name].name
    }

    /// The version sets of a union, in order.
    pub fn version_sets_in_union(&self, u: usize) -> (r: &Vec<usize>)
        requires
            u < self.version_set_unions@.len(),
        ensures
            r@ == self.version_set_unions@[u as int]@,
    {
        &self.version_set_unions[u]
    }

    /// The display form of a version set: its name, then the relation and
    /// boundary version when the range is bounded.
    pub fn display_version_set(&self, version_set: usize) -> (r: Vec<u8>)
        requires
            self.wf(),
            version_set < self.version_sets@.len(),
        ensures
            ({
                let vs = self.version_sets@[version_set as int];
                let nm = self.names@[vs.name as int].name@;
                match vs.range {
                    VersionRange::Whole => r@ == nm,
                    VersionRange::Bounded(rel, b) => r@ == nm + seq![32u8, 40u8] + rel_display(rel)
                        + seq![32u8] + b@ + seq![41u8],
                }
            }),
    {
        proof {
            assert(self.vs_ok(version_set as int));
        }
        let vs = &self.version_sets[version_set];
        let mut r = copy_bytes(self.names[vs.name].name.as_slice());
        match &vs.range {
            VersionRange::Whole => {},
            VersionRange::Bounded(rel, b) => {
                r.push(32);
                r.push(40);
                match rel {
                    crate::version::Rel::Earlier => {
                        r.push(60);
                        r.push(60);
                    },
                    crate::version::Rel::EarlierEq => {
                        r.push(60);
                        r.push(61);
                    },
                    crate::version::Rel::Exact => {
                        r.push(61);
                    },
                    crate::version::Rel::LaterEq => {
                        r.push(62);
                        r.push(61);
                    },
                    crate::version::Rel::Later => {
                        r.push(62);
                        r.push(62);
                    },
                }
                r.push(32);
                append_bytes(&mut r, b.as_slice());
                r.push(41);
                proof {
                    let vss = self.version_sets@[version_set as int];
                    let nm = self.names@[vss.name as int].name@;
                    assert(r@ =~= nm + seq![32u8, 40u8] + rel_display(vss.range->0) + seq![32u8]
                        + vss.range->1@ + seq![41u8]);
                }
            },
        }
        r
    }
}

/// The display form of merged solvables: `name=version` for each, joined
/// with a comma and a space.
pub open spec fn merged_display(sols: Seq<Solvable>, ids: Seq<usize>) -> Seq<u8>
    decreases ids.len(),
{
    if ids.len() == 0 {
        Seq::empty()
    } else {
        let head = sols[ids[0] as int].package.name@ + seq![61u8] + sols[
            ids[0] as int
        ].package.version@;
        if ids.len() == 1 {
            head
        } else {
            head + seq![44u8, 32u8] + merged_display(sols, ids.skip(1))
        }
    }
}

impl Universe {
    /// Render several solvables on one line, `name=version` each, comma
    /// separated.
    pub fn display_merged_solvables(&self, ids: &[usize]) -> (r: Vec<u8>)
        requires
            forall|t: int| 0 <= t < ids@.len() ==> (#[trigger] ids@[t]) < self.solvables@.len(),
        ensures
            r@ == merged_display(self.solvables@, ids@),
        decreases ids@.len(),
    {
        if ids.len() == 0 {
            return Vec::new();
        }
        let p = &self.solvables[ids[0]].package;
        let mut r = copy_bytes(p.name.as_slice());
        r.push(61);
        append_bytes(&mut r, p.version.as_slice());
        if ids.len() > 1 {
            r.push(44);
            r.push(32);
            let rest = vstd::slice::slice_subrange(ids, 1, ids.len());
            proof {
                assert(rest@ =~= ids@.skip(1));
            }
            let tail = self.display_merged_solvables(rest);
            append_bytes(&mut r, tail.as_slice());
        }
        proof {
            assert(r@ =~= merged_display(self.solvables@, ids@));
        }
        r
    }
}


} // verus!
