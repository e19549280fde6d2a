//! Debian version ordering and version ranges.
//!
//! A version is `[epoch:]upstream[-revision]`: the epoch is the digits before
//! the first `:` (absent means zero), the revision is what follows the last
//! `-` of the remainder (absent means empty). Epochs compare numerically;
//! upstream and revision compare part-wise: maximal runs of non-digits
//! compare byte by byte under a modified ASCII order (letters before
//! non-letters, `~` before everything including the end of the string), and
//! maximal runs of digits compare numerically.
use vstd::prelude::*;

use crate::bytes::is_alpha;
use crate::bytes::is_digit;

verus! {

/// The weight of one byte inside a non-digit run: `~` sorts below the end of
/// the string, letters keep their ASCII value, every other byte sorts above
/// all letters. Digits (weight 0) never meet letters here; 0 stands for the
/// end of the string.
pub open spec fn order_of(c: u8) -> int {
    if is_digit(c) {
        0
    } else if is_alpha(c) {
        c as int
    } else if c == 126 {
        -1
    } else {
        c as int + 256
    }
}

/// Sign of an integer, as `-1`, `0` or `1`.
pub open spec fn sign(i: int) -> int {
    if i < 0 {
        -1
    } else if i > 0 {
        1
    } else {
        0
    }
}

/// Drop leading ASCII `0` bytes.
pub open spec fn strip_zeros(s: Seq<u8>) -> Seq<u8>
    decreases s.len(),
{
    if s.len() > 0 && s[0] == 48 {
        strip_zeros(s.skip(1))
    } else {
        s
    }
}

/// Length of the leading run of ASCII digits.
pub open spec fn run_len(s: Seq<u8>) -> int
    decreases s.len(),
{
    if s.len() > 0 && is_digit(s[0]) {
        1 + run_len(s.skip(1))
    } else {
        0
    }
}

/// Byte-wise comparison of two equal-length digit runs.
pub open spec fn run_cmp(a: Seq<u8>, b: Seq<u8>) -> int
    decreases a.len(),
{
    if a.len() == 0 || b.len() == 0 {
        0
    } else if a[0] != b[0] {
        sign(a[0] - b[0])
    } else {
        run_cmp(a.skip(1), b.skip(1))
    }
}

pub proof fn lemma_strip_zeros_len(s: Seq<u8>)
    ensures
        strip_zeros(s).len() <= s.len(),
        s.len() > 0 && s[0] == 48 ==> strip_zeros(s).len() < s.len(),
    decreases s.len(),
{
    if s.len() > 0 && s[0] == 48 {
        lemma_strip_zeros_len(s.skip(1));
    }
}

pub proof fn lemma_run_len_bounds(s: Seq<u8>)
    ensures
        0 <= run_len(s) <= s.len(),
        s.len() > 0 && is_digit(s[0]) ==> 1 <= run_len(s),
    decreases s.len(),
{
    if s.len() > 0 && is_digit(s[0]) {
        lemma_run_len_bounds(s.skip(1));
    }
}

/// After stripping zeros from a string that starts with a digit, either the
/// stripping shortened it or a non-empty digit run remains; the suffix after
/// the run is strictly shorter than the whole.
pub proof fn lemma_digit_side_shrinks(s: Seq<u8>)
    requires
        s.len() > 0,
        is_digit(s[0]),
    ensures
        strip_zeros(s).len() - run_len(strip_zeros(s)) < s.len(),
        run_len(strip_zeros(s)) <= strip_zeros(s).len(),
    decreases s.len(),
{
    lemma_strip_zeros_len(s);
    lemma_run_len_bounds(strip_zeros(s));
    if s[0] == 48 {
    } else {
        assert(strip_zeros(s) == s);
        lemma_run_len_bounds(s);
    }
}

/// One round of the part-wise comparison: compare the leading non-digit runs
/// byte by byte under `order_of`, then the leading digit runs numerically,
/// and recurse on what is left. Returns `-1`, `0` or `1`.
pub open spec fn part_cmp(a: Seq<u8>, b: Seq<u8>) -> int
    decreases a.len() + b.len(),
    via part_cmp_decreases
{
    if a.len() == 0 && b.len() == 0 {
        0
    } else if (a.len() > 0 && !is_digit(a[0])) || (b.len() > 0 && !is_digit(b[0])) {
        let ac = if a.len() > 0 {
            order_of(a[0])
        } else {
            0
        };
        let bc = if b.len() > 0 {
            order_of(b[0])
        } else {
            0
        };
        if ac != bc {
            sign(ac - bc)
        } else {
            part_cmp(a.skip(1), b.skip(1))
        }
    } else {
        let sa = strip_zeros(a);
        let sb = strip_zeros(b);
        let la = run_len(sa);
        let lb = run_len(sb);
        if la != lb {
            sign(la - lb)
        } else {
            let d = run_cmp(sa.take(la), sb.take(lb));
            if d != 0 {
                d
            } else {
                part_cmp(sa.skip(la), sb.skip(lb))
            }
        }
    }
}

#[via_fn]
proof fn part_cmp_decreases(a: Seq<u8>, b: Seq<u8>) {
    lemma_strip_zeros_len(a);
    lemma_strip_zeros_len(b);
    lemma_run_len_bounds(strip_zeros(a));
    lemma_run_len_bounds(strip_zeros(b));
    if a.len() > 0 && is_digit(a[0]) {
        lemma_digit_side_shrinks(a);
    }
    if b.len() > 0 && is_digit(b[0]) {
        lemma_digit_side_shrinks(b);
    }
}

/// Index of the first `:`, or the length when there is none.
pub open spec fn first_colon(s: Seq<u8>) -> int
    decreases s.len(),
{
    if s.len() == 0 {
        0
    } else if s[0] == 58 {
        0
    } else {
        1 + first_colon(s.skip(1))
    }
}

/// Index of the last `-`, or `-1` when there is none.
pub open spec fn last_hyphen(s: Seq<u8>) -> int
    decreases s.len(),
{
    if s.len() == 0 {
        -1
    } else if s[s.len() - 1] == 45 {
        s.len() - 1
    } else {
        last_hyphen(s.take(s.len() - 1))
    }
}

pub proof fn lemma_first_colon_bounds(s: Seq<u8>)
    ensures
        0 <= first_colon(s) <= s.len(),
    decreases s.len(),
{
    if s.len() > 0 && s[0] != 58 {
        lemma_first_colon_bounds(s.skip(1));
    }
}

pub proof fn lemma_last_hyphen_bounds(s: Seq<u8>)
    ensures
        -1 <= last_hyphen(s) < s.len(),
    decreases s.len(),
{
    if s.len() > 0 && s[s.len() - 1] != 45 {
        lemma_last_hyphen_bounds(s.take(s.len() - 1));
    }
}

/// The epoch digits: what stands before the first `:`, if any.
pub open spec fn epoch_of(s: Seq<u8>) -> Seq<u8> {
    if first_colon(s) < s.len() {
        s.take(first_colon(s))
    } else {
        Seq::empty()
    }
}

/// The version with the epoch removed.
pub open spec fn tail_of(s: Seq<u8>) -> Seq<u8> {
    if first_colon(s) < s.len() {
        s.skip(first_colon(s) + 1)
    } else {
        s
    }
}

/// The upstream component: the epoch-less version up to the last `-`.
pub open spec fn upstream_of(s: Seq<u8>) -> Seq<u8> {
    let t = tail_of(s);
    if last_hyphen(t) >= 0 {
        t.take(last_hyphen(t))
    } else {
        t
    }
}

/// The revision component: what follows the last `-` of the epoch-less
/// version; empty when there is no `-`.
pub open spec fn revision_of(s: Seq<u8>) -> Seq<u8> {
    let t = tail_of(s);
    if last_hyphen(t) >= 0 {
        t.skip(last_hyphen(t) + 1)
    } else {
        Seq::empty()
    }
}

/// Numeric comparison of two digit strings: drop leading zeros, then a longer
/// run is larger, and equal-length runs compare byte by byte.
pub open spec fn num_cmp(a: Seq<u8>, b: Seq<u8>) -> int {
    let sa = strip_zeros(a);
    let sb = strip_zeros(b);
    if sa.len() != sb.len() {
        sign(sa.len() - sb.len())
    } else {
        run_cmp(sa, sb)
    }
}

/// The Debian ordering of two whole versions: epoch first, then upstream,
/// then revision. Returns `-1`, `0` or `1`.
pub open spec fn version_cmp(a: Seq<u8>, b: Seq<u8>) -> int {
    let e = num_cmp(epoch_of(a), epoch_of(b));
    if e != 0 {
        e
    } else {
        let u = part_cmp(upstream_of(a), upstream_of(b));
        if u != 0 {
            u
        } else {
            part_cmp(revision_of(a), revision_of(b))
        }
    }
}

/// Exec weight of one byte inside a non-digit run.
fn order_exec(c: u8) -> (o: i32)
    ensures
        o as int == order_of(c),
{
    if 48 <= c && c <= 57 {
        0
    } else if (65 <= c && c <= 90) || (97 <= c && c <= 122) {
        c as i32
    } else if c == 126 {
        -1
    } else {
        c as i32 + 256
    }
}

/// Exec: drop leading ASCII `0` bytes.
fn strip_zeros_exec(a: &[u8]) -> (r: &[u8])
    ensures
        r@ == strip_zeros(a@),
    decreases a@.len(),
{
    if a.len() > 0 && a[0] == 48 {
        let t = vstd::slice::slice_subrange(a, 1, a.len());
        assert(t@ =~= a@.skip(1));
        strip_zeros_exec(t)
    } else {
        a
    }
}

/// Exec: length of the leading digit run.
fn run_len_exec(a: &[u8]) -> (r: usize)
    ensures
        r as int == run_len(a@),
        r <= a.len(),
    decreases a@.len(),
{
    if a.len() > 0 && 48 <= a[0] && a[0] <= 57 {
        let t = vstd::slice::slice_subrange(a, 1, a.len());
        assert(t@ =~= a@.skip(1));
        1 + run_len_exec(t)
    } else {
        0
    }
}

/// Exec: byte-wise comparison of equal-length digit runs.
fn run_cmp_exec(a: &[u8], b: &[u8]) -> (r: i32)
    ensures
        r as int == run_cmp(a@, b@),
    decreases a@.len(),
{
    if a.len() == 0 || b.len() == 0 {
        0
    } else if a[0] != b[0] {
        if a[0] < b[0] {
            -1
        } else {
            1
        }
    } else {
        let sa = vstd::slice::slice_subrange(a, 1, a.len());
        let sb = vstd::slice::slice_subrange(b, 1, b.len());
        assert(sa@ =~= a@.skip(1));
        assert(sb@ =~= b@.skip(1));
        run_cmp_exec(sa, sb)
    }
}

/// Exec: one round of the part-wise comparison.
fn part_cmp_exec(a: &[u8], b: &[u8]) -> (r: i32)
    ensures
        r as int == part_cmp(a@, b@),
    decreases a@.len() + b@.len(),
{
    if a.len() == 0 && b.len() == 0 {
        0
    } else if (a.len() > 0 && !digit_at(a, 0)) || (b.len() > 0 && !digit_at(b, 0)) {
        let ac: i32 = if a.len() > 0 {
            order_exec(a[0])
        } else {
            0
        };
        let bc: i32 = if b.len() > 0 {
            order_exec(b[0])
        } else {
            0
        };
        if ac != bc {
            if ac < bc {
                -1
            } else {
                1
            }
        } else {
            let sa = vstd::slice::slice_subrange(a, 1, a.len());
            let sb = vstd::slice::slice_subrange(b, 1, b.len());
            assert(sa@ =~= a@.skip(1));
            assert(sb@ =~= b@.skip(1));
            part_cmp_exec(sa, sb)
        }
    } else {
        let sa = strip_zeros_exec(a);
        let sb = strip_zeros_exec(b);
        let la = run_len_exec(sa);
        let lb = run_len_exec(sb);
        if la != lb {
            if la < lb {
                -1
            } else {
                1
            }
        } else {
            let ra = vstd::slice::slice_subrange(sa, 0, la);
            let rb = vstd::slice::slice_subrange(sb, 0, lb);
            assert(ra@ =~= strip_zeros(a@).take(run_len(strip_zeros(a@))));
            assert(rb@ =~= strip_zeros(b@).take(run_len(strip_zeros(b@))));
            let d = run_cmp_exec(ra, rb);
            if d != 0 {
                d
            } else {
                proof {
                    lemma_strip_zeros_len(a@);
                    lemma_strip_zeros_len(b@);
                    lemma_run_len_bounds(strip_zeros(a@));
                    lemma_run_len_bounds(strip_zeros(b@));
                    if a@.len() > 0 && is_digit(a@[0]) {
                        lemma_digit_side_shrinks(a@);
                    }
                    if b@.len() > 0 && is_digit(b@[0]) {
                        lemma_digit_side_shrinks(b@);
                    }
                }
                let ta = vstd::slice::slice_subrange(sa, la, sa.len());
                let tb = vstd::slice::slice_subrange(sb, lb, sb.len());
                assert(ta@ =~= strip_zeros(a@).skip(run_len(strip_zeros(a@))));
                assert(tb@ =~= strip_zeros(b@).skip(run_len(strip_zeros(b@))));
                part_cmp_exec(ta, tb)
            }
        }
    }
}

/// Exec test for a digit at an index.
fn digit_at(a: &[u8], i: usize) -> (r: bool)
    requires
        i < a@.len(),
    ensures
        r == is_digit(a@[i as int]),
{
    48 <= a[i] && a[i] <= 57
}

/// Exec: index of the first `:`, or the length.
fn first_colon_exec(a: &[u8]) -> (r: usize)
    ensures
        r as int == first_colon(a@),
        r <= a.len(),
    decreases a@.len(),
{
    proof {
        lemma_first_colon_bounds(a@);
    }
    if a.len() == 0 {
        0
    } else if a[0] == 58 {
        0
    } else {
        let t = vstd::slice::slice_subrange(a, 1, a.len());
        assert(t@ =~= a@.skip(1));
        1 + first_colon_exec(t)
    }
}

/// Exec: index of the last `-`, or `None`.
fn last_hyphen_exec(a: &[u8]) -> (r: Option<usize>)
    ensures
        match r {
            Some(k) => k as int == last_hyphen(a@) && k < a.len(),
            None => last_hyphen(a@) == -1,
        },
    decreases a@.len(),
{
    proof {
        lemma_last_hyphen_bounds(a@);
    }
    if a.len() == 0 {
        None
    } else if a[a.len() - 1] == 45 {
        Some(a.len() - 1)
    } else {
        let t = vstd::slice::slice_subrange(a, 0, a.len() - 1);
        assert(t@ =~= a@.take(a@.len() - 1));
        last_hyphen_exec(t)
    }
}

/// Exec numeric comparison of digit strings.
fn num_cmp_exec(a: &[u8], b: &[u8]) -> (r: i32)
    ensures
        r as int == num_cmp(a@, b@),
{
    let sa = strip_zeros_exec(a);
    let sb = strip_zeros_exec(b);
    if sa.len() != sb.len() {
        if sa.len() < sb.len() {
            -1
        } else {
            1
        }
    } else {
        run_cmp_exec(sa, sb)
    }
}

/// Compare two whole Debian versions; returns `-1`, `0` or `1` and agrees
/// with [`version_cmp`] on the two byte strings.
pub fn compare_versions(a: &[u8], b: &[u8]) -> (r: i32)
    ensures
        r as int == version_cmp(a@, b@),
{
    proof {
        lemma_first_colon_bounds(a@);
        lemma_first_colon_bounds(b@);
    }
    let ca = first_colon_exec(a);
    let cb = first_colon_exec(b);
    let ea: &[u8] = if ca < a.len() {
        vstd::slice::slice_subrange(a, 0, ca)
    } else {
        vstd::slice::slice_subrange(a, 0, 0)
    };
    let eb: &[u8] = if cb < b.len() {
        vstd::slice::slice_subrange(b, 0, cb)
    } else {
        vstd::slice::slice_subrange(b, 0, 0)
    };
    assert(ea@ =~= epoch_of(a@));
    assert(eb@ =~= epoch_of(b@));
    let e = num_cmp_exec(ea, eb);
    if e != 0 {
        return e;
    }
    let ta: &[u8] = if ca < a.len() {
        vstd::slice::slice_subrange(a, ca + 1, a.len())
    } else {
        a
    };
    let tb: &[u8] = if cb < b.len() {
        vstd::slice::slice_subrange(b, cb + 1, b.len())
    } else {
        b
    };
    assert(ta@ =~= tail_of(a@));
    assert(tb@ =~= tail_of(b@));
    proof {
        lemma_last_hyphen_bounds(ta@);
        lemma_last_hyphen_bounds(tb@);
    }
    let ha = last_hyphen_exec(ta);
    let hb = last_hyphen_exec(tb);
    let ua: &[u8] = match ha {
        Some(k) => vstd::slice::slice_subrange(ta, 0, k),
        None => ta,
    };
    let ub: &[u8] = match hb {
        Some(k) => vstd::slice::slice_subrange(tb, 0, k),
        None => tb,
    };
    assert(ua@ =~= upstream_of(a@));
    assert(ub@ =~= upstream_of(b@));
    let u = part_cmp_exec(ua, ub);
    if u != 0 {
        return u;
    }
    let ra: &[u8] = match ha {
        Some(k) => vstd::slice::slice_subrange(ta, k + 1, ta.len()),
        None => vstd::slice::slice_subrange(ta, 0, 0),
    };
    let rb: &[u8] = match hb {
        Some(k) => vstd::slice::slice_subrange(tb, k + 1, tb.len()),
        None => vstd::slice::slice_subrange(tb, 0, 0),
    };
    assert(ra@ =~= revision_of(a@));
    assert(rb@ =~= revision_of(b@));
    part_cmp_exec(ra, rb)
}

/// A relation a dependency may put on a version: strictly earlier (`<<`),
/// earlier or equal (`<=`), exactly equal (`=`), later or equal (`>=`),
/// strictly later (`>>`).
#[derive(Clone, Copy, Debug, PartialEq, Eq, Structural)]
pub enum Rel {
    Earlier,
    EarlierEq,
    Exact,
    LaterEq,
    Later,
}

/// A range of versions: every version, or the versions standing in a given
/// relation to a boundary version.
#[derive(Clone, Debug)]
pub enum VersionRange {
    Whole,
    Bounded(Rel, Vec<u8>),
}

/// Whether version `v` lies in range `r`, in terms of [`version_cmp`].
pub open spec fn range_matches(r: VersionRange, v: Seq<u8>) -> bool {
    match r {
        VersionRange::Whole => true,
        VersionRange::Bounded(rel, bound) => {
            let c = version_cmp(v, bound@);
            match rel {
                Rel::Earlier => c < 0,
                Rel::EarlierEq => c <= 0,
                Rel::Exact => c == 0,
                Rel::LaterEq => c >= 0,
                Rel::Later => c > 0,
            }
        },
    }
}

/// Spec equality of two ranges: same shape, same relation, same boundary
/// bytes.
pub open spec fn range_eqv(a: VersionRange, b: VersionRange) -> bool {
    match (a, b) {
        (VersionRange::Whole, VersionRange::Whole) => true,
        (VersionRange::Bounded(ra, va), VersionRange::Bounded(rb, vb)) => ra == rb && va@ == vb@,
        _ => false,
    }
}

impl VersionRange {
    /// Exec test: does version `v` lie in this range?
    pub fn contains_version(&self, v: &[u8]) -> (b: bool)
        ensures
            b == range_matches(*self, v@),
    {
        match self {
            VersionRange::Whole => true,
            VersionRange::Bounded(rel, bound) => {
                let c = compare_versions(v, bound.as_slice());
                match rel {
                    Rel::Earlier => c < 0,
                    Rel::EarlierEq => c <= 0,
                    Rel::Exact => c == 0,
                    Rel::LaterEq => c >= 0,
                    Rel::Later => c > 0,
                }
            },
        }
    }

    /// Exec equality of ranges.
    pub fn same_range(&self, other: &VersionRange) -> (b: bool)
        ensures
            b == range_eqv(*self, *other),
    {
        match (self, other) {
            (VersionRange::Whole, VersionRange::Whole) => true,
            (VersionRange::Bounded(ra, va), VersionRange::Bounded(rb, vb)) => {
                let releq = match (ra, rb) {
                    (Rel::Earlier, Rel::Earlier) => true,
                    (Rel::EarlierEq, Rel::EarlierEq) => true,
                    (Rel::Exact, Rel::Exact) => true,
                    (Rel::LaterEq, Rel::LaterEq) => true,
                    (Rel::Later, Rel::Later) => true,
                    _ => false,
                };
                releq && crate::bytes::bytes_eq(va.as_slice(), vb.as_slice())
            },
            _ => false,
        }
    }
}

/// Digit-run comparison is antisymmetric.
pub proof fn lemma_run_cmp_antisym(a: Seq<u8>, b: Seq<u8>)
    ensures
        run_cmp(a, b) == -run_cmp(b, a),
    decreases a.len() + b.len(),
{
    if a.len() > 0 && b.len() > 0 && a[0] == b[0] {
        lemma_run_cmp_antisym(a.skip(1), b.skip(1));
    }
}

/// Part-wise comparison is antisymmetric.
pub proof fn lemma_part_cmp_antisym(a: Seq<u8>, b: Seq<u8>)
    ensures
        part_cmp(a, b) == -part_cmp(b, a),
    decreases a.len() + b.len(),
{
    lemma_strip_zeros_len(a);
    lemma_strip_zeros_len(b);
    lemma_run_len_bounds(strip_zeros(a));
    lemma_run_len_bounds(strip_zeros(b));
    if a.len() > 0 && is_digit(a[0]) {
        lemma_digit_side_shrinks(a);
    }
    if b.len() > 0 && is_digit(b[0]) {
        lemma_digit_side_shrinks(b);
    }
    if a.len() == 0 && b.len() == 0 {
    } else if (a.len() > 0 && !is_digit(a[0])) || (b.len() > 0 && !is_digit(b[0])) {
        let ac = if a.len() > 0 {
            order_of(a[0])
        } else {
            0
        };
        let bc = if b.len() > 0 {
            order_of(b[0])
        } else {
            0
        };
        if ac == bc {
            lemma_part_cmp_antisym(a.skip(1), b.skip(1));
        }
    } else {
        let sa = strip_zeros(a);
        let sb = strip_zeros(b);
        let la = run_len(sa);
        let lb = run_len(sb);
        if la == lb {
            lemma_run_cmp_antisym(sa.take(la), sb.take(lb));
            if run_cmp(sa.take(la), sb.take(lb)) == 0 {
                lemma_part_cmp_antisym(sa.skip(la), sb.skip(lb));
            }
        }
    }
}

/// Whole-version comparison is antisymmetric.
pub proof fn lemma_version_cmp_antisym(a: Seq<u8>, b: Seq<u8>)
    ensures
        version_cmp(a, b) == -version_cmp(b, a),
{
    lemma_run_cmp_antisym(strip_zeros(epoch_of(a)), strip_zeros(epoch_of(b)));
    lemma_part_cmp_antisym(upstream_of(a), upstream_of(b));
    lemma_part_cmp_antisym(revision_of(a), revision_of(b));
}

} // verus!
