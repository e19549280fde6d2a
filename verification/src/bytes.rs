//! Byte-string helpers: ASCII classification, equality (exact and
//! case-insensitive) and lexicographic comparison.
//!
//! Package names, architecture names and versions are ASCII byte strings;
//! every comparison in the crate bottoms out here.
use vstd::prelude::*;

verus! {

/// ASCII decimal digit.
pub open spec fn is_digit(c: u8) -> bool {
    48 <= c && c <= 57
}

/// ASCII letter.
pub open spec fn is_alpha(c: u8) -> bool {
    (65 <= c && c <= 90) || (97 <= c && c <= 122)
}

/// ASCII lower-casing of a single byte.
pub open spec fn lower(c: u8) -> u8 {
    if 65 <= c && c <= 90 {
        (c + 32) as u8
    } else {
        c
    }
}

/// ASCII lower-casing of a byte string.
pub open spec fn lower_seq(s: Seq<u8>) -> Seq<u8> {
    s.map_values(|c: u8| lower(c))
}

/// Exec test for an ASCII digit.
pub fn digit(c: u8) -> (r: bool)
    ensures
        r == is_digit(c),
{
    48 <= c && c <= 57
}

/// Exact equality of two byte strings.
pub fn bytes_eq(a: &[u8], b: &[u8]) -> (r: bool)
    ensures
        r == (a@ == b@),
{
    if a.len() != b.len() {
        assert(a@ != b@) by {
            assert(a@.len() != b@.len());
        }
        return false;
    }
    let mut i: usize = 0;
    while i < a.len()
        invariant
            i <= a.len(),
            a.len() == b.len(),
            forall|k: int| 0 <= k < i ==> a@[k] == b@[k],
        decreases a.len() - i,
    {
        if a[i] != b[i] {
            return false;
        }
        i = i + 1;
    }
    assert(a@ =~= b@);
    true
}

/// Case-insensitive (ASCII) equality of two byte strings.
pub fn eq_ignore_case(a: &[u8], b: &[u8]) -> (r: bool)
    ensures
        r == (lower_seq(a@) == lower_seq(b@)),
{
    if a.len() != b.len() {
        assert(lower_seq(a@) != lower_seq(b@)) by {
            assert(lower_seq(a@).len() != lower_seq(b@).len());
        }
        return false;
    }
    let mut i: usize = 0;
    while i < a.len()
        invariant
            i <= a.len(),
            a.len() == b.len(),
            forall|k: int| 0 <= k < i ==> lower(a@[k]) == lower(b@[k]),
        decreases a.len() - i,
    {
        let ca = if 65 <= a[i] && a[i] <= 90 {
            a[i] + 32
        } else {
            a[i]
        };
        let cb = if 65 <= b[i] && b[i] <= 90 {
            b[i] + 32
        } else {
            b[i]
        };
        if ca != cb {
            assert(lower_seq(a@)[i as int] != lower_seq(b@)[i as int]);
            return false;
        }
        i = i + 1;
    }
    assert(lower_seq(a@) =~= lower_seq(b@));
    true
}

/// Lexicographic order on byte strings, as `-1`, `0` or `1`; the order Rust
/// itself gives to `str` and `[u8]`.
pub open spec fn lex_cmp(a: Seq<u8>, b: Seq<u8>) -> int
    decreases a.len(),
{
    if a.len() == 0 && b.len() == 0 {
        0
    } else if a.len() == 0 {
        -1
    } else if b.len() == 0 {
        1
    } else if a[0] < b[0] {
        -1
    } else if a[0] > b[0] {
        1
    } else {
        lex_cmp(a.skip(1), b.skip(1))
    }
}

/// Exec lexicographic comparison.
pub fn compare_bytes(a: &[u8], b: &[u8]) -> (r: i32)
    ensures
        r as int == lex_cmp(a@, b@),
    decreases a@.len(),
{
    if a.len() == 0 && b.len() == 0 {
        0
    } else if a.len() == 0 {
        -1
    } else if b.len() == 0 {
        1
    } else if a[0] < b[0] {
        -1
    } else if a[0] > b[0] {
        1
    } else {
        let sa = vstd::slice::slice_subrange(a, 1, a.len());
        let sb = vstd::slice::slice_subrange(b, 1, b.len());
        assert(sa@ =~= a@.skip(1));
        assert(sb@ =~= b@.skip(1));
        compare_bytes(sa, sb)
    }
}

/// Lexicographic comparison is antisymmetric.
pub proof fn lemma_lex_cmp_antisym(a: Seq<u8>, b: Seq<u8>)
    ensures
        lex_cmp(a, b) == -lex_cmp(b, a),
    decreases a.len() + b.len(),
{
    if a.len() > 0 && b.len() > 0 && a[0] == b[0] {
        lemma_lex_cmp_antisym(a.skip(1), b.skip(1));
    }
}

} // verus!
