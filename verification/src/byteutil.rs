//! Byte-level search and splitting with exact specifications. Multipart
//! bodies carry arbitrary binary payloads, so these work on raw bytes; a
//! textual split would corrupt binary attachments.

use vstd::prelude::*;
use vstd::slice::slice_to_vec;

verus! {

/// The views of a list of byte vectors.
pub open spec fn bviews(ps: Seq<Vec<u8>>) -> Seq<Seq<u8>> {
    ps.map_values(|p: Vec<u8>| p@)
}

/// `d` occurs in `s` at position `i`.
pub open spec fn bmatch_at(s: Seq<u8>, d: Seq<u8>, i: int) -> bool {
    0 <= i && i + d.len() <= s.len() && s.subrange(i, i + d.len() as int) == d
}

/// Index of the first occurrence of `d` in `s` at or after `k`, or `-1`.
pub open spec fn bfind_at(s: Seq<u8>, d: Seq<u8>, k: int) -> int
    recommends
        0 <= k,
        d.len() > 0,
    decreases s.len() + 1 - k,
{
    if k + d.len() > s.len() {
        -1
    } else if bmatch_at(s, d, k) {
        k
    } else {
        bfind_at(s, d, k + 1)
    }
}

/// `bfind_at` returns the first match and `-1` exactly when there is none.
pub proof fn lemma_bfind_at(s: Seq<u8>, d: Seq<u8>, k: int)
    requires
        0 <= k,
        d.len() > 0,
    ensures
        bfind_at(s, d, k) == -1 || bfind_at(s, d, k) >= k,
        bfind_at(s, d, k) == -1 ==> forall|i: int| k <= i ==> !bmatch_at(s, d, i),
        bfind_at(s, d, k) >= 0 ==> {
            &&& k <= bfind_at(s, d, k)
            &&& bmatch_at(s, d, bfind_at(s, d, k))
            &&& forall|i: int| k <= i < bfind_at(s, d, k) ==> !bmatch_at(s, d, i)
        },
    decreases s.len() + 1 - k,
{
    if k + d.len() > s.len() {
        assert(forall|i: int| k <= i ==> !bmatch_at(s, d, i));
    } else if bmatch_at(s, d, k) {
    } else {
        lemma_bfind_at(s, d, k + 1);
    }
}

/// If a match exists at `i` and none earlier, `bfind_at` returns `i`.
pub proof fn lemma_bfind_at_found(s: Seq<u8>, d: Seq<u8>, k: int, i: int)
    requires
        0 <= k <= i,
        d.len() > 0,
        bmatch_at(s, d, i),
        forall|j: int| k <= j < i ==> !bmatch_at(s, d, j),
    ensures
        bfind_at(s, d, k) == i,
    decreases i - k,
{
    if k < i {
        lemma_bfind_at_found(s, d, k + 1, i);
    }
}

/// Split `s` on every occurrence of the delimiter `d`, scanning left to
/// right; an empty delimiter, or one that never occurs, gives one piece.
pub open spec fn bsplit_by(s: Seq<u8>, d: Seq<u8>) -> Seq<Seq<u8>>
    recommends
        d.len() > 0,
    decreases s.len(),
{
    let f = bfind_at(s, d, 0);
    if d.len() == 0 || f < 0 || f + d.len() > s.len() {
        seq![s]
    } else {
        seq![s.subrange(0, f)] + bsplit_by(s.skip(f + d.len()), d)
    }
}

/// Byte-by-byte occurrence test.
fn bis_match(s: &[u8], d: &[u8], i: usize) -> (r: bool)
    requires
        i + d@.len() <= s@.len(),
    ensures
        r == bmatch_at(s@, d@, i as int),
{
    let n = s.len();
    let dn = d.len();
    let mut l: usize = 0;
    while l < dn
        invariant
            l <= dn,
            i + dn <= n,
            n == s@.len(),
            dn == d@.len(),
            forall|j: int| 0 <= j < l ==> s@[i + j] == d@[j],
        decreases dn - l,
    {
        if s[i + l] != d[l] {
            assert(!bmatch_at(s@, d@, i as int)) by {
                assert(s@.subrange(i as int, i + dn) != d@) by {
                    assert(s@.subrange(i as int, i + dn)[l as int] != d@[l as int]);
                }
            }
            return false;
        }
        l = l + 1;
    }
    assert(s@.subrange(i as int, i + dn) =~= d@);
    true
}

/// First occurrence of `d` in `s` at or after `k`, as an index.
pub fn bfind_from(s: &[u8], d: &[u8], k: usize) -> (r: Option<usize>)
    requires
        d@.len() > 0,
        k <= s@.len(),
    ensures
        match r {
            Some(i) => bfind_at(s@, d@, k as int) == i as int,
            None => bfind_at(s@, d@, k as int) == -1,
        },
{
    let n = s.len();
    let dn = d.len();
    if dn > n {
        assert(bfind_at(s@, d@, k as int) == -1);
        return None;
    }
    let mut i: usize = k;
    while i <= n - dn
        invariant
            k <= i,
            n == s@.len(),
            dn == d@.len(),
            0 < dn <= n,
            forall|j: int| k <= j < i ==> !bmatch_at(s@, d@, j),
        decreases n - i,
    {
        if bis_match(s, d, i) {
            assert(bfind_at(s@, d@, k as int) == i as int) by {
                lemma_bfind_at_found(s@, d@, k as int, i as int);
            }
            return Some(i);
        }
        i = i + 1;
    }
    assert(forall|j: int| k <= j ==> !bmatch_at(s@, d@, j)) by {
        assert forall|j: int| k <= j implies !bmatch_at(s@, d@, j) by {
            if j >= i {
                assert(j + d@.len() > s@.len());
            }
        }
    }
    proof {
        lemma_bfind_at(s@, d@, k as int);
        let f = bfind_at(s@, d@, k as int);
        if f >= 0 {
            assert(bmatch_at(s@, d@, f));
            assert(false);
        }
    }
    None
}

/// Copy `s[from..to]` out as an owned vector.
pub fn sub_bytes(s: &[u8], from: usize, to: usize) -> (r: Vec<u8>)
    requires
        from <= to <= s@.len(),
    ensures
        r@ == s@.subrange(from as int, to as int),
{
    slice_to_vec(&s[from..to])
}

/// Split at the first occurrence of `delimiter`: `Some((before, after))`,
/// `None` when the delimiter is empty or does not occur.
pub fn split_once_bytes(slice: &[u8], delimiter: &[u8]) -> (r: Option<(Vec<u8>, Vec<u8>)>)
    ensures
        match r {
            Some(pair) => {
                let f = bfind_at(slice@, delimiter@, 0);
                &&& delimiter@.len() > 0
                &&& f >= 0
                &&& pair.0@ == slice@.subrange(0, f)
                &&& pair.1@ == slice@.skip(f + delimiter@.len())
            },
            None => delimiter@.len() == 0 || bfind_at(slice@, delimiter@, 0) == -1,
        },
{
    let n = slice.len();
    let dn = delimiter.len();
    if dn == 0 {
        return None;
    }
    match bfind_from(slice, delimiter, 0) {
        None => None,
        Some(f) => {
            proof {
                lemma_bfind_at(slice@, delimiter@, 0);
            }
            let before = sub_bytes(slice, 0, f);
            let after = sub_bytes(slice, f + dn, n);
            assert(after@ =~= slice@.skip(f + dn as int));
            Some((before, after))
        },
    }
}

/// Split on every occurrence of `delimiter`; the pieces in order, per
/// `bsplit_by`.
pub fn split_bytes(slice: &[u8], delimiter: &[u8]) -> (parts: Vec<Vec<u8>>)
    ensures
        bviews(parts@) == bsplit_by(slice@, delimiter@),
{
    let dn = delimiter.len();
    let mut parts: Vec<Vec<u8>> = Vec::new();
    let mut rest: Vec<u8> = slice_to_vec(slice);
    if dn == 0 {
        parts.push(rest);
        assert(bviews(parts@) =~= bsplit_by(slice@, delimiter@));
        return parts;
    }
    proof {
        assert(bviews(parts@) + bsplit_by(rest@, delimiter@) =~= bsplit_by(slice@, delimiter@));
    }
    loop
        invariant
            delimiter@.len() == dn > 0,
            bsplit_by(slice@, delimiter@) == bviews(parts@) + bsplit_by(rest@, delimiter@),
        decreases rest@.len(),
    {
        let rn = rest.len();
        match bfind_from(rest.as_slice(), delimiter, 0) {
            None => {
                let ghost old_parts = parts@;
                let ghost rest_view = rest@;
                parts.push(rest);
                assert(bviews(parts@) =~= bviews(old_parts) + seq![rest_view]);
                assert(bviews(parts@) =~= bsplit_by(slice@, delimiter@));
                return parts;
            },
            Some(f) => {
                proof {
                    lemma_bfind_at(rest@, delimiter@, 0);
                }
                let ghost old_parts = parts@;
                let piece = sub_bytes(rest.as_slice(), 0, f);
                parts.push(piece);
                let new_rest = sub_bytes(rest.as_slice(), f + dn, rn);
                assert(new_rest@ =~= rest@.skip(f + dn as int));
                proof {
                    assert(bviews(parts@) =~= bviews(old_parts) + seq![
                        rest@.subrange(0, f as int),
                    ]);
                    assert(bsplit_by(rest@, delimiter@) == seq![rest@.subrange(0, f as int)]
                        + bsplit_by(rest@.skip(f + dn as int), delimiter@));
                    assert(bviews(parts@) + bsplit_by(new_rest@, delimiter@) =~= bviews(old_parts)
                        + bsplit_by(rest@, delimiter@));
                }
                rest = new_rest;
            },
        }
    }
}

/// `s` begins with `p`.
pub open spec fn spec_starts_with_bytes(s: Seq<u8>, p: Seq<u8>) -> bool {
    p.len() <= s.len() && s.subrange(0, p.len() as int) == p
}

pub fn starts_with_bytes(s: &[u8], p: &[u8]) -> (r: bool)
    ensures
        r == spec_starts_with_bytes(s@, p@),
{
    if p.len() > s.len() {
        return false;
    }
    bis_match(s, p, 0)
}

/// Byte-for-byte equality.
pub fn bytes_eq(a: &[u8], b: &[u8]) -> (r: bool)
    ensures
        r == (a@ == b@),
{
    if a.len() != b.len() {
        assert(a@ != b@);
        return false;
    }
    if bis_match(a, b, 0) {
        assert(a@.subrange(0, b@.len() as int) =~= a@);
        true
    } else {
        assert(a@.subrange(0, b@.len() as int) =~= a@);
        false
    }
}

} // verus!
