//! Character-level string utilities with exact specifications: substring
//! search, splitting, trimming, and decimal conversion. All parsing in this
//! crate that works on text goes through these.

use vstd::prelude::*;

verus! {

/// The views of a list of strings.
pub open spec fn views(ps: Seq<String>) -> Seq<Seq<char>> {
    ps.map_values(|p: String| p@)
}

/// `d` occurs in `s` at position `i`.
pub open spec fn match_at(s: Seq<char>, d: Seq<char>, i: int) -> bool {
    0 <= i && i + d.len() <= s.len() && s.subrange(i, i + d.len() as int) == d
}

/// Index of the first occurrence of `d` in `s` at or after `k`, or `-1`.
pub open spec fn find_at(s: Seq<char>, d: Seq<char>, k: int) -> int
    recommends
        0 <= k,
        d.len() > 0,
    decreases s.len() + 1 - k,
{
    if k + d.len() > s.len() {
        -1
    } else if match_at(s, d, k) {
        k
    } else {
        find_at(s, d, k + 1)
    }
}

/// `find_at` returns the first match and `-1` exactly when there is none.
pub proof fn lemma_find_at(s: Seq<char>, d: Seq<char>, k: int)
    requires
        0 <= k,
        d.len() > 0,
    ensures
        find_at(s, d, k) == -1 || find_at(s, d, k) >= k,
        find_at(s, d, k) == -1 ==> forall|i: int| k <= i ==> !match_at(s, d, i),
        find_at(s, d, k) >= 0 ==> {
            &&& k <= find_at(s, d, k)
            &&& match_at(s, d, find_at(s, d, k))
            &&& forall|i: int| k <= i < find_at(s, d, k) ==> !match_at(s, d, i)
        },
    decreases s.len() + 1 - k,
{
    if k + d.len() > s.len() {
        assert(forall|i: int| k <= i ==> !match_at(s, d, i));
    } else if match_at(s, d, k) {
    } else {
        lemma_find_at(s, d, k + 1);
    }
}

/// Split `s` on every occurrence of the (non-empty) delimiter `d`, scanning
/// left to right; delimiters are not part of any piece, and a string with no
/// delimiter is a single piece.
pub open spec fn split_by(s: Seq<char>, d: Seq<char>) -> Seq<Seq<char>>
    recommends
        d.len() > 0,
    decreases s.len(),
{
    let f = find_at(s, d, 0);
    if d.len() == 0 || f < 0 || f + d.len() > s.len() {
        seq![s]
    } else {
        seq![s.subrange(0, f)] + split_by(s.skip(f + d.len()), d)
    }
}

/// Character-by-character occurrence test.
fn is_match(s: &str, d: &str, i: usize, n: usize, dn: usize) -> (r: bool)
    requires
        n == s@.len(),
        dn == d@.len(),
        i + dn <= n,
    ensures
        r == match_at(s@, d@, i as int),
{
    let mut l: usize = 0;
    while l < dn
        invariant
            l <= dn,
            i + dn <= n,
            n == s@.len(),
            dn == d@.len(),
            forall|j: int| 0 <= j < l ==> s@[i + j] == d@[j],
        decreases dn - l,
    {
        if s.get_char(i + l) != d.get_char(l) {
            assert(!match_at(s@, d@, i as int)) by {
                assert(s@.subrange(i as int, i + dn) != d@) by {
                    assert(s@.subrange(i as int, i + dn)[l as int] != d@[l as int]);
                }
            }
            return false;
        }
        l = l + 1;
    }
    assert(s@.subrange(i as int, i + dn) =~= d@);
    true
}

/// First occurrence of `d` in `s` at or after `k`, as an index.
pub fn find_from(s: &str, d: &str, k: usize) -> (r: Option<usize>)
    requires
        d@.len() > 0,
        k <= s@.len(),
    ensures
        match r {
            Some(i) => find_at(s@, d@, k as int) == i as int,
            None => find_at(s@, d@, k as int) == -1,
        },
{
    let n = s.unicode_len();
    let dn = d.unicode_len();
    if dn > n {
        assert(find_at(s@, d@, k as int) == -1);
        return None;
    }
    let mut i: usize = k;
    while i <= n - dn
        invariant
            k <= i,
            n == s@.len(),
            dn == d@.len(),
            0 < dn <= n,
            forall|j: int| k <= j < i ==> !match_at(s@, d@, j),
        decreases n - i,
    {
        if is_match(s, d, i, n, dn) {
            assert(find_at(s@, d@, k as int) == i as int) by {
                lemma_find_at_found(s@, d@, k as int, i as int);
            }
            return Some(i);
        }
        i = i + 1;
    }
    assert(forall|j: int| k <= j ==> !match_at(s@, d@, j)) by {
        assert forall|j: int| k <= j implies !match_at(s@, d@, j) by {
            if j < i {
            } else {
                assert(j + d@.len() > s@.len());
            }
        }
    }
    proof {
        lemma_find_at(s@, d@, k as int);
        let f = find_at(s@, d@, k as int);
        if f >= 0 {
            assert(match_at(s@, d@, f));
            assert(false);
        }
    }
    None
}

/// If a match exists at `i` and none earlier, `find_at` returns `i`.
pub proof fn lemma_find_at_found(s: Seq<char>, d: Seq<char>, k: int, i: int)
    requires
        0 <= k <= i,
        d.len() > 0,
        match_at(s, d, i),
        forall|j: int| k <= j < i ==> !match_at(s, d, j),
    ensures
        find_at(s, d, k) == i,
    decreases i - k,
{
    if k == i {
    } else {
        lemma_find_at_found(s, d, k + 1, i);
    }
}

/// Extract `s[from..to]` as an owned string.
pub fn substring(s: &str, from: usize, to: usize) -> (r: String)
    requires
        from <= to <= s@.len(),
    ensures
        r@ == s@.subrange(from as int, to as int),
{
    s.substring_char(from, to).to_owned()
}

/// Split on a non-empty delimiter; the pieces in order, per `split_by`.
pub fn split_str(s: &str, d: &str) -> (parts: Vec<String>)
    requires
        d@.len() > 0,
    ensures
        views(parts@) == split_by(s@, d@),
{
    let dn = d.unicode_len();
    let mut parts: Vec<String> = Vec::new();
    let mut rest: String = s.to_owned();
    proof {
        assert(views(parts@) + split_by(rest@, d@) =~= split_by(s@, d@));
    }
    loop
        invariant
            d@.len() == dn > 0,
            split_by(s@, d@) == views(parts@) + split_by(rest@, d@),
        decreases rest@.len(),
    {
        let rn = rest.as_str().unicode_len();
        match find_from(rest.as_str(), d, 0) {
            None => {
                let ghost old_parts = parts@;
                let ghost rest_view = rest@;
                parts.push(rest);
                assert(views(parts@) =~= views(old_parts) + seq![rest_view]);
                assert(views(parts@) =~= split_by(s@, d@));
                return parts;
            },
            Some(f) => {
                proof {
                    lemma_find_at(rest@, d@, 0);
                }
                let ghost old_parts = parts@;
                let piece = substring(rest.as_str(), 0, f);
                parts.push(piece);
                let new_rest = substring(rest.as_str(), f + dn, rn);
                assert(new_rest@ =~= rest@.skip(f + dn as int));
                proof {
                    assert(views(parts@) =~= views(old_parts) + seq![
                        rest@.subrange(0, f as int),
                    ]);
                    assert(split_by(rest@, d@) == seq![rest@.subrange(0, f as int)] + split_by(
                        rest@.skip(f + dn as int),
                        d@,
                    ));
                    assert(views(parts@) + split_by(new_rest@, d@) =~= views(old_parts)
                        + split_by(rest@, d@));
                }
                rest = new_rest;
            },
        }
    }
}

/// Split at the first occurrence of `d`: `Some((before, after))`, or `None`
/// when `d` does not occur.
pub fn split_once_str(s: &str, d: &str) -> (r: Option<(String, String)>)
    requires
        d@.len() > 0,
    ensures
        match r {
            Some(pair) => {
                let f = find_at(s@, d@, 0);
                &&& f >= 0
                &&& pair.0@ == s@.subrange(0, f)
                &&& pair.1@ == s@.skip(f + d@.len())
            },
            None => find_at(s@, d@, 0) == -1,
        },
{
    let n = s.unicode_len();
    let dn = d.unicode_len();
    match find_from(s, d, 0) {
        None => None,
        Some(f) => {
            proof {
                lemma_find_at(s@, d@, 0);
            }
            let before = substring(s, 0, f);
            let after = substring(s, f + dn, n);
            assert(after@ =~= s@.skip(f + dn as int));
            Some((before, after))
        },
    }
}

/// `s` begins with `p`.
pub open spec fn spec_starts_with(s: Seq<char>, p: Seq<char>) -> bool {
    p.len() <= s.len() && s.subrange(0, p.len() as int) == p
}

pub fn starts_with(s: &str, p: &str) -> (r: bool)
    ensures
        r == spec_starts_with(s@, p@),
{
    let n = s.unicode_len();
    let pn = p.unicode_len();
    if pn > n {
        return false;
    }
    is_match(s, p, 0, n, pn)
}

/// Copy a list of strings; the views are kept position by position.
pub fn clone_strs(v: &Vec<String>) -> (r: Vec<String>)
    ensures
        r@.len() == v@.len(),
        forall|i: int| 0 <= i < v@.len() ==> r@[i]@ == v@[i]@,
{
    let n = v.len();
    let mut r: Vec<String> = Vec::new();
    let mut i: usize = 0;
    while i < n
        invariant
            i <= n,
            n == v@.len(),
            r@.len() == i,
            forall|j: int| 0 <= j < i ==> r@[j]@ == v@[j]@,
        decreases n - i,
    {
        r.push(v[i].clone());
        i = i + 1;
    }
    r
}

/// Character-for-character equality.
pub fn str_eq(a: &str, b: &str) -> (r: bool)
    ensures
        r == (a@ == b@),
{
    let n = a.unicode_len();
    if n != b.unicode_len() {
        assert(a@ != b@);
        return false;
    }
    let eq = is_match(a, b, 0, n, n);
    assert(a@.subrange(0, n as int) =~= a@);
    eq
}

/// Index of the first character at or after `k` that is not `c` (the length
/// when every remaining character is `c`).
pub open spec fn skip_while_at(s: Seq<char>, c: char, k: int) -> int
    recommends
        0 <= k <= s.len(),
    decreases s.len() - k,
{
    if k < 0 || k >= s.len() {
        s.len() as int
    } else if s[k] == c {
        skip_while_at(s, c, k + 1)
    } else {
        k
    }
}

/// Length of `s` once trailing `c` characters are dropped.
pub open spec fn end_trim(s: Seq<char>, c: char) -> int
    decreases s.len(),
{
    if s.len() > 0 && s.last() == c {
        end_trim(s.drop_last(), c)
    } else {
        s.len() as int
    }
}

/// `s` with every leading and trailing `c` removed.
pub open spec fn spec_trim_char(s: Seq<char>, c: char) -> Seq<char> {
    let b = skip_while_at(s, c, 0);
    let e = end_trim(s, c);
    if b >= e {
        Seq::empty()
    } else {
        s.subrange(b, e)
    }
}

proof fn lemma_skip_while_at(s: Seq<char>, c: char, k: int)
    requires
        0 <= k <= s.len(),
    ensures
        k <= skip_while_at(s, c, k) <= s.len(),
        forall|j: int| k <= j < skip_while_at(s, c, k) ==> s[j] == c,
        skip_while_at(s, c, k) < s.len() ==> s[skip_while_at(s, c, k)] != c,
    decreases s.len() - k,
{
    if k < s.len() && s[k] == c {
        lemma_skip_while_at(s, c, k + 1);
    }
}

proof fn lemma_end_trim(s: Seq<char>, c: char)
    ensures
        0 <= end_trim(s, c) <= s.len(),
        forall|j: int| end_trim(s, c) <= j < s.len() ==> s[j] == c,
        end_trim(s, c) > 0 ==> s[end_trim(s, c) - 1] != c,
    decreases s.len(),
{
    if s.len() > 0 && s.last() == c {
        lemma_end_trim(s.drop_last(), c);
        assert(forall|j: int| 0 <= j < s.len() - 1 ==> s.drop_last()[j] == s[j]);
    }
}

/// All-`c` prefixes trim away entirely.
proof fn lemma_end_trim_all(s: Seq<char>, c: char)
    requires
        forall|j: int| 0 <= j < s.len() ==> s[j] == c,
    ensures
        end_trim(s, c) == 0,
    decreases s.len(),
{
    if s.len() > 0 {
        lemma_end_trim_all(s.drop_last(), c);
    }
}

/// Remove every leading and trailing occurrence of `c` from `s`.
pub fn trim_char(s: &str, c: char) -> (r: String)
    ensures
        r@ == spec_trim_char(s@, c),
{
    let n = s.unicode_len();
    let mut b: usize = 0;
    while b < n && s.get_char(b) == c
        invariant
            0 <= b <= n,
            n == s@.len(),
            forall|j: int| 0 <= j < b ==> s@[j] == c,
            skip_while_at(s@, c, 0) == skip_while_at(s@, c, b as int),
        decreases n - b,
    {
        b = b + 1;
    }
    assert(skip_while_at(s@, c, 0) == b as int);
    let mut e: usize = n;
    assert(s@.subrange(0, n as int) =~= s@);
    while e > b && s.get_char(e - 1) == c
        invariant
            b <= e <= n,
            n == s@.len(),
            forall|j: int| 0 <= j < b ==> s@[j] == c,
            skip_while_at(s@, c, 0) == b as int,
            end_trim(s@, c) == end_trim(s@.subrange(0, e as int), c),
        decreases e,
    {
        proof {
            let pre = s@.subrange(0, e as int);
            assert(pre.last() == c);
            assert(pre.drop_last() =~= s@.subrange(0, e - 1int));
        }
        e = e - 1;
    }
    if e <= b {
        proof {
            let pre = s@.subrange(0, e as int);
            assert(forall|j: int| 0 <= j < pre.len() ==> pre[j] == c);
            lemma_end_trim_all(pre, c);
            assert(end_trim(s@, c) == 0);
        }
        String::new()
    } else {
        proof {
            let pre = s@.subrange(0, e as int);
            assert(pre.last() != c);
            assert(end_trim(pre, c) == pre.len());
            assert(end_trim(s@, c) == e as int);
        }
        substring(s, b, e)
    }
}

/// Normalize a path by dropping its leading and trailing slashes.
pub fn cleanup_path(path: &str) -> (r: String)
    ensures
        r@ == spec_trim_char(path@, '/'),
{
    trim_char(path, '/')
}

/// A quote character, double or single.
pub open spec fn is_quote(c: char) -> bool {
    c == '"' || c == '\''
}

pub open spec fn skip_quotes_at(s: Seq<char>, k: int) -> int
    recommends
        0 <= k <= s.len(),
    decreases s.len() - k,
{
    if k < 0 || k >= s.len() {
        s.len() as int
    } else if is_quote(s[k]) {
        skip_quotes_at(s, k + 1)
    } else {
        k
    }
}

pub open spec fn end_trim_quotes(s: Seq<char>) -> int
    decreases s.len(),
{
    if s.len() > 0 && is_quote(s.last()) {
        end_trim_quotes(s.drop_last())
    } else {
        s.len() as int
    }
}

/// `s` with every leading and trailing quote removed.
pub open spec fn spec_trim_quotes(s: Seq<char>) -> Seq<char> {
    let b = skip_quotes_at(s, 0);
    let e = end_trim_quotes(s);
    if b >= e {
        Seq::empty()
    } else {
        s.subrange(b, e)
    }
}

proof fn lemma_end_trim_quotes_all(s: Seq<char>)
    requires
        forall|j: int| 0 <= j < s.len() ==> is_quote(#[trigger] s[j]),
    ensures
        end_trim_quotes(s) == 0,
    decreases s.len(),
{
    if s.len() > 0 {
        lemma_end_trim_quotes_all(s.drop_last());
    }
}

fn is_quote_char(c: char) -> (r: bool)
    ensures
        r == is_quote(c),
{
    c == '"' || c == '\''
}

/// Remove surrounding double or single quotes.
pub fn trim_quotes(s: &str) -> (r: String)
    ensures
        r@ == spec_trim_quotes(s@),
{
    let n = s.unicode_len();
    let mut b: usize = 0;
    while b < n && is_quote_char(s.get_char(b))
        invariant
            0 <= b <= n,
            n == s@.len(),
            forall|j: int| 0 <= j < b ==> is_quote(#[trigger] s@[j]),
            skip_quotes_at(s@, 0) == skip_quotes_at(s@, b as int),
        decreases n - b,
    {
        b = b + 1;
    }
    assert(skip_quotes_at(s@, 0) == b as int);
    let mut e: usize = n;
    assert(s@.subrange(0, n as int) =~= s@);
    while e > b && is_quote_char(s.get_char(e - 1))
        invariant
            b <= e <= n,
            n == s@.len(),
            forall|j: int| 0 <= j < b ==> is_quote(#[trigger] s@[j]),
            skip_quotes_at(s@, 0) == b as int,
            end_trim_quotes(s@) == end_trim_quotes(s@.subrange(0, e as int)),
        decreases e,
    {
        proof {
            let pre = s@.subrange(0, e as int);
            assert(is_quote(pre.last()));
            assert(pre.drop_last() =~= s@.subrange(0, e - 1int));
        }
        e = e - 1;
    }
    if e <= b {
        proof {
            let pre = s@.subrange(0, e as int);
            assert(forall|j: int| 0 <= j < pre.len() ==> is_quote(#[trigger] pre[j]));
            lemma_end_trim_quotes_all(pre);
            assert(end_trim_quotes(s@) == 0);
        }
        String::new()
    } else {
        proof {
            let pre = s@.subrange(0, e as int);
            assert(!is_quote(pre.last()));
            assert(end_trim_quotes(pre) == pre.len());
            assert(end_trim_quotes(s@) == e as int);
        }
        substring(s, b, e)
    }
}

/// The pieces of `ps` that are non-empty, in order.
pub open spec fn keep_nonempty(ps: Seq<Seq<char>>) -> Seq<Seq<char>>
    decreases ps.len(),
{
    if ps.len() == 0 {
        Seq::empty()
    } else if ps[0].len() == 0 {
        keep_nonempty(ps.skip(1))
    } else {
        seq![ps[0]] + keep_nonempty(ps.skip(1))
    }
}

/// Drop the empty strings from a list of pieces.
pub fn drop_empty(ps: Vec<String>) -> (r: Vec<String>)
    ensures
        views(r@) == keep_nonempty(views(ps@)),
{
    let ghost orig = ps@;
    let mut r: Vec<String> = Vec::new();
    let mut rest = ps;
    proof {
        assert(views(r@) + keep_nonempty(views(rest@)) =~= keep_nonempty(views(orig)));
    }
    while rest.len() > 0
        invariant
            keep_nonempty(views(orig)) == views(r@) + keep_nonempty(views(rest@)),
        decreases rest.len(),
    {
        let ghost old_r = r@;
        let ghost old_rest = rest@;
        let p = rest.remove(0);
        proof {
            assert(views(old_rest)[0] == p@);
            assert(views(rest@) =~= views(old_rest).skip(1));
        }
        if p.as_str().unicode_len() > 0 {
            r.push(p);
            proof {
                assert(views(r@) =~= views(old_r) + seq![p@]);
                assert(views(r@) + keep_nonempty(views(rest@)) =~= keep_nonempty(views(orig)));
            }
        } else {
            proof {
                assert(views(r@) + keep_nonempty(views(rest@)) =~= keep_nonempty(views(orig)));
            }
        }
    }
    proof {
        assert(views(rest@).len() == 0);
        assert(keep_nonempty(views(rest@)) =~= Seq::<Seq<char>>::empty());
        assert(views(r@) =~= keep_nonempty(views(orig)));
    }
    r
}

/// A decimal digit.
pub open spec fn is_digit(ch: char) -> bool {
    48 <= ch as u32 <= 57
}

pub open spec fn digit_val(ch: char) -> nat
    recommends
        is_digit(ch),
{
    (ch as u32 - 48) as nat
}

pub open spec fn all_digits(s: Seq<char>) -> bool {
    forall|i: int| 0 <= i < s.len() ==> is_digit(#[trigger] s[i])
}

/// The number a digit string denotes, most significant digit first.
pub open spec fn dec_val(s: Seq<char>) -> nat
    decreases s.len(),
{
    if s.len() == 0 {
        0
    } else {
        dec_val(s.drop_last()) * 10 + digit_val(s.last())
    }
}

proof fn lemma_dec_val_take_mono(s: Seq<char>, j1: int, j2: int)
    requires
        0 <= j1 <= j2 <= s.len(),
    ensures
        dec_val(s.subrange(0, j1)) <= dec_val(s.subrange(0, j2)),
    decreases j2 - j1,
{
    if j1 < j2 {
        lemma_dec_val_take_mono(s, j1, j2 - 1);
        let p = s.subrange(0, j2);
        assert(p.drop_last() =~= s.subrange(0, j2 - 1));
        assert(dec_val(s.subrange(0, j2 - 1)) <= dec_val(p));
    }
}

/// Parse a decimal number. Succeeds exactly on non-empty all-digit strings
/// whose value fits in a `u64`.
pub fn parse_u64(s: &str) -> (r: Option<u64>)
    ensures
        match r {
            Some(v) => s@.len() > 0 && all_digits(s@) && v as nat == dec_val(s@),
            None => s@.len() == 0 || !all_digits(s@) || dec_val(s@) > u64::MAX,
        },
{
    let n = s.unicode_len();
    if n == 0 {
        return None;
    }
    let mut acc: u64 = 0;
    let mut i: usize = 0;
    while i < n
        invariant
            0 <= i <= n,
            n == s@.len(),
            all_digits(s@.subrange(0, i as int)),
            acc as nat == dec_val(s@.subrange(0, i as int)),
        decreases n - i,
    {
        let ch = s.get_char(i);
        let u = ch as u32;
        if u < 48 || u > 57 {
            assert(!is_digit(s@[i as int]));
            return None;
        }
        let d: u64 = (u - 48) as u64;
        proof {
            let p = s@.subrange(0, i + 1int);
            assert(p.drop_last() =~= s@.subrange(0, i as int));
            assert(p.last() == s@[i as int]);
        }
        if acc > 1844674407370955161u64 || (acc == 1844674407370955161u64 && d > 5) {
            proof {
                assert(dec_val(s@.subrange(0, i + 1int)) > u64::MAX);
                lemma_dec_val_take_mono(s@, i + 1int, n as int);
                assert(s@.subrange(0, n as int) =~= s@);
            }
            return None;
        }
        acc = acc * 10 + d;
        i = i + 1;
    }
    assert(s@.subrange(0, n as int) =~= s@);
    Some(acc)
}

pub open spec fn digit_char(d: nat) -> char
    recommends
        d < 10,
{
    if d == 0 {
        '0'
    } else if d == 1 {
        '1'
    } else if d == 2 {
        '2'
    } else if d == 3 {
        '3'
    } else if d == 4 {
        '4'
    } else if d == 5 {
        '5'
    } else if d == 6 {
        '6'
    } else if d == 7 {
        '7'
    } else if d == 8 {
        '8'
    } else {
        '9'
    }
}

/// Decimal rendering of `n`, most significant digit first, no leading zeros.
pub open spec fn dec_str(n: nat) -> Seq<char>
    decreases n,
{
    if n < 10 {
        seq![digit_char(n)]
    } else {
        dec_str(n / 10).push(digit_char(n % 10))
    }
}

fn digit_str(d: u64) -> (r: &'static str)
    requires
        d < 10,
    ensures
        r@ == seq![digit_char(d as nat)],
{
    proof {
        reveal_strlit("0");
        reveal_strlit("1");
        reveal_strlit("2");
        reveal_strlit("3");
        reveal_strlit("4");
        reveal_strlit("5");
        reveal_strlit("6");
        reveal_strlit("7");
        reveal_strlit("8");
        reveal_strlit("9");
        assert("0"@ =~= seq!['0']);
        assert("1"@ =~= seq!['1']);
        assert("2"@ =~= seq!['2']);
        assert("3"@ =~= seq!['3']);
        assert("4"@ =~= seq!['4']);
        assert("5"@ =~= seq!['5']);
        assert("6"@ =~= seq!['6']);
        assert("7"@ =~= seq!['7']);
        assert("8"@ =~= seq!['8']);
        assert("9"@ =~= seq!['9']);
    }
    if d == 0 {
        "0"
    } else if d == 1 {
        "1"
    } else if d == 2 {
        "2"
    } else if d == 3 {
        "3"
    } else if d == 4 {
        "4"
    } else if d == 5 {
        "5"
    } else if d == 6 {
        "6"
    } else if d == 7 {
        "7"
    } else if d == 8 {
        "8"
    } else {
        "9"
    }
}

/// Render `n` in decimal.
pub fn to_dec_string(n: u64) -> (r: String)
    ensures
        r@ == dec_str(n as nat),
    decreases n,
{
    if n < 10 {
        digit_str(n).to_owned()
    } else {
        proof {
            assert(n / 10 < n) by (nonlinear_arith)
                requires
                    n >= 10,
            ;
        }
        let mut prefix = to_dec_string(n / 10);
        prefix.append(digit_str(n % 10));
        prefix
    }
}

} // verus!
