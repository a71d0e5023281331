//! The body codec: percent-decoding and -encoding, url-encoded form
//! bodies, JSON validity, and the content-type dispatch that decides how a
//! request body is interpreted.

use vstd::prelude::*;
use vstd::utf8::{decode_utf8, valid_utf8};
use crate::byteutil::{bfind_at, bsplit_by, bviews, lemma_bfind_at, split_bytes, split_once_bytes};
use crate::dict::Table;
use crate::multipart::parse_multipart_form_data;
use crate::file::UploadedFile;
use crate::router::pairs_to_map;
use crate::strutil::{find_at, spec_starts_with, split_by, split_str, starts_with, str_eq, views};

verus! {

/// Why a body could not be interpreted. An unrecognized content type is
/// not an error: it simply yields no structured body.
#[derive(Clone, Copy, Debug, PartialEq, Eq, Structural)]
pub enum BodyError {
    InvalidJson,
    InvalidEncoding,
    MissingBoundary,
}

/// Whether a byte sequence is syntactically valid JSON. What counts as
/// valid takes pages to state, so the result only carries a name; it is a
/// function of the bytes alone.
pub uninterp spec fn json_wf(b: Seq<u8>) -> bool;

/// Relies on `serde_json::from_slice::<serde_json::Value>`: whether the
/// bytes parse as a JSON document, a function of the bytes alone.
#[verifier::external_body]
pub fn json_syntax_ok(b: &[u8]) -> (r: bool)
    ensures
        r == json_wf(b@),
{
    serde_json::from_slice::<serde_json::Value>(b).is_ok()
}

/// The characters the bytes denote when read as UTF-8, invalid sequences
/// replaced; a function of the bytes alone. On valid UTF-8 it is exactly
/// the UTF-8 decoding.
pub uninterp spec fn lossy_of(b: Seq<u8>) -> Seq<char>;

/// Relies on `String::from_utf8_lossy`: valid UTF-8 decodes exactly,
/// invalid sequences become replacement characters.
#[verifier::external_body]
pub fn bytes_to_string_lossy(b: &[u8]) -> (r: String)
    ensures
        r@ == lossy_of(b@),
        valid_utf8(b@) ==> r@ == decode_utf8(b@),
{
    String::from_utf8_lossy(b).into_owned()
}

/// A byte that percent-encoding passes through unchanged: an ASCII letter
/// or digit, `-`, `.`, `_` or `~`.
pub open spec fn is_unreserved(b: u8) -> bool {
    ||| 65 <= b <= 90
    ||| 97 <= b <= 122
    ||| 48 <= b <= 57
    ||| b == 45
    ||| b == 46
    ||| b == 95
    ||| b == 126
}

/// An ASCII hex digit, either case.
pub open spec fn is_hex(b: u8) -> bool {
    (48 <= b <= 57) || (65 <= b <= 70) || (97 <= b <= 102)
}

/// The value of a hex digit.
pub open spec fn hex_val(b: u8) -> u8
    recommends
        is_hex(b),
{
    if 48 <= b <= 57 {
        (b - 48) as u8
    } else if 65 <= b <= 70 {
        (b - 55) as u8
    } else {
        (b - 87) as u8
    }
}

/// The uppercase hex digit for a value below 16.
pub open spec fn hex_digit(n: u8) -> u8
    recommends
        n < 16,
{
    if n < 10 {
        (48 + n) as u8
    } else {
        (55 + n) as u8
    }
}

/// Percent-decode: each `%XY` escape becomes its byte, every other byte
/// passes through; a `%` not followed by two hex digits has no decoding.
pub open spec fn pct_decode(s: Seq<u8>) -> Option<Seq<u8>>
    decreases s.len(),
{
    if s.len() == 0 {
        Some(Seq::empty())
    } else if s[0] == 37 {
        if s.len() >= 3 && is_hex(s[1]) && is_hex(s[2]) {
            match pct_decode(s.skip(3)) {
                Some(r) => Some(seq![(hex_val(s[1]) * 16 + hex_val(s[2])) as u8] + r),
                None => None,
            }
        } else {
            None
        }
    } else {
        match pct_decode(s.skip(1)) {
            Some(r) => Some(seq![s[0]] + r),
            None => None,
        }
    }
}

/// Percent-encode: unreserved bytes pass through, every other byte becomes
/// `%XY` with uppercase hex digits.
pub open spec fn pct_encode(s: Seq<u8>) -> Seq<u8>
    decreases s.len(),
{
    if s.len() == 0 {
        Seq::empty()
    } else {
        enc_byte(s[0]) + pct_encode(s.skip(1))
    }
}

pub open spec fn enc_byte(b: u8) -> Seq<u8> {
    if is_unreserved(b) {
        seq![b]
    } else {
        seq![37u8, hex_digit(b / 16), hex_digit(b % 16)]
    }
}

/// Percent-decode a byte string; a malformed escape anywhere fails the
/// whole decoding.
pub fn percent_decode(s: &[u8]) -> (r: Option<Vec<u8>>)
    ensures
        match r {
            Some(out) => pct_decode(s@) == Some(out@),
            None => pct_decode(s@) is None,
        },
{
    let n = s.len();
    let mut out: Vec<u8> = Vec::new();
    let mut i: usize = 0;
    proof {
        assert(s@.skip(0) =~= s@);
    }
    while i < n
        invariant
            i <= n,
            n == s@.len(),
            pct_decode(s@) == match pct_decode(s@.skip(i as int)) {
                Some(r) => Some(out@ + r),
                None => None,
            },
        decreases n - i,
    {
        let ghost sfx = s@.skip(i as int);
        proof {
            assert(sfx.len() == n - i);
            assert(sfx[0] == s@[i as int]);
        }
        let b = s[i];
        if b == 37 {
            if n - i < 3 {
                proof {
                    assert(sfx.len() < 3);
                    assert(pct_decode(sfx) is None);
                }
                return None;
            }
            let h1 = s[i + 1];
            let h2 = s[i + 2];
            proof {
                assert(sfx[1] == s@[i + 1]);
                assert(sfx[2] == s@[i + 2]);
            }
            let hx1 = (48 <= h1 && h1 <= 57) || (65 <= h1 && h1 <= 70) || (97 <= h1 && h1
                <= 102);
            let hx2 = (48 <= h2 && h2 <= 57) || (65 <= h2 && h2 <= 70) || (97 <= h2 && h2
                <= 102);
            if !hx1 || !hx2 {
                proof {
                    assert(pct_decode(sfx) is None);
                }
                return None;
            }
            let v1: u8 = if 48 <= h1 && h1 <= 57 {
                h1 - 48
            } else if 65 <= h1 && h1 <= 70 {
                h1 - 55
            } else {
                h1 - 87
            };
            let v2: u8 = if 48 <= h2 && h2 <= 57 {
                h2 - 48
            } else if 65 <= h2 && h2 <= 70 {
                h2 - 55
            } else {
                h2 - 87
            };
            let ghost pre = out@;
            out.push(v1 * 16 + v2);
            proof {
                assert(sfx.skip(3) =~= s@.skip(i + 3));
                assert(out@ =~= pre + seq![(hex_val(sfx[1]) * 16 + hex_val(sfx[2])) as u8]);
                assert forall|r: Seq<u8>| true implies pre + (seq![
                    (hex_val(sfx[1]) * 16 + hex_val(sfx[2])) as u8,
                ] + r) =~= out@ + r by {}
            }
            i = i + 3;
        } else {
            let ghost pre = out@;
            out.push(b);
            proof {
                assert(sfx.skip(1) =~= s@.skip(i + 1));
                assert(out@ =~= pre + seq![sfx[0]]);
                assert forall|r: Seq<u8>| true implies pre + (seq![sfx[0]] + r) =~= out@
                    + r by {}
            }
            i = i + 1;
        }
    }
    proof {
        assert(s@.skip(n as int) =~= Seq::<u8>::empty());
        assert(out@ + Seq::<u8>::empty() =~= out@);
    }
    Some(out)
}

/// Percent-encode a byte string.
pub fn percent_encode(s: &[u8]) -> (r: Vec<u8>)
    ensures
        r@ == pct_encode(s@),
{
    let n = s.len();
    let mut out: Vec<u8> = Vec::new();
    let mut i: usize = 0;
    proof {
        assert(s@.skip(0) =~= s@);
        assert(out@ + pct_encode(s@) =~= pct_encode(s@));
    }
    while i < n
        invariant
            i <= n,
            n == s@.len(),
            pct_encode(s@) == out@ + pct_encode(s@.skip(i as int)),
        decreases n - i,
    {
        let ghost sfx = s@.skip(i as int);
        proof {
            assert(sfx.len() == n - i);
            assert(sfx[0] == s@[i as int]);
            assert(sfx.skip(1) =~= s@.skip(i + 1));
        }
        let ghost pre = out@;
        let b = s[i];
        if (65 <= b && b <= 90) || (97 <= b && b <= 122) || (48 <= b && b <= 57) || b == 45 || b
            == 46 || b == 95 || b == 126 {
            out.push(b);
            proof {
                assert(out@ =~= pre + enc_byte(sfx[0]));
            }
        } else {
            out.push(37);
            let hi = b / 16;
            let lo = b % 16;
            out.push(if hi < 10 { 48 + hi } else { 55 + hi });
            out.push(if lo < 10 { 48 + lo } else { 55 + lo });
            proof {
                assert(out@ =~= pre + enc_byte(sfx[0]));
            }
        }
        proof {
            assert(pre + (enc_byte(sfx[0]) + pct_encode(s@.skip(i + 1))) =~= out@ + pct_encode(
                s@.skip(i + 1),
            ));
        }
        i = i + 1;
    }
    proof {
        assert(s@.skip(n as int) =~= Seq::<u8>::empty());
        assert(out@ + pct_encode(Seq::<u8>::empty()) =~= out@);
    }
    out
}

/// The field pairs a decoded form body denotes: split on `&`, each piece
/// on its first `=`; a piece without `=`, an empty key or an empty value
/// is dropped.
pub open spec fn form_pairs(decoded: Seq<u8>) -> Seq<(Seq<u8>, Seq<u8>)> {
    form_pairs_of(bsplit_by(decoded, seq![38u8]))
}

pub open spec fn form_pairs_of(pieces: Seq<Seq<u8>>) -> Seq<(Seq<u8>, Seq<u8>)>
    decreases pieces.len(),
{
    if pieces.len() == 0 {
        Seq::empty()
    } else {
        let rest = form_pairs_of(pieces.drop_last());
        let piece = pieces.last();
        let f = bfind_at(piece, seq![61u8], 0);
        if f < 0 {
            rest
        } else {
            let k = piece.subrange(0, f);
            let v = piece.skip(f + 1);
            if k.len() == 0 || v.len() == 0 {
                rest
            } else {
                rest.push((k, v))
            }
        }
    }
}

/// Decode a url-encoded body into its field pairs, in order; fails only on
/// an undecodable percent-escape.
pub fn parse_form(body: &[u8]) -> (r: Option<Vec<(Vec<u8>, Vec<u8>)>>)
    ensures
        match r {
            Some(ps) => pct_decode(body@) matches Some(d) && bpair_views(ps@) == form_pairs(d),
            None => pct_decode(body@) is None,
        },
{
    let decoded = match percent_decode(body) {
        Some(d) => d,
        None => {
            return None;
        },
    };
    let mut amp: Vec<u8> = Vec::new();
    amp.push(38);
    let mut eq: Vec<u8> = Vec::new();
    eq.push(61);
    proof {
        assert(amp@ =~= seq![38u8]);
        assert(eq@ =~= seq![61u8]);
    }
    let pieces = split_bytes(decoded.as_slice(), amp.as_slice());
    let ghost pv = bviews(pieces@);
    let mut out: Vec<(Vec<u8>, Vec<u8>)> = Vec::new();
    let n = pieces.len();
    let mut i: usize = 0;
    proof {
        assert(pv.subrange(0, 0) =~= Seq::<Seq<u8>>::empty());
        assert(bpair_views(out@) =~= form_pairs_of(pv.subrange(0, 0)));
    }
    while i < n
        invariant
            i <= n,
            n == pieces@.len(),
            pv == bviews(pieces@),
            eq@ == seq![61u8],
            bpair_views(out@) == form_pairs_of(pv.subrange(0, i as int)),
        decreases n - i,
    {
        let ghost pre = pv.subrange(0, i as int);
        let ghost cur = pv.subrange(0, i + 1);
        proof {
            assert(cur.drop_last() =~= pre);
            assert(cur.last() == pv[i as int]);
            assert(pv[i as int] == pieces@[i as int]@);
        }
        let ghost fp_pre = form_pairs_of(pre);
        match split_once_bytes(pieces[i].as_slice(), eq.as_slice()) {
            Some((k, v)) => {
                if k.len() > 0 && v.len() > 0 {
                    let ghost kk = k@;
                    let ghost vv = v@;
                    let ghost pre_out = out@;
                    out.push((k, v));
                    proof {
                        assert(form_pairs_of(cur) == fp_pre.push((kk, vv)));
                        assert(out@.drop_last() =~= pre_out);
                        assert(bpair_views(out@) =~= bpair_views(pre_out).push((kk, vv)));
                    }
                } else {
                    proof {
                        assert(form_pairs_of(cur) == fp_pre);
                    }
                }
            },
            None => {
                proof {
                    assert(form_pairs_of(cur) == fp_pre);
                }
            },
        }
        i = i + 1;
    }
    proof {
        assert(pv.subrange(0, n as int) =~= pv);
    }
    Some(out)
}

/// The views of a list of byte pairs.
pub open spec fn bpair_views(ps: Seq<(Vec<u8>, Vec<u8>)>) -> Seq<(Seq<u8>, Seq<u8>)> {
    ps.map_values(|p: (Vec<u8>, Vec<u8>)| (p.0@, p.1@))
}

/// Encode field pairs as a url-encoded body: keys and values
/// percent-encoded, joined `k=v` with `&` between pairs.
pub open spec fn form_encode_spec(ps: Seq<(Seq<u8>, Seq<u8>)>) -> Seq<u8>
    decreases ps.len(),
{
    if ps.len() == 0 {
        Seq::empty()
    } else {
        form_entry(ps[0]) + amp_rest(ps.skip(1))
    }
}

pub open spec fn amp_rest(ps: Seq<(Seq<u8>, Seq<u8>)>) -> Seq<u8>
    decreases ps.len(),
{
    if ps.len() == 0 {
        Seq::empty()
    } else {
        seq![38u8] + form_entry(ps[0]) + amp_rest(ps.skip(1))
    }
}

pub open spec fn form_entry(p: (Seq<u8>, Seq<u8>)) -> Seq<u8> {
    pct_encode(p.0) + seq![61u8] + pct_encode(p.1)
}

/// Encode a list of field pairs.
pub fn encode_form(ps: &Vec<(Vec<u8>, Vec<u8>)>) -> (r: Vec<u8>)
    ensures
        r@ == form_encode_spec(bpair_views(ps@)),
{
    let ghost all = bpair_views(ps@);
    let n = ps.len();
    let mut out: Vec<u8> = Vec::new();
    if n == 0 {
        proof {
            assert(out@ =~= form_encode_spec(all));
        }
        return out;
    }
    let mut first = percent_encode(ps[0].0.as_slice());
    out.append(&mut first);
    out.push(61);
    let mut firstv = percent_encode(ps[0].1.as_slice());
    out.append(&mut firstv);
    proof {
        assert(all[0] == (ps@[0].0@, ps@[0].1@));
        assert(out@ =~= form_entry(all[0]));
        assert(all.skip(1).len() == n - 1);
    }
    let mut i: usize = 1;
    while i < n
        invariant
            1 <= i <= n,
            n == ps@.len(),
            all == bpair_views(ps@),
            form_encode_spec(all) == out@ + amp_rest(all.skip(i as int)),
        decreases n - i,
    {
        let ghost sfx = all.skip(i as int);
        proof {
            assert(sfx.len() == n - i);
            assert(sfx[0] == all[i as int]);
            assert(all[i as int] == (ps@[i as int].0@, ps@[i as int].1@));
            assert(sfx.skip(1) =~= all.skip(i + 1));
        }
        let ghost pre = out@;
        out.push(38);
        let mut ek = percent_encode(ps[i].0.as_slice());
        out.append(&mut ek);
        out.push(61);
        let mut ev = percent_encode(ps[i].1.as_slice());
        out.append(&mut ev);
        proof {
            assert(out@ =~= pre + (seq![38u8] + form_entry(sfx[0])));
            assert(pre + (seq![38u8] + form_entry(sfx[0]) + amp_rest(all.skip(i + 1))) =~= out@
                + amp_rest(all.skip(i + 1)));
        }
        i = i + 1;
    }
    proof {
        assert(all.skip(n as int) =~= Seq::<(Seq<u8>, Seq<u8>)>::empty());
        assert(out@ + Seq::<u8>::empty() =~= out@);
    }
    out
}

/// How a body is interpreted, by its declared content type.
pub enum ParsedBody {
    Json(Vec<u8>),
    Form(Table),
    Multipart(Table, Vec<(String, UploadedFile)>),
    Unstructured,
}

/// The field pairs as character strings, read lossily.
pub open spec fn lossy_pairs(ps: Seq<(Seq<u8>, Seq<u8>)>) -> Seq<(Seq<char>, Seq<char>)> {
    ps.map_values(|p: (Seq<u8>, Seq<u8>)| (lossy_of(p.0), lossy_of(p.1)))
}

/// The boundary parameter of a multipart content type: the rest of the
/// first `; `-separated piece that begins `boundary=`.
pub open spec fn boundary_of(ct: Seq<char>) -> Option<Seq<char>> {
    boundary_in(split_by(ct, "; "@))
}

pub open spec fn boundary_in(pieces: Seq<Seq<char>>) -> Option<Seq<char>>
    decreases pieces.len(),
{
    if pieces.len() == 0 {
        None
    } else if spec_starts_with(pieces[0], "boundary="@) {
        Some(pieces[0].skip(9))
    } else {
        boundary_in(pieces.skip(1))
    }
}

/// The boundary parameter of a content type, if it declares one.
pub fn find_boundary(ct: &str) -> (r: Option<String>)
    ensures
        match r {
            Some(b) => boundary_of(ct@) == Some(b@),
            None => boundary_of(ct@) is None,
        },
{
    proof {
        reveal_strlit("; ");
    }
    let pieces = split_str(ct, "; ");
    let ghost pv = views(pieces@);
    let n = pieces.len();
    let mut i: usize = 0;
    proof {
        assert(pv.skip(0) =~= pv);
    }
    while i < n
        invariant
            i <= n,
            n == pieces@.len(),
            pv == views(pieces@),
            pv == split_by(ct@, "; "@),
            boundary_in(pv) == boundary_in(pv.skip(i as int)),
        decreases n - i,
    {
        proof {
            assert(pv.skip(i as int)[0] == pv[i as int]);
            assert(pv[i as int] == pieces@[i as int]@);
            assert(pv.skip(i as int).skip(1) =~= pv.skip(i + 1));
        }
        let piece = &pieces[i];
        if starts_with(piece.as_str(), "boundary=") {
            proof {
                reveal_strlit("boundary=");
                assert(piece@.skip(9) =~= piece@.subrange(9, piece@.len() as int));
            }
            let pl = piece.as_str().unicode_len();
            return Some(crate::strutil::substring(piece.as_str(), 9, pl));
        }
        i = i + 1;
    }
    proof {
        assert(pv.skip(n as int) =~= Seq::<Seq<char>>::empty());
    }
    None
}

/// Interpret a body according to its declared content type: JSON is
/// checked and passed through raw, a url-encoded body becomes a field
/// table, a multipart body becomes fields and file attachments, and any
/// other content type yields no structured body at all.
pub fn decode_body(content_type: &str, body: &Vec<u8>) -> (r: Result<ParsedBody, BodyError>)
    ensures
        content_type@ == "application/json"@ ==> (match r {
            Ok(pb) => json_wf(body@) && (pb matches ParsedBody::Json(b) && b@ == body@),
            Err(e) => !json_wf(body@) && e == BodyError::InvalidJson,
        }),
        content_type@ != "application/json"@ && content_type@
            == "application/x-www-form-urlencoded"@ ==> (match r {
            Ok(pb) => {
                &&& pct_decode(body@) matches Some(d)
                &&& pb matches ParsedBody::Form(t) && t.wf() && t@ == pairs_to_map(
                    lossy_pairs(form_pairs(pct_decode(body@)->0)),
                )
            },
            Err(e) => pct_decode(body@) is None && e == BodyError::InvalidEncoding,
        }),
        content_type@ != "application/json"@ && content_type@
            != "application/x-www-form-urlencoded"@ && find_at(
            content_type@,
            "multipart/form-data"@,
            0,
        ) >= 0 ==> (match r {
            Ok(pb) => {
                &&& boundary_of(content_type@) matches Some(b)
                &&& pb matches ParsedBody::Multipart(fields, files)
                    && crate::multipart::mp_result_ok(fields, files@, body@, b)
            },
            Err(e) => boundary_of(content_type@) is None && e == BodyError::MissingBoundary,
        }),
        content_type@ != "application/json"@ && content_type@
            != "application/x-www-form-urlencoded"@ && find_at(
            content_type@,
            "multipart/form-data"@,
            0,
        ) == -1 ==> (r matches Ok(pb) && pb is Unstructured),
{
    if str_eq(content_type, "application/json") {
        if json_syntax_ok(body.as_slice()) {
            let mut copy: Vec<u8> = Vec::new();
            copy.extend_from_slice(body.as_slice());
            proof {
                assert(copy@ =~= body@);
            }
            return Ok(ParsedBody::Json(copy));
        } else {
            return Err(BodyError::InvalidJson);
        }
    }
    if str_eq(content_type, "application/x-www-form-urlencoded") {
        match parse_form(body.as_slice()) {
            None => {
                return Err(BodyError::InvalidEncoding);
            },
            Some(ps) => {
                let ghost bps = bpair_views(ps@);
                let mut t = Table::new();
                let n = ps.len();
                let mut i: usize = 0;
                proof {
                    assert(bps.subrange(0, 0) =~= Seq::<(Seq<u8>, Seq<u8>)>::empty());
                    assert(lossy_pairs(bps.subrange(0, 0)) =~= Seq::<
                        (Seq<char>, Seq<char>),
                    >::empty());
                    assert(t@ =~= pairs_to_map(lossy_pairs(bps.subrange(0, 0))));
                }
                while i < n
                    invariant
                        i <= n,
                        n == ps@.len(),
                        bps == bpair_views(ps@),
                        t.wf(),
                        t@ == pairs_to_map(lossy_pairs(bps.subrange(0, i as int))),
                    decreases n - i,
                {
                    let ghost pre = bps.subrange(0, i as int);
                    let ghost cur = bps.subrange(0, i + 1);
                    proof {
                        assert(cur.drop_last() =~= pre);
                        assert(cur.last() == bps[i as int]);
                        assert(bps[i as int] == (ps@[i as int].0@, ps@[i as int].1@));
                        assert(lossy_pairs(cur).drop_last() =~= lossy_pairs(pre));
                        assert(lossy_pairs(cur).last() == (
                            lossy_of(cur.last().0),
                            lossy_of(cur.last().1),
                        ));
                    }
                    let k = bytes_to_string_lossy(ps[i].0.as_slice());
                    let v = bytes_to_string_lossy(ps[i].1.as_slice());
                    t.insert(k, v);
                    i = i + 1;
                }
                proof {
                    assert(bps.subrange(0, n as int) =~= bps);
                }
                return Ok(ParsedBody::Form(t));
            },
        }
    }
    proof {
        reveal_strlit("multipart/form-data");
    }
    let is_multipart = match crate::strutil::find_from(content_type, "multipart/form-data", 0) {
        Some(_) => true,
        None => false,
    };
    if is_multipart {
        match find_boundary(content_type) {
            None => {
                return Err(BodyError::MissingBoundary);
            },
            Some(b) => {
                let (fields, files) = parse_multipart_form_data(body.as_slice(), b.as_str());
                return Ok(ParsedBody::Multipart(fields, files));
            },
        }
    }
    Ok(ParsedBody::Unstructured)
}


/// Bytes free of the form separators `&` and `=`.
pub open spec fn sep_free(s: Seq<u8>) -> bool {
    forall|j: int| 0 <= j < s.len() ==> s[j] != 38 && s[j] != 61
}

proof fn lemma_hex_digit_props(n: u8)
    requires
        n < 16,
    ensures
        is_hex(hex_digit(n)),
        hex_val(hex_digit(n)) == n,
{
}

/// Decoding an encoded string prepended to a remainder yields the raw
/// bytes back, then whatever the remainder decodes to.
#[verifier::rlimit(60)]
#[verifier::spinoff_prover]
proof fn lemma_pct_decode_prepend(x: Seq<u8>, rest: Seq<u8>)
    ensures
        pct_decode(pct_encode(x) + rest) == match pct_decode(rest) {
            Some(r) => Some(x + r),
            None => None::<Seq<u8>>,
        },
    decreases x.len(),
{
    if x.len() == 0 {
        assert(pct_encode(x) + rest =~= rest);
        match pct_decode(rest) {
            Some(r) => {
                assert(x + r =~= r);
            },
            None => {},
        }
    } else {
        let b = x[0];
        let x1 = x.skip(1);
        let tail = pct_encode(x1) + rest;
        lemma_pct_decode_prepend(x1, rest);
        let whole = pct_encode(x) + rest;
        assert(pct_encode(x) == enc_byte(b) + pct_encode(x1));
        if is_unreserved(b) {
            assert(whole =~= seq![b] + tail);
            assert(whole[0] == b && b != 37);
            assert(whole.skip(1) =~= tail);
            match pct_decode(rest) {
                Some(r) => {
                    assert(pct_decode(tail) == Some(x1 + r));
                    assert(pct_decode(whole) == Some(seq![b] + (x1 + r)));
                    assert(seq![b] + (x1 + r) =~= x + r);
                },
                None => {
                    assert(pct_decode(tail) is None);
                    assert(pct_decode(whole) is None);
                },
            }
        } else {
            let h1 = hex_digit(b / 16);
            let h2 = hex_digit(b % 16);
            assert(whole =~= seq![37u8, h1, h2] + tail);
            assert(whole[0] == 37 && whole.len() >= 3);
            assert(whole[1] == h1 && whole[2] == h2);
            lemma_hex_digit_props(b / 16);
            lemma_hex_digit_props(b % 16);
            assert(hex_val(h1) * 16 + hex_val(h2) == b) by {
                vstd::arithmetic::div_mod::lemma_fundamental_div_mod(b as int, 16);
            }
            assert(whole.skip(3) =~= tail);
            match pct_decode(rest) {
                Some(r) => {
                    assert(pct_decode(tail) == Some(x1 + r));
                    assert(pct_decode(whole) == Some(seq![b] + (x1 + r)));
                    assert(seq![b] + (x1 + r) =~= x + r);
                },
                None => {
                    assert(pct_decode(tail) is None);
                    assert(pct_decode(whole) is None);
                },
            }
        }
    }
}

/// The pairs joined raw: `k=v` with `&` between pairs, nothing escaped.
pub open spec fn raw_join(ps: Seq<(Seq<u8>, Seq<u8>)>) -> Seq<u8>
    decreases ps.len(),
{
    if ps.len() == 0 {
        Seq::empty()
    } else {
        ps[0].0 + seq![61u8] + ps[0].1 + amp_raw(ps.skip(1))
    }
}

pub open spec fn amp_raw(ps: Seq<(Seq<u8>, Seq<u8>)>) -> Seq<u8>
    decreases ps.len(),
{
    if ps.len() == 0 {
        Seq::empty()
    } else {
        seq![38u8] + ps[0].0 + seq![61u8] + ps[0].1 + amp_raw(ps.skip(1))
    }
}

/// Decoding the separated remainder of an encoding yields the raw join.
#[verifier::rlimit(60)]
#[verifier::spinoff_prover]
proof fn lemma_amp_decodes(ps: Seq<(Seq<u8>, Seq<u8>)>)
    ensures
        pct_decode(amp_rest(ps)) == Some(amp_raw(ps)),
    decreases ps.len(),
{
    if ps.len() == 0 {
        assert(pct_decode(amp_rest(ps)) == Some(Seq::<u8>::empty()));
    } else {
        lemma_amp_decodes(ps.skip(1));
        let k = ps[0].0;
        let v = ps[0].1;
        let after_v = amp_rest(ps.skip(1));
        let after_k = seq![61u8] + pct_encode(v) + after_v;
        lemma_pct_decode_prepend(v, after_v);
        assert(pct_decode(pct_encode(v) + after_v) == Some(v + amp_raw(ps.skip(1))));
        assert(after_k[0] == 61 && 61u8 != 37u8);
        assert(after_k.skip(1) =~= pct_encode(v) + after_v);
        assert(pct_decode(after_k) == Some(seq![61u8] + (v + amp_raw(ps.skip(1)))));
        lemma_pct_decode_prepend(k, after_k);
        let inner = amp_rest(ps);
        assert(inner =~= seq![38u8] + (pct_encode(k) + after_k));
        assert(inner[0] == 38 && 38u8 != 37u8);
        assert(inner.skip(1) =~= pct_encode(k) + after_k);
        assert(pct_decode(pct_encode(k) + after_k) == Some(
            k + (seq![61u8] + (v + amp_raw(ps.skip(1)))),
        ));
        assert(pct_decode(inner) == Some(seq![38u8] + (k + (seq![61u8] + (v + amp_raw(
            ps.skip(1),
        ))))));
        assert(seq![38u8] + (k + (seq![61u8] + (v + amp_raw(ps.skip(1))))) =~= amp_raw(ps));
    }
}

/// Decoding an encoded form body yields the raw join of its pairs.
#[verifier::rlimit(60)]
#[verifier::spinoff_prover]
proof fn lemma_encode_decodes(ps: Seq<(Seq<u8>, Seq<u8>)>)
    ensures
        pct_decode(form_encode_spec(ps)) == Some(raw_join(ps)),
    decreases ps.len(),
{
    if ps.len() == 0 {
        assert(pct_decode(form_encode_spec(ps)) == Some(Seq::<u8>::empty()));
    } else {
        let k = ps[0].0;
        let v = ps[0].1;
        let after_v = amp_rest(ps.skip(1));
        let after_k = seq![61u8] + pct_encode(v) + after_v;
        lemma_amp_decodes(ps.skip(1));
        lemma_pct_decode_prepend(v, after_v);
        assert(pct_decode(pct_encode(v) + after_v) == Some(v + amp_raw(ps.skip(1))));
        assert(after_k[0] == 61 && 61u8 != 37u8);
        assert(after_k.skip(1) =~= pct_encode(v) + after_v);
        assert(pct_decode(after_k) == Some(seq![61u8] + (v + amp_raw(ps.skip(1)))));
        lemma_pct_decode_prepend(k, after_k);
        assert(form_encode_spec(ps) =~= pct_encode(k) + after_k);
        assert(pct_decode(form_encode_spec(ps)) == Some(
            k + (seq![61u8] + (v + amp_raw(ps.skip(1)))),
        ));
        assert(k + (seq![61u8] + (v + amp_raw(ps.skip(1)))) =~= raw_join(ps));
    }
}

/// Matching a one-byte delimiter is just finding that byte.
proof fn lemma_bmatch_single(s: Seq<u8>, b: u8, j: int)
    ensures
        crate::byteutil::bmatch_at(s, seq![b], j) <==> 0 <= j < s.len() && s[j] == b,
{
    if 0 <= j < s.len() && s[j] == b {
        assert(s.subrange(j, j + 1) =~= seq![b]);
    }
    if crate::byteutil::bmatch_at(s, seq![b], j) {
        assert(s.subrange(j, j + 1)[0] == s[j]);
    }
}

/// In `piece + [b] + rest` with `b` absent from the piece, the first `b`
/// stands right after the piece.
proof fn lemma_first_sep(piece: Seq<u8>, b: u8, rest: Seq<u8>)
    requires
        forall|j: int| 0 <= j < piece.len() ==> piece[j] != b,
    ensures
        bfind_at(piece + seq![b] + rest, seq![b], 0) == piece.len(),
{
    let s = piece + seq![b] + rest;
    assert(s[piece.len() as int] == b);
    lemma_bmatch_single(s, b, piece.len() as int);
    assert forall|j: int| 0 <= j < piece.len() implies !crate::byteutil::bmatch_at(
        s,
        seq![b],
        j,
    ) by {
        lemma_bmatch_single(s, b, j);
        assert(s[j] == piece[j]);
    }
    crate::byteutil::lemma_bfind_at_found(s, seq![b], 0, piece.len() as int);
}

/// A piece without the byte has no occurrence at all.
proof fn lemma_no_sep(piece: Seq<u8>, b: u8)
    requires
        forall|j: int| 0 <= j < piece.len() ==> piece[j] != b,
    ensures
        bfind_at(piece, seq![b], 0) == -1,
{
    lemma_bfind_at(piece, seq![b], 0);
    let f = bfind_at(piece, seq![b], 0);
    if f >= 0 {
        lemma_bmatch_single(piece, b, f);
        assert(piece[f] == b);
        assert(false);
    }
}

/// The `k=v` pieces of the pairs.
pub open spec fn entry_pieces(ps: Seq<(Seq<u8>, Seq<u8>)>) -> Seq<Seq<u8>> {
    ps.map_values(|p: (Seq<u8>, Seq<u8>)| p.0 + seq![61u8] + p.1)
}

/// Splitting the raw join on `&` recovers the `k=v` pieces.
#[verifier::rlimit(60)]
#[verifier::spinoff_prover]
proof fn lemma_split_raw(ps: Seq<(Seq<u8>, Seq<u8>)>)
    requires
        ps.len() >= 1,
        forall|i: int|
            0 <= i < ps.len() ==> sep_free(#[trigger] ps[i].0) && sep_free(ps[i].1),
    ensures
        bsplit_by(raw_join(ps), seq![38u8]) == entry_pieces(ps),
    decreases ps.len(),
{
    let piece0 = ps[0].0 + seq![61u8] + ps[0].1;
    assert(forall|j: int| 0 <= j < piece0.len() ==> piece0[j] != 38) by {
        assert(forall|j: int| 0 <= j < ps[0].0.len() ==> piece0[j] == ps[0].0[j]);
        assert(piece0[ps[0].0.len() as int] == 61);
        assert(forall|j: int|
            ps[0].0.len() + 1 <= j < piece0.len() ==> piece0[j] == ps[0].1[j - ps[0].0.len()
                - 1]);
    }
    if ps.len() == 1 {
        assert(raw_join(ps) =~= piece0);
        lemma_no_sep(piece0, 38);
        assert(bsplit_by(raw_join(ps), seq![38u8]) == seq![raw_join(ps)]);
        assert(seq![raw_join(ps)] =~= entry_pieces(ps));
    } else {
        let tail = ps.skip(1);
        assert forall|i: int|
            0 <= i < tail.len() implies sep_free(#[trigger] tail[i].0) && sep_free(
            tail[i].1,
        ) by {
            assert(tail[i] == ps[i + 1]);
        }
        lemma_split_raw(tail);
        assert(amp_raw(tail) =~= seq![38u8] + raw_join(tail));
        assert(raw_join(ps) =~= piece0 + seq![38u8] + raw_join(tail));
        lemma_first_sep(piece0, 38, raw_join(tail));
        let f = piece0.len() as int;
        assert(raw_join(ps).subrange(0, f) =~= piece0);
        assert(raw_join(ps).skip(f + 1) =~= raw_join(tail));
        assert(bsplit_by(raw_join(ps), seq![38u8]) == seq![piece0] + bsplit_by(
            raw_join(tail),
            seq![38u8],
        ));
        assert(seq![piece0] + entry_pieces(tail) =~= entry_pieces(ps));
    }
}

/// Pairing the `k=v` pieces back up recovers the pairs.
#[verifier::rlimit(60)]
#[verifier::spinoff_prover]
proof fn lemma_pairs_of_pieces(ps: Seq<(Seq<u8>, Seq<u8>)>)
    requires
        forall|i: int|
            0 <= i < ps.len() ==> (#[trigger] ps[i].0).len() > 0 && ps[i].1.len() > 0
                && sep_free(ps[i].0) && sep_free(ps[i].1),
    ensures
        form_pairs_of(entry_pieces(ps)) == ps,
    decreases ps.len(),
{
    if ps.len() == 0 {
        assert(entry_pieces(ps) =~= Seq::<Seq<u8>>::empty());
        assert(form_pairs_of(entry_pieces(ps)) =~= ps);
    } else {
        let pre = ps.drop_last();
        assert forall|i: int|
            0 <= i < pre.len() implies (#[trigger] pre[i].0).len() > 0 && pre[i].1.len() > 0
                && sep_free(pre[i].0) && sep_free(pre[i].1) by {
            assert(pre[i] == ps[i]);
        }
        lemma_pairs_of_pieces(pre);
        let pieces = entry_pieces(ps);
        assert(pieces.drop_last() =~= entry_pieces(pre));
        let k = ps.last().0;
        let v = ps.last().1;
        let piece = k + seq![61u8] + v;
        assert(pieces.last() == piece);
        assert(forall|j: int| 0 <= j < k.len() ==> k[j] != 61);
        lemma_first_sep(k, 61, v);
        let f = k.len() as int;
        assert(piece.subrange(0, f) =~= k);
        assert(piece.skip(f + 1) =~= v);
        assert(form_pairs_of(pieces) == form_pairs_of(entry_pieces(pre)).push((k, v)));
        assert(pre.push((k, v)) =~= ps);
    }
}

/// Encoding a field mapping and decoding it with the body codec reproduces
/// the mapping exactly, pair for pair, provided the keys and values are
/// non-empty and hold none of the raw separator bytes `&` and `=` (those
/// occurrences the decode-then-split order cannot tell from separators).
pub proof fn lemma_form_round_trip(ps: Seq<(Seq<u8>, Seq<u8>)>)
    requires
        forall|i: int|
            0 <= i < ps.len() ==> (#[trigger] ps[i].0).len() > 0 && ps[i].1.len() > 0
                && sep_free(ps[i].0) && sep_free(ps[i].1),
    ensures
        pct_decode(form_encode_spec(ps)) == Some(raw_join(ps)),
        form_pairs(raw_join(ps)) == ps,
{
    lemma_encode_decodes(ps);
    if ps.len() == 0 {
        assert(raw_join(ps) =~= Seq::<u8>::empty());
        assert(bfind_at(Seq::<u8>::empty(), seq![38u8], 0) == -1);
        let pieces = bsplit_by(raw_join(ps), seq![38u8]);
        assert(pieces == seq![raw_join(ps)]);
        assert(bfind_at(raw_join(ps), seq![61u8], 0) == -1);
        assert(pieces.drop_last() =~= Seq::<Seq<u8>>::empty());
        assert(form_pairs_of(pieces.drop_last()) =~= Seq::<(Seq<u8>, Seq<u8>)>::empty());
        assert(pieces.last() == raw_join(ps));
        assert(form_pairs_of(pieces) =~= Seq::<(Seq<u8>, Seq<u8>)>::empty());
        assert(ps =~= Seq::<(Seq<u8>, Seq<u8>)>::empty());
        assert(form_pairs(raw_join(ps)) =~= ps);
    } else {
        lemma_split_raw(ps);
        lemma_pairs_of_pieces(ps);
    }
}

} // verus!
