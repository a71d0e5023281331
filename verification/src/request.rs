//! The raw HTTP message decoder: request line, headers, query string,
//! cookie header and body length. The surrounding program reads the header
//! lines and the body bytes off the wire; this module decides what they
//! mean, and rejects what it cannot accept instead of guessing.

use vstd::prelude::*;
use crate::dict::Table;
use crate::http::HTTPMethod;
use crate::router::pairs_to_map;
use crate::strutil::{
    all_digits, dec_val, find_at, keep_nonempty, lemma_find_at, parse_u64, spec_trim_char,
    split_by, split_once_str, split_str, str_eq, trim_char, views,
};

verus! {

/// Why a raw message was rejected. Each failure is fatal to its connection
/// only.
#[derive(Clone, Copy, Debug, PartialEq, Eq, Structural)]
pub enum DecodeError {
    MalformedRequestLine,
    MissingContentLength,
    TruncatedBody,
    InvalidHeaderSyntax,
}

/// A decoded request. `route_params` stays empty until a successful tree
/// match fills it.
pub struct Request {
    pub method: HTTPMethod,
    pub uri: String,
    pub path: String,
    pub body: Vec<u8>,
    pub query: Table,
    pub headers: Table,
    pub route_params: Table,
    pub cookies: Table,
}

/// Everything the header block determines, before the body is read.
pub struct RequestHead {
    pub method: HTTPMethod,
    pub uri: String,
    pub path: String,
    pub query: Table,
    pub headers: Table,
    pub cookies: Table,
    pub content_length: u64,
}

/// The method a request-line token names, if any; an unrecognized token is
/// an error, never a silent default.
pub open spec fn spec_method_of(tok: Seq<char>) -> Option<HTTPMethod> {
    if tok == "GET"@ {
        Some(HTTPMethod::GET)
    } else if tok == "POST"@ {
        Some(HTTPMethod::POST)
    } else if tok == "PUT"@ {
        Some(HTTPMethod::PUT)
    } else if tok == "DELETE"@ {
        Some(HTTPMethod::DELETE)
    } else if tok == "PATCH"@ {
        Some(HTTPMethod::PATCH)
    } else {
        None
    }
}

pub fn method_of(tok: &str) -> (r: Option<HTTPMethod>)
    ensures
        r == spec_method_of(tok@),
{
    if str_eq(tok, "GET") {
        Some(HTTPMethod::GET)
    } else if str_eq(tok, "POST") {
        Some(HTTPMethod::POST)
    } else if str_eq(tok, "PUT") {
        Some(HTTPMethod::PUT)
    } else if str_eq(tok, "DELETE") {
        Some(HTTPMethod::DELETE)
    } else if str_eq(tok, "PATCH") {
        Some(HTTPMethod::PATCH)
    } else {
        None
    }
}

/// The space-separated tokens of the request line.
pub open spec fn req_toks(line: Seq<char>) -> Seq<Seq<char>> {
    keep_nonempty(split_by(line, seq![' ']))
}

/// Trim the optional whitespace around a header name or value: spaces and
/// horizontal tabs.
pub open spec fn spec_trim_ows(s: Seq<char>) -> Seq<char> {
    spec_trim_char(spec_trim_char(s, ' '), '\t')
}

pub fn trim_ows(s: &str) -> (r: String)
    ensures
        r@ == spec_trim_ows(s@),
{
    let a = trim_char(s, ' ');
    trim_char(a.as_str(), '\t')
}

/// What one header line means: the name before the first colon and the
/// value after it, both trimmed. A line without a colon, or with an empty
/// name, has no meaning.
pub open spec fn spec_header_pair(line: Seq<char>) -> Option<(Seq<char>, Seq<char>)> {
    let f = find_at(line, seq![':'], 0);
    if f < 0 {
        None
    } else {
        let name = spec_trim_ows(line.subrange(0, f));
        let value = spec_trim_ows(line.skip(f + 1));
        if name.len() == 0 {
            None
        } else {
            Some((name, value))
        }
    }
}

pub fn header_pair(line: &str) -> (r: Option<(String, String)>)
    ensures
        match r {
            Some(p) => spec_header_pair(line@) == Some((p.0@, p.1@)),
            None => spec_header_pair(line@) is None,
        },
{
    proof {
        reveal_strlit(":");
        assert(":"@ =~= seq![':']);
    }
    match split_once_str(line, ":") {
        None => None,
        Some((rawname, rawvalue)) => {
            let name = trim_ows(rawname.as_str());
            let value = trim_ows(rawvalue.as_str());
            if name.as_str().unicode_len() == 0 {
                None
            } else {
                Some((name, value))
            }
        },
    }
}

/// The header pairs of the lines after the request line, in order; `None`
/// as soon as one line is meaningless.
pub open spec fn header_pairs(lines: Seq<Seq<char>>) -> Option<Seq<(Seq<char>, Seq<char>)>>
    decreases lines.len(),
{
    if lines.len() == 0 {
        Some(Seq::empty())
    } else {
        match header_pairs(lines.drop_last()) {
            None => None,
            Some(ps) => match spec_header_pair(lines.last()) {
                None => None,
                Some(p) => Some(ps.push(p)),
            },
        }
    }
}

/// One meaningless line anywhere makes the whole header block
/// meaningless.
proof fn lemma_header_pairs_bad(lines: Seq<Seq<char>>, j: int)
    requires
        0 <= j < lines.len(),
        spec_header_pair(lines[j]) is None,
    ensures
        header_pairs(lines) is None,
    decreases lines.len(),
{
    if lines.len() > 0 {
        if j == lines.len() - 1 {
        } else {
            assert(lines.drop_last()[j] == lines[j]);
            lemma_header_pairs_bad(lines.drop_last(), j);
        }
    }
}

/// The key-value pairs a query string denotes: split on `&`, each piece on
/// its first `=`; pieces without a `=` or with an empty key are dropped.
pub open spec fn query_pairs(q: Seq<char>) -> Seq<(Seq<char>, Seq<char>)> {
    query_pairs_of(split_by(q, seq!['&']))
}

pub open spec fn query_pairs_of(pieces: Seq<Seq<char>>) -> Seq<(Seq<char>, Seq<char>)>
    decreases pieces.len(),
{
    if pieces.len() == 0 {
        Seq::empty()
    } else {
        let rest = query_pairs_of(pieces.drop_last());
        let piece = pieces.last();
        let f = find_at(piece, seq!['='], 0);
        if f < 0 || f == 0 {
            rest
        } else {
            rest.push((piece.subrange(0, f), piece.skip(f + 1)))
        }
    }
}

/// Parse a raw query string into its mapping; a later duplicate key wins.
pub fn parse_query(q: &str) -> (r: Table)
    ensures
        r.wf(),
        r@ == pairs_to_map(query_pairs(q@)),
{
    proof {
        reveal_strlit("&");
        reveal_strlit("=");
        assert("&"@ =~= seq!['&']);
        assert("="@ =~= seq!['=']);
    }
    let pieces = split_str(q, "&");
    let ghost pv = views(pieces@);
    let mut r = Table::new();
    let n = pieces.len();
    let mut i: usize = 0;
    proof {
        assert(pv.subrange(0, 0) =~= Seq::<Seq<char>>::empty());
        assert(r@ =~= pairs_to_map(query_pairs_of(pv.subrange(0, 0))));
    }
    while i < n
        invariant
            i <= n,
            n == pieces@.len(),
            pv == views(pieces@),
            r.wf(),
            r@ == pairs_to_map(query_pairs_of(pv.subrange(0, i as int))),
        decreases n - i,
    {
        let ghost pre = pv.subrange(0, i as int);
        let ghost cur = pv.subrange(0, i + 1);
        proof {
            reveal_strlit("=");
            assert("="@ =~= seq!['=']);
            assert(cur.drop_last() =~= pre);
            assert(cur.last() == pv[i as int]);
            assert(pv[i as int] == pieces@[i as int]@);
        }
        let ghost qp_pre = query_pairs_of(pre);
        match split_once_str(pieces[i].as_str(), "=") {
            Some((k, v)) => {
                if k.as_str().unicode_len() > 0 {
                    r.insert(k, v);
                    proof {
                        assert(query_pairs_of(cur) == qp_pre.push((k@, v@)));
                        assert(qp_pre.push((k@, v@)).drop_last() =~= qp_pre);
                    }
                } else {
                    proof {
                        assert(k@.len() == 0);
                        lemma_find_at(cur.last(), "="@, 0);
                        assert(find_at(cur.last(), seq!['='], 0) == 0);
                        assert(query_pairs_of(cur) == qp_pre);
                    }
                }
            },
            None => {
                proof {
                    assert(find_at(cur.last(), seq!['='], 0) == -1);
                    assert(query_pairs_of(cur) == qp_pre);
                }
            },
        }
        i = i + 1;
    }
    proof {
        assert(pv.subrange(0, n as int) =~= pv);
    }
    r
}

/// The cookie pairs of a `Cookie` header value: split on `;`, each piece on
/// its first `=`, both sides trimmed; empty keys are dropped.
pub open spec fn cookie_pairs(s: Seq<char>) -> Seq<(Seq<char>, Seq<char>)> {
    cookie_pairs_of(split_by(s, seq![';']))
}

pub open spec fn cookie_pairs_of(pieces: Seq<Seq<char>>) -> Seq<(Seq<char>, Seq<char>)>
    decreases pieces.len(),
{
    if pieces.len() == 0 {
        Seq::empty()
    } else {
        let rest = cookie_pairs_of(pieces.drop_last());
        let piece = pieces.last();
        let f = find_at(piece, seq!['='], 0);
        if f < 0 {
            rest
        } else {
            let k = spec_trim_ows(piece.subrange(0, f));
            let v = spec_trim_ows(piece.skip(f + 1));
            if k.len() == 0 {
                rest
            } else {
                rest.push((k, v))
            }
        }
    }
}

/// Parse a `Cookie` header value into its mapping.
pub fn parse_cookies(cookie: &str) -> (r: Table)
    ensures
        r.wf(),
        r@ == pairs_to_map(cookie_pairs(cookie@)),
{
    proof {
        reveal_strlit(";");
        reveal_strlit("=");
        assert(";"@ =~= seq![';']);
        assert("="@ =~= seq!['=']);
    }
    let pieces = split_str(cookie, ";");
    let ghost pv = views(pieces@);
    let mut r = Table::new();
    let n = pieces.len();
    let mut i: usize = 0;
    proof {
        assert(pv.subrange(0, 0) =~= Seq::<Seq<char>>::empty());
        assert(r@ =~= pairs_to_map(cookie_pairs_of(pv.subrange(0, 0))));
    }
    while i < n
        invariant
            i <= n,
            n == pieces@.len(),
            pv == views(pieces@),
            r.wf(),
            r@ == pairs_to_map(cookie_pairs_of(pv.subrange(0, i as int))),
        decreases n - i,
    {
        let ghost pre = pv.subrange(0, i as int);
        let ghost cur = pv.subrange(0, i + 1);
        proof {
            reveal_strlit("=");
            assert("="@ =~= seq!['=']);
            assert(cur.drop_last() =~= pre);
            assert(cur.last() == pv[i as int]);
            assert(pv[i as int] == pieces@[i as int]@);
        }
        let ghost cp_pre = cookie_pairs_of(pre);
        match split_once_str(pieces[i].as_str(), "=") {
            Some((rawk, rawv)) => {
                let k = trim_ows(rawk.as_str());
                let v = trim_ows(rawv.as_str());
                if k.as_str().unicode_len() > 0 {
                    r.insert(k, v);
                    proof {
                        assert(cookie_pairs_of(cur) == cp_pre.push((k@, v@)));
                        assert(cp_pre.push((k@, v@)).drop_last() =~= cp_pre);
                    }
                } else {
                    proof {
                        assert(cookie_pairs_of(cur) == cp_pre);
                    }
                }
            },
            None => {
                proof {
                    assert(cookie_pairs_of(cur) == cp_pre);
                }
            },
        }
        i = i + 1;
    }
    proof {
        assert(pv.subrange(0, n as int) =~= pv);
    }
    r
}

/// Decode the header block: the first line is `METHOD URI [VERSION]`, the
/// rest are headers (a later duplicate name wins). The body length comes
/// from `Content-Length`; a request whose method conventionally carries a
/// body must declare one. Exactly these rejections happen:
/// - `MalformedRequestLine` when there is no line, fewer than two tokens,
///   or an unrecognized method token;
/// - `InvalidHeaderSyntax` when a header line has no colon or an empty
///   name, or `Content-Length` is not a `u64` number;
/// - `MissingContentLength` when the header is absent on POST, PUT or
///   PATCH.
pub fn decode_head(lines: &Vec<String>) -> (r: Result<RequestHead, DecodeError>)
    ensures
        match r {
            Ok(h) => {
                &&& lines@.len() > 0
                &&& req_toks(lines@[0]@).len() >= 2
                &&& spec_method_of(req_toks(lines@[0]@)[0]) == Some(h.method)
                &&& h.uri@ == req_toks(lines@[0]@)[1]
                &&& header_pairs(views(lines@).skip(1)) matches Some(hp) && h.headers@
                    == pairs_to_map(hp)
                &&& h.headers.wf() && h.query.wf() && h.cookies.wf()
                &&& {
                    let f = find_at(h.uri@, seq!['?'], 0);
                    if f < 0 {
                        h.path@ == h.uri@ && h.query@ == pairs_to_map(
                            query_pairs(Seq::<char>::empty()),
                        )
                    } else {
                        h.path@ == h.uri@.subrange(0, f) && h.query@ == pairs_to_map(
                            query_pairs(h.uri@.skip(f + 1)),
                        )
                    }
                }
                &&& if h.headers@.contains_key("Cookie"@) {
                    h.cookies@ == pairs_to_map(cookie_pairs(h.headers@["Cookie"@]))
                } else {
                    h.cookies@ == Map::<Seq<char>, Seq<char>>::empty()
                }
                &&& if h.headers@.contains_key("Content-Length"@) {
                    let cl = spec_trim_ows(h.headers@["Content-Length"@]);
                    all_digits(cl) && cl.len() > 0 && h.content_length as nat == dec_val(cl)
                } else {
                    !h.method.spec_carries_body() && h.content_length == 0
                }
            },
            Err(e) => {
                let bad_line = lines@.len() == 0 || req_toks(lines@[0]@).len() < 2 || (
                req_toks(lines@[0]@).len() >= 2 && spec_method_of(req_toks(lines@[0]@)[0]) is None);
                match e {
                    DecodeError::MalformedRequestLine => bad_line,
                    DecodeError::InvalidHeaderSyntax => !bad_line && (header_pairs(
                        views(lines@).skip(1),
                    ) is None || (header_pairs(views(lines@).skip(1)) matches Some(hp)
                        && pairs_to_map(hp).contains_key("Content-Length"@) && {
                        let cl = spec_trim_ows(pairs_to_map(hp)["Content-Length"@]);
                        !(all_digits(cl) && cl.len() > 0 && dec_val(cl) <= u64::MAX)
                    })),
                    DecodeError::MissingContentLength => !bad_line && (header_pairs(
                        views(lines@).skip(1),
                    ) matches Some(hp) && !pairs_to_map(hp).contains_key("Content-Length"@)
                        && spec_method_of(req_toks(lines@[0]@)[0])->0.spec_carries_body()),
                    DecodeError::TruncatedBody => false,
                }
            },
        },
{
    proof {
        reveal_strlit(" ");
        reveal_strlit("?");
        assert(" "@ =~= seq![' ']);
        assert("?"@ =~= seq!['?']);
    }
    if lines.len() == 0 {
        return Err(DecodeError::MalformedRequestLine);
    }
    let toks = {
        let parts = split_str(lines[0].as_str(), " ");
        crate::strutil::drop_empty(parts)
    };
    proof {
        assert(views(toks@) == req_toks(lines@[0]@));
    }
    if toks.len() < 2 {
        return Err(DecodeError::MalformedRequestLine);
    }
    let method = match method_of(toks[0].as_str()) {
        Some(m) => m,
        None => {
            return Err(DecodeError::MalformedRequestLine);
        },
    };
    let uri = toks[1].clone();
    // the header lines after the request line, in order, a later name
    // overwriting an earlier one
    let mut headers = Table::new();
    let n = lines.len();
    let mut i: usize = 1;
    proof {
        assert(views(lines@).skip(1).subrange(0, 0) =~= Seq::<Seq<char>>::empty());
        assert(headers@ =~= pairs_to_map(Seq::<(Seq<char>, Seq<char>)>::empty()));
    }
    while i < n
        invariant
            1 <= i <= n,
            n == lines@.len(),
            req_toks(lines@[0]@).len() >= 2,
            spec_method_of(req_toks(lines@[0]@)[0]) is Some,
            headers.wf(),
            header_pairs(views(lines@).skip(1).subrange(0, i - 1)) matches Some(hp) && headers@
                == pairs_to_map(hp),
        decreases n - i,
    {
        let ghost hl = views(lines@).skip(1);
        let ghost pre = hl.subrange(0, i - 1);
        let ghost cur = hl.subrange(0, i as int);
        proof {
            assert(cur.drop_last() =~= pre);
            assert(cur.last() == hl[i - 1]);
            assert(hl[i - 1] == lines@[i as int]@);
        }
        match header_pair(lines[i].as_str()) {
            Some((name, value)) => {
                let ghost hp_pre = header_pairs(pre)->0;
                headers.insert(name, value);
                proof {
                    assert(header_pairs(cur) == Some(hp_pre.push((name@, value@))));
                    assert(hp_pre.push((name@, value@)).drop_last() =~= hp_pre);
                }
            },
            None => {
                proof {
                    lemma_header_pairs_bad(views(lines@).skip(1), i - 1);
                }
                return Err(DecodeError::InvalidHeaderSyntax);
            },
        }
        i = i + 1;
    }
    proof {
        assert(views(lines@).skip(1).subrange(0, n - 1) =~= views(lines@).skip(1));
    }
    // body length
    let mut content_length: u64 = 0;
    match headers.get("Content-Length") {
        Some(v) => {
            proof {
                reveal_strlit("Content-Length");
            }
            let tv = trim_ows(v.as_str());
            match parse_u64(tv.as_str()) {
                Some(cl) => {
                    content_length = cl;
                },
                None => {
                    return Err(DecodeError::InvalidHeaderSyntax);
                },
            }
        },
        None => {
            proof {
                reveal_strlit("Content-Length");
            }
            if method.carries_body() {
                return Err(DecodeError::MissingContentLength);
            }
        },
    }
    // path and query
    let mut path: String;
    let mut query: Table;
    match split_once_str(uri.as_str(), "?") {
        Some((p, q)) => {
            path = p;
            query = parse_query(q.as_str());
        },
        None => {
            path = uri.clone();
            query = parse_query("");
            proof {
                reveal_strlit("");
                assert(""@ =~= Seq::<char>::empty());
            }
        },
    }
    // cookies
    let cookies: Table = match headers.get("Cookie") {
        Some(v) => {
            proof {
                reveal_strlit("Cookie");
            }
            parse_cookies(v.as_str())
        },
        None => {
            proof {
                reveal_strlit("Cookie");
            }
            let t = Table::new();
            t
        },
    };
    Ok(RequestHead { method, uri, path, query, headers, cookies, content_length })
}

/// Attach the body the wire yielded to a decoded head. The stream must
/// yield exactly the declared number of bytes: fewer is a truncated body,
/// anything past the declared length is not part of this request.
pub fn attach_body(head: RequestHead, body: Vec<u8>) -> (r: Result<Request, DecodeError>)
    ensures
        match r {
            Ok(req) => {
                &&& body@.len() >= head.content_length
                &&& req.method == head.method
                &&& req.uri == head.uri
                &&& req.path == head.path
                &&& req.query == head.query
                &&& req.headers == head.headers
                &&& req.cookies == head.cookies
                &&& req.body@ == body@.subrange(0, head.content_length as int)
                &&& req.route_params@ == Map::<Seq<char>, Seq<char>>::empty()
                &&& req.route_params.wf()
            },
            Err(e) => e == DecodeError::TruncatedBody && body@.len() < head.content_length,
        },
{
    if (body.len() as u64) < head.content_length {
        return Err(DecodeError::TruncatedBody);
    }
    let ghost orig = body@;
    let mut body = body;
    let keep: usize = head.content_length as usize;
    proof {
        assert(keep == head.content_length);
        assert(keep <= orig.len());
    }
    body.truncate(keep);
    let params = Table::new();
    Ok(
        Request {
            method: head.method,
            uri: head.uri,
            path: head.path,
            body,
            query: head.query,
            headers: head.headers,
            route_params: params,
            cookies: head.cookies,
        },
    )
}

} // verus!
