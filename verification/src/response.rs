//! The response model and its wire rendering: status line, header lines,
//! `Set-Cookie` lines, the fixed connection and length headers, a blank
//! line. The bytes of the body follow the rendered head; writing either to
//! a socket is the surrounding program's job.

use vstd::prelude::*;
use crate::cookie::{spec_cookie_string, Cookie};
use crate::dict::Table;
use crate::http::HTTPStatus;
use crate::strutil::{dec_str, str_eq, to_dec_string};

verus! {

pub struct Response {
    pub status: HTTPStatus,
    pub headers: Table,
    pub cookies: Vec<Cookie>,
}

/// The header lines, one `name: value` line per entry, in table order.
pub open spec fn header_lines(entries: Seq<(Seq<char>, Seq<char>)>) -> Seq<char>
    decreases entries.len(),
{
    if entries.len() == 0 {
        Seq::empty()
    } else {
        header_lines(entries.drop_last()) + entries.last().0 + ": "@ + entries.last().1
            + "\r\n"@
    }
}

/// The `Set-Cookie` lines, one per cookie, in order.
pub open spec fn cookie_lines(cs: Seq<Cookie>) -> Seq<char>
    decreases cs.len(),
{
    if cs.len() == 0 {
        Seq::empty()
    } else {
        cookie_lines(cs.drop_last()) + "Set-Cookie: "@ + spec_cookie_string(cs.last())
            + "\r\n"@
    }
}

/// The full response head for a body of `len` bytes of `ct` content.
pub open spec fn head_text(
    status: HTTPStatus,
    entries: Seq<(Seq<char>, Seq<char>)>,
    cs: Seq<Cookie>,
    len: nat,
    ct: Seq<char>,
) -> Seq<char> {
    "HTTP/1.1 "@ + dec_str(status.spec_status_code() as nat) + " "@ + status.spec_status_text()
        + "\r\n"@ + header_lines(entries) + cookie_lines(cs)
        + "Connection: close\r\nContent-Length: "@ + dec_str(len) + "\r\nContent-Type: "@ + ct
        + "\r\n\r\n"@
}

impl Response {
    pub open spec fn wf(&self) -> bool {
        self.headers.wf()
    }

    /// A success response with no headers and no cookies yet.
    pub fn new() -> (r: Response)
        ensures
            r.wf(),
            r.status == HTTPStatus::SUCCESS,
            r.headers@ == Map::<Seq<char>, Seq<char>>::empty(),
            r.headers.entries() == Seq::<(Seq<char>, Seq<char>)>::empty(),
            r.cookies@.len() == 0,
    {
        Response { status: HTTPStatus::SUCCESS, headers: Table::new(), cookies: Vec::new() }
    }

    pub fn with_status(&mut self, status: HTTPStatus)
        ensures
            *final(self) == (Response { status, ..*old(self) }),
    {
        self.status = status;
    }

    /// Set one header; an existing name is overwritten.
    pub fn with_header(&mut self, key: String, value: String)
        requires
            old(self).wf(),
        ensures
            final(self).wf(),
            final(self).status == old(self).status,
            final(self).cookies == old(self).cookies,
            final(self).headers@ == old(self).headers@.insert(key@, value@),
    {
        self.headers.insert(key, value);
    }

    pub fn with_cookie(&mut self, cookie: Cookie)
        ensures
            final(self).status == old(self).status,
            final(self).headers == old(self).headers,
            final(self).cookies@ == old(self).cookies@.push(cookie),
    {
        self.cookies.push(cookie);
    }

    pub fn with_cookies(&mut self, cookies: Vec<Cookie>)
        ensures
            final(self).status == old(self).status,
            final(self).headers == old(self).headers,
            final(self).cookies@ == old(self).cookies@ + cookies@,
    {
        let mut cs = cookies;
        self.cookies.append(&mut cs);
    }

    /// Render the head for a body of `content_length` bytes of `content_type`.
    pub fn render_head(&self, content_length: u64, content_type: &str) -> (r: String)
        ensures
            r@ == head_text(
                self.status,
                self.headers.entries(),
                self.cookies@,
                content_length as nat,
                content_type@,
            ),
    {
        let mut s: String = "HTTP/1.1 ".to_owned();
        let code = to_dec_string(self.status.status_code() as u64);
        s.append(code.as_str());
        s.append(" ");
        s.append(self.status.status_text());
        s.append("\r\n");
        let ghost entries = self.headers.entries();
        let hn = self.headers.count();
        let ghost base = s@;
        let mut i: usize = 0;
        proof {
            assert(entries.subrange(0, 0) =~= Seq::<(Seq<char>, Seq<char>)>::empty());
            assert(s@ =~= base + header_lines(entries.subrange(0, 0)));
        }
        while i < hn
            invariant
                i <= hn,
                hn == entries.len(),
                entries == self.headers.entries(),
                s@ == base + header_lines(entries.subrange(0, i as int)),
            decreases hn - i,
        {
            let ghost pre = entries.subrange(0, i as int);
            let ghost cur = entries.subrange(0, i + 1);
            proof {
                assert(cur.drop_last() =~= pre);
                assert(cur.last() == entries[i as int]);
            }
            let (k, v) = self.headers.pair_at(i);
            s.append(k.as_str());
            s.append(": ");
            s.append(v.as_str());
            s.append("\r\n");
            proof {
                assert(s@ =~= base + header_lines(cur));
            }
            i = i + 1;
        }
        proof {
            assert(entries.subrange(0, hn as int) =~= entries);
        }
        let ghost base2 = s@;
        let cn = self.cookies.len();
        let mut j: usize = 0;
        proof {
            assert(self.cookies@.subrange(0, 0) =~= Seq::<Cookie>::empty());
            assert(s@ =~= base2 + cookie_lines(self.cookies@.subrange(0, 0)));
        }
        while j < cn
            invariant
                j <= cn,
                cn == self.cookies@.len(),
                s@ == base2 + cookie_lines(self.cookies@.subrange(0, j as int)),
            decreases cn - j,
        {
            let ghost pre = self.cookies@.subrange(0, j as int);
            let ghost cur = self.cookies@.subrange(0, j + 1);
            proof {
                assert(cur.drop_last() =~= pre);
                assert(cur.last() == self.cookies@[j as int]);
            }
            s.append("Set-Cookie: ");
            let line = self.cookies[j].to_header_string();
            s.append(line.as_str());
            s.append("\r\n");
            proof {
                assert(s@ =~= base2 + cookie_lines(cur));
            }
            j = j + 1;
        }
        proof {
            assert(self.cookies@.subrange(0, cn as int) =~= self.cookies@);
        }
        s.append("Connection: close\r\nContent-Length: ");
        let cl = to_dec_string(content_length);
        s.append(cl.as_str());
        s.append("\r\nContent-Type: ");
        s.append(content_type);
        s.append("\r\n\r\n");
        proof {
            assert(s@ =~= head_text(
                self.status,
                self.headers.entries(),
                self.cookies@,
                content_length as nat,
                content_type@,
            ));
        }
        s
    }

    /// The full text-body message: the rendered head, then the content.
    /// `Content-Length` counts the bytes the content occupies on the wire
    /// (its UTF-8 encoding), not its characters.
    pub fn text(&self, content: &str) -> (r: String)
        ensures
            r@ == head_text(
                self.status,
                self.headers.entries(),
                self.cookies@,
                vstd::utf8::encode_utf8(content@).len(),
                "text/plain"@,
            ) + content@,
    {
        proof {
            reveal_strlit("text/plain");
        }
        let n = content.as_bytes().len();
        proof {
            assert(n == vstd::utf8::encode_utf8(content@).len());
        }
        let mut s = self.render_head(n as u64, "text/plain");
        s.append(content);
        s
    }

    /// The full JSON-body message: the rendered head, then the document.
    /// `Content-Length` counts the bytes the document occupies on the wire
    /// (its UTF-8 encoding), not its characters.
    pub fn json(&self, content: &str) -> (r: String)
        ensures
            r@ == head_text(
                self.status,
                self.headers.entries(),
                self.cookies@,
                vstd::utf8::encode_utf8(content@).len(),
                "application/json"@,
            ) + content@,
    {
        proof {
            reveal_strlit("application/json");
        }
        let n = content.as_bytes().len();
        proof {
            assert(n == vstd::utf8::encode_utf8(content@).len());
        }
        let mut s = self.render_head(n as u64, "application/json");
        s.append(content);
        s
    }

    /// Mark the response not found and render the empty-body message.
    pub fn not_found(&mut self) -> (r: String)
        requires
            old(self).wf(),
        ensures
            final(self).wf(),
            final(self).status == HTTPStatus::NOT_FOUND,
            final(self).headers == old(self).headers,
            final(self).cookies == old(self).cookies,
            r@ == head_text(
                HTTPStatus::NOT_FOUND,
                old(self).headers.entries(),
                old(self).cookies@,
                0,
                "text/plain"@,
            ),
    {
        self.status = HTTPStatus::NOT_FOUND;
        proof {
            reveal_strlit("");
            assert(""@ =~= Seq::<char>::empty());
            assert(vstd::utf8::encode_utf8(""@) =~= Seq::<u8>::empty());
        }
        let r = self.text("");
        proof {
            assert(r@ =~= head_text(
                HTTPStatus::NOT_FOUND,
                old(self).headers.entries(),
                old(self).cookies@,
                0,
                "text/plain"@,
            ));
        }
        r
    }

    /// Mark the response a redirect to `to` and render the empty-body
    /// message; the target travels in the `Location` header.
    pub fn redirect(&mut self, to: &str) -> (r: String)
        requires
            old(self).wf(),
        ensures
            final(self).wf(),
            final(self).status == HTTPStatus::REDIRECT,
            final(self).headers@ == old(self).headers@.insert("Location"@, to@),
            final(self).cookies == old(self).cookies,
            r@ == head_text(
                HTTPStatus::REDIRECT,
                final(self).headers.entries(),
                old(self).cookies@,
                0,
                "text/plain"@,
            ),
    {
        self.status = HTTPStatus::REDIRECT;
        let key: String = "Location".to_owned();
        let val: String = to.to_owned();
        self.headers.insert(key, val);
        proof {
            reveal_strlit("");
            assert(""@ =~= Seq::<char>::empty());
            assert(vstd::utf8::encode_utf8(""@) =~= Seq::<u8>::empty());
        }
        let r = self.text("");
        proof {
            assert(r@ =~= head_text(
                HTTPStatus::REDIRECT,
                self.headers.entries(),
                old(self).cookies@,
                0,
                "text/plain"@,
            ));
        }
        r
    }
}

/// The content type served for a static file's extension.
pub open spec fn spec_content_type_for_ext(ext: Seq<char>) -> Seq<char> {
    if ext == "html"@ {
        "text/html"@
    } else if ext == "css"@ {
        "text/css"@
    } else if ext == "js"@ {
        "application/javascript"@
    } else if ext == "json"@ {
        "application/json"@
    } else if ext == "png"@ {
        "image/png"@
    } else if ext == "jpg"@ || ext == "jpeg"@ {
        "image/jpeg"@
    } else if ext == "pdf"@ {
        "application/pdf"@
    } else {
        "application/octet-stream"@
    }
}

pub fn content_type_for_ext(ext: &str) -> (r: &'static str)
    ensures
        r@ == spec_content_type_for_ext(ext@),
{
    if str_eq(ext, "html") {
        "text/html"
    } else if str_eq(ext, "css") {
        "text/css"
    } else if str_eq(ext, "js") {
        "application/javascript"
    } else if str_eq(ext, "json") {
        "application/json"
    } else if str_eq(ext, "png") {
        "image/png"
    } else if str_eq(ext, "jpg") || str_eq(ext, "jpeg") {
        "image/jpeg"
    } else if str_eq(ext, "pdf") {
        "application/pdf"
    } else {
        "application/octet-stream"
    }
}

} // verus!
