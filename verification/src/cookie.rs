//! Response cookies and their `Set-Cookie` rendering.

use vstd::prelude::*;
use crate::strutil::{dec_str, to_dec_string};

verus! {

pub struct Cookie {
    pub key: String,
    pub value: String,
    pub expires: Option<String>,
    pub secure: bool,
    pub max_age: Option<u64>,
    pub http_only: bool,
    pub path: String,
}

/// The text a cookie contributes to a `Set-Cookie` header line.
pub open spec fn spec_cookie_string(c: Cookie) -> Seq<char> {
    c.key@ + "="@ + c.value@ + (match c.expires {
        Some(e) => "; Expires="@ + e@,
        None => Seq::<char>::empty(),
    }) + (if c.secure {
        "; Secure"@
    } else {
        Seq::<char>::empty()
    }) + (match c.max_age {
        Some(a) => "; Max-Age="@ + dec_str(a as nat),
        None => Seq::<char>::empty(),
    }) + (if c.http_only {
        "; HttpOnly"@
    } else {
        Seq::<char>::empty()
    }) + "; Path="@ + c.path@
}

impl Cookie {
    /// A cookie with the given key and value, scoped to the root path, with
    /// no expiry and no flags.
    pub fn new(key: String, value: String) -> (r: Cookie)
        ensures
            r.key == key,
            r.value == value,
            r.expires is None,
            !r.secure,
            r.max_age is None,
            !r.http_only,
            r.path@ == "/"@,
    {
        Cookie {
            key,
            value,
            expires: None,
            secure: false,
            max_age: None,
            http_only: false,
            path: {
                let p: String = "/".to_owned();
                p
            },
        }
    }

    pub fn with_expires(self, expires: String) -> (r: Cookie)
        ensures
            r == (Cookie { expires: Some(expires), ..self }),
    {
        Cookie { expires: Some(expires), ..self }
    }

    /// Mark the cookie `Secure`.
    pub fn secure(self) -> (r: Cookie)
        ensures
            r == (Cookie { secure: true, ..self }),
    {
        Cookie { secure: true, ..self }
    }

    pub fn with_secure(self, secure: bool) -> (r: Cookie)
        ensures
            r == (Cookie { secure, ..self }),
    {
        Cookie { secure, ..self }
    }

    pub fn with_max_age(self, max_age: u64) -> (r: Cookie)
        ensures
            r == (Cookie { max_age: Some(max_age), ..self }),
    {
        Cookie { max_age: Some(max_age), ..self }
    }

    /// Mark the cookie `HttpOnly`.
    pub fn http_only(self) -> (r: Cookie)
        ensures
            r == (Cookie { http_only: true, ..self }),
    {
        Cookie { http_only: true, ..self }
    }

    pub fn with_http_only(self, http_only: bool) -> (r: Cookie)
        ensures
            r == (Cookie { http_only, ..self }),
    {
        Cookie { http_only, ..self }
    }

    pub fn with_path(self, path: String) -> (r: Cookie)
        ensures
            r == (Cookie { path, ..self }),
    {
        Cookie { path, ..self }
    }

    /// Render the cookie for a `Set-Cookie` header line.
    pub fn to_header_string(&self) -> (r: String)
        ensures
            r@ == spec_cookie_string(*self),
    {
        let mut s = self.key.clone();
        s.append("=");
        s.append(self.value.as_str());
        match &self.expires {
            Some(e) => {
                s.append("; Expires=");
                s.append(e.as_str());
            },
            None => {},
        }
        if self.secure {
            s.append("; Secure");
        }
        match &self.max_age {
            Some(a) => {
                s.append("; Max-Age=");
                let ds = to_dec_string(*a);
                s.append(ds.as_str());
            },
            None => {},
        }
        if self.http_only {
            s.append("; HttpOnly");
        }
        s.append("; Path=");
        s.append(self.path.as_str());
        proof {
            assert(s@ =~= spec_cookie_string(*self));
        }
        s
    }
}

} // verus!
