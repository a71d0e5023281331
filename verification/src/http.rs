//! HTTP methods and response status codes.

use vstd::prelude::*;

verus! {

/// The request methods the router understands. Any other token on a request
/// line is rejected by the decoder rather than silently defaulted.
#[derive(Clone, Copy, Debug, PartialEq, Eq, Structural)]
#[allow(non_camel_case_types)]
pub enum HTTPMethod {
    GET,
    POST,
    PUT,
    DELETE,
    PATCH,
}

impl HTTPMethod {
    /// Whether a request with this method conventionally carries a body, so
    /// that a missing `Content-Length` header is an error rather than an
    /// implicit zero.
    pub open spec fn spec_carries_body(self) -> bool {
        self == HTTPMethod::POST || self == HTTPMethod::PUT || self == HTTPMethod::PATCH
    }

    pub fn carries_body(&self) -> (r: bool)
        ensures
            r == self.spec_carries_body(),
    {
        match self {
            HTTPMethod::POST | HTTPMethod::PUT | HTTPMethod::PATCH => true,
            _ => false,
        }
    }
}

/// The response statuses the response builder can emit.
#[derive(Clone, Copy, Debug, PartialEq, Eq, Structural)]
#[allow(non_camel_case_types)]
pub enum HTTPStatus {
    SUCCESS,
    NOT_FOUND,
    SERVER_ERROR,
    BAD_REQUEST,
    UNAUTHORIZED,
    FORBIDDEN,
    INTERNAL_SERVER_ERROR,
    BAD_GATEWAY,
    SERVICE_UNAVAILABLE,
    REDIRECT,
}

impl HTTPStatus {
    pub open spec fn spec_status_text(self) -> Seq<char> {
        match self {
            HTTPStatus::SUCCESS => "OK"@,
            HTTPStatus::NOT_FOUND => "Not Found"@,
            HTTPStatus::SERVER_ERROR => "Internal Server Error"@,
            HTTPStatus::BAD_REQUEST => "Bad Request"@,
            HTTPStatus::UNAUTHORIZED => "Unauthorized"@,
            HTTPStatus::FORBIDDEN => "Forbidden"@,
            HTTPStatus::INTERNAL_SERVER_ERROR => "Internal Server Error"@,
            HTTPStatus::BAD_GATEWAY => "Bad Gateway"@,
            HTTPStatus::SERVICE_UNAVAILABLE => "Service Unavailable"@,
            HTTPStatus::REDIRECT => "Found"@,
        }
    }

    pub fn status_text(&self) -> (r: &'static str)
        ensures
            r@ == self.spec_status_text(),
    {
        match self {
            HTTPStatus::SUCCESS => "OK",
            HTTPStatus::NOT_FOUND => "Not Found",
            HTTPStatus::SERVER_ERROR => "Internal Server Error",
            HTTPStatus::BAD_REQUEST => "Bad Request",
            HTTPStatus::UNAUTHORIZED => "Unauthorized",
            HTTPStatus::FORBIDDEN => "Forbidden",
            HTTPStatus::INTERNAL_SERVER_ERROR => "Internal Server Error",
            HTTPStatus::BAD_GATEWAY => "Bad Gateway",
            HTTPStatus::SERVICE_UNAVAILABLE => "Service Unavailable",
            HTTPStatus::REDIRECT => "Found",
        }
    }

    pub open spec fn spec_status_code(self) -> u16 {
        match self {
            HTTPStatus::SUCCESS => 200,
            HTTPStatus::NOT_FOUND => 404,
            HTTPStatus::SERVER_ERROR => 500,
            HTTPStatus::BAD_REQUEST => 400,
            HTTPStatus::UNAUTHORIZED => 401,
            HTTPStatus::FORBIDDEN => 403,
            HTTPStatus::INTERNAL_SERVER_ERROR => 500,
            HTTPStatus::BAD_GATEWAY => 502,
            HTTPStatus::SERVICE_UNAVAILABLE => 503,
            HTTPStatus::REDIRECT => 302,
        }
    }

    pub fn status_code(&self) -> (r: u16)
        ensures
            r == self.spec_status_code(),
    {
        match self {
            HTTPStatus::SUCCESS => 200,
            HTTPStatus::NOT_FOUND => 404,
            HTTPStatus::SERVER_ERROR => 500,
            HTTPStatus::BAD_REQUEST => 400,
            HTTPStatus::UNAUTHORIZED => 401,
            HTTPStatus::FORBIDDEN => 403,
            HTTPStatus::INTERNAL_SERVER_ERROR => 500,
            HTTPStatus::BAD_GATEWAY => 502,
            HTTPStatus::SERVICE_UNAVAILABLE => 503,
            HTTPStatus::REDIRECT => 302,
        }
    }
}

} // verus!
