//! An embeddable HTTP request router with a verified core: a route tree over
//! path segments with per-method handlers and inherited middleware sets, a
//! raw HTTP message decoder (request line, headers, query string, cookies,
//! body), and a body codec for url-encoded and multipart/form-data payloads.
//!
//! Reading sockets, writing responses, running handlers and persisting
//! sessions are left to the surrounding program; this crate makes the
//! decisions and states them in contracts.

pub mod byteutil;
pub mod codec;
pub mod config;
pub mod cookie;
pub mod dict;
pub mod file;
pub mod http;
pub mod multipart;
pub mod request;
pub mod response;
pub mod router;
pub mod routetree;
pub mod session;
pub mod strutil;
