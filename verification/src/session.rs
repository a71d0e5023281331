//! Session handles. The core only distinguishes "no session": persistent
//! backends (file- or cookie-backed stores) live with the surrounding
//! program, which attaches an opaque handle before dispatch.

use vstd::prelude::*;

verus! {

/// The absent session backend: it stores nothing and answers nothing.
pub struct NoSession {}

impl NoSession {
    pub fn new() -> (r: NoSession) {
        NoSession {  }
    }
}

} // verus!
