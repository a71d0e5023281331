//! The application configuration surface the core consumes: plain values
//! read once at startup and passed in explicitly.

use vstd::prelude::*;

verus! {

/// Application identity and environment, as configuration hands it over.
#[allow(non_snake_case)]
pub struct Config {
    pub APP_URL: String,
    pub APP_NAME: String,
    pub APP_ENV: String,
}

} // verus!
