//! Connection settings for the external language-model provider.  Reading
//! them from the process environment is the application shell's business;
//! the library only carries the values.

use vstd::prelude::*;

verus! {

/// Application configuration.
pub struct Config {
    pub api_key: String,
    pub base_url: String,
    pub model: String,
}

impl Config {
    pub fn new(api_key: String, base_url: String, model: String) -> (r: Config)
        ensures
            r.api_key@ == api_key@,
            r.base_url@ == base_url@,
            r.model@ == model@,
    {
        Config { api_key, base_url, model }
    }
}

} // verus!
