//! Settings of a program that keeps its tags in a store on disk.

use vstd::prelude::*;

verus! {

/// Where the store is kept.
#[derive(Debug)]
pub struct Conf {
    pub db_uri: String,
}

impl Default for Conf {
    /// The store is `./tags.db` unless the settings say otherwise.
    fn default() -> (conf: Self)
        ensures
            conf.db_uri@ == "./tags.db"@,
    {
        Conf { db_uri: "./tags.db".to_string() }
    }
}

} // verus!
