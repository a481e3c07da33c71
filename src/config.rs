//! Where the front end listens.

use vstd::prelude::*;
use vstd::string::StringExecFns;

verus! {

/// The address and port the front end binds.
pub struct Config {
    pub bind_addr: String,
    pub port: u16,
}

impl Config {
    /// The defaults: 127.0.0.1, port 5432.
    pub fn from_args() -> (r: Self)
        ensures
            r.bind_addr@ == "127.0.0.1"@,
            r.port == 5432,
    {
        Config { bind_addr: String::from_str("127.0.0.1"), port: 5432 }
    }
}

} // verus!
