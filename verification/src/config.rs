//! The resolved configuration of one search: what to look for, where, and
//! in which comparison mode.

use vstd::prelude::*;

verus! {

/// A search configuration: the query, the name of the file to search, and
/// whether the comparison is case-sensitive.
#[derive(Debug)]
pub struct Config {
    pub query: String,
    pub filename: String,
    pub case_sensitive: bool,
}

impl Config {
    /// Builds a configuration from the argument list (the first entry being
    /// the program name) and from whether the case-insensitivity toggle is
    /// set. A missing query or file name is a configuration error.
    pub fn new(args: Vec<String>, case_insensitive: bool) -> (r: Result<Config, &'static str>)
        ensures
            args@.len() < 2 ==> (r matches Err(m) && m@ == "Didn't get a query string"@),
            args@.len() == 2 ==> (r matches Err(m) && m@ == "Didn't get a file name"@),
            args@.len() >= 3 ==> (r matches Ok(c)
                && c.query == args@[1]
                && c.filename == args@[2]
                && c.case_sensitive == !case_insensitive),
    {
        if args.len() < 2 {
            return Err("Didn't get a query string");
        }
        if args.len() < 3 {
            return Err("Didn't get a file name");
        }
        let query = args[1].clone();
        let filename = args[2].clone();
        Ok(Config { query, filename, case_sensitive: !case_insensitive })
    }
}

} // verus!
