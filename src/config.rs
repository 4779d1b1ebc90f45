//! Settings of the server: where its document root lies.
use vstd::prelude::*;

verus! {

broadcast use vstd::string::group_string_axioms;

/// Command-line arguments: the configuration file to read.
#[derive(Debug)]
pub struct Args {
    pub config_file: String,
}

/// The server's configuration.
#[derive(Debug)]
pub struct Config {
    pub document_root: String,
}

impl Default for Config {
    /// The document root defaults to `web_resources`.
    fn default() -> (r: Self)
        ensures
            r.document_root@ == "web_resources"@,
    {
        Config { document_root: "web_resources".to_owned() }
    }
}

} // verus!
