//! The run configuration handed in by the caller: where to work, which
//! documents to read, and the diagnostic switches.

use vstd::prelude::*;
use vstd::string::StringExecFns;

verus! {

/// Where to work, which documents to read, and the diagnostic switches.
#[derive(Debug)]
pub struct Context {
    /// The working directory the documents are resolved against.
    pub path: String,
    /// The rule document's file name.
    pub json_path: String,
    /// The source document's file name.
    pub toml_path: String,
    /// Whether the compiled rule paths are printed for diagnostics.
    pub debugging: bool,
    /// Whether the caller keeps watching the documents after one run.
    pub listen: bool,
}

impl Context {
    /// A configuration made of the given parts.
    pub fn new(
        path: &str,
        toml_path: &str,
        json_path: &str,
        debugging: bool,
        listen: bool,
    ) -> (r: Context)
        ensures
            r.path@ == path@,
            r.toml_path@ == toml_path@,
            r.json_path@ == json_path@,
            r.debugging == debugging,
            r.listen == listen,
    {
        Context {
            path: path.to_owned(),
            json_path: json_path.to_owned(),
            toml_path: toml_path.to_owned(),
            debugging,
            listen,
        }
    }
}

} // verus!
