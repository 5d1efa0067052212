//! The command line of the program built on this library.
use vstd::prelude::*;
use vstd::string::StringExecFns;

verus! {

/// The command line: the path of the script to run, if one is given.
pub struct Cli {
    pub script: Option<String>,
}

impl Cli {
    /// The script to run: the one given, else `lua/script.lua`.
    pub fn script_path(&self) -> (r: String)
        ensures
            r@ == match self.script {
                Some(s) => s@,
                None => "lua/script.lua"@,
            },
    {
        match &self.script {
            Some(s) => s.clone(),
            None => String::from_str("lua/script.lua"),
        }
    }
}

} // verus!
