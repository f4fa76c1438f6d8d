//! The run configuration: which command to run, on which script, with which
//! globals and namespace.
use crate::text::{find_char, first_index};
use vstd::prelude::*;

verus! {

/// What the evaluator is given: the script (or script directory) path, the
/// explicit key=value globals in order, and an optional values script path.
#[derive(Debug, PartialEq, Eq)]
pub struct LuaArgs {
    /// Path to a script, or to a directory holding an entry script.
    pub path: String,
    /// Global variables set in the evaluation environment, in order.
    pub args: Vec<(String, String)>,
    /// A script run before the main one for defining globals.
    pub values: Option<String>,
}

/// The options one command shares: an optional namespace, the unused
/// all-namespaces switch, and the evaluator arguments.
#[derive(Debug, PartialEq, Eq)]
pub struct Global {
    /// The namespace applies fall back to when a document names none.
    pub namespace: Option<String>,
    /// Accepted for compatibility; nothing reads it.
    pub all: bool,
    /// Arguments handed to the evaluator.
    pub lua_args: LuaArgs,
}

/// The two commands: translate scripts to YAML, or apply them to a cluster.
#[derive(Debug, PartialEq, Eq)]
pub enum Commands {
    Xlate(Global),
    Apply(Global),
}

/// A whole command line.
#[derive(Debug, PartialEq, Eq)]
pub struct Cli {
    pub command: Commands,
}

/// The wording of the error for a pair without a separator.
pub open spec fn key_val_error_text(s: Seq<char>) -> Seq<char> {
    "invalid KEY=value: no `=` found in `"@ + s + "`"@
}

/// Parse a single key-value pair: the key is the text before the first `=`,
/// the value the text after it; text without `=` is refused.
pub fn parse_key_val(s: &str) -> (r: Result<(String, String), String>)
    ensures
        match r {
            Result::Ok(kv) => {
                &&& first_index(s@, '=') is Some
                &&& kv.0@ == s@.take(first_index(s@, '=')->0 as int)
                &&& kv.1@ == s@.skip(first_index(s@, '=')->0 + 1 as int)
            },
            Result::Err(e) => first_index(s@, '=') is None && e@ == key_val_error_text(s@),
        },
{
    let n = s.unicode_len();
    match find_char(s, '=') {
        Some(i) => {
            let key = s.substring_char(0, i).to_owned();
            let value = s.substring_char(i + 1, n).to_owned();
            proof {
                assert(s@.subrange(0, i as int) =~= s@.take(i as int));
                assert(s@.subrange(i + 1 as int, n as int) =~= s@.skip(i + 1 as int));
            }
            Ok((key, value))
        },
        None => {
            let mut e = "invalid KEY=value: no `=` found in `".to_owned();
            e.append(s);
            e.append("`");
            Err(e)
        },
    }
}

} // verus!
