//! Evaluating a configuration script to a document tree, and the
//! translate pipeline from script text to YAML text.
use crate::lua;
use crate::normalize::normalize;
use crate::normalize::spec_normalize;
use crate::value::{node_wf, DynValue};
use crate::yaml::{render_set, render_set_text};
use vstd::prelude::*;

verus! {

/// A failed evaluation: the script did not run to completion, or its result
/// cannot be carried as a document tree.
#[derive(Debug, PartialEq, Eq)]
pub struct EvalError {
    pub message: String,
}

/// Evaluate a configuration script to one document tree. The values script,
/// if given, runs first; then every explicit key=value global is set in
/// argument order, so an explicit global overrides what the values script
/// set; the main script runs last and its result is the tree. Evaluation
/// runs arbitrary script code: any outcome is possible, and every outcome is
/// handed back as a well-formed plain value or an error.
pub fn evaluate_script(script: &str, values: Option<&str>, globals: &Vec<(String, String)>) -> (r:
    Result<DynValue, EvalError>)
    ensures
        r is Ok ==> node_wf(r->Ok_0@),
{
    let lua = lua::lua_new();
    match values {
        Some(v) => {
            match lua::lua_exec(&lua, v, "values") {
                Ok(()) => (),
                Err(e) => {
                    return Err(e);
                },
            }
        },
        None => (),
    }
    let table = lua::lua_globals(&lua);
    let n = globals.len();
    for i in 0..n
        invariant
            n == globals.len(),
    {
        match lua::lua_table_set(&table, globals[i].0.as_str(), globals[i].1.as_str()) {
            Ok(()) => (),
            Err(e) => {
                return Err(e);
            },
        }
    }
    let root = match lua::lua_eval(&lua, script) {
        Ok(v) => v,
        Err(e) => {
            return Err(e);
        },
    };
    let json = match lua::lua_value_to_json(&root) {
        Ok(j) => j,
        Err(e) => {
            return Err(e);
        },
    };
    Ok(lua::json_to_value(&json))
}

/// Translate one evaluated root value to YAML text: normalize it into a
/// document set, then render the set.
pub fn translate_value(root: DynValue) -> (r: String)
    ensures
        r@ == render_set_text(spec_normalize(root@)),
{
    let set = normalize(root);
    render_set(&set)
}

/// Translate a script to YAML text: evaluate it, then normalize and render
/// what came back. Whether evaluation succeeds is the script's own affair;
/// whatever root value it yields is rendered per the translate contract.
pub fn translate_script(script: &str, values: Option<&str>, globals: &Vec<(String, String)>) -> (r:
    Result<String, EvalError>)
    ensures
        match r {
            Result::Ok(t) => exists|root: crate::value::Node|
                t@ == render_set_text(spec_normalize(root)),
            Result::Err(_) => true,
        },
{
    match evaluate_script(script, values, globals) {
        Ok(root) => {
            let ghost rv = root@;
            let t = translate_value(root);
            proof {
                assert(t@ == render_set_text(spec_normalize(rv)));
            }
            Ok(t)
        },
        Err(e) => Err(e),
    }
}

} // verus!
