//! Trusted declarations for the embedded Lua runtime and the JSON tree it
//! hands back. Evaluation runs arbitrary script code, so nothing is promised
//! of the values that come out beyond their well-formed shape; the library
//! is verified for every outcome.
use crate::script::EvalError;
use crate::value::DynValue;
use serde_json::Value as Json;
use vstd::prelude::*;

verus! {

#[verifier::external_type_specification]
#[verifier::external_body]
pub struct ExLua(mlua::Lua);

#[verifier::external_type_specification]
#[verifier::external_body]
pub struct ExLuaTable(mlua::Table);

#[verifier::external_type_specification]
#[verifier::external_body]
pub struct ExLuaValue(mlua::Value);

#[verifier::external_type_specification]
#[verifier::external_body]
pub struct ExJsonValue(serde_json::Value);

/// Relies on mlua's `Lua::new`: a fresh interpreter whose globals hold only
/// the standard library.
#[verifier::external_body]
pub(crate) fn lua_new() -> mlua::Lua {
    mlua::Lua::new()
}

/// Relies on mlua's `Chunk::exec`: runs a named chunk for its side effects
/// on the interpreter's global state.
#[verifier::external_body]
pub(crate) fn lua_exec(lua: &mlua::Lua, chunk: &str, name: &str) -> (r: Result<(), EvalError>) {
    lua.load(chunk).set_name(name).exec().map_err(
        |e| EvalError { message: e.to_string() },
    )
}

/// Relies on mlua's `Lua::globals`: the interpreter's table of globals.
#[verifier::external_body]
pub(crate) fn lua_globals(lua: &mlua::Lua) -> mlua::Table {
    lua.globals()
}

/// Relies on mlua's `Table::set`: binds one string key of the table to a
/// string value.
#[verifier::external_body]
pub(crate) fn lua_table_set(table: &mlua::Table, key: &str, value: &str) -> (r: Result<
    (),
    EvalError,
>) {
    table.set(key, value).map_err(|e| EvalError { message: e.to_string() })
}

/// Relies on mlua's `Chunk::eval`: evaluates a chunk to one value.
#[verifier::external_body]
pub(crate) fn lua_eval(lua: &mlua::Lua, chunk: &str) -> (r: Result<mlua::Value, EvalError>) {
    lua.load(chunk).eval::<mlua::Value>().map_err(|e| EvalError { message: e.to_string() })
}

/// Relies on `serde_json::to_value` over mlua's value serializer: the
/// evaluated value as a JSON tree, or an error for what JSON cannot carry.
#[verifier::external_body]
pub(crate) fn lua_value_to_json(v: &mlua::Value) -> (r: Result<serde_json::Value, EvalError>) {
    serde_json::to_value(v).map_err(|e| EvalError { message: e.to_string() })
}

/// Relies on `serde_json::Value`'s public variants: carries a JSON tree into
/// the library's value type one variant at a time, in order. A number beyond
/// the 64-bit integers is carried as the token text of `serde_json::Number`'s
/// `Display`, which prints one JSON number token: never empty, no line
/// break, and a minus sign only in front.
#[verifier::external_body]
pub(crate) fn json_to_value(v: &Json) -> (r: DynValue)
    ensures
        crate::value::node_wf(r@),
{
    match v {
        Json::Null => DynValue::Null,
        Json::Bool(b) => DynValue::Bool(*b),
        Json::Number(n) => match n.as_i64() {
            Some(i) => DynValue::Int(i),
            None => DynValue::Num(n.to_string()),
        },
        Json::String(s) => DynValue::Str(s.clone()),
        Json::Array(a) => DynValue::List(a.iter().map(json_to_value).collect()),
        Json::Object(m) => DynValue::Mapping(
            m.iter().map(|(k, x)| (k.clone(), json_to_value(x))).collect(),
        ),
    }
}

} // verus!
