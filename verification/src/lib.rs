//! Evaluate scripted configuration into Kubernetes manifest documents,
//! render them as YAML, and plan scope-correct server-side applies.
pub mod config;
pub mod gvk;
pub mod lua;
pub mod normalize;
pub mod plan;
pub mod script;
pub mod stdspec;
pub mod text;
pub mod yaml;
pub mod value;
