//! Unit tests for the document model: normalization, YAML rendering, GVK
//! parsing, key=value parsing, and apply planning.
use kluars::config::parse_key_val;
use kluars::gvk::{parse_gvk, Gvk};
use kluars::normalize::{normalize, DocumentSet};
use kluars::plan::{
    plan_document, plan_documents, ApplyStep, ApplyTarget, DiscoverySnapshot, ResourceDescriptor,
    Scope, ShapeError,
};
use kluars::script::translate_value;
use kluars::value::DynValue;
use kluars::yaml::{render_document, render_set};

fn s(t: &str) -> String {
    String::from(t)
}

fn str_val(t: &str) -> DynValue {
    DynValue::Str(s(t))
}

fn mapping(entries: Vec<(&str, DynValue)>) -> DynValue {
    DynValue::Mapping(entries.into_iter().map(|(k, v)| (s(k), v)).collect())
}

fn pod(name: &str) -> DynValue {
    mapping(vec![
        ("kind", str_val("Pod")),
        ("apiVersion", str_val("v1")),
        ("metadata", mapping(vec![("name", str_val(name))])),
    ])
}

#[test]
fn normalize_mapping_root_is_single() {
    let root = pod("a");
    let expected = pod("a");
    match normalize(root) {
        DocumentSet::Single(doc) => assert_eq!(doc, expected),
        DocumentSet::List(_) => panic!("a mapping root must be a single document"),
    }
}

#[test]
fn normalize_scalar_root_is_single() {
    match normalize(DynValue::Int(7)) {
        DocumentSet::Single(doc) => assert_eq!(doc, DynValue::Int(7)),
        DocumentSet::List(_) => panic!("a scalar root must be a single document"),
    }
}

#[test]
fn normalize_scalar_first_list_is_single() {
    // The documented heuristic: a list whose first element is no mapping is
    // one document equal to the whole root.
    let root = DynValue::List(vec![DynValue::Int(1), pod("a")]);
    let expected = DynValue::List(vec![DynValue::Int(1), pod("a")]);
    match normalize(root) {
        DocumentSet::Single(doc) => assert_eq!(doc, expected),
        DocumentSet::List(_) => panic!("a scalar-first root must be a single document"),
    }
}

#[test]
fn normalize_list_of_mappings() {
    let root = DynValue::List(vec![pod("a"), pod("b"), pod("c")]);
    match normalize(root) {
        DocumentSet::List(docs) => {
            assert_eq!(docs.len(), 3);
            assert_eq!(docs[0], pod("a"));
            assert_eq!(docs[1], pod("b"));
            assert_eq!(docs[2], pod("c"));
        },
        DocumentSet::Single(_) => panic!("a mapping list must be a document list"),
    }
}

#[test]
fn normalize_gap_ends_the_list() {
    let root = DynValue::List(vec![pod("a"), DynValue::Null, pod("c")]);
    match normalize(root) {
        DocumentSet::List(docs) => {
            assert_eq!(docs.len(), 1);
            assert_eq!(docs[0], pod("a"));
        },
        DocumentSet::Single(_) => panic!("a mapping-first root must be a document list"),
    }
}

#[test]
fn normalize_empty_list_is_empty_set() {
    match normalize(DynValue::List(Vec::new())) {
        DocumentSet::List(docs) => assert_eq!(docs.len(), 0),
        DocumentSet::Single(_) => panic!("an empty root list must hold no documents"),
    }
}

#[test]
fn render_single_has_no_separator() {
    let out = render_set(&DocumentSet::Single(pod("a")));
    assert!(!out.starts_with("---"));
    assert_eq!(out.lines().filter(|l| *l == "---").count(), 0);
}

#[test]
fn render_list_has_one_separator_per_document() {
    let out = render_set(&DocumentSet::List(vec![pod("a"), pod("b")]));
    assert!(out.starts_with("---\n"));
    assert_eq!(out.lines().filter(|l| *l == "---").count(), 2);
}

#[test]
fn render_empty_list_is_empty() {
    let out = render_set(&DocumentSet::List(Vec::new()));
    assert_eq!(out, "");
}

#[test]
fn rendered_document_round_trips() {
    // A document of scalars and nested mappings comes back field for field.
    let doc = mapping(vec![
        ("kind", str_val("Pod")),
        ("count", DynValue::Int(-3)),
        ("zero", DynValue::Int(0)),
        ("on", DynValue::Bool(true)),
        ("off", DynValue::Bool(false)),
        ("nothing", DynValue::Null),
        (
            "metadata",
            mapping(vec![("name", str_val("nginx")), ("note", str_val("a: b #c\n'd' \"e\" \\f"))]),
        ),
    ]);
    let out = render_document(&doc);
    let parsed: serde_yaml::Value = serde_yaml::from_str(&out).expect("Got invalid YAML");

    assert_eq!(parsed.get("kind").unwrap(), &serde_yaml::Value::String(s("Pod")));
    assert_eq!(parsed.get("count").unwrap().as_i64().unwrap(), -3);
    assert_eq!(parsed.get("zero").unwrap().as_i64().unwrap(), 0);
    assert_eq!(parsed.get("on").unwrap().as_bool().unwrap(), true);
    assert_eq!(parsed.get("off").unwrap().as_bool().unwrap(), false);
    assert!(parsed.get("nothing").unwrap().is_null());
    let metadata = parsed.get("metadata").unwrap();
    assert_eq!(metadata.get("name").unwrap(), &serde_yaml::Value::String(s("nginx")));
    assert_eq!(
        metadata.get("note").unwrap(),
        &serde_yaml::Value::String(s("a: b #c\n'd' \"e\" \\f"))
    );
}

#[test]
fn rendered_lists_round_trip() {
    let doc = mapping(vec![
        (
            "items",
            DynValue::List(vec![
                DynValue::Int(1),
                str_val("two"),
                DynValue::List(vec![DynValue::Bool(true)]),
                mapping(vec![("inner", DynValue::Int(9))]),
                DynValue::List(Vec::new()),
                mapping(Vec::new()),
            ]),
        ),
    ]);
    let out = render_document(&doc);
    let parsed: serde_yaml::Value = serde_yaml::from_str(&out).expect("Got invalid YAML");
    let items = parsed.get("items").unwrap().as_sequence().unwrap();
    assert_eq!(items.len(), 6);
    assert_eq!(items[0].as_i64().unwrap(), 1);
    assert_eq!(items[1], serde_yaml::Value::String(s("two")));
    assert_eq!(items[2].as_sequence().unwrap()[0].as_bool().unwrap(), true);
    assert_eq!(items[3].get("inner").unwrap().as_i64().unwrap(), 9);
    assert_eq!(items[4].as_sequence().unwrap().len(), 0);
    assert!(items[5].as_mapping().unwrap().is_empty());
}

#[test]
fn translate_value_renders_a_stream() {
    let root = DynValue::List(vec![pod("a"), pod("b")]);
    let out = translate_value(root);
    assert_eq!(out.lines().filter(|l| *l == "---").count(), 2);
}

#[test]
fn gvk_splits_on_the_first_slash() {
    let g = parse_gvk("apps/v1", "Deployment");
    assert_eq!(g.group, "apps");
    assert_eq!(g.version, "v1");
    assert_eq!(g.kind, "Deployment");

    let g = parse_gvk("v1", "Pod");
    assert_eq!(g.group, "");
    assert_eq!(g.version, "v1");
    assert_eq!(g.kind, "Pod");

    let g = parse_gvk("a/b/c", "X");
    assert_eq!(g.group, "a");
    assert_eq!(g.version, "b/c");
}

#[test]
fn key_val_splits_on_the_first_equals() {
    assert_eq!(parse_key_val("name=web"), Ok((s("name"), s("web"))));
    assert_eq!(parse_key_val("a=b=c"), Ok((s("a"), s("b=c"))));
    assert_eq!(parse_key_val("=v"), Ok((s(""), s("v"))));
    assert_eq!(
        parse_key_val("no-equals"),
        Err(s("invalid KEY=value: no `=` found in `no-equals`"))
    );
}

fn snapshot() -> DiscoverySnapshot {
    DiscoverySnapshot {
        entries: vec![
            (
                Gvk { group: s(""), version: s("v1"), kind: s("Pod") },
                ResourceDescriptor { resource: s("pods"), scope: Scope::Namespaced },
            ),
            (
                Gvk { group: s(""), version: s("v1"), kind: s("Namespace") },
                ResourceDescriptor { resource: s("namespaces"), scope: Scope::Cluster },
            ),
        ],
    }
}

fn namespaced_pod(name: &str, namespace: Option<&str>) -> DynValue {
    let mut meta = vec![("name", str_val(name))];
    if let Some(ns) = namespace {
        meta.push(("namespace", str_val(ns)));
    }
    mapping(vec![
        ("kind", str_val("Pod")),
        ("apiVersion", str_val("v1")),
        ("metadata", mapping(meta)),
    ])
}

#[test]
fn document_namespace_wins() {
    let doc = namespaced_pod("a", Some("from-doc"));
    let step = plan_document(&doc, &snapshot(), &Some(s("from-flag"))).unwrap();
    match step {
        ApplyStep::Apply { target, name, descriptor, .. } => {
            assert_eq!(target, ApplyTarget::Namespace(s("from-doc")));
            assert_eq!(name, "a");
            assert_eq!(descriptor.resource, "pods");
        },
        ApplyStep::Skip { .. } => panic!("a known type must plan an apply"),
    }
}

#[test]
fn flag_namespace_is_the_fallback() {
    let doc = namespaced_pod("a", None);
    let step = plan_document(&doc, &snapshot(), &Some(s("from-flag"))).unwrap();
    match step {
        ApplyStep::Apply { target, .. } => {
            assert_eq!(target, ApplyTarget::Namespace(s("from-flag")))
        },
        ApplyStep::Skip { .. } => panic!("a known type must plan an apply"),
    }
}

#[test]
fn default_namespace_is_the_last_resort() {
    let doc = namespaced_pod("a", None);
    let step = plan_document(&doc, &snapshot(), &None).unwrap();
    match step {
        ApplyStep::Apply { target, .. } => assert_eq!(target, ApplyTarget::DefaultNamespace),
        ApplyStep::Skip { .. } => panic!("a known type must plan an apply"),
    }
}

#[test]
fn cluster_scope_ignores_namespaces() {
    let doc = mapping(vec![
        ("kind", str_val("Namespace")),
        ("apiVersion", str_val("v1")),
        (
            "metadata",
            mapping(vec![("name", str_val("team")), ("namespace", str_val("ignored"))]),
        ),
    ]);
    let step = plan_document(&doc, &snapshot(), &Some(s("also-ignored"))).unwrap();
    match step {
        ApplyStep::Apply { target, .. } => assert_eq!(target, ApplyTarget::Cluster),
        ApplyStep::Skip { .. } => panic!("a known type must plan an apply"),
    }
}

#[test]
fn generate_name_is_the_name_fallback() {
    let doc = mapping(vec![
        ("kind", str_val("Pod")),
        ("apiVersion", str_val("v1")),
        ("metadata", mapping(vec![("generateName", str_val("gen-"))])),
    ]);
    match plan_document(&doc, &snapshot(), &None).unwrap() {
        ApplyStep::Apply { name, .. } => assert_eq!(name, "gen-"),
        ApplyStep::Skip { .. } => panic!("a known type must plan an apply"),
    }

    let doc = mapping(vec![
        ("kind", str_val("Pod")),
        ("apiVersion", str_val("v1")),
        ("metadata", mapping(Vec::new())),
    ]);
    match plan_document(&doc, &snapshot(), &None).unwrap() {
        ApplyStep::Apply { name, .. } => assert_eq!(name, ""),
        ApplyStep::Skip { .. } => panic!("a known type must plan an apply"),
    }
}

#[test]
fn shape_errors_name_the_field() {
    let no_metadata = mapping(vec![("kind", str_val("Pod")), ("apiVersion", str_val("v1"))]);
    assert_eq!(plan_document(&no_metadata, &snapshot(), &None), Err(ShapeError::Metadata));

    let no_kind = mapping(vec![
        ("apiVersion", str_val("v1")),
        ("metadata", mapping(vec![("name", str_val("a"))])),
    ]);
    assert_eq!(plan_document(&no_kind, &snapshot(), &None), Err(ShapeError::Kind));

    let bad_api_version = mapping(vec![
        ("kind", str_val("Pod")),
        ("apiVersion", DynValue::Int(1)),
        ("metadata", mapping(vec![("name", str_val("a"))])),
    ]);
    assert_eq!(plan_document(&bad_api_version, &snapshot(), &None), Err(ShapeError::ApiVersion));

    assert_eq!(
        ShapeError::Metadata.describe(),
        "document has no metadata mapping"
    );
}

#[test]
fn unresolved_type_is_skipped_and_the_run_goes_on() {
    let unknown = mapping(vec![
        ("kind", str_val("Gadget")),
        ("apiVersion", str_val("widgets/v1")),
        ("metadata", mapping(vec![("name", str_val("g"))])),
    ]);
    let known = namespaced_pod("p", None);
    let set = normalize(DynValue::List(vec![unknown, known]));
    let steps = plan_documents(&set, &snapshot(), &None).unwrap();
    assert_eq!(steps.len(), 2);
    match &steps[0] {
        ApplyStep::Skip { gvk } => {
            assert_eq!(gvk.group, "widgets");
            assert_eq!(gvk.version, "v1");
            assert_eq!(gvk.kind, "Gadget");
        },
        ApplyStep::Apply { .. } => panic!("an unknown type must be skipped"),
    }
    match &steps[1] {
        ApplyStep::Apply { name, .. } => assert_eq!(name, "p"),
        ApplyStep::Skip { .. } => panic!("a known type must plan an apply"),
    }
}

#[test]
fn a_shape_error_ends_the_plan() {
    let good = namespaced_pod("p", None);
    let bad = mapping(vec![("kind", str_val("Pod"))]);
    let set = normalize(DynValue::List(vec![good, bad]));
    assert_eq!(plan_documents(&set, &snapshot(), &None), Err(ShapeError::Metadata));
}

#[test]
fn rendered_text_is_exact() {
    assert_eq!(render_document(&DynValue::Int(-42)), "-42\n");
    assert_eq!(render_document(&DynValue::Int(0)), "0\n");
    assert_eq!(render_document(&DynValue::Null), "null\n");
    assert_eq!(render_document(&DynValue::Bool(true)), "true\n");
    assert_eq!(render_document(&mapping(Vec::new())), "{}\n");
    assert_eq!(render_document(&DynValue::List(Vec::new())), "[]\n");

    let doc = mapping(vec![
        ("kind", str_val("Pod")),
        ("metadata", mapping(vec![("name", str_val("nginx"))])),
        (
            "ports",
            DynValue::List(vec![mapping(vec![("containerPort", DynValue::Int(80))])]),
        ),
    ]);
    let expected = "\"kind\": \"Pod\"\n\"metadata\":\n  \"name\": \"nginx\"\n\"ports\":\n  -\n    \"containerPort\": 80\n";
    assert_eq!(render_document(&doc), expected);
}

#[test]
fn strings_are_escaped_exactly() {
    assert_eq!(render_document(&str_val("a\"b\\c\nd")), "\"a\\\"b\\\\c\\nd\"\n");
    assert_eq!(render_document(&str_val("tab\there")), "\"tab\\there\"\n");
    assert_eq!(render_document(&str_val("\u{1}")), "\"\\x01\"\n");
    let reparsed: serde_yaml::Value =
        serde_yaml::from_str(&render_document(&str_val("a\"b\\c\nd"))).expect("Got invalid YAML");
    assert_eq!(reparsed, serde_yaml::Value::String(s("a\"b\\c\nd")));
}

#[test]
fn numbers_render_unquoted_and_round_trip() {
    assert_eq!(render_document(&DynValue::Num(s("0.5"))), "0.5\n");
    assert_eq!(render_document(&DynValue::Num(s("-2.25"))), "-2.25\n");

    let doc = mapping(vec![
        ("cpu", DynValue::Num(s("0.5"))),
        ("limit", DynValue::Num(s("1e3"))),
        ("count", DynValue::Int(3)),
    ]);
    let out = render_document(&doc);
    assert_eq!(out, "\"cpu\": 0.5\n\"limit\": 1e3\n\"count\": 3\n");
    let parsed: serde_yaml::Value = serde_yaml::from_str(&out).expect("Got invalid YAML");
    assert_eq!(parsed.get("cpu").unwrap().as_f64().unwrap(), 0.5);
    assert_eq!(parsed.get("limit").unwrap().as_f64().unwrap(), 1000.0);
    assert_eq!(parsed.get("count").unwrap().as_i64().unwrap(), 3);
}

#[test]
fn lookup_takes_the_first_match() {
    let doc = DynValue::Mapping(vec![
        (s("k"), str_val("first")),
        (s("k"), str_val("second")),
    ]);
    assert_eq!(doc.get("k"), Some(&str_val("first")));
    assert_eq!(doc.get("missing"), None);
    assert_eq!(str_val("scalar").get("k"), None);
}
