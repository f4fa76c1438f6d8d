//! Resolving a document's type against cluster discovery data and planning
//! a scope-correct server-side apply for each document of a set.
use crate::gvk::{parse_gvk, gvk_eq, spec_gvk, Gvk, GvkNode};
use crate::normalize::{DocSetNode, DocumentSet};
use crate::value::{map_lookup, node_lookup, Node, DynValue};
use vstd::prelude::*;

verus! {

/// Whether a resource lives cluster-wide or inside a namespace.
#[derive(Debug, PartialEq, Eq, Structural, Clone, Copy)]
pub enum Scope {
    Cluster,
    Namespaced,
}

/// Live-cluster metadata for one resource type: its REST resource (plural)
/// name and its scope.
#[derive(Debug, PartialEq, Eq)]
pub struct ResourceDescriptor {
    pub resource: String,
    pub scope: Scope,
}

/// The mathematical model of a `ResourceDescriptor`.
pub struct RdNode {
    pub resource: Seq<char>,
    pub scope: Scope,
}

impl View for ResourceDescriptor {
    type V = RdNode;

    open spec fn view(&self) -> RdNode {
        RdNode { resource: self.resource@, scope: self.scope }
    }
}

/// A point-in-time catalog of the resource types a cluster serves, fetched
/// once per run and read-only afterwards.
#[derive(Debug, PartialEq, Eq)]
pub struct DiscoverySnapshot {
    pub entries: Vec<(Gvk, ResourceDescriptor)>,
}

/// The models of a snapshot's entries, in order.
pub open spec fn snap_entries_of(s: Seq<(Gvk, ResourceDescriptor)>) -> Seq<(GvkNode, RdNode)>
    decreases s,
{
    if s.len() == 0 {
        Seq::empty()
    } else {
        seq![(s[0].0@, s[0].1@)] + snap_entries_of(s.drop_first())
    }
}

/// A modelled snapshot is as long as the snapshot, and models it pointwise.
pub broadcast proof fn lemma_snap_entries_of(s: Seq<(Gvk, ResourceDescriptor)>)
    ensures
        #[trigger] snap_entries_of(s).len() == s.len(),
        forall|i: int| 0 <= i < s.len() ==> snap_entries_of(s)[i] == (s[i].0@, s[i].1@),
    decreases s.len(),
{
    if s.len() > 0 {
        lemma_snap_entries_of(s.drop_first());
        assert forall|i: int|
            0 <= i < s.len() implies snap_entries_of(s)[i] == (s[i].0@, s[i].1@) by {
            if i > 0 {
                assert(snap_entries_of(s)[i] == snap_entries_of(s.drop_first())[i - 1]);
            }
        }
    }
}

impl View for DiscoverySnapshot {
    type V = Seq<(GvkNode, RdNode)>;

    open spec fn view(&self) -> Seq<(GvkNode, RdNode)> {
        snap_entries_of(self.entries@)
    }
}

/// First-match lookup of a resource type in a snapshot.
pub open spec fn snapshot_lookup(entries: Seq<(GvkNode, RdNode)>, key: GvkNode) -> Option<RdNode>
    decreases entries.len(),
{
    if entries.len() == 0 {
        Option::None
    } else if entries[0].0 == key {
        Option::Some(entries[0].1)
    } else {
        snapshot_lookup(entries.drop_first(), key)
    }
}

/// Skipping entries whose key differs leaves the lookup unchanged.
proof fn lemma_snapshot_lookup_skip(s: Seq<(GvkNode, RdNode)>, key: GvkNode, i: int)
    requires
        0 <= i <= s.len(),
        forall|j: int| 0 <= j < i ==> s[j].0 != key,
    ensures
        snapshot_lookup(s, key) == snapshot_lookup(s.skip(i), key),
    decreases i,
{
    if i > 0 {
        lemma_snapshot_lookup_skip(s, key, i - 1);
        assert(s.skip(i - 1).drop_first() =~= s.skip(i));
    } else {
        assert(s.skip(0) =~= s);
    }
}

impl DiscoverySnapshot {
    /// Look a resource type up: the first snapshot entry with this key, if
    /// the cluster serves the type at all.
    pub fn resolve<'a>(&'a self, key: &Gvk) -> (r: Option<&'a ResourceDescriptor>)
        ensures
            match r {
                Option::Some(rd) => snapshot_lookup(self@, key@) == Option::Some(rd@),
                Option::None => snapshot_lookup(self@, key@) == Option::<RdNode>::None,
            },
    {
        proof {
            lemma_snap_entries_of(self.entries@);
        }
        let n = self.entries.len();
        for i in 0..n
            invariant
                n == self.entries.len(),
                self@ == snap_entries_of(self.entries@),
                self@.len() == n,
                forall|j: int|
                    0 <= j < n ==> self@[j] == (self.entries@[j].0@, self.entries@[j].1@),
                forall|j: int| 0 <= j < i ==> self@[j].0 != key@,
        {
            if gvk_eq(&self.entries[i].0, key) {
                proof {
                    lemma_snapshot_lookup_skip(self@, key@, i as int);
                    assert(self@.skip(i as int)[0] == self@[i as int]);
                }
                return Some(&self.entries[i].1);
            }
        }
        proof {
            lemma_snapshot_lookup_skip(self@, key@, n as int);
        }
        None
    }
}

/// Where an apply is addressed: the whole cluster, one named namespace, or
/// the client's implied default namespace.
#[derive(Debug, PartialEq, Eq)]
pub enum ApplyTarget {
    Cluster,
    Namespace(String),
    DefaultNamespace,
}

/// The mathematical model of an `ApplyTarget`.
pub enum TargetNode {
    Cluster,
    Namespace(Seq<char>),
    DefaultNamespace,
}

impl View for ApplyTarget {
    type V = TargetNode;

    open spec fn view(&self) -> TargetNode {
        match self {
            ApplyTarget::Cluster => TargetNode::Cluster,
            ApplyTarget::Namespace(ns) => TargetNode::Namespace(ns@),
            ApplyTarget::DefaultNamespace => TargetNode::DefaultNamespace,
        }
    }
}

/// The model of an optional namespace string.
pub open spec fn ns_view(o: Option<String>) -> Option<Seq<char>> {
    match o {
        Option::Some(s) => Option::Some(s@),
        Option::None => Option::None,
    }
}

/// What the apply target is: a cluster-scoped resource ignores every
/// namespace; a namespaced one takes the document's own namespace first, the
/// flag's namespace second, and the implied default last.
pub open spec fn spec_apply_target(
    scope: Scope,
    doc_ns: Option<Seq<char>>,
    cli_ns: Option<Seq<char>>,
) -> TargetNode {
    match scope {
        Scope::Cluster => TargetNode::Cluster,
        Scope::Namespaced => match doc_ns {
            Option::Some(ns) => TargetNode::Namespace(ns),
            Option::None => match cli_ns {
                Option::Some(ns) => TargetNode::Namespace(ns),
                Option::None => TargetNode::DefaultNamespace,
            },
        },
    }
}

/// Law: namespace precedence for apply targets. The document's own
/// `metadata.namespace` wins over the flag's namespace, the flag over the
/// implied default, and a cluster-scoped resource ignores them all.
pub proof fn lemma_namespace_precedence(doc_ns: Option<Seq<char>>, cli_ns: Option<Seq<char>>)
    ensures
        doc_ns is Some ==> spec_apply_target(Scope::Namespaced, doc_ns, cli_ns)
            == TargetNode::Namespace(doc_ns->0),
        doc_ns is None && cli_ns is Some ==> spec_apply_target(Scope::Namespaced, doc_ns, cli_ns)
            == TargetNode::Namespace(cli_ns->0),
        doc_ns is None && cli_ns is None ==> spec_apply_target(Scope::Namespaced, doc_ns, cli_ns)
            == TargetNode::DefaultNamespace,
        spec_apply_target(Scope::Cluster, doc_ns, cli_ns) == TargetNode::Cluster,
{
}

/// Build the apply target for one resolved document.
pub fn apply_target(scope: Scope, doc_namespace: Option<String>, cli_namespace: Option<String>) -> (t:
    ApplyTarget)
    ensures
        t@ == spec_apply_target(scope, ns_view(doc_namespace), ns_view(cli_namespace)),
{
    match scope {
        Scope::Cluster => ApplyTarget::Cluster,
        Scope::Namespaced => match doc_namespace {
            Some(ns) => ApplyTarget::Namespace(ns),
            None => match cli_namespace {
                Some(ns) => ApplyTarget::Namespace(ns),
                None => ApplyTarget::DefaultNamespace,
            },
        },
    }
}

/// A document the apply path cannot process: a required field is absent or
/// has the wrong shape.
#[derive(Debug, PartialEq, Eq, Structural, Clone, Copy)]
pub enum ShapeError {
    /// `metadata` is absent or no mapping.
    Metadata,
    /// `kind` is absent or no string.
    Kind,
    /// `apiVersion` is absent or no string.
    ApiVersion,
}

/// The wording of each shape error.
pub open spec fn shape_error_text(e: ShapeError) -> Seq<char> {
    match e {
        ShapeError::Metadata => "document has no metadata mapping"@,
        ShapeError::Kind => "document has no kind string"@,
        ShapeError::ApiVersion => "document has no apiVersion string"@,
    }
}

impl ShapeError {
    /// A short description for logs and error reports.
    pub fn describe(&self) -> (r: String)
        ensures
            r@ == shape_error_text(*self),
    {
        match self {
            ShapeError::Metadata => "document has no metadata mapping".to_owned(),
            ShapeError::Kind => "document has no kind string".to_owned(),
            ShapeError::ApiVersion => "document has no apiVersion string".to_owned(),
        }
    }
}

/// One planned step of an apply run: skip an unresolved type with a warning,
/// or apply a named object at a target.
#[derive(Debug, PartialEq, Eq)]
pub enum ApplyStep {
    Skip { gvk: Gvk },
    Apply { gvk: Gvk, descriptor: ResourceDescriptor, target: ApplyTarget, name: String },
}

/// The mathematical model of an `ApplyStep`.
pub enum StepNode {
    Skip { gvk: GvkNode },
    Apply { gvk: GvkNode, descriptor: RdNode, target: TargetNode, name: Seq<char> },
}

impl View for ApplyStep {
    type V = StepNode;

    open spec fn view(&self) -> StepNode {
        match self {
            ApplyStep::Skip { gvk } => StepNode::Skip { gvk: gvk@ },
            ApplyStep::Apply { gvk, descriptor, target, name } => StepNode::Apply {
                gvk: gvk@,
                descriptor: descriptor@,
                target: target@,
                name: name@,
            },
        }
    }
}

/// The document's own namespace: `metadata.namespace` when it is a string.
pub open spec fn spec_doc_namespace(meta: Seq<(Seq<char>, Node)>) -> Option<Seq<char>> {
    match map_lookup(meta, "namespace"@) {
        Option::Some(Node::Str(s)) => Option::Some(s),
        _ => Option::None,
    }
}

/// The resource name an apply uses: `metadata.name`, else
/// `metadata.generateName`, else the empty string.
pub open spec fn spec_doc_name(meta: Seq<(Seq<char>, Node)>) -> Seq<char> {
    match map_lookup(meta, "name"@) {
        Option::Some(Node::Str(s)) => s,
        _ => match map_lookup(meta, "generateName"@) {
            Option::Some(Node::Str(s)) => s,
            _ => Seq::empty(),
        },
    }
}

/// What planning one document yields. The document must hold a metadata
/// mapping, a kind string and an apiVersion string; an unknown type is a
/// skip, a known one an apply at the precedence-resolved target.
pub open spec fn spec_plan_document(
    doc: Node,
    snap: Seq<(GvkNode, RdNode)>,
    cli_ns: Option<Seq<char>>,
) -> Result<StepNode, ShapeError> {
    match node_lookup(doc, "metadata"@) {
        Option::Some(Node::Mapping(meta)) => match node_lookup(doc, "kind"@) {
            Option::Some(Node::Str(kind)) => match node_lookup(doc, "apiVersion"@) {
                Option::Some(Node::Str(api_version)) => {
                    let gvk = spec_gvk(api_version, kind);
                    match snapshot_lookup(snap, gvk) {
                        Option::Some(rd) => Result::Ok(
                            StepNode::Apply {
                                gvk,
                                descriptor: rd,
                                target: spec_apply_target(
                                    rd.scope,
                                    spec_doc_namespace(meta),
                                    cli_ns,
                                ),
                                name: spec_doc_name(meta),
                            },
                        ),
                        Option::None => Result::Ok(StepNode::Skip { gvk }),
                    }
                },
                _ => Result::Err(ShapeError::ApiVersion),
            },
            _ => Result::Err(ShapeError::Kind),
        },
        _ => Result::Err(ShapeError::Metadata),
    }
}

/// Law: an unknown type is no error. A document with well-shaped fields
/// whose Group/Version/Kind the snapshot does not hold plans as a skip, so
/// a run warns and goes on with the other documents.
pub proof fn lemma_unresolved_is_skip(
    doc: Node,
    meta: Seq<(Seq<char>, Node)>,
    kind: Seq<char>,
    api_version: Seq<char>,
    snap: Seq<(GvkNode, RdNode)>,
    cli_ns: Option<Seq<char>>,
)
    requires
        node_lookup(doc, "metadata"@) == Option::Some(Node::Mapping(meta)),
        node_lookup(doc, "kind"@) == Option::Some(Node::Str(kind)),
        node_lookup(doc, "apiVersion"@) == Option::Some(Node::Str(api_version)),
        snapshot_lookup(snap, spec_gvk(api_version, kind)) is None,
    ensures
        spec_plan_document(doc, snap, cli_ns) == Result::<StepNode, ShapeError>::Ok(
            StepNode::Skip { gvk: spec_gvk(api_version, kind) },
        ),
{
}

/// The models of planned steps, in order.
pub open spec fn steps_of(s: Seq<ApplyStep>) -> Seq<StepNode>
    decreases s,
{
    if s.len() == 0 {
        Seq::empty()
    } else {
        steps_of(s.drop_last()).push(s.last()@)
    }
}

/// Modelled steps are as many as the steps, and model them pointwise.
pub broadcast proof fn lemma_steps_of(s: Seq<ApplyStep>)
    ensures
        #[trigger] steps_of(s).len() == s.len(),
        forall|i: int| 0 <= i < s.len() ==> steps_of(s)[i] == s[i]@,
    decreases s.len(),
{
    if s.len() > 0 {
        lemma_steps_of(s.drop_last());
    }
}

/// What planning a document list yields: one step per document in order, or
/// the earliest document's shape error.
pub open spec fn spec_plan_docs(
    ds: Seq<Node>,
    snap: Seq<(GvkNode, RdNode)>,
    cli_ns: Option<Seq<char>>,
) -> Result<Seq<StepNode>, ShapeError>
    decreases ds,
{
    if ds.len() == 0 {
        Result::Ok(Seq::empty())
    } else {
        match spec_plan_docs(ds.drop_last(), snap, cli_ns) {
            Result::Ok(steps) => match spec_plan_document(ds.last(), snap, cli_ns) {
                Result::Ok(st) => Result::Ok(steps.push(st)),
                Result::Err(e) => Result::Err(e),
            },
            Result::Err(e) => Result::Err(e),
        }
    }
}

/// What planning a whole document set yields.
pub open spec fn spec_plan_set(
    s: DocSetNode,
    snap: Seq<(GvkNode, RdNode)>,
    cli_ns: Option<Seq<char>>,
) -> Result<Seq<StepNode>, ShapeError> {
    match s {
        DocSetNode::Single(d) => match spec_plan_document(d, snap, cli_ns) {
            Result::Ok(st) => Result::Ok(seq![st]),
            Result::Err(e) => Result::Err(e),
        },
        DocSetNode::List(ds) => spec_plan_docs(ds, snap, cli_ns),
    }
}

/// A failed prefix decides the whole list's planning.
proof fn lemma_plan_docs_err_prefix(
    ds: Seq<Node>,
    snap: Seq<(GvkNode, RdNode)>,
    cli_ns: Option<Seq<char>>,
    i: int,
)
    requires
        0 <= i <= ds.len(),
        spec_plan_docs(ds.take(i), snap, cli_ns) is Err,
    ensures
        spec_plan_docs(ds, snap, cli_ns) == spec_plan_docs(ds.take(i), snap, cli_ns),
    decreases ds.len() - i,
{
    if i < ds.len() {
        assert(ds.take(i + 1).drop_last() =~= ds.take(i));
        lemma_plan_docs_err_prefix(ds, snap, cli_ns, i + 1);
    } else {
        assert(ds.take(i) =~= ds);
    }
}

/// Law: one unresolved document never ends a run. When every document of a
/// list is well-shaped, planning the list succeeds with exactly one step per
/// document, in order — skipped documents included.
pub proof fn lemma_plan_docs_all_ok(
    ds: Seq<Node>,
    snap: Seq<(GvkNode, RdNode)>,
    cli_ns: Option<Seq<char>>,
)
    requires
        forall|i: int| 0 <= i < ds.len() ==> spec_plan_document(ds[i], snap, cli_ns) is Ok,
    ensures
        spec_plan_docs(ds, snap, cli_ns) is Ok,
        spec_plan_docs(ds, snap, cli_ns)->Ok_0.len() == ds.len(),
        forall|i: int|
            0 <= i < ds.len() ==> #[trigger] spec_plan_docs(ds, snap, cli_ns)->Ok_0[i]
                == spec_plan_document(ds[i], snap, cli_ns)->Ok_0,
    decreases ds.len(),
{
    if ds.len() > 0 {
        let front = ds.drop_last();
        assert(forall|i: int|
            0 <= i < front.len() ==> spec_plan_document(front[i], snap, cli_ns)
                == spec_plan_document(ds[i], snap, cli_ns));
        lemma_plan_docs_all_ok(front, snap, cli_ns);
        assert(spec_plan_document(ds.last(), snap, cli_ns) is Ok);
    }
}

/// Plan one document: extract its fields, resolve its type against the
/// snapshot, and decide the target, per `spec_plan_document`.
pub fn plan_document(doc: &DynValue, snapshot: &DiscoverySnapshot, cli_namespace: &Option<String>) -> (r:
    Result<ApplyStep, ShapeError>)
    ensures
        match r {
            Result::Ok(step) => spec_plan_document(doc@, snapshot@, ns_view(*cli_namespace))
                == Result::<StepNode, ShapeError>::Ok(step@),
            Result::Err(e) => spec_plan_document(doc@, snapshot@, ns_view(*cli_namespace))
                == Result::<StepNode, ShapeError>::Err(e),
        },
{
    let meta = match doc.get("metadata") {
        Some(m) => match m {
            DynValue::Mapping(_) => m,
            _ => {
                return Err(ShapeError::Metadata);
            },
        },
        None => {
            return Err(ShapeError::Metadata);
        },
    };
    let kind = match doc.get("kind") {
        Some(DynValue::Str(s)) => s,
        _ => {
            return Err(ShapeError::Kind);
        },
    };
    let api_version = match doc.get("apiVersion") {
        Some(DynValue::Str(s)) => s,
        _ => {
            return Err(ShapeError::ApiVersion);
        },
    };
    let gvk = parse_gvk(api_version.as_str(), kind.as_str());
    match snapshot.resolve(&gvk) {
        Some(rd) => {
            let doc_namespace = match meta.get("namespace") {
                Some(DynValue::Str(s)) => Some(s.clone()),
                _ => None,
            };
            let name = match meta.get("name") {
                Some(DynValue::Str(s)) => s.clone(),
                _ => match meta.get("generateName") {
                    Some(DynValue::Str(s)) => s.clone(),
                    _ => String::new(),
                },
            };
            let cli_ns = match cli_namespace {
                Some(s) => Some(s.clone()),
                None => None,
            };
            let descriptor = ResourceDescriptor { resource: rd.resource.clone(), scope: rd.scope };
            let target = apply_target(rd.scope, doc_namespace, cli_ns);
            Ok(ApplyStep::Apply { gvk, descriptor, target, name })
        },
        None => Ok(ApplyStep::Skip { gvk }),
    }
}

} // verus!

verus! {

/// Plan a whole document set, in document order: the steps for every
/// document, or the earliest shape error, which ends the run.
pub fn plan_documents(
    set: &DocumentSet,
    snapshot: &DiscoverySnapshot,
    cli_namespace: &Option<String>,
) -> (r: Result<Vec<ApplyStep>, ShapeError>)
    ensures
        match r {
            Result::Ok(steps) => spec_plan_set(set@, snapshot@, ns_view(*cli_namespace))
                == Result::<Seq<StepNode>, ShapeError>::Ok(steps_of(steps@)),
            Result::Err(e) => spec_plan_set(set@, snapshot@, ns_view(*cli_namespace))
                == Result::<Seq<StepNode>, ShapeError>::Err(e),
        },
{
    match set {
        DocumentSet::Single(d) => match plan_document(d, snapshot, cli_namespace) {
            Ok(st) => {
                let ghost stv = st@;
                let mut steps: Vec<ApplyStep> = Vec::new();
                steps.push(st);
                proof {
                    lemma_steps_of(steps@);
                    assert(steps_of(steps@) =~= seq![stv]);
                }
                Ok(steps)
            },
            Err(e) => Err(e),
        },
        DocumentSet::List(docs) => {
            let ghost dv = crate::value::nodes_of(docs@);
            let ghost cli = ns_view(*cli_namespace);
            proof {
                crate::value::lemma_nodes_of(docs@);
                assert(dv.take(0) =~= Seq::<Node>::empty());
            }
            let mut steps: Vec<ApplyStep> = Vec::new();
            let n = docs.len();
            let mut i: usize = 0;
            while i < n
                invariant
                    i <= n,
                    n == docs.len(),
                    dv == crate::value::nodes_of(docs@),
                    dv.len() == n,
                    forall|j: int| 0 <= j < n ==> dv[j] == crate::value::node_of(docs@[j]),
                    cli == ns_view(*cli_namespace),
                    set@ == DocSetNode::List(dv),
                    spec_plan_docs(dv.take(i as int), snapshot@, cli) == Result::<
                        Seq<StepNode>,
                        ShapeError,
                    >::Ok(steps_of(steps@)),
                decreases n - i,
            {
                match plan_document(&docs[i], snapshot, cli_namespace) {
                    Ok(st) => {
                        let ghost prev = steps@;
                        let ghost stv = st@;
                        steps.push(st);
                        proof {
                            assert(dv.take(i + 1 as int).drop_last() =~= dv.take(i as int));
                            assert(dv.take(i + 1 as int).last() == dv[i as int]);
                            lemma_steps_of(steps@);
                            lemma_steps_of(prev);
                            assert(steps_of(steps@) =~= steps_of(prev).push(stv));
                        }
                    },
                    Err(e) => {
                        proof {
                            assert(dv.take(i + 1 as int).drop_last() =~= dv.take(i as int));
                            assert(dv.take(i + 1 as int).last() == dv[i as int]);
                            assert(spec_plan_docs(dv.take(i + 1 as int), snapshot@, cli)
                                == Result::<Seq<StepNode>, ShapeError>::Err(e));
                            lemma_plan_docs_err_prefix(dv, snapshot@, cli, i + 1 as int);
                            assert(spec_plan_docs(dv, snapshot@, cli) == Result::<
                                Seq<StepNode>,
                                ShapeError,
                            >::Err(e));
                            assert(set@ == DocSetNode::List(dv));
                            assert(spec_plan_set(set@, snapshot@, cli) == Result::<
                                Seq<StepNode>,
                                ShapeError,
                            >::Err(e));
                        }
                        return Err(e);
                    },
                }
                i += 1;
            }
            proof {
                assert(dv.take(n as int) =~= dv);
            }
            Ok(steps)
        },
    }
}

} // verus!
