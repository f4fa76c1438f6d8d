//! Deciding whether an evaluated root value is one manifest document or an
//! ordered list of documents.
use crate::value::{node_of, nodes_of, lemma_nodes_of, Node, DynValue};
use vstd::prelude::*;

verus! {

/// An ordered, finite sequence of manifest documents: either exactly one
/// (the root was a single mapping-like value) or zero or more (the root was
/// a contiguous list of mappings).
#[derive(Debug, PartialEq, Eq)]
pub enum DocumentSet {
    Single(DynValue),
    List(Vec<DynValue>),
}

/// The mathematical model of a `DocumentSet`.
pub enum DocSetNode {
    Single(Node),
    List(Seq<Node>),
}

/// The model of a document set.
pub open spec fn doc_set_node_of(s: DocumentSet) -> DocSetNode {
    match s {
        DocumentSet::Single(v) => DocSetNode::Single(v@),
        DocumentSet::List(items) => DocSetNode::List(nodes_of(items@)),
    }
}

impl View for DocumentSet {
    type V = DocSetNode;

    open spec fn view(&self) -> DocSetNode {
        doc_set_node_of(*self)
    }
}

/// How many leading elements of `items` are mappings: the length of the
/// contiguous document prefix, ended by the first gap or non-mapping.
pub open spec fn mapping_prefix_len(items: Seq<Node>) -> nat
    decreases items.len(),
{
    if items.len() == 0 || !(items[0] is Mapping) {
        0
    } else {
        1 + mapping_prefix_len(items.drop_first())
    }
}

/// What normalization yields: a root list whose first element is a mapping
/// is the contiguous prefix of mappings, in index order; an empty root list
/// is zero documents; anything else is a single document equal to the root.
pub open spec fn spec_normalize(root: Node) -> DocSetNode {
    match root {
        Node::List(items) => if items.len() == 0 {
            DocSetNode::List(Seq::empty())
        } else if items[0] is Mapping {
            DocSetNode::List(items.take(mapping_prefix_len(items) as int))
        } else {
            DocSetNode::Single(root)
        },
        _ => DocSetNode::Single(root),
    }
}

/// `mapping_prefix_len` is exactly the first index that is no mapping.
proof fn lemma_mapping_prefix_len_is(items: Seq<Node>, k: int)
    requires
        0 <= k <= items.len(),
        forall|i: int| 0 <= i < k ==> items[i] is Mapping,
        k < items.len() ==> !(items[k] is Mapping),
    ensures
        mapping_prefix_len(items) == k,
    decreases k,
{
    if k == 0 {
    } else {
        assert(items[0] is Mapping);
        lemma_mapping_prefix_len_is(items.drop_first(), k - 1);
    }
}

/// Splitting a value list keeps the models aligned: the model of a prefix is
/// the prefix of the model.
proof fn lemma_nodes_of_take(s: Seq<DynValue>, k: int)
    requires
        0 <= k <= s.len(),
    ensures
        nodes_of(s.take(k)) =~= nodes_of(s).take(k),
{
    lemma_nodes_of(s);
    lemma_nodes_of(s.take(k));
}

/// Law: a root without a mapping at the first list position — in particular
/// a root mapping — normalizes to exactly one document, equal to the root.
pub proof fn lemma_normalize_single(root: Node)
    requires
        root is List ==> (root->List_0.len() > 0 && !(root->List_0[0] is Mapping)),
    ensures
        spec_normalize(root) == DocSetNode::Single(root),
{
}

/// Law: a root list whose first `k` elements are mappings and whose index
/// `k`, if present, is no mapping (a gap ends the run even if mappings
/// follow) normalizes to exactly those `k` documents, in index order.
pub proof fn lemma_normalize_list(items: Seq<Node>, k: int)
    requires
        0 <= k <= items.len(),
        forall|i: int| 0 <= i < k ==> items[i] is Mapping,
        k < items.len() ==> !(items[k] is Mapping),
        k == 0 ==> items.len() == 0,
    ensures
        spec_normalize(Node::List(items)) == DocSetNode::List(items.take(k)),
{
    if items.len() == 0 {
        assert(items.take(k) =~= Seq::<Node>::empty());
    } else {
        lemma_mapping_prefix_len_is(items, k);
    }
}

/// Decide whether the evaluated root value is a list of documents or a
/// single document, per the index-probe heuristic: a root list whose first
/// element is a mapping is taken as the contiguous run of mapping elements;
/// an empty root list holds no documents; any other root is one document.
pub fn normalize(root: DynValue) -> (r: DocumentSet)
    ensures
        r@ == spec_normalize(root@),
{
    match root {
        DynValue::List(items) => {
            proof {
                lemma_nodes_of(items@);
            }
            if items.len() == 0 {
                proof {
                    assert(nodes_of(items@) =~= Seq::<Node>::empty());
                }
                DocumentSet::List(items)
            } else if (match &items[0] {
                DynValue::Mapping(_) => true,
                _ => false,
            }) {
                let ghost orig = items@;
                let mut rest = items;
                let mut docs: Vec<DynValue> = Vec::new();
                loop
                    invariant
                        docs@ + rest@ =~= orig,
                        forall|i: int| 0 <= i < docs@.len() ==> docs@[i] is Mapping,
                    ensures
                        docs@ + rest@ =~= orig,
                        forall|i: int| 0 <= i < docs@.len() ==> docs@[i] is Mapping,
                        rest@.len() > 0 ==> !(rest@[0] is Mapping),
                    decreases rest@.len(),
                {
                    if rest.len() == 0 {
                        break ;
                    }
                    let head_is_mapping = match &rest[0] {
                        DynValue::Mapping(_) => true,
                        _ => false,
                    };
                    if !head_is_mapping {
                        break ;
                    }
                    let head = rest.remove(0);
                    docs.push(head);
                    proof {
                        assert(docs@ + rest@ =~= orig);
                    }
                }
                proof {
                    let k = docs@.len() as int;
                    lemma_nodes_of(orig);
                    assert(forall|i: int| 0 <= i < k ==> orig[i] is Mapping);
                    assert(k < orig.len() ==> !(orig[k] is Mapping));
                    assert(forall|i: int|
                        0 <= i < orig.len() ==> (orig[i] is Mapping <==> nodes_of(orig)[i]
                            is Mapping));
                    lemma_mapping_prefix_len_is(nodes_of(orig), k);
                    assert(docs@ =~= orig.take(k));
                    lemma_nodes_of_take(orig, k);
                }
                DocumentSet::List(docs)
            } else {
                DocumentSet::Single(DynValue::List(items))
            }
        },
        other => DocumentSet::Single(other),
    }
}

} // verus!
