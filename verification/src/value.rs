//! The dynamically-typed document tree produced by evaluating a
//! configuration script, and its mathematical model.
use vstd::prelude::*;

verus! {

broadcast use vstd::std_specs::vec::axiom_vec_index_decreases, vstd::std_specs::vec::axiom_vec_decreases_to_view;

/// One dynamically-typed value of a manifest document tree: a scalar, an
/// ordered list, or an ordered mapping from string keys to values.
#[derive(Debug, PartialEq, Eq)]
pub enum DynValue {
    Null,
    Bool(bool),
    Int(i64),
    /// A number that is no 64-bit integer, carried as its canonical token
    /// text (a fraction, an exponent, or an integer beyond the i64 range).
    Num(String),
    Str(String),
    List(Vec<DynValue>),
    Mapping(Vec<(String, DynValue)>),
}

/// The mathematical model of a `DynValue`: the same tree over `Seq`.
pub enum Node {
    Null,
    Bool(bool),
    Int(int),
    Num(Seq<char>),
    Str(Seq<char>),
    List(Seq<Node>),
    Mapping(Seq<(Seq<char>, Node)>),
}

/// The model of one value.
pub open spec fn node_of(v: DynValue) -> Node
    decreases v,
{
    match v {
        DynValue::Null => Node::Null,
        DynValue::Bool(b) => Node::Bool(b),
        DynValue::Int(i) => Node::Int(i as int),
        DynValue::Num(s) => Node::Num(s@),
        DynValue::Str(s) => Node::Str(s@),
        DynValue::List(items) => Node::List(nodes_of(items@)),
        DynValue::Mapping(entries) => Node::Mapping(entries_of(entries@)),
    }
}

/// The models of a sequence of values, in order.
pub open spec fn nodes_of(s: Seq<DynValue>) -> Seq<Node>
    decreases s,
{
    if s.len() == 0 {
        Seq::empty()
    } else {
        seq![node_of(s[0])] + nodes_of(s.drop_first())
    }
}

/// The models of a sequence of mapping entries, in order.
pub open spec fn entries_of(s: Seq<(String, DynValue)>) -> Seq<(Seq<char>, Node)>
    decreases s,
{
    if s.len() == 0 {
        Seq::empty()
    } else {
        seq![(s[0].0@, node_of(s[0].1))] + entries_of(s.drop_first())
    }
}

impl View for DynValue {
    type V = Node;

    open spec fn view(&self) -> Node {
        node_of(*self)
    }
}

/// A modelled value list is as long as the list, and models it pointwise.
pub broadcast proof fn lemma_nodes_of(s: Seq<DynValue>)
    ensures
        #[trigger] nodes_of(s).len() == s.len(),
        forall|i: int| 0 <= i < s.len() ==> nodes_of(s)[i] == node_of(s[i]),
    decreases s.len(),
{
    if s.len() > 0 {
        lemma_nodes_of(s.drop_first());
        assert forall|i: int| 0 <= i < s.len() implies nodes_of(s)[i] == node_of(s[i]) by {
            if i > 0 {
                assert(nodes_of(s)[i] == nodes_of(s.drop_first())[i - 1]);
            }
        }
    }
}

/// A modelled entry list is as long as the entry list, and models it pointwise.
pub broadcast proof fn lemma_entries_of(s: Seq<(String, DynValue)>)
    ensures
        #[trigger] entries_of(s).len() == s.len(),
        forall|i: int|
            0 <= i < s.len() ==> entries_of(s)[i] == (s[i].0@, node_of(s[i].1)),
    decreases s.len(),
{
    if s.len() > 0 {
        lemma_entries_of(s.drop_first());
        assert forall|i: int|
            0 <= i < s.len() implies entries_of(s)[i] == (s[i].0@, node_of(s[i].1)) by {
            if i > 0 {
                assert(entries_of(s)[i] == entries_of(s.drop_first())[i - 1]);
            }
        }
    }
}

/// The shape of a number token: what the evaluator's number texts look
/// like — never empty, never a line break, a minus sign only in front.
pub open spec fn num_text_wf(s: Seq<char>) -> bool {
    &&& s.len() >= 1
    &&& forall|i: int| 0 <= i < s.len() ==> s[i] != '\n'
    &&& s.len() >= 2 ==> s[1] != '-'
}

/// A well-formed node: every number text in the tree is a number token.
pub open spec fn node_wf(n: Node) -> bool
    decreases n, 1nat,
{
    match n {
        Node::Num(s) => num_text_wf(s),
        Node::List(items) => nodes_wf(items),
        Node::Mapping(entries) => entries_wf(entries),
        _ => true,
    }
}

/// Well-formedness of every node of a list.
pub open spec fn nodes_wf(s: Seq<Node>) -> bool
    decreases s, 0nat,
{
    if s.len() == 0 {
        true
    } else {
        nodes_wf(s.drop_last()) && node_wf(s.last())
    }
}

/// Well-formedness of every value of a mapping's entries.
pub open spec fn entries_wf(s: Seq<(Seq<char>, Node)>) -> bool
    decreases s, 0nat,
{
    if s.len() == 0 {
        true
    } else {
        entries_wf(s.drop_last()) && node_wf(s.last().1)
    }
}

/// First-match lookup of `key` among the ordered entries of a mapping.
pub open spec fn map_lookup(entries: Seq<(Seq<char>, Node)>, key: Seq<char>) -> Option<Node>
    decreases entries.len(),
{
    if entries.len() == 0 {
        Option::None
    } else if entries[0].0 == key {
        Option::Some(entries[0].1)
    } else {
        map_lookup(entries.drop_first(), key)
    }
}

/// What looking up `key` on a whole node yields: a lookup on a mapping,
/// nothing on any other shape.
pub open spec fn node_lookup(n: Node, key: Seq<char>) -> Option<Node> {
    match n {
        Node::Mapping(entries) => map_lookup(entries, key),
        _ => Option::None,
    }
}

/// Skipping entries whose key differs from `key` leaves the lookup unchanged.
proof fn lemma_map_lookup_skip(s: Seq<(Seq<char>, Node)>, key: Seq<char>, i: int)
    requires
        0 <= i <= s.len(),
        forall|j: int| 0 <= j < i ==> s[j].0 != key,
    ensures
        map_lookup(s, key) == map_lookup(s.skip(i), key),
    decreases i,
{
    if i > 0 {
        lemma_map_lookup_skip(s, key, i - 1);
        assert(s.skip(i - 1).drop_first() =~= s.skip(i));
    } else {
        assert(s.skip(0) =~= s);
    }
}

impl DynValue {
    /// Fetch the value at `key` if this value is a mapping holding that key
    /// (first match, in entry order).
    pub fn get<'a>(&'a self, key: &str) -> (r: Option<&'a DynValue>)
        ensures
            match r {
                Option::Some(v) => node_lookup(self@, key@) == Option::Some(v@),
                Option::None => node_lookup(self@, key@) == Option::<Node>::None,
            },
    {
        match self {
            DynValue::Mapping(entries) => {
                let ghost sv = entries_of(entries@);
                proof {
                    lemma_entries_of(entries@);
                }
                let n = entries.len();
                for i in 0..n
                    invariant
                        n == entries.len(),
                        sv == entries_of(entries@),
                        sv.len() == n,
                        node_lookup(self@, key@) == map_lookup(sv, key@),
                        forall|j: int| 0 <= j < i ==> sv[j].0 != key@,
                        forall|j: int|
                            0 <= j < n ==> sv[j] == (entries@[j].0@, node_of(entries@[j].1)),
                {
                    if entries[i].0.as_str().eq(key) {
                        proof {
                            lemma_map_lookup_skip(sv, key@, i as int);
                            assert(sv.skip(i as int)[0] == sv[i as int]);
                        }
                        return Some(&entries[i].1);
                    }
                }
                proof {
                    lemma_map_lookup_skip(sv, key@, n as int);
                    assert(sv.skip(n as int).len() == 0);
                }
                None
            },
            _ => None,
        }
    }
}

} // verus!
