//! Group/Version/Kind: the lookup key identifying a Kubernetes resource
//! type, parsed from a document's `apiVersion` and `kind` fields.
use crate::text::{find_char, first_index};
use vstd::prelude::*;

verus! {

/// The triple identifying a resource type. The group is empty for the core
/// API group.
#[derive(Debug, PartialEq, Eq)]
pub struct Gvk {
    pub group: String,
    pub version: String,
    pub kind: String,
}

/// The mathematical model of a `Gvk`.
pub struct GvkNode {
    pub group: Seq<char>,
    pub version: Seq<char>,
    pub kind: Seq<char>,
}

impl View for Gvk {
    type V = GvkNode;

    open spec fn view(&self) -> GvkNode {
        GvkNode { group: self.group@, version: self.version@, kind: self.kind@ }
    }
}

/// What parsing an `apiVersion` and a `kind` yields: the text before the
/// first slash is the group and the text after it the version; without a
/// slash the group is empty and the whole text is the version.
pub open spec fn spec_gvk(api_version: Seq<char>, kind: Seq<char>) -> GvkNode {
    match first_index(api_version, '/') {
        Option::Some(i) => GvkNode {
            group: api_version.take(i as int),
            version: api_version.skip(i + 1 as int),
            kind,
        },
        Option::None => GvkNode { group: Seq::empty(), version: api_version, kind },
    }
}

/// Parse the Group/Version/Kind key of a document from its `apiVersion` and
/// `kind` strings, splitting the `apiVersion` on its first slash.
pub fn parse_gvk(api_version: &str, kind: &str) -> (r: Gvk)
    ensures
        r@ == spec_gvk(api_version@, kind@),
{
    let n = api_version.unicode_len();
    match find_char(api_version, '/') {
        Some(k) => {
            let group = api_version.substring_char(0, k).to_owned();
            let version = api_version.substring_char(k + 1, n).to_owned();
            proof {
                assert(api_version@.subrange(0, k as int) =~= api_version@.take(k as int));
                assert(api_version@.subrange(k + 1 as int, n as int) =~= api_version@.skip(
                    k + 1 as int,
                ));
            }
            Gvk { group, version, kind: kind.to_owned() }
        },
        None => {
            Gvk { group: String::new(), version: api_version.to_owned(), kind: kind.to_owned() }
        },
    }
}

/// Whether two resource type keys are the same triple.
pub fn gvk_eq(a: &Gvk, b: &Gvk) -> (r: bool)
    ensures
        r == (a@ == b@),
{
    let r = a.group.as_str().eq(b.group.as_str()) && a.version.as_str().eq(b.version.as_str())
        && a.kind.as_str().eq(b.kind.as_str());
    r
}

} // verus!
