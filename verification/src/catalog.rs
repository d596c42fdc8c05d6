//! The package catalog: the pre-resolved, read-only graph of packages that
//! dependency expansion walks. Each node carries its declared features and
//! its declared dependency edges.

use vstd::prelude::*;
use crate::chars::views;
use crate::chars::str_eq;

verus! {

/// The relation an edge declares: only `Normal` edges take part in the
/// build-dependency closure.
#[derive(PartialEq, Eq, Structural, Clone, Copy)]
pub enum DepKind {
    Normal,
    Development,
    Build,
}

/// One declared feature of a package: its name and the feature or
/// dependency-activation markers it implies.
pub struct FeatureDecl {
    pub name: String,
    pub implies: Vec<String>,
}

/// One declared dependency edge of a package.
pub struct DepDecl {
    pub name: String,
    pub req: String,
    pub source: String,
    pub kind: DepKind,
    pub optional: bool,
    pub uses_default_features: bool,
    pub features: Vec<String>,
}

/// One package of the catalog, with its concrete chosen version.
pub struct PackageNode {
    pub name: String,
    pub version: String,
    pub source: String,
    pub features: Vec<FeatureDecl>,
    pub dependencies: Vec<DepDecl>,
}

/// The `(name, version)` pair identifying a catalog node.
pub open spec fn node_key(p: PackageNode) -> (Seq<char>, Seq<char>) {
    (p.name@, p.version@)
}

/// The pre-resolved package graph.
pub struct Catalog {
    pub packages: Vec<PackageNode>,
}

impl Catalog {
    /// Well-formed: no two nodes share a `(name, version)` key.
    pub open spec fn wf(self) -> bool {
        forall|i: int, j: int|
            0 <= i < j < self.packages@.len() ==> node_key(self.packages@[i]) != node_key(
                self.packages@[j],
            )
    }

    /// `k` is the key of some catalog node.
    pub open spec fn is_key(self, k: (Seq<char>, Seq<char>)) -> bool {
        exists|i: int|
            0 <= i < self.packages@.len() && node_key(#[trigger] self.packages@[i]) == k
    }
}

/// The implied markers of the feature called `name`, if the package declares
/// it; the first declaration wins.
pub open spec fn feature_lookup(fm: Seq<FeatureDecl>, name: Seq<char>) -> Option<
    Seq<Seq<char>>,
>
    decreases fm.len(),
{
    if fm.len() == 0 {
        None
    } else if fm[0].name@ == name {
        Some(views(fm[0].implies@))
    } else {
        feature_lookup(fm.drop_first(), name)
    }
}

/// Executable feature lookup.
pub fn lookup_feature<'a>(node: &'a PackageNode, name: &str) -> (r: Option<
    &'a Vec<String>,
>)
    ensures
        match r {
            Some(v) => feature_lookup(node.features@, name@) == Some(views(v@)),
            None => feature_lookup(node.features@, name@) is None,
        },
{
    let n = node.features.len();
    let mut i: usize = 0;
    proof {
        assert(node.features@.skip(0) =~= node.features@);
    }
    while i < n
        invariant
            i <= n,
            n == node.features@.len(),
            feature_lookup(node.features@, name@) == feature_lookup(
                node.features@.skip(i as int),
                name@,
            ),
        decreases n - i,
    {
        proof {
            assert(node.features@.skip(i as int)[0] == node.features@[i as int]);
            assert(node.features@.skip(i as int).drop_first() =~= node.features@.skip(
                i + 1,
            ));
        }
        if str_eq(node.features[i].name.as_str(), name) {
            return Some(&node.features[i].implies);
        }
        i = i + 1;
    }
    None
}

} // verus!
