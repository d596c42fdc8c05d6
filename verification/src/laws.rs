//! Laws relating the feature resolver, the edge-inclusion rule and the
//! feature forwarding of the expander, stated over the same spec functions
//! that the executable contracts use.

use vstd::prelude::*;
use crate::catalog::DepDecl;
use crate::catalog::DepKind;
use crate::catalog::FeatureDecl;
use crate::catalog::feature_lookup;
use crate::chars::views;
use crate::expand::edge_included;
use crate::expand::forwards;
use crate::expand::fwd_marker;
use crate::features::activated;
use crate::features::lemma_seed_activated;
use crate::features::seeds;

verus! {

/// An optional `Normal` edge is followed if and only if some activated
/// marker of its package equals the dependency's name exactly.
pub proof fn lemma_optional_dependency_gate(
    d: DepDecl,
    fm: Seq<FeatureDecl>,
    sds: Seq<Seq<char>>,
)
    requires
        d.kind == DepKind::Normal,
        d.optional,
    ensures
        edge_included(d, fm, sds) <==> activated(fm, sds, d.name@),
{
}

/// A qualified marker `"<dep>/<feat>"` in a package's activation set is
/// forwarded along the edge to the dependency of that name, and `feat` then
/// stands in the dependency's own activation set: `act` is the parent's
/// activation list, `fwd` the feature list forwarded along edge `d`, both
/// as their contracts characterize them.
pub proof fn lemma_qualified_feature_threads(
    fm_p: Seq<FeatureDecl>,
    sds_p: Seq<Seq<char>>,
    act: Seq<Seq<char>>,
    d: DepDecl,
    fwd: Seq<Seq<char>>,
    fm_d: Seq<FeatureDecl>,
    uses_default_features: bool,
    feat: Seq<char>,
)
    requires
        forall|f: Seq<char>| #[trigger] act.contains(f) <==> activated(fm_p, sds_p, f),
        forall|f: Seq<char>|
            #[trigger] fwd.contains(f) <==> forwards(act, d.name@, views(d.features@), f),
        activated(fm_p, sds_p, d.name@.push('/').add(feat)),
    ensures
        activated(fm_d, seeds(fm_d, fwd, uses_default_features), feat),
{
    let m = d.name@.push('/').add(feat);
    assert(act.contains(m));
    assert(fwd_marker(d.name@, m)) by {
        assert(m.subrange(0, d.name@.len() as int + 1) =~= d.name@.push('/'));
    }
    assert(m.skip(d.name@.len() as int + 1) =~= feat);
    assert(forwards(act, d.name@, views(d.features@), feat));
    assert(fwd.contains(feat));
    let sds_d = seeds(fm_d, fwd, uses_default_features);
    assert(sds_d.contains(feat)) by {
        let w = choose|w: int| 0 <= w < fwd.len() && fwd[w] == feat;
        if uses_default_features && feature_lookup(fm_d, "default"@) is Some {
            assert(sds_d[w] == feat);
        } else {
            assert(sds_d[w] == feat);
        }
    }
    lemma_seed_activated(fm_d, sds_d, feat);
}


/// A non-optional edge's part in the walk does not depend on features: only
/// its kind decides. With no optional dependencies anywhere, expansion is
/// feature-independent.
pub proof fn lemma_required_edges_ignore_features(
    d: DepDecl,
    fm: Seq<FeatureDecl>,
    sds1: Seq<Seq<char>>,
    sds2: Seq<Seq<char>>,
)
    requires
        !d.optional,
    ensures
        edge_included(d, fm, sds1) == edge_included(d, fm, sds2),
        edge_included(d, fm, sds1) == (d.kind == DepKind::Normal),
{
}

} // verus!

