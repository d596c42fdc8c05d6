//! The dependency graph expander: walks the catalog from a root package,
//! activating features, deciding which optional edges are followed, and
//! flattening every reached package into a list of dependency identities.
//! A visited set keyed by `(name, version)` guards against cycles in the
//! edge graph, so the walk terminates on any catalog.

use vstd::prelude::*;
use crate::catalog::Catalog;
use crate::catalog::DepDecl;
use crate::catalog::DepKind;
use crate::catalog::FeatureDecl;
use crate::catalog::PackageNode;
use crate::catalog::node_key;
use crate::chars::has_prefix;
use crate::chars::views;
use crate::chars::str_eq;
use crate::chars::str_has_prefix;
use crate::chars::vec_contains_str;
use crate::chars::push_all;
use crate::chars::lemma_add_contains;
use crate::chars::lemma_prefix_transitive;
use crate::chars::lemma_prefix_index;
use crate::features::activated;
use crate::features::seeds;
use crate::features::resolve_features;
use crate::identity::Dependency;
use crate::identity::DepView;
use crate::order::deps_views;
use crate::order::has_key;
use crate::order::key_sorted_strict;
use crate::order::sort_deps;
use crate::order::dedup_deps;
use crate::versions::req_matches;
use crate::versions::req_matches_spec;
use vstd::seq_lib::seq_to_set_is_finite;
use vstd::set_lib::lemma_len_subset;

verus! {

/// A fatal inconsistency of the supplied catalog: expansion aborts on it.
#[derive(Debug)]
pub enum CatalogError {
    /// A requested root package has no catalog node of that name.
    MissingRoot { name: String },
    /// A followed edge has no catalog node matching its name and
    /// version requirement.
    MissingDependency { name: String, req: String },
}

/// Catalog node `p` satisfies an edge asking for `name` under requirement
/// `req`.
pub open spec fn spec_edge_matches(p: PackageNode, name: Seq<char>, req: Seq<char>) -> bool {
    p.name@ == name && req_matches_spec(req, p.version@)
}

/// Some catalog node satisfies the edge.
pub open spec fn has_match(cat: Seq<PackageNode>, name: Seq<char>, req: Seq<char>) -> bool {
    exists|i: int| 0 <= i < cat.len() && spec_edge_matches(#[trigger] cat[i], name, req)
}

/// Every `Normal` edge of every node can be resolved inside the catalog.
pub open spec fn closed(cat: Catalog) -> bool {
    forall|i: int, j: int|
        0 <= i < cat.packages@.len() && 0 <= j < cat.packages@[i].dependencies@.len()
            && (#[trigger] cat.packages@[i].dependencies@[j]).kind == DepKind::Normal
            ==> has_match(
            cat.packages@,
            cat.packages@[i].dependencies@[j].name@,
            cat.packages@[i].dependencies@[j].req@,
        )
}

/// An edge takes part in the walk: it is `Normal`, and, when optional, some
/// activated marker of the parent equals the dependency's name exactly.
pub open spec fn edge_included(d: DepDecl, fm: Seq<FeatureDecl>, sds: Seq<Seq<char>>) -> bool {
    d.kind == DepKind::Normal && (!d.optional || activated(fm, sds, d.name@))
}

/// The identity of some catalog node matching edge `d`, reached through that
/// edge, stands in `out`.
pub open spec fn child_emitted(cat: Catalog, d: DepDecl, out: Seq<Dependency>) -> bool {
    exists|m: int, i: int|
        0 <= m < out.len() && 0 <= i < cat.packages@.len() && spec_edge_matches(
            #[trigger] cat.packages@[i],
            d.name@,
            d.req@,
        ) && (#[trigger] out[m])@ == (DepView {
            name: cat.packages@[i].name@,
            version: cat.packages@[i].version@,
            source: d.source@,
        })
}

proof fn lemma_child_emitted_mono(cat: Catalog, d: DepDecl, a: Seq<Dependency>, b: Seq<Dependency>)
    requires
        a.is_prefix_of(b),
        child_emitted(cat, d, a),
    ensures
        child_emitted(cat, d, b),
{
    let (m, i) = choose|m: int, i: int|
        0 <= m < a.len() && 0 <= i < cat.packages@.len() && spec_edge_matches(
            #[trigger] cat.packages@[i],
            d.name@,
            d.req@,
        ) && (#[trigger] a[m])@ == (DepView {
            name: cat.packages@[i].name@,
            version: cat.packages@[i].version@,
            source: d.source@,
        });
    assert(b[m] == a[m]);
}

/// The visited-set entry: one expanded `(name, version)` key.
pub struct PkgKey {
    pub name: String,
    pub version: String,
}

/// The keys a visited list holds.
pub open spec fn keys_of(v: Seq<PkgKey>) -> Seq<(Seq<char>, Seq<char>)> {
    v.map_values(|k: PkgKey| (k.name@, k.version@))
}

/// A duplicate-free list of catalog keys is no longer than the catalog.
proof fn lemma_visited_bounded(cat: Catalog, v: Seq<PkgKey>)
    requires
        cat.wf(),
        keys_of(v).no_duplicates(),
        forall|m: int| 0 <= m < v.len() ==> cat.is_key(#[trigger] keys_of(v)[m]),
    ensures
        v.len() <= cat.packages@.len(),
{
    let ks = keys_of(v);
    let catkeys = cat.packages@.map_values(|p: PackageNode| node_key(p));
    assert forall|k: (Seq<char>, Seq<char>)| ks.to_set().contains(k) implies catkeys.to_set()
        .contains(k) by {
        let m = choose|m: int| 0 <= m < ks.len() && ks[m] == k;
        assert(cat.is_key(ks[m]));
        let i = choose|i: int|
            0 <= i < cat.packages@.len() && node_key(#[trigger] cat.packages@[i]) == k;
        assert(catkeys[i] == k);
        assert(catkeys.contains(k));
    }
    assert(ks.to_set().subset_of(catkeys.to_set()));
    ks.unique_seq_to_set();
    assert(catkeys.no_duplicates()) by {
        assert forall|i: int, j: int|
            0 <= i < catkeys.len() && 0 <= j < catkeys.len() && i != j implies catkeys[i]
            != catkeys[j] by {
            if i < j {
                assert(node_key(cat.packages@[i]) != node_key(cat.packages@[j]));
            } else {
                assert(node_key(cat.packages@[j]) != node_key(cat.packages@[i]));
            }
        }
    }
    catkeys.unique_seq_to_set();
    seq_to_set_is_finite(catkeys);
    lemma_len_subset(ks.to_set(), catkeys.to_set());
}

/// Executable test: has this `(name, version)` key been visited?
fn key_visited(visited: &Vec<PkgKey>, name: &str, version: &str) -> (r: bool)
    ensures
        r == keys_of(visited@).contains((name@, version@)),
{
    let mut m: usize = 0;
    while m < visited.len()
        invariant
            m <= visited@.len(),
            forall|q: int| 0 <= q < m ==> keys_of(visited@)[q] != (name@, version@),
        decreases visited@.len() - m,
    {
        if str_eq(visited[m].name.as_str(), name) && str_eq(
            visited[m].version.as_str(),
            version,
        ) {
            assert(keys_of(visited@)[m as int] == (name@, version@));
            return true;
        }
        m = m + 1;
    }
    false
}

/// Executable search for the first catalog node satisfying an edge.
fn find_package(cat: &Catalog, name: &str, req: &str) -> (r: Option<usize>)
    ensures
        match r {
            Some(i) => i < cat.packages@.len() && spec_edge_matches(
                cat.packages@[i as int],
                name@,
                req@,
            ),
            None => !has_match(cat.packages@, name@, req@),
        },
{
    let n = cat.packages.len();
    let mut i: usize = 0;
    while i < n
        invariant
            i <= n,
            n == cat.packages@.len(),
            forall|q: int|
                0 <= q < i ==> !spec_edge_matches(#[trigger] cat.packages@[q], name@, req@),
        decreases n - i,
    {
        if str_eq(cat.packages[i].name.as_str(), name) && req_matches(
            req,
            cat.packages[i].version.as_str(),
        ) {
            return Some(i);
        }
        i = i + 1;
    }
    None
}

/// Executable search for the first catalog node of a given name.
fn find_root(cat: &Catalog, name: &str) -> (r: Option<usize>)
    ensures
        match r {
            Some(i) => i < cat.packages@.len() && cat.packages@[i as int].name@ == name@,
            None => forall|q: int|
                0 <= q < cat.packages@.len() ==> (#[trigger] cat.packages@[q]).name@ != name@,
        },
{
    let n = cat.packages.len();
    let mut i: usize = 0;
    while i < n
        invariant
            i <= n,
            n == cat.packages@.len(),
            forall|q: int| 0 <= q < i ==> (#[trigger] cat.packages@[q]).name@ != name@,
        decreases n - i,
    {
        if str_eq(cat.packages[i].name.as_str(), name) {
            return Some(i);
        }
        i = i + 1;
    }
    None
}

/// `m` is a qualified marker for the dependency called `dn`.
pub open spec fn fwd_marker(dn: Seq<char>, m: Seq<char>) -> bool {
    has_prefix(m, dn.push('/'))
}

/// Marker `f` is forwarded to the edge `d`'s target: a qualified marker of
/// the parent's activation set stripped of its prefix, or one of the
/// features the edge itself requests.
pub open spec fn forwards(
    act: Seq<Seq<char>>,
    dn: Seq<char>,
    efs: Seq<Seq<char>>,
    f: Seq<char>,
) -> bool {
    ||| (exists|m: Seq<char>|
        #[trigger] act.contains(m) && fwd_marker(dn, m) && f == m.skip(dn.len() as int + 1))
    ||| efs.contains(f)
}

/// Compute the feature list forwarded along edge `d`, from the parent's
/// activation list `full`.
fn forward_features(full: &Vec<String>, d: &DepDecl) -> (r: Vec<String>)
    ensures
        forall|f: Seq<char>|
            #[trigger] views(r@).contains(f) <==> forwards(
                views(full@),
                d.name@,
                views(d.features@),
                f,
            ),
{
    let mut prefix = d.name.clone();
    prefix.append("/");
    proof {
        reveal_strlit("/");
        assert(prefix@ =~= d.name@.push('/'));
    }
    let plen = prefix.as_str().unicode_len();
    let mut r: Vec<String> = Vec::new();
    let mut i: usize = 0;
    while i < full.len()
        invariant
            i <= full@.len(),
            prefix@ == d.name@.push('/'),
            plen == d.name@.len() + 1,
            forall|q: int|
                0 <= q < r@.len() ==> forwards(
                    views(full@),
                    d.name@,
                    views(d.features@),
                    #[trigger] views(r@)[q],
                ),
            forall|mi: int|
                0 <= mi < i && fwd_marker(d.name@, #[trigger] views(full@)[mi]) ==> views(
                    r@,
                ).contains(views(full@)[mi].skip(d.name@.len() as int + 1)),
        decreases full@.len() - i,
    {
        let ghost r0 = views(r@);
        let m = &full[i];
        if str_has_prefix(m.as_str(), prefix.as_str()) {
            let mlen = m.as_str().unicode_len();
            let stripped = m.as_str().substring_char(plen, mlen).to_owned();
            proof {
                assert(m@.skip(plen as int) =~= m@.subrange(plen as int, mlen as int));
            }
            r.push(stripped);
            proof {
                assert(views(r@) =~= r0.push(stripped@));
                assert(views(full@)[i as int] == m@);
                assert(views(full@).contains(m@));
                assert(forwards(views(full@), d.name@, views(d.features@), stripped@));
                assert forall|q: int| 0 <= q < r@.len() implies forwards(
                    views(full@),
                    d.name@,
                    views(d.features@),
                    #[trigger] views(r@)[q],
                ) by {
                    if q < r0.len() {
                        assert(views(r@)[q] == r0[q]);
                    }
                }
                assert forall|mi: int|
                    0 <= mi < i + 1 && fwd_marker(d.name@, #[trigger] views(full@)[mi])
                    implies views(r@).contains(views(full@)[mi].skip(d.name@.len() as int + 1)) by {
                    if mi < i {
                        let f = views(full@)[mi].skip(d.name@.len() as int + 1);
                        assert(r0.contains(f));
                        let w = choose|w: int| 0 <= w < r0.len() && r0[w] == f;
                        assert(views(r@)[w] == f);
                    } else {
                        assert(views(r@)[r0.len() as int] == stripped@);
                    }
                }
            }
        } else {
            proof {
                assert(!fwd_marker(d.name@, views(full@)[i as int]));
            }
        }
        i = i + 1;
    }
    let ghost r1 = views(r@);
    push_all(&mut r, &d.features);
    proof {
        assert forall|f: Seq<char>| #[trigger] views(r@).contains(f) implies forwards(
            views(full@),
            d.name@,
            views(d.features@),
            f,
        ) by {
            lemma_add_contains(r1, views(d.features@), f);
            if r1.contains(f) {
                let q = choose|q: int| 0 <= q < r1.len() && r1[q] == f;
            }
        }
        assert forall|f: Seq<char>| forwards(
            views(full@),
            d.name@,
            views(d.features@),
            f,
        ) implies #[trigger] views(r@).contains(f) by {
            lemma_add_contains(r1, views(d.features@), f);
            if !views(d.features@).contains(f) {
                let m = choose|m: Seq<char>|
                    #[trigger] views(full@).contains(m) && fwd_marker(d.name@, m) && f
                        == m.skip(d.name@.len() as int + 1);
                let mi = choose|mi: int| 0 <= mi < views(full@).len() && views(full@)[mi] == m;
            }
        }
    }
    r
}

/// Node `j` satisfies some `Normal` edge declared by node `i`.
pub open spec fn normal_edge(cat: Seq<PackageNode>, i: int, j: int) -> bool {
    exists|e: int|
        0 <= e < cat[i].dependencies@.len() && (#[trigger] cat[i].dependencies@[e]).kind
            == DepKind::Normal && spec_edge_matches(
            cat[j],
            cat[i].dependencies@[e].name@,
            cat[i].dependencies@[e].req@,
        )
}

/// `p` is a chain of catalog indices linked by `Normal` edges.
pub open spec fn normal_path(cat: Seq<PackageNode>, p: Seq<int>) -> bool {
    &&& forall|m: int| 0 <= m < p.len() ==> 0 <= #[trigger] p[m] < cat.len()
    &&& forall|m: int| 0 <= m < p.len() - 1 ==> normal_edge(cat, #[trigger] p[m], p[m + 1])
}

/// Node `j` lies in the `Normal`-edge closure of node `i`.
pub open spec fn normal_reaches(cat: Seq<PackageNode>, i: int, j: int) -> bool {
    exists|p: Seq<int>|
        #[trigger] normal_path(cat, p) && p.len() >= 1 && p[0] == i && p.last() == j
}

/// `d` names the `(name, version)` of a node in the closure of node `from`.
pub open spec fn reached_entry(cat: Seq<PackageNode>, from: int, d: DepView) -> bool {
    exists|jn: int|
        0 <= jn < cat.len() && normal_reaches(cat, from, jn) && ((#[trigger] cat[jn]).name@)
            == d.name && cat[jn].version@ == d.version
}

/// `d` names a node in the closure of a node named by the request list.
pub open spec fn reached_from_roots(cat: Catalog, packages: Seq<String>, d: DepView) -> bool {
    exists|rt: int|
        0 <= rt < cat.packages@.len() && views(packages).contains(
            (#[trigger] cat.packages@[rt]).name@,
        ) && reached_entry(cat.packages@, rt, d)
}

proof fn lemma_reaches_self(cat: Seq<PackageNode>, i: int)
    requires
        0 <= i < cat.len(),
    ensures
        normal_reaches(cat, i, i),
{
    let p = seq![i];
    assert(normal_path(cat, p));
    assert(p[0] == i && p.last() == i);
}

proof fn lemma_reaches_step(cat: Seq<PackageNode>, i: int, j: int, k: int)
    requires
        0 <= i < cat.len(),
        normal_edge(cat, i, j),
        normal_reaches(cat, j, k),
    ensures
        normal_reaches(cat, i, k),
{
    let p = choose|p: Seq<int>|
        #[trigger] normal_path(cat, p) && p.len() >= 1 && p[0] == j && p.last() == k;
    let q = seq![i].add(p);
    assert(normal_path(cat, q)) by {
        assert forall|m: int| 0 <= m < q.len() implies 0 <= #[trigger] q[m] < cat.len() by {
            if m > 0 {
                assert(q[m] == p[m - 1]);
            }
        }
        assert forall|m: int| 0 <= m < q.len() - 1 implies normal_edge(
            cat,
            #[trigger] q[m],
            q[m + 1],
        ) by {
            if m == 0 {
                assert(q[0] == i && q[1] == p[0]);
            } else {
                assert(q[m] == p[m - 1] && q[m + 1] == p[m]);
                assert(normal_edge(cat, p[m - 1], p[m]));
            }
        }
    }
    assert(q.last() == k);
    assert(q[0] == i);
}

/// Expand the catalog node at `idx`, reached through `source`, with the
/// given explicit features. The node's identity is always appended to
/// `out`; if the node's key is new, every included `Normal` edge is
/// resolved and its target expanded in turn. Fails exactly on a followed
/// edge that no catalog node satisfies.
pub fn expand(
    cat: &Catalog,
    idx: usize,
    source: &str,
    explicit: &Vec<String>,
    uses_default_features: bool,
    visited: &mut Vec<PkgKey>,
    out: &mut Vec<Dependency>,
) -> (r: Result<(), CatalogError>)
    requires
        cat.wf(),
        idx < cat.packages@.len(),
        keys_of(old(visited)@).no_duplicates(),
        forall|m: int|
            0 <= m < old(visited)@.len() ==> cat.is_key(#[trigger] keys_of(old(visited)@)[m]),
    ensures
        old(out)@.is_prefix_of(final(out)@),
        final(out)@.len() > old(out)@.len(),
        final(out)@[old(out)@.len() as int]@ == (DepView {
            name: cat.packages@[idx as int].name@,
            version: cat.packages@[idx as int].version@,
            source: source@,
        }),
        forall|m: int|
            old(out)@.len() <= m < final(out)@.len() ==> cat.is_key(
                (((#[trigger] final(out)@[m])@).name, final(out)@[m]@.version),
            ),
        forall|m: int|
            old(out)@.len() <= m < final(out)@.len() ==> reached_entry(
                cat.packages@,
                idx as int,
                (#[trigger] final(out)@[m])@,
            ),
        keys_of(final(visited)@).no_duplicates(),
        forall|m: int|
            0 <= m < final(visited)@.len() ==> cat.is_key(#[trigger] keys_of(final(visited)@)[m]),
        old(visited)@.is_prefix_of(final(visited)@),
        final(visited)@.len() >= old(visited)@.len(),
        r matches Err(e) ==> e matches CatalogError::MissingDependency { name, req }
            && !has_match(cat.packages@, name@, req@),
        closed(*cat) ==> r is Ok,
        (r is Ok && !keys_of(old(visited)@).contains(node_key(cat.packages@[idx as int])))
            ==> forall|j: int|
            0 <= j < cat.packages@[idx as int].dependencies@.len() && edge_included(
                #[trigger] cat.packages@[idx as int].dependencies@[j],
                cat.packages@[idx as int].features@,
                seeds(
                    cat.packages@[idx as int].features@,
                    views(explicit@),
                    uses_default_features,
                ),
            ) ==> child_emitted(*cat, cat.packages@[idx as int].dependencies@[j], final(out)@),
        keys_of(old(visited)@).contains(node_key(cat.packages@[idx as int])) ==> final(out)@.len()
            == old(out)@.len() + 1 && final(visited)@ == old(visited)@,
    decreases cat.packages@.len() - visited@.len(),
{
    proof {
        lemma_visited_bounded(*cat, visited@);
    }
    let ghost fm = cat.packages@[idx as int].features@;
    let ghost sds = seeds(fm, views(explicit@), uses_default_features);
    let name = cat.packages[idx].name.clone();
    let version = cat.packages[idx].version.clone();
    out.push(Dependency { name: name.clone(), version: version.clone(), source: source.to_owned() });
    proof {
        assert(out@ =~= old(out)@.push(out@[old(out)@.len() as int]));
        assert(out@[old(out)@.len() as int]@ == (DepView {
            name: cat.packages@[idx as int].name@,
            version: cat.packages@[idx as int].version@,
            source: source@,
        }));
        assert(cat.is_key((cat.packages@[idx as int].name@, cat.packages@[idx as int].version@)))
            by {
            assert(node_key(cat.packages@[idx as int]) == (
                cat.packages@[idx as int].name@,
                cat.packages@[idx as int].version@,
            ));
        }
        assert(reached_entry(cat.packages@, idx as int, out@[old(out)@.len() as int]@)) by {
            lemma_reaches_self(cat.packages@, idx as int);
        }
    }
    let ghost k0 = node_key(cat.packages@[idx as int]);
    if key_visited(visited, name.as_str(), version.as_str()) {
        return Ok(());
    }
    visited.push(PkgKey { name: name.clone(), version: version.clone() });
    let ghost visited1 = visited@;
    proof {
        let ks0 = keys_of(old(visited)@);
        assert(keys_of(visited1) =~= ks0.push(k0));
        assert(!ks0.contains(k0));
        assert forall|p: int, q: int|
            0 <= p < keys_of(visited1).len() && 0 <= q < keys_of(visited1).len() && p != q
            implies keys_of(visited1)[p] != keys_of(visited1)[q] by {
            if p < ks0.len() && q < ks0.len() {
            } else if q == ks0.len() {
                if keys_of(visited1)[p] == k0 {
                    assert(ks0[p] == k0);
                    assert(ks0.contains(k0));
                }
            } else if p == ks0.len() {
                if keys_of(visited1)[q] == k0 {
                    assert(ks0[q] == k0);
                    assert(ks0.contains(k0));
                }
            }
        }
        assert(keys_of(visited1).no_duplicates());
        assert forall|m: int| 0 <= m < visited1.len() implies cat.is_key(
            #[trigger] keys_of(visited1)[m],
        ) by {
            if m == visited1.len() - 1 {
                assert(keys_of(visited1)[m] == k0);
            } else {
                assert(keys_of(visited1)[m] == keys_of(old(visited)@)[m]);
            }
        }
    }
    let full = resolve_features(&cat.packages[idx], explicit, uses_default_features);
    let ghost out_entry = out@;
    let ndeps = cat.packages[idx].dependencies.len();
    let mut j: usize = 0;
    while j < ndeps
        invariant
            cat.wf(),
            idx < cat.packages@.len(),
            ndeps == cat.packages@[idx as int].dependencies@.len(),
            fm == cat.packages@[idx as int].features@,
            sds == seeds(fm, views(explicit@), uses_default_features),
            forall|f: Seq<char>| #[trigger] views(full@).contains(f) <==> activated(fm, sds, f),
            keys_of(visited@).no_duplicates(),
            forall|m: int|
                0 <= m < visited@.len() ==> cat.is_key(#[trigger] keys_of(visited@)[m]),
            visited1.is_prefix_of(visited@),
            visited1.len() == old(visited)@.len() + 1,
            old(visited)@.is_prefix_of(visited1),
            k0 == node_key(cat.packages@[idx as int]),
            !keys_of(old(visited)@).contains(k0),
            out_entry.is_prefix_of(out@),
            out_entry.len() == old(out)@.len() + 1,
            old(out)@.is_prefix_of(out_entry),
            out_entry[old(out)@.len() as int]@ == (DepView {
                name: cat.packages@[idx as int].name@,
                version: cat.packages@[idx as int].version@,
                source: source@,
            }),
            forall|m: int|
                old(out)@.len() <= m < out@.len() ==> cat.is_key(
                    (((#[trigger] out@[m])@).name, out@[m]@.version),
                ),
            forall|m: int|
                old(out)@.len() <= m < out@.len() ==> reached_entry(
                    cat.packages@,
                    idx as int,
                    (#[trigger] out@[m])@,
                ),
            forall|jj: int|
                0 <= jj < j && edge_included(
                    #[trigger] cat.packages@[idx as int].dependencies@[jj],
                    fm,
                    sds,
                ) ==> child_emitted(*cat, cat.packages@[idx as int].dependencies@[jj], out@),
        decreases ndeps - j,
    {
        let ghost out_iter = out@;
        let kind_normal = cat.packages[idx].dependencies[j].kind == DepKind::Normal;
        let mut follow = kind_normal;
        if kind_normal && cat.packages[idx].dependencies[j].optional {
            follow = vec_contains_str(&full, cat.packages[idx].dependencies[j].name.as_str());
        }
        proof {
            assert(follow == edge_included(cat.packages@[idx as int].dependencies@[j as int], fm, sds));
        }
        if follow {
            let fwd = forward_features(&full, &cat.packages[idx].dependencies[j]);
            match find_package(
                cat,
                cat.packages[idx].dependencies[j].name.as_str(),
                cat.packages[idx].dependencies[j].req.as_str(),
            ) {
                None => {
                    proof {
                        if closed(*cat) {
                            assert(has_match(
                                cat.packages@,
                                cat.packages@[idx as int].dependencies@[j as int].name@,
                                cat.packages@[idx as int].dependencies@[j as int].req@,
                            ));
                        }
                        lemma_prefix_transitive(old(out)@, out_entry, out@);
                        lemma_prefix_index(out_entry, out@, old(out)@.len() as int);
                        lemma_prefix_transitive(old(visited)@, visited1, visited@);
                    }
                    return Err(CatalogError::MissingDependency {
                        name: cat.packages[idx].dependencies[j].name.clone(),
                        req: cat.packages[idx].dependencies[j].req.clone(),
                    });
                },
                Some(ci) => {
                    let ghost out_before = out@;
                    let ghost v_before = visited@;
                    proof {
                        lemma_visited_bounded(*cat, visited@);
                    }
                    let child = expand(
                        cat,
                        ci,
                        cat.packages[idx].dependencies[j].source.as_str(),
                        &fwd,
                        cat.packages[idx].dependencies[j].uses_default_features,
                        visited,
                        out,
                    );
                    proof {
                        lemma_prefix_transitive(visited1, v_before, visited@);
                        lemma_prefix_transitive(out_entry, out_before, out@);
                        lemma_prefix_transitive(old(out)@, out_entry, out@);
                        lemma_prefix_index(out_entry, out@, old(out)@.len() as int);
                        assert forall|m: int|
                            old(out)@.len() <= m < out@.len() implies cat.is_key(
                            (((#[trigger] out@[m])@).name, out@[m]@.version),
                        ) by {
                            if m < out_before.len() {
                                lemma_prefix_index(out_before, out@, m);
                            }
                        }
                        assert(normal_edge(cat.packages@, idx as int, ci as int)) by {
                            assert((cat.packages@[idx as int].dependencies@[j as int]).kind
                                == DepKind::Normal);
                            assert(spec_edge_matches(
                                cat.packages@[ci as int],
                                cat.packages@[idx as int].dependencies@[j as int].name@,
                                cat.packages@[idx as int].dependencies@[j as int].req@,
                            ));
                        }
                        assert forall|m: int|
                            old(out)@.len() <= m < out@.len() implies reached_entry(
                            cat.packages@,
                            idx as int,
                            (#[trigger] out@[m])@,
                        ) by {
                            if m < out_before.len() {
                                lemma_prefix_index(out_before, out@, m);
                            } else {
                                assert(reached_entry(cat.packages@, ci as int, out@[m]@));
                                let jn = choose|jn: int|
                                    0 <= jn < cat.packages@.len() && normal_reaches(
                                        cat.packages@,
                                        ci as int,
                                        jn,
                                    ) && ((#[trigger] cat.packages@[jn]).name@)
                                        == out@[m]@.name && cat.packages@[jn].version@
                                        == out@[m]@.version;
                                lemma_reaches_step(cat.packages@, idx as int, ci as int, jn);
                            }
                        }
                    }
                    match child {
                        Err(e) => {
                            proof {
                                lemma_prefix_transitive(old(visited)@, visited1, visited@);
                            }
                            return Err(e);
                        },
                        Ok(()) => {},
                    }
                    proof {
                        let d = cat.packages@[idx as int].dependencies@[j as int];
                        assert(out@[out_before.len() as int]@ == (DepView {
                            name: cat.packages@[ci as int].name@,
                            version: cat.packages@[ci as int].version@,
                            source: d.source@,
                        }));
                        assert(child_emitted(*cat, d, out@));
                        assert forall|jj: int|
                            0 <= jj < j + 1 && edge_included(
                                #[trigger] cat.packages@[idx as int].dependencies@[jj],
                                fm,
                                sds,
                            ) implies child_emitted(
                            *cat,
                            cat.packages@[idx as int].dependencies@[jj],
                            out@,
                        ) by {
                            if jj < j {
                                lemma_child_emitted_mono(
                                    *cat,
                                    cat.packages@[idx as int].dependencies@[jj],
                                    out_iter,
                                    out@,
                                );
                            }
                        }
                    }
                },
            }
        }
        j = j + 1;
    }
    proof {
        lemma_prefix_transitive(old(out)@, out_entry, out@);
        lemma_prefix_index(out_entry, out@, old(out)@.len() as int);
        lemma_prefix_transitive(old(visited)@, visited1, visited@);
    }
    Ok(())
}


/// Some entry of the list carries this package name.
pub open spec fn name_present(list: Seq<Dependency>, name: Seq<char>) -> bool {
    exists|m: int| 0 <= m < list.len() && ((#[trigger] list[m])@).name == name
}

/// Some catalog node carries this package name.
pub open spec fn root_present(cat: Catalog, name: Seq<char>) -> bool {
    exists|i: int| 0 <= i < cat.packages@.len() && ((#[trigger] cat.packages@[i]).name@) == name
}

/// Resolve the full build-dependency list: expand every requested root
/// package (default features on, plus the supplied explicit features), then
/// sort the accumulated identities lexicographically by name and version and
/// collapse entries sharing a `(name, version)` key. Fails exactly when a
/// requested root is absent from the catalog or a followed edge cannot be
/// resolved in it.
pub fn get_dependencies(
    cat: &Catalog,
    packages: &Vec<String>,
    features: &Vec<String>,
) -> (r: Result<Vec<Dependency>, CatalogError>)
    requires
        cat.wf(),
    ensures
        r matches Ok(list) ==> {
            &&& key_sorted_strict(deps_views(list@))
            &&& forall|m: int|
                0 <= m < list@.len() ==> cat.is_key(
                    (((#[trigger] list@[m])@).name, list@[m]@.version),
                )
            &&& forall|m: int|
                0 <= m < list@.len() ==> reached_from_roots(
                    *cat,
                    packages@,
                    (#[trigger] list@[m])@,
                )
            &&& forall|ri: int|
                0 <= ri < packages@.len() ==> name_present(list@, (#[trigger] packages@[ri])@)
        },
        r matches Err(e) ==> match e {
            CatalogError::MissingRoot { name } => views(packages@).contains(name@) && (forall|
                q: int,
            |
                0 <= q < cat.packages@.len() ==> (#[trigger] cat.packages@[q]).name@ != name@),
            CatalogError::MissingDependency { name, req } => !has_match(
                cat.packages@,
                name@,
                req@,
            ),
        },
        (closed(*cat) && (forall|ri: int|
            0 <= ri < packages@.len() ==> root_present(*cat, (#[trigger] packages@[ri])@)))
            ==> r is Ok,
{
    let mut raw: Vec<Dependency> = Vec::new();
    let mut pi: usize = 0;
    while pi < packages.len()
        invariant
            cat.wf(),
            pi <= packages@.len(),
            forall|m: int|
                0 <= m < raw@.len() ==> cat.is_key(
                    (((#[trigger] raw@[m])@).name, raw@[m]@.version),
                ),
            forall|m: int|
                0 <= m < raw@.len() ==> reached_from_roots(
                    *cat,
                    packages@,
                    (#[trigger] raw@[m])@,
                ),
            forall|ri: int| 0 <= ri < pi ==> name_present(raw@, (#[trigger] packages@[ri])@),
        decreases packages@.len() - pi,
    {
        let mut visited: Vec<PkgKey> = Vec::new();
        match find_root(cat, packages[pi].as_str()) {
            None => {
                proof {
                    assert(views(packages@)[pi as int] == packages@[pi as int]@);
                }
                return Err(CatalogError::MissingRoot { name: packages[pi].clone() });
            },
            Some(root) => {
                let ghost raw0 = raw@;
                let res = expand(cat, root, "local package", features, true, &mut visited, &mut raw);
                match res {
                    Err(e) => {
                        return Err(e);
                    },
                    Ok(()) => {},
                }
                proof {
                    assert(raw@[raw0.len() as int]@.name == packages@[pi as int]@);
                    assert forall|m: int| 0 <= m < raw@.len() implies cat.is_key(
                        (((#[trigger] raw@[m])@).name, raw@[m]@.version),
                    ) by {
                        if m < raw0.len() {
                            lemma_prefix_index(raw0, raw@, m);
                        }
                    }
                    assert(views(packages@).contains(cat.packages@[root as int].name@)) by {
                        assert(views(packages@)[pi as int] == packages@[pi as int]@);
                    }
                    assert forall|m: int| 0 <= m < raw@.len() implies reached_from_roots(
                        *cat,
                        packages@,
                        (#[trigger] raw@[m])@,
                    ) by {
                        if m < raw0.len() {
                            lemma_prefix_index(raw0, raw@, m);
                        } else {
                            assert(reached_entry(cat.packages@, root as int, raw@[m]@));
                        }
                    }
                    assert forall|ri: int| 0 <= ri < pi + 1 implies name_present(
                        raw@,
                        (#[trigger] packages@[ri])@,
                    ) by {
                        if ri < pi {
                            let m = choose|m: int|
                                0 <= m < raw0.len() && ((#[trigger] raw0[m])@).name
                                    == packages@[ri]@;
                            lemma_prefix_index(raw0, raw@, m);
                            assert(((raw@[m])@).name == packages@[ri]@);
                        } else {
                            assert(((raw@[raw0.len() as int])@).name == packages@[ri]@);
                        }
                    }
                }
            },
        }
        pi = pi + 1;
    }
    let sorted = sort_deps(&raw);
    let deduped = dedup_deps(&sorted);
    proof {
        assert forall|m: int| 0 <= m < deduped@.len() implies cat.is_key(
            (((#[trigger] deduped@[m])@).name, deduped@[m]@.version),
        ) by {
            let y = deps_views(deduped@)[m];
            assert(deps_views(deduped@).contains(y));
            assert(deps_views(sorted@).contains(y));
            assert(deps_views(raw@).contains(y));
            let w = choose|w: int| 0 <= w < deps_views(raw@).len() && deps_views(raw@)[w] == y;
            assert((raw@[w])@ == y);
        }
        assert forall|m: int| 0 <= m < deduped@.len() implies reached_from_roots(
            *cat,
            packages@,
            (#[trigger] deduped@[m])@,
        ) by {
            let y = deps_views(deduped@)[m];
            assert(deps_views(deduped@).contains(y));
            assert(deps_views(sorted@).contains(y));
            assert(deps_views(raw@).contains(y));
            let w = choose|w: int| 0 <= w < deps_views(raw@).len() && deps_views(raw@)[w] == y;
            assert((raw@[w])@ == y);
        }
        assert forall|ri: int| 0 <= ri < packages@.len() implies name_present(
            deduped@,
            (#[trigger] packages@[ri])@,
        ) by {
            assert(name_present(raw@, packages@[ri]@));
            let m = choose|m: int|
                0 <= m < raw@.len() && ((#[trigger] raw@[m])@).name == packages@[ri]@;
            let x = (raw@[m])@;
            assert(deps_views(raw@)[m] == x);
            assert(deps_views(raw@).contains(x));
            assert(deps_views(sorted@).contains(x));
            let w = choose|w: int|
                0 <= w < deps_views(sorted@).len() && deps_views(sorted@)[w] == x;
            assert(has_key(deps_views(sorted@), x.name, x.version));
            assert(has_key(deps_views(deduped@), x.name, x.version));
            let m2 = choose|m2: int|
                0 <= m2 < deps_views(deduped@).len() && (#[trigger] deps_views(deduped@)[m2]).name
                    == x.name && deps_views(deduped@)[m2].version == x.version;
            assert(((deduped@[m2])@).name == packages@[ri]@);
        }
    }
    Ok(deduped)
}

} // verus!
