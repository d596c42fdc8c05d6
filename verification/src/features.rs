//! The feature resolver: computes, for one package, the complete set of
//! activated feature markers from an explicit request list and a
//! default-features flag. A marker without the qualifier `/` that names a
//! declared feature implies that feature's own markers, transitively; a
//! qualified marker (`dep/feat`) is recorded as-is for the child expansion;
//! an unknown bare marker is recorded as a plain activation marker.

use vstd::prelude::*;
use crate::catalog::FeatureDecl;
use crate::catalog::PackageNode;
use crate::catalog::feature_lookup;
use crate::catalog::lookup_feature;
use crate::chars::views;
use crate::chars::contains_char;
use crate::chars::vec_contains_str;
use crate::chars::push_all;
use crate::chars::lemma_push_contains;
use crate::chars::lemma_drop_last_contains;
use crate::chars::lemma_add_contains;

verus! {

/// Feature `g` of this package implies marker `h`.
pub open spec fn feature_implies(fm: Seq<FeatureDecl>, g: Seq<char>, h: Seq<char>) -> bool {
    feature_lookup(fm, g) matches Some(l) && l.contains(h)
}

/// The seed markers of one resolution: the explicit request list, plus the
/// markers implied by the `default` feature when default features are on.
pub open spec fn seeds(fm: Seq<FeatureDecl>, explicit: Seq<Seq<char>>, use_default: bool) -> Seq<
    Seq<char>,
> {
    if use_default && feature_lookup(fm, "default"@) is Some {
        explicit.add(feature_lookup(fm, "default"@)->Some_0)
    } else {
        explicit
    }
}

/// Marker `f` follows from the seeds in at most `n` implication steps.
pub open spec fn derivable(
    fm: Seq<FeatureDecl>,
    sds: Seq<Seq<char>>,
    f: Seq<char>,
    n: nat,
) -> bool
    decreases n,
{
    ||| sds.contains(f)
    ||| (n > 0 && exists|g: Seq<char>|
        derivable(fm, sds, g, (n - 1) as nat) && !g.contains('/')
            && #[trigger] feature_implies(fm, g, f))
}

/// The Feature Activation Set, as a predicate: every marker derivable from
/// the seeds in any number of steps.
pub open spec fn activated(fm: Seq<FeatureDecl>, sds: Seq<Seq<char>>, f: Seq<char>) -> bool {
    exists|n: nat| derivable(fm, sds, f, n)
}

/// Every seed marker is activated.
pub proof fn lemma_seed_activated(fm: Seq<FeatureDecl>, sds: Seq<Seq<char>>, f: Seq<char>)
    requires
        sds.contains(f),
    ensures
        activated(fm, sds, f),
{
    assert(derivable(fm, sds, f, 0));
}

/// One implication step out of the activation set stays inside it.
pub proof fn lemma_activated_step(
    fm: Seq<FeatureDecl>,
    sds: Seq<Seq<char>>,
    g: Seq<char>,
    f: Seq<char>,
)
    requires
        activated(fm, sds, g),
        !g.contains('/'),
        feature_implies(fm, g, f),
    ensures
        activated(fm, sds, f),
{
    let n = choose|n: nat| derivable(fm, sds, g, n);
    let m: nat = n + 1;
    assert(derivable(fm, sds, g, (m - 1) as nat));
    assert(derivable(fm, sds, f, m));
}

/// A collection that holds the seeds and is closed under implication steps
/// holds the whole activation set.
pub proof fn lemma_closed_covers(
    fm: Seq<FeatureDecl>,
    sds: Seq<Seq<char>>,
    outv: Seq<Seq<char>>,
    f: Seq<char>,
    n: nat,
)
    requires
        forall|x: Seq<char>| sds.contains(x) ==> outv.contains(x),
        forall|g: Seq<char>, h: Seq<char>|
            outv.contains(g) && !g.contains('/') && #[trigger] feature_implies(fm, g, h)
                ==> outv.contains(h),
        derivable(fm, sds, f, n),
    ensures
        outv.contains(f),
    decreases n,
{
    if sds.contains(f) {
    } else {
        assert(n > 0);
        let g = choose|g: Seq<char>|
            derivable(fm, sds, g, (n - 1) as nat) && !g.contains('/')
                && #[trigger] feature_implies(fm, g, f);
        lemma_closed_covers(fm, sds, outv, g, (n - 1) as nat);
    }
}

/// How many declared features are not yet in `seen`: the termination measure
/// of the resolver's work list.
pub open spec fn unseen_count(fm: Seq<FeatureDecl>, seen: Seq<Seq<char>>) -> nat
    decreases fm.len(),
{
    if fm.len() == 0 {
        0
    } else {
        unseen_count(fm.drop_first(), seen) + (if seen.contains(fm[0].name@) {
            0nat
        } else {
            1nat
        })
    }
}

proof fn lemma_unseen_mono(fm: Seq<FeatureDecl>, seen: Seq<Seq<char>>, x: Seq<char>)
    ensures
        unseen_count(fm, seen.push(x)) <= unseen_count(fm, seen),
    decreases fm.len(),
{
    if fm.len() > 0 {
        lemma_unseen_mono(fm.drop_first(), seen, x);
        lemma_push_contains(seen, x, fm[0].name@);
    }
}

proof fn lemma_unseen_strict(fm: Seq<FeatureDecl>, seen: Seq<Seq<char>>, x: Seq<char>)
    requires
        feature_lookup(fm, x) is Some,
        !seen.contains(x),
    ensures
        unseen_count(fm, seen.push(x)) < unseen_count(fm, seen),
    decreases fm.len(),
{
    lemma_push_contains(seen, x, fm[0].name@);
    if fm[0].name@ == x {
        lemma_unseen_mono(fm.drop_first(), seen, x);
    } else {
        lemma_unseen_strict(fm.drop_first(), seen, x);
    }
}

/// Resolve the Feature Activation Set of `node`: the returned list holds a
/// marker if and only if that marker is activated — a seed, or implied,
/// transitively, by an activated unqualified feature of the package.
/// Each declared feature is expanded at most once, so resolution terminates
/// even on a cyclic feature declaration.
pub fn resolve_features(
    node: &PackageNode,
    explicit: &Vec<String>,
    uses_default_features: bool,
) -> (r: Vec<String>)
    ensures
        forall|f: Seq<char>|
            #[trigger] views(r@).contains(f) <==> activated(
                node.features@,
                seeds(node.features@, views(explicit@), uses_default_features),
                f,
            ),
{
    let ghost fm = node.features@;
    let ghost sds = seeds(node.features@, views(explicit@), uses_default_features);
    let mut stack: Vec<String> = Vec::new();
    push_all(&mut stack, explicit);
    if uses_default_features {
        match lookup_feature(node, "default") {
            Some(list) => {
                push_all(&mut stack, list);
            },
            None => {},
        }
    }
    proof {
        assert(views(stack@) =~= sds);
    }
    let mut out: Vec<String> = Vec::new();
    let mut seen: Vec<String> = Vec::new();
    proof {
        assert forall|f: Seq<char>| #[trigger] views(stack@).contains(f) implies activated(
            fm,
            sds,
            f,
        ) by {
            lemma_seed_activated(fm, sds, f);
        }
    }
    while stack.len() > 0
        invariant
            fm == node.features@,
            sds == seeds(node.features@, views(explicit@), uses_default_features),
            forall|f: Seq<char>| #[trigger] views(out@).contains(f) ==> activated(fm, sds, f),
            forall|f: Seq<char>| #[trigger] views(stack@).contains(f) ==> activated(fm, sds, f),
            forall|f: Seq<char>|
                sds.contains(f) ==> views(out@).contains(f) || views(stack@).contains(f),
            forall|g: Seq<char>, h: Seq<char>|
                views(seen@).contains(g) && #[trigger] feature_implies(fm, g, h) ==> views(
                    out@,
                ).contains(h) || views(stack@).contains(h),
            forall|f: Seq<char>|
                #[trigger] views(out@).contains(f) && !f.contains('/') && feature_lookup(
                    fm,
                    f,
                ) is Some ==> views(seen@).contains(f),
        decreases unseen_count(fm, views(seen@)), stack@.len(),
    {
        let ghost stack0 = views(stack@);
        let ghost out0 = views(out@);
        let ghost seen0 = views(seen@);
        let ghost mut pushed: Seq<Seq<char>> = Seq::<Seq<char>>::empty();
        let f = stack.pop().unwrap();
        proof {
            assert(stack0[stack0.len() - 1] == f@);
            assert(stack0.contains(f@));
            assert(views(stack@) =~= stack0.drop_last());
        }
        let ghost stack1 = views(stack@);
        let has_slash = contains_char(f.as_str(), '/');
        if !has_slash {
            let already = vec_contains_str(&seen, f.as_str());
            if !already {
                match lookup_feature(node, f.as_str()) {
                    Some(list) => {
                        seen.push(f.clone());
                        proof {
                            assert(views(seen@) =~= seen0.push(f@));
                            lemma_unseen_strict(fm, seen0, f@);
                            pushed = views(list@);
                        }
                        push_all(&mut stack, list);
                    },
                    None => {},
                }
            }
        }
        out.push(f);
        proof {
            let out1 = views(out@);
            let stack2 = views(stack@);
            let seen1 = views(seen@);
            assert(out1 =~= out0.push(f@));
            assert(stack2 =~= stack1.add(pushed));
            // every marker pushed in this round is one step from f
            assert(forall|h: Seq<char>| pushed.contains(h) ==> !f@.contains('/')
                && feature_implies(fm, f@, h));
            // everything recorded or still queued is activated
            assert forall|y: Seq<char>| #[trigger] out1.contains(y) implies activated(
                fm,
                sds,
                y,
            ) by {
                lemma_push_contains(out0, f@, y);
            }
            assert forall|y: Seq<char>| #[trigger] stack2.contains(y) implies activated(
                fm,
                sds,
                y,
            ) by {
                lemma_add_contains(stack1, pushed, y);
                if stack1.contains(y) {
                    lemma_drop_last_contains(stack0, y);
                } else {
                    lemma_activated_step(fm, sds, f@, y);
                }
            }
            // seeds stay covered
            assert forall|y: Seq<char>| sds.contains(y) implies out1.contains(y)
                || stack2.contains(y) by {
                lemma_push_contains(out0, f@, y);
                if stack0.contains(y) {
                    lemma_drop_last_contains(stack0, y);
                    lemma_add_contains(stack1, pushed, y);
                }
            }
            // seen features stay expanded
            assert forall|g: Seq<char>, h: Seq<char>|
                seen1.contains(g) && #[trigger] feature_implies(fm, g, h) implies out1.contains(
                h,
            ) || stack2.contains(h) by {
                lemma_push_contains(seen0, f@, g);
                lemma_push_contains(out0, f@, h);
                lemma_add_contains(stack1, pushed, h);
                if seen0.contains(g) {
                    if stack0.contains(h) {
                        lemma_drop_last_contains(stack0, h);
                    }
                } else {
                    assert(g == f@);
                    assert(pushed.contains(h));
                }
            }
            // recorded feature names were expanded
            assert forall|y: Seq<char>|
                #[trigger] out1.contains(y) && !y.contains('/') && feature_lookup(
                    fm,
                    y,
                ) is Some implies seen1.contains(y) by {
                lemma_push_contains(out0, f@, y);
                if out0.contains(y) {
                    if seen0.contains(y) {
                        if seen1 != seen0 {
                            lemma_push_contains(seen0, f@, y);
                        }
                    }
                } else {
                    assert(y == f@);
                    if seen0.contains(y) {
                        if seen1 != seen0 {
                            lemma_push_contains(seen0, f@, y);
                        }
                    } else {
                        assert(seen1[seen1.len() - 1] == f@);
                    }
                }
            }
        }
    }
    proof {
        assert(views(stack@).len() == 0);
        assert forall|f: Seq<char>| activated(fm, sds, f) implies #[trigger] views(
            out@,
        ).contains(f) by {
            let n = choose|n: nat| derivable(fm, sds, f, n);
            assert forall|g: Seq<char>, h: Seq<char>|
                views(out@).contains(g) && !g.contains('/') && #[trigger] feature_implies(
                    fm,
                    g,
                    h,
                ) implies views(out@).contains(h) by {
                assert(views(seen@).contains(g));
            }
            lemma_closed_covers(fm, sds, views(out@), f, n);
        }
    }
    out
}

} // verus!
