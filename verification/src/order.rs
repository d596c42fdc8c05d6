//! Ordering and deduplication of resolved dependency lists: a stable sort
//! by the identity order, then a collapse of adjacent entries that share a
//! `(name, version)` key, keeping the first.

use vstd::prelude::*;
use crate::identity::Dependency;
use crate::identity::DepView;
use crate::identity::key_eq;
use crate::identity::key_le;
use crate::identity::key_lt;
use crate::identity::lemma_key_le_total;
use crate::identity::lemma_key_le_antisymmetric;
use crate::identity::lemma_key_le_transitive;
use crate::chars::lemma_push_contains;
use crate::chars::lemma_insert_contains;

verus! {

/// The views of a dependency list.
pub open spec fn deps_views(v: Seq<Dependency>) -> Seq<DepView> {
    v.map_values(|d: Dependency| d@)
}

/// Weakly sorted in the identity order.
pub open spec fn key_sorted_le(v: Seq<DepView>) -> bool {
    forall|i: int, j: int| 0 <= i < j < v.len() ==> key_le(v[i], v[j])
}

/// Strictly sorted in the identity order: sorted, and no two entries share
/// a `(name, version)` key.
pub open spec fn key_sorted_strict(v: Seq<DepView>) -> bool {
    forall|i: int, j: int| 0 <= i < j < v.len() ==> key_lt(v[i], v[j])
}

/// Some entry of `v` has the key `(name, version)`.
pub open spec fn has_key(v: Seq<DepView>, name: Seq<char>, version: Seq<char>) -> bool {
    exists|m: int| 0 <= m < v.len() && (#[trigger] v[m]).name == name && v[m].version == version
}

/// The run of one `(name, version)` key: the subsequence of entries carrying
/// that key, in their original order.
pub open spec fn key_run(v: Seq<DepView>, n: Seq<char>, ver: Seq<char>) -> Seq<DepView> {
    v.filter(|d: DepView| d.name == n && d.version == ver)
}

proof fn lemma_key_run_push(s: Seq<DepView>, n: Seq<char>, ver: Seq<char>, x: DepView)
    ensures
        (x.name == n && x.version == ver) ==> key_run(s.push(x), n, ver) == key_run(
            s,
            n,
            ver,
        ).push(x),
        !(x.name == n && x.version == ver) ==> key_run(s.push(x), n, ver) == key_run(s, n, ver),
{
    reveal(Seq::filter);
    assert(s.push(x).drop_last() =~= s);
    assert(s.push(x).last() == x);
}

proof fn lemma_key_run_add(a: Seq<DepView>, b: Seq<DepView>, n: Seq<char>, ver: Seq<char>)
    ensures
        key_run(a.add(b), n, ver) == key_run(a, n, ver).add(key_run(b, n, ver)),
    decreases b.len(),
{
    reveal(Seq::filter);
    if b.len() == 0 {
        assert(a.add(b) =~= a);
        assert(key_run(b, n, ver) =~= Seq::<DepView>::empty());
        assert(key_run(a, n, ver).add(key_run(b, n, ver)) =~= key_run(a, n, ver));
    } else {
        lemma_key_run_add(a, b.drop_last(), n, ver);
        assert(a.add(b).drop_last() =~= a.add(b.drop_last()));
        lemma_key_run_push(a.add(b.drop_last()), n, ver, b.last());
        lemma_key_run_push(b.drop_last(), n, ver, b.last());
        assert(a.add(b.drop_last()).push(b.last()) =~= a.add(b));
        assert(b.drop_last().push(b.last()) =~= b);
        if b.last().name == n && b.last().version == ver {
            assert(key_run(a, n, ver).add(key_run(b.drop_last(), n, ver)).push(b.last())
                =~= key_run(a, n, ver).add(key_run(b.drop_last(), n, ver).push(b.last())));
        }
    }
}

proof fn lemma_key_run_empty(s: Seq<DepView>, n: Seq<char>, ver: Seq<char>)
    requires
        forall|m: int|
            0 <= m < s.len() ==> !((#[trigger] s[m]).name == n && s[m].version == ver),
    ensures
        key_run(s, n, ver).len() == 0,
    decreases s.len(),
{
    reveal(Seq::filter);
    if s.len() > 0 {
        lemma_key_run_empty(s.drop_last(), n, ver);
        assert(s.last() == s[s.len() - 1]);
    }
}

proof fn lemma_key_run_member(s: Seq<DepView>, n: Seq<char>, ver: Seq<char>)
    requires
        key_run(s, n, ver).len() > 0,
    ensures
        exists|m: int|
            0 <= m < s.len() && ((#[trigger] s[m]).name) == n && s[m].version == ver,
    decreases s.len(),
{
    reveal(Seq::filter);
    if s.len() > 0 {
        if s.last().name == n && s.last().version == ver {
            assert(s[s.len() - 1] == s.last());
        } else {
            lemma_key_run_member(s.drop_last(), n, ver);
            let m = choose|m: int|
                0 <= m < s.drop_last().len() && ((#[trigger] s.drop_last()[m]).name) == n
                    && s.drop_last()[m].version == ver;
            assert(s[m] == s.drop_last()[m]);
        }
    }
}

/// Sort a dependency list by the identity order. The result is a
/// reordering: it holds exactly the values of the input, and it is stable:
/// entries sharing a `(name, version)` key keep their relative order.
pub fn sort_deps(input: &Vec<Dependency>) -> (r: Vec<Dependency>)
    ensures
        r@.len() == input@.len(),
        key_sorted_le(deps_views(r@)),
        forall|x: DepView| deps_views(r@).contains(x) <==> deps_views(input@).contains(x),
        forall|n: Seq<char>, ver: Seq<char>|
            #[trigger] key_run(deps_views(r@), n, ver) == key_run(deps_views(input@), n, ver),
{
    let mut r: Vec<Dependency> = Vec::new();
    let mut i: usize = 0;
    while i < input.len()
        invariant
            i <= input@.len(),
            r@.len() == i,
            key_sorted_le(deps_views(r@)),
            forall|x: DepView|
                deps_views(r@).contains(x) <==> deps_views(input@.take(i as int)).contains(x),
            forall|n: Seq<char>, ver: Seq<char>|
                #[trigger] key_run(deps_views(r@), n, ver) == key_run(
                    deps_views(input@.take(i as int)),
                    n,
                    ver,
                ),
        decreases input@.len() - i,
    {
        let x = input[i].duplicate();
        let ghost xv = x@;
        let mut k: usize = 0;
        while k < r.len() && r[k].le(&x)
            invariant
                k <= r@.len(),
                forall|m: int| 0 <= m < k ==> key_le(deps_views(r@)[m], xv),
                xv == x@,
            decreases r@.len() - k,
        {
            k = k + 1;
        }
        proof {
            if k < r@.len() {
                assert(!key_le(deps_views(r@)[k as int], xv));
                lemma_key_le_total(deps_views(r@)[k as int], xv);
            }
        }
        let ghost old_r = r@;
        r.insert(k, x);
        i = i + 1;
        proof {
            assert(deps_views(r@) =~= deps_views(old_r).insert(k as int, xv));
            let v = deps_views(r@);
            let oldv = deps_views(old_r);
            assert forall|p: int, q: int| 0 <= p < q < v.len() implies key_le(v[p], v[q]) by {
                if q < k {
                    assert(v[p] == oldv[p] && v[q] == oldv[q]);
                } else if q == k {
                    if p < k {
                        assert(v[p] == oldv[p]);
                    }
                } else {
                    if p < k {
                        assert(v[p] == oldv[p] && v[q] == oldv[q - 1]);
                    } else if p == k {
                        assert(v[q] == oldv[q - 1]);
                        assert(!key_le(oldv[k as int], xv));
                        lemma_key_le_total(oldv[k as int], xv);
                        if q - 1 > k {
                            lemma_key_le_transitive(xv, oldv[k as int], oldv[q - 1]);
                        }
                    } else {
                        assert(v[p] == oldv[p - 1] && v[q] == oldv[q - 1]);
                    }
                }
            }
            let tv_prev = deps_views(input@.take(i - 1));
            let tv = deps_views(input@.take(i as int));
            assert(tv =~= tv_prev.push(input@[i - 1]@)) by {
                assert(input@.take(i as int).drop_last() =~= input@.take(i - 1));
            }
            assert forall|y: DepView| deps_views(r@).contains(y) == tv.contains(y) by {
                lemma_insert_contains(oldv, k as int, xv, y);
                lemma_push_contains(tv_prev, input@[i - 1]@, y);
            }
            assert(tv_prev.push(xv) =~= tv);
            assert forall|n: Seq<char>, ver: Seq<char>|
                #[trigger] key_run(v, n, ver) == key_run(tv, n, ver) by {
                let front = oldv.take(k as int);
                let back = oldv.skip(k as int);
                let one = seq![xv];
                assert(v =~= front.add(one).add(back));
                assert(oldv =~= front.add(back));
                lemma_key_run_add(front.add(one), back, n, ver);
                lemma_key_run_add(front, one, n, ver);
                lemma_key_run_add(front, back, n, ver);
                assert(one =~= Seq::<DepView>::empty().push(xv));
                lemma_key_run_push(Seq::<DepView>::empty(), n, ver, xv);
                assert(key_run(Seq::<DepView>::empty(), n, ver).len() == 0) by {
                    lemma_key_run_empty(Seq::<DepView>::empty(), n, ver);
                }
                lemma_key_run_push(tv_prev, n, ver, xv);
                if xv.name == n && xv.version == ver {
                    assert forall|m: int|
                        0 <= m < back.len() implies !(((#[trigger] back[m]).name) == n
                        && back[m].version == ver) by {
                        let e = back[m];
                        assert(e == oldv[k + m]);
                        if e.name == n && e.version == ver {
                            assert(!key_le(oldv[k as int], xv));
                            if m == 0 {
                                assert(key_le(e, xv));
                            } else {
                                assert(key_le(oldv[k as int], oldv[k + m]));
                                assert(key_le(e, xv));
                                lemma_key_le_transitive(oldv[k as int], e, xv);
                            }
                        }
                    }
                    lemma_key_run_empty(back, n, ver);
                    assert(key_run(v, n, ver) =~= key_run(oldv, n, ver).push(xv));
                    assert(key_run(tv, n, ver) =~= key_run(tv_prev, n, ver).push(xv));
                } else {
                    assert(key_run(one, n, ver).len() == 0);
                    assert(key_run(v, n, ver) =~= key_run(oldv, n, ver));
                    assert(key_run(tv, n, ver) =~= key_run(tv_prev, n, ver));
                }
            }
        }
    }
    proof {
        assert(input@.take(i as int) =~= input@);
    }
    r
}

/// Collapse adjacent entries of a sorted list that share a key, keeping the
/// first of each run. The result has no two entries with one key, covers
/// exactly the keys of the input, and every entry is the first input entry
/// carrying its key.
pub fn dedup_deps(input: &Vec<Dependency>) -> (r: Vec<Dependency>)
    requires
        key_sorted_le(deps_views(input@)),
    ensures
        key_sorted_strict(deps_views(r@)),
        forall|n: Seq<char>, v: Seq<char>|
            has_key(deps_views(r@), n, v) <==> has_key(deps_views(input@), n, v),
        forall|y: DepView| deps_views(r@).contains(y) ==> deps_views(input@).contains(y),
        forall|m: int|
            0 <= m < r@.len() ==> {
                let run = key_run(
                    deps_views(input@),
                    ((#[trigger] deps_views(r@)[m]).name),
                    deps_views(r@)[m].version,
                );
                run.len() >= 1 && deps_views(r@)[m] == run[0]
            },
{
    let mut r: Vec<Dependency> = Vec::new();
    let mut i: usize = 0;
    while i < input.len()
        invariant
            i <= input@.len(),
            key_sorted_le(deps_views(input@)),
            key_sorted_strict(deps_views(r@)),
            forall|n: Seq<char>, v: Seq<char>|
                has_key(deps_views(r@), n, v) <==> has_key(
                    deps_views(input@.take(i as int)),
                    n,
                    v,
                ),
            forall|y: DepView| deps_views(r@).contains(y) ==> deps_views(input@).contains(y),
            i == 0 ==> r@.len() == 0,
            i > 0 ==> r@.len() > 0 && key_eq(deps_views(r@).last(), deps_views(input@)[i - 1]),
            forall|m: int|
                0 <= m < r@.len() ==> {
                    let run = key_run(
                        deps_views(input@.take(i as int)),
                        ((#[trigger] deps_views(r@)[m]).name),
                        deps_views(r@)[m].version,
                    );
                    run.len() >= 1 && deps_views(r@)[m] == run[0]
                },
            forall|m: int|
                0 <= m < r@.len() ==> key_le(#[trigger] deps_views(r@)[m], deps_views(r@).last()),
        decreases input@.len() - i,
    {
        let x = input[i].duplicate();
        let ghost xv = x@;
        let keep = if r.len() == 0 {
            true
        } else {
            !r[r.len() - 1].same_key(&x)
        };
        let ghost old_r = r@;
        if keep {
            r.push(x);
        }
        i = i + 1;
        proof {
            let rv = deps_views(r@);
            let oldv = deps_views(old_r);
            let tv_prev = deps_views(input@.take(i - 1));
            let tv = deps_views(input@.take(i as int));
            assert(tv =~= tv_prev.push(input@[i - 1]@));
            assert(tv.last() == xv);
            assert(tv_prev.push(xv) =~= tv);
            if keep && old_r.len() > 0 {
                assert(key_run(tv_prev, xv.name, xv.version).len() == 0) by {
                    if key_run(tv_prev, xv.name, xv.version).len() > 0 {
                        lemma_key_run_member(tv_prev, xv.name, xv.version);
                        let w = choose|w: int|
                            0 <= w < tv_prev.len() && ((#[trigger] tv_prev[w]).name)
                                == xv.name && tv_prev[w].version == xv.version;
                        let prev = deps_views(input@)[i - 2];
                        assert(key_eq(deps_views(old_r).last(), prev));
                        assert(tv_prev[w] == deps_views(input@)[w]);
                        if w == i - 2 {
                            assert(key_eq(prev, xv));
                        } else {
                            assert(key_le(deps_views(input@)[w], prev));
                            assert(key_le(prev, deps_views(input@)[i - 1]));
                            assert(deps_views(input@)[i - 1] == xv);
                            assert(key_le(xv, prev));
                            lemma_key_le_antisymmetric(xv, prev);
                        }
                        assert(!key_eq(deps_views(old_r).last(), xv));
                    }
                }
            }
            if keep && old_r.len() == 0 {
                assert(tv_prev.len() == 0);
                lemma_key_run_empty(tv_prev, xv.name, xv.version);
            }
            assert forall|m: int| 0 <= m < r@.len() implies {
                let run = key_run(
                    tv,
                    ((#[trigger] deps_views(r@)[m]).name),
                    deps_views(r@)[m].version,
                );
                run.len() >= 1 && deps_views(r@)[m] == run[0]
            } by {
                let e = deps_views(r@)[m];
                lemma_key_run_push(tv_prev, e.name, e.version, xv);
                if keep && m == r@.len() - 1 {
                    assert(e == xv);
                    assert(key_run(tv_prev, e.name, e.version).len() == 0);
                    assert(key_run(tv, e.name, e.version) =~= key_run(
                        tv_prev,
                        e.name,
                        e.version,
                    ).push(xv));
                    assert(key_run(tv, e.name, e.version)[0] == xv);
                } else {
                    assert(deps_views(old_r)[m] == e);
                    let run_prev = key_run(tv_prev, e.name, e.version);
                    assert(run_prev.len() >= 1 && deps_views(old_r)[m] == run_prev[0]);
                    if xv.name == e.name && xv.version == e.version {
                        assert(key_run(tv, e.name, e.version) =~= run_prev.push(xv));
                        assert(key_run(tv, e.name, e.version)[0] == run_prev[0]);
                    } else {
                        assert(key_run(tv, e.name, e.version) == run_prev);
                    }
                }
            }
            if keep {
                assert(rv =~= oldv.push(xv));
                if old_r.len() > 0 {
                    assert(key_le(oldv.last(), xv)) by {
                        assert(key_eq(oldv.last(), deps_views(input@)[i - 2]));
                        assert(key_le(deps_views(input@)[i - 2], deps_views(input@)[i - 1]));
                        assert(deps_views(input@)[i - 1] == xv);
                    }
                    assert forall|m: int| 0 <= m < oldv.len() implies key_lt(
                        #[trigger] oldv[m],
                        xv,
                    ) by {
                        assert(key_le(oldv[m], oldv.last()));
                        lemma_key_le_transitive(oldv[m], oldv.last(), xv);
                        if key_eq(oldv[m], xv) {
                            assert(!key_eq(oldv.last(), xv));
                            lemma_key_le_total(oldv.last(), xv);
                            lemma_key_le_antisymmetric(oldv.last(), xv);
                        }
                    }
                }
                lemma_key_le_total(xv, xv);
                assert forall|y: DepView| rv.contains(y) implies deps_views(
                    input@,
                ).contains(y) by {
                    lemma_push_contains(oldv, xv, y);
                    if y == xv {
                        assert(deps_views(input@)[i - 1] == xv);
                    }
                }
            } else {
                assert(oldv[old_r.len() - 1] == oldv.last());
                assert(key_eq(oldv.last(), xv)) by {
                    assert(key_eq(oldv.last(), deps_views(input@)[i - 2]));
                }
            }
            assert forall|n: Seq<char>, v: Seq<char>|
                has_key(rv, n, v) == has_key(tv, n, v) by {
                if has_key(rv, n, v) {
                    let m = choose|m: int|
                        0 <= m < rv.len() && (#[trigger] rv[m]).name == n && rv[m].version
                            == v;
                    if keep && m == rv.len() - 1 {
                        assert(tv[tv.len() - 1] == xv);
                    } else {
                        assert(oldv[m] == rv[m]);
                        assert(has_key(oldv, n, v));
                        assert(has_key(tv_prev, n, v));
                        let w = choose|w: int|
                            0 <= w < tv_prev.len() && (#[trigger] tv_prev[w]).name == n
                                && tv_prev[w].version == v;
                        assert(tv[w] == tv_prev[w]);
                    }
                }
                if has_key(tv, n, v) {
                    let m = choose|m: int|
                        0 <= m < tv.len() && (#[trigger] tv[m]).name == n && tv[m].version
                            == v;
                    if m == tv.len() - 1 {
                        if keep {
                            assert(rv[rv.len() - 1] == xv);
                        } else {
                            assert(rv[rv.len() - 1] == rv.last());
                            assert(key_eq(rv.last(), xv));
                        }
                    } else {
                        assert(tv_prev[m] == tv[m]);
                        assert(has_key(tv_prev, n, v));
                        assert(has_key(oldv, n, v));
                        let w = choose|w: int|
                            0 <= w < oldv.len() && (#[trigger] oldv[w]).name == n
                                && oldv[w].version == v;
                        if keep {
                            assert(rv[w] == oldv[w]);
                        } else {
                            assert(rv[w] == oldv[w]);
                        }
                    }
                }
            }
        }
    }
    proof {
        assert(input@.take(i as int) =~= input@);
    }
    r
}

} // verus!
