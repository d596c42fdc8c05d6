//! License string normalization: a declared license is read as a
//! slash-separated list of alternatives; each alternative is trimmed of
//! surrounding whitespace, duplicates are removed, the alternatives are
//! sorted lexicographically and rejoined with `/`.

use vstd::prelude::*;
use crate::chars::lex_le;
use crate::chars::lemma_lex_le_total;
use crate::chars::lemma_lex_le_antisymmetric;
use crate::chars::lemma_lex_le_transitive;
use crate::chars::str_le;
use crate::chars::str_eq;
use crate::chars::lemma_push_contains;
use crate::chars::lemma_insert_contains;

verus! {

/// The views of a sequence of string slices.
pub open spec fn str_views(v: Seq<&str>) -> Seq<Seq<char>> {
    v.map_values(|s: &str| s@)
}

/// Strict lexicographic order.
pub open spec fn lex_lt(a: Seq<char>, b: Seq<char>) -> bool {
    lex_le(a, b) && a != b
}

/// Weakly sorted in lexicographic order.
pub open spec fn sorted_le(v: Seq<Seq<char>>) -> bool {
    forall|i: int, j: int| 0 <= i < j < v.len() ==> lex_le(v[i], v[j])
}

/// Strictly sorted in lexicographic order, so also free of duplicates.
pub open spec fn sorted_strict(v: Seq<Seq<char>>) -> bool {
    forall|i: int, j: int| 0 <= i < j < v.len() ==> lex_lt(v[i], v[j])
}

/// Two sequences hold the same elements, duplicates and order aside.
pub open spec fn same_elements(a: Seq<Seq<char>>, b: Seq<Seq<char>>) -> bool {
    forall|x: Seq<char>| a.contains(x) <==> b.contains(x)
}

/// Splitting on `/`: the list of segments between the separators. An empty
/// string is one empty segment; a separator at either end yields an empty
/// segment there.
pub open spec fn split_slash(s: Seq<char>) -> Seq<Seq<char>>
    decreases s.len(),
{
    if s.len() == 0 {
        seq![Seq::<char>::empty()]
    } else if s[0] == '/' {
        seq![Seq::<char>::empty()].add(split_slash(s.drop_first()))
    } else {
        let rest = split_slash(s.drop_first());
        seq![seq![s[0]].add(rest[0])].add(rest.drop_first())
    }
}

pub proof fn lemma_split_nonempty(s: Seq<char>)
    ensures
        split_slash(s).len() >= 1,
    decreases s.len(),
{
    if s.len() > 0 {
        lemma_split_nonempty(s.drop_first());
    }
}

/// Every segment of a split is free of the separator.
pub proof fn lemma_split_no_slash(s: Seq<char>)
    ensures
        forall|k: int|
            0 <= k < split_slash(s).len() ==> !(#[trigger] split_slash(s)[k]).contains('/'),
    decreases s.len(),
{
    if s.len() == 0 {
        assert forall|k: int|
            0 <= k < split_slash(s).len() implies !(#[trigger] split_slash(s)[k]).contains(
            '/',
        ) by {
            assert(split_slash(s)[k].len() == 0);
        }
    } else {
        lemma_split_no_slash(s.drop_first());
        let rest = split_slash(s.drop_first());
        lemma_split_nonempty(s.drop_first());
        if s[0] == '/' {
            assert forall|k: int|
                0 <= k < split_slash(s).len() implies !(#[trigger] split_slash(s)[k]).contains(
                '/',
            ) by {
                if k == 0 {
                    assert(split_slash(s)[0].len() == 0);
                } else {
                    assert(split_slash(s)[k] == rest[k - 1]);
                }
            }
        } else {
            assert forall|k: int|
                0 <= k < split_slash(s).len() implies !(#[trigger] split_slash(s)[k]).contains(
                '/',
            ) by {
                if k == 0 {
                    let head = seq![s[0]].add(rest[0]);
                    assert(split_slash(s)[0] == head);
                    assert(!rest[0].contains('/'));
                    if head.contains('/') {
                        let m = choose|m: int| 0 <= m < head.len() && head[m] == '/';
                        assert(m != 0);
                        assert(rest[0][m - 1] == '/');
                    }
                } else {
                    assert(split_slash(s)[k] == rest.drop_first()[k - 1]);
                    assert(rest.drop_first()[k - 1] == rest[k]);
                }
            }
        }
    }
}

/// Joining with `/`: the inverse of splitting for separator-free segments.
pub open spec fn join_slash(parts: Seq<Seq<char>>) -> Seq<char>
    decreases parts.len(),
{
    if parts.len() == 0 {
        Seq::<char>::empty()
    } else if parts.len() == 1 {
        parts[0]
    } else {
        parts[0].add(seq!['/']).add(join_slash(parts.drop_first()))
    }
}

/// Splitting a separator-free string returns just that string.
pub proof fn lemma_split_single(s: Seq<char>)
    requires
        !s.contains('/'),
    ensures
        split_slash(s) == seq![s],
    decreases s.len(),
{
    if s.len() == 0 {
        assert(split_slash(s) =~~= seq![s]);
    } else {
        assert(s[0] != '/');
        assert(!s.drop_first().contains('/')) by {
            if s.drop_first().contains('/') {
                let m = choose|m: int|
                    0 <= m < s.drop_first().len() && s.drop_first()[m] == '/';
                assert(s[m + 1] == '/');
            }
        }
        lemma_split_single(s.drop_first());
        assert(split_slash(s) =~~= seq![s]) by {
            assert(split_slash(s.drop_first()) == seq![s.drop_first()]);
            assert(seq![s[0]].add(s.drop_first()) =~= s);
        }
    }
}

/// Splitting `a + "/" + t` for separator-free `a` peels off `a`.
pub proof fn lemma_split_peel(a: Seq<char>, t: Seq<char>)
    requires
        !a.contains('/'),
    ensures
        split_slash(a.add(seq!['/']).add(t)) == seq![a].add(split_slash(t)),
    decreases a.len(),
{
    let s = a.add(seq!['/']).add(t);
    if a.len() == 0 {
        assert(s[0] == '/');
        assert(s.drop_first() =~= t);
        assert(split_slash(s) =~~= seq![a].add(split_slash(t)));
    } else {
        assert(s[0] == a[0]);
        assert(a[0] != '/');
        assert(!a.drop_first().contains('/')) by {
            if a.drop_first().contains('/') {
                let m = choose|m: int|
                    0 <= m < a.drop_first().len() && a.drop_first()[m] == '/';
                assert(a[m + 1] == '/');
            }
        }
        lemma_split_peel(a.drop_first(), t);
        assert(s.drop_first() =~= a.drop_first().add(seq!['/']).add(t));
        let rest = split_slash(s.drop_first());
        assert(rest == seq![a.drop_first()].add(split_slash(t)));
        lemma_split_nonempty(t);
        assert(rest[0] == a.drop_first());
        assert(seq![s[0]].add(rest[0]) =~= a);
        assert(rest.drop_first() =~= split_slash(t));
        assert(split_slash(s) =~~= seq![a].add(split_slash(t)));
    }
}

/// Round trip: splitting a join of separator-free segments returns them.
pub proof fn lemma_split_join(parts: Seq<Seq<char>>)
    requires
        parts.len() >= 1,
        forall|k: int| 0 <= k < parts.len() ==> !(#[trigger] parts[k]).contains('/'),
    ensures
        split_slash(join_slash(parts)) == parts,
    decreases parts.len(),
{
    if parts.len() == 1 {
        lemma_split_single(parts[0]);
        assert(split_slash(join_slash(parts)) =~~= parts);
    } else {
        lemma_split_join(parts.drop_first());
        lemma_split_peel(parts[0], join_slash(parts.drop_first()));
        assert(split_slash(join_slash(parts)) =~~= parts) by {
            assert(seq![parts[0]].add(split_slash(join_slash(parts.drop_first())))
                =~~= parts);
        }
    }
}

/// Whitespace trimmed from license alternatives.
pub open spec fn is_space(c: char) -> bool {
    c == ' ' || c == '\t' || c == '\n' || c == '\r'
}

pub open spec fn trim_front(s: Seq<char>) -> Seq<char>
    decreases s.len(),
{
    if s.len() > 0 && is_space(s[0]) {
        trim_front(s.drop_first())
    } else {
        s
    }
}

pub open spec fn trim_back(s: Seq<char>) -> Seq<char>
    decreases s.len(),
{
    if s.len() > 0 && is_space(s.last()) {
        trim_back(s.drop_last())
    } else {
        s
    }
}

/// The segment with surrounding whitespace removed.
pub open spec fn trim_spec(s: Seq<char>) -> Seq<char> {
    trim_back(trim_front(s))
}

fn is_space_char(c: char) -> (r: bool)
    ensures
        r == is_space(c),
{
    c == ' ' || c == '\t' || c == '\n' || c == '\r'
}

/// Executable trim over a string slice.
pub fn trim_str<'a>(s: &'a str) -> (r: &'a str)
    ensures
        r@ == trim_spec(s@),
{
    let len = s.unicode_len();
    let mut lo: usize = 0;
    proof {
        assert(s@.skip(0) =~= s@);
    }
    while lo < len && is_space_char(s.get_char(lo))
        invariant
            lo <= len,
            len == s@.len(),
            trim_front(s@) == trim_front(s@.skip(lo as int)),
        decreases len - lo,
    {
        proof {
            assert(s@.skip(lo as int)[0] == s@[lo as int]);
            assert(s@.skip(lo as int).drop_first() =~= s@.skip(lo + 1));
        }
        lo = lo + 1;
    }
    proof {
        if lo == len {
            assert(s@.skip(lo as int).len() == 0);
        } else {
            assert(s@.skip(lo as int)[0] == s@[lo as int]);
        }
        assert(trim_front(s@) == s@.skip(lo as int));
        assert(s@.skip(lo as int) =~= s@.subrange(lo as int, len as int));
    }
    let mut hi: usize = len;
    while hi > lo && is_space_char(s.get_char(hi - 1))
        invariant
            lo <= hi <= len,
            len == s@.len(),
            trim_front(s@) == s@.subrange(lo as int, len as int),
            trim_back(trim_front(s@)) == trim_back(s@.subrange(lo as int, hi as int)),
        decreases hi,
    {
        proof {
            let cur = s@.subrange(lo as int, hi as int);
            assert(cur.last() == s@[hi - 1]);
            assert(cur.drop_last() =~= s@.subrange(lo as int, hi - 1));
        }
        hi = hi - 1;
    }
    proof {
        let cur = s@.subrange(lo as int, hi as int);
        if hi > lo {
            assert(cur.last() == s@[hi - 1]);
        }
        assert(trim_back(cur) == cur);
    }
    s.substring_char(lo, hi)
}

/// Executable split on `/` over a string slice.
pub fn split_slash_str<'a>(s: &'a str) -> (parts: Vec<&'a str>)
    ensures
        str_views(parts@) == split_slash(s@),
{
    let len = s.unicode_len();
    let mut parts: Vec<&str> = Vec::new();
    let mut start: usize = 0;
    let mut i: usize = 0;
    proof {
        assert(s@.skip(0) =~= s@);
        assert(str_views(parts@).len() == 0);
    }
    while i < len
        invariant
            start <= i <= len,
            len == s@.len(),
            split_slash(s@) == str_views(parts@).add(
                seq![
                    s@.subrange(start as int, i as int).add(
                        split_slash(s@.skip(i as int))[0],
                    ),
                ].add(split_slash(s@.skip(i as int)).drop_first()),
            ),
        decreases len - i,
    {
        proof {
            lemma_split_nonempty(s@.skip(i + 1));
            assert(s@.skip(i as int)[0] == s@[i as int]);
            assert(s@.skip(i as int).drop_first() =~= s@.skip(i + 1));
        }
        let c = s.get_char(i);
        if c == '/' {
            let seg = s.substring_char(start, i);
            proof {
                let old_parts = parts@;
                let tail = split_slash(s@.skip(i as int));
                assert(tail == seq![Seq::<char>::empty()].add(split_slash(s@.skip(i + 1))));
                assert(tail[0] =~= Seq::<char>::empty());
                assert(s@.subrange(start as int, i as int).add(tail[0]) =~= seg@);
                assert(tail.drop_first() =~= split_slash(s@.skip(i + 1)));
            }
            parts.push(seg);
            start = i + 1;
            i = i + 1;
            proof {
                assert(str_views(parts@) =~= str_views(parts@.drop_last()).add(
                    seq![seg@],
                ));
                assert(s@.subrange(start as int, i as int) =~= Seq::<char>::empty());
                assert(split_slash(s@) =~~= str_views(parts@).add(
                    seq![
                        s@.subrange(start as int, i as int).add(
                            split_slash(s@.skip(i as int))[0],
                        ),
                    ].add(split_slash(s@.skip(i as int)).drop_first()),
                ));
            }
        } else {
            proof {
                let tail = split_slash(s@.skip(i as int));
                let next = split_slash(s@.skip(i + 1));
                assert(tail == seq![seq![s@[i as int]].add(next[0])].add(next.drop_first()));
                assert(tail[0] == seq![s@[i as int]].add(next[0]));
                assert(tail.drop_first() =~= next.drop_first());
                assert(s@.subrange(start as int, i as int).add(tail[0]) =~= s@.subrange(
                    start as int,
                    i + 1,
                ).add(next[0]));
            }
            i = i + 1;
        }
    }
    let last = s.substring_char(start, len);
    proof {
        assert(s@.skip(len as int).len() == 0);
        let tail = split_slash(s@.skip(len as int));
        assert(tail =~~= seq![Seq::<char>::empty()]);
        assert(s@.subrange(start as int, len as int).add(tail[0]) =~= last@);
    }
    parts.push(last);
    proof {
        assert(str_views(parts@) =~= str_views(parts@.drop_last()).add(seq![last@]));
        assert(str_views(parts@) =~~= split_slash(s@));
    }
    parts
}

/// Executable lexicographic insertion sort over string slices.
pub fn sort_strs<'a>(input: &Vec<&'a str>) -> (r: Vec<&'a str>)
    ensures
        r@.len() == input@.len(),
        sorted_le(str_views(r@)),
        same_elements(str_views(r@), str_views(input@)),
{
    let mut r: Vec<&str> = Vec::new();
    let mut i: usize = 0;
    while i < input.len()
        invariant
            i <= input@.len(),
            r@.len() == i,
            sorted_le(str_views(r@)),
            same_elements(str_views(r@), str_views(input@.take(i as int))),
        decreases input@.len() - i,
    {
        let x = input[i];
        let mut k: usize = 0;
        while k < r.len() && str_le(r[k], x)
            invariant
                k <= r@.len(),
                forall|m: int| 0 <= m < k ==> lex_le(str_views(r@)[m], x@),
            decreases r@.len() - k,
        {
            k = k + 1;
        }
        proof {
            if k < r@.len() {
                assert(!lex_le(str_views(r@)[k as int], x@));
                lemma_lex_le_total(str_views(r@)[k as int], x@);
            }
        }
        let ghost old_r = r@;
        r.insert(k, x);
        i = i + 1;
        proof {
            assert(str_views(r@) =~= str_views(old_r).insert(k as int, x@));
            let v = str_views(r@);
            let oldv = str_views(old_r);
            assert forall|p: int, q: int| 0 <= p < q < v.len() implies lex_le(
                v[p],
                v[q],
            ) by {
                if q < k {
                    assert(v[p] == oldv[p] && v[q] == oldv[q]);
                } else if q == k {
                    if p < k {
                        assert(v[p] == oldv[p]);
                    }
                } else {
                    if p < k {
                        assert(v[p] == oldv[p] && v[q] == oldv[q - 1]);
                    } else if p == k {
                        assert(v[q] == oldv[q - 1]);
                        assert(!lex_le(oldv[k as int], x@));
                        lemma_lex_le_total(oldv[k as int], x@);
                        if q - 1 > k {
                            lemma_lex_le_transitive(x@, oldv[k as int], oldv[q - 1]);
                        }
                    } else {
                        assert(v[p] == oldv[p - 1] && v[q] == oldv[q - 1]);
                    }
                }
            }
            assert(same_elements(str_views(r@), str_views(input@.take(i as int)))) by {
                let tv_prev = str_views(input@.take(i - 1));
                let tv = str_views(input@.take(i as int));
                assert(tv =~= tv_prev.push(x@)) by {
                    assert(input@.take(i as int).drop_last() =~= input@.take(i - 1));
                }
                assert forall|y: Seq<char>|
                    str_views(r@).contains(y) == tv.contains(y) by {
                    lemma_insert_contains(oldv, k as int, x@, y);
                    lemma_push_contains(tv_prev, x@, y);
                    assert(str_views(r@) =~= oldv.insert(k as int, x@));
                }
            }
        }
    }
    proof {
        assert(input@.take(i as int) =~= input@);
    }
    r
}

/// Collapse adjacent equal segments of a sorted list: the result is strictly
/// sorted and holds the same elements.
pub fn dedup_sorted<'a>(input: &Vec<&'a str>) -> (r: Vec<&'a str>)
    requires
        sorted_le(str_views(input@)),
    ensures
        sorted_strict(str_views(r@)),
        same_elements(str_views(r@), str_views(input@)),
        input@.len() >= 1 ==> r@.len() >= 1,
{
    let mut r: Vec<&str> = Vec::new();
    let mut i: usize = 0;
    while i < input.len()
        invariant
            i <= input@.len(),
            sorted_le(str_views(input@)),
            sorted_strict(str_views(r@)),
            same_elements(str_views(r@), str_views(input@.take(i as int))),
            i == 0 ==> r@.len() == 0,
            i > 0 ==> r@.len() > 0 && str_views(r@).last() == str_views(input@)[i - 1],
            forall|m: int|
                0 <= m < r@.len() ==> lex_le(
                    #[trigger] str_views(r@)[m],
                    str_views(r@).last(),
                ),
        decreases input@.len() - i,
    {
        let x = input[i];
        let keep = if r.len() == 0 {
            true
        } else {
            !str_eq(r[r.len() - 1], x)
        };
        let ghost old_r = r@;
        if keep {
            r.push(x);
        }
        i = i + 1;
        proof {
            assert(str_views(input@.take(i as int)).drop_last() =~= str_views(
                input@.take(i - 1),
            ));
            assert(str_views(input@.take(i as int)).last() == x@);
            if keep {
                assert(str_views(r@) =~= str_views(old_r).add(seq![x@]));
                if old_r.len() > 0 {
                    assert(lex_le(str_views(old_r).last(), x@)) by {
                        assert(str_views(old_r).last() == str_views(input@)[i - 2]);
                        assert(lex_le(str_views(input@)[i - 2], str_views(input@)[i - 1]));
                    }
                    assert forall|m: int|
                        0 <= m < str_views(old_r).len() implies lex_lt(
                        #[trigger] str_views(old_r)[m],
                        x@,
                    ) by {
                        assert(lex_le(str_views(old_r)[m], str_views(old_r).last()));
                        lemma_lex_le_transitive(
                            str_views(old_r)[m],
                            str_views(old_r).last(),
                            x@,
                        );
                        if str_views(old_r)[m] == x@ {
                            assert(lex_le(x@, str_views(old_r).last()));
                            lemma_lex_le_antisymmetric(x@, str_views(old_r).last());
                        }
                    }
                }
                lemma_lex_le_total(x@, x@);
            } else {
                assert(str_views(old_r).last() == x@);
                assert(str_views(r@).contains(x@));
            }
            let tv_prev = str_views(input@.take(i - 1));
            let tv = str_views(input@.take(i as int));
            assert(tv =~= tv_prev.push(x@));
            if keep {
                assert forall|y: Seq<char>|
                    str_views(r@).contains(y) == tv.contains(y) by {
                    lemma_push_contains(str_views(old_r), x@, y);
                    lemma_push_contains(tv_prev, x@, y);
                    assert(str_views(r@) =~= str_views(old_r).push(x@));
                }
            } else {
                assert(str_views(old_r)[old_r.len() - 1] == x@);
                assert(str_views(old_r).contains(x@));
                assert forall|y: Seq<char>|
                    str_views(r@).contains(y) == tv.contains(y) by {
                    lemma_push_contains(tv_prev, x@, y);
                }
            }
        }
    }
    proof {
        assert(input@.take(i as int) =~= input@);
    }
    r
}

/// Executable join with `/`.
pub fn join_slash_strs(parts: &Vec<&str>) -> (r: String)
    ensures
        r@ == join_slash(str_views(parts@)),
{
    let mut out = String::new();
    let mut k: usize = 0;
    proof {
        reveal_strlit("/");
    }
    while k < parts.len()
        invariant
            k <= parts@.len(),
            out@ == join_slash(str_views(parts@.take(k as int))),
            "/"@ == seq!['/'],
        decreases parts@.len() - k,
    {
        if k > 0 {
            out.append("/");
        }
        out.append(parts[k]);
        proof {
            lemma_join_push(str_views(parts@.take(k as int)), parts@[k as int]@);
            assert(str_views(parts@.take(k + 1)) =~= str_views(parts@.take(k as int)).push(
                parts@[k as int]@,
            ));
        }
        k = k + 1;
    }
    proof {
        assert(parts@.take(k as int) =~= parts@);
    }
    out
}

proof fn lemma_join_push(ps: Seq<Seq<char>>, p: Seq<char>)
    ensures
        ps.len() == 0 ==> join_slash(ps.push(p)) == p,
        ps.len() > 0 ==> join_slash(ps.push(p)) == join_slash(ps).add(seq!['/']).add(p),
    decreases ps.len(),
{
    if ps.len() == 0 {
        assert(ps.push(p)[0] == p);
        assert(join_slash(ps.push(p)) == p);
    } else if ps.len() == 1 {
        assert(ps.push(p).drop_first() =~= seq![p]);
        assert(join_slash(ps.push(p)) == ps.push(p)[0].add(seq!['/']).add(
            join_slash(ps.push(p).drop_first()),
        ));
        assert(ps.push(p)[0] == ps[0]);
        assert(join_slash(ps) == ps[0]);
    } else {
        lemma_join_push(ps.drop_first(), p);
        assert(ps.push(p).drop_first() =~= ps.drop_first().push(p));
        assert(ps.push(p)[0] == ps[0]);
        assert(join_slash(ps.push(p)) == ps[0].add(seq!['/']).add(
            join_slash(ps.drop_first().push(p)),
        ));
        assert(join_slash(ps).add(seq!['/']).add(p) =~= ps[0].add(seq!['/']).add(
            join_slash(ps.drop_first()).add(seq!['/']).add(p),
        ));
    }
}

/// What it means for `output` to be the normalized form of a declared
/// license `input`: its segments are strictly sorted, and they are exactly
/// the trimmed segments of the input, duplicates removed.
pub open spec fn normalized_license(input: Seq<char>, output: Seq<char>) -> bool {
    &&& sorted_strict(split_slash(output))
    &&& same_elements(
        split_slash(output),
        split_slash(input).map_values(|p: Seq<char>| trim_spec(p)),
    )
}

/// Normalize a declared license string.
pub fn normalize_license(license: &str) -> (r: String)
    ensures
        normalized_license(license@, r@),
{
    let parts = split_slash_str(license);
    let mut trimmed: Vec<&str> = Vec::new();
    let mut k: usize = 0;
    while k < parts.len()
        invariant
            k <= parts@.len(),
            str_views(parts@) == split_slash(license@),
            str_views(trimmed@) =~= str_views(parts@).map_values(
                |p: Seq<char>| trim_spec(p),
            ).take(k as int),
        decreases parts@.len() - k,
    {
        let t = trim_str(parts[k]);
        trimmed.push(t);
        proof {
            assert(str_views(trimmed@) =~= str_views(trimmed@.drop_last()).add(seq![t@]));
            assert(str_views(parts@).map_values(|p: Seq<char>| trim_spec(p)).take(k + 1)
                =~= str_views(parts@).map_values(|p: Seq<char>| trim_spec(p)).take(
                k as int,
            ).push(trim_spec(str_views(parts@)[k as int])));
        }
        k = k + 1;
    }
    proof {
        assert(str_views(trimmed@) =~= split_slash(license@).map_values(
            |p: Seq<char>| trim_spec(p),
        ));
    }
    let sorted = sort_strs(&trimmed);
    let deduped = dedup_sorted(&sorted);
    let out = join_slash_strs(&deduped);
    proof {
        lemma_split_nonempty(license@);
        assert(str_views(parts@).len() >= 1);
        assert(str_views(trimmed@).len() >= 1);
        assert(str_views(sorted@).len() >= 1);
        assert(deduped@.len() >= 1);
        lemma_split_no_slash(license@);
        assert forall|m: int|
            0 <= m < str_views(deduped@).len() implies !(#[trigger] str_views(deduped@)[m]).contains(
            '/',
        ) by {
            let y = str_views(deduped@)[m];
            assert(str_views(deduped@).contains(y));
            assert(str_views(trimmed@).contains(y));
            let w = choose|w: int|
                0 <= w < str_views(trimmed@).len() && str_views(trimmed@)[w] == y;
            let orig = str_views(parts@)[w];
            assert(y == trim_spec(orig));
            assert(!orig.contains('/'));
            lemma_trim_sub(orig);
        }
        lemma_split_join(str_views(deduped@));
        assert(same_elements(split_slash(out@), str_views(trimmed@))) by {
            assert(split_slash(out@) == str_views(deduped@));
        }
    }
    out
}

/// Trimming never adds characters: a character of the trimmed string stands
/// in the original.
proof fn lemma_trim_sub(s: Seq<char>)
    ensures
        forall|c: char| trim_spec(s).contains(c) ==> s.contains(c),
{
    lemma_trim_front_sub(s);
    lemma_trim_back_sub(trim_front(s));
    assert forall|c: char| trim_spec(s).contains(c) implies s.contains(c) by {
        assert(trim_front(s).contains(c));
    }
}

proof fn lemma_trim_front_sub(s: Seq<char>)
    ensures
        forall|c: char| trim_front(s).contains(c) ==> s.contains(c),
    decreases s.len(),
{
    if s.len() > 0 && is_space(s[0]) {
        lemma_trim_front_sub(s.drop_first());
        assert forall|c: char| trim_front(s).contains(c) implies s.contains(c) by {
            assert(s.drop_first().contains(c));
            let m = choose|m: int|
                0 <= m < s.drop_first().len() && s.drop_first()[m] == c;
            assert(s[m + 1] == c);
        }
    }
}

proof fn lemma_trim_back_sub(s: Seq<char>)
    ensures
        forall|c: char| trim_back(s).contains(c) ==> s.contains(c),
    decreases s.len(),
{
    if s.len() > 0 && is_space(s.last()) {
        lemma_trim_back_sub(s.drop_last());
        assert forall|c: char| trim_back(s).contains(c) implies s.contains(c) by {
            assert(s.drop_last().contains(c));
            let m = choose|m: int| 0 <= m < s.drop_last().len() && s.drop_last()[m] == c;
            assert(s[m] == c);
        }
    }
}


} // verus!
