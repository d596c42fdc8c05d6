//! Character-level string utilities: a lexicographic order on character
//! sequences with its order laws, and executable comparisons over `&str`.

use vstd::prelude::*;

verus! {

/// The views of a sequence of `String`s, as a sequence of character sequences.
pub open spec fn views(v: Seq<String>) -> Seq<Seq<char>> {
    v.map_values(|s: String| s@)
}

/// Lexicographic order on character sequences by Unicode scalar value; a
/// proper prefix sorts before its extensions. This is the order of `str`'s
/// own `Ord`, since UTF-8 byte order agrees with scalar-value order.
pub open spec fn lex_le(a: Seq<char>, b: Seq<char>) -> bool
    decreases a.len(),
{
    if a.len() == 0 {
        true
    } else if b.len() == 0 {
        false
    } else if a[0] == b[0] {
        lex_le(a.drop_first(), b.drop_first())
    } else {
        (a[0] as int) < (b[0] as int)
    }
}

pub proof fn lemma_lex_le_total(a: Seq<char>, b: Seq<char>)
    ensures
        lex_le(a, b) || lex_le(b, a),
    decreases a.len(),
{
    if a.len() == 0 || b.len() == 0 {
    } else if a[0] == b[0] {
        lemma_lex_le_total(a.drop_first(), b.drop_first());
    } else {
        assert(a[0] as int != b[0] as int);
    }
}

pub proof fn lemma_lex_le_antisymmetric(a: Seq<char>, b: Seq<char>)
    requires
        lex_le(a, b),
        lex_le(b, a),
    ensures
        a == b,
    decreases a.len(),
{
    if a.len() == 0 {
        assert(b.len() == 0);
        assert(a =~= b);
    } else {
        assert(b.len() > 0);
        assert(a[0] == b[0]);
        lemma_lex_le_antisymmetric(a.drop_first(), b.drop_first());
        assert(a =~= seq![a[0]].add(a.drop_first()));
        assert(b =~= seq![b[0]].add(b.drop_first()));
    }
}

pub proof fn lemma_lex_le_transitive(a: Seq<char>, b: Seq<char>, c: Seq<char>)
    requires
        lex_le(a, b),
        lex_le(b, c),
    ensures
        lex_le(a, c),
    decreases a.len(),
{
    if a.len() == 0 || b.len() == 0 || c.len() == 0 {
    } else if a[0] == b[0] && b[0] == c[0] {
        lemma_lex_le_transitive(a.drop_first(), b.drop_first(), c.drop_first());
    }
}

/// Executable lexicographic comparison of two string slices.
pub fn str_le(a: &str, b: &str) -> (r: bool)
    ensures
        r == lex_le(a@, b@),
{
    let alen = a.unicode_len();
    let blen = b.unicode_len();
    let mut i: usize = 0;
    proof {
        assert(a@.skip(0) =~= a@);
        assert(b@.skip(0) =~= b@);
        assert(a@.subrange(0, 0) =~= b@.subrange(0, 0));
    }
    loop
        invariant
            i <= alen,
            i <= blen,
            alen == a@.len(),
            blen == b@.len(),
            a@.subrange(0, i as int) == b@.subrange(0, i as int),
            lex_le(a@, b@) == lex_le(a@.skip(i as int), b@.skip(i as int)),
        decreases alen - i,
    {
        if i >= alen {
            assert(a@.skip(i as int).len() == 0);
            return true;
        }
        if i >= blen {
            assert(b@.skip(i as int).len() == 0);
            assert(a@.skip(i as int).len() > 0);
            return false;
        }
        let ca = a.get_char(i);
        let cb = b.get_char(i);
        if ca == cb {
            proof {
                assert(a@.skip(i as int)[0] == ca);
                assert(b@.skip(i as int)[0] == cb);
                assert(a@.skip(i as int).drop_first() =~= a@.skip(i + 1));
                assert(b@.skip(i as int).drop_first() =~= b@.skip(i + 1));
                assert(a@.subrange(0, i + 1) =~= b@.subrange(0, i + 1));
            }
            i = i + 1;
        } else {
            proof {
                assert(a@.skip(i as int)[0] == ca);
                assert(b@.skip(i as int)[0] == cb);
                assert(((ca as u32) < (cb as u32)) == ((ca as int) < (cb as int)));
            }
            return (ca as u32) < (cb as u32);
        }
    }
}

/// Executable search for one character in a string slice.
pub fn contains_char(s: &str, c: char) -> (r: bool)
    ensures
        r == s@.contains(c),
{
    let len = s.unicode_len();
    let mut i: usize = 0;
    while i < len
        invariant
            i <= len,
            len == s@.len(),
            forall|j: int| 0 <= j < i ==> s@[j] != c,
        decreases len - i,
    {
        if s.get_char(i) == c {
            return true;
        }
        i = i + 1;
    }
    false
}

/// `p` is a prefix of `s`.
pub open spec fn has_prefix(s: Seq<char>, p: Seq<char>) -> bool {
    p.len() <= s.len() && s.subrange(0, p.len() as int) == p
}

/// Executable prefix test.
pub fn str_has_prefix(s: &str, p: &str) -> (r: bool)
    ensures
        r == has_prefix(s@, p@),
{
    let slen = s.unicode_len();
    let plen = p.unicode_len();
    if plen > slen {
        return false;
    }
    let mut i: usize = 0;
    while i < plen
        invariant
            i <= plen,
            plen <= slen,
            slen == s@.len(),
            plen == p@.len(),
            forall|j: int| 0 <= j < i ==> s@[j] == p@[j],
        decreases plen - i,
    {
        if s.get_char(i) != p.get_char(i) {
            assert(!has_prefix(s@, p@)) by {
                assert(s@.subrange(0, p@.len() as int)[i as int] == s@[i as int]);
            }
            return false;
        }
        i = i + 1;
    }
    assert(s@.subrange(0, p@.len() as int) =~= p@);
    true
}


/// Executable equality of string slices through the verified comparison.
pub fn str_eq(a: &str, b: &str) -> (r: bool)
    ensures
        r == (a@ == b@),
{
    let le1 = str_le(a, b);
    let le2 = str_le(b, a);
    proof {
        lemma_lex_le_total(a@, b@);
        if lex_le(a@, b@) && lex_le(b@, a@) {
            lemma_lex_le_antisymmetric(a@, b@);
        }
    }
    le1 && le2
}

pub proof fn lemma_push_contains<T>(v: Seq<T>, x: T, y: T)
    ensures
        v.push(x).contains(y) <==> (v.contains(y) || y == x),
{
    if v.contains(y) {
        let m = choose|m: int| 0 <= m < v.len() && v[m] == y;
        assert(v.push(x)[m] == y);
    }
    assert(v.push(x)[v.len() as int] == x);
    if v.push(x).contains(y) {
        let m = choose|m: int| 0 <= m < v.push(x).len() && v.push(x)[m] == y;
        if m < v.len() {
            assert(v[m] == y);
        }
    }
}

pub proof fn lemma_insert_contains<T>(v: Seq<T>, k: int, x: T, y: T)
    requires
        0 <= k <= v.len(),
    ensures
        v.insert(k, x).contains(y) <==> (v.contains(y) || y == x),
{
    let w = v.insert(k, x);
    if v.contains(y) {
        let m = choose|m: int| 0 <= m < v.len() && v[m] == y;
        if m < k {
            assert(w[m] == y);
        } else {
            assert(w[m + 1] == y);
        }
    }
    assert(w[k] == x);
    if w.contains(y) {
        let m = choose|m: int| 0 <= m < w.len() && w[m] == y;
        if m < k {
            assert(v[m] == y);
        } else if m > k {
            assert(v[m - 1] == y);
        }
    }
}


/// Membership before and after dropping the last element.
pub proof fn lemma_drop_last_contains<T>(v: Seq<T>, y: T)
    requires
        v.len() > 0,
    ensures
        v.contains(y) ==> (v.drop_last().contains(y) || y == v.last()),
        v.drop_last().contains(y) ==> v.contains(y),
{
    if v.contains(y) {
        let m = choose|m: int| 0 <= m < v.len() && v[m] == y;
        if m < v.len() - 1 {
            assert(v.drop_last()[m] == y);
        }
    }
    if v.drop_last().contains(y) {
        let m = choose|m: int| 0 <= m < v.drop_last().len() && v.drop_last()[m] == y;
        assert(v[m] == y);
    }
}

/// Executable membership of a string in a vector of strings.
pub fn vec_contains_str(v: &Vec<String>, x: &str) -> (r: bool)
    ensures
        r == views(v@).contains(x@),
{
    let mut i: usize = 0;
    while i < v.len()
        invariant
            i <= v@.len(),
            forall|j: int| 0 <= j < i ==> views(v@)[j] != x@,
        decreases v@.len() - i,
    {
        if str_eq(v[i].as_str(), x) {
            assert(views(v@)[i as int] == x@);
            return true;
        }
        i = i + 1;
    }
    false
}

/// Append a copy of every string of `src` to `dst`.
pub fn push_all(dst: &mut Vec<String>, src: &Vec<String>)
    ensures
        views(final(dst)@) == views(old(dst)@).add(views(src@)),
{
    let mut i: usize = 0;
    proof {
        assert(views(dst@) =~= views(dst@).add(views(src@).take(0)));
    }
    while i < src.len()
        invariant
            i <= src@.len(),
            views(dst@) == views(old(dst)@).add(views(src@).take(i as int)),
        decreases src@.len() - i,
    {
        let ghost prev = dst@;
        dst.push(src[i].clone());
        proof {
            assert(views(dst@) =~= views(prev).push(src@[i as int]@));
            assert(views(old(dst)@).add(views(src@).take(i + 1)) =~= views(old(dst)@).add(
                views(src@).take(i as int),
            ).push(views(src@)[i as int]));
        }
        i = i + 1;
    }
    proof {
        assert(views(src@).take(i as int) =~= views(src@));
    }
}


/// Membership in a concatenation.
pub proof fn lemma_add_contains<T>(a: Seq<T>, b: Seq<T>, y: T)
    ensures
        a.add(b).contains(y) <==> (a.contains(y) || b.contains(y)),
{
    if a.contains(y) {
        let m = choose|m: int| 0 <= m < a.len() && a[m] == y;
        assert(a.add(b)[m] == y);
    }
    if b.contains(y) {
        let m = choose|m: int| 0 <= m < b.len() && b[m] == y;
        assert(a.add(b)[a.len() + m] == y);
    }
    if a.add(b).contains(y) {
        let m = choose|m: int| 0 <= m < a.add(b).len() && a.add(b)[m] == y;
        if m < a.len() {
            assert(a[m] == y);
        } else {
            assert(b[m - a.len()] == y);
        }
    }
}


/// Prefix order is transitive, and a prefix's entries stand unchanged.
pub proof fn lemma_prefix_transitive<T>(a: Seq<T>, b: Seq<T>, c: Seq<T>)
    requires
        a.is_prefix_of(b),
        b.is_prefix_of(c),
    ensures
        a.is_prefix_of(c),
{
    assert forall|m: int| 0 <= m < a.len() implies a[m] == c.subrange(0, a.len() as int)[m] by {
        assert(a[m] == b.subrange(0, a.len() as int)[m]);
        assert(b[m] == c.subrange(0, b.len() as int)[m]);
    }
    assert(a =~= c.subrange(0, a.len() as int));
}

/// An index below a prefix's length reads the same value in both.
pub proof fn lemma_prefix_index<T>(a: Seq<T>, b: Seq<T>, m: int)
    requires
        a.is_prefix_of(b),
        0 <= m < a.len(),
    ensures
        a[m] == b[m],
{
    assert(a[m] == b.subrange(0, a.len() as int)[m]);
}

} // verus!




