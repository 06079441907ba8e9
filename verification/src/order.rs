//! The order of strings (`str`'s `Ord`: lexicographic by character) and
//! sorting by it.
use vstd::prelude::*;

verus! {

broadcast use vstd::seq_lib::to_multiset_insert;

/// `a <= b` in lexicographic order of characters, the order of `String`'s `Ord`
/// (UTF-8 byte order and character order agree).
pub open spec fn lex_le(a: Seq<char>, b: Seq<char>) -> bool
    decreases a.len(),
{
    if a.len() == 0 {
        true
    } else if b.len() == 0 {
        false
    } else if a[0] != b[0] {
        a[0] < b[0]
    } else {
        lex_le(a.drop_first(), b.drop_first())
    }
}

pub proof fn lemma_lex_le_total(a: Seq<char>, b: Seq<char>)
    ensures
        lex_le(a, b) || lex_le(b, a),
    decreases a.len(),
{
    if a.len() > 0 && b.len() > 0 && a[0] == b[0] {
        lemma_lex_le_total(a.drop_first(), b.drop_first());
    }
}

pub proof fn lemma_lex_le_trans(a: Seq<char>, b: Seq<char>, c: Seq<char>)
    requires
        lex_le(a, b),
        lex_le(b, c),
    ensures
        lex_le(a, c),
    decreases a.len(),
{
    if a.len() > 0 && b.len() > 0 && c.len() > 0 && a[0] == b[0] && b[0] == c[0] {
        lemma_lex_le_trans(a.drop_first(), b.drop_first(), c.drop_first());
    }
}

pub proof fn lemma_lex_le_antisym(a: Seq<char>, b: Seq<char>)
    requires
        lex_le(a, b),
        lex_le(b, a),
    ensures
        a == b,
    decreases a.len(),
{
    if a.len() > 0 && b.len() > 0 {
        lemma_lex_le_antisym(a.drop_first(), b.drop_first());
        assert(a =~= seq![a[0]] + a.drop_first());
        assert(b =~= seq![b[0]] + b.drop_first());
    } else {
        assert(a =~= b);
    }
}

/// Whether the words are in ascending order.
pub open spec fn is_sorted(s: Seq<Seq<char>>) -> bool {
    forall|i: int, j: int| 0 <= i < j < s.len() ==> lex_le(s[i], s[j])
}

/// Where `x` goes in `r` when inserted after every word not above it.
pub open spec fn insert_pos(r: Seq<Seq<char>>, x: Seq<char>, i: int) -> int
    decreases r.len() - i,
{
    if i >= r.len() || i < 0 {
        r.len() as int
    } else if lex_le(r[i], x) {
        insert_pos(r, x, i + 1)
    } else {
        i
    }
}

/// The words in ascending order, as `sort` leaves them: each word is inserted
/// after every earlier word not above it.
pub open spec fn sorted(s: Seq<Seq<char>>) -> Seq<Seq<char>>
    decreases s.len(),
{
    if s.len() == 0 {
        Seq::empty()
    } else {
        let r = sorted(s.drop_last());
        r.insert(insert_pos(r, s.last(), 0), s.last())
    }
}

proof fn lemma_insert_pos(r: Seq<Seq<char>>, x: Seq<char>, i: int)
    requires
        0 <= i <= r.len(),
        forall|k: int| 0 <= k < i ==> lex_le(#[trigger] r[k], x),
    ensures
        i <= insert_pos(r, x, i) <= r.len(),
        forall|k: int| 0 <= k < insert_pos(r, x, i) ==> lex_le(#[trigger] r[k], x),
        insert_pos(r, x, i) < r.len() ==> !lex_le(r[insert_pos(r, x, i)], x),
    decreases r.len() - i,
{
    if i < r.len() && lex_le(r[i], x) {
        lemma_insert_pos(r, x, i + 1);
    }
}

/// `sorted` gives the words in ascending order, and exactly the words given.
pub proof fn lemma_sorted(s: Seq<Seq<char>>)
    ensures
        is_sorted(sorted(s)),
        sorted(s).to_multiset() == s.to_multiset(),
    decreases s.len(),
{
    if s.len() > 0 {
        let r = sorted(s.drop_last());
        let x = s.last();
        lemma_sorted(s.drop_last());
        lemma_insert_pos(r, x, 0);
        let p = insert_pos(r, x, 0);
        let t = r.insert(p, x);
        assert forall|i: int, j: int| 0 <= i < j < t.len() implies lex_le(t[i], t[j]) by {
            if j < p {
                assert(t[i] == r[i] && t[j] == r[j]);
            } else if j == p {
                assert(t[i] == r[i]);
            } else if i == p {
                assert(t[j] == r[j - 1]);
                lemma_lex_le_total(r[p], x);
                if j - 1 > p {
                    lemma_lex_le_trans(x, r[p], r[j - 1]);
                }
            } else if i < p {
                assert(t[i] == r[i] && t[j] == r[j - 1]);
            } else {
                assert(t[i] == r[i - 1] && t[j] == r[j - 1]);
            }
        }
        vstd::seq_lib::to_multiset_build(s.drop_last(), x);
        vstd::seq_lib::to_multiset_insert(r, p, x);
        assert(s.drop_last().push(x) =~= s);
        assert(t.to_multiset() == s.to_multiset());
    } else {
        assert(s =~= Seq::<Seq<char>>::empty());
    }
}

/// Sorts the words in ascending order.
pub fn sort_words(v: &Vec<Vec<char>>) -> (r: Vec<Vec<char>>)
    ensures
        crate::text::cviews(r@) == sorted(crate::text::cviews(v@)),
{
    let ghost sv = crate::text::cviews(v@);
    let mut r: Vec<Vec<char>> = Vec::new();
    let mut k: usize = 0;
    assert(crate::text::cviews(r@) =~= sorted(sv.take(0)));
    while k < v.len()
        invariant
            k <= v.len(),
            sv == crate::text::cviews(v@),
            crate::text::cviews(r@) == sorted(sv.take(k as int)),
        decreases v.len() - k,
    {
        let x = &v[k];
        let ghost rv = crate::text::cviews(r@);
        let mut p: usize = 0;
        while p < r.len() && lex_le_exec(&r[p], x)
            invariant
                p <= r.len(),
                rv == crate::text::cviews(r@),
                insert_pos(rv, x@, 0) == insert_pos(rv, x@, p as int),
            decreases r.len() - p,
        {
            p += 1;
        }
        r.insert(p, x.clone());
        assert(crate::text::cviews(r@) =~= rv.insert(p as int, x@));
        assert(sv.take(k + 1).drop_last() =~= sv.take(k as int));
        k += 1;
    }
    assert(sv.take(v.len() as int) =~= sv);
    r
}

/// Whether `a <= b` in lexicographic order.
pub fn lex_le_exec(a: &Vec<char>, b: &Vec<char>) -> (r: bool)
    ensures
        r == lex_le(a@, b@),
{
    let mut i: usize = 0;
    assert(a@.skip(0) =~= a@ && b@.skip(0) =~= b@);
    while i < a.len() && i < b.len() && a[i] == b[i]
        invariant
            i <= a.len(),
            i <= b.len(),
            lex_le(a@, b@) == lex_le(a@.skip(i as int), b@.skip(i as int)),
        decreases a.len() - i,
    {
        assert(a@.skip(i as int).drop_first() =~= a@.skip(i + 1));
        assert(b@.skip(i as int).drop_first() =~= b@.skip(i + 1));
        i += 1;
    }
    if i == a.len() {
        true
    } else if i == b.len() {
        false
    } else {
        a[i] < b[i]
    }
}


/// Whether the pairs are in ascending order of their first parts.
pub open spec fn is_sorted_by_name(s: Seq<(Seq<char>, Seq<char>)>) -> bool {
    forall|i: int, j: int| 0 <= i < j < s.len() ==> lex_le(s[i].0, s[j].0)
}

/// Where `x` goes in `r` when inserted after every pair whose name is not
/// above its name.
pub open spec fn insert_pos_by_name(r: Seq<(Seq<char>, Seq<char>)>, x: (Seq<char>, Seq<char>), i: int) -> int
    decreases r.len() - i,
{
    if i >= r.len() || i < 0 {
        r.len() as int
    } else if lex_le(r[i].0, x.0) {
        insert_pos_by_name(r, x, i + 1)
    } else {
        i
    }
}

/// The pairs in ascending order of their names, as a stable sort by name
/// leaves them: each pair is inserted after every earlier pair whose name is
/// not above its name.
pub open spec fn sorted_by_name(s: Seq<(Seq<char>, Seq<char>)>) -> Seq<(Seq<char>, Seq<char>)>
    decreases s.len(),
{
    if s.len() == 0 {
        Seq::empty()
    } else {
        let r = sorted_by_name(s.drop_last());
        r.insert(insert_pos_by_name(r, s.last(), 0), s.last())
    }
}

proof fn lemma_insert_pos_by_name(r: Seq<(Seq<char>, Seq<char>)>, x: (Seq<char>, Seq<char>), i: int)
    requires
        0 <= i <= r.len(),
        forall|k: int| 0 <= k < i ==> lex_le(#[trigger] r[k].0, x.0),
    ensures
        i <= insert_pos_by_name(r, x, i) <= r.len(),
        forall|k: int| 0 <= k < insert_pos_by_name(r, x, i) ==> lex_le(#[trigger] r[k].0, x.0),
        insert_pos_by_name(r, x, i) < r.len() ==> !lex_le(r[insert_pos_by_name(r, x, i)].0, x.0),
    decreases r.len() - i,
{
    if i < r.len() && lex_le(r[i].0, x.0) {
        lemma_insert_pos_by_name(r, x, i + 1);
    }
}

/// `sorted_by_name` gives the pairs in ascending order of their names, and
/// exactly the pairs given.
pub proof fn lemma_sorted_by_name(s: Seq<(Seq<char>, Seq<char>)>)
    ensures
        is_sorted_by_name(sorted_by_name(s)),
        sorted_by_name(s).to_multiset() == s.to_multiset(),
    decreases s.len(),
{
    if s.len() > 0 {
        let r = sorted_by_name(s.drop_last());
        let x = s.last();
        lemma_sorted_by_name(s.drop_last());
        lemma_insert_pos_by_name(r, x, 0);
        let p = insert_pos_by_name(r, x, 0);
        let t = r.insert(p, x);
        assert forall|i: int, j: int| 0 <= i < j < t.len() implies lex_le(t[i].0, t[j].0) by {
            if j < p {
                assert(t[i] == r[i] && t[j] == r[j]);
            } else if j == p {
                assert(t[i] == r[i]);
            } else if i == p {
                assert(t[j] == r[j - 1]);
                lemma_lex_le_total(r[p].0, x.0);
                if j - 1 > p {
                    lemma_lex_le_trans(x.0, r[p].0, r[j - 1].0);
                }
            } else if i < p {
                assert(t[i] == r[i] && t[j] == r[j - 1]);
            } else {
                assert(t[i] == r[i - 1] && t[j] == r[j - 1]);
            }
        }
        vstd::seq_lib::to_multiset_build(s.drop_last(), x);
        vstd::seq_lib::to_multiset_insert(r, p, x);
        assert(s.drop_last().push(x) =~= s);
        assert(t.to_multiset() == s.to_multiset());
    } else {
        assert(s =~= Seq::<(Seq<char>, Seq<char>)>::empty());
    }
}

pub open spec fn pair_views(v: Seq<(String, String)>) -> Seq<(Seq<char>, Seq<char>)> {
    v.map_values(|p: (String, String)| (p.0@, p.1@))
}

/// Sorts (name, value) pairs by name, keeping pairs with equal names in
/// their order.
pub fn sort_by_name(v: &Vec<(String, String)>) -> (r: Vec<(String, String)>)
    ensures
        pair_views(r@) == sorted_by_name(pair_views(v@)),
{
    let ghost sv = pair_views(v@);
    let mut r: Vec<(String, String)> = Vec::new();
    let mut k: usize = 0;
    assert(pair_views(r@) =~= sorted_by_name(sv.take(0)));
    while k < v.len()
        invariant
            k <= v.len(),
            sv == pair_views(v@),
            pair_views(r@) == sorted_by_name(sv.take(k as int)),
        decreases v.len() - k,
    {
        let x = &v[k];
        let xn = crate::text::chars_of(x.0.as_str());
        let ghost rv = pair_views(r@);
        assert(sv[k as int] == (x.0@, x.1@));
        let mut p: usize = 0;
        while p < r.len() && lex_le_exec(&crate::text::chars_of(r[p].0.as_str()), &xn)
            invariant
                p <= r.len(),
                rv == pair_views(r@),
                xn@ == x.0@,
                insert_pos_by_name(rv, (x.0@, x.1@), 0) == insert_pos_by_name(rv, (x.0@, x.1@), p as int),
            decreases r.len() - p,
        {
            assert(rv[p as int] == (r@[p as int].0@, r@[p as int].1@));
            p += 1;
        }
        proof {
            if p < r.len() {
                assert(rv[p as int] == (r@[p as int].0@, r@[p as int].1@));
            }
        }
        r.insert(p, (x.0.clone(), x.1.clone()));
        assert(pair_views(r@) =~= rv.insert(p as int, (x.0@, x.1@)));
        assert(sv.take(k + 1).drop_last() =~= sv.take(k as int));
        k += 1;
    }
    assert(sv.take(v.len() as int) =~= sv);
    r
}

} // verus!
