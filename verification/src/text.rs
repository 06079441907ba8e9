//! Characters and strings: classification of characters, conversion between
//! `&str` and character vectors, trimming, whitespace splitting and joining.
use vstd::prelude::*;

verus! {

/// Whether `c` has the Unicode `White_Space` property: tab, line feed,
/// vertical tab, form feed, carriage return, space, next line, no-break
/// space, ogham space mark, the spaces from en quad to hair space, line and
/// paragraph separator, narrow no-break space, medium mathematical space and
/// ideographic space.
pub open spec fn char_is_whitespace(c: char) -> bool {
    let n = c as u32;
    (0x9 <= n <= 0xd) || n == 0x20 || n == 0x85 || n == 0xa0 || n == 0x1680
        || (0x2000 <= n <= 0x200a) || n == 0x2028 || n == 0x2029 || n == 0x202f
        || n == 0x205f || n == 0x3000
}

/// Whether `c` is whitespace, as `char::is_whitespace` documents it (the
/// Unicode `White_Space` property).
pub fn is_whitespace(c: char) -> (r: bool)
    ensures
        r == char_is_whitespace(c),
{
    let n = c as u32;
    (0x9 <= n && n <= 0xd) || n == 0x20 || n == 0x85 || n == 0xa0 || n == 0x1680
        || (0x2000 <= n && n <= 0x200a) || n == 0x2028 || n == 0x2029 || n == 0x202f
        || n == 0x205f || n == 0x3000
}

/// What `char::is_alphanumeric` returns for `c` (the Unicode `Alphabetic` or
/// `Numeric` property).
pub uninterp spec fn char_is_alphanumeric(c: char) -> bool;

/// Whether `c` is an ASCII letter.
pub open spec fn ascii_letter(c: char) -> bool {
    ('a' <= c && c <= 'z') || ('A' <= c && c <= 'Z')
}

/// Whether `c` is an ASCII digit.
pub open spec fn ascii_digit(c: char) -> bool {
    '0' <= c && c <= '9'
}

/// Calls `char::is_alphanumeric`. The contract claims that the result is a
/// function of `c` alone and, for an ASCII character, that it holds exactly
/// for the letters and digits (no other ASCII character is `Alphabetic` or
/// `Numeric`); which other characters are alphanumeric is left unsaid.
#[verifier::external_body]
pub(crate) fn is_alphanumeric(c: char) -> (r: bool)
    ensures
        r == char_is_alphanumeric(c),
        (c as u32) < 0x80 ==> (r <==> (ascii_letter(c) || ascii_digit(c))),
{
    c.is_alphanumeric()
}

/// What `char::is_alphabetic` returns for `c` (the Unicode `Alphabetic` property).
pub uninterp spec fn char_is_alphabetic(c: char) -> bool;

/// Calls `char::is_alphabetic`. The contract claims that the result is a
/// function of `c` alone and, for an ASCII character, that it holds exactly
/// for the letters; which other characters are alphabetic is left unsaid.
#[verifier::external_body]
pub(crate) fn is_alphabetic(c: char) -> (r: bool)
    ensures
        r == char_is_alphabetic(c),
        (c as u32) < 0x80 ==> (r <==> ascii_letter(c)),
{
    c.is_alphabetic()
}

/// Appends `c` to `s` with `String::push`; the contract claims exactly that.
#[verifier::external_body]
pub(crate) fn push_char(s: &mut String, c: char)
    ensures
        final(s)@ == old(s)@.push(c),
{
    s.push(c);
}

/// The sequence without the whitespace at its start.
pub open spec fn trim_start(s: Seq<char>) -> Seq<char>
    decreases s.len(),
{
    if s.len() > 0 && char_is_whitespace(s[0]) {
        trim_start(s.drop_first())
    } else {
        s
    }
}

/// The sequence without the whitespace at its end.
pub open spec fn trim_end(s: Seq<char>) -> Seq<char>
    decreases s.len(),
{
    if s.len() > 0 && char_is_whitespace(s.last()) {
        trim_end(s.drop_last())
    } else {
        s
    }
}

/// `str::trim`: the sequence without leading and trailing whitespace.
pub open spec fn trim(s: Seq<char>) -> Seq<char> {
    trim_end(trim_start(s))
}

/// The words of `s`, as `str::split_whitespace` gives them: the maximal runs
/// of non-whitespace characters, in order. `cur` is the word being read and
/// `acc` the words already complete.
pub open spec fn split_ws_from(s: Seq<char>, cur: Seq<char>, acc: Seq<Seq<char>>) -> Seq<Seq<char>>
    decreases s.len(),
{
    if s.len() == 0 {
        if cur.len() > 0 { acc.push(cur) } else { acc }
    } else if char_is_whitespace(s[0]) {
        split_ws_from(s.drop_first(), Seq::empty(), if cur.len() > 0 { acc.push(cur) } else { acc })
    } else {
        split_ws_from(s.drop_first(), cur.push(s[0]), acc)
    }
}

pub open spec fn split_ws(s: Seq<char>) -> Seq<Seq<char>> {
    split_ws_from(s, Seq::empty(), Seq::empty())
}

/// The parts joined with `sep` between consecutive parts.
pub open spec fn join(parts: Seq<Seq<char>>, sep: Seq<char>) -> Seq<char>
    decreases parts.len(),
{
    if parts.len() == 0 {
        Seq::empty()
    } else if parts.len() == 1 {
        parts[0]
    } else {
        join(parts.drop_last(), sep) + sep + parts.last()
    }
}

/// The views of a vector of strings.
pub open spec fn views(v: Seq<String>) -> Seq<Seq<char>> {
    v.map_values(|s: String| s@)
}

/// The views of a vector of character vectors.
pub open spec fn cviews(v: Seq<Vec<char>>) -> Seq<Seq<char>> {
    v.map_values(|w: Vec<char>| w@)
}

pub proof fn lemma_cviews_push(v: Seq<Vec<char>>, w: Vec<char>)
    ensures
        cviews(v.push(w)) == cviews(v).push(w@),
{
    assert(cviews(v.push(w)) =~= cviews(v).push(w@));
}

/// Whether `c` occurs in `s`.
pub open spec fn has_char(s: Seq<char>, c: char) -> bool {
    exists|i: int| 0 <= i < s.len() && s[i] == c
}

pub proof fn lemma_skip_step(s: Seq<char>, i: int)
    requires
        0 <= i < s.len(),
    ensures
        s.skip(i).len() > 0,
        s.skip(i)[0] == s[i],
        s.skip(i).drop_first() == s.skip(i + 1),
        i + 1 < s.len() ==> s.skip(i)[1] == s[i + 1],
        i + 1 < s.len() ==> s.skip(i).drop_first().drop_first() == s.skip(i + 2),
        s.skip(i).skip(1) == s.skip(i + 1),
        i + 1 < s.len() ==> s.skip(i).skip(2) == s.skip(i + 2),
{
    assert(s.skip(i).drop_first() =~= s.skip(i + 1));
    assert(s.skip(i).skip(1) =~= s.skip(i + 1));
    if i + 1 < s.len() {
        assert(s.skip(i).drop_first().drop_first() =~= s.skip(i + 2));
        assert(s.skip(i).skip(2) =~= s.skip(i + 2));
    }
}

/// The characters of `s`, in order.
pub fn chars_of(s: &str) -> (v: Vec<char>)
    ensures
        v@ == s@,
{
    let mut v: Vec<char> = Vec::new();
    for c in it: s.chars()
        invariant
            v@ == it.seq().take(it.index() as int),
            it.seq() == s@,
    {
        v.push(c);
    }
    v
}

/// A string holding the characters of `v`.
pub fn string_of(v: &Vec<char>) -> (s: String)
    ensures
        s@ == v@,
{
    let mut s = String::new();
    let mut i: usize = 0;
    while i < v.len()
        invariant
            i <= v.len(),
            s@ == v@.take(i as int),
        decreases v.len() - i,
    {
        push_char(&mut s, v[i]);
        assert(v@.take(i as int).push(v@[i as int]) =~= v@.take(i + 1));
        i += 1;
    }
    assert(v@.take(v.len() as int) =~= v@);
    s
}

/// The characters `v[from..to]`.
pub fn sub_chars(v: &Vec<char>, from: usize, to: usize) -> (r: Vec<char>)
    requires
        from <= to <= v.len(),
    ensures
        r@ == v@.subrange(from as int, to as int),
{
    let mut r: Vec<char> = Vec::new();
    let mut i = from;
    while i < to
        invariant
            from <= i <= to <= v.len(),
            r@ == v@.subrange(from as int, i as int),
        decreases to - i,
    {
        r.push(v[i]);
        assert(v@.subrange(from as int, i as int).push(v@[i as int]) =~= v@.subrange(from as int, i + 1));
        i += 1;
    }
    r
}

/// Appends the characters of `w` to `v`.
pub fn append_chars(v: &mut Vec<char>, w: &Vec<char>)
    ensures
        final(v)@ == old(v)@ + w@,
{
    let mut i: usize = 0;
    while i < w.len()
        invariant
            i <= w.len(),
            v@ == old(v)@ + w@.take(i as int),
        decreases w.len() - i,
    {
        v.push(w[i]);
        assert(old(v)@ + w@.take(i as int) + seq![w@[i as int]] =~= old(v)@ + w@.take(i + 1));
        i += 1;
    }
    assert(w@.take(w.len() as int) =~= w@);
}

/// Appends the characters of `s` to `v`.
pub fn append_str(v: &mut Vec<char>, s: &str)
    ensures
        final(v)@ == old(v)@ + s@,
{
    let w = chars_of(s);
    append_chars(v, &w);
}

/// Whether two character vectors hold the same characters.
pub fn chars_eq(a: &Vec<char>, b: &Vec<char>) -> (r: bool)
    ensures
        r == (a@ == b@),
{
    if a.len() != b.len() {
        return false;
    }
    let mut i: usize = 0;
    while i < a.len()
        invariant
            a.len() == b.len(),
            i <= a.len(),
            forall|k: int| 0 <= k < i ==> a@[k] == b@[k],
        decreases a.len() - i,
    {
        if a[i] != b[i] {
            return false;
        }
        i += 1;
    }
    assert(a@ =~= b@);
    true
}

/// Whether the characters of `a` are those of the string literal-like `s`.
pub fn chars_eq_str(a: &Vec<char>, s: &str) -> (r: bool)
    ensures
        r == (a@ == s@),
{
    let b = chars_of(s);
    chars_eq(a, &b)
}

/// Whether `c` occurs in `v`.
pub fn contains_char(v: &Vec<char>, c: char) -> (r: bool)
    ensures
        r == has_char(v@, c),
{
    let mut i: usize = 0;
    while i < v.len()
        invariant
            i <= v.len(),
            forall|k: int| 0 <= k < i ==> v@[k] != c,
        decreases v.len() - i,
    {
        if v[i] == c {
            return true;
        }
        i += 1;
    }
    false
}

proof fn lemma_trim_start_skip(s: Seq<char>, i: int)
    requires
        0 <= i < s.len(),
        char_is_whitespace(s[i]),
    ensures
        trim_start(s.skip(i)) == trim_start(s.skip(i + 1)),
{
    lemma_skip_step(s, i);
}

proof fn lemma_trim_end_take(s: Seq<char>, k: int)
    requires
        0 < k <= s.len(),
        char_is_whitespace(s[k - 1]),
    ensures
        trim_end(s.take(k)) == trim_end(s.take(k - 1)),
{
    assert(s.take(k).drop_last() =~= s.take(k - 1));
}

/// `str::trim` on a character vector.
pub fn trim_chars(v: &Vec<char>) -> (r: Vec<char>)
    ensures
        r@ == trim(v@),
{
    let n = v.len();
    let mut i: usize = 0;
    assert(v@.skip(0) =~= v@);
    while i < n && is_whitespace(v[i])
        invariant
            n == v.len(),
            i <= n,
            trim_start(v@) == trim_start(v@.skip(i as int)),
        decreases n - i,
    {
        proof { lemma_trim_start_skip(v@, i as int); }
        i += 1;
    }
    let ghost t = v@.skip(i as int);
    assert(trim_start(v@) == t) by {
        if i < n {
            lemma_skip_step(v@, i as int);
        } else {
            assert(t.len() == 0);
        }
    }
    let mut j: usize = n;
    assert(t.take(n - i) =~= t);
    while j > i && is_whitespace(v[j - 1])
        invariant
            n == v.len(),
            i <= j <= n,
            t == v@.skip(i as int),
            trim_end(t) == trim_end(t.take(j - i)),
        decreases j - i,
    {
        proof { lemma_trim_end_take(t, (j - i) as int); }
        j -= 1;
    }
    assert(t.take(j - i) =~= v@.subrange(i as int, j as int));
    assert(trim_end(t.take(j - i)) == t.take(j - i));
    sub_chars(v, i, j)
}

/// `str::trim`, as a character vector.
pub fn trim_str(s: &str) -> (r: Vec<char>)
    ensures
        r@ == trim(s@),
{
    let v = chars_of(s);
    trim_chars(&v)
}

/// `str::split_whitespace` on a character vector.
pub fn split_whitespace_chars(v: &Vec<char>) -> (r: Vec<Vec<char>>)
    ensures
        r@.map_values(|w: Vec<char>| w@) == split_ws(v@),
{
    let mut acc: Vec<Vec<char>> = Vec::new();
    let mut cur: Vec<char> = Vec::new();
    let mut i: usize = 0;
    assert(v@.skip(0) =~= v@);
    assert(acc@.map_values(|w: Vec<char>| w@) =~= Seq::<Seq<char>>::empty());
    while i < v.len()
        invariant
            i <= v.len(),
            split_ws(v@) == split_ws_from(v@.skip(i as int), cur@, acc@.map_values(|w: Vec<char>| w@)),
        decreases v.len() - i,
    {
        proof { lemma_skip_step(v@, i as int); }
        let c = v[i];
        if is_whitespace(c) {
            if cur.len() > 0 {
                let ghost old_acc = acc@;
                acc.push(cur);
                assert(acc@.map_values(|w: Vec<char>| w@) =~= old_acc.map_values(|w: Vec<char>| w@).push(cur@));
            }
            cur = Vec::new();
        } else {
            cur.push(c);
        }
        i += 1;
    }
    assert(v@.skip(i as int).len() == 0);
    if cur.len() > 0 {
        let ghost old_acc = acc@;
        acc.push(cur);
        assert(acc@.map_values(|w: Vec<char>| w@) =~= old_acc.map_values(|w: Vec<char>| w@).push(cur@));
    }
    acc
}

/// Strings holding the given character vectors.
pub fn strings_of(v: &Vec<Vec<char>>) -> (r: Vec<String>)
    ensures
        views(r@) == v@.map_values(|w: Vec<char>| w@),
{
    let mut r: Vec<String> = Vec::new();
    let mut i: usize = 0;
    while i < v.len()
        invariant
            i <= v.len(),
            r.len() == i,
            forall|k: int| 0 <= k < i ==> #[trigger] r@[k]@ == v@[k]@,
        decreases v.len() - i,
    {
        let s = string_of(&v[i]);
        r.push(s);
        i += 1;
    }
    assert(views(r@) =~= v@.map_values(|w: Vec<char>| w@));
    r
}

/// The parts joined with `sep` between them.
pub fn join_chars(parts: &Vec<Vec<char>>, sep: &Vec<char>) -> (r: Vec<char>)
    ensures
        r@ == join(parts@.map_values(|w: Vec<char>| w@), sep@),
{
    let ghost ps = parts@.map_values(|w: Vec<char>| w@);
    let mut r: Vec<char> = Vec::new();
    let mut i: usize = 0;
    while i < parts.len()
        invariant
            i <= parts.len(),
            ps == parts@.map_values(|w: Vec<char>| w@),
            r@ == join(ps.take(i as int), sep@),
        decreases parts.len() - i,
    {
        if i > 0 {
            append_chars(&mut r, sep);
        }
        append_chars(&mut r, &parts[i]);
        assert(ps.take(i + 1).drop_last() =~= ps.take(i as int));
        if i == 0 {
            assert(ps.take(1) =~= seq![ps[0]]);
        }
        i += 1;
    }
    assert(ps.take(parts.len() as int) =~= ps);
    r
}


/// The words `v[from..to]`.
pub fn sub_words(v: &Vec<Vec<char>>, from: usize, to: usize) -> (r: Vec<Vec<char>>)
    requires
        from <= to <= v.len(),
    ensures
        cviews(r@) == cviews(v@).subrange(from as int, to as int),
{
    let mut r: Vec<Vec<char>> = Vec::new();
    let mut i = from;
    while i < to
        invariant
            from <= i <= to <= v.len(),
            r@.len() == i - from,
            forall|k: int| 0 <= k < i - from ==> #[trigger] r@[k]@ == v@[from + k]@,
        decreases to - i,
    {
        r.push(v[i].clone());
        i += 1;
    }
    assert(cviews(r@) =~= cviews(v@).subrange(from as int, to as int));
    r
}


/// `trim_end` keeps a prefix, and with it every character up to one that is
/// not whitespace.
pub proof fn lemma_trim_end_keeps(y: Seq<char>, j: int)
    requires
        0 <= j < y.len(),
        !char_is_whitespace(y[j]),
    ensures
        j < trim_end(y).len() <= y.len(),
        trim_end(y) == y.take(trim_end(y).len() as int),
    decreases y.len(),
{
    if char_is_whitespace(y.last()) {
        lemma_trim_end_keeps(y.drop_last(), j);
        let k = trim_end(y).len() as int;
        assert(y.drop_last().take(k) =~= y.take(k));
    } else {
        assert(y.take(y.len() as int) =~= y);
    }
}

/// A sequence that neither starts nor ends with whitespace is its own trim.
pub proof fn lemma_trim_unchanged(s: Seq<char>)
    requires
        s.len() > 0,
        !char_is_whitespace(s[0]),
        !char_is_whitespace(s.last()),
    ensures
        trim(s) == s,
{
    assert(trim_start(s) == s);
    assert(trim_end(s) == s);
}

} // verus!
