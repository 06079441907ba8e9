//! Brace expansion: `{a,b,c}` to alternatives and `{1..5}` / `{a..e}` to ranges.
use vstd::prelude::*;
use crate::number::{all_digits, decimal, digit_char, digits_value, format_i64, is_digit, nat_digits, parse_i32, parse_i32_spec};
use crate::text::{
    append_chars, chars_of, cviews, has_char, lemma_cviews_push, strings_of, sub_chars, trim,
    trim_chars, views,
};

verus! {

/// The number of times `c` occurs in `s`.
pub open spec fn count_of(s: Seq<char>, c: char) -> nat
    decreases s.len(),
{
    if s.len() == 0 {
        0
    } else {
        (if s[0] == c { 1nat } else { 0nat }) + count_of(s.drop_first(), c)
    }
}

pub proof fn lemma_count_concat(a: Seq<char>, b: Seq<char>, c: char)
    ensures
        count_of(a + b, c) == count_of(a, c) + count_of(b, c),
    decreases a.len(),
{
    if a.len() > 0 {
        assert((a + b).drop_first() =~= a.drop_first() + b);
        lemma_count_concat(a.drop_first(), b, c);
    } else {
        assert(a + b =~= b);
    }
}

pub open spec fn is_ascii_alphabetic(c: char) -> bool {
    ('a' <= c && c <= 'z') || ('A' <= c && c <= 'Z')
}

/// The first top-level pair of braces of `s`, scanning from `i` with `depth`
/// braces open and the last `{` opened at depth 0 in `start`: the pair closes at
/// the first `}` that brings the depth back to 0 after such a `{`.
pub open spec fn pair_scan(s: Seq<char>, i: int, depth: int, start: Option<int>) -> Option<(int, int)>
    decreases s.len() - i,
{
    if i < 0 || i >= s.len() {
        None
    } else if s[i] == '{' {
        pair_scan(s, i + 1, depth + 1, if depth == 0 { Some(i) } else { start })
    } else if s[i] == '}' {
        if depth - 1 == 0 && start is Some {
            Some((start->0, i))
        } else {
            pair_scan(s, i + 1, depth - 1, start)
        }
    } else {
        pair_scan(s, i + 1, depth, start)
    }
}

pub open spec fn brace_pair(s: Seq<char>) -> Option<(int, int)> {
    pair_scan(s, 0, 0, None)
}

pub proof fn lemma_pair_scan(s: Seq<char>, i: int, depth: int, start: Option<int>)
    requires
        0 <= i,
        start matches Some(x) ==> 0 <= x < i && s[x] == '{',
    ensures
        pair_scan(s, i, depth, start) matches Some((a, b)) ==> 0 <= a < b < s.len() && s[a] == '{' && s[b] == '}',
    decreases s.len() - i,
{
    if i < s.len() {
        if s[i] == '{' {
            lemma_pair_scan(s, i + 1, depth + 1, if depth == 0 { Some(i) } else { start });
        } else if s[i] == '}' {
            if !(depth - 1 == 0 && start is Some) {
                lemma_pair_scan(s, i + 1, depth - 1, start);
            }
        } else {
            lemma_pair_scan(s, i + 1, depth, start);
        }
    }
}

/// The first index at or after `from` where `..` starts.
pub open spec fn find_dots(s: Seq<char>, from: int) -> Option<int>
    decreases s.len() - from,
{
    if from < 0 || from + 1 >= s.len() {
        None
    } else if s[from] == '.' && s[from + 1] == '.' {
        Some(from)
    } else {
        find_dots(s, from + 1)
    }
}

/// The numbers from `x` to `y`, counting up or down, in decimal.
pub open spec fn numeric_range(x: int, y: int) -> Seq<Seq<char>> {
    if x <= y {
        Seq::new((y - x + 1) as nat, |k: int| decimal(x + k))
    } else {
        Seq::new((x - y + 1) as nat, |k: int| decimal(x - k))
    }
}

/// The characters from `a` to `b`, counting up or down, each as a string.
pub open spec fn char_range(a: char, b: char) -> Seq<Seq<char>> {
    if a <= b {
        Seq::new((b as int - a as int + 1) as nat, |k: int| seq![(a as int + k) as char])
    } else {
        Seq::new((a as int - b as int + 1) as nat, |k: int| seq![(a as int - k) as char])
    }
}

/// What a range pattern `start..end` (the text between the braces) expands
/// to: `inner` must split on `..` into exactly two parts; when both trimmed
/// parts parse as `i32` the numbers between them, else when both are a single
/// ASCII letter the characters between them.
pub open spec fn range_items(inner: Seq<char>) -> Option<Seq<Seq<char>>> {
    match find_dots(inner, 0) {
        None => None,
        Some(p) => {
            if find_dots(inner, p + 2) is Some {
                None
            } else {
                let a = trim(inner.take(p));
                let b = trim(inner.skip(p + 2));
                match (parse_i32_spec(a), parse_i32_spec(b)) {
                    (Some(x), Some(y)) => Some(numeric_range(x as int, y as int)),
                    _ => if a.len() == 1 && b.len() == 1 && is_ascii_alphabetic(a[0]) && is_ascii_alphabetic(b[0]) {
                        Some(char_range(a[0], b[0]))
                    } else {
                        None
                    },
                }
            }
        },
    }
}

/// Splits brace content on the commas outside nested braces: returns the
/// alternatives complete so far and the one being read.
pub open spec fn alt_scan(s: Seq<char>, depth: int, cur: Seq<char>, alts: Seq<Seq<char>>) -> (Seq<Seq<char>>, Seq<char>)
    decreases s.len(),
{
    if s.len() == 0 {
        (alts, cur)
    } else {
        let c = s[0];
        if c == '{' {
            alt_scan(s.drop_first(), depth + 1, cur.push(c), alts)
        } else if c == '}' {
            alt_scan(s.drop_first(), depth - 1, cur.push(c), alts)
        } else if c == ',' && depth == 0 {
            alt_scan(s.drop_first(), depth, Seq::empty(), alts.push(cur))
        } else {
            alt_scan(s.drop_first(), depth, cur.push(c), alts)
        }
    }
}

/// The alternatives of brace content; the last one is kept when it is not
/// empty or when the content ends with a comma.
pub open spec fn brace_alternatives(inner: Seq<char>) -> Seq<Seq<char>> {
    let (alts, cur) = alt_scan(inner, 0, Seq::empty(), Seq::empty());
    if cur.len() > 0 || (inner.len() > 0 && inner.last() == ',') { alts.push(cur) } else { alts }
}

/// What the first brace pair of `s` is replaced with, before the results are
/// expanded again: `None` when `s` stays as it is.
pub open spec fn brace_items(s: Seq<char>) -> Option<Seq<Seq<char>>> {
    match brace_pair(s) {
        None => None,
        Some((a, b)) => {
            let inner = s.subrange(a + 1, b);
            match range_items(inner) {
                Some(items) => Some(items),
                None => {
                    let alts = brace_alternatives(inner);
                    if alts.len() <= 1 && !has_char(inner, ',') { None } else { Some(alts) }
                },
            }
        },
    }
}

proof fn lemma_digit_char(d: int)
    requires
        0 <= d < 10,
    ensures
        digit_char(d) != '{',
        '0' <= digit_char(d) <= '9',
{
    assert(digit_char(d) as int == d + 48);
}

proof fn lemma_nat_digits_no_brace(n: nat)
    ensures
        count_of(nat_digits(n), '{') == 0,
    decreases n,
{
    lemma_digit_char((n % 10) as int);
    assert(count_of(Seq::<char>::empty(), '{') == 0);
    if n < 10 {
        assert(n % 10 == n);
        assert(nat_digits(n).drop_first() =~= Seq::<char>::empty());
        assert(nat_digits(n)[0] != '{');
    } else {
        lemma_nat_digits_no_brace(n / 10);
        lemma_count_concat(nat_digits(n / 10), seq![digit_char((n % 10) as int)], '{');
        assert(nat_digits(n / 10).push(digit_char((n % 10) as int)) =~= nat_digits(n / 10) + seq![digit_char((n % 10) as int)]);
        assert(seq![digit_char((n % 10) as int)].drop_first() =~= Seq::<char>::empty());
        assert(count_of(seq![digit_char((n % 10) as int)], '{') == 0);
    }
}

proof fn lemma_single_no_brace(c: char)
    requires
        c != '{',
    ensures
        count_of(seq![c], '{') == 0,
{
    assert(seq![c].drop_first() =~= Seq::<char>::empty());
    assert(count_of(Seq::<char>::empty(), '{') == 0);
}

proof fn lemma_decimal_no_brace(v: int)
    ensures
        count_of(decimal(v), '{') == 0,
{
    if v < 0 {
        lemma_nat_digits_no_brace((-v) as nat);
        lemma_count_concat(seq!['-'], nat_digits((-v) as nat), '{');
        lemma_single_no_brace('-');
    } else {
        lemma_nat_digits_no_brace(v as nat);
    }
}

proof fn lemma_range_no_brace(inner: Seq<char>)
    ensures
        range_items(inner) matches Some(items) ==> forall|k: int| 0 <= k < items.len() ==> count_of(#[trigger] items[k], '{') == 0,
{
    if let Some(items) = range_items(inner) {
        let p = find_dots(inner, 0)->0;
        let a = trim(inner.take(p));
        let b = trim(inner.skip(p + 2));
        assert forall|k: int| 0 <= k < items.len() implies count_of(#[trigger] items[k], '{') == 0 by {
            match (parse_i32_spec(a), parse_i32_spec(b)) {
                (Some(x), Some(y)) => {
                    let v = if x <= y { x + k } else { x - k };
                    assert(items[k] == decimal(v));
                    lemma_decimal_no_brace(v);
                },
                _ => {
                    let ca = a[0];
                    let cb = b[0];
                    let v = if ca <= cb { ca as int + k } else { ca as int - k };
                    assert('A' as int <= v <= 'z' as int);
                    let ch = v as char;
                    assert(ch as int == v);
                    assert(items[k] == seq![ch]);
                    lemma_single_no_brace(ch);
                },
            }
        }
    }
}

proof fn lemma_alt_scan_bound(s: Seq<char>, depth: int, cur: Seq<char>, alts: Seq<Seq<char>>, k: nat)
    requires
        count_of(cur, '{') + count_of(s, '{') <= k,
        forall|j: int| 0 <= j < alts.len() ==> count_of(#[trigger] alts[j], '{') <= k,
    ensures
        forall|j: int| 0 <= j < alt_scan(s, depth, cur, alts).0.len() ==> count_of(#[trigger] alt_scan(s, depth, cur, alts).0[j], '{') <= k,
        count_of(alt_scan(s, depth, cur, alts).1, '{') <= k,
    decreases s.len(),
{
    if s.len() > 0 {
        let c = s[0];
        lemma_count_concat(cur, seq![c], '{');
        assert(seq![c].drop_first() =~= Seq::<char>::empty());
        assert(cur.push(c) =~= cur + seq![c]);
        assert(count_of(Seq::<char>::empty(), '{') == 0);
        assert(count_of(seq![c], '{') == (if c == '{' { 1nat } else { 0nat }));
        assert(count_of(s, '{') == (if c == '{' { 1nat } else { 0nat }) + count_of(s.drop_first(), '{'));
        if c == ',' && depth == 0 {
            assert(count_of(Seq::<char>::empty(), '{') == 0);
            lemma_alt_scan_bound(s.drop_first(), depth, Seq::empty(), alts.push(cur), k);
        } else if c == '{' {
            lemma_alt_scan_bound(s.drop_first(), depth + 1, cur.push(c), alts, k);
        } else if c == '}' {
            lemma_alt_scan_bound(s.drop_first(), depth - 1, cur.push(c), alts, k);
        } else {
            lemma_alt_scan_bound(s.drop_first(), depth, cur.push(c), alts, k);
        }
    }
}

/// Each text that replaces the first brace pair holds fewer `{` than `s`.
pub proof fn lemma_brace_items_shrink(s: Seq<char>)
    ensures
        brace_items(s) matches Some(items) ==> {
            let (a, b) = brace_pair(s)->0;
            forall|k: int| 0 <= k < items.len() ==>
                count_of(s.take(a) + #[trigger] items[k] + s.skip(b + 1), '{') < count_of(s, '{')
        },
{
    if let Some(items) = brace_items(s) {
        let (a, b) = brace_pair(s)->0;
        lemma_pair_scan(s, 0, 0, None);
        let prefix = s.take(a);
        let inner = s.subrange(a + 1, b);
        let suffix = s.skip(b + 1);
        assert(s =~= prefix + seq!['{'] + inner + seq!['}'] + suffix);
        lemma_count_concat(prefix, seq!['{'], '{');
        lemma_count_concat(prefix + seq!['{'], inner, '{');
        lemma_count_concat(prefix + seq!['{'] + inner, seq!['}'], '{');
        lemma_count_concat(prefix + seq!['{'] + inner + seq!['}'], suffix, '{');
        assert(seq!['{'].drop_first() =~= Seq::<char>::empty());
        assert(seq!['}'].drop_first() =~= Seq::<char>::empty());
        lemma_range_no_brace(inner);
        lemma_alt_scan_bound(inner, 0, Seq::empty(), Seq::empty(), count_of(inner, '{'));
        assert forall|k: int| 0 <= k < items.len() implies
            count_of(prefix + #[trigger] items[k] + suffix, '{') < count_of(s, '{') by {
            lemma_count_concat(prefix, items[k], '{');
            lemma_count_concat(prefix + items[k], suffix, '{');
            if range_items(inner) is None {
                let (alts, cur) = alt_scan(inner, 0, Seq::empty(), Seq::empty());
                if k < alts.len() {
                    assert(count_of(alts[k], '{') <= count_of(inner, '{'));
                }
            }
        }
    }
}

/// The number of items that replace the first brace pair of `s`.
pub open spec fn items_len(s: Seq<char>) -> nat {
    match brace_items(s) {
        Some(items) => items.len(),
        None => 0,
    }
}

/// The words that brace expansion makes of `s`: the first top-level brace pair
/// is replaced by each of its items in turn and each result is expanded again;
/// a word without such a pair, or whose pair is neither a range nor holds a
/// comma, stays as it is.
pub open spec fn brace_expansion(s: Seq<char>) -> Seq<Seq<char>>
    decreases count_of(s, '{'), items_len(s) + 1,
{
    if brace_items(s) is None {
        seq![s]
    } else {
        expansions_from(s, 0)
    }
}

/// The expansions of `s` with its first brace pair replaced by the items from
/// the `k`-th on, in order.
pub open spec fn expansions_from(s: Seq<char>, k: nat) -> Seq<Seq<char>>
    decreases count_of(s, '{'), items_len(s) - k,
{
    if brace_items(s) is None || k >= items_len(s) {
        Seq::empty()
    } else {
        proof { lemma_brace_items_shrink(s); }
        let items = brace_items(s)->0;
        let (a, b) = brace_pair(s)->0;
        brace_expansion(s.take(a) + items[k as int] + s.skip(b + 1)) + expansions_from(s, k + 1)
    }
}

/// The positions of the first top-level brace pair of `s`.
fn find_brace_pair(s: &Vec<char>) -> (r: Option<(usize, usize)>)
    ensures
        match r {
            Some((a, b)) => brace_pair(s@) == Some((a as int, b as int)),
            None => brace_pair(s@) is None,
        },
{
    let n = s.len();
    let mut opens: usize = 0;
    let mut closes: usize = 0;
    let mut start: Option<usize> = None;
    let mut i: usize = 0;
    while i < n
        invariant
            n == s.len(),
            i <= n,
            opens + closes <= i,
            brace_pair(s@) == pair_scan(s@, i as int, opens - closes, match start { Some(x) => Some(x as int), None => None }),
        decreases n - i,
    {
        let c = s[i];
        if c == '{' {
            if opens == closes {
                start = Some(i);
            }
            opens += 1;
        } else if c == '}' {
            closes += 1;
            if opens == closes {
                if let Some(a) = start {
                    return Some((a, i));
                }
            }
        } else {
            proof {}
        }
        i += 1;
        proof {}
    }
    None
}

/// The first index at or after `from` where `..` starts.
fn find_dots_exec(s: &Vec<char>, from: usize) -> (r: Option<usize>)
    ensures
        match r {
            Some(p) => find_dots(s@, from as int) == Some(p as int) && p + 1 < s.len(),
            None => find_dots(s@, from as int) is None,
        },
{
    let mut i = from;
    while i < s.len() && i + 1 < s.len()
        invariant
            from <= i,
            find_dots(s@, from as int) == find_dots(s@, i as int),
        decreases s.len() - i,
    {
        if s[i] == '.' && s[i + 1] == '.' {
            return Some(i);
        }
        i += 1;
    }
    None
}

fn is_ascii_alphabetic_exec(c: char) -> (r: bool)
    ensures
        r == is_ascii_alphabetic(c),
{
    ('a' <= c && c <= 'z') || ('A' <= c && c <= 'Z')
}

/// The decimal numbers from `x` to `y`, counting up or down.
fn numeric_range_exec(x: i32, y: i32) -> (r: Vec<Vec<char>>)
    ensures
        cviews(r@) == numeric_range(x as int, y as int),
{
    let mut items: Vec<Vec<char>> = Vec::new();
    let up = x <= y;
    let count: i64 = if up { y as i64 - x as i64 + 1 } else { x as i64 - y as i64 + 1 };
    let mut k: i64 = 0;
    while k < count
        invariant
            0 <= k <= count,
            up == (x <= y),
            count == (if up { y - x + 1 } else { x - y + 1 }),
            cviews(items@) == Seq::new(k as nat, |j: int| decimal(if up { x + j } else { x - j })),
        decreases count - k,
    {
        let v: i64 = if up { x as i64 + k } else { x as i64 - k };
        let d = format_i64(v);
        proof { lemma_cviews_push(items@, d); }
        items.push(d);
        k += 1;
        assert(cviews(items@) =~= Seq::new(k as nat, |j: int| decimal(if up { x + j } else { x - j })));
    }
    assert(cviews(items@) =~= numeric_range(x as int, y as int));
    items
}

/// The characters from `a` to `b`, both ASCII letters, counting up or down.
fn char_range_exec(a: char, b: char) -> (r: Vec<Vec<char>>)
    requires
        is_ascii_alphabetic(a),
        is_ascii_alphabetic(b),
    ensures
        cviews(r@) == char_range(a, b),
{
    let mut items: Vec<Vec<char>> = Vec::new();
    let up = a <= b;
    let ca = a as u32;
    let cb = b as u32;
    let count: u32 = if up { cb - ca + 1 } else { ca - cb + 1 };
    let mut k: u32 = 0;
    while k < count
        invariant
            0 <= k <= count,
            up == (a <= b),
            ca == a as u32,
            cb == b as u32,
            'A' as int <= ca <= 'z' as int,
            'A' as int <= cb <= 'z' as int,
            count == (if up { b as int - a as int + 1 } else { a as int - b as int + 1 }),
            cviews(items@) == Seq::new(k as nat, |j: int| seq![(if up { a as int + j } else { a as int - j }) as char]),
        decreases count - k,
    {
        let v: u32 = if up { ca + k } else { ca - k };
        assert('A' as int <= v <= 'z' as int);
        let ch = (v as u8) as char;
        assert(v as int == (if up { a as int + k } else { a as int - k }));
        assert(ch == (v as int) as char);
        assert(ch == (if up { a as int + k } else { a as int - k }) as char);
        let mut one: Vec<char> = Vec::new();
        one.push(ch);
        proof { lemma_cviews_push(items@, one); }
        items.push(one);
        k += 1;
        assert(cviews(items@) =~= Seq::new(k as nat, |j: int| seq![(if up { a as int + j } else { a as int - j }) as char]));
    }
    assert(cviews(items@) =~= char_range(a, b));
    items
}

/// Expands a range pattern like `1..5` or `a..e` (the text between braces).
fn try_expand_range(inner: &Vec<char>) -> (r: Option<Vec<Vec<char>>>)
    ensures
        match r {
            Some(items) => range_items(inner@) == Some(cviews(items@)),
            None => range_items(inner@) is None,
        },
{
    let p = match find_dots_exec(inner, 0) {
        Some(p) => p,
        None => return None,
    };
    if find_dots_exec(inner, p + 2).is_some() {
        return None;
    }
    let first = sub_chars(inner, 0, p);
    let second = sub_chars(inner, p + 2, inner.len());
    assert(first@ =~= inner@.take(p as int));
    assert(second@ =~= inner@.skip(p + 2));
    let a = trim_chars(&first);
    let b = trim_chars(&second);
    match (parse_i32(&a), parse_i32(&b)) {
        (Some(x), Some(y)) => {
            return Some(numeric_range_exec(x, y));
        },
        _ => {},
    }
    if a.len() == 1 && b.len() == 1 && is_ascii_alphabetic_exec(a[0]) && is_ascii_alphabetic_exec(b[0]) {
        Some(char_range_exec(a[0], b[0]))
    } else {
        None
    }
}

/// Splits brace content by commas, respecting nested braces.
fn split_brace_alternatives(inner: &Vec<char>) -> (r: Vec<Vec<char>>)
    ensures
        cviews(r@) == brace_alternatives(inner@),
{
    let n = inner.len();
    let mut alts: Vec<Vec<char>> = Vec::new();
    let mut cur: Vec<char> = Vec::new();
    let mut opens: usize = 0;
    let mut closes: usize = 0;
    let mut i: usize = 0;
    assert(inner@.skip(0) =~= inner@);
    assert(cviews(alts@) =~= Seq::<Seq<char>>::empty());
    while i < n
        invariant
            n == inner.len(),
            i <= n,
            opens + closes <= i,
            alt_scan(inner@, 0, Seq::empty(), Seq::empty())
                == alt_scan(inner@.skip(i as int), opens - closes, cur@, cviews(alts@)),
        decreases n - i,
    {
        proof { crate::text::lemma_skip_step(inner@, i as int); }
        let c = inner[i];
        if c == '{' {
            opens += 1;
            cur.push(c);
        } else if c == '}' {
            closes += 1;
            cur.push(c);
        } else if c == ',' && opens == closes {
            proof { lemma_cviews_push(alts@, cur); }
            alts.push(cur);
            cur = Vec::new();
        } else {
            cur.push(c);
        }
        i += 1;
    }
    if cur.len() > 0 || (n > 0 && inner[n - 1] == ',') {
        proof { lemma_cviews_push(alts@, cur); }
        alts.push(cur);
    }
    alts
}

/// Brace expansion of a character vector.
pub fn expand_braces_chars(s: &Vec<char>) -> (r: Vec<Vec<char>>)
    ensures
        cviews(r@) == brace_expansion(s@),
    decreases count_of(s@, '{'),
{
    let (a, b) = match find_brace_pair(s) {
        Some(pair) => pair,
        None => {
            let mut r: Vec<Vec<char>> = Vec::new();
            r.push(s.clone());
            assert(cviews(r@) =~= seq![s@]);
            return r;
        },
    };
    proof { lemma_pair_scan(s@, 0, 0, None); }
    let inner = sub_chars(s, a + 1, b);
    let items = match try_expand_range(&inner) {
        Some(items) => items,
        None => {
            let alts = split_brace_alternatives(&inner);
            if alts.len() <= 1 && !crate::text::contains_char(&inner, ',') {
                let mut r: Vec<Vec<char>> = Vec::new();
                r.push(s.clone());
                assert(cviews(r@) =~= seq![s@]);
                return r;
            }
            alts
        },
    };
    assert(brace_items(s@) == Some(cviews(items@)));
    proof { lemma_brace_items_shrink(s@); }
    let prefix = sub_chars(s, 0, a);
    let suffix = sub_chars(s, b + 1, s.len());
    assert(prefix@ =~= s@.take(a as int));
    assert(suffix@ =~= s@.skip(b + 1));
    let ghost its = cviews(items@);
    assert(brace_pair(s@) == Some((a as int, b as int)));
    assert forall|j: int| 0 <= j < items@.len() implies
        count_of(s@.take(a as int) + #[trigger] cviews(items@)[j] + s@.skip(b + 1), '{') < count_of(s@, '{') by {
        assert(brace_items(s@)->0[j] == its[j]);
    }
    let mut result: Vec<Vec<char>> = Vec::new();
    let mut k: usize = 0;
    assert(cviews(result@) =~= Seq::<Seq<char>>::empty());
    while k < items.len()
        invariant
            k <= items.len(),
            prefix@ == s@.take(a as int),
            suffix@ == s@.skip(b + 1),
            brace_items(s@) == Some(cviews(items@)),
            brace_pair(s@) == Some((a as int, b as int)),
            forall|j: int| 0 <= j < items@.len() ==>
                count_of(s@.take(a as int) + #[trigger] cviews(items@)[j] + s@.skip(b + 1), '{') < count_of(s@, '{'),
            cviews(result@) + expansions_from(s@, k as nat) == brace_expansion(s@),
        decreases items.len() - k,
    {
        let mut combined = prefix.clone();
        append_chars(&mut combined, &items[k]);
        append_chars(&mut combined, &suffix);
        assert(combined@ == s@.take(a as int) + cviews(items@)[k as int] + s@.skip(b + 1));
        let sub = expand_braces_chars(&combined);
        let mut j: usize = 0;
        let ghost before = cviews(result@);
        assert(expansions_from(s@, k as nat) == brace_expansion(combined@) + expansions_from(s@, (k + 1) as nat));
        assert(cviews(sub@).take(0) =~= Seq::<Seq<char>>::empty());
        assert(before + cviews(sub@).take(0) =~= before);
        while j < sub.len()
            invariant
                j <= sub.len(),
                cviews(result@) == before + cviews(sub@).take(j as int),
            decreases sub.len() - j,
        {
            proof {
                lemma_cviews_push(result@, sub[j as int]);
                assert(before + cviews(sub@).take(j + 1) =~= (before + cviews(sub@).take(j as int)).push(sub@[j as int]@));
            }
            result.push(sub[j].clone());
            j += 1;
        }
        proof {
            assert(cviews(sub@).take(sub.len() as int) =~= cviews(sub@));
            assert(cviews(result@) + expansions_from(s@, (k + 1) as nat)
                =~= before + (brace_expansion(combined@) + expansions_from(s@, (k + 1) as nat)));
        }
        k += 1;
    }
    assert(expansions_from(s@, k as nat) =~= Seq::<Seq<char>>::empty());
    assert(cviews(result@) + Seq::<Seq<char>>::empty() =~= cviews(result@));
    result
}


/// Expands brace patterns in a word: `{a,b,c}` to `a`, `b`, `c`;
/// `file{1,2,3}.txt` to `file1.txt`, `file2.txt`, `file3.txt`; `{a,b}{1,2}`
/// to `a1`, `a2`, `b1`, `b2`; `{1..5}` and `{a..e}` to ranges.
pub fn expand_braces(token: &str) -> (r: Vec<String>)
    ensures
        views(r@) == brace_expansion(token@),
{
    let v = chars_of(token);
    let words = expand_braces_chars(&v);
    strings_of(&words)
}


/// A word without `{` is left as it is by brace expansion.
pub proof fn law_no_brace_unchanged(s: Seq<char>)
    requires
        forall|i: int| 0 <= i < s.len() ==> s[i] != '{',
    ensures
        brace_expansion(s) == seq![s],
{
    lemma_pair_scan(s, 0, 0, None);
}

proof fn lemma_count_zero(s: Seq<char>, c: char)
    requires
        count_of(s, c) == 0,
    ensures
        forall|i: int| 0 <= i < s.len() ==> #[trigger] s[i] != c,
    decreases s.len(),
{
    if s.len() > 0 {
        lemma_count_zero(s.drop_first(), c);
        assert forall|i: int| 0 <= i < s.len() implies #[trigger] s[i] != c by {
            if i > 0 {
                assert(s[i] == s.drop_first()[i - 1]);
            }
        }
    }
}

proof fn lemma_pair_to_end(s: Seq<char>, i: int)
    requires
        1 <= i < s.len(),
        s[0] == '{',
        s[s.len() - 1] == '}',
        forall|k: int| 1 <= k < s.len() - 1 ==> #[trigger] s[k] != '{' && s[k] != '}',
    ensures
        pair_scan(s, i, 1, Some(0)) == Some((0int, s.len() - 1)),
    decreases s.len() - i,
{
    if i < s.len() - 1 {
        lemma_pair_to_end(s, i + 1);
    }
}

proof fn lemma_find_dots_at(t: Seq<char>, i: int, p: int)
    requires
        0 <= i <= p,
        p + 1 < t.len(),
        forall|k: int| i <= k < p ==> #[trigger] t[k] != '.',
        t[p] == '.' && t[p + 1] == '.',
    ensures
        find_dots(t, i) == Some(p),
    decreases p - i,
{
    if i < p {
        lemma_find_dots_at(t, i + 1, p);
    }
}

proof fn lemma_find_dots_none(t: Seq<char>, i: int)
    requires
        0 <= i,
        forall|k: int| i <= k < t.len() ==> #[trigger] t[k] != '.',
    ensures
        find_dots(t, i) is None,
    decreases t.len() - i,
{
    if i + 1 < t.len() {
        lemma_find_dots_none(t, i + 1);
    }
}

proof fn lemma_parse_digits(d: Seq<char>)
    requires
        d.len() > 0,
        all_digits(d),
        digits_value(d) <= i32::MAX,
    ensures
        trim(d) == d,
        parse_i32_spec(d) == Some(digits_value(d) as i32),
{
    assert(is_digit(d[0]));
    assert(is_digit(d[d.len() - 1]));
    crate::text::lemma_trim_unchanged(d);
    crate::arith::lemma_digits_value_nonneg(d);
}

proof fn lemma_expansions_are_items(s: Seq<char>, items: Seq<Seq<char>>, k: nat)
    requires
        brace_items(s) == Some(items),
        brace_pair(s) == Some((0int, s.len() - 1)),
        forall|j: int, m: int| 0 <= j < items.len() && 0 <= m < items[j].len() ==> #[trigger] items[j][m] != '{',
        k <= items.len(),
    ensures
        expansions_from(s, k) == items.subrange(k as int, items.len() as int),
    decreases items.len() - k,
{
    if k < items.len() {
        let w = items[k as int];
        assert(s.take(0) + w + s.skip(s.len() - 1 + 1) =~= w);
        assert forall|m: int| 0 <= m < w.len() implies w[m] != '{' by {
            assert(items[k as int][m] != '{');
        }
        law_no_brace_unchanged(w);
        lemma_expansions_are_items(s, items, k + 1);
        assert(seq![w] + items.subrange((k + 1) as int, items.len() as int) =~= items.subrange(k as int, items.len() as int));
    } else {
        assert(items.subrange(k as int, items.len() as int) =~= Seq::<Seq<char>>::empty());
    }
}

/// A numeric range `{a..b}` counts from `a` to `b` by one, both ends
/// included: upward it gives `b - a + 1` words, the `k`-th being `a + k` in
/// decimal (so `{1..10}` ends with `10`); downward `a - b + 1` words, the
/// `k`-th being `a - k`.
pub proof fn law_numeric_range(da: Seq<char>, db: Seq<char>)
    requires
        da.len() > 0,
        db.len() > 0,
        all_digits(da),
        all_digits(db),
        digits_value(da) <= i32::MAX,
        digits_value(db) <= i32::MAX,
    ensures
        ({
            let a = digits_value(da);
            let b = digits_value(db);
            let r = brace_expansion(seq!['{'] + da + seq!['.', '.'] + db + seq!['}']);
            &&& a <= b ==> r.len() == b - a + 1 && forall|k: int| 0 <= k < r.len() ==> #[trigger] r[k] == decimal(a + k)
            &&& b < a ==> r.len() == a - b + 1 && forall|k: int| 0 <= k < r.len() ==> #[trigger] r[k] == decimal(a - k)
        }),
{
    let a = digits_value(da);
    let b = digits_value(db);
    let s = seq!['{'] + da + seq!['.', '.'] + db + seq!['}'];
    let n = s.len() as int;
    let la = da.len() as int;
    let inner = da + seq!['.', '.'] + db;
    assert(s =~= seq!['{'] + inner + seq!['}']);
    assert forall|k: int| 0 <= k < inner.len() implies #[trigger] inner[k] != '{' && inner[k] != '}'
        && (k != la && k != la + 1 ==> inner[k] != '.') by {
        if k < la {
            assert(inner[k] == da[k]);
            assert(is_digit(da[k]));
        } else if k >= la + 2 {
            assert(inner[k] == db[k - la - 2]);
            assert(is_digit(db[k - la - 2]));
        }
    }
    assert forall|k: int| 1 <= k < n - 1 implies #[trigger] s[k] != '{' && s[k] != '}' by {
        assert(s[k] == inner[k - 1]);
    }
    lemma_pair_to_end(s, 1);
    assert(brace_pair(s) == Some((0int, n - 1)));
    assert(s.subrange(1, n - 1) =~= inner);
    assert(inner[la] == '.' && inner[la + 1] == '.');
    lemma_find_dots_at(inner, 0, la);
    lemma_find_dots_none(inner, la + 2);
    assert(inner.take(la) =~= da);
    assert(inner.skip(la + 2) =~= db);
    lemma_parse_digits(da);
    lemma_parse_digits(db);
    crate::arith::lemma_digits_value_nonneg(da);
    crate::arith::lemma_digits_value_nonneg(db);
    let items = numeric_range(a, b);
    assert(range_items(inner) == Some(items));
    assert(brace_items(s) == Some(items));
    assert forall|j: int, m: int| 0 <= j < items.len() && 0 <= m < items[j].len() implies #[trigger] items[j][m] != '{' by {
        let v = if a <= b { a + j } else { a - j };
        assert(items[j] == decimal(v));
        lemma_decimal_no_brace(v);
        lemma_count_zero(decimal(v), '{');
    }
    lemma_expansions_are_items(s, items, 0);
    assert(items.subrange(0, items.len() as int) =~= items);
    assert(brace_expansion(s) == items);
}

proof fn lemma_pair_skip(s: Seq<char>, i: int, j: int)
    requires
        0 <= i <= j <= s.len(),
        forall|k: int| i <= k < j ==> #[trigger] s[k] != '{' && s[k] != '}',
    ensures
        pair_scan(s, i, 0, None) == pair_scan(s, j, 0, None),
    decreases j - i,
{
    if i < j {
        lemma_pair_skip(s, i + 1, j);
    }
}

proof fn lemma_pair_close(s: Seq<char>, i: int, a: int, b: int)
    requires
        0 <= a < i <= b < s.len(),
        s[b] == '}',
        forall|k: int| i <= k < b ==> #[trigger] s[k] != '{' && s[k] != '}',
    ensures
        pair_scan(s, i, 1, Some(a)) == Some((a, b)),
    decreases b - i,
{
    if i < b {
        lemma_pair_close(s, i + 1, a, b);
    }
}

proof fn lemma_alt_plain(x: Seq<char>, r: Seq<char>, cur: Seq<char>, alts: Seq<Seq<char>>)
    requires
        forall|i: int| 0 <= i < x.len() ==> #[trigger] x[i] != '{' && x[i] != '}' && x[i] != ',',
    ensures
        alt_scan(x + r, 0, cur, alts) == alt_scan(r, 0, cur + x, alts),
    decreases x.len(),
{
    if x.len() > 0 {
        let s = x + r;
        assert(s[0] == x[0]);
        assert(s.drop_first() =~= x.drop_first() + r);
        assert forall|i: int| 0 <= i < x.drop_first().len() implies #[trigger] x.drop_first()[i] != '{'
            && x.drop_first()[i] != '}' && x.drop_first()[i] != ',' by {
            assert(x.drop_first()[i] == x[i + 1]);
        }
        lemma_alt_plain(x.drop_first(), r, cur.push(x[0]), alts);
        assert(cur.push(x[0]) + x.drop_first() =~= cur + x);
    } else {
        assert(x + r =~= r);
        assert(cur + x =~= cur);
    }
}

/// Whether `c` means nothing to brace expansion between or around braces: no
/// brace, comma or dot.
pub open spec fn brace_plain(c: char) -> bool {
    c != '{' && c != '}' && c != ',' && c != '.'
}

/// `{x,y}` inside a word gives the word twice, once with each alternative in
/// its place, in order: `pre{x,y}post` is exactly the two words `prexpost`
/// and `preypost`.
pub proof fn law_two_alternatives(pre: Seq<char>, x: Seq<char>, y: Seq<char>, post: Seq<char>)
    requires
        x.len() > 0,
        y.len() > 0,
        forall|i: int| 0 <= i < pre.len() ==> brace_plain(#[trigger] pre[i]),
        forall|i: int| 0 <= i < x.len() ==> brace_plain(#[trigger] x[i]),
        forall|i: int| 0 <= i < y.len() ==> brace_plain(#[trigger] y[i]),
        forall|i: int| 0 <= i < post.len() ==> brace_plain(#[trigger] post[i]),
    ensures
        brace_expansion(pre + seq!['{'] + x + seq![','] + y + seq!['}'] + post) == seq![pre + x + post, pre + y + post],
{
    let inner = x + seq![','] + y;
    let s = pre + seq!['{'] + inner + seq!['}'] + post;
    assert(pre + seq!['{'] + x + seq![','] + y + seq!['}'] + post =~= s);
    let a = pre.len() as int;
    let b = a + 1 + inner.len();
    assert forall|k: int| 0 <= k < inner.len() implies #[trigger] inner[k] != '{' && inner[k] != '}' && inner[k] != '.' by {
        if k < x.len() {
            assert(inner[k] == x[k]);
            assert(brace_plain(x[k]));
        } else if k > x.len() {
            assert(inner[k] == y[k - x.len() - 1]);
            assert(brace_plain(y[k - x.len() - 1]));
        }
    }
    assert forall|k: int| 0 <= k < a implies #[trigger] s[k] != '{' && s[k] != '}' by {
        assert(s[k] == pre[k]);
        assert(brace_plain(pre[k]));
    }
    lemma_pair_skip(s, 0, a);
    assert(s[a] == '{');
    assert forall|k: int| a + 1 <= k < b implies #[trigger] s[k] != '{' && s[k] != '}' by {
        assert(s[k] == inner[k - a - 1]);
    }
    assert(s[b] == '}');
    lemma_pair_close(s, a + 1, a, b);
    assert(brace_pair(s) == Some((a, b)));
    assert(s.subrange(a + 1, b) =~= inner);
    // not a range: no dots
    lemma_find_dots_none(inner, 0);
    assert(range_items(inner) is None);
    // the alternatives
    lemma_alt_plain(x, seq![','] + y, Seq::empty(), Seq::empty());
    assert(inner =~= x + (seq![','] + y));
    assert(Seq::<char>::empty() + x =~= x);
    let t = seq![','] + y;
    assert(t[0] == ',');
    assert(t.drop_first() =~= y + Seq::<char>::empty());
    lemma_alt_plain(y, Seq::empty(), Seq::empty(), seq![x]);
    assert(Seq::<char>::empty() + y =~= y);
    assert(Seq::<Seq<char>>::empty().push(x) =~= seq![x]);
    assert(alt_scan(inner, 0, Seq::empty(), Seq::empty()) == (seq![x], y));
    let items = seq![x, y];
    assert(seq![x].push(y) =~= items);
    assert(brace_alternatives(inner) == items);
    assert(brace_items(s) == Some(items));
    // each alternative in place, expanded again, is itself
    assert(s.take(a) =~= pre);
    assert(s.skip(b + 1) =~= post);
    let w0 = pre + x + post;
    let w1 = pre + y + post;
    assert forall|m: int| 0 <= m < w0.len() implies w0[m] != '{' by {
        if m < a {
            assert(w0[m] == pre[m]);
            assert(brace_plain(pre[m]));
        } else if m < a + x.len() {
            assert(w0[m] == x[m - a]);
            assert(brace_plain(x[m - a]));
        } else {
            assert(w0[m] == post[m - a - x.len()]);
            assert(brace_plain(post[m - a - x.len()]));
        }
    }
    assert forall|m: int| 0 <= m < w1.len() implies w1[m] != '{' by {
        if m < a {
            assert(w1[m] == pre[m]);
            assert(brace_plain(pre[m]));
        } else if m < a + y.len() {
            assert(w1[m] == y[m - a]);
            assert(brace_plain(y[m - a]));
        } else {
            assert(w1[m] == post[m - a - y.len()]);
            assert(brace_plain(post[m - a - y.len()]));
        }
    }
    law_no_brace_unchanged(w0);
    law_no_brace_unchanged(w1);
    assert(items_len(s) == 2);
    assert(expansions_from(s, 2) == Seq::<Seq<char>>::empty());
    assert(expansions_from(s, 1) =~= seq![w1]);
    assert(expansions_from(s, 0) =~= seq![w0, w1]);
}

/// A letter range `{c..d}` counts through the characters from `c` to `d`,
/// both included: upward `d - c + 1` one-letter words, the `k`-th being the
/// character `c + k`; downward the `k`-th being `c - k`.
pub proof fn law_letter_range(c: char, d: char)
    requires
        is_ascii_alphabetic(c),
        is_ascii_alphabetic(d),
    ensures
        ({
            let r = brace_expansion(seq!['{', c, '.', '.', d, '}']);
            &&& c <= d ==> r.len() == d as int - c as int + 1
                && forall|k: int| 0 <= k < r.len() ==> #[trigger] r[k] == seq![(c as int + k) as char]
            &&& d < c ==> r.len() == c as int - d as int + 1
                && forall|k: int| 0 <= k < r.len() ==> #[trigger] r[k] == seq![(c as int - k) as char]
        }),
{
    let s = seq!['{', c, '.', '.', d, '}'];
    let inner = seq![c, '.', '.', d];
    lemma_pair_to_end(s, 1);
    assert(s.subrange(1, 5) =~= inner);
    lemma_find_dots_at(inner, 0, 1);
    lemma_find_dots_none(inner, 3);
    assert(inner.take(1) =~= seq![c]);
    assert(inner.skip(3) =~= seq![d]);
    assert(!crate::text::char_is_whitespace(c));
    assert(!crate::text::char_is_whitespace(d));
    crate::text::lemma_trim_unchanged(seq![c]);
    crate::text::lemma_trim_unchanged(seq![d]);
    assert(!is_digit(c));
    assert(!all_digits(seq![c]));
    assert(parse_i32_spec(seq![c]) is None);
    let items = char_range(c, d);
    assert(range_items(inner) == Some(items));
    assert(brace_items(s) == Some(items));
    lemma_range_no_brace(inner);
    assert forall|j: int, m: int| 0 <= j < items.len() && 0 <= m < items[j].len() implies #[trigger] items[j][m] != '{' by {
        lemma_count_zero(items[j], '{');
    }
    lemma_expansions_are_items(s, items, 0);
    assert(items.subrange(0, items.len() as int) =~= items);
    assert(brace_expansion(s) == items);
}

/// A number as written: digits, after a `-` when `neg`.
pub open spec fn signed_text(neg: bool, d: Seq<char>) -> Seq<char> {
    if neg { seq!['-'] + d } else { d }
}

proof fn lemma_parse_signed(neg: bool, d: Seq<char>)
    requires
        d.len() > 0,
        all_digits(d),
        digits_value(d) <= i32::MAX,
    ensures
        trim(signed_text(neg, d)) == signed_text(neg, d),
        parse_i32_spec(signed_text(neg, d)) == Some((if neg { -digits_value(d) } else { digits_value(d) }) as i32),
        forall|k: int| 0 <= k < signed_text(neg, d).len() ==> #[trigger] signed_text(neg, d)[k] != '.'
            && signed_text(neg, d)[k] != '{' && signed_text(neg, d)[k] != '}',
{
    let t = signed_text(neg, d);
    crate::arith::lemma_digits_value_nonneg(d);
    assert(is_digit(d[0]));
    assert(is_digit(d[d.len() - 1]));
    assert(t.last() == d[d.len() - 1]);
    if neg {
        assert(t[0] == '-');
        assert(t.drop_first() =~= d);
    } else {
        assert(t[0] == d[0]);
    }
    crate::text::lemma_trim_unchanged(t);
    assert forall|k: int| 0 <= k < t.len() implies #[trigger] t[k] != '.' && t[k] != '{' && t[k] != '}' by {
        if neg {
            if k > 0 {
                assert(t[k] == d[k - 1]);
                assert(is_digit(d[k - 1]));
            }
        } else {
            assert(is_digit(d[k]));
        }
    }
}

/// `{ta..tb}` where both ends are numbers as written expands to the range
/// between the numbers.
proof fn lemma_range_of_texts(ta: Seq<char>, tb: Seq<char>, x: i32, y: i32)
    requires
        ta.len() > 0,
        tb.len() > 0,
        forall|k: int| 0 <= k < ta.len() ==> #[trigger] ta[k] != '.' && ta[k] != '{' && ta[k] != '}',
        forall|k: int| 0 <= k < tb.len() ==> #[trigger] tb[k] != '.' && tb[k] != '{' && tb[k] != '}',
        trim(ta) == ta,
        trim(tb) == tb,
        parse_i32_spec(ta) == Some(x),
        parse_i32_spec(tb) == Some(y),
    ensures
        brace_expansion(seq!['{'] + ta + seq!['.', '.'] + tb + seq!['}']) == numeric_range(x as int, y as int),
{
    let s = seq!['{'] + ta + seq!['.', '.'] + tb + seq!['}'];
    let n = s.len() as int;
    let la = ta.len() as int;
    let inner = ta + seq!['.', '.'] + tb;
    assert(s =~= seq!['{'] + inner + seq!['}']);
    assert forall|k: int| 0 <= k < inner.len() implies #[trigger] inner[k] != '{' && inner[k] != '}'
        && (k != la && k != la + 1 ==> inner[k] != '.') by {
        if k < la {
            assert(inner[k] == ta[k]);
        } else if k >= la + 2 {
            assert(inner[k] == tb[k - la - 2]);
        }
    }
    assert forall|k: int| 1 <= k < n - 1 implies #[trigger] s[k] != '{' && s[k] != '}' by {
        assert(s[k] == inner[k - 1]);
    }
    lemma_pair_to_end(s, 1);
    assert(s.subrange(1, n - 1) =~= inner);
    lemma_find_dots_at(inner, 0, la);
    lemma_find_dots_none(inner, la + 2);
    assert(inner.take(la) =~= ta);
    assert(inner.skip(la + 2) =~= tb);
    let items = numeric_range(x as int, y as int);
    assert(range_items(inner) == Some(items));
    assert(brace_items(s) == Some(items));
    assert forall|j: int, m: int| 0 <= j < items.len() && 0 <= m < items[j].len() implies #[trigger] items[j][m] != '{' by {
        let v = if x <= y { x + j } else { x - j };
        assert(items[j] == decimal(v));
        lemma_decimal_no_brace(v);
        lemma_count_zero(decimal(v), '{');
    }
    lemma_expansions_are_items(s, items, 0);
    assert(items.subrange(0, items.len() as int) =~= items);
}

/// A numeric range `{x..y}` with signed ends counts from `x` to `y` by one,
/// both ends included: upward `y - x + 1` words, the `k`-th being `x + k` in
/// decimal (so `{-2..1}` is `-2 -1 0 1`); downward `x - y + 1` words, the
/// `k`-th being `x - k`.
pub proof fn law_signed_numeric_range(na: bool, da: Seq<char>, nb: bool, db: Seq<char>)
    requires
        da.len() > 0,
        db.len() > 0,
        all_digits(da),
        all_digits(db),
        digits_value(da) <= i32::MAX,
        digits_value(db) <= i32::MAX,
    ensures
        ({
            let x = if na { -digits_value(da) } else { digits_value(da) };
            let y = if nb { -digits_value(db) } else { digits_value(db) };
            let r = brace_expansion(seq!['{'] + signed_text(na, da) + seq!['.', '.'] + signed_text(nb, db) + seq!['}']);
            &&& x <= y ==> r.len() == y - x + 1 && forall|k: int| 0 <= k < r.len() ==> #[trigger] r[k] == decimal(x + k)
            &&& y < x ==> r.len() == x - y + 1 && forall|k: int| 0 <= k < r.len() ==> #[trigger] r[k] == decimal(x - k)
        }),
{
    lemma_parse_signed(na, da);
    lemma_parse_signed(nb, db);
    crate::arith::lemma_digits_value_nonneg(da);
    crate::arith::lemma_digits_value_nonneg(db);
    let x = if na { -digits_value(da) } else { digits_value(da) };
    let y = if nb { -digits_value(db) } else { digits_value(db) };
    assert(signed_text(na, da).len() > 0);
    assert(signed_text(nb, db).len() > 0);
    lemma_range_of_texts(signed_text(na, da), signed_text(nb, db), x as i32, y as i32);
}

} // verus!
