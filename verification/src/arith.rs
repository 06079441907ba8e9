//! Arithmetic expansion `$((expression))`: 64-bit integer expressions with
//! `+`, `-`, `*`, `/` (truncating), `%`, unary signs, parentheses, decimal
//! numbers and variables (by name, with or without `$`).
use vstd::prelude::*;
use crate::expand::{expanded, is_name_char, lookup, lookup_exec, lookup_or_empty, pair_views, ContextView};
use crate::number::decimal;
use crate::number::{all_digits, digits_value, is_digit};
use crate::text::{char_is_alphabetic, char_is_alphanumeric, char_is_whitespace, is_alphabetic, is_alphanumeric, is_whitespace, trim, trim_chars};

verus! {

pub open spec fn in_i64(v: int) -> bool {
    i64::MIN <= v <= i64::MAX
}

/// `a / b` rounded toward zero.
pub open spec fn trunc_div(a: int, b: int) -> int {
    let q = (if a < 0 { -a } else { a }) / (if b < 0 { -b } else { b });
    if (a < 0) != (b < 0) { -q } else { q }
}

/// The remainder of `a / b` rounded toward zero: it has the sign of `a`.
pub open spec fn trunc_rem(a: int, b: int) -> int {
    let r = (if a < 0 { -a } else { a }) % (if b < 0 { -b } else { b });
    if a < 0 { -r } else { r }
}

/// The first position from `p` that is not whitespace.
pub open spec fn skip_blanks(s: Seq<char>, p: int) -> int
    decreases s.len() - p,
{
    if 0 <= p < s.len() && char_is_whitespace(s[p]) { skip_blanks(s, p + 1) } else { p }
}

/// The first position from `p` that is not a decimal digit.
pub open spec fn digits_end(s: Seq<char>, p: int) -> int
    decreases s.len() - p,
{
    if 0 <= p < s.len() && is_digit(s[p]) { digits_end(s, p + 1) } else { p }
}

/// The first position from `p` that does not continue a name.
pub open spec fn name_end(s: Seq<char>, p: int) -> int
    decreases s.len() - p,
{
    if 0 <= p < s.len() && is_name_char(s[p]) { name_end(s, p + 1) } else { p }
}

pub open spec fn starts_name(c: char) -> bool {
    char_is_alphabetic(c) || c == '_'
}

/// An optional `+` or `-` and at least one decimal digit, as a number.
pub open spec fn parse_int(t: Seq<char>) -> Option<int> {
    let neg = t.len() > 0 && t[0] == '-';
    let body = if t.len() > 0 && (t[0] == '-' || t[0] == '+') { t.drop_first() } else { t };
    if body.len() == 0 || !all_digits(body) {
        None
    } else {
        Some(if neg { -digits_value(body) } else { digits_value(body) })
    }
}

/// The number a variable stands for: 0 when it is unset or blank, its
/// trimmed value when that is an integer in range, else an error.
pub open spec fn variable_number(vars: Seq<(Seq<char>, Seq<char>)>, name: Seq<char>) -> Option<int> {
    let t = trim(lookup_or_empty(vars, name));
    if t.len() == 0 {
        Some(0)
    } else {
        match parse_int(t) {
            Some(x) => if in_i64(x) { Some(x) } else { None },
            None => None,
        }
    }
}

/// An operand from `p`: a parenthesised expression, a signed operand, a
/// number, or a variable; with its value and the position after it.
pub open spec fn arith_factor(s: Seq<char>, p: int, vars: Seq<(Seq<char>, Seq<char>)>) -> Option<(int, int)>
    decreases s.len() - p, 0nat,
{
    let q = skip_blanks(s, p);
    if q < p || q < 0 || q >= s.len() {
        None
    } else if s[q] == '(' {
        match arith_expr(s, q + 1, vars) {
            Some((v, r)) => {
                let r2 = skip_blanks(s, r);
                if 0 <= r2 < s.len() && s[r2] == ')' { Some((v, r2 + 1)) } else { None }
            },
            None => None,
        }
    } else if s[q] == '-' || s[q] == '+' {
        match arith_factor(s, q + 1, vars) {
            Some((v, r)) => {
                let w = if s[q] == '-' { -v } else { v };
                if in_i64(w) { Some((w, r)) } else { None }
            },
            None => None,
        }
    } else if is_digit(s[q]) {
        let e = digits_end(s, q);
        let v = digits_value(s.subrange(q, e));
        if in_i64(v) { Some((v, e)) } else { None }
    } else {
        let b = if s[q] == '$' { q + 1 } else { q };
        if 0 <= b < s.len() && starts_name(s[b]) {
            let e = name_end(s, b);
            match variable_number(vars, s.subrange(b, e)) {
                Some(v) => Some((v, e)),
                None => None,
            }
        } else {
            None
        }
    }
}

/// Applies a multiplicative operator, failing on overflow or division by 0.
pub open spec fn mul_op(op: char, a: int, b: int) -> Option<int> {
    let v = if op == '*' { a * b } else if b == 0 { 0 } else if op == '/' { trunc_div(a, b) } else { trunc_rem(a, b) };
    if (op == '/' || op == '%') && b == 0 { None } else if in_i64(v) { Some(v) } else { None }
}

/// Applies an additive operator, failing on overflow.
pub open spec fn add_op(op: char, a: int, b: int) -> Option<int> {
    let v = if op == '+' { a + b } else { a - b };
    if in_i64(v) { Some(v) } else { None }
}

/// A product from `p`: operands joined by `*`, `/` and `%`, left to right.
pub open spec fn arith_term(s: Seq<char>, p: int, vars: Seq<(Seq<char>, Seq<char>)>) -> Option<(int, int)>
    decreases s.len() - p, 1nat,
{
    match arith_factor(s, p, vars) {
        Some((v, r)) => if p < r <= s.len() { arith_term_rest(s, v, r, vars) } else { None },
        None => None,
    }
}

pub open spec fn arith_term_rest(s: Seq<char>, acc: int, p: int, vars: Seq<(Seq<char>, Seq<char>)>) -> Option<(int, int)>
    decreases s.len() - p, 1nat,
{
    let q = skip_blanks(s, p);
    if p <= q < s.len() && (s[q] == '*' || s[q] == '/' || s[q] == '%') {
        match arith_factor(s, q + 1, vars) {
            Some((v, r)) => match mul_op(s[q], acc, v) {
                Some(w) => if p < r <= s.len() { arith_term_rest(s, w, r, vars) } else { None },
                None => None,
            },
            None => None,
        }
    } else {
        Some((acc, p))
    }
}

/// A sum from `p`: products joined by `+` and `-`, left to right.
pub open spec fn arith_expr(s: Seq<char>, p: int, vars: Seq<(Seq<char>, Seq<char>)>) -> Option<(int, int)>
    decreases s.len() - p, 2nat,
{
    match arith_term(s, p, vars) {
        Some((v, r)) => if p < r <= s.len() { arith_expr_rest(s, v, r, vars) } else { None },
        None => None,
    }
}

pub open spec fn arith_expr_rest(s: Seq<char>, acc: int, p: int, vars: Seq<(Seq<char>, Seq<char>)>) -> Option<(int, int)>
    decreases s.len() - p, 2nat,
{
    let q = skip_blanks(s, p);
    if p <= q < s.len() && (s[q] == '+' || s[q] == '-') {
        match arith_term(s, q + 1, vars) {
            Some((v, r)) => match add_op(s[q], acc, v) {
                Some(w) => if p < r <= s.len() { arith_expr_rest(s, w, r, vars) } else { None },
                None => None,
            },
            None => None,
        }
    } else {
        Some((acc, p))
    }
}

/// The value of an arithmetic expression: `None` when it is not a whole
/// expression, divides by zero, overflows 64 bits or reads a variable that is
/// not a number.
pub open spec fn arith_value(s: Seq<char>, vars: Seq<(Seq<char>, Seq<char>)>) -> Option<int> {
    match arith_expr(s, 0, vars) {
        Some((v, r)) => if skip_blanks(s, r) == s.len() { Some(v) } else { None },
        None => None,
    }
}


// ---------------------------------------------------------------- evaluation

fn skip_blanks_exec(s: &Vec<char>, p: usize) -> (r: usize)
    requires
        p <= s.len(),
    ensures
        r == skip_blanks(s@, p as int),
        p <= r <= s.len(),
{
    let mut i = p;
    while i < s.len() && is_whitespace(s[i])
        invariant
            p <= i <= s.len(),
            skip_blanks(s@, p as int) == skip_blanks(s@, i as int),
        decreases s.len() - i,
    {
        i += 1;
    }
    i
}

/// The value of the digits `s[q..]` up to the first non-digit, if it fits
/// in 64 bits, and the position after them.
fn number_exec(s: &Vec<char>, q: usize) -> (r: (Option<i64>, usize))
    requires
        q < s.len(),
        is_digit(s@[q as int]),
    ensures
        r.1 == digits_end(s@, q as int),
        q < r.1 <= s.len(),
        match r.0 {
            Some(v) => v as int == digits_value(s@.subrange(q as int, r.1 as int)),
            None => !in_i64(digits_value(s@.subrange(q as int, r.1 as int))),
        },
{
    let mut i = q;
    let mut value: i128 = 0;
    let mut over = false;
    assert(s@.subrange(q as int, q as int) =~= Seq::<char>::empty());
    while i < s.len() && '0' <= s[i] && s[i] <= '9'
        invariant
            q <= i <= s.len(),
            digits_end(s@, q as int) == digits_end(s@, i as int),
            !over ==> value == digits_value(s@.subrange(q as int, i as int)),
            !over ==> 0 <= value <= 9223372036854775807,
            over ==> digits_value(s@.subrange(q as int, i as int)) > 9223372036854775807,
            digits_value(s@.subrange(q as int, i as int)) >= 0,
        decreases s.len() - i,
    {
        let ghost prev = s@.subrange(q as int, i as int);
        assert(s@.subrange(q as int, i + 1).drop_last() =~= prev);
        assert(s@.subrange(q as int, i + 1).last() == s@[i as int]);
        let d = (s[i] as u32 - '0' as u32) as i128;
        if !over {
            let next = value * 10 + d;
            if next > 9223372036854775807 {
                over = true;
            } else {
                value = next;
            }
        }
        i += 1;
    }
    if over {
        (None, i)
    } else {
        (Some(value as i64), i)
    }
}

fn name_end_exec(s: &Vec<char>, b: usize) -> (r: usize)
    requires
        b <= s.len(),
    ensures
        r == name_end(s@, b as int),
        b <= r <= s.len(),
{
    let mut i = b;
    while i < s.len() && (is_alphanumeric(s[i]) || s[i] == '_')
        invariant
            b <= i <= s.len(),
            name_end(s@, b as int) == name_end(s@, i as int),
        decreases s.len() - i,
    {
        i += 1;
    }
    i
}

/// Parses `t` (see `parse_int`) when its value fits in 64 bits.
fn parse_int_exec(t: &Vec<char>) -> (r: Option<i64>)
    ensures
        match r {
            Some(x) => parse_int(t@) == Some(x as int),
            None => match parse_int(t@) { Some(x) => !in_i64(x), None => true },
        },
{
    let n = t.len();
    let mut start: usize = 0;
    let mut neg = false;
    if n > 0 && (t[0] == '-' || t[0] == '+') {
        neg = t[0] == '-';
        start = 1;
    }
    let ghost body = t@.skip(start as int);
    assert(body =~= (if t@.len() > 0 && (t@[0] == '-' || t@[0] == '+') { t@.drop_first() } else { t@ }));
    if start == n {
        return None;
    }
    let mut value: i128 = 0;
    let mut over = false;
    let mut i = start;
    while i < n
        invariant
            start <= i <= n,
            n == t.len(),
            body == t@.skip(start as int),
            body == (if t@.len() > 0 && (t@[0] == '-' || t@[0] == '+') { t@.drop_first() } else { t@ }),
            neg == (t@.len() > 0 && t@[0] == '-'),
            all_digits(t@.subrange(start as int, i as int)),
            !over ==> value == digits_value(t@.subrange(start as int, i as int)),
            !over ==> 0 <= value <= 9223372036854775808,
            over ==> digits_value(t@.subrange(start as int, i as int)) > 9223372036854775808,
        decreases n - i,
    {
        let c = t[i];
        if c < '0' || c > '9' {
            assert(!all_digits(body)) by {
                assert(body[i - start] == c);
                assert(!is_digit(body[i - start]));
            }
            return None;
        }
        let ghost prev = t@.subrange(start as int, i as int);
        assert(t@.subrange(start as int, i + 1).drop_last() =~= prev);
        assert(t@.subrange(start as int, i + 1).last() == c);
        let d = (c as u32 - '0' as u32) as i128;
        if !over {
            let next = value * 10 + d;
            if next > 9223372036854775808 {
                over = true;
            } else {
                value = next;
            }
        }
        i += 1;
    }
    assert(t@.subrange(start as int, n as int) =~= body);
    if over {
        return None;
    }
    let v: i128 = if neg { -value } else { value };
    if v < -9223372036854775808 || v > 9223372036854775807 {
        None
    } else {
        Some(v as i64)
    }
}

fn variable_number_exec(vars: &Vec<(String, String)>, name: &Vec<char>) -> (r: Option<i64>)
    ensures
        match r {
            Some(x) => variable_number(pair_views(vars@), name@) == Some(x as int),
            None => variable_number(pair_views(vars@), name@) is None,
        },
{
    let v = lookup_exec(vars, name);
    let t = trim_chars(&v);
    if t.len() == 0 {
        Some(0)
    } else {
        parse_int_exec(&t)
    }
}

fn mul_op_exec(op: char, a: i64, b: i64) -> (r: Option<i64>)
    requires
        op == '*' || op == '/' || op == '%',
    ensures
        match r {
            Some(x) => mul_op(op, a as int, b as int) == Some(x as int),
            None => mul_op(op, a as int, b as int) is None,
        },
{
    let x = a as i128;
    let y = b as i128;
    if op == '*' {
        assert(-85070591730234615865843651857942052864 <= x * y <= 85070591730234615865843651857942052864) by (nonlinear_arith)
            requires -9223372036854775808 <= x <= 9223372036854775807, -9223372036854775808 <= y <= 9223372036854775807;
        let v = x * y;
        if v < -9223372036854775808 || v > 9223372036854775807 { None } else { Some(v as i64) }
    } else if b == 0 {
        None
    } else {
        let ua: u128 = if x < 0 { (-x) as u128 } else { x as u128 };
        let ub: u128 = if y < 0 { (-y) as u128 } else { y as u128 };
        let v: i128 = if op == '/' {
            let q = (ua / ub) as i128;
            if (x < 0) != (y < 0) { -q } else { q }
        } else {
            let m = (ua % ub) as i128;
            if x < 0 { -m } else { m }
        };
        if v < -9223372036854775808 || v > 9223372036854775807 { None } else { Some(v as i64) }
    }
}

fn add_op_exec(op: char, a: i64, b: i64) -> (r: Option<i64>)
    ensures
        match r {
            Some(x) => add_op(op, a as int, b as int) == Some(x as int),
            None => add_op(op, a as int, b as int) is None,
        },
{
    let v: i128 = if op == '+' { a as i128 + b as i128 } else { a as i128 - b as i128 };
    if v < -9223372036854775808 || v > 9223372036854775807 { None } else { Some(v as i64) }
}

pub open spec fn result_view(r: Option<(i64, usize)>) -> Option<(int, int)> {
    match r {
        Some((v, e)) => Some((v as int, e as int)),
        None => None,
    }
}

fn factor_exec(s: &Vec<char>, p: usize, vars: &Vec<(String, String)>) -> (r: Option<(i64, usize)>)
    requires
        p <= s.len(),
    ensures
        result_view(r) == arith_factor(s@, p as int, pair_views(vars@)),
        r matches Some((_, e)) ==> e <= s.len(),
    decreases s.len() - p, 0nat,
{
    let q = skip_blanks_exec(s, p);
    if q >= s.len() {
        return None;
    }
    let c = s[q];
    if c == '(' {
        match expr_exec(s, q + 1, vars) {
            Some((v, r)) => {
                let r2 = skip_blanks_exec(s, r);
                if r2 < s.len() && s[r2] == ')' { Some((v, r2 + 1)) } else { None }
            },
            None => None,
        }
    } else if c == '-' || c == '+' {
        match factor_exec(s, q + 1, vars) {
            Some((v, r)) => {
                if c == '-' {
                    if v == i64::MIN { None } else { Some((-v, r)) }
                } else {
                    Some((v, r))
                }
            },
            None => None,
        }
    } else if '0' <= c && c <= '9' {
        let (v, e) = number_exec(s, q);
        match v {
            Some(x) => Some((x, e)),
            None => None,
        }
    } else {
        let b = if c == '$' { q + 1 } else { q };
        if b < s.len() && (is_alphabetic(s[b]) || s[b] == '_') {
            let e = name_end_exec(s, b);
            let name = crate::text::sub_chars(s, b, e);
            match variable_number_exec(vars, &name) {
                Some(v) => Some((v, e)),
                None => None,
            }
        } else {
            None
        }
    }
}

fn term_exec(s: &Vec<char>, p: usize, vars: &Vec<(String, String)>) -> (r: Option<(i64, usize)>)
    requires
        p <= s.len(),
    ensures
        result_view(r) == arith_term(s@, p as int, pair_views(vars@)),
        r matches Some((_, e)) ==> e <= s.len(),
    decreases s.len() - p, 1nat,
{
    match factor_exec(s, p, vars) {
        Some((v, r)) => if p < r && r <= s.len() { term_rest_exec(s, v, r, vars) } else { None },
        None => None,
    }
}

fn term_rest_exec(s: &Vec<char>, acc: i64, p: usize, vars: &Vec<(String, String)>) -> (r: Option<(i64, usize)>)
    requires
        p <= s.len(),
    ensures
        result_view(r) == arith_term_rest(s@, acc as int, p as int, pair_views(vars@)),
        r matches Some((_, e)) ==> e <= s.len(),
    decreases s.len() - p, 1nat,
{
    let q = skip_blanks_exec(s, p);
    if q < s.len() && (s[q] == '*' || s[q] == '/' || s[q] == '%') {
        match factor_exec(s, q + 1, vars) {
            Some((v, r)) => match mul_op_exec(s[q], acc, v) {
                Some(w) => if p < r && r <= s.len() { term_rest_exec(s, w, r, vars) } else { None },
                None => None,
            },
            None => None,
        }
    } else {
        Some((acc, p))
    }
}

fn expr_exec(s: &Vec<char>, p: usize, vars: &Vec<(String, String)>) -> (r: Option<(i64, usize)>)
    requires
        p <= s.len(),
    ensures
        result_view(r) == arith_expr(s@, p as int, pair_views(vars@)),
        r matches Some((_, e)) ==> e <= s.len(),
    decreases s.len() - p, 2nat,
{
    match term_exec(s, p, vars) {
        Some((v, r)) => if p < r && r <= s.len() { expr_rest_exec(s, v, r, vars) } else { None },
        None => None,
    }
}

fn expr_rest_exec(s: &Vec<char>, acc: i64, p: usize, vars: &Vec<(String, String)>) -> (r: Option<(i64, usize)>)
    requires
        p <= s.len(),
    ensures
        result_view(r) == arith_expr_rest(s@, acc as int, p as int, pair_views(vars@)),
        r matches Some((_, e)) ==> e <= s.len(),
    decreases s.len() - p, 2nat,
{
    let q = skip_blanks_exec(s, p);
    if q < s.len() && (s[q] == '+' || s[q] == '-') {
        match term_exec(s, q + 1, vars) {
            Some((v, r)) => match add_op_exec(s[q], acc, v) {
                Some(w) => if p < r && r <= s.len() { expr_rest_exec(s, w, r, vars) } else { None },
                None => None,
            },
            None => None,
        }
    } else {
        Some((acc, p))
    }
}

/// Evaluates an arithmetic expression (see `arith_value`).
pub fn arith_eval(s: &Vec<char>, vars: &Vec<(String, String)>) -> (r: Option<i64>)
    ensures
        match r {
            Some(v) => arith_value(s@, pair_views(vars@)) == Some(v as int),
            None => arith_value(s@, pair_views(vars@)) is None,
        },
{
    match expr_exec(s, 0, vars) {
        Some((v, r)) => if skip_blanks_exec(s, r) == s.len() { Some(v) } else { None },
        None => None,
    }
}

// ---------------------------------------------------------------- laws

pub proof fn lemma_digits_value_nonneg(t: Seq<char>)
    requires
        all_digits(t),
    ensures
        digits_value(t) >= 0,
    decreases t.len(),
{
    if t.len() > 0 {
        lemma_digits_value_nonneg(t.drop_last());
        assert(is_digit(t[t.len() - 1]));
    }
}

proof fn lemma_digits_end_at(s: Seq<char>, p: int, e: int)
    requires
        0 <= p <= e <= s.len(),
        forall|k: int| p <= k < e ==> is_digit(#[trigger] s[k]),
        e == s.len() || !is_digit(s[e]),
    ensures
        digits_end(s, p) == e,
    decreases e - p,
{
    if p < e {
        lemma_digits_end_at(s, p + 1, e);
    }
}

/// The value of `da op db` (each a run of digits, `op` between two blanks):
/// the position after each operand and the value read.
proof fn lemma_two_numbers(da: Seq<char>, op: char, db: Seq<char>, vars: Seq<(Seq<char>, Seq<char>)>)
    requires
        da.len() > 0,
        db.len() > 0,
        all_digits(da),
        all_digits(db),
        in_i64(digits_value(da)),
        in_i64(digits_value(db)),
        op == '+' || op == '-',
    ensures
        ({
            let s = da + seq![' ', op, ' '] + db;
            let a = digits_value(da);
            let b = digits_value(db);
            arith_value(s, vars) == match add_op(op, a, b) { Some(w) => Some(w), None => None::<int> }
        }),
{
    let s = da + seq![' ', op, ' '] + db;
    let la = da.len() as int;
    let n = s.len() as int;
    let a = digits_value(da);
    let b = digits_value(db);
    assert(s[0] == da[0]);
    assert(is_digit(da[0]));
    assert(!char_is_whitespace(s[0]));
    assert(skip_blanks(s, 0) == 0);
    assert forall|k: int| 0 <= k < la implies is_digit(#[trigger] s[k]) by {
        assert(s[k] == da[k]);
    }
    assert(s[la] == ' ');
    lemma_digits_end_at(s, 0, la);
    assert(s.subrange(0, la) =~= da);
    assert(arith_factor(s, 0, vars) == Some((a, la)));
    // after the first number: blanks, then the operator
    assert(char_is_whitespace(' '));
    assert(s[la + 1] == op);
    assert(!char_is_whitespace(op));
    assert(skip_blanks(s, la + 1) == la + 1);
    assert(skip_blanks(s, la) == la + 1);
    assert(arith_term_rest(s, a, la, vars) == Some((a, la)));
    assert(arith_term(s, 0, vars) == Some((a, la)));
    // the second number
    assert(s[la + 2] == ' ');
    assert(s[la + 3] == db[0]);
    assert(is_digit(db[0]));
    assert(!char_is_whitespace(s[la + 3]));
    assert(skip_blanks(s, la + 3) == la + 3);
    assert(skip_blanks(s, la + 2) == la + 3);
    assert forall|k: int| la + 3 <= k < n implies is_digit(#[trigger] s[k]) by {
        assert(s[k] == db[k - la - 3]);
    }
    lemma_digits_end_at(s, la + 3, n);
    assert(s.subrange(la + 3, n) =~= db);
    assert(arith_factor(s, la + 2, vars) == Some((b, n)));
    assert(skip_blanks(s, n) == n);
    assert(arith_term_rest(s, b, n, vars) == Some((b, n)));
    assert(arith_term(s, la + 2, vars) == Some((b, n)));
    if let Some(w) = add_op(op, a, b) {
        assert(arith_expr_rest(s, w, n, vars) == Some((w, n)));
        assert(arith_expr_rest(s, a, la, vars) == Some((w, n)));
    } else {
        assert(arith_expr_rest(s, a, la, vars) is None);
    }
    assert(arith_expr(s, 0, vars) == arith_expr_rest(s, a, la, vars));
}

/// Subtraction is ordinary integer subtraction, left operand minus right:
/// for numbers `a` and `b` in 64 bits, `a - b` is worth `a - b` (so `2 - 5` is
/// `-3` and `5 - 2` is `3`).
pub proof fn law_arith_difference(da: Seq<char>, db: Seq<char>, vars: Seq<(Seq<char>, Seq<char>)>)
    requires
        da.len() > 0,
        db.len() > 0,
        all_digits(da),
        all_digits(db),
        digits_value(da) <= i64::MAX,
        digits_value(db) <= i64::MAX,
    ensures
        arith_value(da + seq![' ', '-', ' '] + db, vars) == Some(digits_value(da) - digits_value(db)),
{
    lemma_digits_value_nonneg(da);
    lemma_digits_value_nonneg(db);
    lemma_two_numbers(da, '-', db, vars);
}

/// Addition is ordinary integer addition: for numbers `a` and `b` whose sum
/// fits in 64 bits, `a + b` is worth `a + b`.
pub proof fn law_arith_sum(da: Seq<char>, db: Seq<char>, vars: Seq<(Seq<char>, Seq<char>)>)
    requires
        da.len() > 0,
        db.len() > 0,
        all_digits(da),
        all_digits(db),
        digits_value(da) + digits_value(db) <= i64::MAX,
    ensures
        arith_value(da + seq![' ', '+', ' '] + db, vars) == Some(digits_value(da) + digits_value(db)),
{
    lemma_digits_value_nonneg(da);
    lemma_digits_value_nonneg(db);
    lemma_two_numbers(da, '+', db, vars);
}

/// The value of `da op db` for a multiplicative `op`.
proof fn lemma_two_numbers_mul(da: Seq<char>, op: char, db: Seq<char>, vars: Seq<(Seq<char>, Seq<char>)>)
    requires
        da.len() > 0,
        db.len() > 0,
        all_digits(da),
        all_digits(db),
        in_i64(digits_value(da)),
        in_i64(digits_value(db)),
        op == '*' || op == '/' || op == '%',
    ensures
        arith_value(da + seq![' ', op, ' '] + db, vars) == mul_op(op, digits_value(da), digits_value(db)),
{
    let s = da + seq![' ', op, ' '] + db;
    let la = da.len() as int;
    let n = s.len() as int;
    let a = digits_value(da);
    let b = digits_value(db);
    assert(s[0] == da[0]);
    assert(is_digit(da[0]));
    assert(!char_is_whitespace(s[0]));
    assert(skip_blanks(s, 0) == 0);
    assert forall|k: int| 0 <= k < la implies is_digit(#[trigger] s[k]) by {
        assert(s[k] == da[k]);
    }
    assert(s[la] == ' ');
    lemma_digits_end_at(s, 0, la);
    assert(s.subrange(0, la) =~= da);
    assert(arith_factor(s, 0, vars) == Some((a, la)));
    assert(char_is_whitespace(' '));
    assert(s[la + 1] == op);
    assert(!char_is_whitespace(op));
    assert(skip_blanks(s, la + 1) == la + 1);
    assert(skip_blanks(s, la) == la + 1);
    assert(s[la + 2] == ' ');
    assert(s[la + 3] == db[0]);
    assert(is_digit(db[0]));
    assert(!char_is_whitespace(s[la + 3]));
    assert(skip_blanks(s, la + 3) == la + 3);
    assert(skip_blanks(s, la + 2) == la + 3);
    assert forall|k: int| la + 3 <= k < n implies is_digit(#[trigger] s[k]) by {
        assert(s[k] == db[k - la - 3]);
    }
    lemma_digits_end_at(s, la + 3, n);
    assert(s.subrange(la + 3, n) =~= db);
    assert(arith_factor(s, la + 2, vars) == Some((b, n)));
    assert(skip_blanks(s, n) == n);
    if let Some(w) = mul_op(op, a, b) {
        assert(arith_term_rest(s, w, n, vars) == Some((w, n)));
        assert(arith_term_rest(s, a, la, vars) == Some((w, n)));
        assert(arith_term(s, 0, vars) == Some((w, n)));
        assert(arith_expr_rest(s, w, n, vars) == Some((w, n)));
        assert(arith_expr(s, 0, vars) == Some((w, n)));
    } else {
        assert(arith_term_rest(s, a, la, vars) is None);
        assert(arith_term(s, 0, vars) is None);
        assert(arith_expr(s, 0, vars) is None);
    }
}

/// Multiplication is ordinary integer multiplication: for numbers `a` and `b`
/// whose product fits in 64 bits, `a * b` is worth `a * b`.
pub proof fn law_arith_product(da: Seq<char>, db: Seq<char>, vars: Seq<(Seq<char>, Seq<char>)>)
    requires
        da.len() > 0,
        db.len() > 0,
        all_digits(da),
        all_digits(db),
        digits_value(da) <= i64::MAX,
        digits_value(db) <= i64::MAX,
        digits_value(da) * digits_value(db) <= i64::MAX,
    ensures
        arith_value(da + seq![' ', '*', ' '] + db, vars) == Some(digits_value(da) * digits_value(db)),
{
    lemma_digits_value_nonneg(da);
    lemma_digits_value_nonneg(db);
    let (a, b) = (digits_value(da), digits_value(db));
    assert(a * b >= 0) by (nonlinear_arith)
        requires
            a >= 0,
            b >= 0,
    ;
    lemma_two_numbers_mul(da, '*', db, vars);
}

/// Division of numbers is the integer quotient and `%` the remainder: for
/// numbers `a` and `b` with `b > 0`, `a / b` is worth `a / b` (so `10 / 3` is
/// `3`) and `a % b` is worth `a % b` (`10 % 3` is `1`); dividing by `0` has no
/// value.
pub proof fn law_arith_quotient_remainder(da: Seq<char>, db: Seq<char>, vars: Seq<(Seq<char>, Seq<char>)>)
    requires
        da.len() > 0,
        db.len() > 0,
        all_digits(da),
        all_digits(db),
        digits_value(da) <= i64::MAX,
        digits_value(db) <= i64::MAX,
    ensures
        digits_value(db) > 0 ==> arith_value(da + seq![' ', '/', ' '] + db, vars) == Some(digits_value(da) / digits_value(db)),
        digits_value(db) > 0 ==> arith_value(da + seq![' ', '%', ' '] + db, vars) == Some(digits_value(da) % digits_value(db)),
        digits_value(db) == 0 ==> arith_value(da + seq![' ', '/', ' '] + db, vars) is None,
        digits_value(db) == 0 ==> arith_value(da + seq![' ', '%', ' '] + db, vars) is None,
{
    lemma_digits_value_nonneg(da);
    lemma_digits_value_nonneg(db);
    let (a, b) = (digits_value(da), digits_value(db));
    if b > 0 {
        assert(0 <= a / b <= a) by (nonlinear_arith)
            requires
                a >= 0,
                b > 0,
        ;
        assert(0 <= a % b < b) by (nonlinear_arith)
            requires
                a >= 0,
                b > 0,
        ;
    }
    lemma_two_numbers_mul(da, '/', db, vars);
    lemma_two_numbers_mul(da, '%', db, vars);
}

/// A run of digits from `p` to `e` is an operand worth its value.
proof fn lemma_factor_number(s: Seq<char>, p: int, e: int, vars: Seq<(Seq<char>, Seq<char>)>)
    requires
        0 <= p < e <= s.len(),
        forall|k: int| p <= k < e ==> is_digit(#[trigger] s[k]),
        e == s.len() || !is_digit(s[e]),
        in_i64(digits_value(s.subrange(p, e))),
    ensures
        arith_factor(s, p, vars) == Some((digits_value(s.subrange(p, e)), e)),
{
    assert(is_digit(s[p]));
    assert(!char_is_whitespace(s[p]));
    assert(skip_blanks(s, p) == p);
    lemma_digits_end_at(s, p, e);
}

/// `a - b - c` is `(a - b) - c` and `a + b * c` is `a + (b * c)`: subtraction
/// groups to the left and `*` binds tighter than `+` (so `10 - 4 - 3` is `3`
/// and `1 + 2 * 3` is `7`).
pub proof fn law_arith_grouping(da: Seq<char>, db: Seq<char>, dc: Seq<char>, vars: Seq<(Seq<char>, Seq<char>)>)
    requires
        da.len() > 0,
        db.len() > 0,
        dc.len() > 0,
        all_digits(da),
        all_digits(db),
        all_digits(dc),
        digits_value(da) <= i64::MAX,
        digits_value(db) <= i64::MAX,
        digits_value(dc) <= i64::MAX,
    ensures
        in_i64(digits_value(da) - digits_value(db) - digits_value(dc)) ==> arith_value(
            da + seq![' ', '-', ' '] + db + seq![' ', '-', ' '] + dc,
            vars,
        ) == Some(digits_value(da) - digits_value(db) - digits_value(dc)),
        in_i64(digits_value(db) * digits_value(dc)) && in_i64(digits_value(da) + digits_value(db) * digits_value(dc))
            ==> arith_value(da + seq![' ', '+', ' '] + db + seq![' ', '*', ' '] + dc, vars) == Some(
            digits_value(da) + digits_value(db) * digits_value(dc),
        ),
{
    lemma_digits_value_nonneg(da);
    lemma_digits_value_nonneg(db);
    lemma_digits_value_nonneg(dc);
    lemma_three_numbers(da, '-', db, '-', dc, vars);
    lemma_three_numbers(da, '+', db, '*', dc, vars);
}

proof fn lemma_three_numbers(da: Seq<char>, o1: char, db: Seq<char>, o2: char, dc: Seq<char>, vars: Seq<(Seq<char>, Seq<char>)>)
    requires
        da.len() > 0,
        db.len() > 0,
        dc.len() > 0,
        all_digits(da),
        all_digits(db),
        all_digits(dc),
        0 <= digits_value(da) <= i64::MAX,
        0 <= digits_value(db) <= i64::MAX,
        0 <= digits_value(dc) <= i64::MAX,
        (o1 == '-' && o2 == '-') || (o1 == '+' && o2 == '*'),
    ensures
        ({
            let s = da + seq![' ', o1, ' '] + db + seq![' ', o2, ' '] + dc;
            let (a, b, c) = (digits_value(da), digits_value(db), digits_value(dc));
            &&& o2 == '-' && in_i64(a - b - c) ==> arith_value(s, vars) == Some(a - b - c)
            &&& o2 == '*' && in_i64(b * c) && in_i64(a + b * c) ==> arith_value(s, vars) == Some(a + b * c)
        }),
{
    let s = da + seq![' ', o1, ' '] + db + seq![' ', o2, ' '] + dc;
    let (a, b, c) = (digits_value(da), digits_value(db), digits_value(dc));
    let la = da.len() as int;
    let b0 = la + 3;
    let b1 = b0 + db.len();
    let c0 = b1 + 3;
    let n = s.len() as int;
    assert(n == c0 + dc.len());
    assert(char_is_whitespace(' '));
    assert forall|k: int| 0 <= k < la implies is_digit(#[trigger] s[k]) by {
        assert(s[k] == da[k]);
    }
    assert forall|k: int| b0 <= k < b1 implies is_digit(#[trigger] s[k]) by {
        assert(s[k] == db[k - b0]);
    }
    assert forall|k: int| c0 <= k < n implies is_digit(#[trigger] s[k]) by {
        assert(s[k] == dc[k - c0]);
    }
    assert(s[la] == ' ' && s[la + 1] == o1 && s[la + 2] == ' ');
    assert(s[b1] == ' ' && s[b1 + 1] == o2 && s[b1 + 2] == ' ');
    assert(s.subrange(0, la) =~= da);
    assert(s.subrange(b0, b1) =~= db);
    assert(s.subrange(c0, n) =~= dc);
    lemma_factor_number(s, 0, la, vars);
    lemma_factor_number(s, b0, b1, vars);
    lemma_factor_number(s, c0, n, vars);
    assert(!char_is_whitespace(o1) && !char_is_whitespace(o2));
    assert(skip_blanks(s, la + 1) == la + 1);
    assert(skip_blanks(s, la) == la + 1);
    assert(skip_blanks(s, b1 + 1) == b1 + 1);
    assert(skip_blanks(s, b1) == b1 + 1);
    assert(skip_blanks(s, b0) == b0);
    assert(skip_blanks(s, la + 2) == b0);
    assert(skip_blanks(s, c0) == c0);
    assert(skip_blanks(s, b1 + 2) == c0);
    assert(skip_blanks(s, n) == n);
    assert(arith_factor(s, la + 2, vars) == arith_factor(s, b0, vars));
    assert(arith_factor(s, b1 + 2, vars) == arith_factor(s, c0, vars));
    assert(arith_term_rest(s, a, la, vars) == Some((a, la)));
    assert(arith_term(s, 0, vars) == Some((a, la)));
    assert(arith_term_rest(s, c, n, vars) == Some((c, n)));
    if o2 == '-' {
        assert(arith_term_rest(s, b, b1, vars) == Some((b, b1)));
        assert(arith_term(s, la + 2, vars) == Some((b, b1)));
        assert(arith_term(s, b1 + 2, vars) == Some((c, n)));
        if in_i64(a - b - c) {
            assert(add_op('-', a, b) == Some(a - b));
            assert(add_op('-', a - b, c) == Some(a - b - c));
            assert(arith_expr_rest(s, a - b - c, n, vars) == Some((a - b - c, n)));
            assert(arith_expr_rest(s, a - b, b1, vars) == Some((a - b - c, n)));
            assert(arith_expr_rest(s, a, la, vars) == Some((a - b - c, n)));
        }
    } else {
        if in_i64(b * c) && in_i64(a + b * c) {
            assert(mul_op('*', b, c) == Some(b * c));
            assert(arith_term_rest(s, b * c, n, vars) == Some((b * c, n)));
            assert(arith_term_rest(s, b, b1, vars) == Some((b * c, n)));
            assert(arith_term(s, la + 2, vars) == Some((b * c, n)));
            assert(add_op('+', a, b * c) == Some(a + b * c));
            assert(arith_expr_rest(s, a + b * c, n, vars) == Some((a + b * c, n)));
            assert(arith_expr_rest(s, a, la, vars) == Some((a + b * c, n)));
        }
    }
}

/// `$((a - b))` for numbers `a` and `b` expands to the difference in decimal
/// (so `$((2 - 5))` gives `-3`).
pub proof fn law_difference_expands(da: Seq<char>, db: Seq<char>, last_exit_code: i32, ctx: ContextView)
    requires
        da.len() > 0,
        db.len() > 0,
        all_digits(da),
        all_digits(db),
        digits_value(da) <= i64::MAX,
        digits_value(db) <= i64::MAX,
    ensures
        expanded(seq!['$', '(', '('] + (da + seq![' ', '-', ' '] + db) + seq![')', ')'], last_exit_code, ctx)
            == decimal(digits_value(da) - digits_value(db)),
{
    let e = da + seq![' ', '-', ' '] + db;
    law_arith_difference(da, db, ctx.vars);
    assert forall|i: int| 0 <= i < e.len() implies #[trigger] e[i] != '(' && e[i] != ')' by {
        if i < da.len() {
            assert(e[i] == da[i]);
            assert(is_digit(da[i]));
        } else if i >= da.len() + 3 {
            assert(e[i] == db[i - da.len() - 3]);
            assert(is_digit(db[i - da.len() - 3]));
        }
    }
    crate::expand::law_arithmetic_expansion(e, last_exit_code, ctx);
}

proof fn lemma_name_end_at(s: Seq<char>, p: int)
    requires
        0 <= p <= s.len(),
        forall|k: int| p <= k < s.len() ==> #[trigger] char_is_alphanumeric(s[k]) || s[k] == '_',
    ensures
        name_end(s, p) == s.len(),
    decreases s.len() - p,
{
    if p < s.len() {
        assert(char_is_alphanumeric(s[p]) || s[p] == '_');
        assert(is_name_char(s[p]));
        lemma_name_end_at(s, p + 1);
    }
}

/// A variable in an expression is read by its whole name (letters, digits and
/// underscores) and is worth the number it holds, or `0` when it is unset.
pub proof fn law_arith_variable(name: Seq<char>, vars: Seq<(Seq<char>, Seq<char>)>)
    requires
        name.len() > 0,
        char_is_alphabetic(name[0]) || name[0] == '_',
        forall|i: int| 0 <= i < name.len() ==> #[trigger] char_is_alphanumeric(name[i]) || name[i] == '_',
        !char_is_whitespace(name[0]) && !is_digit(name[0]),
        name[0] != '(' && name[0] != '+' && name[0] != '-' && name[0] != '$',
    ensures
        lookup(vars, name) is None ==> arith_value(name, vars) == Some(0int),
        forall|dv: Seq<char>| lookup(vars, name) == Some(dv) && dv.len() > 0 && all_digits(dv) && digits_value(dv) <= i64::MAX
            ==> arith_value(name, vars) == Some(digits_value(dv)),
{
    let n = name.len() as int;
    assert(skip_blanks(name, 0) == 0);
    assert(starts_name(name[0]));
    lemma_name_end_at(name, 0);
    assert(name.subrange(0, n) =~= name);
    assert(skip_blanks(name, n) == n);
    if lookup(vars, name) is None {
        assert(lookup_or_empty(vars, name) == Seq::<char>::empty());
        assert(trim(Seq::<char>::empty()).len() == 0);
        assert(variable_number(vars, name) == Some(0int));
        assert(arith_factor(name, 0, vars) == Some((0int, n)));
        assert(arith_term_rest(name, 0, n, vars) == Some((0int, n)));
        assert(arith_expr_rest(name, 0, n, vars) == Some((0int, n)));
    }
    assert forall|dv: Seq<char>| lookup(vars, name) == Some(dv) && dv.len() > 0 && all_digits(dv) && digits_value(dv) <= i64::MAX
        implies arith_value(name, vars) == Some(digits_value(dv)) by {
        assert(lookup_or_empty(vars, name) == dv);
        assert(is_digit(dv[0]) && is_digit(dv[dv.len() - 1]));
        crate::text::lemma_trim_unchanged(dv);
        lemma_digits_value_nonneg(dv);
        let v = digits_value(dv);
        assert(parse_int(dv) == Some(v));
        assert(variable_number(vars, name) == Some(v));
        assert(arith_factor(name, 0, vars) == Some((v, n)));
        assert(arith_term_rest(name, v, n, vars) == Some((v, n)));
        assert(arith_expr_rest(name, v, n, vars) == Some((v, n)));
    }
}

/// A leading `-` negates a number: `-a` is worth `-a` (and `+a` is `a`).
pub proof fn law_arith_sign(da: Seq<char>, vars: Seq<(Seq<char>, Seq<char>)>)
    requires
        da.len() > 0,
        all_digits(da),
        digits_value(da) <= i64::MAX,
    ensures
        arith_value(seq!['-'] + da, vars) == Some(-digits_value(da)),
        arith_value(seq!['+'] + da, vars) == Some(digits_value(da)),
{
    lemma_digits_value_nonneg(da);
    let a = digits_value(da);
    let n = da.len() as int + 1;
    assert(char_is_whitespace(' '));
    let s1 = seq!['-'] + da;
    assert forall|k: int| 1 <= k < n implies is_digit(#[trigger] s1[k]) by {
        assert(s1[k] == da[k - 1]);
    }
    assert(s1.subrange(1, n) =~= da);
    lemma_factor_number(s1, 1, n, vars);
    assert(s1[0] == '-');
    assert(skip_blanks(s1, 0) == 0);
    assert(skip_blanks(s1, n) == n);
    assert(arith_factor(s1, 0, vars) == Some((-a, n)));
    assert(arith_term_rest(s1, -a, n, vars) == Some((-a, n)));
    assert(arith_expr_rest(s1, -a, n, vars) == Some((-a, n)));
    let s2 = seq!['+'] + da;
    assert forall|k: int| 1 <= k < n implies is_digit(#[trigger] s2[k]) by {
        assert(s2[k] == da[k - 1]);
    }
    assert(s2.subrange(1, n) =~= da);
    lemma_factor_number(s2, 1, n, vars);
    assert(s2[0] == '+');
    assert(skip_blanks(s2, 0) == 0);
    assert(skip_blanks(s2, n) == n);
    assert(arith_factor(s2, 0, vars) == Some((a, n)));
    assert(arith_term_rest(s2, a, n, vars) == Some((a, n)));
    assert(arith_expr_rest(s2, a, n, vars) == Some((a, n)));
}

/// Division and remainder round toward zero, as in 64-bit integer
/// arithmetic: for numbers `a` and `b > 0`, `-a / b` is `-(a / b)` and
/// `-a % b` is `-(a % b)` (so `-7 / 2` is `-3` and `-7 % 2` is `-1`).
pub proof fn law_arith_truncates(da: Seq<char>, db: Seq<char>, vars: Seq<(Seq<char>, Seq<char>)>)
    requires
        da.len() > 0,
        db.len() > 0,
        all_digits(da),
        all_digits(db),
        digits_value(da) <= i64::MAX,
        0 < digits_value(db) <= i64::MAX,
    ensures
        arith_value(seq!['-'] + da + seq![' ', '/', ' '] + db, vars) == Some(-(digits_value(da) / digits_value(db))),
        arith_value(seq!['-'] + da + seq![' ', '%', ' '] + db, vars) == Some(-(digits_value(da) % digits_value(db))),
{
    lemma_digits_value_nonneg(da);
    let (a, b) = (digits_value(da), digits_value(db));
    assert(0 <= a / b <= a) by (nonlinear_arith)
        requires
            a >= 0,
            b > 0,
    ;
    assert(0 <= a % b < b) by (nonlinear_arith)
        requires
            a >= 0,
            b > 0,
    ;
    if a == 0 {
        assert(0int % b == 0) by (nonlinear_arith)
            requires
                b > 0,
        ;
        assert(trunc_rem(-a, b) == -(a % b));
    } else {
        assert(trunc_rem(-a, b) == -(a % b));
    }
    assert(mul_op('%', -a, b) == Some(-(a % b)));
    lemma_negated_mul(da, '/', db, vars);
    lemma_negated_mul(da, '%', db, vars);
}

proof fn lemma_negated_mul(da: Seq<char>, op: char, db: Seq<char>, vars: Seq<(Seq<char>, Seq<char>)>)
    requires
        da.len() > 0,
        db.len() > 0,
        all_digits(da),
        all_digits(db),
        0 <= digits_value(da) <= i64::MAX,
        0 < digits_value(db) <= i64::MAX,
        op == '/' || op == '%',
    ensures
        arith_value(seq!['-'] + da + seq![' ', op, ' '] + db, vars) == mul_op(op, -digits_value(da), digits_value(db)),
{
    let s = seq!['-'] + da + seq![' ', op, ' '] + db;
    let (a, b) = (digits_value(da), digits_value(db));
    let a1 = da.len() as int + 1;
    let b0 = a1 + 3;
    let n = s.len() as int;
    assert(char_is_whitespace(' '));
    assert forall|k: int| 1 <= k < a1 implies is_digit(#[trigger] s[k]) by {
        assert(s[k] == da[k - 1]);
    }
    assert forall|k: int| b0 <= k < n implies is_digit(#[trigger] s[k]) by {
        assert(s[k] == db[k - b0]);
    }
    assert(s[a1] == ' ' && s[a1 + 1] == op && s[a1 + 2] == ' ');
    assert(s.subrange(1, a1) =~= da);
    assert(s.subrange(b0, n) =~= db);
    lemma_factor_number(s, 1, a1, vars);
    lemma_factor_number(s, b0, n, vars);
    assert(s[0] == '-');
    assert(skip_blanks(s, 0) == 0);
    assert(arith_factor(s, 0, vars) == Some((-a, a1)));
    assert(!char_is_whitespace(op));
    assert(skip_blanks(s, a1 + 1) == a1 + 1);
    assert(skip_blanks(s, a1) == a1 + 1);
    assert(skip_blanks(s, b0) == b0);
    assert(skip_blanks(s, a1 + 2) == b0);
    assert(arith_factor(s, a1 + 2, vars) == arith_factor(s, b0, vars));
    assert(skip_blanks(s, n) == n);
    if let Some(w) = mul_op(op, -a, b) {
        assert(arith_term_rest(s, w, n, vars) == Some((w, n)));
        assert(arith_term_rest(s, -a, a1, vars) == Some((w, n)));
        assert(arith_term(s, 0, vars) == Some((w, n)));
        assert(arith_expr_rest(s, w, n, vars) == Some((w, n)));
    } else {
        assert(arith_term_rest(s, -a, a1, vars) is None);
    }
}

} // verus!
