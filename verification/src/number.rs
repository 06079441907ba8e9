//! Decimal integers: parsing as `str::parse::<i32>` does and formatting as
//! `to_string` does.
use vstd::prelude::*;

verus! {

pub open spec fn is_digit(c: char) -> bool {
    '0' <= c && c <= '9'
}

pub open spec fn digit_value(c: char) -> int {
    c as int - '0' as int
}

pub open spec fn all_digits(s: Seq<char>) -> bool {
    forall|i: int| 0 <= i < s.len() ==> is_digit(#[trigger] s[i])
}

/// The value of a string of decimal digits.
pub open spec fn digits_value(s: Seq<char>) -> int
    decreases s.len(),
{
    if s.len() == 0 {
        0
    } else {
        digits_value(s.drop_last()) * 10 + digit_value(s.last())
    }
}

/// What `str::parse::<i32>` gives: an optional `+` or `-` sign followed by at
/// least one decimal digit and nothing else, with a value that fits in `i32`.
pub open spec fn parse_i32_spec(s: Seq<char>) -> Option<i32> {
    let neg = s.len() > 0 && s[0] == '-';
    let body = if s.len() > 0 && (s[0] == '-' || s[0] == '+') { s.drop_first() } else { s };
    let v = if neg { -digits_value(body) } else { digits_value(body) };
    if body.len() == 0 || !all_digits(body) || v < i32::MIN || v > i32::MAX {
        None
    } else {
        Some(v as i32)
    }
}

pub open spec fn digit_char(d: int) -> char {
    (d + '0' as int) as char
}

/// The decimal digits of `n`, without leading zeros.
pub open spec fn nat_digits(n: nat) -> Seq<char>
    decreases n,
{
    if n < 10 {
        seq![digit_char(n as int)]
    } else {
        nat_digits(n / 10).push(digit_char((n % 10) as int))
    }
}

/// The decimal form of `n`, as `to_string` writes it.
pub open spec fn decimal(n: int) -> Seq<char> {
    if n < 0 { seq!['-'] + nat_digits((-n) as nat) } else { nat_digits(n as nat) }
}

/// Parses `s` as `str::parse::<i32>` does; `None` stands for its error.
pub fn parse_i32(s: &Vec<char>) -> (r: Option<i32>)
    ensures
        r == parse_i32_spec(s@),
{
    let n = s.len();
    let mut start: usize = 0;
    let mut neg = false;
    if n > 0 && (s[0] == '-' || s[0] == '+') {
        neg = s[0] == '-';
        start = 1;
    }
    let ghost body = s@.skip(start as int);
    assert(body =~= (if s@.len() > 0 && (s@[0] == '-' || s@[0] == '+') { s@.drop_first() } else { s@ }));
    if start == n {
        return None;
    }
    let mut value: i64 = 0;
    let mut over = false;
    let mut i = start;
    while i < n
        invariant
            start <= i <= n,
            n == s.len(),
            body == s@.skip(start as int),
            body == (if s@.len() > 0 && (s@[0] == '-' || s@[0] == '+') { s@.drop_first() } else { s@ }),
            neg == (s@.len() > 0 && s@[0] == '-'),
            all_digits(s@.subrange(start as int, i as int)),
            !over ==> value == digits_value(s@.subrange(start as int, i as int)),
            !over ==> 0 <= value <= 2147483648,
            over ==> digits_value(s@.subrange(start as int, i as int)) > 2147483648,
        decreases n - i,
    {
        let c = s[i];
        if c < '0' || c > '9' {
            assert(!all_digits(body)) by {
                assert(body[i - start] == c);
                assert(!is_digit(body[i - start]));
            }
            return None;
        }
        let ghost prev = s@.subrange(start as int, i as int);
        assert(s@.subrange(start as int, i + 1).drop_last() =~= prev);
        assert(s@.subrange(start as int, i + 1).last() == c);
        let d = (c as u32 - '0' as u32) as i64;
        if !over {
            let next = value * 10 + d;
            if next > 2147483648 {
                over = true;
            } else {
                value = next;
            }
        }
        i += 1;
    }
    assert(s@.subrange(start as int, n as int) =~= body);
    if over {
        return None;
    }
    if neg {
        Some((-value) as i32)
    } else if value > 2147483647 {
        None
    } else {
        Some(value as i32)
    }
}

/// Appends the decimal digits of `m` to `v`.
pub fn push_digits(v: &mut Vec<char>, m: u64)
    ensures
        final(v)@ == old(v)@ + nat_digits(m as nat),
    decreases m,
{
    if m >= 10 {
        push_digits(v, m / 10);
    }
    let d = (m % 10) as u8;
    let c = (d + 48) as char;
    v.push(c);
    proof {
        if m >= 10 {
            assert(nat_digits(m as nat) == nat_digits((m / 10) as nat).push(digit_char((m % 10) as int)));
        }
    }
    assert(c == digit_char((m % 10) as int));
}

/// The decimal form of `n`.
pub fn format_i64(n: i64) -> (r: Vec<char>)
    ensures
        r@ == decimal(n as int),
{
    let mut v: Vec<char> = Vec::new();
    if n < 0 {
        v.push('-');
        let m: u64 = if n == i64::MIN { 9223372036854775808u64 } else { (-n) as u64 };
        push_digits(&mut v, m);
        assert(v@ =~= seq!['-'] + nat_digits((-(n as int)) as nat));
    } else {
        push_digits(&mut v, n as u64);
        assert(v@ =~= nat_digits(n as nat));
    }
    v
}

} // verus!
