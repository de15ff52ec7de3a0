//! Helpers for the text that tokens and values are made of: comparison, and
//! whole numbers written in decimal.

use vstd::prelude::*;

verus! {

/// Compares two texts with `==` of `str` (`PartialEq::eq`), which is true
/// exactly when both hold the same characters in the same order.
#[verifier::external_body]
pub(crate) fn same_text(a: &str, b: &str) -> (r: bool)
    ensures
        r == (a@ == b@),
{
    a == b
}

/// The character sequences of a list of strings.
pub open spec fn texts(v: Seq<String>) -> Seq<Seq<char>> {
    Seq::new(v.len(), |i: int| v[i]@)
}

/// Copies the tokens from `from` up to `to`.
pub(crate) fn copy_tokens(tokens: &Vec<String>, from: usize, to: usize) -> (r: Vec<String>)
    requires
        from <= to <= tokens.len(),
    ensures
        texts(r@) == texts(tokens@).subrange(from as int, to as int),
{
    let mut out: Vec<String> = Vec::new();
    let mut i: usize = from;
    assert(texts(out@) =~= texts(tokens@).subrange(from as int, from as int));
    while i < to
        invariant
            from <= i <= to <= tokens.len(),
            texts(out@) == texts(tokens@).subrange(from as int, i as int),
        decreases to - i,
    {
        let ghost so_far = texts(out@);
        out.push(tokens[i].clone());
        assert(texts(out@) =~= so_far.push(tokens[i as int]@));
        i += 1;
    }
    out
}

pub open spec fn is_digit(c: char) -> bool {
    '0' <= c && c <= '9'
}

pub open spec fn digit_value(c: char) -> int {
    c as int - 48
}

pub open spec fn digit_char(d: int) -> char {
    (d + 48) as char
}

pub open spec fn all_digits(s: Seq<char>) -> bool {
    forall|i: int| 0 <= i < s.len() ==> is_digit(#[trigger] s[i])
}

/// The number that a string of decimal digits denotes.
pub open spec fn decimal_value(s: Seq<char>) -> nat
    decreases s.len(),
{
    if s.len() == 0 {
        0
    } else {
        (decimal_value(s.drop_last()) * 10 + digit_value(s.last())) as nat
    }
}

/// The decimal digits of a natural number, without leading zeros.
pub open spec fn decimal_digits(n: nat) -> Seq<char>
    decreases n,
{
    if n < 10 {
        seq![digit_char(n as int)]
    } else {
        decimal_digits(n / 10).push(digit_char((n % 10) as int))
    }
}

/// An integer in decimal, with `-` in front of a negative one.
pub open spec fn integer_digits(n: int) -> Seq<char> {
    if n < 0 {
        seq!['-'] + decimal_digits((-n) as nat)
    } else {
        decimal_digits(n as nat)
    }
}

/// The natural number that a text denotes: decimal digits, at least one,
/// after an optional `+`.
pub open spec fn natural_of(s: Seq<char>) -> Option<nat> {
    let body = if s.len() > 0 && s[0] == '+' {
        s.skip(1)
    } else {
        s
    };
    if body.len() > 0 && all_digits(body) {
        Some(decimal_value(body))
    } else {
        None
    }
}

/// The integer that a text denotes: decimal digits, at least one, after an
/// optional `+` or `-`.
pub open spec fn integer_of(s: Seq<char>) -> Option<int> {
    if s.len() > 0 && s[0] == '-' {
        if s.len() > 1 && all_digits(s.skip(1)) {
            Some(-(decimal_value(s.skip(1)) as int))
        } else {
            None
        }
    } else {
        match natural_of(s) {
            Some(n) => Some(n as int),
            None => None,
        }
    }
}

/// What parsing a text as a 32-bit signed integer gives.
pub open spec fn parsed_i32(s: Seq<char>) -> Option<i32> {
    match integer_of(s) {
        Some(v) => if i32::MIN <= v <= i32::MAX {
            Some(v as i32)
        } else {
            None
        },
        None => None,
    }
}

/// What parsing a text as a natural number of at most `max` gives.
pub open spec fn parsed_up_to(s: Seq<char>, max: usize) -> Option<usize> {
    match natural_of(s) {
        Some(v) => if v <= max {
            Some(v as usize)
        } else {
            None
        },
        None => None,
    }
}

/// A digit string denotes at least what any of its prefixes denotes.
pub proof fn lemma_decimal_value_prefix(s: Seq<char>, k: int)
    requires
        all_digits(s),
        0 <= k <= s.len(),
    ensures
        decimal_value(s.take(k)) <= decimal_value(s),
    decreases s.len() - k,
{
    if k == s.len() {
        assert(s.take(k) =~= s);
    } else {
        lemma_decimal_value_prefix(s, k + 1);
        assert(s.take(k + 1).drop_last() =~= s.take(k));
        assert(is_digit(s.take(k + 1).last()));
    }
}

/// The decimal digits of a number denote that number.
pub proof fn lemma_decimal_digits_value(n: nat)
    ensures
        decimal_digits(n).len() > 0,
        all_digits(decimal_digits(n)),
        decimal_value(decimal_digits(n)) == n,
    decreases n,
{
    let digits = decimal_digits(n);
    let last = (n % 10) as int;
    assert(is_digit(digit_char(last)) && digit_value(digit_char(last)) == last);
    if n < 10 {
        assert(digits.drop_last() =~= Seq::<char>::empty());
        assert(decimal_value(digits.drop_last()) == 0);
        assert(digits.last() == digit_char(last));
    } else {
        lemma_decimal_digits_value(n / 10);
        assert(digits.drop_last() =~= decimal_digits(n / 10));
        assert(digits.last() == digit_char(last));
        assert forall|i: int| 0 <= i < digits.len() implies is_digit(#[trigger] digits[i]) by {
            if i < digits.len() - 1 {
                assert(digits[i] == decimal_digits(n / 10)[i]);
            }
        }
    }
}

/// A natural number written in decimal reads back as itself.
pub proof fn lemma_natural_round_trip(n: nat)
    ensures
        natural_of(decimal_digits(n)) == Some(n),
{
    lemma_decimal_digits_value(n);
    assert(is_digit(decimal_digits(n)[0]));
}

/// A 32-bit integer written in decimal reads back as itself.
pub proof fn lemma_integer_round_trip(n: i32)
    ensures
        parsed_i32(integer_digits(n as int)) == Some(n),
{
    if n < 0 {
        lemma_decimal_digits_value((-n) as nat);
        assert(integer_digits(n as int).skip(1) =~= decimal_digits((-n) as nat));
    } else {
        lemma_natural_round_trip(n as nat);
        lemma_decimal_digits_value(n as nat);
        assert(is_digit(decimal_digits(n as nat)[0]));
    }
}

/// Reads the digits of `text` from `start` on. `Some(v)`: they are all
/// digits and denote `v`, which is at most `max`.
fn parse_digits(text: &str, start: usize, max: u64) -> (r: Option<u64>)
    requires
        start <= text@.len(),
        max <= 0xffff_ffff,
    ensures
        r == if all_digits(text@.skip(start as int)) && decimal_value(text@.skip(start as int))
            <= max {
            Some(decimal_value(text@.skip(start as int)) as u64)
        } else {
            None
        },
{
    let n = text.unicode_len();
    let ghost body = text@.skip(start as int);
    let mut acc: u64 = 0;
    let mut i: usize = start;
    while i < n
        invariant
            start <= i <= n,
            n == text@.len(),
            body == text@.skip(start as int),
            all_digits(body.take(i - start)),
            acc == decimal_value(body.take(i - start)),
            acc <= max <= 0xffff_ffff,
        decreases n - i,
    {
        let c = text.get_char(i);
        assert(body[i - start] == c);
        if !(c >= '0' && c <= '9') {
            return None;
        }
        let d: u64 = (c as u32 - 48) as u64;
        acc = acc * 10 + d;
        proof {
            let next = body.take(i - start + 1);
            assert(next.drop_last() =~= body.take(i - start));
            assert(next.last() == c);
            assert(all_digits(next)) by {
                assert forall|j: int| 0 <= j < next.len() implies is_digit(#[trigger] next[j]) by {
                    if j < i - start {
                        assert(next[j] == body.take(i - start)[j]);
                    }
                }
            }
        }
        if acc > max {
            proof {
                if all_digits(body) {
                    lemma_decimal_value_prefix(body, i - start + 1);
                }
            }
            return None;
        }
        i += 1;
    }
    assert(body.take(i - start) =~= body);
    Some(acc)
}

/// Parses a text as a 32-bit signed integer, as `str::parse` does: an
/// optional sign, then decimal digits only.
pub fn parse_i32(text: &str) -> (r: Option<i32>)
    ensures
        r == parsed_i32(text@),
{
    let n = text.unicode_len();
    if n == 0 {
        return None;
    }
    let first = text.get_char(0);
    if first == '-' {
        if n == 1 {
            return None;
        }
        match parse_digits(text, 1, 0x8000_0000) {
            Some(v) => {
                let w: i64 = 0 - (v as i64);
                Some(w as i32)
            },
            None => None,
        }
    } else {
        let start: usize = if first == '+' {
            1
        } else {
            0
        };
        if start == n {
            return None;
        }
        assert(text@.skip(0) =~= text@);
        match parse_digits(text, start, 0x7fff_ffff) {
            Some(v) => Some(v as i32),
            None => None,
        }
    }
}

/// Parses a text as a natural number and accepts it if it is at most `max`.
/// The text is an optional `+`, then decimal digits only.
pub fn parse_up_to(text: &str, max: u32) -> (r: Option<usize>)
    ensures
        r == parsed_up_to(text@, max as usize),
{
    let n = text.unicode_len();
    if n == 0 {
        return None;
    }
    let first = text.get_char(0);
    let start: usize = if first == '+' {
        1
    } else {
        0
    };
    if start == n {
        return None;
    }
    assert(text@.skip(0) =~= text@);
    match parse_digits(text, start, max as u64) {
        Some(v) => Some(v as usize),
        None => None,
    }
}

/// The one-character text of a decimal digit.
fn digit_text(d: u64) -> (r: &'static str)
    requires
        d < 10,
    ensures
        r@ == seq![digit_char(d as int)],
{
    proof {
        reveal_strlit("0");
        reveal_strlit("1");
        reveal_strlit("2");
        reveal_strlit("3");
        reveal_strlit("4");
        reveal_strlit("5");
        reveal_strlit("6");
        reveal_strlit("7");
        reveal_strlit("8");
        reveal_strlit("9");
    }
    let r = if d == 0 {
        "0"
    } else if d == 1 {
        "1"
    } else if d == 2 {
        "2"
    } else if d == 3 {
        "3"
    } else if d == 4 {
        "4"
    } else if d == 5 {
        "5"
    } else if d == 6 {
        "6"
    } else if d == 7 {
        "7"
    } else if d == 8 {
        "8"
    } else {
        "9"
    };
    assert(r@ =~= seq![digit_char(d as int)]);
    r
}

/// Appends the decimal digits of `n` to `out`.
fn push_decimal(out: &mut String, n: u64)
    ensures
        final(out)@ == old(out)@ + decimal_digits(n as nat),
    decreases n,
{
    if n >= 10 {
        push_decimal(out, n / 10);
    }
    out.append(digit_text(n % 10));
    assert(out@ =~= old(out)@ + decimal_digits(n as nat));
}

/// A natural number in decimal, as `to_string` writes it.
pub fn natural_text(n: usize) -> (r: String)
    ensures
        r@ == decimal_digits(n as nat),
{
    let mut out = String::new();
    push_decimal(&mut out, n as u64);
    assert(out@ =~= decimal_digits(n as nat));
    out
}

/// A 32-bit signed integer in decimal, as `to_string` writes it.
pub fn integer_text(n: i32) -> (r: String)
    ensures
        r@ == integer_digits(n as int),
{
    if n < 0 {
        proof {
            reveal_strlit("-");
        }
        let mut out = String::from_str("-");
        let magnitude: i64 = 0 - (n as i64);
        push_decimal(&mut out, magnitude as u64);
        assert(out@ =~= integer_digits(n as int));
        out
    } else {
        let mut out = String::new();
        push_decimal(&mut out, n as u64);
        assert(out@ =~= integer_digits(n as int));
        out
    }
}

} // verus!
