//! Character sequences: conversion from strings, decimal digits.

use vstd::prelude::*;

verus! {

/// The characters of `s`, in order.
pub fn chars_of(s: &str) -> (chars: Vec<char>)
    ensures
        chars@ == s@,
{
    broadcast use vstd::string::group_string_axioms;

    let mut chars: Vec<char> = Vec::new();
    for c in it: s.chars()
        invariant
            it.seq() == s@,
            chars@ == it.seq().take(it.index()),
    {
        chars.push(c);
    }
    chars
}

/// A copy of `chars[from..to]`.
pub fn copy_range(chars: &Vec<char>, from: usize, to: usize) -> (part: Vec<char>)
    requires
        from <= to <= chars.len(),
    ensures
        part@ == chars@.subrange(from as int, to as int),
{
    let mut part: Vec<char> = Vec::new();
    let mut i: usize = from;
    while i < to
        invariant
            from <= i <= to <= chars.len(),
            part@ == chars@.subrange(from as int, i as int),
        decreases to - i,
    {
        part.push(chars[i]);
        i += 1;
    }
    part
}

/// Whether `c` is one of the ten ASCII digits.
pub open spec fn is_digit(c: char) -> bool {
    '0' <= c <= '9'
}

/// The number a digit stands for.
pub open spec fn digit_value(c: char) -> nat {
    (c as int - '0' as int) as nat
}

/// Whether every character of `s` is an ASCII digit.
pub open spec fn all_digits(s: Seq<char>) -> bool {
    forall|i: int| 0 <= i < s.len() ==> is_digit(#[trigger] s[i])
}

/// The number that the digit string `s` writes in base ten; 0 for the
/// empty string.
pub open spec fn decimal_value(s: Seq<char>) -> nat
    decreases s.len(),
{
    if s.len() == 0 {
        0
    } else {
        decimal_value(s.drop_last()) * 10 + digit_value(s.last())
    }
}

/// A digit string never writes a smaller number than one of its prefixes.
pub proof fn lemma_decimal_value_grows(s: Seq<char>, n: int)
    requires
        0 <= n <= s.len(),
    ensures
        decimal_value(s.take(n)) <= decimal_value(s),
    decreases s.len() - n,
{
    if n == s.len() {
        assert(s.take(n) == s);
    } else {
        lemma_decimal_value_grows(s.drop_last(), n);
        assert(s.drop_last().take(n) == s.take(n));
    }
}

/// A string of `n` digits writes a number below 10^n; stated for the
/// lengths that date tokens use.
pub proof fn lemma_decimal_value_bound(s: Seq<char>)
    requires
        all_digits(s),
    ensures
        s.len() == 0 ==> decimal_value(s) == 0,
        s.len() == 1 ==> decimal_value(s) <= 9,
        s.len() == 2 ==> decimal_value(s) <= 99,
        s.len() == 3 ==> decimal_value(s) <= 999,
        s.len() == 4 ==> decimal_value(s) <= 9999,
    decreases s.len(),
{
    if s.len() > 0 {
        assert(is_digit(s.last()));
        assert(all_digits(s.drop_last())) by {
            assert forall|i: int| 0 <= i < s.drop_last().len() implies is_digit(
                #[trigger] s.drop_last()[i],
            ) by {
                assert(s.drop_last()[i] == s[i]);
            }
        }
        lemma_decimal_value_bound(s.drop_last());
    }
}

/// Whether every character of `chars` is an ASCII digit.
pub fn is_all_digits(chars: &Vec<char>) -> (yes: bool)
    ensures
        yes == all_digits(chars@),
{
    let mut i: usize = 0;
    while i < chars.len()
        invariant
            i <= chars.len(),
            forall|j: int| 0 <= j < i ==> is_digit(#[trigger] chars@[j]),
        decreases chars.len() - i,
    {
        let c: char = chars[i];
        if !(c >= '0' && c <= '9') {
            return false;
        }
        i += 1;
    }
    true
}

/// The number that `chars` writes, when it does not exceed `cap`.
pub fn bounded_value(chars: &Vec<char>, cap: u32) -> (value: Option<u32>)
    requires
        all_digits(chars@),
        cap <= 400_000_000,
    ensures
        value == (if decimal_value(chars@) <= cap {
            Some(decimal_value(chars@) as u32)
        } else {
            None
        }),
{
    let mut total: u32 = 0;
    let mut i: usize = 0;
    while i < chars.len()
        invariant
            i <= chars.len(),
            all_digits(chars@),
            cap <= 400_000_000,
            total <= cap,
            total == decimal_value(chars@.take(i as int)),
        decreases chars.len() - i,
    {
        let c: char = chars[i];
        let d: u32 = c as u32 - '0' as u32;
        proof {
            assert(is_digit(chars@[i as int]));
            assert(chars@.take(i + 1).drop_last() == chars@.take(i as int));
            assert(chars@.take(i + 1).last() == c);
        }
        let next: u32 = total * 10 + d;
        if next > cap {
            proof {
                lemma_decimal_value_grows(chars@, i + 1);
            }
            return None;
        }
        total = next;
        i += 1;
    }
    proof {
        assert(chars@.take(i as int) == chars@);
    }
    Some(total)
}

/// The character that writes the digit `d`.
pub open spec fn digit_char(d: nat) -> char {
    if d == 0 {
        '0'
    } else if d == 1 {
        '1'
    } else if d == 2 {
        '2'
    } else if d == 3 {
        '3'
    } else if d == 4 {
        '4'
    } else if d == 5 {
        '5'
    } else if d == 6 {
        '6'
    } else if d == 7 {
        '7'
    } else if d == 8 {
        '8'
    } else {
        '9'
    }
}

/// The shortest base-ten writing of `n`.
pub open spec fn decimal_text(n: nat) -> Seq<char>
    decreases n,
{
    if n < 10 {
        seq![digit_char(n)]
    } else {
        decimal_text(n / 10).push(digit_char(n % 10))
    }
}

/// `-` for a negative number, nothing otherwise.
pub open spec fn sign_text(n: int) -> Seq<char> {
    if n < 0 {
        seq!['-']
    } else {
        Seq::empty()
    }
}

/// How far `n` is from zero.
pub open spec fn magnitude(n: int) -> nat {
    if n < 0 {
        (-n) as nat
    } else {
        n as nat
    }
}

/// The base-ten writing of a whole number, with `-` before a negative one.
pub open spec fn int_text(n: int) -> Seq<char> {
    sign_text(n) + decimal_text(magnitude(n))
}

/// The digits after the point for `f` thousandths, without trailing zeros;
/// nothing for zero.
pub open spec fn fraction_digits(f: nat) -> Seq<char> {
    if f % 1000 == 0 {
        Seq::empty()
    } else if f % 100 == 0 {
        seq![digit_char((f / 100) % 10)]
    } else if f % 10 == 0 {
        seq![digit_char((f / 100) % 10), digit_char((f / 10) % 10)]
    } else {
        seq![digit_char((f / 100) % 10), digit_char((f / 10) % 10), digit_char(f % 10)]
    }
}

/// The base-ten writing of a number given in thousandths: the whole part,
/// then a point and up to three digits where the number is not whole.
pub open spec fn thousandths_text(n: int) -> Seq<char> {
    let whole = sign_text(n) + decimal_text(magnitude(n) / 1000);
    if magnitude(n) % 1000 == 0 {
        whole
    } else {
        whole + seq!['.'] + fraction_digits(magnitude(n) % 1000)
    }
}

/// `parts` written one after the other with `separator` between neighbours.
pub open spec fn joined(parts: Seq<Seq<char>>, separator: Seq<char>) -> Seq<char>
    decreases parts.len(),
{
    if parts.len() == 0 {
        Seq::empty()
    } else if parts.len() == 1 {
        parts[0]
    } else {
        joined(parts.drop_last(), separator) + separator + parts.last()
    }
}

/// What each of the given strings holds.
pub open spec fn texts_of(strings: Seq<String>) -> Seq<Seq<char>> {
    Seq::new(strings.len(), |i: int| strings[i]@)
}

/// Writing a number and reading it back gives the number.
pub proof fn lemma_decimal_text_round_trip(n: nat)
    ensures
        all_digits(decimal_text(n)),
        decimal_text(n).len() > 0,
        decimal_value(decimal_text(n)) == n,
    decreases n,
{
    if n < 10 {
        let text = decimal_text(n);
        assert(text.drop_last().len() == 0);
        assert(decimal_value(text.drop_last()) == 0);
        assert(text.last() == digit_char(n));
    } else {
        lemma_decimal_text_round_trip(n / 10);
        let text = decimal_text(n);
        assert(text.drop_last() == decimal_text(n / 10));
        assert(text.last() == digit_char(n % 10));
        assert forall|i: int| 0 <= i < text.len() implies is_digit(#[trigger] text[i]) by {
            if i < text.len() - 1 {
                assert(text[i] == decimal_text(n / 10)[i]);
            }
        }
    }
}

/// The one-character string for a digit.
pub fn digit_str(d: u64) -> (s: &'static str)
    requires
        d < 10,
    ensures
        s@ == seq![digit_char(d as nat)],
{
    proof {
        reveal_strlit("0");
        reveal_strlit("1");
        reveal_strlit("2");
        reveal_strlit("3");
        reveal_strlit("4");
        reveal_strlit("5");
        reveal_strlit("6");
        reveal_strlit("7");
        reveal_strlit("8");
        reveal_strlit("9");
    }
    let s: &'static str = if d == 0 {
        "0"
    } else if d == 1 {
        "1"
    } else if d == 2 {
        "2"
    } else if d == 3 {
        "3"
    } else if d == 4 {
        "4"
    } else if d == 5 {
        "5"
    } else if d == 6 {
        "6"
    } else if d == 7 {
        "7"
    } else if d == 8 {
        "8"
    } else {
        "9"
    };
    assert(s@ =~= seq![digit_char(d as nat)]);
    s
}

/// Appends the base-ten writing of `n` to `out`.
pub fn push_decimal(out: &mut String, n: u64)
    ensures
        final(out)@ == old(out)@ + decimal_text(n as nat),
    decreases n,
{
    if n >= 10 {
        push_decimal(out, n / 10);
    }
    out.append(digit_str(n % 10));
    proof {
        let rest = decimal_text((n / 10) as nat);
        let last = seq![digit_char((n % 10) as nat)];
        if n >= 10 {
            assert(old(out)@ + rest + last == old(out)@ + rest.push(digit_char((n % 10) as nat)));
        }
    }
}

/// Appends `-` to `out` when `n` is negative.
pub fn push_sign(out: &mut String, n: i64)
    ensures
        final(out)@ == old(out)@ + sign_text(n as int),
{
    if n < 0 {
        proof {
            reveal_strlit("-");
        }
        out.append("-");
        assert("-"@ =~= seq!['-']);
    } else {
        assert(out@ + Seq::<char>::empty() == out@);
    }
}

/// How far `n` is from zero.
pub fn magnitude_of(n: i64) -> (m: u64)
    ensures
        m as nat == magnitude(n as int),
{
    let wide: i128 = n as i128;
    if wide < 0 {
        (-wide) as u64
    } else {
        wide as u64
    }
}

/// Appends the base-ten writing of `n` to `out`.
pub fn push_int(out: &mut String, n: i64)
    ensures
        final(out)@ == old(out)@ + int_text(n as int),
{
    push_sign(out, n);
    push_decimal(out, magnitude_of(n));
    assert(old(out)@ + sign_text(n as int) + decimal_text(magnitude(n as int)) == old(out)@
        + int_text(n as int));
}

/// Appends the writing of `n` thousandths to `out`.
pub fn push_thousandths(out: &mut String, n: i64)
    ensures
        final(out)@ == old(out)@ + thousandths_text(n as int),
{
    let m: u64 = magnitude_of(n);
    let f: u64 = m % 1000;
    push_sign(out, n);
    push_decimal(out, m / 1000);
    let ghost whole = sign_text(n as int) + decimal_text((m / 1000) as nat);
    assert(out@ == old(out)@ + whole);
    if f != 0 {
        proof {
            reveal_strlit(".");
        }
        out.append(".");
        assert("."@ =~= seq!['.']);
        out.append(digit_str((f / 100) % 10));
        if f % 100 != 0 {
            out.append(digit_str((f / 10) % 10));
            if f % 10 != 0 {
                out.append(digit_str(f % 10));
            }
        }
        assert(out@ == old(out)@ + (whole + seq!['.'] + fraction_digits(f as nat)));
    }
}

/// Joining one part more: the part alone if it is the first, else the
/// separator and the part after what was joined before.
pub proof fn lemma_joined_next(parts: Seq<Seq<char>>, k: int, separator: Seq<char>)
    requires
        0 <= k < parts.len(),
    ensures
        joined(parts.take(k + 1), separator) == (if k == 0 {
            parts[0]
        } else {
            joined(parts.take(k), separator) + separator + parts[k]
        }),
        joined(parts.take(0), separator) == Seq::<char>::empty(),
{
    assert(parts.take(k + 1).drop_last() == parts.take(k));
    assert(parts.take(k + 1).last() == parts[k]);
    assert(parts.take(k + 1)[0] == parts[0]);
}

} // verus!
