//! Decimal rendering and parsing of 32-bit integers, with a proof that
//! parsing inverts rendering.

use vstd::prelude::*;

verus! {

/// The decimal digit character for `d` in `0..10`.
pub open spec fn digit_char(d: int) -> char {
    ((48 + d) as u8) as char
}

/// Decimal digits of `n`, most significant first, no sign.
pub open spec fn dec_nat(n: nat) -> Seq<char>
    decreases n,
{
    if n < 10 {
        seq![digit_char(n as int)]
    } else {
        dec_nat(n / 10).push(digit_char((n % 10) as int))
    }
}

/// Decimal rendering of a signed integer: a `-` sign when negative,
/// then the digits of the magnitude.
pub open spec fn dec_int(v: int) -> Seq<char> {
    if v < 0 {
        seq!['-'] + dec_nat((-v) as nat)
    } else {
        dec_nat(v as nat)
    }
}

/// Is `c` one of the characters `0` through `9`?
pub open spec fn is_digit(c: char) -> bool {
    48 <= c as int && c as int <= 57
}

/// The numeric value of a digit character.
pub open spec fn digit_val(c: char) -> int {
    c as int - 48
}

/// Every character of `s` is a decimal digit.
pub open spec fn all_digits(s: Seq<char>) -> bool {
    forall|i: int| 0 <= i < s.len() ==> is_digit(#[trigger] s[i])
}

/// The integer denoted by a sequence of digit characters, most
/// significant first. Empty sequences denote zero.
pub open spec fn digits_value(s: Seq<char>) -> int
    decreases s.len(),
{
    if s.len() == 0 {
        0
    } else {
        digits_value(s.drop_last()) * 10 + digit_val(s.last())
    }
}

/// What a decimal numeral (an optional `+` or `-` sign followed by at
/// least one digit) denotes; `None` when `s` is not such a numeral.
pub open spec fn parse_dec(s: Seq<char>) -> Option<int> {
    let body = if s.len() > 0 && (s[0] == '-' || s[0] == '+') {
        s.skip(1)
    } else {
        s
    };
    if body.len() == 0 || !all_digits(body) {
        None
    } else if s.len() > 0 && s[0] == '-' {
        Some(-digits_value(body))
    } else {
        Some(digits_value(body))
    }
}

/// What `s` denotes as a 32-bit integer: the numeral's value when it
/// lies within the `i32` range, `None` otherwise.
pub open spec fn parse_i32(s: Seq<char>) -> Option<int> {
    match parse_dec(s) {
        Some(v) => if i32::MIN <= v <= i32::MAX {
            Some(v)
        } else {
            None
        },
        None => None,
    }
}

/// Relies on `String::push`: appends exactly the one given character.
#[verifier::external_body]
pub fn push_char(s: &mut String, c: char)
    ensures
        final(s)@ == old(s)@ + seq![c],
{
    s.push(c);
}

/// The digit character for `d`, executably.
pub fn digit_of(d: u32) -> (c: char)
    requires
        d < 10,
    ensures
        c == digit_char(d as int),
{
    ((48 + d) as u8) as char
}

/// Appends the decimal digits of `n` to `out`.
pub fn append_dec_u32(n: u32, out: &mut String)
    ensures
        final(out)@ == old(out)@ + dec_nat(n as nat),
    decreases n,
{
    if n < 10 {
        push_char(out, digit_of(n));
        assert(old(out)@ + seq![digit_char(n as int)] == old(out)@ + dec_nat(n as nat));
    } else {
        append_dec_u32(n / 10, out);
        push_char(out, digit_of(n % 10));
        assert(old(out)@ + dec_nat((n / 10) as nat) + seq![digit_char((n % 10) as int)]
            == old(out)@ + dec_nat(n as nat));
    }
}

/// The decimal rendering of `v` as a fresh string.
pub fn dec_string_i32(v: i32) -> (r: String)
    ensures
        r@ == dec_int(v as int),
{
    let mut out = String::new();
    if v < 0 {
        push_char(&mut out, '-');
        let mag: u32 = (-(v as i64)) as u32;
        assert(mag as nat == (-(v as int)) as nat);
        append_dec_u32(mag, &mut out);
        assert(out@ == seq!['-'] + dec_nat((-(v as int)) as nat));
    } else {
        append_dec_u32(v as u32, &mut out);
        assert(out@ == dec_nat((v as int) as nat));
    }
    out
}

/// Is `c` a decimal digit, executably.
pub fn is_digit_char(c: char) -> (b: bool)
    ensures
        b == is_digit(c),
{
    c >= '0' && c <= '9'
}

/// The numeric value of a digit character, executably.
pub fn digit_value_of(c: char) -> (d: u32)
    requires
        is_digit(c),
    ensures
        d == digit_val(c),
        d < 10,
{
    if c == '0' {
        0
    } else if c == '1' {
        1
    } else if c == '2' {
        2
    } else if c == '3' {
        3
    } else if c == '4' {
        4
    } else if c == '5' {
        5
    } else if c == '6' {
        6
    } else if c == '7' {
        7
    } else if c == '8' {
        8
    } else {
        assert(c == '9');
        9
    }
}

/// A sequence of digits denotes a number that is not negative.
pub proof fn lemma_digits_nonneg(s: Seq<char>)
    requires
        all_digits(s),
    ensures
        digits_value(s) >= 0,
    decreases s.len(),
{
    if s.len() > 0 {
        lemma_digits_nonneg(s.drop_last());
    }
}

/// Reading a prefix of a digit sequence never yields more than the whole.
pub proof fn lemma_digits_prefix_le(s: Seq<char>, i: int)
    requires
        all_digits(s),
        0 <= i <= s.len(),
    ensures
        digits_value(s.take(i)) <= digits_value(s),
    decreases s.len(),
{
    if i == s.len() {
        assert(s.take(i) =~= s);
    } else {
        let dl = s.drop_last();
        lemma_digits_nonneg(dl);
        assert(s.take(i) =~= dl.take(i));
        lemma_digits_prefix_le(dl, i);
    }
}

/// Parses `w` as a 32-bit integer, mirroring `parse_i32`.
pub fn parse_i32_chars(w: &Vec<char>) -> (r: Option<i32>)
    ensures
        match r {
            Some(x) => parse_i32(w@) == Some(x as int),
            None => parse_i32(w@) is None,
        },
{
    let n: usize = w.len();
    if n == 0 {
        return None;
    }
    let c0: char = w[0];
    let neg: bool = c0 == '-';
    let start: usize = if c0 == '-' || c0 == '+' {
        1
    } else {
        0
    };
    if n == start {
        return None;
    }
    let ghost body = w@.skip(start as int);
    proof {
        if start == 0 {
            assert(body =~= w@);
        }
    }
    let mut acc: u64 = 0;
    let mut i: usize = start;
    while i < n
        invariant
            start <= i <= n,
            start == 0 || start == 1,
            n == w@.len(),
            start == 1 ==> (w@[0] == '-' || w@[0] == '+'),
            start == 0 ==> !(w@[0] == '-' || w@[0] == '+'),
            body == w@.skip(start as int),
            n > start,
            all_digits(body.take(i - start)),
            acc == digits_value(body.take(i - start)),
            acc <= 0x8000_0000,
        decreases n - i,
    {
        let c: char = w[i];
        proof {
            assert(body[i - start] == w@[i as int]);
        }
        if !is_digit_char(c) {
            proof {
                if start == 0 {
                    assert(body =~= w@);
                }
                assert(!is_digit(body[i - start]));
                assert(!all_digits(body));
            }
            return None;
        }
        let d: u64 = digit_value_of(c) as u64;
        acc = acc * 10 + d;
        proof {
            let k = i - start;
            assert(is_digit(body[k]));
            assert(digit_val(body[k]) == d as int);
            assert(body.take(k + 1).drop_last() =~= body.take(k));
            assert(body.take(k + 1).last() == body[k]);
            assert(digits_value(body.take(k + 1)) == digits_value(body.take(k)) * 10 + d);
        }
        i = i + 1;
        if acc > 0x8000_0000 {
            proof {
                if start == 0 {
                    assert(body =~= w@);
                }
                if all_digits(body) {
                    lemma_digits_prefix_le(body, i - start);
                    lemma_digits_nonneg(body);
                    assert(digits_value(body) > 0x8000_0000);
                }
            }
            return None;
        }
    }
    assert(body.take(n - start) =~= body);
    if neg {
        let r: i32 = (-(acc as i64)) as i32;
        assert(parse_dec(w@) == Some(-digits_value(body)));
        Some(r)
    } else {
        if acc > 0x7fff_ffff {
            return None;
        }
        assert(parse_dec(w@) == Some(digits_value(body)));
        Some(acc as i32)
    }
}

/// Rendering a natural number yields one or more digit characters that
/// denote the number itself.
pub proof fn lemma_dec_nat_props(n: nat)
    ensures
        dec_nat(n).len() >= 1,
        all_digits(dec_nat(n)),
        digits_value(dec_nat(n)) == n,
    decreases n,
{
    if n < 10 {
        let s = dec_nat(n);
        assert(s =~= seq![digit_char(n as int)]);
        assert(digit_char(n as int) as int == 48 + n);
        assert(is_digit(digit_char(n as int)));
        assert(s.len() == 1);
        assert(s.drop_last() =~= Seq::<char>::empty());
        assert(digits_value(s.drop_last()) == 0);
        assert(digits_value(s) == digits_value(s.drop_last()) * 10 + digit_val(s.last()));
    } else {
        lemma_dec_nat_props(n / 10);
        assert(dec_nat(n) == dec_nat(n / 10).push(digit_char((n % 10) as int)));
        assert(dec_nat(n).drop_last() =~= dec_nat(n / 10));
        assert(is_digit(digit_char((n % 10) as int)));
        assert(digits_value(dec_nat(n)) == (n / 10) * 10 + (n % 10));
    }
}

/// Parsing inverts rendering: the decimal text of a 32-bit integer
/// denotes that integer again.
pub proof fn lemma_dec_roundtrip(v: i32)
    ensures
        parse_i32(dec_int(v as int)) == Some(v as int),
{
    if v >= 0 {
        lemma_dec_nat_props(v as nat);
        let s = dec_int(v as int);
        assert(is_digit(s[0]));
        assert(s[0] != '-' && s[0] != '+');
    } else {
        lemma_dec_nat_props((-(v as int)) as nat);
        let s = dec_int(v as int);
        assert(s[0] == '-');
        assert(s.skip(1) =~= dec_nat((-(v as int)) as nat));
    }
}

} // verus!
