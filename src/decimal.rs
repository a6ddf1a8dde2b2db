//! Decimal digit strings and their values.
use vstd::prelude::*;

verus! {

pub open spec fn is_digit(c: char) -> bool {
    '0' <= c && c <= '9'
}

pub open spec fn digit_value(c: char) -> nat {
    (c as u32 - '0' as u32) as nat
}

pub open spec fn digit_char(d: nat) -> char {
    ((d + '0' as u32) as u32) as char
}

pub open spec fn all_digits(s: Seq<char>) -> bool {
    forall|i: int| 0 <= i < s.len() ==> is_digit(#[trigger] s[i])
}

/// The value of a digit string, most significant digit first; the empty
/// string is worth zero.
pub open spec fn digits_value(s: Seq<char>) -> nat
    decreases s.len(),
{
    if s.len() == 0 {
        0
    } else {
        digits_value(s.drop_last()) * 10 + digit_value(s.last())
    }
}

pub open spec fn pow10(k: nat) -> nat
    decreases k,
{
    if k == 0 {
        1
    } else {
        10 * pow10((k - 1) as nat)
    }
}

/// The shortest decimal notation of `n`: no leading zero, "0" for zero.
pub open spec fn decimal_digits(n: nat) -> Seq<char>
    decreases n,
{
    if n < 10 {
        seq![digit_char(n)]
    } else {
        decimal_digits(n / 10).push(digit_char(n % 10))
    }
}

/// The last `k` decimal digits of `n`, padded with leading zeros.
pub open spec fn padded_digits(n: nat, k: nat) -> Seq<char>
    decreases k,
{
    if k == 0 {
        Seq::empty()
    } else {
        padded_digits(n / 10, (k - 1) as nat).push(digit_char(n % 10))
    }
}

/// `s` without its trailing zeros.
pub open spec fn trim_trailing_zeros(s: Seq<char>) -> Seq<char>
    decreases s.len(),
{
    if s.len() > 0 && s.last() == '0' {
        trim_trailing_zeros(s.drop_last())
    } else {
        s
    }
}

pub proof fn lemma_padded_len(n: nat, k: nat)
    ensures
        padded_digits(n, k).len() == k,
    decreases k,
{
    if k > 0 {
        lemma_padded_len(n / 10, (k - 1) as nat);
    }
}

/// A zero in the last place of the number is a trailing '0' of its digits.
pub proof fn lemma_trim_zero_step(n: nat, k: nat)
    requires
        k > 0,
        n % 10 == 0,
    ensures
        trim_trailing_zeros(padded_digits(n, k)) == trim_trailing_zeros(
            padded_digits(n / 10, (k - 1) as nat),
        ),
{
    let p = padded_digits(n, k);
    assert(digit_char(0) == '0');
    assert(p.drop_last() =~= padded_digits(n / 10, (k - 1) as nat));
}

/// Digits that end in a non-zero digit have no trailing zeros to trim.
pub proof fn lemma_trim_nonzero_end(n: nat, k: nat)
    requires
        k > 0,
        n % 10 != 0,
    ensures
        trim_trailing_zeros(padded_digits(n, k)) == padded_digits(n, k),
{
    let d = n % 10;
    assert(digit_char(d) != '0');
}

pub proof fn lemma_pow10_six()
    ensures
        pow10(6) == 1_000_000,
{
    reveal_with_fuel(pow10, 7);
}

pub proof fn lemma_pow10_monotone(a: nat, b: nat)
    requires
        a <= b,
    ensures
        1 <= pow10(a) <= pow10(b),
    decreases b,
{
    if b > 0 {
        if a < b {
            lemma_pow10_monotone(a, (b - 1) as nat);
        } else {
            lemma_pow10_monotone(0, (b - 1) as nat);
        }
    }
}

/// Appending a digit to a string multiplies its value by ten and adds the digit.
pub proof fn lemma_digits_value_push(s: Seq<char>, c: char)
    ensures
        digits_value(s.push(c)) == digits_value(s) * 10 + digit_value(c),
{
    assert(s.push(c).drop_last() =~= s);
}

/// A prefix of a digit string is worth no more than the whole.
pub proof fn lemma_digits_value_prefix(s: Seq<char>, i: int)
    requires
        0 <= i <= s.len(),
    ensures
        digits_value(s.take(i)) <= digits_value(s),
    decreases s.len() - i,
{
    if i < s.len() {
        lemma_digits_value_prefix(s, i + 1);
        assert(s.take(i + 1).drop_last() =~= s.take(i));
    } else {
        assert(s.take(i) =~= s);
    }
}

/// A string of `k` digits is worth less than 10^k.
pub proof fn lemma_digits_value_bound(s: Seq<char>)
    requires
        all_digits(s),
    ensures
        digits_value(s) < pow10(s.len()),
    decreases s.len(),
{
    if s.len() > 0 {
        let t = s.drop_last();
        assert(all_digits(t)) by {
            assert forall|i: int| 0 <= i < t.len() implies is_digit(#[trigger] t[i]) by {
                assert(t[i] == s[i]);
            }
        }
        lemma_digits_value_bound(t);
        assert(is_digit(s[s.len() - 1]));
    }
}

pub open spec fn zeros(k: nat) -> Seq<char> {
    Seq::new(k, |i: int| '0')
}

pub proof fn lemma_digit_round_trip(c: char)
    requires
        is_digit(c),
    ensures
        digit_value(c) < 10,
        digit_char(digit_value(c)) == c,
{
}

pub proof fn lemma_pow10_add(a: nat, b: nat)
    ensures
        pow10(a + b) == pow10(a) * pow10(b),
    decreases b,
{
    if b == 0 {
        assert(pow10(0) == 1);
        assert(a + b == a);
        assert(pow10(a) * 1 == pow10(a));
    } else {
        lemma_pow10_add(a, (b - 1) as nat);
        assert(pow10(a + b) == 10 * pow10((a + b - 1) as nat));
        assert(pow10(b) == 10 * pow10((b - 1) as nat));
        assert(pow10(a) * (10 * pow10((b - 1) as nat)) == 10 * (pow10(a) * pow10((b - 1) as nat)))
            by (nonlinear_arith);
    }
}

/// A digit string that does not start with '0' is worth at least one.
pub proof fn lemma_leading_digit_positive(w: Seq<char>)
    requires
        all_digits(w),
        w.len() > 0,
        w[0] != '0',
    ensures
        digits_value(w) >= 1,
    decreases w.len(),
{
    if w.len() > 1 {
        let v = w.drop_last();
        assert(v[0] == w[0]);
        assert(all_digits(v)) by {
            assert forall|i: int| 0 <= i < v.len() implies is_digit(#[trigger] v[i]) by {
                assert(v[i] == w[i]);
            }
        }
        lemma_leading_digit_positive(v);
    } else {
        assert(is_digit(w[0]));
        assert(w.drop_last().len() == 0);
    }
}

/// The shortest notation of a digit string's value is the string itself,
/// where it has no leading zero.
pub proof fn lemma_decimal_digits_of_value(w: Seq<char>)
    requires
        all_digits(w),
        w.len() > 0,
        w.len() == 1 || w[0] != '0',
    ensures
        decimal_digits(digits_value(w)) == w,
    decreases w.len(),
{
    let c = w.last();
    assert(is_digit(w[w.len() - 1]));
    lemma_digit_round_trip(c);
    if w.len() == 1 {
        assert(w.drop_last().len() == 0);
        assert(digits_value(w.drop_last()) == 0);
        assert(digits_value(w) == digit_value(c));
        assert(decimal_digits(digits_value(w)) == seq![c]);
        assert(decimal_digits(digits_value(w)) =~= w);
    } else {
        let v = w.drop_last();
        assert(v[0] == w[0]);
        assert(all_digits(v)) by {
            assert forall|i: int| 0 <= i < v.len() implies is_digit(#[trigger] v[i]) by {
                assert(v[i] == w[i]);
            }
        }
        lemma_leading_digit_positive(v);
        lemma_decimal_digits_of_value(v);
        let n = digits_value(w);
        let d = digit_value(c);
        assert(n == digits_value(v) * 10 + d);
        assert(n / 10 == digits_value(v) && n % 10 == d && n >= 10) by (nonlinear_arith)
            requires
                n == digits_value(v) * 10 + d,
                d < 10,
                digits_value(v) >= 1,
        ;
        assert(decimal_digits(n) =~= v.push(c));
        assert(v.push(c) =~= w);
    }
}

/// Writing a digit string's value with as many digits as the string has
/// gives the string back, leading zeros included.
pub proof fn lemma_padded_of_value(f: Seq<char>)
    requires
        all_digits(f),
    ensures
        padded_digits(digits_value(f), f.len()) == f,
    decreases f.len(),
{
    if f.len() == 0 {
        assert(padded_digits(0, 0) =~= f);
    } else {
        let v = f.drop_last();
        let c = f.last();
        assert(is_digit(f[f.len() - 1]));
        lemma_digit_round_trip(c);
        assert(all_digits(v)) by {
            assert forall|i: int| 0 <= i < v.len() implies is_digit(#[trigger] v[i]) by {
                assert(v[i] == f[i]);
            }
        }
        lemma_padded_of_value(v);
        let n = digits_value(f);
        let d = digit_value(c);
        assert(n / 10 == digits_value(v) && n % 10 == d) by (nonlinear_arith)
            requires
                n == digits_value(v) * 10 + d,
                d < 10,
        ;
        assert(padded_digits(n, f.len()) =~= v.push(c));
        assert(v.push(c) =~= f);
    }
}

/// Scaling by 10^z and writing z more digits appends z zeros.
pub proof fn lemma_padded_shift(n: nat, k: nat, z: nat)
    ensures
        padded_digits(n * pow10(z), k + z) == padded_digits(n, k) + zeros(z),
    decreases z,
{
    if z == 0 {
        assert(n * 1 == n);
        assert(padded_digits(n, k) + zeros(0) =~= padded_digits(n, k));
    } else {
        lemma_padded_shift(n, k, (z - 1) as nat);
        let m = n * pow10((z - 1) as nat);
        assert(n * pow10(z) == m * 10) by (nonlinear_arith)
            requires
                pow10(z) == 10 * pow10((z - 1) as nat),
                m == n * pow10((z - 1) as nat),
        ;
        assert((m * 10) / 10 == m && (m * 10) % 10 == 0) by (nonlinear_arith);
        assert(digit_char(0) == '0');
        assert(padded_digits(n * pow10(z), k + z) == padded_digits(m, (k + z - 1) as nat).push('0'));
        assert((padded_digits(n, k) + zeros((z - 1) as nat)).push('0') =~= padded_digits(n, k)
            + zeros(z));
    }
}

/// Trailing zeros appended to a string are trimmed again.
pub proof fn lemma_trim_appended_zeros(f: Seq<char>, z: nat)
    ensures
        trim_trailing_zeros(f + zeros(z)) == trim_trailing_zeros(f),
    decreases z,
{
    if z == 0 {
        assert(f + zeros(0) =~= f);
    } else {
        lemma_trim_appended_zeros(f, (z - 1) as nat);
        assert((f + zeros(z)).drop_last() =~= f + zeros((z - 1) as nat));
    }
}

pub fn is_digit_char(c: char) -> (r: bool)
    ensures
        r == is_digit(c),
{
    '0' <= c && c <= '9'
}

/// Appends the digit `d` to `s`.
pub fn push_digit(s: &mut String, d: u64)
    requires
        d < 10,
    ensures
        final(s)@ == old(s)@.push(digit_char(d as nat)),
{
    let lit: &str = match d {
        0 => "0",
        1 => "1",
        2 => "2",
        3 => "3",
        4 => "4",
        5 => "5",
        6 => "6",
        7 => "7",
        8 => "8",
        _ => "9",
    };
    proof {
        reveal_strlit("0");
        reveal_strlit("1");
        reveal_strlit("2");
        reveal_strlit("3");
        reveal_strlit("4");
        reveal_strlit("5");
        reveal_strlit("6");
        reveal_strlit("7");
        reveal_strlit("8");
        reveal_strlit("9");
    }
    s.append(lit);
    assert(final(s)@ =~= old(s)@.push(digit_char(d as nat)));
}

/// Appends the shortest decimal notation of `n` to `s`.
pub fn push_decimal(s: &mut String, n: u64)
    ensures
        final(s)@ == old(s)@ + decimal_digits(n as nat),
    decreases n,
{
    if n >= 10 {
        push_decimal(s, n / 10);
    }
    push_digit(s, n % 10);
    assert(final(s)@ =~= old(s)@ + decimal_digits(n as nat));
}

/// Appends the last `k` decimal digits of `n`, with leading zeros, to `s`.
pub fn push_padded(s: &mut String, n: u64, k: u64)
    ensures
        final(s)@ == old(s)@ + padded_digits(n as nat, k as nat),
    decreases k,
{
    if k > 0 {
        push_padded(s, n / 10, k - 1);
        push_digit(s, n % 10);
    }
    assert(final(s)@ =~= old(s)@ + padded_digits(n as nat, k as nat));
}

/// The value of the digit `c`.
pub fn digit_of(c: char) -> (r: u64)
    requires
        is_digit(c),
    ensures
        r == digit_value(c),
        r < 10,
{
    (c as u32 - '0' as u32) as u64
}

} // verus!
