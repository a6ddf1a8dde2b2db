//! The codec between display strings and integer units, and the two rate
//! conversions of the swap form.
use vstd::prelude::*;
use vstd::arithmetic::div_mod::lemma_fundamental_div_mod_converse;
use crate::decimal::{
    all_digits, decimal_digits, digit_of, digits_value, is_digit_char, padded_digits, pow10,
    push_decimal, push_padded, trim_trailing_zeros, zeros, lemma_decimal_digits_of_value,
    lemma_digits_value_bound, lemma_digits_value_prefix, lemma_digits_value_push,
    lemma_padded_len, lemma_padded_of_value, lemma_padded_shift, lemma_pow10_add,
    lemma_pow10_monotone, lemma_pow10_six, lemma_trim_appended_zeros, lemma_trim_nonzero_end,
    lemma_trim_zero_step,
};

verus! {

/// Number of decimal places of an amount in units.
pub const DEFAULT_DECIMALS: u32 = 6;

/// Units per whole token, 10^DEFAULT_DECIMALS; rates use the same scale.
pub const RATE_SCALE: u64 = 1_000_000;

/// The current swap rate, scaled by RATE_SCALE: 0.9997 receive per send.
pub const SWAP_RATE_UNITS: u64 = 999_700;

/// Where the first '.' of `s` stands; `s.len()` where there is none.
pub open spec fn dot_index(s: Seq<char>) -> int
    decreases s.len(),
{
    if s.len() == 0 || s[0] == '.' {
        0
    } else {
        1 + dot_index(s.skip(1))
    }
}

/// The digits before the decimal point.
pub open spec fn whole_part(s: Seq<char>) -> Seq<char> {
    s.take(dot_index(s))
}

/// The digits after the decimal point; empty where there is no point.
pub open spec fn frac_part(s: Seq<char>) -> Seq<char> {
    if dot_index(s) < s.len() {
        s.skip(dot_index(s) + 1)
    } else {
        Seq::empty()
    }
}

/// `s` is an amount: digits with at most one '.', and no more than
/// DEFAULT_DECIMALS digits after it. Both parts may be empty.
pub open spec fn is_amount_text(s: Seq<char>) -> bool {
    &&& all_digits(whole_part(s))
    &&& all_digits(frac_part(s))
    &&& frac_part(s).len() <= DEFAULT_DECIMALS
}

/// The amount `s` stands for, in units: the whole part scaled by RATE_SCALE,
/// plus the fractional digits read as millionths.
pub open spec fn amount_units(s: Seq<char>) -> nat {
    digits_value(whole_part(s)) * RATE_SCALE as nat + digits_value(frac_part(s)) * pow10(
        (DEFAULT_DECIMALS - frac_part(s).len()) as nat,
    )
}

/// The first '.' stands at `k` when none comes before it and `k` holds one
/// or is the end.
pub proof fn lemma_dot_index(s: Seq<char>, k: int)
    requires
        0 <= k <= s.len(),
        forall|j: int| 0 <= j < k ==> s[j] != '.',
        k == s.len() || s[k] == '.',
    ensures
        dot_index(s) == k,
    decreases k,
{
    if k > 0 {
        let t = s.skip(1);
        assert forall|j: int| 0 <= j < k - 1 implies t[j] != '.' by {
            assert(t[j] == s[j + 1]);
        }
        lemma_dot_index(t, k - 1);
    }
}

/// `s` is written the way amounts are displayed: a whole part without
/// leading zeros ("0" alone for zero) and, where there is a '.', one to
/// DEFAULT_DECIMALS digits after it, the last of them not '0'.
pub open spec fn is_canonical_amount(s: Seq<char>) -> bool {
    let w = whole_part(s);
    let f = frac_part(s);
    &&& is_amount_text(s)
    &&& w.len() > 0
    &&& (w.len() == 1 || w[0] != '0')
    &&& (dot_index(s) < s.len() ==> f.len() > 0 && f.last() != '0')
}

/// The first '.' lies within `s`, or is its end.
pub proof fn lemma_dot_index_bounds(s: Seq<char>)
    ensures
        0 <= dot_index(s) <= s.len(),
        dot_index(s) < s.len() ==> s[dot_index(s)] == '.',
    decreases s.len(),
{
    if s.len() > 0 && s[0] != '.' {
        lemma_dot_index_bounds(s.skip(1));
    }
}

/// The display string of `u` units: the whole part in shortest decimal
/// notation, then, if any fractional digit is not zero, a '.' and the
/// fractional digits without trailing zeros.
pub open spec fn display_of_units(u: nat) -> Seq<char> {
    let whole = decimal_digits(u / RATE_SCALE as nat);
    let frac = trim_trailing_zeros(padded_digits(u % RATE_SCALE as nat, DEFAULT_DECIMALS as nat));
    if frac.len() == 0 {
        whole
    } else {
        whole + seq!['.'] + frac
    }
}

/// Converts integer units into their display string.
pub fn units_to_string(units: u64) -> (r: String)
    ensures
        r@ == display_of_units(units as nat),
{
    let whole = units / RATE_SCALE;
    let mut frac = units % RATE_SCALE;
    let mut k: u64 = DEFAULT_DECIMALS as u64;
    let ghost target = trim_trailing_zeros(
        padded_digits(units as nat % RATE_SCALE as nat, DEFAULT_DECIMALS as nat),
    );
    while k > 0 && frac % 10 == 0
        invariant
            k <= DEFAULT_DECIMALS,
            target == trim_trailing_zeros(padded_digits(frac as nat, k as nat)),
        decreases k,
    {
        proof {
            lemma_trim_zero_step(frac as nat, k as nat);
        }
        frac = frac / 10;
        k = k - 1;
    }
    let mut s = String::new();
    push_decimal(&mut s, whole);
    if k > 0 {
        proof {
            lemma_trim_nonzero_end(frac as nat, k as nat);
            lemma_padded_len(frac as nat, k as nat);
            reveal_strlit(".");
        }
        s.append(".");
        push_padded(&mut s, frac, k);
        assert(s@ =~= display_of_units(units as nat));
    } else {
        assert(padded_digits(frac as nat, 0) =~= Seq::<char>::empty());
        assert(s@ =~= display_of_units(units as nat));
    }
    s
}

/// Converts a display string into integer units, without floating point.
/// Fails on a character that is neither a digit nor '.', on more than one
/// '.', on more than DEFAULT_DECIMALS fractional digits, and on an amount
/// above `u64::MAX` units. The empty string and "." are zero.
pub fn string_to_units(value: &str) -> (r: Option<u64>)
    ensures
        r is Some <==> is_amount_text(value@) && amount_units(value@) <= u64::MAX,
        r matches Some(v) ==> v == amount_units(value@),
{
    let n = value.unicode_len();
    let ghost s = value@;
    // Find the decimal point.
    let mut k: usize = 0;
    while k < n && value.get_char(k) != '.'
        invariant
            s == value@,
            n == s.len(),
            k <= n,
            forall|j: int| 0 <= j < k ==> s[j] != '.',
        decreases n - k,
    {
        k = k + 1;
    }
    proof {
        lemma_dot_index(s, k as int);
    }
    let ghost whole = whole_part(s);
    let ghost frac = frac_part(s);
    assert(whole =~= s.take(k as int));
    let frac_start: usize = if k < n { k + 1 } else { n };
    assert(frac =~= s.subrange(frac_start as int, n as int));
    if n - frac_start > DEFAULT_DECIMALS as usize {
        return None;
    }
    // Whole part.
    let mut acc: u64 = 0;
    let mut i: usize = 0;
    while i < k
        invariant
            s == value@,
            n == s.len(),
            k <= n,
            i <= k,
            whole == whole_part(s),
            frac == frac_part(s),
            whole == s.take(k as int),
            all_digits(s.take(i as int)),
            acc == digits_value(s.take(i as int)),
        decreases k - i,
    {
        let c = value.get_char(i);
        if !is_digit_char(c) {
            assert(whole[i as int] == c);
            return None;
        }
        let d = digit_of(c);
        proof {
            lemma_digits_value_push(s.take(i as int), c);
            assert(s.take(i as int).push(c) =~= s.take(i + 1));
            assert(s.take(i + 1) =~= whole.take(i + 1));
        }
        if acc > (u64::MAX - d) / 10 {
            proof {
                lemma_digits_value_prefix(whole, i + 1);
                let w = digits_value(whole);
                assert(w * RATE_SCALE as nat >= w) by (nonlinear_arith);
            }
            return None;
        }
        acc = acc * 10 + d;
        i = i + 1;
    }
    assert(s.take(k as int) =~= whole);
    // Fractional part, padded with zeros to DEFAULT_DECIMALS digits.
    let mut facc: u64 = 0;
    let mut j: usize = frac_start;
    while j < n
        invariant
            s == value@,
            n == s.len(),
            frac_start <= j <= n,
            n - frac_start <= DEFAULT_DECIMALS,
            whole == whole_part(s),
            frac == frac_part(s),
            acc == digits_value(whole),
            frac == s.subrange(frac_start as int, n as int),
            all_digits(s.subrange(frac_start as int, j as int)),
            facc == digits_value(s.subrange(frac_start as int, j as int)),
            facc < pow10((j - frac_start) as nat),
        decreases n - j,
    {
        let c = value.get_char(j);
        if !is_digit_char(c) {
            assert(frac[j - frac_start] == c);
            return None;
        }
        let d = digit_of(c);
        proof {
            lemma_digits_value_push(s.subrange(frac_start as int, j as int), c);
            assert(s.subrange(frac_start as int, j as int).push(c) =~= s.subrange(
                frac_start as int,
                j + 1,
            ));
            lemma_digits_value_bound(s.subrange(frac_start as int, j + 1));
            lemma_pow10_six();
            lemma_pow10_monotone((j - frac_start) as nat, 5);
            assert(pow10(6) == 10 * pow10(5));
        }
        facc = facc * 10 + d;
        j = j + 1;
    }
    assert(s.subrange(frac_start as int, n as int) =~= frac);
    let m: usize = n - frac_start;
    assert(pow10(0) == 1);
    assert(digits_value(frac) * 1 == digits_value(frac));
    let mut p: usize = m;
    let mut scaled_frac: u64 = facc;
    while p < DEFAULT_DECIMALS as usize
        invariant
            m <= p <= DEFAULT_DECIMALS,
            scaled_frac == digits_value(frac) * pow10((p - m) as nat),
            scaled_frac < pow10(p as nat),
        decreases DEFAULT_DECIMALS - p,
    {
        proof {
            lemma_pow10_six();
            assert(pow10((p + 1 - m) as nat) == 10 * pow10((p - m) as nat));
            assert(pow10((p + 1) as nat) == 10 * pow10(p as nat));
            lemma_pow10_monotone((p + 1) as nat, 6);
            assert(digits_value(frac) * (10 * pow10((p - m) as nat)) == 10 * (digits_value(frac)
                * pow10((p - m) as nat))) by (nonlinear_arith);
        }
        scaled_frac = scaled_frac * 10;
        p = p + 1;
    }
    let total: u128 = acc as u128 * RATE_SCALE as u128 + scaled_frac as u128;
    if total > u64::MAX as u128 {
        return None;
    }
    Some(total as u64)
}

/// `x` capped at the largest `u64`.
pub open spec fn saturate(x: int) -> int {
    if x > u64::MAX {
        u64::MAX as int
    } else {
        x
    }
}

/// Receive units for `send` units at `rate`: `send * rate / RATE_SCALE`,
/// rounded to the nearest unit, halves up.
pub open spec fn receive_for_send(send: int, rate: int) -> int {
    (send * rate + RATE_SCALE / 2) / RATE_SCALE as int
}

/// Send units needed for `receive` units at `rate`:
/// `receive * RATE_SCALE / rate`, rounded to the nearest unit, halves up.
pub open spec fn send_for_receive(receive: int, rate: int) -> int {
    (receive * RATE_SCALE + rate / 2) / rate
}

/// Calculates the receive units obtained for `send_units` at a rate scaled by
/// RATE_SCALE. A zero rate is refused; a result above `u64::MAX` saturates.
pub fn convert_send_to_receive(send_units: u64, swap_rate_units: u64) -> (r: Option<u64>)
    ensures
        r is Some <==> swap_rate_units > 0,
        r matches Some(v) ==> v == saturate(
            receive_for_send(send_units as int, swap_rate_units as int),
        ),
{
    if swap_rate_units == 0 {
        return None;
    }
    let s = send_units as u128;
    let q = swap_rate_units as u128;
    assert(s * q <= u64::MAX as int * u64::MAX as int) by (nonlinear_arith)
        requires
            s <= u64::MAX,
            q <= u64::MAX,
    ;
    let wide = (s * q + (RATE_SCALE / 2) as u128) / RATE_SCALE as u128;
    if wide > u64::MAX as u128 {
        Some(u64::MAX)
    } else {
        Some(wide as u64)
    }
}

/// Calculates the send units required to receive `receive_units` at a rate
/// scaled by RATE_SCALE. A zero rate is refused; a result above `u64::MAX`
/// saturates.
pub fn convert_receive_to_send(receive_units: u64, swap_rate_units: u64) -> (r: Option<u64>)
    ensures
        r is Some <==> swap_rate_units > 0,
        r matches Some(v) ==> v == saturate(
            send_for_receive(receive_units as int, swap_rate_units as int),
        ),
{
    if swap_rate_units == 0 {
        return None;
    }
    let r = receive_units as u128;
    let q = swap_rate_units as u128;
    assert(r * RATE_SCALE <= u64::MAX as int * RATE_SCALE) by (nonlinear_arith)
        requires
            r <= u64::MAX,
    ;
    let wide = (r * RATE_SCALE as u128 + q / 2) / q;
    if wide > u64::MAX as u128 {
        Some(u64::MAX)
    } else {
        Some(wide as u64)
    }
}

/// Converting to receive units and back lands within one unit of where it
/// started, for every rate above a third of RATE_SCALE whose receive amount
/// does not saturate. Below that rate a rounding step can be worth more than
/// a unit on the way back (at rate 333_333, 500_000 send units come back as
/// 500_002).
pub proof fn lemma_round_trip_within_one_unit(send_units: u64, swap_rate_units: u64)
    requires
        3 * swap_rate_units > RATE_SCALE,
        receive_for_send(send_units as int, swap_rate_units as int) <= u64::MAX,
    ensures
        ({
            let receive = saturate(receive_for_send(send_units as int, swap_rate_units as int));
            let back = saturate(send_for_receive(receive, swap_rate_units as int));
            send_units - 1 <= back <= send_units + 1
        }),
{
    let s = send_units as int;
    let q = swap_rate_units as int;
    let big_s = RATE_SCALE as int;
    let h = big_s / 2;
    let g = q / 2;
    let r = receive_for_send(s, q);
    assert(r >= 0) by (nonlinear_arith)
        requires
            r == (s * q + h) / big_s,
            s >= 0,
            q >= 0,
            big_s == 1_000_000,
            h == 500_000,
    ;
    assert(r * big_s <= s * q + h < r * big_s + big_s) by (nonlinear_arith)
        requires
            r == (s * q + h) / big_s,
            big_s == 1_000_000,
    ;
    let t0 = send_for_receive(r, q);
    assert(t0 * q <= r * big_s + g < t0 * q + q) by (nonlinear_arith)
        requires
            t0 == (r * big_s + g) / q,
            q > 0,
    ;
    assert(t0 <= s + 1) by (nonlinear_arith)
        requires
            t0 * q <= r * big_s + g,
            r * big_s <= s * q + h,
            2 * g <= q,
            3 * q > big_s,
            big_s == 1_000_000,
            h == 500_000,
            q > 0,
    ;
    assert(t0 >= s - 1) by (nonlinear_arith)
        requires
            r * big_s + g < t0 * q + q,
            s * q + h < r * big_s + big_s,
            2 * g + 1 >= q,
            3 * q > big_s,
            big_s == 1_000_000,
            h == 500_000,
            q > 0,
    ;
}

/// Formatting the units that a canonical amount string stands for gives
/// that string back.
pub proof fn lemma_canonical_round_trip(s: Seq<char>)
    requires
        is_canonical_amount(s),
    ensures
        display_of_units(amount_units(s)) == s,
{
    lemma_dot_index_bounds(s);
    let k = dot_index(s);
    let w = whole_part(s);
    let f = frac_part(s);
    let m = f.len();
    let z = (DEFAULT_DECIMALS - m) as nat;
    let big_w = digits_value(w);
    let big_f = digits_value(f);
    let pz = pow10(z);
    lemma_digits_value_bound(f);
    lemma_pow10_add(m, z);
    lemma_pow10_six();
    lemma_pow10_monotone(0, z);
    assert(m + z == 6);
    assert(big_f * pz < RATE_SCALE) by (nonlinear_arith)
        requires
            big_f < pow10(m),
            pow10(m) * pz == RATE_SCALE,
            pz >= 1,
    ;
    let u = amount_units(s);
    assert(u == big_w * RATE_SCALE + big_f * pz);
    lemma_fundamental_div_mod_converse(u as int, RATE_SCALE as int, big_w as int, (big_f * pz) as int);
    lemma_decimal_digits_of_value(w);
    lemma_padded_shift(big_f, m, z);
    lemma_padded_of_value(f);
    lemma_trim_appended_zeros(f, z);
    assert(padded_digits(u % RATE_SCALE as nat, DEFAULT_DECIMALS as nat) == f + zeros(z));
    if k < s.len() {
        assert(trim_trailing_zeros(f) == f);
        assert(s =~= w + seq!['.'] + f);
    } else {
        assert(f =~= Seq::<char>::empty());
        assert(trim_trailing_zeros(f) == f);
        assert(w =~= s);
    }
}

} // verus!
