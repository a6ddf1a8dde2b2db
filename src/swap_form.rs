//! The decisions of the swap form around its two amount fields: the receive
//! amount shown for a send amount, the liquidity limit read from the backend,
//! and the steps of placing an order.
use vstd::prelude::*;
use crate::decimal::{
    all_digits, digit_of, digits_value, is_digit, is_digit_char, lemma_digits_value_prefix,
    lemma_digits_value_push,
};
use crate::units::{
    amount_units, display_of_units, is_amount_text, receive_for_send, saturate, string_to_units,
    units_to_string, convert_send_to_receive, SWAP_RATE_UNITS,
};

verus! {

/// The receive text shown for the send text `send`: empty where `send` is
/// empty or no amount, else the receive amount at SWAP_RATE_UNITS.
pub open spec fn receive_text(send: Seq<char>) -> Seq<char> {
    if send.len() > 0 && is_amount_text(send) && amount_units(send) <= u64::MAX {
        display_of_units(
            saturate(receive_for_send(amount_units(send) as int, SWAP_RATE_UNITS as int)) as nat,
        )
    } else {
        Seq::empty()
    }
}

/// Computes the text of the receive field from the text of the send field.
pub fn receive_text_for_send(send_text: &str) -> (r: String)
    ensures
        r@ == receive_text(send_text@),
{
    if send_text.unicode_len() == 0 {
        return String::new();
    }
    match string_to_units(send_text) {
        Some(units) => match convert_send_to_receive(units, SWAP_RATE_UNITS) {
            Some(receive) => units_to_string(receive),
            None => String::new(),
        },
        None => String::new(),
    }
}

/// The digits of an unsigned integer text, after an optional '+'.
pub open spec fn unsigned_digits(s: Seq<char>) -> Seq<char> {
    if s.len() > 0 && s[0] == '+' {
        s.skip(1)
    } else {
        s
    }
}

/// `s` is an unsigned integer in decimal that fits in a `u128`: an optional
/// '+' and at least one digit.
pub open spec fn is_u128_text(s: Seq<char>) -> bool {
    &&& unsigned_digits(s).len() > 0
    &&& all_digits(unsigned_digits(s))
    &&& digits_value(unsigned_digits(s)) <= u128::MAX
}

/// Reads the available liquidity the backend reports, in units, capped at
/// `u64::MAX`; `None` where the text is no unsigned integer that fits in a
/// `u128`.
pub fn max_units_from_liquidity(text: &str) -> (r: Option<u64>)
    ensures
        r is Some <==> is_u128_text(text@),
        r matches Some(v) ==> v == saturate(digits_value(unsigned_digits(text@)) as int),
{
    let n = text.unicode_len();
    let ghost s = text@;
    let start: usize = if n > 0 && text.get_char(0) == '+' { 1 } else { 0 };
    let ghost digits = unsigned_digits(s);
    assert(digits =~= s.subrange(start as int, n as int));
    if start == n {
        return None;
    }
    let mut acc: u128 = 0;
    let mut i: usize = start;
    while i < n
        invariant
            s == text@,
            n == s.len(),
            start <= i <= n,
            digits == unsigned_digits(s),
            digits == s.subrange(start as int, n as int),
            all_digits(s.subrange(start as int, i as int)),
            acc == digits_value(s.subrange(start as int, i as int)),
        decreases n - i,
    {
        let c = text.get_char(i);
        if !is_digit_char(c) {
            assert(digits[i - start] == c);
            return None;
        }
        let d = digit_of(c);
        proof {
            lemma_digits_value_push(s.subrange(start as int, i as int), c);
            assert(s.subrange(start as int, i as int).push(c) =~= s.subrange(start as int, i + 1));
            assert(s.subrange(start as int, i + 1) =~= digits.take(i + 1 - start));
        }
        if acc > (u128::MAX - d as u128) / 10 {
            proof {
                lemma_digits_value_prefix(digits, i + 1 - start);
            }
            return None;
        }
        acc = acc * 10 + d as u128;
        i = i + 1;
    }
    assert(s.subrange(start as int, n as int) =~= digits);
    if acc > u64::MAX as u128 {
        Some(u64::MAX)
    } else {
        Some(acc as u64)
    }
}

/// Why placing an order failed.
#[derive(Clone, Copy, Debug, PartialEq, Eq, Structural)]
pub enum SwapError {
    /// The send amount is no amount.
    InvalidAmount,
    /// The backend accepted the order but its answer could not be read.
    InvalidResponse,
    /// The backend could not be reached or refused the order.
    OrderCreationFailed,
}

pub open spec fn swap_error_text(e: SwapError) -> Seq<char> {
    match e {
        SwapError::InvalidAmount => "Invalid amount"@,
        SwapError::InvalidResponse => "Invalid response"@,
        SwapError::OrderCreationFailed => "Order creation failed"@,
    }
}

impl SwapError {
    /// The message shown to the user.
    pub fn message(&self) -> (r: String)
        ensures
            r@ == swap_error_text(*self),
    {
        match self {
            SwapError::InvalidAmount => String::from_str("Invalid amount"),
            SwapError::InvalidResponse => String::from_str("Invalid response"),
            SwapError::OrderCreationFailed => String::from_str("Order creation failed"),
        }
    }
}

/// The order sent to the backend.
#[derive(Debug)]
pub struct OrderRequest {
    /// The send amount, in units.
    pub from_amount: u64,
    /// The swap rate, scaled by RATE_SCALE.
    pub rate: u64,
    /// The address that receives the swapped tokens.
    pub beneficiary: String,
}

/// What pressing the swap button does.
#[derive(Debug)]
pub enum SwapStart {
    /// Nothing: a swap is under way, or no address or no amount was given.
    Ignored,
    /// The swap fails at once.
    Failed(SwapError),
    /// The order is sent.
    Submit(OrderRequest),
}

/// Decides what pressing the swap button does, from whether a swap is under
/// way, the beneficiary chosen, if any, and the send field's text.
pub fn start_swap(is_swapping: bool, beneficiary: &Option<String>, amount_text: &str) -> (r:
    SwapStart)
    ensures
        is_swapping || beneficiary is None || amount_text@.len() == 0 <==> r is Ignored,
        r is Failed ==> r->Failed_0 == SwapError::InvalidAmount,
        !(is_swapping || beneficiary is None || amount_text@.len() == 0) ==> (r is Failed <==> !(
        is_amount_text(amount_text@) && amount_units(amount_text@) <= u64::MAX)),
        r matches SwapStart::Submit(o) ==> o.from_amount == amount_units(amount_text@) && o.rate
            == SWAP_RATE_UNITS && beneficiary == Some(o.beneficiary),
{
    if is_swapping || amount_text.unicode_len() == 0 {
        return SwapStart::Ignored;
    }
    match beneficiary {
        None => SwapStart::Ignored,
        Some(address) => match string_to_units(amount_text) {
            None => SwapStart::Failed(SwapError::InvalidAmount),
            Some(units) => SwapStart::Submit(
                OrderRequest { from_amount: units, rate: SWAP_RATE_UNITS, beneficiary: address.clone() },
            ),
        },
    }
}

/// Decides where a placed order leads: to the order's page when the backend
/// accepted it and named it, else to an error. `accepted` says whether the
/// backend answered with success, `order_id` the identifier read from its
/// answer, if any.
pub fn order_outcome(accepted: bool, order_id: Option<String>) -> (r: Result<String, SwapError>)
    ensures
        !accepted ==> r == Err::<String, SwapError>(SwapError::OrderCreationFailed),
        accepted && order_id is None ==> r == Err::<String, SwapError>(SwapError::InvalidResponse),
        accepted && order_id is Some ==> r is Ok && r->Ok_0@ == "/order/"@ + order_id->0@,
{
    if !accepted {
        return Err(SwapError::OrderCreationFailed);
    }
    match order_id {
        None => Err(SwapError::InvalidResponse),
        Some(id) => {
            let mut path = String::from_str("/order/");
            path.append(id.as_str());
            Ok(path)
        },
    }
}

pub open spec fn is_hex_digit(c: char) -> bool {
    is_digit(c) || ('a' <= c && c <= 'f') || ('A' <= c && c <= 'F')
}

/// `s` is an EVM address: "0x" and forty hexadecimal digits.
pub open spec fn is_evm_address(s: Seq<char>) -> bool {
    &&& s.len() == 42
    &&& s[0] == '0'
    &&& s[1] == 'x'
    &&& forall|i: int| 2 <= i < 42 ==> is_hex_digit(#[trigger] s[i])
}

/// Checks that `addr` is "0x" followed by forty hexadecimal digits.
pub fn is_valid_evm_address(addr: &str) -> (r: bool)
    ensures
        r == is_evm_address(addr@),
{
    let n = addr.unicode_len();
    if n != 42 || addr.get_char(0) != '0' || addr.get_char(1) != 'x' {
        return false;
    }
    let mut i: usize = 2;
    while i < n
        invariant
            n == addr@.len(),
            n == 42,
            2 <= i <= n,
            forall|j: int| 2 <= j < i ==> is_hex_digit(#[trigger] addr@[j]),
        decreases n - i,
    {
        let c = addr.get_char(i);
        if !(is_digit_char(c) || ('a' <= c && c <= 'f') || ('A' <= c && c <= 'F')) {
            return false;
        }
        i = i + 1;
    }
    true
}

} // verus!
