use untron_swap::swap_form::{
    is_valid_evm_address, max_units_from_liquidity, order_outcome, receive_text_for_send,
    start_swap, SwapError, SwapStart,
};
use untron_swap::units::SWAP_RATE_UNITS;

#[test]
fn receive_text_follows_send_text() {
    assert_eq!(receive_text_for_send("1"), "0.9997");
    assert_eq!(receive_text_for_send("100"), "99.97");
    assert_eq!(receive_text_for_send(""), "");
    assert_eq!(receive_text_for_send("abc"), "");
    assert_eq!(receive_text_for_send("1.2.3"), "");
}

#[test]
fn liquidity_is_read_and_capped() {
    assert_eq!(max_units_from_liquidity("123"), Some(123));
    assert_eq!(max_units_from_liquidity("+5"), Some(5));
    assert_eq!(max_units_from_liquidity("0"), Some(0));
    assert_eq!(max_units_from_liquidity("18446744073709551616"), Some(u64::MAX));
    assert_eq!(
        max_units_from_liquidity("340282366920938463463374607431768211455"),
        Some(u64::MAX)
    );
}

#[test]
fn bad_liquidity_is_refused() {
    assert_eq!(max_units_from_liquidity(""), None);
    assert_eq!(max_units_from_liquidity("+"), None);
    assert_eq!(max_units_from_liquidity("-1"), None);
    assert_eq!(max_units_from_liquidity("1.5"), None);
    assert_eq!(max_units_from_liquidity("340282366920938463463374607431768211456"), None);
}

#[test]
fn swap_is_ignored_without_inputs() {
    let who = Some("0xabc".to_string());
    assert!(matches!(start_swap(true, &who, "1"), SwapStart::Ignored));
    assert!(matches!(start_swap(false, &None, "1"), SwapStart::Ignored));
    assert!(matches!(start_swap(false, &who, ""), SwapStart::Ignored));
}

#[test]
fn swap_with_bad_amount_fails() {
    let who = Some("0xabc".to_string());
    assert!(matches!(
        start_swap(false, &who, "1.2.3"),
        SwapStart::Failed(SwapError::InvalidAmount)
    ));
}

#[test]
fn swap_submits_order() {
    let who = Some("0xabc".to_string());
    match start_swap(false, &who, "2.5") {
        SwapStart::Submit(o) => {
            assert_eq!(o.from_amount, 2_500_000);
            assert_eq!(o.rate, SWAP_RATE_UNITS);
            assert_eq!(o.beneficiary, "0xabc");
        }
        other => panic!("unexpected {other:?}"),
    }
}

#[test]
fn order_outcomes() {
    assert_eq!(order_outcome(true, Some("42".to_string())), Ok("/order/42".to_string()));
    assert_eq!(order_outcome(true, None), Err(SwapError::InvalidResponse));
    assert_eq!(order_outcome(false, Some("42".to_string())), Err(SwapError::OrderCreationFailed));
    assert_eq!(order_outcome(false, None), Err(SwapError::OrderCreationFailed));
}

#[test]
fn error_messages() {
    assert_eq!(SwapError::InvalidAmount.message(), "Invalid amount");
    assert_eq!(SwapError::InvalidResponse.message(), "Invalid response");
    assert_eq!(SwapError::OrderCreationFailed.message(), "Order creation failed");
}

#[test]
fn evm_addresses() {
    let good = format!("0x{}", "aB3".repeat(13) + "f");
    assert_eq!(good.len(), 42);
    assert!(is_valid_evm_address(&good));
    assert!(!is_valid_evm_address(&good[..41]));
    assert!(!is_valid_evm_address(&good.replace("0x", "0X")));
    assert!(!is_valid_evm_address(&format!("0x{}", "g".repeat(40))));
    assert!(!is_valid_evm_address(""));
}
