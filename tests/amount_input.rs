use untron_swap::amount_input::{
    count_dots, handle_amount_input, max_output_notice, sanitize_amount, AmountField,
};
use untron_swap::units::{convert_receive_to_send, units_to_string, SWAP_RATE_UNITS};

fn receive_field(max_units: Option<u64>, rate: Option<u64>) -> AmountField {
    AmountField { is_receive: true, read_only: false, max_units, swap_rate_units: rate }
}

fn send_field(max_units: Option<u64>, rate: Option<u64>) -> AmountField {
    AmountField { is_receive: false, read_only: false, max_units, swap_rate_units: rate }
}

#[test]
fn sanitize_keeps_digits_and_points() {
    assert_eq!(sanitize_amount("1a.b2"), "1.2");
    assert_eq!(sanitize_amount("$ 1,000.50"), "1000.50");
    assert_eq!(sanitize_amount("abc"), "");
    assert_eq!(sanitize_amount("١٢"), "");
}

#[test]
fn dots_are_counted() {
    assert_eq!(count_dots(""), 0);
    assert_eq!(count_dots("1.2"), 1);
    assert_eq!(count_dots("1.2.3."), 3);
}

#[test]
fn receive_input_over_maximum_is_clamped() {
    let u = handle_amount_input(&receive_field(Some(100), None), "0.00015").unwrap();
    assert_eq!(u.shown, units_to_string(100));
    assert_eq!(u.shown, "0.0001");
    assert_eq!(u.notify, "0.0001");
    assert!(u.exceeded);
    assert!(!u.sets_value);
}

#[test]
fn receive_input_over_maximum_with_rate_passes_on_send_cost() {
    let u = handle_amount_input(&receive_field(Some(100), Some(SWAP_RATE_UNITS)), "0.00015")
        .unwrap();
    assert_eq!(u.shown, "0.0001");
    let cost = convert_receive_to_send(100, SWAP_RATE_UNITS).unwrap();
    assert_eq!(u.notify, units_to_string(cost));
    assert!(u.exceeded);
}

#[test]
fn receive_input_with_rate_passes_on_send_amount() {
    let u = handle_amount_input(&receive_field(Some(100_000_000), Some(SWAP_RATE_UNITS)), "0.9997")
        .unwrap();
    assert_eq!(u.shown, "0.9997");
    assert_eq!(u.notify, "1");
    assert!(!u.exceeded);
    assert!(!u.sets_value);
}

#[test]
fn send_input_over_maximum_is_clamped_to_its_cost() {
    let u = handle_amount_input(&send_field(Some(100), Some(SWAP_RATE_UNITS)), "0.0002").unwrap();
    assert_eq!(u.shown, "0.0001");
    assert_eq!(u.notify, "0.0001");
    assert!(u.exceeded);
}

#[test]
fn send_input_within_maximum_passes_through() {
    let u = handle_amount_input(&send_field(Some(100_000_000), Some(SWAP_RATE_UNITS)), "12x.5")
        .unwrap();
    assert_eq!(u.shown, "12.5");
    assert_eq!(u.notify, "12.5");
    assert!(u.sets_value);
    assert!(!u.exceeded);
}

#[test]
fn zero_rate_counts_as_no_rate() {
    let u = handle_amount_input(&receive_field(Some(100), Some(0)), "0.00015").unwrap();
    assert_eq!(u.notify, "0.0001");
    let u = handle_amount_input(&send_field(Some(100), Some(0)), "5").unwrap();
    assert_eq!(u.shown, "5");
    assert!(!u.exceeded);
}

#[test]
fn ignored_keystrokes() {
    let field = send_field(None, None);
    assert!(handle_amount_input(&field, "1.2.3").is_none());
    assert!(handle_amount_input(&field, "1.2345678").is_none());
    assert!(handle_amount_input(&field, "99999999999999999999").is_none());
    let read_only = AmountField { read_only: true, ..field };
    assert!(handle_amount_input(&read_only, "1").is_none());
}

#[test]
fn empty_input_is_zero_and_passes_through() {
    let u = handle_amount_input(&receive_field(Some(0), Some(SWAP_RATE_UNITS)), "").unwrap();
    assert_eq!(u.shown, "");
    assert_eq!(u.notify, "");
    assert!(u.sets_value);
    assert!(!u.exceeded);
}

#[test]
fn notice_names_the_maximum() {
    assert_eq!(max_output_notice(0), None);
    assert_eq!(max_output_notice(100_000_000).as_deref(), Some("Maximum output is 100 USDT"));
    assert_eq!(max_output_notice(1_500_000).as_deref(), Some("Maximum output is 1.5 USDT"));
}
