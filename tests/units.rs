use untron_swap::units::{
    convert_receive_to_send, convert_send_to_receive, string_to_units, units_to_string,
    RATE_SCALE, SWAP_RATE_UNITS,
};

fn round_trip(s: &str) -> String {
    units_to_string(string_to_units(s).expect("amount should parse"))
}

#[test]
fn valid_amounts_parse() {
    assert_eq!(string_to_units("0"), Some(0));
    assert_eq!(string_to_units("123"), Some(123_000_000));
    assert_eq!(string_to_units("1.000001"), Some(1_000_001));
    assert_eq!(string_to_units("007.5"), Some(7_500_000));
    assert_eq!(string_to_units(".25"), Some(250_000));
    assert_eq!(string_to_units("5."), Some(5_000_000));
    assert_eq!(string_to_units("0.000001"), Some(1));
}

#[test]
fn parse_is_deterministic() {
    for s in ["0", "1.5", "42.000042", "999999.999999"] {
        assert_eq!(string_to_units(s), string_to_units(s));
    }
}

#[test]
fn empty_and_bare_point_are_zero() {
    assert_eq!(string_to_units(""), Some(0));
    assert_eq!(string_to_units("."), Some(0));
}

#[test]
fn format_of_parse_trims() {
    assert_eq!(round_trip("0.0"), "0");
    assert_eq!(round_trip("1.5"), "1.5");
    assert_eq!(round_trip("1.500000"), "1.5");
}

#[test]
fn too_many_fraction_digits_fail() {
    assert_eq!(string_to_units("1.2345678"), None);
    assert_eq!(string_to_units("1.234567"), Some(1_234_567));
}

#[test]
fn several_points_fail() {
    assert_eq!(string_to_units("1.2.3"), None);
    assert_eq!(string_to_units(".."), None);
}

#[test]
fn other_characters_fail() {
    assert_eq!(string_to_units("1a"), None);
    assert_eq!(string_to_units("-1"), None);
    assert_eq!(string_to_units("+1"), None);
    assert_eq!(string_to_units("1 "), None);
}

#[test]
fn largest_amount_parses_and_one_more_fails() {
    assert_eq!(string_to_units("18446744073709.551615"), Some(u64::MAX));
    assert_eq!(string_to_units("18446744073709.551616"), None);
    assert_eq!(string_to_units("18446744073710"), None);
    assert_eq!(string_to_units("99999999999999999999999"), None);
}

#[test]
fn canonical_strings_round_trip() {
    for s in ["0", "1", "1.5", "0.000001", "123.456789", "10.01", "18446744073709.551615"] {
        assert_eq!(round_trip(s), s);
    }
}

#[test]
fn non_canonical_strings_come_back_canonical() {
    assert_eq!(round_trip("00012.340"), "12.34");
    assert_eq!(round_trip(".5"), "0.5");
    assert_eq!(round_trip("7."), "7");
    assert_eq!(round_trip(""), "0");
}

#[test]
fn units_format() {
    assert_eq!(units_to_string(0), "0");
    assert_eq!(units_to_string(1), "0.000001");
    assert_eq!(units_to_string(1_000_000), "1");
    assert_eq!(units_to_string(1_230_000), "1.23");
    assert_eq!(units_to_string(100_000_000), "100");
    assert_eq!(units_to_string(u64::MAX), "18446744073709.551615");
}

#[test]
fn send_to_receive_exact_multiple() {
    assert_eq!(convert_send_to_receive(1_000_000, 999_700), Some(999_700));
    assert_eq!(convert_send_to_receive(1_000_000, SWAP_RATE_UNITS), Some(SWAP_RATE_UNITS));
}

#[test]
fn send_to_receive_rounds_half_up() {
    assert_eq!(convert_send_to_receive(1, 500_000), Some(1));
    assert_eq!(convert_send_to_receive(1, 499_999), Some(0));
    assert_eq!(convert_send_to_receive(3, 999_700), Some(3));
    assert_eq!(convert_send_to_receive(5_000, 999_700), Some(4_999));
}

#[test]
fn receive_to_send_rounds_half_up() {
    assert_eq!(convert_receive_to_send(999_700, 999_700), Some(1_000_000));
    assert_eq!(convert_receive_to_send(1, 2_000_000), Some(1));
    assert_eq!(convert_receive_to_send(1, 2_000_001), Some(0));
    assert_eq!(convert_receive_to_send(100, 999_700), Some(100));
}

#[test]
fn conversions_saturate() {
    assert_eq!(convert_send_to_receive(u64::MAX, u64::MAX), Some(u64::MAX));
    assert_eq!(convert_receive_to_send(u64::MAX, 1), Some(u64::MAX));
    assert_eq!(convert_send_to_receive(u64::MAX, RATE_SCALE), Some(u64::MAX));
}

#[test]
fn conversions_refuse_zero_rate() {
    assert_eq!(convert_send_to_receive(1_000_000, 0), None);
    assert_eq!(convert_receive_to_send(1_000_000, 0), None);
    assert_eq!(convert_send_to_receive(0, 0), None);
    assert_eq!(convert_receive_to_send(0, 0), None);
}

#[test]
fn conversions_are_inverse_within_one_unit() {
    let mut x: u64 = 0x2545_f491_4f6c_dd1d;
    for _ in 0..2000 {
        x ^= x << 13;
        x ^= x >> 7;
        x ^= x << 17;
        let send = x % 1_000_000_000_000_000;
        let rate = 333_334 + (x >> 20) % 5_000_000;
        for q in [rate, SWAP_RATE_UNITS] {
            let receive = convert_send_to_receive(send, q).unwrap();
            let back = convert_receive_to_send(receive, q).unwrap();
            assert!(back.abs_diff(send) <= 1, "send {send} rate {q} back {back}");
        }
    }
}

#[test]
fn inverse_law_fails_below_a_third() {
    let receive = convert_send_to_receive(500_000, 333_333).unwrap();
    assert_eq!(convert_receive_to_send(receive, 333_333), Some(500_002));
}
