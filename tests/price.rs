use coin_tracker::price::{numeral_to_units, parse_price, PRICE_SCALE};
use coin_tracker::text::clean_text;

#[test]
fn price_with_sign_and_separator() {
    assert_eq!(parse_price("$1,234.56"), 1_234_560_000_000);
    assert_eq!(parse_price("$1,234.56") as f64 / PRICE_SCALE as f64, 1234.56);
}

#[test]
fn empty_price_reads_zero() {
    assert_eq!(parse_price(""), 0);
}

#[test]
fn unavailable_price_reads_zero() {
    assert_eq!(parse_price("N/A"), 0);
}

#[test]
fn whole_and_fraction_forms() {
    assert_eq!(numeral_to_units("5"), 5 * PRICE_SCALE);
    assert_eq!(numeral_to_units("5."), 5 * PRICE_SCALE);
    assert_eq!(numeral_to_units(".5"), PRICE_SCALE / 2);
    assert_eq!(numeral_to_units("0.000000001"), 1);
}

#[test]
fn extra_fraction_digits_are_cut() {
    assert_eq!(numeral_to_units("0.0000000019"), 1);
}

#[test]
fn malformed_numerals_read_zero() {
    assert_eq!(numeral_to_units("."), 0);
    assert_eq!(numeral_to_units("1.2.3"), 0);
    assert_eq!(numeral_to_units("-5"), 0);
    assert_eq!(numeral_to_units(" 5"), 0);
}

#[test]
fn largest_price_fits_and_larger_reads_zero() {
    assert_eq!(numeral_to_units("18446744073.709551615"), u64::MAX);
    assert_eq!(numeral_to_units("18446744073.709551616"), 0);
    assert_eq!(numeral_to_units("99999999999999999999999"), 0);
}

#[test]
fn clean_text_trims_and_drops_line_feeds() {
    assert_eq!(clean_text("  Bit\ncoin \n"), "Bitcoin");
    assert_eq!(clean_text("\t a b \u{a0}"), "a b");
    assert_eq!(clean_text(""), "");
}

#[test]
fn price_text_with_surrounding_space() {
    assert_eq!(parse_price(&clean_text("\n  $0.25 \n")), PRICE_SCALE / 4);
}

#[test]
fn exponent_and_plus_sign_forms() {
    assert_eq!(numeral_to_units("1e5"), 100_000 * PRICE_SCALE);
    assert_eq!(numeral_to_units("+5"), 5 * PRICE_SCALE);
    assert_eq!(numeral_to_units("1E-3"), PRICE_SCALE / 1000);
    assert_eq!(numeral_to_units("2.5e+2"), 250 * PRICE_SCALE);
    assert_eq!(numeral_to_units("1.5e-9"), 1);
    assert_eq!(numeral_to_units("1.5e-10"), 0);
    assert_eq!(numeral_to_units("12345e-4"), 1_234_500_000);
    assert_eq!(parse_price("$1.2e3"), 1200 * PRICE_SCALE);
}

#[test]
fn malformed_exponents_and_special_values_read_zero() {
    assert_eq!(numeral_to_units("1e"), 0);
    assert_eq!(numeral_to_units("1e+"), 0);
    assert_eq!(numeral_to_units("e5"), 0);
    assert_eq!(numeral_to_units("1e5.0"), 0);
    assert_eq!(numeral_to_units("+"), 0);
    assert_eq!(numeral_to_units("++5"), 0);
    assert_eq!(numeral_to_units("inf"), 0);
    assert_eq!(numeral_to_units("NaN"), 0);
}

#[test]
fn extreme_exponents() {
    assert_eq!(numeral_to_units("1e99999999999999999999999999"), 0);
    assert_eq!(numeral_to_units("0e99999999999999999999999999"), 0);
    assert_eq!(numeral_to_units("5e-99999999999999999999999999"), 0);
    assert_eq!(numeral_to_units("0.00e3"), 0);
    assert_eq!(numeral_to_units("1.8446744073709551615e10"), u64::MAX);
}

#[test]
fn grouped_price_reads_as_plain_number() {
    assert_eq!(parse_price("$12,345,678.90"), 12_345_678_900_000_000);
}
