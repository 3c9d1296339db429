use pondobro::currency::format_currency;
use pondobro::currency::format_with_commas;
use pondobro::settings::currency_symbol_for;
use pondobro::settings::default_settings;
use pondobro::settings::settings_for_code;

#[test]
fn format_zero() {
    assert_eq!(format_currency(0, "$"), "$ 0.00");
}

#[test]
fn format_three_digits() {
    assert_eq!(format_currency(999, "$"), "$ 999.00");
}

#[test]
fn format_first_grouping() {
    assert_eq!(format_currency(1000, "$"), "$ 1,000.00");
}

#[test]
fn format_negative_millions() {
    assert_eq!(format_currency(-1234567, "₱"), "-₱ 1,234,567.00");
}

#[test]
fn format_docstring_example() {
    assert_eq!(format_currency(-1234567, "$"), "-$ 1,234,567.00");
}

#[test]
fn commas_plain() {
    assert_eq!(format_with_commas(0), "0");
    assert_eq!(format_with_commas(999), "999");
    assert_eq!(format_with_commas(1000), "1,000");
    assert_eq!(format_with_commas(-1234567), "-1,234,567");
    assert_eq!(format_with_commas(1234567890123), "1,234,567,890,123");
}

#[test]
fn commas_extremes() {
    assert_eq!(format_with_commas(i64::MAX), "9,223,372,036,854,775,807");
    assert_eq!(format_with_commas(i64::MIN), "-9,223,372,036,854,775,808");
}

#[test]
fn symbol_lookup() {
    assert_eq!(currency_symbol_for("USD"), "$");
    assert_eq!(currency_symbol_for("EUR"), "€");
    assert_eq!(currency_symbol_for("GBP"), "£");
    assert_eq!(currency_symbol_for("JPY"), "¥");
    assert_eq!(currency_symbol_for("PHP"), "₱");
    assert_eq!(currency_symbol_for("XYZ"), "₱");
}

#[test]
fn default_settings_are_peso() {
    let s = default_settings();
    assert_eq!(s.currency_code, "PHP");
    assert_eq!(s.currency_symbol, "₱");
}

#[test]
fn settings_for_known_and_unknown_codes() {
    let usd = settings_for_code("USD");
    assert_eq!(usd.currency_code, "USD");
    assert_eq!(usd.currency_symbol, "$");
    let other = settings_for_code("ZZZ");
    assert_eq!(other.currency_code, "ZZZ");
    assert_eq!(other.currency_symbol, "₱");
}
