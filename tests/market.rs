use tarkov_lookup::market::{color_currency, currency_rate, currency_tier, ruble_value, PriceTier};
use tarkov_lookup::ocr::first_valid_line;

#[test]
fn rates_of_the_three_currencies() {
    assert_eq!(currency_rate("₽"), Some(1));
    assert_eq!(currency_rate("$"), Some(142));
    assert_eq!(currency_rate("€"), Some(160));
    assert_eq!(currency_rate("£"), None);
    assert_eq!(currency_rate(""), None);
    assert_eq!(currency_rate("$$"), None);
}

#[test]
fn values_in_roubles() {
    assert_eq!(ruble_value(1000, "₽"), 1000);
    assert_eq!(ruble_value(100, "$"), 14200);
    assert_eq!(ruble_value(100, "€"), 16000);
    assert_eq!(ruble_value(-3, "$"), -426);
}

#[test]
fn tier_boundaries() {
    assert_eq!(currency_tier(0, "₽"), PriceTier::White);
    assert_eq!(currency_tier(5000, "₽"), PriceTier::White);
    assert_eq!(currency_tier(5001, "₽"), PriceTier::Blue);
    assert_eq!(currency_tier(10000, "₽"), PriceTier::Blue);
    assert_eq!(currency_tier(25000, "₽"), PriceTier::Cyan);
    assert_eq!(currency_tier(50000, "₽"), PriceTier::Magenta);
    assert_eq!(currency_tier(100000, "₽"), PriceTier::Green);
    assert_eq!(currency_tier(200000, "₽"), PriceTier::Yellow);
    assert_eq!(currency_tier(300000, "₽"), PriceTier::Red);
    assert_eq!(currency_tier(500000, "₽"), PriceTier::BrightRed);
    assert_eq!(currency_tier(500001, "₽"), PriceTier::Top);
}

#[test]
fn tier_goes_by_rouble_worth() {
    assert_eq!(currency_tier(100, "€"), PriceTier::Cyan);
    assert_eq!(currency_tier(100, "$"), PriceTier::Cyan);
    assert_eq!(currency_tier(3000, "$"), PriceTier::BrightRed);
    assert_eq!(currency_tier(4000, "$"), PriceTier::Top);
}

#[test]
fn first_line_longer_than_one_byte() {
    let lines = vec!["a".to_string(), "".to_string(), "Water".to_string(), "Salt".to_string()];
    assert_eq!(first_valid_line(&lines), Some("Water".to_string()));
    assert_eq!(first_valid_line(&vec!["é".to_string()]), Some("é".to_string()));
    assert_eq!(first_valid_line(&vec!["x".to_string()]), None);
    assert_eq!(first_valid_line(&Vec::new()), None);
}

#[test]
fn prices_show_grouped_digits() {
    assert_eq!(color_currency(0, "₽").text, "0");
    assert_eq!(color_currency(999, "₽").text, "999");
    assert_eq!(color_currency(1000, "₽").text, "1,000");
    assert_eq!(color_currency(100000, "₽").text, "100,000");
    assert_eq!(color_currency(1234567, "₽").text, "1,234,567");
    assert_eq!(color_currency(-1000, "₽").text, "-1,000");
    assert_eq!(color_currency(-5, "$").text, "-5");
}

#[test]
fn price_text_carries_tier() {
    let shown = color_currency(2000, "$");
    assert_eq!(shown.text, "2,000");
    assert_eq!(shown.tier, PriceTier::Red);
    assert_eq!(color_currency(1544, "₽").tier, PriceTier::White);
}
