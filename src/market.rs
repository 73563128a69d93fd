//! Prices in the game's three currencies, and the tier each price falls in.

use vstd::prelude::*;
use num_format::{Locale, ToFormattedString};

verus! {

/// The rouble sign.
pub const ROUBLE: char = '\u{20bd}';

/// The dollar sign.
pub const DOLLAR: char = '$';

/// The euro sign.
pub const EURO: char = '\u{20ac}';

/// Roubles for one dollar.
pub const ROUBLES_PER_DOLLAR: i64 = 142;

/// Roubles for one euro.
pub const ROUBLES_PER_EURO: i64 = 160;

/// Roubles for one unit of the currency whose sign is `cur`, if it is one of
/// the three.
pub open spec fn rubles_per_unit(cur: Seq<char>) -> Option<i64> {
    if cur.len() != 1 {
        None
    } else if cur[0] == ROUBLE {
        Some(1)
    } else if cur[0] == DOLLAR {
        Some(ROUBLES_PER_DOLLAR)
    } else if cur[0] == EURO {
        Some(ROUBLES_PER_EURO)
    } else {
        None
    }
}

/// Whether `value` units of `cur` can be counted in roubles: the currency is
/// known and the amount fits in an `i64`.
pub open spec fn convertible(value: i64, cur: Seq<char>) -> bool {
    &&& rubles_per_unit(cur) is Some
    &&& i64::MIN <= value * rubles_per_unit(cur)->0 <= i64::MAX
}

/// Roubles for one unit of the currency whose sign is `cur_type`; `None`
/// for any other text.
pub fn currency_rate(cur_type: &str) -> (r: Option<i64>)
    ensures
        r == rubles_per_unit(cur_type@),
{
    if cur_type.unicode_len() != 1 {
        return None;
    }
    let c = cur_type.get_char(0);
    if c == ROUBLE {
        Some(1)
    } else if c == DOLLAR {
        Some(ROUBLES_PER_DOLLAR)
    } else if c == EURO {
        Some(ROUBLES_PER_EURO)
    } else {
        None
    }
}

/// `value` units of the currency whose sign is `cur_type`, in roubles.
pub fn ruble_value(value: i64, cur_type: &str) -> (r: i64)
    requires
        convertible(value, cur_type@),
    ensures
        r == value * rubles_per_unit(cur_type@)->0,
{
    let rate = currency_rate(cur_type);
    match rate {
        Some(k) => value * k,
        None => 0,
    }
}

/// The colour tiers of prices, from the cheapest up.
#[derive(Clone, Copy, Debug, PartialEq, Eq, Structural)]
pub enum PriceTier {
    /// Up to 5,000 roubles.
    White,
    /// Up to 10,000 roubles.
    Blue,
    /// Up to 25,000 roubles.
    Cyan,
    /// Up to 50,000 roubles.
    Magenta,
    /// Up to 100,000 roubles.
    Green,
    /// Up to 200,000 roubles.
    Yellow,
    /// Up to 300,000 roubles.
    Red,
    /// Up to 500,000 roubles.
    BrightRed,
    /// Over 500,000 roubles.
    Top,
}

/// The tier of a price of `rubles` roubles.
pub open spec fn tier_of(rubles: int) -> PriceTier {
    if rubles <= 5000 {
        PriceTier::White
    } else if rubles <= 10000 {
        PriceTier::Blue
    } else if rubles <= 25000 {
        PriceTier::Cyan
    } else if rubles <= 50000 {
        PriceTier::Magenta
    } else if rubles <= 100000 {
        PriceTier::Green
    } else if rubles <= 200000 {
        PriceTier::Yellow
    } else if rubles <= 300000 {
        PriceTier::Red
    } else if rubles <= 500000 {
        PriceTier::BrightRed
    } else {
        PriceTier::Top
    }
}

/// The tier of a price of `value` units of the currency `cur_type`, by its
/// worth in roubles.
pub fn currency_tier(value: i64, cur_type: &str) -> (r: PriceTier)
    requires
        convertible(value, cur_type@),
    ensures
        r == tier_of(value * rubles_per_unit(cur_type@)->0),
{
    let rb_price = ruble_value(value, cur_type);
    if rb_price <= 5000 {
        PriceTier::White
    } else if rb_price <= 10000 {
        PriceTier::Blue
    } else if rb_price <= 25000 {
        PriceTier::Cyan
    } else if rb_price <= 50000 {
        PriceTier::Magenta
    } else if rb_price <= 100000 {
        PriceTier::Green
    } else if rb_price <= 200000 {
        PriceTier::Yellow
    } else if rb_price <= 300000 {
        PriceTier::Red
    } else if rb_price <= 500000 {
        PriceTier::BrightRed
    } else {
        PriceTier::Top
    }
}

/// The character of the decimal digit `d`.
pub open spec fn digit_char(d: int) -> char {
    ('0' as int + d) as char
}

/// The decimal digits of `n`, without leading zeros.
pub open spec fn decimal(n: nat) -> Seq<char>
    decreases n,
{
    if n < 10 {
        seq![digit_char(n as int)]
    } else {
        decimal(n / 10).push(digit_char((n % 10) as int))
    }
}

/// The three decimal digits of `n`, which is below 1000, zeros in front.
pub open spec fn three_digits(n: nat) -> Seq<char> {
    seq![digit_char((n / 100) as int), digit_char((n / 10 % 10) as int), digit_char((n % 10) as int)]
}

/// The decimal digits of `n` in groups of three from the right, with a comma
/// between groups.
pub open spec fn grouped(n: nat) -> Seq<char>
    decreases n,
{
    if n < 1000 {
        decimal(n)
    } else {
        grouped(n / 1000) + seq![','] + three_digits(n % 1000)
    }
}

/// `v` written with grouped digits, a minus sign in front when negative.
pub open spec fn grouped_decimal(v: int) -> Seq<char> {
    if v < 0 {
        seq!['-'] + grouped((-v) as nat)
    } else {
        grouped(v as nat)
    }
}

/// Relies on num_format's `to_formatted_string` with `Locale::en`: the
/// English locale groups digits by three with `,` and writes `-` before a
/// negative number.
#[verifier::external_body]
fn format_grouped(value: i64) -> (r: String)
    ensures
        r@ == grouped_decimal(value as int),
{
    value.to_formatted_string(&Locale::en)
}

/// A price as it is shown: its digits, and the tier that decides its colour.
pub struct PriceText {
    pub text: String,
    pub tier: PriceTier,
}

/// How to show a price of `value` units of the currency `cur_type`: its
/// digits grouped by three, in the tier of its worth in roubles.
pub fn color_currency(value: i64, cur_type: &str) -> (r: PriceText)
    requires
        convertible(value, cur_type@),
    ensures
        r.text@ == grouped_decimal(value as int),
        r.tier == tier_of(value * rubles_per_unit(cur_type@)->0),
{
    let text = format_grouped(value);
    let tier = currency_tier(value, cur_type);
    PriceText { text, tier }
}

} // verus!
