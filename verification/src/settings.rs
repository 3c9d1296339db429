//! Display settings: the fixed currency-code lookup and the defaults used
//! when nothing has been persisted yet.

use vstd::prelude::*;
use crate::model::AppSettings;

verus! {

/// The display symbol for a currency code; unknown codes fall back to the
/// peso sign.
pub open spec fn spec_symbol_for(code: Seq<char>) -> Seq<char> {
    if code == "USD"@ {
        "$"@
    } else if code == "EUR"@ {
        "€"@
    } else if code == "GBP"@ {
        "£"@
    } else if code == "JPY"@ {
        "¥"@
    } else {
        "₱"@
    }
}

/// Maps a currency code to its display symbol.
pub fn currency_symbol_for(code: &str) -> (r: &'static str)
    ensures
        r@ == spec_symbol_for(code@),
{
    if crate::text::str_eq(code, "USD") {
        "$"
    } else if crate::text::str_eq(code, "EUR") {
        "€"
    } else if crate::text::str_eq(code, "GBP") {
        "£"
    } else if crate::text::str_eq(code, "JPY") {
        "¥"
    } else {
        "₱"
    }
}

/// The settings assumed when none are persisted: Philippine peso.
pub fn default_settings() -> (r: AppSettings)
    ensures
        r.currency_code@ == "PHP"@,
        r.currency_symbol@ == "₱"@,
{
    AppSettings { currency_code: "PHP".to_owned(), currency_symbol: "₱".to_owned() }
}

/// The settings that selecting `code` produces: the code as given, the
/// symbol from the fixed lookup.
pub fn settings_for_code(code: &str) -> (r: AppSettings)
    ensures
        r.currency_code@ == code@,
        r.currency_symbol@ == spec_symbol_for(code@),
{
    AppSettings {
        currency_code: code.to_owned(),
        currency_symbol: currency_symbol_for(code).to_owned(),
    }
}

} // verus!
