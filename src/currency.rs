//! Currencies: three-letter codes and their number of decimal places.

use vstd::prelude::*;

use crate::text::chars_of;

verus! {

/// A currency: its code and how many decimal places its minor unit has.
pub type Currency = (String, i32);

/// The code that stands for "no particular currency".
pub const CURRENCY_CODE_DEFAULT: &'static str = "NIL";

/// Decimal places of the placeholder currency.
pub const CURRENCY_DECIMALS_DEFAULT: i32 = 2;

/// The currency table: each record is a three-letter code followed by one
/// digit, its number of decimal places (a record without that digit is
/// skipped).
pub const CURRENCY_TABLE: &'static str = "NIL2AED2AFN2ALL2AMD2ANG2AOA2ARS2AUD2AWG2AZN2BAM2BBD2BDT2BGN2BHD3BIF0BMD2BND2BOB2BRL2BSD2BTN2BWP2BYN2BZD2CAD2CDF2CHF2CLP0CNY2COP2CRC2CUP2CVE2CZK2DJF0DKK2DOP2DZD2EGP2ERN2ETB2EUR2FJD2FKP2GBP2GEL2GHS2GIP2GMD2GNF0GTQ2GYD2HKD2HNL2HTG2HUF2IDR2ILS2INR2IQD3IRR2ISK0JMD2JOD3JPY0KES2KGS2KHR2KMF0KPW2KRW0KWD3KYD2KZT2LAK2LBP2LKR2LRD2LSL2LYD3MAD2MDL2MGA2MKD2MMK2MNT2MOP2MRU2MUR2MVR2MWK2MXN2MYR2MZN2NAD2NGN2NIO2NOK2NPR2NZD2OMR3PAB2PEN2PGK2PHP2PKR2PLN2PYG0QAR2RON2RSD2RUB2RWF0SAR2SBD2SCR2SDG2SEK2SGD2SHP2SLE2SOS2SRD2SSP2STN2SYP2SZL2THB2TJS2TMT2TND3TOP2TRY2TTD2TWD2TZS2UAH2UGX0USD2UYU2UZS2VES2VND0VUV0WST2XAF0XCD2XOF0XPF0YER2ZAR2ZMW2ZWL2";

/// What `str::to_uppercase` returns for a string with these characters.
pub uninterp spec fn upper_of(s: Seq<char>) -> Seq<char>;

/// Relies on `str::to_uppercase`: the result depends on the characters alone.
#[verifier::external_body]
fn uppercase(s: &str) -> (r: String)
    ensures
        r@ == upper_of(s@),
{
    s.to_uppercase()
}

/// The currency as plain values.
pub open spec fn currency_view(c: Currency) -> (Seq<char>, int) {
    (c.0@, c.1 as int)
}

/// Value of an ASCII decimal digit.
pub open spec fn digit_val(c: char) -> int {
    c as int - '0' as int
}

/// The first record of table `t` whose code is `code`, as (code, decimals).
pub open spec fn table_lookup(t: Seq<char>, code: Seq<char>) -> Option<(Seq<char>, int)>
    decreases t.len(),
{
    if t.len() < 4 {
        None
    } else if t.take(3) == code && '0' <= t[3] <= '9' {
        Some((code, digit_val(t[3])))
    } else {
        table_lookup(t.skip(4), code)
    }
}

/// The currency with exactly this code, if the table has one.
pub open spec fn currency_of(code: Seq<char>) -> Option<(Seq<char>, int)> {
    table_lookup(CURRENCY_TABLE@, code)
}

/// Looks up a code that is already in upper case.
pub fn currency_for_upper_code(code: &str) -> (r: Option<Currency>)
    ensures
        match r {
            Some(c) => currency_of(code@) == Some(currency_view(c)) && 0 <= c.1 <= 9,
            None => currency_of(code@) is None,
        },
{
    let t = chars_of(CURRENCY_TABLE);
    let c = chars_of(code);
    if c.len() != 3 {
        proof {
            lemma_lookup_needs_three(t@, code@);
        }
        return None;
    }
    let n = t.len();
    let mut k: usize = 0;
    assert(t@.skip(0) =~= t@);
    while n - k >= 4
        invariant
            t@ == CURRENCY_TABLE@,
            c@ == code@,
            c@.len() == 3,
            n == t@.len(),
            k <= n,
            table_lookup(t@, code@) == table_lookup(t@.skip(k as int), code@),
        decreases n - k,
    {
        let ghost rest = t@.skip(k as int);
        let same = t[k] == c[0] && t[k + 1] == c[1] && t[k + 2] == c[2];
        let d = t[k + 3];
        assert(rest.take(3) =~= seq![t@[k as int], t@[k + 1], t@[k + 2]]);
        assert(c@ =~= seq![c@[0], c@[1], c@[2]]);
        assert(rest[3] == d);
        if same && '0' <= d && d <= '9' {
            let dec = (d as u32 - '0' as u32) as i32;
            return Some(to_currency((code, dec)));
        }
        assert(rest.skip(4) =~= t@.skip(k + 4));
        k = k + 4;
    }
    assert(t@.skip(k as int).len() < 4);
    None
}

proof fn lemma_lookup_needs_three(t: Seq<char>, code: Seq<char>)
    requires
        code.len() != 3,
    ensures
        table_lookup(t, code) is None,
    decreases t.len(),
{
    if t.len() >= 4 {
        assert(t.take(3).len() == 3);
        lemma_lookup_needs_three(t.skip(4), code);
    }
}

/// Looks up a code in any letter case, after `str::to_uppercase`.
pub fn get_currency_from_code(code: &str) -> (r: Option<Currency>)
    ensures
        match r {
            Some(c) => currency_of(upper_of(code@)) == Some(currency_view(c)) && 0 <= c.1 <= 9,
            None => currency_of(upper_of(code@)) is None,
        },
{
    let up = uppercase(code);
    currency_for_upper_code(up.as_str())
}

/// A currency from its code and decimal places.
fn to_currency(currency: (&str, i32)) -> (r: Currency)
    ensures
        r.0@ == currency.0@,
        r.1 == currency.1,
{
    (String::from_str(currency.0), currency.1)
}

/// The placeholder currency used when none was chosen.
pub fn get_default_currency() -> (r: Currency)
    ensures
        r.0@ == CURRENCY_CODE_DEFAULT@,
        r.1 == CURRENCY_DECIMALS_DEFAULT,
{
    to_currency((CURRENCY_CODE_DEFAULT, CURRENCY_DECIMALS_DEFAULT))
}

} // verus!
