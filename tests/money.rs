use chaching_clan::amounts::{parse_amount, parse_currency_amount, MAX_VALUE};
use chaching_clan::currency::{get_currency_from_code, get_default_currency};
use chaching_clan::error::LedgerError;
use chaching_clan::format::{
    display_amount, display_currency_amount, display_debts, display_username, get_currency,
    is_username_equal, parse_username,
};

#[test]
fn parse_amount_scales_and_rounds_half_away() {
    assert_eq!(parse_amount("100", 2), Ok(10000));
    assert_eq!(parse_amount("1.005", 2), Ok(101));
    assert_eq!(parse_amount("1.004", 2), Ok(100));
    assert_eq!(parse_amount("0.5", 0), Ok(1));
    assert_eq!(parse_amount(".25", 1), Ok(3));
    assert_eq!(parse_amount("7.", 0), Ok(7));
    assert_eq!(parse_amount("+3", 3), Ok(3000));
}

#[test]
fn parse_amount_errors() {
    assert_eq!(parse_amount("abc", 2), Err(LedgerError::InvalidAmount));
    assert_eq!(parse_amount(".", 2), Err(LedgerError::InvalidAmount));
    assert_eq!(parse_amount("1.2.3", 2), Err(LedgerError::InvalidAmount));
    assert_eq!(parse_amount("", 2), Err(LedgerError::InvalidAmount));
    assert_eq!(parse_amount("0", 2), Err(LedgerError::NonPositiveAmount));
    assert_eq!(parse_amount("-5", 2), Err(LedgerError::NonPositiveAmount));
    assert_eq!(parse_amount("0.004", 2), Err(LedgerError::NonPositiveAmount));
    assert_eq!(
        parse_amount("99999999999999999999999", 2),
        Err(LedgerError::AmountTooLarge)
    );
    assert_eq!(parse_amount(&MAX_VALUE.to_string(), 0), Ok(MAX_VALUE));
    assert_eq!(
        parse_amount(&(MAX_VALUE + 1).to_string(), 0),
        Err(LedgerError::AmountTooLarge)
    );
}

#[test]
fn parse_currency_amount_reads_code() {
    assert_eq!(
        parse_currency_amount("12.5 usd"),
        Ok((1250, ("USD".to_string(), 2)))
    );
    assert_eq!(
        parse_currency_amount("300 JPY"),
        Ok((300, ("JPY".to_string(), 0)))
    );
    assert_eq!(
        parse_currency_amount("3.5"),
        Ok((350, ("NIL".to_string(), 2)))
    );
    assert_eq!(
        parse_currency_amount("1 2 3"),
        Err(LedgerError::BadFormat)
    );
    assert_eq!(
        parse_currency_amount("1 ABC"),
        Err(LedgerError::UnknownCurrency)
    );
    assert_eq!(parse_currency_amount(""), Err(LedgerError::InvalidAmount));
}

#[test]
fn currency_lookup() {
    assert_eq!(get_currency_from_code("usd"), Some(("USD".to_string(), 2)));
    assert_eq!(get_currency_from_code("KWD"), Some(("KWD".to_string(), 3)));
    assert_eq!(get_currency_from_code("XYZ"), None);
    assert_eq!(get_currency_from_code("US"), None);
    assert_eq!(get_default_currency(), ("NIL".to_string(), 2));
    assert_eq!(get_currency("eur"), Ok(("EUR".to_string(), 2)));
    assert_eq!(get_currency("e"), Err(LedgerError::UnknownCurrency));
}

#[test]
fn display_amounts() {
    assert_eq!(display_amount(12345, 2), "123.45");
    assert_eq!(display_amount(5, 2), "0.05");
    assert_eq!(display_amount(-5, 2), "-0.05");
    assert_eq!(display_amount(0, 2), "0");
    assert_eq!(display_amount(100, 0), "100");
    assert_eq!(display_amount(-7, 0), "-7");
    assert_eq!(display_amount(1000, 3), "1.000");
    assert_eq!(display_amount(i64::MIN, 0), "-9223372036854775808");
}

#[test]
fn display_currency_amounts_and_debts() {
    assert_eq!(display_currency_amount(250, ("USD".to_string(), 2)), "2.50 USD");
    assert_eq!(display_currency_amount(250, ("NIL".to_string(), 2)), "2.50");
    assert_eq!(
        display_debts(&vec![("alpha_a".to_string(), 150), ("bravo_b".to_string(), 5)], 2),
        "    @alpha_a: 1.50\n    @bravo_b: 0.05\n"
    );
}

#[test]
fn usernames() {
    assert_eq!(parse_username("@alpha_1"), Ok("alpha_1".to_string()));
    assert_eq!(parse_username("@@alpha_1"), Ok("alpha_1".to_string()));
    assert_eq!(parse_username("alpha"), Ok("alpha".to_string()));
    assert_eq!(parse_username("alph"), Err(LedgerError::InvalidUsername));
    assert_eq!(parse_username("alpha-1"), Err(LedgerError::InvalidUsername));
    assert_eq!(parse_username("alpha 1"), Err(LedgerError::InvalidUsername));
    assert_eq!(parse_username("ålpha_1"), Err(LedgerError::InvalidUsername));
    assert_eq!(display_username("alpha_1"), "@alpha_1");
    assert!(is_username_equal("Alpha_1", "alpha_1"));
    assert!(!is_username_equal("alpha_2", "alpha_1"));
}

#[test]
fn error_messages() {
    assert_eq!(
        LedgerError::InvalidAmount.message(),
        "Uh-oh! ❌ Please give me a valid number!"
    );
    assert_eq!(
        LedgerError::UnknownCurrency.message(),
        "Sorry, unknown currency..."
    );
}
