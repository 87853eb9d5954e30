use chaching_clan::balance::{BalanceGraph, Debt};
use chaching_clan::chat::{set_chat_currency_conversion, set_chat_default_currency};
use chaching_clan::format::{display_balance_header, get_chat_default_currency, use_currency};
use chaching_clan::statement::{
    convert_amount, convert_balances, convert_currency, render_statement, render_with_fallback,
    CurrencyRate, Rate, StatementOption,
};
use chaching_clan::store::Store;

fn debt(debtor: &str, creditor: &str, currency: &str, amount: i64) -> Debt {
    Debt {
        debtor: debtor.to_string(),
        creditor: creditor.to_string(),
        currency: currency.to_string(),
        amount,
    }
}

fn shares(list: &[(&str, i64)]) -> Vec<(String, i64)> {
    list.iter().map(|(n, a)| (n.to_string(), *a)).collect()
}

#[test]
fn conversion_rounds_half_away_from_zero() {
    let half = Rate { numerator: 1, denominator: 2 };
    assert_eq!(convert_amount(100, 2, 0, half), 1);
    assert_eq!(convert_amount(-100, 2, 0, half), -1);
    assert_eq!(convert_amount(149, 2, 0, half), 1);
    assert_eq!(convert_amount(7, 0, 2, Rate { numerator: 3, denominator: 2 }), 1050);
    assert_eq!(convert_amount(i64::MAX, 0, 9, Rate { numerator: 2, denominator: 1 }), i64::MAX);
    assert_eq!(convert_amount(i64::MIN, 0, 9, Rate { numerator: 2, denominator: 1 }), i64::MIN);
}

#[test]
fn convert_currency_by_code() {
    let half = Rate { numerator: 1, denominator: 2 };
    assert_eq!(convert_currency(100, "usd", "JPY", half), 1);
    assert_eq!(convert_currency(100, "usd", "???", half), 100);
}

#[test]
fn converted_statement_nets_across_currencies() {
    let mut g = BalanceGraph::new();
    g.insert_payment(&shares(&[("alice", 1000)]), "bob_b", "USD").unwrap();
    g.insert_payment(&shares(&[("bob_b", 300)]), "alice", "EUR").unwrap();
    g.insert_payment(&shares(&[("carol", 500)]), "alice", "GBP").unwrap();
    let rates = vec![
        CurrencyRate { code: "USD".to_string(), rate: Some(Rate { numerator: 1, denominator: 1 }) },
        CurrencyRate { code: "EUR".to_string(), rate: Some(Rate { numerator: 2, denominator: 1 }) },
        CurrencyRate { code: "GBP".to_string(), rate: None },
    ];
    let c = convert_balances(&g, "USD", &rates).unwrap();
    let mut all = c.balances();
    all.sort_by(|a, b| (&a.currency, &a.debtor).cmp(&(&b.currency, &b.debtor)));
    assert_eq!(
        all,
        vec![debt("carol", "alice", "GBP", 500), debt("alice", "bob_b", "USD", 400)]
    );
    let shown = render_statement(&g, &StatementOption::ConvertCurrency, "USD", &rates).unwrap();
    assert_eq!(shown.len(), 2);
    let single =
        render_statement(&g, &StatementOption::Currency("EUR".to_string()), "USD", &rates).unwrap();
    assert_eq!(single, vec![debt("bob_b", "alice", "EUR", 300)]);
}

#[test]
fn chat_currency_settings_shape_headers() {
    let mut con = Store::new();
    assert_eq!(get_chat_default_currency(&mut con, "c1"), ("NIL".to_string(), 2));
    assert_eq!(display_balance_header(&mut con, "c1", "NIL"), "Updated balances!\n\n");
    assert_eq!(
        display_balance_header(&mut con, "c1", "EUR"),
        "Updated balances in EUR!\n\n"
    );
    set_chat_default_currency(&mut con, "c1", "JPY").unwrap();
    assert_eq!(get_chat_default_currency(&mut con, "c1"), ("JPY".to_string(), 0));
    assert_eq!(
        use_currency(("NIL".to_string(), 2), &mut con, "c1"),
        ("JPY".to_string(), 0)
    );
    assert_eq!(
        use_currency(("USD".to_string(), 2), &mut con, "c1"),
        ("USD".to_string(), 2)
    );
    assert_eq!(
        display_balance_header(&mut con, "c1", "NIL"),
        "Updated balances in JPY!\n\n"
    );
    set_chat_currency_conversion(&mut con, "c1", true).unwrap();
    assert_eq!(
        display_balance_header(&mut con, "c1", "USD"),
        "Updated balances, all converted to JPY!\n\n"
    );
}

#[test]
fn empty_statement_falls_back_to_first_offered_currency() {
    let mut g = BalanceGraph::new();
    g.insert_payment(&shares(&[("alice", 7)]), "bob_b", "EUR").unwrap();
    let mut offered = vec!["EUR".to_string(), "GBP".to_string()];
    let (fell_back, shown, v) = render_with_fallback(
        &g,
        StatementOption::Currency("NIL".to_string()),
        "USD",
        &Vec::new(),
        &mut offered,
    )
    .unwrap();
    assert!(fell_back);
    assert_eq!(shown, StatementOption::Currency("EUR".to_string()));
    assert_eq!(v, vec![debt("alice", "bob_b", "EUR", 7)]);
    assert_eq!(offered, vec!["GBP".to_string()]);

    let mut offered = vec!["GBP".to_string()];
    let (fell_back, shown, v) = render_with_fallback(
        &g,
        StatementOption::Currency("EUR".to_string()),
        "USD",
        &Vec::new(),
        &mut offered,
    )
    .unwrap();
    assert!(!fell_back);
    assert_eq!(shown, StatementOption::Currency("EUR".to_string()));
    assert_eq!(v.len(), 1);
    assert_eq!(offered, vec!["GBP".to_string()]);
}
