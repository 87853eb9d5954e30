use chaching_clan::spending::{delete_spending, get_spending, get_spending_exists, set_spending};
use chaching_clan::store::Store;

#[test]
fn test_add_get_spending() {
    let mut con = Store::new();
    let chat_id = "test_spending_chat";
    let user_id = "test_spending_user";
    let currency = "USD";
    let balance = 100;

    assert!(set_spending(&mut con, chat_id, user_id, currency, balance).is_ok());
    assert!(get_spending_exists(&mut con, chat_id, user_id, currency).unwrap());
    assert_eq!(
        get_spending(&mut con, chat_id, user_id, currency).unwrap(),
        balance
    );

    assert!(delete_spending(&mut con, chat_id, user_id, currency).is_ok());
}

#[test]
fn test_update_spending() {
    let mut con = Store::new();
    let chat_id = "test_spending_chat_2";
    let user_id = "test_spending_user_2";
    let currency = "USD";
    let balance = 100;

    assert!(set_spending(&mut con, chat_id, user_id, currency, balance).is_ok());

    let updated_balance = 200;
    assert!(set_spending(&mut con, chat_id, user_id, currency, updated_balance).is_ok());
    assert_eq!(
        get_spending(&mut con, chat_id, user_id, currency).unwrap(),
        updated_balance
    );

    assert!(delete_spending(&mut con, chat_id, user_id, currency).is_ok());
}

#[test]
fn spending_extremes_round_trip() {
    let mut con = Store::new();
    set_spending(&mut con, "c", "u", "EUR", 0).unwrap();
    assert_eq!(get_spending(&mut con, "c", "u", "EUR").unwrap(), 0);
    set_spending(&mut con, "c", "u", "EUR", u64::MAX).unwrap();
    assert_eq!(get_spending(&mut con, "c", "u", "EUR").unwrap(), u64::MAX);
    delete_spending(&mut con, "c", "u", "EUR").unwrap();
    assert!(!get_spending_exists(&mut con, "c", "u", "EUR").unwrap());
    assert!(get_spending(&mut con, "c", "u", "EUR").is_err());
}
