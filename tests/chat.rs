use chaching_clan::chat::{
    add_chat, add_chat_currency, add_chat_payment, add_chat_user, add_chat_user_multiple,
    delete_all_chat_payment, delete_chat, delete_chat_currencies, delete_chat_payment,
    delete_chat_settings, get_chat_currencies, get_chat_currency_conversion,
    get_chat_default_currency, get_chat_erase_messages, get_chat_exists, get_chat_payment_exists,
    get_chat_payments, get_chat_time_zone, get_chat_users, is_exists_chat_currency_conversion,
    is_exists_chat_default_currency, is_exists_chat_erase_messages, is_exists_chat_time_zone,
    set_chat_currency_conversion, set_chat_default_currency, set_chat_erase_messages,
    set_chat_time_zone,
};
use chaching_clan::store::Store;

#[test]
fn test_add_chat() {
    let mut con = Store::new();

    let chat_id = "123456789";
    let username = "987654321";
    assert!(add_chat(&mut con, chat_id, username).is_ok());

    delete_chat(&mut con, chat_id).unwrap();
}

#[test]
fn test_get_chat_exists() {
    let mut con = Store::new();

    let chat_id = "1234567891";
    let username = "9876543211";
    add_chat(&mut con, chat_id, username).unwrap();
    assert!(get_chat_exists(&mut con, chat_id).unwrap());

    delete_chat(&mut con, chat_id).unwrap();
}

#[test]
fn test_get_chat_users() {
    let mut con = Store::new();

    let chat_id = "1234567890";
    let username = "9876543210";
    add_chat(&mut con, chat_id, username).unwrap();
    let users = get_chat_users(&mut con, chat_id);
    assert!(users.is_ok());
    assert_eq!(users.unwrap(), vec![username.to_string()]);

    delete_chat(&mut con, chat_id).unwrap();
}

#[test]
fn test_add_user_to_chat() {
    let mut con = Store::new();

    let chat_id = "1234567892";
    let username = "9876543212";
    let new_username = "9876543213";
    add_chat(&mut con, chat_id, username).unwrap();
    assert!(add_chat_user(&mut con, chat_id, new_username).is_ok());

    delete_chat(&mut con, chat_id).unwrap();
}

#[test]
fn test_add_users_to_chat() {
    let mut con = Store::new();

    let chat_id = "1234567893";
    let first_user = "987654321";
    let users = vec![
        "987654322".to_string(),
        "987654323".to_string(),
        "987654324".to_string(),
    ];
    add_chat(&mut con, chat_id, first_user).unwrap();
    assert!(add_chat_user_multiple(&mut con, chat_id, users).is_ok());
    assert_eq!(
        get_chat_users(&mut con, chat_id).unwrap(),
        vec![
            "987654321".to_string(),
            "987654322".to_string(),
            "987654323".to_string(),
            "987654324".to_string(),
        ]
    );

    delete_chat(&mut con, chat_id).unwrap();
}

#[test]
fn test_delete_chat() {
    let mut con = Store::new();

    let chat_id = "1234567894";
    let username = "9876543216";
    add_chat(&mut con, chat_id, username).unwrap();
    assert!(get_chat_exists(&mut con, chat_id).unwrap());
    delete_chat(&mut con, chat_id).unwrap();
    assert!(!get_chat_exists(&mut con, chat_id).unwrap());
}

#[test]
fn test_add_get_chat_payment() {
    let mut con = Store::new();

    let chat_id = "1234567895";
    let payment_id = "payment_id_1";
    assert!(add_chat_payment(&mut con, chat_id, payment_id).is_ok());
    assert!(get_chat_payment_exists(&mut con, chat_id).is_ok());
    assert!(get_chat_payments(&mut con, chat_id).unwrap() == vec![payment_id]);

    let second_payment_id = "payment_id_2";
    assert!(add_chat_payment(&mut con, chat_id, second_payment_id).is_ok());
    assert!(
        get_chat_payments(&mut con, chat_id).unwrap() == vec![second_payment_id, payment_id]
    );

    delete_all_chat_payment(&mut con, chat_id).unwrap();
}

#[test]
fn test_delete_chat_payment() {
    let mut con = Store::new();

    let chat_id = "1234567896";
    let payment_id = "payment_id_2";
    add_chat_payment(&mut con, chat_id, payment_id).unwrap();
    let payment_id_second = "payment_id_3";
    add_chat_payment(&mut con, chat_id, payment_id_second).unwrap();
    let payment_id_third = "payment_id_4";
    add_chat_payment(&mut con, chat_id, payment_id_third).unwrap();
    delete_chat_payment(&mut con, chat_id, payment_id_second).unwrap();

    assert_eq!(
        get_chat_payments(&mut con, chat_id).unwrap(),
        vec![payment_id_third, payment_id]
    );
    delete_all_chat_payment(&mut con, chat_id).unwrap();
}

#[test]
fn test_delete_all_chat_payment() {
    let mut con = Store::new();

    let chat_id = "1234567897";
    let payment_id = "payment_id_5";
    add_chat_payment(&mut con, chat_id, payment_id).unwrap();
    delete_all_chat_payment(&mut con, chat_id).unwrap();
    assert!(!get_chat_payment_exists(&mut con, chat_id).unwrap());
}

#[test]
fn test_add_get_chat_currency() {
    let mut con = Store::new();

    let chat_id = "1234567899";
    let currency = "USD";
    assert!(add_chat_currency(&mut con, chat_id, currency).is_ok());
    assert_eq!(
        get_chat_currencies(&mut con, chat_id).unwrap(),
        vec![currency]
    );

    let second_currency = "EUR";
    assert!(add_chat_currency(&mut con, chat_id, second_currency).is_ok());
    assert_eq!(
        get_chat_currencies(&mut con, chat_id).unwrap(),
        vec![currency, second_currency]
    );
    assert!(delete_chat_currencies(&mut con, chat_id).is_ok());
}

#[test]
fn test_set_get_chat_time_zone() {
    let mut con = Store::new();

    let chat_id = "12345678900";
    let time_zone = "SST";

    assert!(!is_exists_chat_time_zone(&mut con, chat_id).unwrap());
    assert!(set_chat_time_zone(&mut con, chat_id, time_zone).is_ok());
    assert_eq!(
        get_chat_time_zone(&mut con, chat_id).unwrap(),
        time_zone.to_string()
    );
    assert!(is_exists_chat_time_zone(&mut con, chat_id).unwrap());

    let second_time_zone = "PST";
    assert!(set_chat_time_zone(&mut con, chat_id, second_time_zone).is_ok());
    assert_eq!(
        get_chat_time_zone(&mut con, chat_id).unwrap(),
        second_time_zone.to_string()
    );

    assert!(delete_chat_settings(&mut con, chat_id).is_ok());
}

#[test]
fn test_set_get_chat_default_currency() {
    let mut con = Store::new();

    let chat_id = "12345678901";
    let currency = "USD";

    assert!(!is_exists_chat_default_currency(&mut con, chat_id).unwrap());
    assert!(set_chat_default_currency(&mut con, chat_id, currency).is_ok());
    assert_eq!(
        get_chat_default_currency(&mut con, chat_id).unwrap(),
        currency.to_string()
    );
    assert!(is_exists_chat_default_currency(&mut con, chat_id).unwrap());

    let second_currency = "EUR";
    assert!(set_chat_default_currency(&mut con, chat_id, second_currency).is_ok());
    assert_eq!(
        get_chat_default_currency(&mut con, chat_id).unwrap(),
        second_currency.to_string()
    );

    assert!(delete_chat_settings(&mut con, chat_id).is_ok());
}

#[test]
fn test_set_get_chat_currency_conversion() {
    let mut con = Store::new();

    let chat_id = "12345678902";
    let currency_conversion = true;

    assert!(!is_exists_chat_currency_conversion(&mut con, chat_id).unwrap());
    assert!(set_chat_currency_conversion(&mut con, chat_id, currency_conversion).is_ok());
    assert_eq!(
        get_chat_currency_conversion(&mut con, chat_id).unwrap(),
        currency_conversion
    );
    assert!(is_exists_chat_currency_conversion(&mut con, chat_id).unwrap());

    let second_currency_conversion = false;
    assert!(
        set_chat_currency_conversion(&mut con, chat_id, second_currency_conversion).is_ok()
    );
    assert_eq!(
        get_chat_currency_conversion(&mut con, chat_id).unwrap(),
        second_currency_conversion
    );

    assert!(delete_chat_settings(&mut con, chat_id).is_ok());
}

#[test]
fn test_set_get_chat_erase_messages() {
    let mut con = Store::new();

    let chat_id = "12345678903";
    let erase_messages = true;

    assert!(!is_exists_chat_erase_messages(&mut con, chat_id).unwrap());
    assert!(set_chat_erase_messages(&mut con, chat_id, erase_messages).is_ok());
    assert_eq!(
        get_chat_erase_messages(&mut con, chat_id).unwrap(),
        erase_messages
    );
    assert!(is_exists_chat_erase_messages(&mut con, chat_id).unwrap());

    let second_erase_messages = false;
    assert!(set_chat_erase_messages(&mut con, chat_id, second_erase_messages).is_ok());
    assert_eq!(
        get_chat_erase_messages(&mut con, chat_id).unwrap(),
        second_erase_messages
    );

    assert!(delete_chat_settings(&mut con, chat_id).is_ok());
}

#[test]
fn chat_user_added_once() {
    let mut con = Store::new();
    add_chat(&mut con, "chat_a", "alice_1").unwrap();
    add_chat_user(&mut con, "chat_a", "alice_1").unwrap();
    add_chat_user_multiple(
        &mut con,
        "chat_a",
        vec!["alice_1".to_string(), "bobby_2".to_string()],
    )
    .unwrap();
    assert_eq!(
        get_chat_users(&mut con, "chat_a").unwrap(),
        vec!["alice_1".to_string(), "bobby_2".to_string()]
    );
}

#[test]
fn chat_missing_settings_read_as_nil() {
    let mut con = Store::new();
    assert!(get_chat_time_zone(&mut con, "nobody").is_err());
    assert!(get_chat_currency_conversion(&mut con, "nobody").is_err());
    assert_eq!(get_chat_users(&mut con, "nobody").unwrap(), Vec::<String>::new());
}

#[test]
fn chat_wrong_kind_of_value_is_refused() {
    let mut con = Store::new();
    con.set(&"chat:clash".to_string(), "text".to_string());
    assert!(add_chat(&mut con, "clash", "alice_1").is_err());
    assert!(get_chat_users(&mut con, "clash").is_err());
}
