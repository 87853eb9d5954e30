//! Chat records: members, payments, currencies and settings of a group
//! chat, kept in the store under keys of the form "kind:chat_id".

use vstd::prelude::*;

use crate::store::{hash_at, list_at, EntryView, Store, StoreError, StoreResult};
use crate::text::{push_char, views};

verus! {

pub const CHAT_KEY: &'static str = "chat";
pub const CHAT_PAYMENT_KEY: &'static str = "chat_payment";
pub const CHAT_CURRENCY_KEY: &'static str = "chat_currency";
pub const CHAT_SETTING_KEY: &'static str = "chat_setting";

pub const SETTING_TIME_ZONE: &'static str = "time_zone";
pub const SETTING_DEFAULT_CURRENCY: &'static str = "default_currency";
pub const SETTING_CURRENCY_CONVERSION: &'static str = "currency_conversion";
pub const SETTING_ERASE_MESSAGES: &'static str = "erase_messages";

/// The key of a record: its kind, a colon, and the id.
pub open spec fn record_key(kind: Seq<char>, id: Seq<char>) -> Seq<char> {
    kind + seq![':'] + id
}

/// Builds the key of a record.
pub fn key_for(kind: &str, id: &str) -> (r: String)
    ensures
        r@ == record_key(kind@, id@),
{
    let mut r = String::from_str(kind);
    push_char(&mut r, ':');
    r.append(id);
    r
}

/// How a flag is stored.
pub open spec fn flag_text(b: bool) -> Seq<char> {
    if b {
        seq!['1']
    } else {
        seq!['0']
    }
}

/// What appending `value` to the list under `key` does; `None` when the key
/// holds something else.
pub open spec fn pushed_back(v: Map<Seq<char>, EntryView>, key: Seq<char>, value: Seq<char>) -> Option<
    Map<Seq<char>, EntryView>,
> {
    match list_at(v, key) {
        Some(l) => Some(v.insert(key, EntryView::List(l.push(value)))),
        None => None,
    }
}

/// What setting `field` of the hash under `key` does; `None` when the key
/// holds something else.
pub open spec fn field_set(
    v: Map<Seq<char>, EntryView>,
    key: Seq<char>,
    field: Seq<char>,
    value: Seq<char>,
) -> Option<Map<Seq<char>, EntryView>> {
    match hash_at(v, key) {
        Some(h) => Some(v.insert(key, EntryView::Hash(h.insert(field, value)))),
        None => None,
    }
}

fn push_back(con: &mut Store, key: &String, value: String) -> (r: StoreResult<()>)
    requires
        old(con).wf(),
    ensures
        final(con).wf(),
        match pushed_back(old(con)@, key@, value@) {
            Some(m) => r is Ok && final(con)@ == m,
            None => r == Err::<(), _>(StoreError::WrongType) && final(con)@ == old(con)@,
        },
{
    let r = con.rpush(key, value);
    assert(seq![].push(value@) =~= seq![value@]);
    r
}

fn set_field(con: &mut Store, key: &String, field: &str, value: String) -> (r: StoreResult<()>)
    requires
        old(con).wf(),
    ensures
        final(con).wf(),
        match field_set(old(con)@, key@, field@, value@) {
            Some(m) => r is Ok && final(con)@ == m,
            None => r == Err::<(), _>(StoreError::WrongType) && final(con)@ == old(con)@,
        },
{
    let f = String::from_str(field);
    con.hset(key, &f, value)
}

fn has_field(con: &Store, key: &String, field: &str) -> (r: StoreResult<bool>)
    ensures
        match hash_at(con@, key@) {
            Some(h) => r == Ok::<bool, StoreError>(h.contains_key(field@)),
            None => r == Err::<bool, _>(StoreError::WrongType),
        },
{
    let keys = con.hkeys(key)?;
    let f = String::from_str(field);
    let mut found = false;
    for i in 0..keys.len()
        invariant
            found <==> exists|j: int| 0 <= j < i && (#[trigger] keys@[j])@ == f@,
    {
        if keys[i] == f {
            found = true;
        }
    }
    proof {
        if found {
            let j = choose|j: int| 0 <= j < keys@.len() && (#[trigger] keys@[j])@ == f@;
            assert(views(keys@)[j] == f@);
        }
        if views(keys@).contains(f@) {
            let j = choose|j: int| 0 <= j < views(keys@).len() && views(keys@)[j] == f@;
            assert(keys@[j]@ == f@);
        }
    }
    Ok(found)
}

fn field_text(con: &Store, key: &String, field: &str) -> (r: StoreResult<String>)
    ensures
        match hash_at(con@, key@) {
            Some(h) => if h.contains_key(field@) {
                r matches Ok(v) && v@ == h[field@]
            } else {
                r == Err::<String, _>(StoreError::Nil)
            },
            None => r == Err::<String, _>(StoreError::WrongType),
        },
{
    let f = String::from_str(field);
    match con.hget(key, &f)? {
        Some(v) => Ok(v),
        None => Err(StoreError::Nil),
    }
}

fn field_flag(con: &Store, key: &String, field: &str) -> (r: StoreResult<bool>)
    ensures
        match hash_at(con@, key@) {
            Some(h) => if !h.contains_key(field@) {
                r == Err::<bool, _>(StoreError::Nil)
            } else if h[field@] == flag_text(true) {
                r == Ok::<bool, StoreError>(true)
            } else if h[field@] == flag_text(false) {
                r == Ok::<bool, StoreError>(false)
            } else {
                r == Err::<bool, _>(StoreError::WrongType)
            },
            None => r == Err::<bool, _>(StoreError::WrongType),
        },
{
    let v = field_text(con, key, field)?;
    let mut one = String::new();
    push_char(&mut one, '1');
    let mut zero = String::new();
    push_char(&mut zero, '0');
    if v == one {
        Ok(true)
    } else if v == zero {
        Ok(false)
    } else {
        Err(StoreError::WrongType)
    }
}

fn flag_string(b: bool) -> (r: String)
    ensures
        r@ == flag_text(b),
{
    let mut r = String::new();
    push_char(&mut r, if b { '1' } else { '0' });
    r
}

/* Chat members */

/// Starts a chat's member list with one member (appends to it if present).
pub fn add_chat(con: &mut Store, chat_id: &str, username: &str) -> (r: StoreResult<()>)
    requires
        old(con).wf(),
    ensures
        final(con).wf(),
        match pushed_back(old(con)@, record_key(CHAT_KEY@, chat_id@), username@) {
            Some(m) => r is Ok && final(con)@ == m,
            None => r == Err::<(), _>(StoreError::WrongType) && final(con)@ == old(con)@,
        },
{
    let key = key_for(CHAT_KEY, chat_id);
    push_back(con, &key, String::from_str(username))
}

/// The members of a chat, in the order they joined.
pub fn get_chat_users(con: &mut Store, chat_id: &str) -> (r: StoreResult<Vec<String>>)
    ensures
        *final(con) == *old(con),
        match list_at(old(con)@, record_key(CHAT_KEY@, chat_id@)) {
            Some(l) => r matches Ok(v) && views(v@) == l,
            None => r == Err::<Vec<String>, _>(StoreError::WrongType),
        },
{
    let key = key_for(CHAT_KEY, chat_id);
    con.lrange(&key)
}

/// Whether the chat has a member list.
pub fn get_chat_exists(con: &mut Store, chat_id: &str) -> (r: StoreResult<bool>)
    ensures
        *final(con) == *old(con),
        r == Ok::<bool, StoreError>(old(con)@.contains_key(record_key(CHAT_KEY@, chat_id@))),
{
    let key = key_for(CHAT_KEY, chat_id);
    Ok(con.contains_key(&key))
}

fn list_contains(v: &Vec<String>, x: &String) -> (r: bool)
    ensures
        r == views(v@).contains(x@),
{
    let mut found = false;
    for i in 0..v.len()
        invariant
            found <==> exists|j: int| 0 <= j < i && (#[trigger] v@[j])@ == x@,
    {
        if v[i] == *x {
            found = true;
        }
    }
    proof {
        if found {
            let j = choose|j: int| 0 <= j < v@.len() && (#[trigger] v@[j])@ == x@;
            assert(views(v@)[j] == x@);
        }
        if views(v@).contains(x@) {
            let j = choose|j: int| 0 <= j < views(v@).len() && views(v@)[j] == x@;
            assert(v@[j]@ == x@);
        }
    }
    found
}

/// Adds a member to a chat unless already there.
pub fn add_chat_user(con: &mut Store, chat_id: &str, username: &str) -> (r: StoreResult<()>)
    requires
        old(con).wf(),
    ensures
        final(con).wf(),
        match list_at(old(con)@, record_key(CHAT_KEY@, chat_id@)) {
            Some(l) => r is Ok && final(con)@ == (if l.contains(username@) {
                old(con)@
            } else {
                old(con)@.insert(record_key(CHAT_KEY@, chat_id@), EntryView::List(l.push(username@)))
            }),
            None => r == Err::<(), _>(StoreError::WrongType) && final(con)@ == old(con)@,
        },
{
    let current = get_chat_users(con, chat_id)?;
    let user = String::from_str(username);
    if list_contains(&current, &user) {
        return Ok(());
    }
    let key = key_for(CHAT_KEY, chat_id);
    push_back(con, &key, user)
}

/// The members of `users` not in `current`, in order, repeats kept.
pub open spec fn new_members(current: Seq<Seq<char>>, users: Seq<Seq<char>>) -> Seq<Seq<char>> {
    users.filter(|u: Seq<char>| !current.contains(u))
}

/// Adds the members that are not yet in the chat, in the given order.
pub fn add_chat_user_multiple(con: &mut Store, chat_id: &str, users: Vec<String>) -> (r:
    StoreResult<()>)
    requires
        old(con).wf(),
    ensures
        final(con).wf(),
        match list_at(old(con)@, record_key(CHAT_KEY@, chat_id@)) {
            Some(l) => r is Ok && final(con)@ == (if new_members(l, views(users@)).len() == 0 {
                old(con)@
            } else {
                old(con)@.insert(
                    record_key(CHAT_KEY@, chat_id@),
                    EntryView::List(l + new_members(l, views(users@))),
                )
            }),
            None => r == Err::<(), _>(StoreError::WrongType) && final(con)@ == old(con)@,
        },
{
    let ghost v0 = con@;
    let ghost key_v = record_key(CHAT_KEY@, chat_id@);
    let current = get_chat_users(con, chat_id)?;
    let ghost l = views(current@);
    let key = key_for(CHAT_KEY, chat_id);
    let ghost uv = views(users@);
    let ghost pred = |u: Seq<char>| !l.contains(u);
    for i in 0..users.len()
        invariant
            con.wf(),
            key@ == key_v,
            uv == views(users@),
            l == views(current@),
            list_at(v0, key_v) == Some(l),
            pred == (|u: Seq<char>| !l.contains(u)),
            con@ == (if uv.take(i as int).filter(pred).len() == 0 {
                v0
            } else {
                v0.insert(key_v, EntryView::List(l + uv.take(i as int).filter(pred)))
            }),
    {
        assert(uv.take(i + 1) =~= uv.take(i as int).push(users@[i as int]@));
        proof {
            uv.take(i as int).lemma_filter_push(users@[i as int]@, pred);
        }
        if !list_contains(&current, &users[i]) {
            let ghost before = uv.take(i as int).filter(pred);
            let _ = push_back(con, &key, users[i].clone());
            assert(l + before.push(users@[i as int]@) =~= (l + before).push(users@[i as int]@));
            proof {
                if before.len() == 0 {
                    assert(l + before =~= l);
                }
            }
        }
    }
    assert(uv.take(users@.len() as int) =~= uv);
    Ok(())
}

/// Removes a chat's member list.
pub fn delete_chat(con: &mut Store, chat_id: &str) -> (r: StoreResult<()>)
    requires
        old(con).wf(),
    ensures
        final(con).wf(),
        r is Ok,
        final(con)@ == old(con)@.remove(record_key(CHAT_KEY@, chat_id@)),
{
    let key = key_for(CHAT_KEY, chat_id);
    con.del(&key);
    Ok(())
}


/* Chat payments: newest first */

/// Records a payment id at the front of the chat's payment list.
pub fn add_chat_payment(con: &mut Store, chat_id: &str, payment_id: &str) -> (r: StoreResult<()>)
    requires
        old(con).wf(),
    ensures
        final(con).wf(),
        match list_at(old(con)@, record_key(CHAT_PAYMENT_KEY@, chat_id@)) {
            Some(l) => r is Ok && final(con)@ == old(con)@.insert(
                record_key(CHAT_PAYMENT_KEY@, chat_id@),
                EntryView::List(seq![payment_id@] + l),
            ),
            None => r == Err::<(), _>(StoreError::WrongType) && final(con)@ == old(con)@,
        },
{
    let key = key_for(CHAT_PAYMENT_KEY, chat_id);
    let r = con.lpush(&key, String::from_str(payment_id));
    assert(seq![payment_id@] + seq![] =~= seq![payment_id@]);
    r
}

/// Whether the chat has any payment.
pub fn get_chat_payment_exists(con: &mut Store, chat_id: &str) -> (r: StoreResult<bool>)
    ensures
        *final(con) == *old(con),
        r == Ok::<bool, StoreError>(old(con)@.contains_key(record_key(CHAT_PAYMENT_KEY@, chat_id@))),
{
    let key = key_for(CHAT_PAYMENT_KEY, chat_id);
    Ok(con.contains_key(&key))
}

/// The chat's payment ids, newest first.
pub fn get_chat_payments(con: &mut Store, chat_id: &str) -> (r: StoreResult<Vec<String>>)
    ensures
        *final(con) == *old(con),
        match list_at(old(con)@, record_key(CHAT_PAYMENT_KEY@, chat_id@)) {
            Some(l) => r matches Ok(v) && views(v@) == l,
            None => r == Err::<Vec<String>, _>(StoreError::WrongType),
        },
{
    let key = key_for(CHAT_PAYMENT_KEY, chat_id);
    con.lrange(&key)
}

/// Removes a payment id from the chat's payment list.
pub fn delete_chat_payment(con: &mut Store, chat_id: &str, payment_id: &str) -> (r: StoreResult<()>)
    requires
        old(con).wf(),
    ensures
        final(con).wf(),
        match list_at(old(con)@, record_key(CHAT_PAYMENT_KEY@, chat_id@)) {
            Some(l) => r is Ok && final(con)@ == (if l.filter(|x: Seq<char>| x != payment_id@).len()
                == 0 {
                old(con)@.remove(record_key(CHAT_PAYMENT_KEY@, chat_id@))
            } else {
                old(con)@.insert(
                    record_key(CHAT_PAYMENT_KEY@, chat_id@),
                    EntryView::List(l.filter(|x: Seq<char>| x != payment_id@)),
                )
            }),
            None => r == Err::<(), _>(StoreError::WrongType) && final(con)@ == old(con)@,
        },
{
    let key = key_for(CHAT_PAYMENT_KEY, chat_id);
    let id = String::from_str(payment_id);
    proof {
        let k = record_key(CHAT_PAYMENT_KEY@, chat_id@);
        if !con@.contains_key(k) {
            assert(seq![].filter(|x: Seq<char>| x != payment_id@) =~= Seq::<Seq<char>>::empty());
            assert(con@.remove(k) =~= con@);
        }
    }
    con.lrem(&key, &id)
}

/// Removes all of the chat's payments.
pub fn delete_all_chat_payment(con: &mut Store, chat_id: &str) -> (r: StoreResult<()>)
    requires
        old(con).wf(),
    ensures
        final(con).wf(),
        r is Ok,
        final(con)@ == old(con)@.remove(record_key(CHAT_PAYMENT_KEY@, chat_id@)),
{
    let key = key_for(CHAT_PAYMENT_KEY, chat_id);
    con.del(&key);
    Ok(())
}

/* Chat currencies */

/// Records a currency as used in the chat.
pub fn add_chat_currency(con: &mut Store, chat_id: &str, currency: &str) -> (r: StoreResult<()>)
    requires
        old(con).wf(),
    ensures
        final(con).wf(),
        match pushed_back(old(con)@, record_key(CHAT_CURRENCY_KEY@, chat_id@), currency@) {
            Some(m) => r is Ok && final(con)@ == m,
            None => r == Err::<(), _>(StoreError::WrongType) && final(con)@ == old(con)@,
        },
{
    let key = key_for(CHAT_CURRENCY_KEY, chat_id);
    push_back(con, &key, String::from_str(currency))
}

/// The currencies used in the chat, in the order they were recorded.
pub fn get_chat_currencies(con: &mut Store, chat_id: &str) -> (r: StoreResult<Vec<String>>)
    ensures
        *final(con) == *old(con),
        match list_at(old(con)@, record_key(CHAT_CURRENCY_KEY@, chat_id@)) {
            Some(l) => r matches Ok(v) && views(v@) == l,
            None => r == Err::<Vec<String>, _>(StoreError::WrongType),
        },
{
    let key = key_for(CHAT_CURRENCY_KEY, chat_id);
    con.lrange(&key)
}

/// Removes the chat's currency list.
pub fn delete_chat_currencies(con: &mut Store, chat_id: &str) -> (r: StoreResult<()>)
    requires
        old(con).wf(),
    ensures
        final(con).wf(),
        r is Ok,
        final(con)@ == old(con)@.remove(record_key(CHAT_CURRENCY_KEY@, chat_id@)),
{
    let key = key_for(CHAT_CURRENCY_KEY, chat_id);
    con.del(&key);
    Ok(())
}

/* Chat settings */

/// Sets the chat's time zone.
pub fn set_chat_time_zone(con: &mut Store, chat_id: &str, time_zone: &str) -> (r: StoreResult<()>)
    requires
        old(con).wf(),
    ensures
        final(con).wf(),
        match field_set(old(con)@, record_key(CHAT_SETTING_KEY@, chat_id@), SETTING_TIME_ZONE@, time_zone@) {
            Some(m) => r is Ok && final(con)@ == m,
            None => r == Err::<(), _>(StoreError::WrongType) && final(con)@ == old(con)@,
        },
{
    let key = key_for(CHAT_SETTING_KEY, chat_id);
    set_field(con, &key, SETTING_TIME_ZONE, String::from_str(time_zone))
}

/// Sets the chat's default currency.
pub fn set_chat_default_currency(con: &mut Store, chat_id: &str, currency: &str) -> (r: StoreResult<()>)
    requires
        old(con).wf(),
    ensures
        final(con).wf(),
        match field_set(old(con)@, record_key(CHAT_SETTING_KEY@, chat_id@), SETTING_DEFAULT_CURRENCY@, currency@) {
            Some(m) => r is Ok && final(con)@ == m,
            None => r == Err::<(), _>(StoreError::WrongType) && final(con)@ == old(con)@,
        },
{
    let key = key_for(CHAT_SETTING_KEY, chat_id);
    set_field(con, &key, SETTING_DEFAULT_CURRENCY, String::from_str(currency))
}

/// Turns conversion of statements to the default currency on or off.
pub fn set_chat_currency_conversion(con: &mut Store, chat_id: &str, currency_conversion: bool) -> (r:
    StoreResult<()>)
    requires
        old(con).wf(),
    ensures
        final(con).wf(),
        match field_set(
            old(con)@,
            record_key(CHAT_SETTING_KEY@, chat_id@),
            SETTING_CURRENCY_CONVERSION@,
            flag_text(currency_conversion),
        ) {
            Some(m) => r is Ok && final(con)@ == m,
            None => r == Err::<(), _>(StoreError::WrongType) && final(con)@ == old(con)@,
        },
{
    let key = key_for(CHAT_SETTING_KEY, chat_id);
    set_field(con, &key, SETTING_CURRENCY_CONVERSION, flag_string(currency_conversion))
}

/// Turns erasing of the bot's messages on or off.
pub fn set_chat_erase_messages(con: &mut Store, chat_id: &str, erase_messages: bool) -> (r:
    StoreResult<()>)
    requires
        old(con).wf(),
    ensures
        final(con).wf(),
        match field_set(
            old(con)@,
            record_key(CHAT_SETTING_KEY@, chat_id@),
            SETTING_ERASE_MESSAGES@,
            flag_text(erase_messages),
        ) {
            Some(m) => r is Ok && final(con)@ == m,
            None => r == Err::<(), _>(StoreError::WrongType) && final(con)@ == old(con)@,
        },
{
    let key = key_for(CHAT_SETTING_KEY, chat_id);
    set_field(con, &key, SETTING_ERASE_MESSAGES, flag_string(erase_messages))
}

/// Whether the chat has a time zone set.
pub fn is_exists_chat_time_zone(con: &mut Store, chat_id: &str) -> (r: StoreResult<bool>)
    ensures
        *final(con) == *old(con),
        match hash_at(old(con)@, record_key(CHAT_SETTING_KEY@, chat_id@)) {
            Some(h) => r == Ok::<bool, StoreError>(h.contains_key(SETTING_TIME_ZONE@)),
            None => r == Err::<bool, _>(StoreError::WrongType),
        },
{
    let key = key_for(CHAT_SETTING_KEY, chat_id);
    has_field(con, &key, SETTING_TIME_ZONE)
}

/// Whether the chat has a default currency set.
pub fn is_exists_chat_default_currency(con: &mut Store, chat_id: &str) -> (r: StoreResult<bool>)
    ensures
        *final(con) == *old(con),
        match hash_at(old(con)@, record_key(CHAT_SETTING_KEY@, chat_id@)) {
            Some(h) => r == Ok::<bool, StoreError>(h.contains_key(SETTING_DEFAULT_CURRENCY@)),
            None => r == Err::<bool, _>(StoreError::WrongType),
        },
{
    let key = key_for(CHAT_SETTING_KEY, chat_id);
    has_field(con, &key, SETTING_DEFAULT_CURRENCY)
}

/// Whether the chat has the conversion setting.
pub fn is_exists_chat_currency_conversion(con: &mut Store, chat_id: &str) -> (r: StoreResult<bool>)
    ensures
        *final(con) == *old(con),
        match hash_at(old(con)@, record_key(CHAT_SETTING_KEY@, chat_id@)) {
            Some(h) => r == Ok::<bool, StoreError>(h.contains_key(SETTING_CURRENCY_CONVERSION@)),
            None => r == Err::<bool, _>(StoreError::WrongType),
        },
{
    let key = key_for(CHAT_SETTING_KEY, chat_id);
    has_field(con, &key, SETTING_CURRENCY_CONVERSION)
}

/// Whether the chat has the erase-messages setting.
pub fn is_exists_chat_erase_messages(con: &mut Store, chat_id: &str) -> (r: StoreResult<bool>)
    ensures
        *final(con) == *old(con),
        match hash_at(old(con)@, record_key(CHAT_SETTING_KEY@, chat_id@)) {
            Some(h) => r == Ok::<bool, StoreError>(h.contains_key(SETTING_ERASE_MESSAGES@)),
            None => r == Err::<bool, _>(StoreError::WrongType),
        },
{
    let key = key_for(CHAT_SETTING_KEY, chat_id);
    has_field(con, &key, SETTING_ERASE_MESSAGES)
}

/// The chat's time zone; `Nil` when none is set.
pub fn get_chat_time_zone(con: &mut Store, chat_id: &str) -> (r: StoreResult<String>)
    ensures
        *final(con) == *old(con),
        match hash_at(old(con)@, record_key(CHAT_SETTING_KEY@, chat_id@)) {
            Some(h) => if h.contains_key(SETTING_TIME_ZONE@) {
                r matches Ok(v) && v@ == h[SETTING_TIME_ZONE@]
            } else {
                r == Err::<String, _>(StoreError::Nil)
            },
            None => r == Err::<String, _>(StoreError::WrongType),
        },
{
    let key = key_for(CHAT_SETTING_KEY, chat_id);
    field_text(con, &key, SETTING_TIME_ZONE)
}

/// The chat's default currency code; `Nil` when none is set.
pub fn get_chat_default_currency(con: &mut Store, chat_id: &str) -> (r: StoreResult<String>)
    ensures
        *final(con) == *old(con),
        match hash_at(old(con)@, record_key(CHAT_SETTING_KEY@, chat_id@)) {
            Some(h) => if h.contains_key(SETTING_DEFAULT_CURRENCY@) {
                r matches Ok(v) && v@ == h[SETTING_DEFAULT_CURRENCY@]
            } else {
                r == Err::<String, _>(StoreError::Nil)
            },
            None => r == Err::<String, _>(StoreError::WrongType),
        },
{
    let key = key_for(CHAT_SETTING_KEY, chat_id);
    field_text(con, &key, SETTING_DEFAULT_CURRENCY)
}

/// Whether statements are converted to the default currency; `Nil` when the
/// setting is absent.
pub fn get_chat_currency_conversion(con: &mut Store, chat_id: &str) -> (r: StoreResult<bool>)
    ensures
        *final(con) == *old(con),
        match hash_at(old(con)@, record_key(CHAT_SETTING_KEY@, chat_id@)) {
            Some(h) => if !h.contains_key(SETTING_CURRENCY_CONVERSION@) {
                r == Err::<bool, _>(StoreError::Nil)
            } else if h[SETTING_CURRENCY_CONVERSION@] == flag_text(true) {
                r == Ok::<bool, StoreError>(true)
            } else if h[SETTING_CURRENCY_CONVERSION@] == flag_text(false) {
                r == Ok::<bool, StoreError>(false)
            } else {
                r == Err::<bool, _>(StoreError::WrongType)
            },
            None => r == Err::<bool, _>(StoreError::WrongType),
        },
{
    let key = key_for(CHAT_SETTING_KEY, chat_id);
    field_flag(con, &key, SETTING_CURRENCY_CONVERSION)
}

/// Whether the bot's messages are erased; `Nil` when the setting is absent.
pub fn get_chat_erase_messages(con: &mut Store, chat_id: &str) -> (r: StoreResult<bool>)
    ensures
        *final(con) == *old(con),
        match hash_at(old(con)@, record_key(CHAT_SETTING_KEY@, chat_id@)) {
            Some(h) => if !h.contains_key(SETTING_ERASE_MESSAGES@) {
                r == Err::<bool, _>(StoreError::Nil)
            } else if h[SETTING_ERASE_MESSAGES@] == flag_text(true) {
                r == Ok::<bool, StoreError>(true)
            } else if h[SETTING_ERASE_MESSAGES@] == flag_text(false) {
                r == Ok::<bool, StoreError>(false)
            } else {
                r == Err::<bool, _>(StoreError::WrongType)
            },
            None => r == Err::<bool, _>(StoreError::WrongType),
        },
{
    let key = key_for(CHAT_SETTING_KEY, chat_id);
    field_flag(con, &key, SETTING_ERASE_MESSAGES)
}

/// Removes all of the chat's settings.
pub fn delete_chat_settings(con: &mut Store, chat_id: &str) -> (r: StoreResult<()>)
    requires
        old(con).wf(),
    ensures
        final(con).wf(),
        r is Ok,
        final(con)@ == old(con)@.remove(record_key(CHAT_SETTING_KEY@, chat_id@)),
{
    let key = key_for(CHAT_SETTING_KEY, chat_id);
    con.del(&key);
    Ok(())
}

} // verus!
