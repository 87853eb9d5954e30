//! Display of amounts and balances, and usernames.

use vstd::prelude::*;

use crate::balance::Debt;
use crate::chat::{record_key, CHAT_SETTING_KEY, SETTING_CURRENCY_CONVERSION, SETTING_DEFAULT_CURRENCY};
use crate::currency::{
    currency_of, currency_view, get_currency_from_code, get_default_currency, upper_of, Currency,
    CURRENCY_CODE_DEFAULT, CURRENCY_DECIMALS_DEFAULT,
};
use crate::error::LedgerError;
use crate::store::{hash_at, Store};
use crate::text::{chars_of, digits_of, lower_of, lowercase, nat_digits, push_char, string_from_chars};

verus! {

/// Looks up a currency by its code, in any letter case.
pub fn get_currency(code: &str) -> (r: Result<Currency, LedgerError>)
    ensures
        match r {
            Ok(c) => currency_of(upper_of(code@)) == Some(currency_view(c)) && 0 <= c.1 <= 9,
            Err(e) => currency_of(upper_of(code@)) is None && e == LedgerError::UnknownCurrency,
        },
{
    match get_currency_from_code(code) {
        Some(c) => Ok(c),
        None => Err(LedgerError::UnknownCurrency),
    }
}


/// An ASCII letter, digit or underscore.
pub open spec fn is_word_char(c: char) -> bool {
    ('a' <= c <= 'z') || ('A' <= c <= 'Z') || ('0' <= c <= '9') || c == '_'
}

/// One or more ASCII letters, digits or underscores.
pub open spec fn is_word_text(s: Seq<char>) -> bool {
    s.len() > 0 && forall|i: int| 0 <= i < s.len() ==> is_word_char(#[trigger] s[i])
}

/// Relies on `regex::Regex::is_match` with the pattern `^[a-zA-Z0-9_]+$`,
/// which matches exactly the texts of one or more ASCII letters, digits or
/// underscores.
#[verifier::external_body]
fn matches_word_pattern(text: &str) -> (r: bool)
    ensures
        r == is_word_text(text@),
{
    match regex::Regex::new(r"^[a-zA-Z0-9_]+$") {
        Ok(re) => re.is_match(text),
        Err(_) => false,
    }
}

/// The text without its leading '@' characters.
pub open spec fn strip_at(s: Seq<char>) -> Seq<char>
    decreases s.len(),
{
    if s.len() > 0 && s[0] == '@' {
        strip_at(s.drop_first())
    } else {
        s
    }
}

/// What reading a username gives: the name without leading '@', which must be
/// at least five letters, digits or underscores.
pub open spec fn username_outcome(t: Seq<char>) -> Result<Seq<char>, LedgerError> {
    let u = strip_at(t);
    if is_word_text(u) && u.len() >= 5 {
        Ok(u)
    } else {
        Err(LedgerError::InvalidUsername)
    }
}

/// Reads a username, with or without leading '@'.
pub fn parse_username(username: &str) -> (r: Result<String, LedgerError>)
    ensures
        match r {
            Ok(u) => username_outcome(username@) == Ok::<_, LedgerError>(u@),
            Err(e) => username_outcome(username@) == Err::<Seq<char>, _>(e),
        },
{
    let cs = chars_of(username);
    let n = cs.len();
    let mut i: usize = 0;
    assert(cs@.skip(0) =~= cs@);
    while i < n && cs[i] == '@'
        invariant
            cs@ == username@,
            n == cs@.len(),
            i <= n,
            strip_at(username@) == strip_at(cs@.skip(i as int)),
        decreases n - i,
    {
        assert(cs@.skip(i as int).drop_first() =~= cs@.skip(i + 1));
        i = i + 1;
    }
    let text = username.substring_char(i, n);
    assert(text@ =~= cs@.skip(i as int));
    assert(strip_at(text@) == text@);
    if matches_word_pattern(text) && n - i >= 5 {
        Ok(String::from_str(text))
    } else {
        Err(LedgerError::InvalidUsername)
    }
}

/// A username shown with its leading '@'.
pub open spec fn username_text(u: Seq<char>) -> Seq<char> {
    seq!['@'] + u
}

/// Shows a username with a leading '@'.
pub fn display_username(username: &str) -> (r: String)
    ensures
        r@ == username_text(username@),
{
    let mut r = String::new();
    push_char(&mut r, '@');
    r.append(username);
    r
}

pub open spec fn abs_nat(a: int) -> nat {
    if a < 0 {
        (-a) as nat
    } else {
        a as nat
    }
}

pub open spec fn sign_text(a: int) -> Seq<char> {
    if a < 0 {
        seq!['-']
    } else {
        seq![]
    }
}

/// `s` with zeros in front up to width `w`.
pub open spec fn left_pad(s: Seq<char>, w: nat) -> Seq<char> {
    if s.len() >= w {
        s
    } else {
        Seq::new((w - s.len()) as nat, |i: int| '0') + s
    }
}

/// An amount of minor units written in major units with `d` decimals; zero
/// is written "0".
pub open spec fn amount_text(a: int, d: nat) -> Seq<char> {
    if d == 0 || a == 0 {
        sign_text(a) + nat_digits(abs_nat(a))
    } else {
        let s = left_pad(nat_digits(abs_nat(a)), d + 1);
        sign_text(a) + s.take(s.len() - d) + seq!['.'] + s.skip(s.len() - d)
    }
}

/// Writes an amount of minor units in major units, with the currency's
/// number of decimals.
pub fn display_amount(amount: i64, decimal_places: i32) -> (r: String)
    requires
        decimal_places >= 0,
    ensures
        r@ == amount_text(amount as int, decimal_places as nat),
{
    let ghost a = amount as int;
    let ghost d = decimal_places as nat;
    let m: u64 = if amount < 0 {
        (0i128 - amount as i128) as u64
    } else {
        amount as u64
    };
    assert(m == abs_nat(a));
    let digits = digits_of(m);
    let mut out: Vec<char> = Vec::new();
    if amount < 0 {
        out.push('-');
    }
    assert(out@ == sign_text(a));
    if decimal_places == 0 || amount == 0 {
        extend_chars(&mut out, &digits, 0, digits.len());
        assert(digits@.subrange(0, digits@.len() as int) =~= digits@);
        return string_from_chars(&out);
    }
    let w = decimal_places as usize + 1;
    let mut padded: Vec<char> = Vec::new();
    if digits.len() < w {
        let z = w - digits.len();
        let mut k: usize = 0;
        while k < z
            invariant
                k <= z,
                padded@ == Seq::new(k as nat, |i: int| '0'),
            decreases z - k,
        {
            padded.push('0');
            k = k + 1;
            assert(padded@ =~= Seq::new(k as nat, |i: int| '0'));
        }
    }
    extend_chars(&mut padded, &digits, 0, digits.len());
    assert(digits@.subrange(0, digits@.len() as int) =~= digits@);
    let ghost s = left_pad(nat_digits(abs_nat(a)), d + 1);
    assert(padded@ =~= s);
    let cut = padded.len() - decimal_places as usize;
    extend_chars(&mut out, &padded, 0, cut);
    out.push('.');
    extend_chars(&mut out, &padded, cut, padded.len());
    assert(out@ =~= amount_text(a, d));
    string_from_chars(&out)
}

/// Appends `s[from..to]` to `v`.
fn extend_chars(v: &mut Vec<char>, s: &Vec<char>, from: usize, to: usize)
    requires
        from <= to <= s@.len(),
    ensures
        final(v)@ == old(v)@ + s@.subrange(from as int, to as int),
{
    let mut i = from;
    while i < to
        invariant
            from <= i <= to <= s@.len(),
            v@ == old(v)@ + s@.subrange(from as int, i as int),
        decreases to - i,
    {
        v.push(s[i]);
        i = i + 1;
        assert(v@ =~= old(v)@ + s@.subrange(from as int, i as int));
    }
}

/// An amount with its currency code; the placeholder currency shows no code.
pub open spec fn currency_amount_text(a: int, code: Seq<char>, d: nat) -> Seq<char> {
    if code == CURRENCY_CODE_DEFAULT@ {
        amount_text(a, d)
    } else {
        amount_text(a, d) + seq![' '] + code
    }
}

/// Shows an amount together with its currency code.
pub fn display_currency_amount(amount: i64, currency: Currency) -> (r: String)
    requires
        currency.1 >= 0,
    ensures
        r@ == currency_amount_text(amount as int, currency.0@, currency.1 as nat),
{
    let mut r = display_amount(amount, currency.1);
    if currency.0 == String::from_str(CURRENCY_CODE_DEFAULT) {
        r
    } else {
        push_char(&mut r, ' ');
        r.append(currency.0.as_str());
        r
    }
}

/// The lines showing each debtor's share, in order.
pub open spec fn debts_text(debts: Seq<(String, i64)>, d: nat) -> Seq<char>
    decreases debts.len(),
{
    if debts.len() == 0 {
        seq![]
    } else {
        let last = debts.last();
        debts_text(debts.drop_last(), d) + "    "@ + username_text(last.0@) + ": "@
            + amount_text(last.1 as int, d) + seq!['\n']
    }
}

/// Shows the shares of a payment, one per line.
pub fn display_debts(debts: &Vec<(String, i64)>, decimal_places: i32) -> (r: String)
    requires
        decimal_places >= 0,
    ensures
        r@ == debts_text(debts@, decimal_places as nat),
{
    let mut message = String::new();
    for i in 0..debts.len()
        invariant
            decimal_places >= 0,
            message@ == debts_text(debts@.take(i as int), decimal_places as nat),
    {
        assert(debts@.take(i + 1).drop_last() =~= debts@.take(i as int));
        message.append("    ");
        let name = display_username(debts[i].0.as_str());
        message.append(name.as_str());
        message.append(": ");
        let amt = display_amount(debts[i].1, decimal_places);
        message.append(amt.as_str());
        push_char(&mut message, '\n');
    }
    assert(debts@.take(debts@.len() as int) =~= debts@);
    message
}


/// Two usernames name the same member when they agree after lower-casing.
pub open spec fn same_username(a: Seq<char>, b: Seq<char>) -> bool {
    lower_of(a) == lower_of(b)
}

/// Whether two usernames name the same member, ignoring letter case.
pub fn is_username_equal(a: &str, b: &str) -> (r: bool)
    ensures
        r == same_username(a@, b@),
{
    lowercase(a) == lowercase(b)
}


/// The default currency code set for a chat, if any.
pub open spec fn default_code_setting(v: Map<Seq<char>, crate::store::EntryView>, chat_id: Seq<char>) -> Option<
    Seq<char>,
> {
    match hash_at(v, record_key(CHAT_SETTING_KEY@, chat_id)) {
        Some(h) => if h.contains_key(SETTING_DEFAULT_CURRENCY@) {
            Some(h[SETTING_DEFAULT_CURRENCY@])
        } else {
            None
        },
        None => None,
    }
}

/// Whether a chat has conversion of statements turned on.
pub open spec fn conversion_setting(v: Map<Seq<char>, crate::store::EntryView>, chat_id: Seq<char>) -> bool {
    match hash_at(v, record_key(CHAT_SETTING_KEY@, chat_id)) {
        Some(h) => h.contains_key(SETTING_CURRENCY_CONVERSION@) && h[SETTING_CURRENCY_CONVERSION@]
            == seq!['1'],
        None => false,
    }
}

/// The chat's default currency as (code, decimals): the placeholder when none
/// is set or its code is unknown.
pub open spec fn chat_currency(v: Map<Seq<char>, crate::store::EntryView>, chat_id: Seq<char>) -> (
    Seq<char>,
    int,
) {
    match default_code_setting(v, chat_id) {
        Some(code) => match currency_of(upper_of(code)) {
            Some(c) => c,
            None => (CURRENCY_CODE_DEFAULT@, CURRENCY_DECIMALS_DEFAULT as int),
        },
        None => (CURRENCY_CODE_DEFAULT@, CURRENCY_DECIMALS_DEFAULT as int),
    }
}

/// The chat's default currency; the placeholder when none is set or it is
/// unknown.
pub fn get_chat_default_currency(con: &mut Store, chat_id: &str) -> (r: Currency)
    ensures
        *final(con) == *old(con),
        currency_view(r) == chat_currency(old(con)@, chat_id@),
        0 <= r.1 <= 9,
{
    match crate::chat::get_chat_default_currency(con, chat_id) {
        Ok(code) => match get_currency(code.as_str()) {
            Ok(c) => c,
            Err(_) => get_default_currency(),
        },
        Err(_) => get_default_currency(),
    }
}

/// The currency to show a payment in: its own, or the chat's default when
/// it has the placeholder currency.
pub fn use_currency(currency: Currency, con: &mut Store, chat_id: &str) -> (r: Currency)
    ensures
        *final(con) == *old(con),
        currency_view(r) == (if currency.0@ == CURRENCY_CODE_DEFAULT@ {
            chat_currency(old(con)@, chat_id@)
        } else {
            currency_view(currency)
        }),
{
    let default_currency = get_chat_default_currency(con, chat_id);
    if currency.0 == String::from_str(CURRENCY_CODE_DEFAULT) {
        default_currency
    } else {
        currency
    }
}

/// The header above a statement of balances.
pub open spec fn header_text(conversion: bool, default_code: Seq<char>, currency: Seq<char>) -> Seq<
    char,
> {
    if conversion {
        "Updated balances, all converted to "@ + default_code + "!\n\n"@
    } else if currency == CURRENCY_CODE_DEFAULT@ {
        if default_code != CURRENCY_CODE_DEFAULT@ {
            "Updated balances in "@ + default_code + "!\n\n"@
        } else {
            "Updated balances!\n\n"@
        }
    } else {
        "Updated balances in "@ + currency + "!\n\n"@
    }
}

/// Shows the header for a statement in `currency`, following the chat's
/// settings.
pub fn display_balance_header(con: &mut Store, chat_id: &str, currency: &str) -> (r: String)
    ensures
        *final(con) == *old(con),
        r@ == header_text(
            conversion_setting(old(con)@, chat_id@),
            match default_code_setting(old(con)@, chat_id@) {
                Some(c) => c,
                None => CURRENCY_CODE_DEFAULT@,
            },
            currency@,
        ),
{
    let conversion = match crate::chat::get_chat_currency_conversion(con, chat_id) {
        Ok(v) => v,
        Err(_) => false,
    };
    let default_currency = match crate::chat::get_chat_default_currency(con, chat_id) {
        Ok(c) => c,
        Err(_) => String::from_str(CURRENCY_CODE_DEFAULT),
    };
    let nil = String::from_str(CURRENCY_CODE_DEFAULT);
    let cur = String::from_str(currency);
    let mut r = String::new();
    if conversion {
        r.append("Updated balances, all converted to ");
        r.append(default_currency.as_str());
        r.append("!\n\n");
    } else if cur == nil {
        if default_currency != nil {
            r.append("Updated balances in ");
            r.append(default_currency.as_str());
            r.append("!\n\n");
        } else {
            r.append("Updated balances!\n\n");
        }
    } else {
        r.append("Updated balances in ");
        r.append(currency);
        r.append("!\n\n");
    }
    r
}

/// One line of a statement: who owes whom how much.
pub open spec fn balance_line(d: Debt, decimals: int) -> Seq<char> {
    username_text(d.debtor@) + " owes "@ + username_text(d.creditor@) + ": "@ + amount_text(
        d.amount as int,
        decimals as nat,
    ) + seq!['\n']
}

/// The lines of a statement; a balance in an unknown currency is left out.
pub open spec fn balance_lines(ds: Seq<Debt>) -> Seq<char>
    decreases ds.len(),
{
    if ds.len() == 0 {
        seq![]
    } else {
        balance_lines(ds.drop_last()) + match currency_of(upper_of(ds.last().currency@)) {
            Some(c) => balance_line(ds.last(), c.1),
            None => seq![],
        }
    }
}

/// Shows the balances, one line each, or a note that there are none.
pub fn display_balances(debts: &Vec<Debt>) -> (r: String)
    ensures
        r@ == (if debts@.len() == 0 {
            "No outstanding balances! 🥳\n"@
        } else {
            balance_lines(debts@)
        }),
{
    if debts.len() == 0 {
        return String::from_str("No outstanding balances! 🥳\n");
    }
    let mut message = String::new();
    for i in 0..debts.len()
        invariant
            message@ == balance_lines(debts@.take(i as int)),
    {
        let ghost d = debts@[i as int];
        assert(debts@.take(i + 1).drop_last() =~= debts@.take(i as int));
        assert(debts@.take(i + 1).last() == d);
        match get_currency(debts[i].currency.as_str()) {
            Ok(currency) => {
                let debtor = display_username(debts[i].debtor.as_str());
                let creditor = display_username(debts[i].creditor.as_str());
                let amount = display_amount(debts[i].amount, currency.1);
                message.append(debtor.as_str());
                message.append(" owes ");
                message.append(creditor.as_str());
                message.append(": ");
                message.append(amount.as_str());
                push_char(&mut message, '\n');
                assert(message@ =~= balance_lines(debts@.take(i as int)) + balance_line(d, currency.1 as int));
            },
            Err(_) => {
                assert(balance_lines(debts@.take(i as int)) + seq![] =~= balance_lines(debts@.take(i as int)));
            },
        }
    }
    assert(debts@.take(debts@.len() as int) =~= debts@);
    message
}

} // verus!
