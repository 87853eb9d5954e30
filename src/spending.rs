//! Spendings: what each member of a chat has spent in each currency, kept
//! in the store as a decimal number.

use vstd::prelude::*;

use crate::amounts::{all_digits, digits_value};
use crate::chat::record_key;
use crate::store::{EntryView, Store, StoreError, StoreResult};
use crate::text::{chars_of, digits_of, nat_digits, string_from_chars};

verus! {

pub const EXPENSE_KEY: &'static str = "expense";

/// The key of a member's spending: "expense:chat:user:currency".
pub open spec fn spending_key(chat_id: Seq<char>, user_id: Seq<char>, currency: Seq<char>) -> Seq<
    char,
> {
    record_key(record_key(record_key(EXPENSE_KEY@, chat_id), user_id), currency)
}

fn spending_key_for(chat_id: &str, user_id: &str, currency: &str) -> (r: String)
    ensures
        r@ == spending_key(chat_id@, user_id@, currency@),
{
    let a = crate::chat::key_for(EXPENSE_KEY, chat_id);
    let b = crate::chat::key_for(a.as_str(), user_id);
    crate::chat::key_for(b.as_str(), currency)
}

/// A decimal number that fits in `u64`.
pub open spec fn is_u64_text(t: Seq<char>) -> bool {
    t.len() > 0 && all_digits(t) && digits_value(t) <= u64::MAX
}

/// Reads a decimal number that fits in `u64`.
fn parse_u64(t: &String) -> (r: Option<u64>)
    ensures
        match r {
            Some(n) => is_u64_text(t@) && n == digits_value(t@),
            None => !is_u64_text(t@),
        },
{
    let cs = chars_of(t.as_str());
    if cs.len() == 0 {
        return None;
    }
    let mut acc: u64 = 0;
    for i in 0..cs.len()
        invariant
            cs@ == t@,
            forall|j: int| 0 <= j < i ==> '0' <= #[trigger] cs@[j] <= '9',
            acc == digits_value(cs@.take(i as int)),
    {
        assert(cs@.take(i + 1).drop_last() =~= cs@.take(i as int));
        let c = cs[i];
        if !('0' <= c && c <= '9') {
            assert(!all_digits(t@) || !('0' <= t@[i as int] <= '9'));
            return None;
        }
        let d = (c as u32 - '0' as u32) as u64;
        if acc > (u64::MAX - d) / 10 {
            proof {
                if all_digits(cs@) {
                    lemma_digits_prefix_bound(cs@, (i + 1) as int);
                    assert(acc * 10 + d > u64::MAX) by (nonlinear_arith)
                        requires
                            acc > (u64::MAX - d) / 10,
                            0 <= d <= 9,
                    ;
                }
            }
            return None;
        }
        acc = acc * 10 + d;
    }
    assert(cs@.take(cs@.len() as int) =~= cs@);
    Some(acc)
}

proof fn lemma_digits_prefix_bound(s: Seq<char>, n: int)
    requires
        0 <= n <= s.len(),
        all_digits(s),
    ensures
        digits_value(s.take(n)) <= digits_value(s),
    decreases s.len(),
{
    lemma_digits_nonneg(s);
    if n < s.len() {
        assert(s.drop_last().take(n) =~= s.take(n));
        assert(all_digits(s.drop_last()));
        lemma_digits_prefix_bound(s.drop_last(), n);
        lemma_digits_nonneg(s.drop_last());
    } else {
        assert(s.take(n) =~= s);
    }
}

proof fn lemma_digits_nonneg(s: Seq<char>)
    requires
        all_digits(s),
    ensures
        digits_value(s) >= 0,
    decreases s.len(),
{
    if s.len() > 0 {
        assert(all_digits(s.drop_last()));
        lemma_digits_nonneg(s.drop_last());
    }
}

/// Stores a member's spending in a currency.
pub fn set_spending(con: &mut Store, chat_id: &str, user_id: &str, currency: &str, spending: u64) -> (r:
    StoreResult<()>)
    requires
        old(con).wf(),
    ensures
        final(con).wf(),
        r is Ok,
        final(con)@ == old(con)@.insert(
            spending_key(chat_id@, user_id@, currency@),
            EntryView::Text(nat_digits(spending as nat)),
        ),
{
    let key = spending_key_for(chat_id, user_id, currency);
    let digits = digits_of(spending);
    con.set(&key, string_from_chars(&digits));
    Ok(())
}

/// Whether a spending is stored for the member and currency.
pub fn get_spending_exists(con: &mut Store, chat_id: &str, user_id: &str, currency: &str) -> (r:
    StoreResult<bool>)
    ensures
        *final(con) == *old(con),
        r == Ok::<bool, StoreError>(old(con)@.contains_key(spending_key(chat_id@, user_id@, currency@))),
{
    let key = spending_key_for(chat_id, user_id, currency);
    Ok(con.contains_key(&key))
}

/// A member's spending in a currency; `Nil` when none is stored.
pub fn get_spending(con: &mut Store, chat_id: &str, user_id: &str, currency: &str) -> (r: StoreResult<
    u64,
>)
    ensures
        *final(con) == *old(con),
        match old(con)@.get(spending_key(chat_id@, user_id@, currency@)) {
            None => r == Err::<u64, _>(StoreError::Nil),
            Some(EntryView::Text(t)) => if is_u64_text(t) {
                r == Ok::<u64, StoreError>(digits_value(t) as u64)
            } else {
                r == Err::<u64, _>(StoreError::WrongType)
            },
            Some(_) => r == Err::<u64, _>(StoreError::WrongType),
        },
{
    let key = spending_key_for(chat_id, user_id, currency);
    match con.get(&key)? {
        None => Err(StoreError::Nil),
        Some(t) => match parse_u64(&t) {
            Some(n) => Ok(n),
            None => Err(StoreError::WrongType),
        },
    }
}

/// Removes a member's spending in a currency.
pub fn delete_spending(con: &mut Store, chat_id: &str, user_id: &str, currency: &str) -> (r:
    StoreResult<()>)
    requires
        old(con).wf(),
    ensures
        final(con).wf(),
        r is Ok,
        final(con)@ == old(con)@.remove(spending_key(chat_id@, user_id@, currency@)),
{
    let key = spending_key_for(chat_id, user_id, currency);
    con.del(&key);
    Ok(())
}

} // verus!
