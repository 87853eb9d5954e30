//! Amounts: decimal text to integer minor units.

use vstd::prelude::*;

use crate::currency::{
    currency_of, currency_view, digit_val, get_default_currency, upper_of, Currency,
    CURRENCY_CODE_DEFAULT, CURRENCY_DECIMALS_DEFAULT,
};
use crate::error::LedgerError;
use crate::format::get_currency;
use crate::text::{chars_of, split_words, words};

verus! {

/// The largest amount, in minor units, that the ledger accepts.
pub const MAX_VALUE: i64 = 1_000_000_000_000_000;

pub open spec fn is_digit(c: char) -> bool {
    '0' <= c <= '9'
}

pub open spec fn all_digits(s: Seq<char>) -> bool {
    forall|i: int| 0 <= i < s.len() ==> is_digit(#[trigger] s[i])
}

/// The number that a string of decimal digits writes.
pub open spec fn digits_value(s: Seq<char>) -> int
    decreases s.len(),
{
    if s.len() == 0 {
        0
    } else {
        digits_value(s.drop_last()) * 10 + digit_val(s.last())
    }
}

/// Length of the leading sign, if any.
pub open spec fn sign_len(t: Seq<char>) -> int {
    if t.len() > 0 && (t[0] == '+' || t[0] == '-') {
        1
    } else {
        0
    }
}

pub open spec fn is_negative_text(t: Seq<char>) -> bool {
    t.len() > 0 && t[0] == '-'
}

/// The text after its sign.
pub open spec fn number_body(t: Seq<char>) -> Seq<char> {
    t.skip(sign_len(t))
}

/// Index of the first '.' in `b`, or its length when there is none.
pub open spec fn dot_pos(b: Seq<char>) -> int
    decreases b.len(),
{
    if b.len() == 0 || b[0] == '.' {
        0
    } else {
        1 + dot_pos(b.drop_first())
    }
}

pub open spec fn int_digits(b: Seq<char>) -> Seq<char> {
    b.take(dot_pos(b))
}

pub open spec fn frac_digits(b: Seq<char>) -> Seq<char> {
    if dot_pos(b) < b.len() {
        b.skip(dot_pos(b) + 1)
    } else {
        seq![]
    }
}

/// An optional sign, digits, and optionally a point and more digits, with at
/// least one digit in all.
pub open spec fn is_number_text(t: Seq<char>) -> bool {
    let b = number_body(t);
    &&& all_digits(int_digits(b))
    &&& all_digits(frac_digits(b))
    &&& int_digits(b).len() + frac_digits(b).len() > 0
}

/// The first `d` fraction digits, filled up with zeros.
pub open spec fn padded_frac(f: Seq<char>, d: nat) -> Seq<char> {
    Seq::new(d, |i: int| if i < f.len() { f[i] } else { '0' })
}

/// One more minor unit when the first dropped digit is 5 or more
/// (rounding half away from zero).
pub open spec fn round_up_digit(f: Seq<char>, d: nat) -> int {
    if f.len() > d && digit_val(f[d as int]) >= 5 {
        1
    } else {
        0
    }
}

/// The size of the amount in minor units, rounded half away from zero.
pub open spec fn scaled_magnitude(t: Seq<char>, d: nat) -> int {
    let b = number_body(t);
    digits_value(int_digits(b) + padded_frac(frac_digits(b), d)) + round_up_digit(
        frac_digits(b),
        d,
    )
}

/// The amount in minor units, with its sign.
pub open spec fn scaled_amount(t: Seq<char>, d: nat) -> int {
    if is_negative_text(t) {
        -scaled_magnitude(t, d)
    } else {
        scaled_magnitude(t, d)
    }
}

/// What reading `t` as an amount with `d` decimal places gives.
pub open spec fn amount_outcome(t: Seq<char>, d: nat) -> Result<i64, LedgerError> {
    if !is_number_text(t) {
        Err(LedgerError::InvalidAmount)
    } else if scaled_amount(t, d) > MAX_VALUE {
        Err(LedgerError::AmountTooLarge)
    } else if scaled_amount(t, d) <= 0 {
        Err(LedgerError::NonPositiveAmount)
    } else {
        Ok(scaled_amount(t, d) as i64)
    }
}

proof fn lemma_dot_pos_bounds(b: Seq<char>)
    ensures
        0 <= dot_pos(b) <= b.len(),
        dot_pos(b) < b.len() ==> b[dot_pos(b)] == '.',
        forall|i: int| 0 <= i < dot_pos(b) ==> b[i] != '.',
    decreases b.len(),
{
    if b.len() > 0 && b[0] != '.' {
        lemma_dot_pos_bounds(b.drop_first());
        assert forall|i: int| 0 <= i < dot_pos(b) implies b[i] != '.' by {
            if i > 0 {
                assert(b[i] == b.drop_first()[i - 1]);
            }
        }
    }
}

proof fn lemma_dot_pos_unique(b: Seq<char>, q: int)
    requires
        0 <= q <= b.len(),
        q < b.len() ==> b[q] == '.',
        forall|i: int| 0 <= i < q ==> b[i] != '.',
    ensures
        dot_pos(b) == q,
    decreases b.len(),
{
    if q > 0 {
        assert(b[0] != '.');
        let c = b.drop_first();
        assert forall|i: int| 0 <= i < q - 1 implies c[i] != '.' by {
            assert(c[i] == b[i + 1]);
        }
        if q - 1 < c.len() {
            assert(c[q - 1] == b[q]);
        }
        lemma_dot_pos_unique(c, q - 1);
    }
}

/// Ten to the power `k`.
pub open spec fn pow10(k: nat) -> int
    decreases k,
{
    if k == 0 {
        1
    } else {
        10 * pow10((k - 1) as nat)
    }
}

/// Checks the number syntax of `cs`; on success gives its sign and where
/// its integer digits (`p..q`) and fraction digits (after `q`) stand.
fn scan_number(cs: &Vec<char>) -> (r: Option<(bool, usize, usize)>)
    ensures
        match r {
            Some((neg, p, q)) => {
                &&& is_number_text(cs@)
                &&& neg == is_negative_text(cs@)
                &&& p <= q <= cs@.len()
                &&& int_digits(number_body(cs@)) == cs@.subrange(p as int, q as int)
                &&& frac_digits(number_body(cs@)) == (if q < cs@.len() {
                    cs@.subrange(q + 1, cs@.len() as int)
                } else {
                    seq![]
                })
            },
            None => !is_number_text(cs@),
        },
{
    let ghost t = cs@;
    let n = cs.len();
    let mut p: usize = 0;
    let neg = n > 0 && cs[0] == '-';
    if n > 0 && (cs[0] == '+' || cs[0] == '-') {
        p = 1;
    }
    let ghost b = number_body(t);
    assert(b =~= cs@.subrange(p as int, n as int));
    // find the point
    let mut q = p;
    while q < n && cs[q] != '.'
        invariant
            cs@ == t,
            n == t.len(),
            p <= q <= n,
            forall|i: int| p <= i < q ==> cs@[i] != '.',
        decreases n - q,
    {
        q = q + 1;
    }
    proof {
        lemma_dot_pos_unique(b, q - p);
    }
    let ghost ints = int_digits(b);
    let ghost fracs = frac_digits(b);
    assert(ints =~= cs@.subrange(p as int, q as int));
    assert(q < n ==> fracs =~= cs@.subrange(q + 1, n as int));
    assert(q == n ==> fracs.len() == 0);
    // check the digits
    let mut k = p;
    while k < n
        invariant
            cs@ == t,
            n == t.len(),
            p <= q <= n,
            p <= k <= n,
            ints == int_digits(number_body(t)),
            fracs == frac_digits(number_body(t)),
            ints == cs@.subrange(p as int, q as int),
            q < n ==> fracs == cs@.subrange(q + 1, n as int),
            forall|i: int| p <= i < k && i != q ==> is_digit(#[trigger] cs@[i]),
        decreases n - k,
    {
        if k != q && !('0' <= cs[k] && cs[k] <= '9') {
            assert(!is_digit(cs@[k as int]));
            if k < q {
                assert(ints[k - p] == cs@[k as int]);
                assert(!is_digit(ints[k - p]));
            } else {
                assert(fracs[k - q - 1] == cs@[k as int]);
                assert(!is_digit(fracs[k - q - 1]));
            }
            return None;
        }
        k = k + 1;
    }
    let frac_len: usize = if q < n { n - q - 1 } else { 0 };
    assert(fracs.len() == frac_len);
    if q - p == 0 && frac_len == 0 {
        return None;
    }
    assert(all_digits(ints));
    assert(all_digits(fracs)) by {
        assert forall|i: int| 0 <= i < fracs.len() implies is_digit(#[trigger] fracs[i]) by {
            assert(fracs[i] == cs@[q + 1 + i]);
        }
    }
    assert(is_number_text(t));
    assert(q < n ==> fracs =~= cs@.subrange(q + 1, n as int));
    Some((neg, p, q))
}

/// Largest integer that the digits of a ratio weight may form, and that the
/// weights of one split, brought to one scale, may add up to: within it the
/// shares are computed exactly in 128 bits.
pub const WEIGHT_LIMIT: u128 = 0x4000_0000_0000_0000_0000_0000_0000_0000;

/// What reading a ratio weight gives: its digits as an integer and its
/// number of fraction digits, the weight being `digits / 10^scale`. It must
/// be positive and at most `MAX_VALUE`; its digits may form at most
/// `WEIGHT_LIMIT`.
pub open spec fn weight_outcome(t: Seq<char>) -> Result<(int, nat), LedgerError> {
    let b = number_body(t);
    let n = digits_value(int_digits(b) + frac_digits(b));
    let f = frac_digits(b).len();
    if !is_number_text(t) {
        Err(LedgerError::InvalidAmount)
    } else if !is_negative_text(t) && (n > MAX_VALUE * pow10(f) || n > WEIGHT_LIMIT) {
        Err(LedgerError::AmountTooLarge)
    } else if is_negative_text(t) || n == 0 {
        Err(LedgerError::NonPositiveAmount)
    } else {
        Ok((n, f))
    }
}

pub proof fn lemma_pow10_pos(k: nat)
    ensures
        pow10(k) >= 1,
    decreases k,
{
    if k > 0 {
        lemma_pow10_pos((k - 1) as nat);
    }
}

pub proof fn lemma_pow10_mono(j: nat, k: nat)
    requires
        j <= k,
    ensures
        pow10(j) <= pow10(k),
    decreases k,
{
    lemma_pow10_pos(k);
    if j < k {
        lemma_pow10_mono(j, (k - 1) as nat);
    }
}

/// Reads a ratio weight exactly, as its digits and its number of fraction
/// digits.
pub fn parse_weight(text: &str) -> (r: Result<(u128, usize), LedgerError>)
    ensures
        match r {
            Ok((n, f)) => weight_outcome(text@) == Ok::<_, LedgerError>((n as int, f as nat)),
            Err(e) => weight_outcome(text@) == Err::<(int, nat), _>(e),
        },
{
    let cs = chars_of(text);
    let (neg, p, q) = match scan_number(&cs) {
        Some(x) => x,
        None => {
            return Err(LedgerError::InvalidAmount);
        },
    };
    let n = cs.len();
    let ghost b = number_body(text@);
    let ghost full = int_digits(b) + frac_digits(b);
    let flen: usize = if q < n { n - q - 1 } else { 0 };
    let ilen = q - p;
    assert(full.len() == ilen + flen);
    // the digits as one integer, saturating above the limit
    let mut acc: u128 = 0;
    let mut big = false;
    let mut k: usize = 0;
    assert(full.take(0) =~= seq![]);
    while k < ilen + flen
        invariant
            cs@ == text@,
            n == cs@.len(),
            p <= q <= n,
            ilen == q - p,
            flen == (if q < n { n - q - 1 } else { 0 }),
            b == number_body(text@),
            full == int_digits(b) + frac_digits(b),
            full.len() == ilen + flen,
            is_number_text(text@),
            int_digits(b) == cs@.subrange(p as int, q as int),
            q < n ==> frac_digits(b) == cs@.subrange(q + 1, n as int),
            k <= ilen + flen,
            !big ==> acc == digits_value(full.take(k as int)) && acc <= WEIGHT_LIMIT,
            big ==> digits_value(full.take(k as int)) > WEIGHT_LIMIT,
        decreases ilen + flen - k,
    {
        let c = if k < ilen {
            cs[p + k]
        } else {
            cs[q + 1 + (k - ilen)]
        };
        assert(c == full[k as int]);
        assert(all_digits(int_digits(b)) && all_digits(frac_digits(b)));
        assert(is_digit(c)) by {
            if k < ilen {
                assert(int_digits(b)[k as int] == c);
            } else {
                assert(frac_digits(b)[k - ilen] == c);
            }
        }
        assert(full.take(k + 1).drop_last() =~= full.take(k as int));
        let dig = (c as u32 - '0' as u32) as u128;
        if !big {
            if acc > (WEIGHT_LIMIT - dig) / 10 {
                big = true;
            } else {
                acc = acc * 10 + dig;
            }
        }
        k = k + 1;
    }
    assert(full.take(full.len() as int) =~= full);
    if !neg {
        // the weight is at most MAX_VALUE when its digits are at most
        // MAX_VALUE * 10^scale
        if big {
            return Err(LedgerError::AmountTooLarge);
        }
        let mut cap: u128 = MAX_VALUE as u128;
        let mut j: usize = 0;
        let steps: usize = if flen < 23 { flen } else { 23 };
        while j < steps
            invariant
                j <= steps <= 23,
                cap == MAX_VALUE * pow10(j as nat),
            decreases steps - j,
        {
            proof {
                lemma_pow10_mono(j as nat, 22);
                reveal_with_fuel(pow10, 23);
            }
            cap = cap * 10;
            j = j + 1;
        }
        proof {
            lemma_pow10_mono(steps as nat, flen as nat);
            assert(MAX_VALUE * pow10(flen as nat) >= cap) by (nonlinear_arith)
                requires
                    pow10(flen as nat) >= pow10(steps as nat),
                    cap == MAX_VALUE * pow10(steps as nat);
            if flen >= 23 {
                reveal_with_fuel(pow10, 24);
                assert(cap > WEIGHT_LIMIT);
            }
        }
        if acc > cap {
            return Err(LedgerError::AmountTooLarge);
        }
    }
    if neg || acc == 0 {
        return Err(LedgerError::NonPositiveAmount);
    }
    Ok((acc, flen))
}

/// Reads a decimal amount and scales it to minor units, rounding half away
/// from zero; it must be positive and at most `MAX_VALUE`.
pub fn parse_amount(text: &str, decimal_places: i32) -> (r: Result<i64, LedgerError>)
    requires
        decimal_places >= 0,
    ensures
        r == amount_outcome(text@, decimal_places as nat),
{
    let ghost t = text@;
    let ghost d = decimal_places as nat;
    let cs = chars_of(text);
    let n = cs.len();
    let mut p: usize = 0;
    let neg = n > 0 && cs[0] == '-';
    if n > 0 && (cs[0] == '+' || cs[0] == '-') {
        p = 1;
    }
    let ghost b = number_body(t);
    assert(b =~= cs@.subrange(p as int, n as int));
    // find the point
    let mut q = p;
    while q < n && cs[q] != '.'
        invariant
            cs@ == t,
            n == t.len(),
            p <= q <= n,
            forall|i: int| p <= i < q ==> cs@[i] != '.',
        decreases n - q,
    {
        q = q + 1;
    }
    proof {
        lemma_dot_pos_unique(b, q - p);
    }
    let ghost ints = int_digits(b);
    let ghost fracs = frac_digits(b);
    assert(ints =~= cs@.subrange(p as int, q as int));
    assert(q < n ==> fracs =~= cs@.subrange(q + 1, n as int));
    assert(q == n ==> fracs.len() == 0);
    // check the digits
    let mut k = p;
    while k < n
        invariant
            cs@ == t,
            n == t.len(),
            p <= q <= n,
            p <= k <= n,
            t == text@,
            ints == int_digits(number_body(t)),
            fracs == frac_digits(number_body(t)),
            ints == cs@.subrange(p as int, q as int),
            q < n ==> fracs == cs@.subrange(q + 1, n as int),
            forall|i: int| p <= i < k && i != q ==> is_digit(#[trigger] cs@[i]),
        decreases n - k,
    {
        if k != q && !('0' <= cs[k] && cs[k] <= '9') {
            assert(!is_digit(cs@[k as int]));
            if k < q {
                assert(ints[k - p] == cs@[k as int]);
                assert(!is_digit(ints[k - p]));
            } else {
                assert(fracs[k - q - 1] == cs@[k as int]);
                assert(!is_digit(fracs[k - q - 1]));
            }
            return Err(LedgerError::InvalidAmount);
        }
        k = k + 1;
    }
    let frac_len: usize = if q < n { n - q - 1 } else { 0 };
    assert(fracs.len() == frac_len);
    if q - p == 0 && frac_len == 0 {
        return Err(LedgerError::InvalidAmount);
    }
    assert(all_digits(ints));
    assert(all_digits(fracs)) by {
        assert forall|i: int| 0 <= i < fracs.len() implies is_digit(#[trigger] fracs[i]) by {
            assert(fracs[i] == cs@[q + 1 + i]);
        }
    }
    assert(is_number_text(t));
    // the value of the integer digits and the first `d` fraction digits
    let ghost full = ints + padded_frac(fracs, d);
    let cap: u64 = MAX_VALUE as u64;
    let mut acc: u64 = 0;
    let mut big = false;
    let mut k = p;
    assert(cs@.subrange(p as int, p as int) =~= seq![]);
    while k < q
        invariant
            cs@ == t,
            p <= k <= q <= n,
            n == t.len(),
            cap == MAX_VALUE,
            ints == cs@.subrange(p as int, q as int),
            all_digits(ints),
            !big ==> acc == digits_value(cs@.subrange(p as int, k as int)) && acc <= cap,
            big ==> digits_value(cs@.subrange(p as int, k as int)) > cap,
        decreases q - k,
    {
        let c = cs[k];
        assert(c == ints[k - p]);
        let ghost pre = cs@.subrange(p as int, k as int);
        assert(cs@.subrange(p as int, k + 1).drop_last() =~= pre);
        let dig = (c as u32 - '0' as u32) as u64;
        if !big {
            let next = acc * 10 + dig;
            if next > cap {
                big = true;
            } else {
                acc = next;
            }
        }
        k = k + 1;
    }
    assert(cs@.subrange(p as int, q as int) =~= ints);
    let ghost padded = padded_frac(fracs, d);
    let mut j: i32 = 0;
    assert(ints + padded.take(0) =~= ints);
    while j < decimal_places
        invariant
            cs@ == t,
            p <= q <= n,
            n == t.len(),
            0 <= j <= decimal_places,
            d == decimal_places,
            cap == MAX_VALUE,
            frac_len == fracs.len(),
            q < n ==> frac_len == n - q - 1,
            q == n ==> frac_len == 0,
            q < n ==> fracs == cs@.subrange(q + 1, n as int),
            all_digits(fracs),
            padded == padded_frac(fracs, d),
            !big ==> acc == digits_value(ints + padded.take(j as int)) && acc <= cap,
            big ==> digits_value(ints + padded.take(j as int)) > cap,
        decreases decimal_places - j,
    {
        let c = if (j as usize) < frac_len {
            cs[q + 1 + j as usize]
        } else {
            '0'
        };
        assert(c == padded[j as int]);
        assert((ints + padded.take(j + 1)).drop_last() =~= ints + padded.take(j as int));
        let dig = (c as u32 - '0' as u32) as u64;
        if !big {
            let next = acc * 10 + dig;
            if next > cap {
                big = true;
            } else {
                acc = next;
            }
        }
        j = j + 1;
    }
    assert(padded.take(d as int) =~= padded);
    let up: u64 = if frac_len > decimal_places as usize && cs[q + 1 + decimal_places as usize]
        >= '5' {
        1
    } else {
        0
    };
    proof {
        if frac_len > decimal_places as usize {
            assert(fracs[d as int] == cs@[q + 1 + d]);
        }
    }
    assert(up == round_up_digit(fracs, d));
    if big {
        if neg {
            return Err(LedgerError::NonPositiveAmount);
        } else {
            return Err(LedgerError::AmountTooLarge);
        }
    }
    let mag = (acc + up) as i64;
    let amount = if neg {
        -mag
    } else {
        mag
    };
    if amount > MAX_VALUE {
        Err(LedgerError::AmountTooLarge)
    } else if amount <= 0 {
        Err(LedgerError::NonPositiveAmount)
    } else {
        Ok(amount)
    }
}

/// What reading "amount [currency]" gives: the amount and the currency as
/// (code, decimals).
pub open spec fn currency_amount_outcome(text: Seq<char>) -> Result<
    (i64, (Seq<char>, int)),
    LedgerError,
> {
    let w = words(text);
    if w.len() > 2 {
        Err(LedgerError::BadFormat)
    } else if w.len() == 0 {
        Err(LedgerError::InvalidAmount)
    } else if w.len() == 1 {
        match amount_outcome(w[0], CURRENCY_DECIMALS_DEFAULT as nat) {
            Ok(v) => Ok((v, (CURRENCY_CODE_DEFAULT@, CURRENCY_DECIMALS_DEFAULT as int))),
            Err(e) => Err(e),
        }
    } else {
        match currency_of(upper_of(w[1])) {
            None => Err(LedgerError::UnknownCurrency),
            Some(c) => match amount_outcome(w[0], c.1 as nat) {
                Ok(v) => Ok((v, c)),
                Err(e) => Err(e),
            },
        }
    }
}

/// Reads an amount optionally followed by a currency code; without a code the
/// placeholder currency is used.
pub fn parse_currency_amount(text: &str) -> (r: Result<(i64, Currency), LedgerError>)
    ensures
        match r {
            Ok((v, c)) => currency_amount_outcome(text@) == Ok::<_, LedgerError>(
                (v, currency_view(c)),
            ),
            Err(e) => currency_amount_outcome(text@) == Err::<(i64, (Seq<char>, int)), _>(e),
        },
{
    let items = split_words(text);
    let ghost w = words(text@);
    assert(items@.len() == w.len());
    if items.len() > 2 {
        Err(LedgerError::BadFormat)
    } else if items.len() == 0 {
        Err(LedgerError::InvalidAmount)
    } else if items.len() == 1 {
        assert(items@[0]@ == w[0]);
        let currency = get_default_currency();
        match parse_amount(items[0].as_str(), currency.1) {
            Ok(v) => Ok((v, currency)),
            Err(e) => Err(e),
        }
    } else {
        assert(items@[0]@ == w[0]);
        assert(items@[1]@ == w[1]);
        let currency = match get_currency(items[1].as_str()) {
            Ok(c) => c,
            Err(e) => {
                return Err(e);
            },
        };
        match parse_amount(items[0].as_str(), currency.1) {
            Ok(v) => Ok((v, currency)),
            Err(e) => Err(e),
        }
    }
}

} // verus!
