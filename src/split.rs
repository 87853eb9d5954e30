//! Split engine: turns a total and a split request into per-person shares
//! that add up exactly to the total.

use vstd::prelude::*;

use crate::amounts::{
    amount_outcome, lemma_pow10_mono, lemma_pow10_pos, parse_amount, parse_weight, pow10,
    weight_outcome, MAX_VALUE, WEIGHT_LIMIT,
};
use crate::currency::Currency;
use crate::error::LedgerError;
use crate::format::{is_username_equal, parse_username, same_username, username_outcome};
use crate::text::{lower_of, lowercase, split_words, views, words};

verus! {

/// `p / q` rounded half away from zero, for `p >= 0` and `q > 0`.
pub open spec fn round_div(p: int, q: int) -> int {
    (2 * p + q) / (2 * q)
}

/// The sum of a sequence of amounts.
pub open spec fn sum_of(s: Seq<i64>) -> int
    decreases s.len(),
{
    if s.len() == 0 {
        0
    } else {
        sum_of(s.drop_last()) + s.last()
    }
}

/// The correction of one minor unit that position `i` receives when
/// `diff` units must be spread over the first `|diff|` positions.
pub open spec fn correction(diff: int, i: int) -> int {
    if diff > 0 && i < diff {
        1
    } else if diff < 0 && i < -diff {
        -1
    } else {
        0
    }
}

/// The share of everyone in an equal split, before the correction.
pub open spec fn equal_base(total: int, n: int) -> int {
    round_div(total, n)
}

/// The units left over by an equal split.
pub open spec fn equal_diff(total: int, n: int) -> int {
    total - equal_base(total, n) * n
}

/// The share of position `i` in an equal split.
pub open spec fn equal_share(total: int, n: int, i: int) -> int {
    equal_base(total, n) + correction(equal_diff(total, n), i)
}

proof fn lemma_round_div(p: int, q: int)
    requires
        p >= 0,
        q > 0,
    ensures
        2 * q * round_div(p, q) <= 2 * p + q,
        2 * p + q < 2 * q * round_div(p, q) + 2 * q,
        round_div(p, q) >= 0,
{
    let r = round_div(p, q);
    assert(2 * q > 0);
    vstd::arithmetic::div_mod::lemma_fundamental_div_mod(2 * p + q, 2 * q);
    let m = (2 * p + q) % (2 * q);
    assert(0 <= m < 2 * q) by {
        vstd::arithmetic::div_mod::lemma_mod_bound(2 * p + q, 2 * q);
    }
    assert(2 * p + q == 2 * q * r + m) by {
        vstd::arithmetic::mul::lemma_mul_is_commutative(2 * q, r);
    }
    assert(r >= 0) by {
        vstd::arithmetic::div_mod::lemma_div_pos_is_pos(2 * p + q, 2 * q);
    }
}

proof fn lemma_sum_push(s: Seq<i64>, x: i64)
    ensures
        sum_of(s.push(x)) == sum_of(s) + x,
{
    assert(s.push(x).drop_last() =~= s);
}

/// Splits `total` into `n` equal shares; the units left over by rounding are
/// spread one at a time over the first positions.
pub fn split_equal_amounts(total: i64, n: usize) -> (r: Vec<i64>)
    requires
        total > 0,
        n > 0,
    ensures
        r@.len() == n,
        forall|i: int| 0 <= i < n ==> r@[i] == equal_share(total as int, n as int, i),
        sum_of(r@) == total,
{
    let ghost t = total as int;
    let ghost nn = n as int;
    let base = ((2 * total as i128 + n as i128) / (2 * n as i128));
    proof {
        lemma_round_div(t, nn);
        assert(base == equal_base(t, nn));
        assert(2 * nn * base == 2 * (base * nn)) by (nonlinear_arith);
        assert(base <= t) by (nonlinear_arith)
            requires
                2 * nn * base <= 2 * t + nn,
                nn >= 1,
                t >= 1,
                base >= 0,
        ;
    }
    let diff: i128 = total as i128 - base * n as i128;
    assert(-nn <= 2 * diff <= nn);
    proof {
        if diff > 0 {
            assert(base < t) by (nonlinear_arith)
                requires
                    base * nn < t,
                    nn >= 1,
                    base >= 0,
            ;
        }
        if diff < 0 {
            assert(base >= 1) by (nonlinear_arith)
                requires
                    base * nn > t,
                    t >= 1,
                    base >= 0,
            ;
        }
    }
    let mut r: Vec<i64> = Vec::new();
    let mut i: usize = 0;
    while i < n
        invariant
            i <= n,
            nn == n,
            t == total,
            base == equal_base(t, nn),
            diff == equal_diff(t, nn),
            -nn <= 2 * diff <= nn,
            0 <= base <= t,
            diff > 0 ==> base < t,
            diff < 0 ==> base >= 1,
            r@.len() == i,
            forall|k: int| 0 <= k < i ==> r@[k] == equal_share(t, nn, k),
            sum_of(r@) == base * i + (if diff >= 0 {
                if i < diff { i as int } else { diff as int }
            } else {
                if i < -diff { -i } else { diff as int }
            }),
        decreases n - i,
    {
        let c: i128 = if diff > 0 && (i as i128) < diff {
            1
        } else if diff < 0 && (i as i128) < -diff {
            -1
        } else {
            0
        };
        assert(c == correction(diff as int, i as int));
        let share = (base + c) as i64;
        proof {
            lemma_sum_push(r@, share);
            assert(base * (i + 1) == base * i + base) by (nonlinear_arith);
        }
        r.push(share);
        i = i + 1;
    }
    proof {
        assert(base * nn + diff == t);
    }
    r
}


/// The share of a weight before the correction: `w * total / weight_sum`,
/// rounded half away from zero.
pub open spec fn ratio_base(total: int, w: int, weight_sum: int) -> int {
    round_div(w * total, weight_sum)
}

/// Sum of a sequence of integers.
pub open spec fn int_sum(s: Seq<int>) -> int
    decreases s.len(),
{
    if s.len() == 0 {
        0
    } else {
        int_sum(s.drop_last()) + s.last()
    }
}

/// The shares of all weights before the correction.
pub open spec fn ratio_bases(total: int, ws: Seq<int>) -> Seq<int> {
    Seq::new(ws.len(), |i: int| ratio_base(total, ws[i], int_sum(ws)))
}

/// The units left over by a ratio split.
pub open spec fn ratio_diff(total: int, ws: Seq<int>) -> int {
    total - int_sum(ratio_bases(total, ws))
}

/// The share of position `i` in a ratio split.
pub open spec fn ratio_share(total: int, ws: Seq<int>, i: int) -> int {
    ratio_bases(total, ws)[i] + correction(ratio_diff(total, ws), i)
}

pub open spec fn weights_view(v: Seq<u128>) -> Seq<int> {
    v.map_values(|w: u128| w as int)
}

proof fn lemma_round_from_divmod(p: int, c: int, q: int, r: int)
    requires
        c > 0,
        p == q * c + r,
        0 <= r < c,
    ensures
        round_div(p, c) == q + (if 2 * r >= c { 1int } else { 0int }),
{
    if 2 * r >= c {
        assert(2 * p + c == (q + 1) * (2 * c) + (2 * r - c)) by (nonlinear_arith)
            requires
                p == q * c + r,
        ;
        vstd::arithmetic::div_mod::lemma_fundamental_div_mod_converse(2 * p + c, 2 * c, q + 1, 2 * r - c);
    } else {
        assert(2 * p + c == q * (2 * c) + (2 * r + c)) by (nonlinear_arith)
            requires
                p == q * c + r,
        ;
        vstd::arithmetic::div_mod::lemma_fundamental_div_mod_converse(2 * p + c, 2 * c, q, 2 * r + c);
    }
}

/// `a * b` divided by `c`, as quotient and remainder, without forming the
/// product.
fn mul_divmod(a: u128, b: u128, c: u128) -> (r: (u128, u128))
    requires
        a < c,
        c <= WEIGHT_LIMIT,
        b <= 0x8000_0000_0000_0000,
    ensures
        a * b == r.0 * c + r.1,
        r.1 < c,
        r.0 <= b,
    decreases b,
{
    if b == 0 {
        return (0, 0);
    }
    let (q1, r1) = mul_divmod(a, b / 2, c);
    let ghost h = b / 2;
    assert(a * b == 2 * (a * h) + (b % 2) * a) by (nonlinear_arith)
        requires
            b == 2 * h + b % 2,
    ;
    let mut q = 2 * q1;
    let mut r = 2 * r1;
    assert(a * b == q * c + r + (b % 2) * a) by (nonlinear_arith)
        requires
            a * b == 2 * (a * h) + (b % 2) * a,
            a * h == q1 * c + r1,
            q == 2 * q1,
            r == 2 * r1,
    ;
    let ghost odd = (b % 2) * a;
    assert(b % 2 == 1 ==> odd == a) by (nonlinear_arith)
        requires
            odd == (b % 2) * a,
    ;
    assert(b % 2 == 0 ==> odd == 0) by (nonlinear_arith)
        requires
            odd == (b % 2) * a,
    ;
    if r >= c {
        assert((q + 1) * c + (r - c) == q * c + r) by (nonlinear_arith);
        r = r - c;
        q = q + 1;
    }
    assert(a * b == q * c + r + odd);
    if b % 2 == 1 {
        r = r + a;
        if r >= c {
            assert((q + 1) * c + (r - c) == q * c + r) by (nonlinear_arith);
            r = r - c;
            q = q + 1;
        }
    }
    assert(a * b == q * c + r);
    assert(q <= b) by (nonlinear_arith)
        requires
            a * b == q * c + r,
            0 <= r,
            0 <= a < c,
            b > 0,
    ;
    (q, r)
}

/// Sums of prefixes of non-negative integers grow up to the whole sum.
proof fn lemma_int_sum_prefix(s: Seq<int>, i: int)
    requires
        0 <= i <= s.len(),
        forall|k: int| 0 <= k < s.len() ==> s[k] >= 0,
    ensures
        0 <= int_sum(s.take(i)) <= int_sum(s),
    decreases s.len(),
{
    if i == s.len() {
        assert(s.take(i) =~= s);
        lemma_int_sum_nonneg_bound(s);
    } else {
        assert(s.drop_last().take(i) =~= s.take(i));
        lemma_int_sum_prefix(s.drop_last(), i);
    }
}

/// Splits `total` in proportion to positive weights; each share is rounded
/// half away from zero and the units left over are spread one at a time over
/// the first positions.
pub fn split_ratio_amounts(total: i64, weights: &Vec<u128>) -> (r: Vec<i64>)
    requires
        total > 0,
        weights@.len() > 0,
        forall|i: int| 0 <= i < weights@.len() ==> #[trigger] weights@[i] > 0,
        int_sum(weights_view(weights@)) <= WEIGHT_LIMIT,
    ensures
        r@.len() == weights@.len(),
        forall|i: int| 0 <= i < r@.len() ==> r@[i] == ratio_share(total as int, weights_view(weights@), i),
        sum_of(r@) == total,
{
    let ghost t = total as int;
    let ghost ws = weights_view(weights@);
    let n = weights.len();
    proof {
        lemma_int_sum_nonneg_bound(ws);
    }
    // the sum of the weights
    let mut wsum: u128 = 0;
    for i in 0..n
        invariant
            n == ws.len(),
            ws == weights_view(weights@),
            forall|k: int| 0 <= k < weights@.len() ==> #[trigger] weights@[k] > 0,
            int_sum(ws) <= WEIGHT_LIMIT,
            wsum == int_sum(ws.take(i as int)),
    {
        assert(ws.take(i + 1).drop_last() =~= ws.take(i as int));
        proof {
            lemma_int_sum_prefix(ws, i + 1);
        }
        wsum = wsum + weights[i];
    }
    assert(ws.take(n as int) =~= ws);
    let ghost w_all = wsum as int;
    assert(w_all > 0) by {
        lemma_int_sum_prefix(ws, 1);
        assert(ws.take(1).drop_last() =~= Seq::<int>::empty());
    }
    // shares before the correction
    let mut bases: Vec<i128> = Vec::new();
    let mut bsum: i128 = 0;
    let ghost mut part: int = 0;
    for i in 0..n
        invariant
            n == ws.len(),
            ws == weights_view(weights@),
            t == total,
            t > 0,
            w_all == wsum,
            w_all == int_sum(ws),
            w_all <= WEIGHT_LIMIT,
            w_all > 0,
            forall|k: int| 0 <= k < ws.len() ==> ws[k] <= w_all,
            forall|k: int| 0 <= k < weights@.len() ==> #[trigger] weights@[k] > 0,
            bases@.len() == i,
            forall|k: int|
                0 <= k < i ==> bases@[k] == ratio_base(t, ws[k], w_all) && 0 <= bases@[k] <= t,
            bsum == int_sum(bases@.map_values(|x: i128| x as int)),
            0 <= bsum <= i * t,
            part == int_sum(ws.take(i as int)),
            -(i * w_all) <= 2 * w_all * bsum - 2 * t * part <= i * w_all,
    {
        let w = weights[i];
        assert(w == ws[i as int]);
        let ghost p = w * t;
        assert(0 <= p <= w_all * t) by (nonlinear_arith)
            requires
                0 < w <= w_all,
                t > 0,
                p == w * t,
        ;
        let b: i128 = if w == wsum {
            proof {
                lemma_round_from_divmod(p, w_all, t, 0);
            }
            total as i128
        } else {
            let (q, rem) = mul_divmod(w, total as u128, wsum);
            proof {
                lemma_round_from_divmod(p, w_all, q as int, rem as int);
            }
            (q + if 2 * rem >= wsum { 1u128 } else { 0u128 }) as i128
        };
        proof {
            lemma_round_div(p, w_all);
            assert(b == ratio_base(t, ws[i as int], w_all));
            assert(b <= t) by (nonlinear_arith)
                requires
                    2 * w_all * b <= 2 * p + w_all,
                    p <= w_all * t,
                    w_all > 0,
                    b >= 0,
            ;
            let e = 2 * w_all * b - 2 * p;
            assert(-w_all < e <= w_all);
            assert((i + 1) * w_all == i * w_all + w_all) by (nonlinear_arith);
            assert((i + 1) * t == i * t + t) by (nonlinear_arith);
            assert(ws.take(i + 1).drop_last() =~= ws.take(i as int));
        }
        let ghost e0 = 2 * w_all * bsum - 2 * t * part;
        let ghost e = 2 * w_all * b - 2 * p;
        assert(2 * w_all * (bsum + b) - 2 * t * (part + w) == e0 + e) by (nonlinear_arith)
            requires
                e0 == 2 * w_all * bsum - 2 * t * part,
                e == 2 * w_all * b - 2 * p,
                p == w * t,
        ;
        assert((i + 1) * t <= 0x7fff_ffff_ffff_ffff_ffff_ffff_ffff_ffff) by (nonlinear_arith)
            requires
                i + 1 <= 0xffff_ffff_ffff_ffff,
                0 < t <= 0x7fff_ffff_ffff_ffff,
        ;
        let ghost before = bases@;
        bases.push(b);
        assert(bases@.map_values(|x: i128| x as int).drop_last() =~= before.map_values(
            |x: i128| x as int,
        ));
        bsum = bsum + b;
        proof {
            part = part + w;
        }
    }
    assert(ws.take(n as int) =~= ws);
    let ghost bases_int = bases@.map_values(|x: i128| x as int);
    assert(bases_int =~= ratio_bases(t, ws));
    let diff: i128 = total as i128 - bsum;
    proof {
        assert(2 * w_all * bsum - 2 * t * w_all == w_all * (2 * (bsum - t))) by (nonlinear_arith);
        assert(-(n as int) <= 2 * (bsum - t) <= n) by (nonlinear_arith)
            requires
                w_all > 0,
                -(n * w_all) <= w_all * (2 * (bsum - t)) <= n * w_all,
        ;
        lemma_int_sum_nonneg_bound(bases_int);
        assert forall|k: int| 0 <= k < n implies #[trigger] bases@[k] <= bsum by {
            assert(bases_int[k] == bases@[k]);
        }
    }
    let mut r: Vec<i64> = Vec::new();
    let mut i: usize = 0;
    while i < n
        invariant
            i <= n,
            n == ws.len(),
            n == bases@.len(),
            t == total,
            diff == ratio_diff(t, ws),
            bases_int == bases@.map_values(|x: i128| x as int),
            bases_int == ratio_bases(t, ws),
            bsum == int_sum(bases_int),
            forall|k: int| 0 <= k < n ==> 0 <= #[trigger] bases@[k] <= t,
            forall|k: int| 0 <= k < n ==> #[trigger] bases@[k] <= bsum,
            -(n as int) <= 2 * diff <= n,
            r@.len() == i,
            forall|k: int| 0 <= k < i ==> r@[k] == ratio_share(t, ws, k),
            sum_of(r@) == int_sum(bases_int.take(i as int)) + (if diff >= 0 {
                if i < diff { i as int } else { diff as int }
            } else {
                if i < -diff { -i } else { diff as int }
            }),
        decreases n - i,
    {
        let c: i128 = if diff > 0 && (i as i128) < diff {
            1
        } else if diff < 0 && (i as i128) < -diff {
            -1
        } else {
            0
        };
        assert(c == correction(diff as int, i as int));
        assert(bases_int[i as int] == bases@[i as int]);
        let share = (bases[i] + c) as i64;
        proof {
            lemma_sum_push(r@, share);
            assert(bases_int.take(i + 1).drop_last() =~= bases_int.take(i as int));
        }
        r.push(share);
        i = i + 1;
    }
    assert(bases_int.take(n as int) =~= bases_int);
    r
}

proof fn lemma_int_sum_nonneg_bound(s: Seq<int>)
    requires
        forall|k: int| 0 <= k < s.len() ==> s[k] >= 0,
    ensures
        forall|k: int| 0 <= k < s.len() ==> s[k] <= int_sum(s),
        int_sum(s) >= 0,
    decreases s.len(),
{
    if s.len() > 0 {
        let init = s.drop_last();
        lemma_int_sum_nonneg_bound(init);
        assert forall|k: int| 0 <= k < s.len() implies s[k] <= int_sum(s) by {
            if k < s.len() - 1 {
                assert(s[k] == init[k]);
            }
        }
    }
}


/// Shares as (name, amount) pairs of plain values.
pub open spec fn pairs_view(v: Seq<(String, i64)>) -> Seq<(Seq<char>, int)> {
    v.map_values(|d: (String, i64)| (d.0@, d.1 as int))
}

pub open spec fn wide_pairs_view(v: Seq<(String, i128)>) -> Seq<(Seq<char>, int)> {
    v.map_values(|d: (String, i128)| (d.0@, d.1 as int))
}

/// The sum of the amounts of (name, amount) pairs.
pub open spec fn pair_sum(ps: Seq<(Seq<char>, int)>) -> int
    decreases ps.len(),
{
    if ps.len() == 0 {
        0
    } else {
        pair_sum(ps.drop_last()) + ps.last().1
    }
}

/// The words with later repeats of a word (ignoring letter case) left out.
pub open spec fn dedup_words(w: Seq<Seq<char>>) -> Seq<Seq<char>>
    decreases w.len(),
{
    if w.len() == 0 {
        seq![]
    } else {
        let d = dedup_words(w.drop_last());
        if exists|k: int| 0 <= k < d.len() && lower_of(#[trigger] d[k]) == lower_of(w.last()) {
            d
        } else {
            d.push(w.last())
        }
    }
}

/// Reading each word as a username; the first refusal wins.
pub open spec fn usernames_outcome(w: Seq<Seq<char>>) -> Result<Seq<Seq<char>>, LedgerError>
    decreases w.len(),
{
    if w.len() == 0 {
        Ok(seq![])
    } else {
        match username_outcome(w[0]) {
            Err(e) => Err(e),
            Ok(u) => match usernames_outcome(w.drop_first()) {
                Err(e) => Err(e),
                Ok(rest) => Ok(seq![u] + rest),
            },
        }
    }
}

/// What an equal split of `total` among the members named in `text` gives.
pub open spec fn equal_outcome(text: Seq<char>, total: Option<i64>) -> Result<
    Seq<(Seq<char>, int)>,
    LedgerError,
> {
    let w = words(text);
    if w.len() == 0 {
        Err(LedgerError::EmptyParticipantList)
    } else {
        match total {
            None => Err(LedgerError::MissingTotal),
            Some(t) => match usernames_outcome(w) {
                Err(e) => Err(e),
                Ok(all) => {
                    let names = dedup_words(all);
                    Ok(
                        Seq::new(
                            names.len(),
                            |i: int| (names[i], equal_share(t as int, names.len() as int, i)),
                        ),
                    )
                },
            },
        }
    }
}

/// Reading name/amount word pairs; the first refusal wins. With a sender,
/// a pair naming the sender is refused.
pub open spec fn pairs_outcome(w: Seq<Seq<char>>, d: nat, sender: Option<Seq<char>>) -> Result<
    Seq<(Seq<char>, int)>,
    LedgerError,
>
    decreases w.len(),
{
    if w.len() < 2 {
        Ok(seq![])
    } else {
        match username_outcome(w[0]) {
            Err(e) => Err(e),
            Ok(u) => match amount_outcome(w[1], d) {
                Err(e) => Err(e),
                Ok(a) => if sender matches Some(s) && same_username(u, s) {
                    Err(LedgerError::SelfPayback)
                } else {
                    match pairs_outcome(w.skip(2), d, sender) {
                        Err(e) => Err(e),
                        Ok(rest) => Ok(seq![(u, a as int)] + rest),
                    }
                },
            },
        }
    }
}

/// Whether two names count as the same member: exactly equal, or equal
/// after lower-casing when `fold` is set.
pub open spec fn names_match(a: Seq<char>, b: Seq<char>, fold: bool) -> bool {
    if fold {
        same_username(a, b)
    } else {
        a == b
    }
}

/// Index of the first entry whose name matches, or -1.
pub open spec fn find_name(acc: Seq<(Seq<char>, int)>, name: Seq<char>, fold: bool) -> int
    decreases acc.len(),
{
    if acc.len() == 0 {
        -1
    } else if names_match(acc[0].0, name, fold) {
        0
    } else {
        let k = find_name(acc.drop_first(), name, fold);
        if k < 0 {
            -1
        } else {
            k + 1
        }
    }
}

/// Adds `amount` to the entry of `name`, or appends a new entry.
pub open spec fn merge_into(acc: Seq<(Seq<char>, int)>, name: Seq<char>, amount: int, fold: bool) -> Seq<
    (Seq<char>, int),
> {
    let k = find_name(acc, name, fold);
    if k >= 0 {
        acc.update(k, (acc[k].0, acc[k].1 + amount))
    } else {
        acc.push((name, amount))
    }
}

/// The pairs with the amounts of matching names added up, in order of first
/// appearance.
pub open spec fn merged(ps: Seq<(Seq<char>, int)>, fold: bool) -> Seq<(Seq<char>, int)>
    decreases ps.len(),
{
    if ps.len() == 0 {
        seq![]
    } else {
        merge_into(merged(ps.drop_last(), fold), ps.last().0, ps.last().1, fold)
    }
}

/// What an exact split gives: the stated amounts per member, with any
/// shortfall charged to the creditor.
pub open spec fn exact_outcome(
    text: Seq<char>,
    creditor: Option<Seq<char>>,
    decimals: Option<int>,
    total: Option<i64>,
) -> Result<Seq<(Seq<char>, int)>, LedgerError> {
    match creditor {
        None => Err(LedgerError::MissingCreditor),
        Some(c) => match total {
            None => Err(LedgerError::MissingTotal),
            Some(t) => match decimals {
                None => Err(LedgerError::MissingCurrency),
                Some(d) => {
                    let w = words(text);
                    if w.len() % 2 != 0 {
                        Err(LedgerError::OddTokenCount)
                    } else {
                        match pairs_outcome(w, d as nat, None) {
                            Err(e) => Err(e),
                            Ok(ps) => {
                                let s = pair_sum(ps);
                                if s > t {
                                    Err(LedgerError::ExactAmountsExceedTotal)
                                } else if s < t {
                                    Ok(merge_into(merged(ps, false), c, t - s, false))
                                } else {
                                    Ok(merged(ps, false))
                                }
                            },
                        }
                    }
                },
            },
        },
    }
}

/// Reading name/weight word pairs; the first refusal wins. A weight is
/// kept exactly, as its digits and its number of fraction digits.
pub open spec fn weight_pairs_outcome(w: Seq<Seq<char>>) -> Result<
    Seq<(Seq<char>, (int, nat))>,
    LedgerError,
>
    decreases w.len(),
{
    if w.len() < 2 {
        Ok(seq![])
    } else {
        match username_outcome(w[0]) {
            Err(e) => Err(e),
            Ok(u) => match weight_outcome(w[1]) {
                Err(e) => Err(e),
                Ok(x) => match weight_pairs_outcome(w.skip(2)) {
                    Err(e) => Err(e),
                    Ok(rest) => Ok(seq![(u, x)] + rest),
                },
            },
        }
    }
}

/// The most fraction digits among the weights.
pub open spec fn max_scale(ps: Seq<(Seq<char>, (int, nat))>) -> nat
    decreases ps.len(),
{
    if ps.len() == 0 {
        0
    } else {
        let m = max_scale(ps.drop_last());
        if ps.last().1.1 > m {
            ps.last().1.1
        } else {
            m
        }
    }
}

/// The weights brought to `f` fraction digits, as integers.
pub open spec fn scaled_weights(ps: Seq<(Seq<char>, (int, nat))>, f: nat) -> Seq<(Seq<char>, int)> {
    Seq::new(ps.len(), |i: int| (ps[i].0, ps[i].1.0 * pow10((f - ps[i].1.1) as nat)))
}

/// The weights of merged (name, weight) pairs.
pub open spec fn weights_of(m: Seq<(Seq<char>, int)>) -> Seq<int> {
    Seq::new(m.len(), |i: int| m[i].1)
}

/// What a ratio split gives: each member's share in proportion to the sum of
/// their weights, computed exactly on the weights brought to one scale;
/// those integers must add up to at most `WEIGHT_LIMIT`.
pub open spec fn ratio_outcome(text: Seq<char>, total: Option<i64>) -> Result<
    Seq<(Seq<char>, int)>,
    LedgerError,
> {
    let w = words(text);
    if w.len() % 2 != 0 {
        Err(LedgerError::OddTokenCount)
    } else {
        match weight_pairs_outcome(w) {
            Err(e) => Err(e),
            Ok(ps) => match total {
                None => Err(LedgerError::MissingTotal),
                Some(t) => {
                    let sc = scaled_weights(ps, max_scale(ps));
                    let m = merged(sc, true);
                    if pair_sum(sc) > WEIGHT_LIMIT {
                        Err(LedgerError::AmountTooLarge)
                    } else if m.len() == 0 {
                        Err(LedgerError::EmptyParticipantList)
                    } else {
                        Ok(
                            Seq::new(
                                m.len(),
                                |i: int| (m[i].0, ratio_share(t as int, weights_of(m), i)),
                            ),
                        )
                    }
                },
            },
        }
    }
}

/// What reading a pay-back request gives: the amount paid back to each
/// member, who may not be the sender. Each member's amounts add up, and the
/// sum must fit in `i64`.
pub open spec fn payback_outcome(text: Seq<char>, decimals: int, sender: Seq<char>) -> Result<
    Seq<(Seq<char>, int)>,
    LedgerError,
> {
    let w = words(text);
    if w.len() % 2 != 0 {
        Err(LedgerError::OddTokenCount)
    } else {
        match pairs_outcome(w, decimals as nat, Some(sender)) {
            Err(e) => Err(e),
            Ok(ps) => {
                let m = merged(ps, false);
                if exists|k: int| 0 <= k < m.len() && #[trigger] m[k].1 > i64::MAX {
                    Err(LedgerError::AmountTooLarge)
                } else {
                    Ok(m)
                }
            },
        }
    }
}


/// `pre` put in front of a successful result.
pub open spec fn prepend_ok<T>(pre: Seq<T>, r: Result<Seq<T>, LedgerError>) -> Result<
    Seq<T>,
    LedgerError,
> {
    match r {
        Ok(rest) => Ok(pre + rest),
        Err(e) => Err(e),
    }
}

pub open spec fn opt_str_view(o: Option<&str>) -> Option<Seq<char>> {
    match o {
        Some(s) => Some(s@),
        None => None,
    }
}

/// Keeps the first of each group of words that agree after lower-casing.
fn dedup_users(w: &Vec<String>) -> (r: Vec<String>)
    ensures
        views(r@) == dedup_words(views(w@)),
{
    let mut kept: Vec<String> = Vec::new();
    let mut lowers: Vec<String> = Vec::new();
    for i in 0..w.len()
        invariant
            views(kept@) == dedup_words(views(w@).take(i as int)),
            lowers@.len() == kept@.len(),
            forall|k: int| 0 <= k < kept@.len() ==> (#[trigger] lowers@[k])@ == lower_of(kept@[k]@),
    {
        let ghost wv = views(w@);
        assert(wv.take(i + 1).drop_last() =~= wv.take(i as int));
        assert(wv.take(i + 1).last() == w@[i as int]@);
        let lw = lowercase(w[i].as_str());
        let mut found = false;
        let mut j: usize = 0;
        while j < lowers.len()
            invariant
                j <= lowers@.len(),
                lowers@.len() == kept@.len(),
                forall|k: int| 0 <= k < kept@.len() ==> (#[trigger] lowers@[k])@ == lower_of(kept@[k]@),
                found <==> exists|k: int| 0 <= k < j && lower_of(#[trigger] views(kept@)[k]) == lw@,
            decreases lowers@.len() - j,
        {
            assert(views(kept@)[j as int] == kept@[j as int]@);
            if lowers[j] == lw {
                found = true;
            }
            j = j + 1;
        }
        if !found {
            let ghost before = kept@;
            kept.push(w[i].clone());
            lowers.push(lw);
            assert(views(kept@) =~= views(before).push(w@[i as int]@));
        }
    }
    assert(views(w@).take(w@.len() as int) =~= views(w@));
    kept
}

/// Reads each word as a username.
fn parse_usernames(w: &Vec<String>) -> (r: Result<Vec<String>, LedgerError>)
    ensures
        match r {
            Ok(v) => usernames_outcome(views(w@)) == Ok::<_, LedgerError>(views(v@)) && v@.len()
                == w@.len(),
            Err(e) => usernames_outcome(views(w@)) == Err::<Seq<Seq<char>>, _>(e),
        },
{
    let ghost wv = views(w@);
    let mut names: Vec<String> = Vec::new();
    let n = w.len();
    let mut i: usize = 0;
    assert(wv.skip(0) =~= wv);
    assert(views(names@) + seq![] =~= seq![]);
    while i < n
        invariant
            n == w@.len(),
            wv == views(w@),
            i <= n,
            names@.len() == i,
            usernames_outcome(wv) == prepend_ok(views(names@), usernames_outcome(wv.skip(i as int))),
        decreases n - i,
    {
        let ghost rest = wv.skip(i as int);
        assert(rest[0] == w@[i as int]@);
        assert(rest.drop_first() =~= wv.skip(i + 1));
        match parse_username(w[i].as_str()) {
            Err(e) => {
                return Err(e);
            },
            Ok(u) => {
                let ghost before = views(names@);
                names.push(u);
                assert(views(names@) =~= before.push(u@));
                proof {
                    match usernames_outcome(wv.skip(i + 1)) {
                        Ok(tail) => {
                            assert(before + (seq![u@] + tail) =~= views(names@) + tail);
                        },
                        Err(_) => {},
                    }
                }
            },
        }
        i = i + 1;
    }
    assert(wv.skip(n as int) =~= seq![]);
    assert(views(names@) + seq![] =~= views(names@));
    Ok(names)
}

/// Reads name/amount word pairs; with a sender, refuses a pair naming them.
fn parse_pairs(w: &Vec<String>, decimals: i32, sender: Option<&str>) -> (r: Result<
    Vec<(String, i64)>,
    LedgerError,
>)
    requires
        w@.len() % 2 == 0,
        decimals >= 0,
    ensures
        match r {
            Ok(v) => pairs_outcome(views(w@), decimals as nat, opt_str_view(sender)) == Ok::<
                _,
                LedgerError,
            >(pairs_view(v@)) && forall|k: int|
                0 <= k < v@.len() ==> 0 < #[trigger] v@[k].1 <= MAX_VALUE,
            Err(e) => pairs_outcome(views(w@), decimals as nat, opt_str_view(sender)) == Err::<
                Seq<(Seq<char>, int)>,
                _,
            >(e),
        },
{
    let ghost wv = views(w@);
    let ghost d = decimals as nat;
    let ghost sv = opt_str_view(sender);
    let mut ps: Vec<(String, i64)> = Vec::new();
    let n = w.len();
    let mut i: usize = 0;
    assert(wv.skip(0) =~= wv);
    assert(pairs_view(ps@) + seq![] =~= seq![]);
    while i < n
        invariant
            n == w@.len(),
            n % 2 == 0,
            i % 2 == 0,
            wv == views(w@),
            d == decimals,
            decimals >= 0,
            sv == opt_str_view(sender),
            i <= n,
            forall|k: int| 0 <= k < ps@.len() ==> 0 < #[trigger] ps@[k].1 <= MAX_VALUE,
            pairs_outcome(wv, d, sv) == prepend_ok(pairs_view(ps@), pairs_outcome(wv.skip(i as int), d, sv)),
        decreases n - i,
    {
        let ghost rest = wv.skip(i as int);
        assert(rest[0] == w@[i as int]@);
        assert(rest[1] == w@[i + 1]@);
        assert(rest.skip(2) =~= wv.skip(i + 2));
        let u = match parse_username(w[i].as_str()) {
            Err(e) => {
                return Err(e);
            },
            Ok(u) => u,
        };
        let a = match parse_amount(w[i + 1].as_str(), decimals) {
            Err(e) => {
                return Err(e);
            },
            Ok(a) => a,
        };
        if let Some(snd) = sender {
            if is_username_equal(u.as_str(), snd) {
                return Err(LedgerError::SelfPayback);
            }
        }
        let ghost before = pairs_view(ps@);
        ps.push((u, a));
        assert(pairs_view(ps@) =~= before.push((u@, a as int)));
        proof {
            match pairs_outcome(wv.skip(i + 2), d, sv) {
                Ok(tail) => {
                    assert(before + (seq![(u@, a as int)] + tail) =~= pairs_view(ps@) + tail);
                },
                Err(_) => {},
            }
        }
        i = i + 2;
    }
    assert(wv.skip(n as int) =~= seq![]);
    assert(pairs_view(ps@) + seq![] =~= pairs_view(ps@));
    Ok(ps)
}

proof fn lemma_find_first(acc: Seq<(Seq<char>, int)>, name: Seq<char>, fold: bool, j: int)
    requires
        0 <= j <= acc.len(),
        forall|i: int| 0 <= i < j ==> !names_match(#[trigger] acc[i].0, name, fold),
        j < acc.len() ==> names_match(acc[j].0, name, fold),
    ensures
        find_name(acc, name, fold) == (if j < acc.len() { j } else { -1 }),
    decreases acc.len(),
{
    if acc.len() > 0 && j > 0 {
        let t = acc.drop_first();
        assert(!names_match(acc[0].0, name, fold));
        assert forall|i: int| 0 <= i < j - 1 implies !names_match(#[trigger] t[i].0, name, fold) by {
            assert(t[i] == acc[i + 1]);
        }
        if j < acc.len() {
            assert(t[j - 1] == acc[j]);
        }
        lemma_find_first(t, name, fold, j - 1);
    }
}

proof fn lemma_pair_sum_update(acc: Seq<(Seq<char>, int)>, k: int, x: Seq<char>, a: int)
    requires
        0 <= k < acc.len(),
    ensures
        pair_sum(acc.update(k, (x, acc[k].1 + a))) == pair_sum(acc) + a,
    decreases acc.len(),
{
    let u = acc.update(k, (x, acc[k].1 + a));
    if k == acc.len() - 1 {
        assert(u.drop_last() =~= acc.drop_last());
    } else {
        assert(u.drop_last() =~= acc.drop_last().update(k, (x, acc[k].1 + a)));
        lemma_pair_sum_update(acc.drop_last(), k, x, a);
    }
}

proof fn lemma_pair_sum_merge_into(acc: Seq<(Seq<char>, int)>, name: Seq<char>, a: int, fold: bool)
    requires
        -1 <= find_name(acc, name, fold) < acc.len(),
    ensures
        pair_sum(merge_into(acc, name, a, fold)) == pair_sum(acc) + a,
{
    let k = find_name(acc, name, fold);
    if k >= 0 {
        lemma_pair_sum_update(acc, k, acc[k].0, a);
    } else {
        assert(acc.push((name, a)).drop_last() =~= acc);
    }
}

proof fn lemma_find_name_range(acc: Seq<(Seq<char>, int)>, name: Seq<char>, fold: bool)
    ensures
        -1 <= find_name(acc, name, fold) < acc.len(),
        find_name(acc, name, fold) >= 0 ==> names_match(acc[find_name(acc, name, fold)].0, name, fold),
    decreases acc.len(),
{
    if acc.len() > 0 {
        lemma_find_name_range(acc.drop_first(), name, fold);
    }
}

proof fn lemma_pair_sum_merged(ps: Seq<(Seq<char>, int)>, fold: bool)
    ensures
        pair_sum(merged(ps, fold)) == pair_sum(ps),
    decreases ps.len(),
{
    if ps.len() > 0 {
        lemma_pair_sum_merged(ps.drop_last(), fold);
        lemma_find_name_range(merged(ps.drop_last(), fold), ps.last().0, fold);
        lemma_pair_sum_merge_into(merged(ps.drop_last(), fold), ps.last().0, ps.last().1, fold);
    }
}

/// Sums of prefixes of pairs with positive amounts grow up to the whole sum.
proof fn lemma_pair_sum_prefix(ps: Seq<(Seq<char>, int)>, i: int)
    requires
        0 <= i <= ps.len(),
        forall|k: int| 0 <= k < ps.len() ==> (#[trigger] ps[k]).1 > 0,
    ensures
        0 <= pair_sum(ps.take(i)) <= pair_sum(ps),
        i < ps.len() ==> pair_sum(ps.take(i)) + ps[i].1 <= pair_sum(ps),
    decreases ps.len(),
{
    if i == ps.len() {
        assert(ps.take(i) =~= ps);
        lemma_pair_sum_nonneg(ps);
    } else {
        let d = ps.drop_last();
        assert(d.take(i) =~= ps.take(i));
        assert forall|k: int| 0 <= k < d.len() implies (#[trigger] d[k]).1 > 0 by {
            assert(d[k] == ps[k]);
        }
        lemma_pair_sum_prefix(d, i);
        if i < d.len() {
            assert(d[i] == ps[i]);
        }
        lemma_pair_sum_nonneg(d);
    }
}

proof fn lemma_pair_sum_nonneg(ps: Seq<(Seq<char>, int)>)
    requires
        forall|k: int| 0 <= k < ps.len() ==> (#[trigger] ps[k]).1 > 0,
    ensures
        pair_sum(ps) >= 0,
    decreases ps.len(),
{
    if ps.len() > 0 {
        let d = ps.drop_last();
        assert forall|k: int| 0 <= k < d.len() implies (#[trigger] d[k]).1 > 0 by {
            assert(d[k] == ps[k]);
        }
        assert(ps.last() == ps[ps.len() - 1]);
        lemma_pair_sum_nonneg(d);
    }
}

/// The pairs with their amounts widened; all together they add up to at
/// most `WEIGHT_LIMIT`.
fn widen_pairs(ps: &Vec<(String, i64)>) -> (r: Vec<(String, i128)>)
    requires
        forall|k: int| 0 <= k < ps@.len() ==> 0 < #[trigger] ps@[k].1 <= MAX_VALUE,
    ensures
        wide_pairs_view(r@) == pairs_view(ps@),
        pair_sum(pairs_view(ps@)) <= WEIGHT_LIMIT,
        forall|k: int| 0 <= k < r@.len() ==> 0 < #[trigger] r@[k].1,
{
    let ghost pv = pairs_view(ps@);
    let mut r: Vec<(String, i128)> = Vec::new();
    for i in 0..ps.len()
        invariant
            pv == pairs_view(ps@),
            forall|k: int| 0 <= k < ps@.len() ==> 0 < #[trigger] ps@[k].1 <= MAX_VALUE,
            wide_pairs_view(r@) == pv.take(i as int),
            r@.len() == i,
            forall|k: int| 0 <= k < i ==> (#[trigger] r@[k]).1 == ps@[k].1,
            pair_sum(pv.take(i as int)) <= i * MAX_VALUE,
    {
        assert(pv.take(i + 1).drop_last() =~= pv.take(i as int));
        assert(pv[i as int].1 == ps@[i as int].1);
        assert((i + 1) * MAX_VALUE == i * MAX_VALUE + MAX_VALUE) by (nonlinear_arith);
        r.push((ps[i].0.clone(), ps[i].1 as i128));
        assert(wide_pairs_view(r@) =~= pv.take(i + 1));
    }
    assert(pv.take(ps@.len() as int) =~= pv);
    assert forall|k: int| 0 <= k < r@.len() implies 0 < #[trigger] r@[k].1 by {
        assert(r@[k].1 == ps@[k].1);
    }
    assert(ps@.len() * MAX_VALUE <= WEIGHT_LIMIT) by (nonlinear_arith)
        requires
            ps@.len() <= 0xffff_ffff_ffff_ffff,
    ;
    r
}

/// Adds up the amounts of matching names, keeping the order of first
/// appearance; also returns the sum of all amounts.
fn merge_pairs(ps: &Vec<(String, i128)>, fold: bool) -> (r: (Vec<(String, i128)>, i128))
    requires
        forall|k: int| 0 <= k < ps@.len() ==> 0 < #[trigger] ps@[k].1,
        pair_sum(wide_pairs_view(ps@)) <= WEIGHT_LIMIT,
    ensures
        wide_pairs_view(r.0@) == merged(wide_pairs_view(ps@), fold),
        r.1 == pair_sum(wide_pairs_view(ps@)),
        forall|k: int| 0 <= k < r.0@.len() ==> 0 < #[trigger] r.0@[k].1 <= r.1,
{
    let ghost pv = wide_pairs_view(ps@);
    assert forall|k: int| 0 <= k < pv.len() implies (#[trigger] pv[k]).1 > 0 by {
        assert(pv[k].1 == ps@[k].1);
    }
    let mut acc: Vec<(String, i128)> = Vec::new();
    let mut total: i128 = 0;
    for i in 0..ps.len()
        invariant
            pv == wide_pairs_view(ps@),
            forall|k: int| 0 <= k < ps@.len() ==> 0 < #[trigger] ps@[k].1,
            forall|k: int| 0 <= k < pv.len() ==> (#[trigger] pv[k]).1 > 0,
            pair_sum(pv) <= WEIGHT_LIMIT,
            wide_pairs_view(acc@) == merged(pv.take(i as int), fold),
            total == pair_sum(pv.take(i as int)),
            forall|k: int| 0 <= k < acc@.len() ==> 0 < #[trigger] acc@[k].1 <= total,
    {
        let ghost av = wide_pairs_view(acc@);
        assert(pv.take(i + 1).drop_last() =~= pv.take(i as int));
        assert(pv.take(i + 1).last() == pv[i as int]);
        let a = ps[i].1;
        proof {
            lemma_pair_sum_prefix(pv, i as int);
        }
        assert(0 < a && total + a <= WEIGHT_LIMIT);
        let mut j: usize = 0;
        let mut found = false;
        while j < acc.len() && !found
            invariant
                j <= acc@.len(),
                i < ps@.len(),
                av == wide_pairs_view(acc@),
                forall|q: int| 0 <= q < j ==> !names_match(#[trigger] av[q].0, ps@[i as int].0@, fold),
                found ==> j < acc@.len() && names_match(av[j as int].0, ps@[i as int].0@, fold),
            decreases acc@.len() - j + (if found { 0int } else { 1int }),
        {
            let same = if fold {
                is_username_equal(acc[j].0.as_str(), ps[i].0.as_str())
            } else {
                acc[j].0 == ps[i].0
            };
            assert(av[j as int].0 == acc@[j as int].0@);
            if same {
                found = true;
            } else {
                j = j + 1;
            }
        }
        proof {
            lemma_find_first(av, pv[i as int].0, fold, j as int);
        }
        if found {
            let name = acc[j].0.clone();
            let v = acc[j].1 + a;
            acc.set(j, (name, v));
            assert(wide_pairs_view(acc@) =~= av.update(j as int, (av[j as int].0, av[j as int].1 + a)));
        } else {
            acc.push((ps[i].0.clone(), a));
            assert(wide_pairs_view(acc@) =~= av.push((pv[i as int].0, a as int)));
        }
        total = total + a;
    }
    assert(pv.take(ps@.len() as int) =~= pv);
    (acc, total)
}

proof fn lemma_dedup_nonempty(w: Seq<Seq<char>>)
    requires
        w.len() > 0,
    ensures
        dedup_words(w).len() > 0,
    decreases w.len(),
{
    if w.len() > 1 {
        lemma_dedup_nonempty(w.drop_last());
    }
}

/// Pairs each name with the amount at the same position.
fn zip_shares(names: &Vec<String>, amounts: &Vec<i64>) -> (r: Vec<(String, i64)>)
    requires
        names@.len() == amounts@.len(),
    ensures
        r@.len() == names@.len(),
        forall|i: int| 0 <= i < r@.len() ==> (#[trigger] r@[i]).0@ == names@[i]@ && r@[i].1 == amounts@[i],
        pair_sum(pairs_view(r@)) == sum_of(amounts@),
{
    let mut r: Vec<(String, i64)> = Vec::new();
    for i in 0..names.len()
        invariant
            names@.len() == amounts@.len(),
            r@.len() == i,
            forall|k: int| 0 <= k < i ==> (#[trigger] r@[k]).0@ == names@[k]@ && r@[k].1 == amounts@[k],
            pair_sum(pairs_view(r@)) == sum_of(amounts@.take(i as int)),
    {
        let ghost before = r@;
        r.push((names[i].clone(), amounts[i]));
        assert(pairs_view(r@).drop_last() =~= pairs_view(before));
        assert(amounts@.take(i + 1).drop_last() =~= amounts@.take(i as int));
    }
    assert(amounts@.take(names@.len() as int) =~= amounts@);
    r
}

/// Splits `total` equally among the members named in `text` (a name given
/// again, with or without '@' and in any letter case, counts once); the units left over by rounding go
/// one at a time to the first members.
pub fn process_debts_equal(text: &str, total: Option<i64>) -> (r: Result<
    Vec<(String, i64)>,
    LedgerError,
>)
    requires
        total matches Some(t) ==> t > 0,
    ensures
        match r {
            Ok(v) => equal_outcome(text@, total) == Ok::<_, LedgerError>(pairs_view(v@)),
            Err(e) => equal_outcome(text@, total) == Err::<Seq<(Seq<char>, int)>, _>(e),
        },
        r matches Ok(v) ==> total matches Some(t) && pair_sum(pairs_view(v@)) == t,
{
    let users = split_words(text);
    if users.len() == 0 {
        return Err(LedgerError::EmptyParticipantList);
    }
    let total = match total {
        Some(val) => val,
        None => {
            return Err(LedgerError::MissingTotal);
        },
    };
    let all = match parse_usernames(&users) {
        Ok(all) => all,
        Err(e) => {
            return Err(e);
        },
    };
    let names = dedup_users(&all);
    proof {
        lemma_dedup_nonempty(views(all@));
    }
    let amounts = split_equal_amounts(total, names.len());
    let r = zip_shares(&names, &amounts);
    proof {
        let nv = views(names@);
        assert(pairs_view(r@) =~= Seq::new(
            nv.len(),
            |i: int| (nv[i], equal_share(total as int, nv.len() as int, i)),
        ));
    }
    Ok(r)
}

/// Narrows merged amounts that are known to fit.
fn narrow_pairs(m: &Vec<(String, i128)>, bound: i128) -> (r: Vec<(String, i64)>)
    requires
        0 <= bound <= i64::MAX,
        forall|k: int| 0 <= k < m@.len() ==> 0 <= #[trigger] m@[k].1 <= bound,
    ensures
        pairs_view(r@) == wide_pairs_view(m@),
{
    let mut r: Vec<(String, i64)> = Vec::new();
    for i in 0..m.len()
        invariant
            0 <= bound <= i64::MAX,
            forall|k: int| 0 <= k < m@.len() ==> 0 <= #[trigger] m@[k].1 <= bound,
            pairs_view(r@) == wide_pairs_view(m@.take(i as int)),
    {
        let ghost before = r@;
        assert(0 <= m@[i as int].1 <= bound);
        r.push((m[i].0.clone(), m[i].1 as i64));
        assert(pairs_view(r@) =~= pairs_view(before).push((m@[i as int].0@, m@[i as int].1 as int)));
        assert(m@.take(i + 1) =~= m@.take(i as int).push(m@[i as int]));
        assert(wide_pairs_view(m@.take(i + 1)) =~= wide_pairs_view(m@.take(i as int)).push(
            (m@[i as int].0@, m@[i as int].1 as int),
        ));
    }
    assert(m@.take(m@.len() as int) =~= m@);
    r
}

/// Splits `total` by the exact amounts in `text`, "name amount" pairs in the
/// currency's minor units; amounts of a repeated name add up, and any
/// shortfall is charged to the creditor.
pub fn process_debts_exact(
    text: &str,
    creditor: &Option<String>,
    currency: Option<Currency>,
    total: Option<i64>,
) -> (r: Result<Vec<(String, i64)>, LedgerError>)
    requires
        currency matches Some(c) ==> c.1 >= 0,
        total matches Some(t) ==> t > 0,
    ensures
        match r {
            Ok(v) => exact_outcome(
                text@,
                match creditor { Some(c) => Some(c@), None => None },
                match currency { Some(c) => Some(c.1 as int), None => None },
                total,
            ) == Ok::<_, LedgerError>(pairs_view(v@)),
            Err(e) => exact_outcome(
                text@,
                match creditor { Some(c) => Some(c@), None => None },
                match currency { Some(c) => Some(c.1 as int), None => None },
                total,
            ) == Err::<Seq<(Seq<char>, int)>, _>(e),
        },
        r matches Ok(v) ==> total matches Some(t) && pair_sum(pairs_view(v@)) == t,
{
    let creditor = match creditor {
        Some(c) => c,
        None => {
            return Err(LedgerError::MissingCreditor);
        },
    };
    let total = match total {
        Some(t) => t,
        None => {
            return Err(LedgerError::MissingTotal);
        },
    };
    let currency = match currency {
        Some(c) => c,
        None => {
            return Err(LedgerError::MissingCurrency);
        },
    };
    let items = split_words(text);
    if items.len() % 2 != 0 {
        return Err(LedgerError::OddTokenCount);
    }
    let ps = match parse_pairs(&items, currency.1, None) {
        Ok(ps) => ps,
        Err(e) => {
            return Err(e);
        },
    };
    let wide = widen_pairs(&ps);
    let (mut m, sum) = merge_pairs(&wide, false);
    proof {
        lemma_pair_sum_merged(pairs_view(ps@), false);
    }
    if sum > total as i128 {
        return Err(LedgerError::ExactAmountsExceedTotal);
    }
    if sum < total as i128 {
        let slack = total as i128 - sum;
        let ghost mv = wide_pairs_view(m@);
        let mut j: usize = 0;
        let mut found = false;
        while j < m.len() && !found
            invariant
                j <= m@.len(),
                mv == wide_pairs_view(m@),
                forall|q: int| 0 <= q < j ==> !names_match(#[trigger] mv[q].0, creditor@, false),
                found ==> j < m@.len() && names_match(mv[j as int].0, creditor@, false),
            decreases m@.len() - j + (if found { 0int } else { 1int }),
        {
            assert(mv[j as int].0 == m@[j as int].0@);
            if m[j].0 == *creditor {
                found = true;
            } else {
                j = j + 1;
            }
        }
        proof {
            lemma_find_first(mv, creditor@, false, j as int);
            lemma_find_name_range(mv, creditor@, false);
            lemma_pair_sum_merge_into(mv, creditor@, slack as int, false);
        }
        if found {
            let name = m[j].0.clone();
            let v = m[j].1 + slack;
            m.set(j, (name, v));
            assert(wide_pairs_view(m@) =~= mv.update(j as int, (mv[j as int].0, mv[j as int].1 + slack)));
        } else {
            m.push((creditor.clone(), slack));
            assert(wide_pairs_view(m@) =~= mv.push((creditor@, slack as int)));
        }
    }
    let r = narrow_pairs(&m, total as i128);
    Ok(r)
}

/// Weight pairs as plain values.
pub open spec fn weight_pairs_view(v: Seq<(String, u128, usize)>) -> Seq<(Seq<char>, (int, nat))> {
    v.map_values(|x: (String, u128, usize)| (x.0@, (x.1 as int, x.2 as nat)))
}

/// Reads name/weight word pairs.
fn parse_weight_pairs(w: &Vec<String>) -> (r: Result<Vec<(String, u128, usize)>, LedgerError>)
    requires
        w@.len() % 2 == 0,
    ensures
        match r {
            Ok(v) => weight_pairs_outcome(views(w@)) == Ok::<_, LedgerError>(weight_pairs_view(v@))
                && forall|k: int| 0 <= k < v@.len() ==> 0 < #[trigger] v@[k].1 <= WEIGHT_LIMIT,
            Err(e) => weight_pairs_outcome(views(w@)) == Err::<Seq<(Seq<char>, (int, nat))>, _>(e),
        },
{
    let ghost wv = views(w@);
    let mut ps: Vec<(String, u128, usize)> = Vec::new();
    let n = w.len();
    let mut i: usize = 0;
    assert(wv.skip(0) =~= wv);
    assert(weight_pairs_view(ps@) + seq![] =~= seq![]);
    while i < n
        invariant
            n == w@.len(),
            n % 2 == 0,
            i % 2 == 0,
            wv == views(w@),
            i <= n,
            forall|k: int| 0 <= k < ps@.len() ==> 0 < #[trigger] ps@[k].1 <= WEIGHT_LIMIT,
            weight_pairs_outcome(wv) == prepend_ok(
                weight_pairs_view(ps@),
                weight_pairs_outcome(wv.skip(i as int)),
            ),
        decreases n - i,
    {
        let ghost rest = wv.skip(i as int);
        assert(rest[0] == w@[i as int]@);
        assert(rest[1] == w@[i + 1]@);
        assert(rest.skip(2) =~= wv.skip(i + 2));
        let u = match parse_username(w[i].as_str()) {
            Err(e) => {
                return Err(e);
            },
            Ok(u) => u,
        };
        let (digits, scale) = match parse_weight(w[i + 1].as_str()) {
            Err(e) => {
                return Err(e);
            },
            Ok(x) => x,
        };
        let ghost before = weight_pairs_view(ps@);
        ps.push((u, digits, scale));
        assert(weight_pairs_view(ps@) =~= before.push((u@, (digits as int, scale as nat))));
        proof {
            match weight_pairs_outcome(wv.skip(i + 2)) {
                Ok(tail) => {
                    assert(before + (seq![(u@, (digits as int, scale as nat))] + tail) =~= weight_pairs_view(
                        ps@,
                    ) + tail);
                },
                Err(_) => {},
            }
        }
        i = i + 2;
    }
    assert(wv.skip(n as int) =~= seq![]);
    assert(weight_pairs_view(ps@) + seq![] =~= weight_pairs_view(ps@));
    Ok(ps)
}

proof fn lemma_max_scale(ps: Seq<(Seq<char>, (int, nat))>)
    ensures
        forall|k: int| 0 <= k < ps.len() ==> (#[trigger] ps[k]).1.1 <= max_scale(ps),
        ps.len() > 0 ==> exists|k: int| 0 <= k < ps.len() && (#[trigger] ps[k]).1.1 == max_scale(ps),
    decreases ps.len(),
{
    if ps.len() > 0 {
        let d = ps.drop_last();
        lemma_max_scale(d);
        assert forall|k: int| 0 <= k < ps.len() implies (#[trigger] ps[k]).1.1 <= max_scale(ps) by {
            if k < d.len() {
                assert(d[k] == ps[k]);
            }
        }
        if ps.last().1.1 > max_scale(d) || d.len() == 0 {
            assert(ps[ps.len() - 1].1.1 == max_scale(ps) || d.len() == 0);
        } else {
            let k = choose|k: int| 0 <= k < d.len() && (#[trigger] d[k]).1.1 == max_scale(d);
            assert(d[k] == ps[k]);
        }
    }
}

/// Brings the weights to the largest scale among them, as integers; `None`
/// when those integers add up to more than `WEIGHT_LIMIT`.
#[verifier::loop_isolation(false)]
fn scale_weights(ps: &Vec<(String, u128, usize)>) -> (r: Option<Vec<(String, i128)>>)
    requires
        forall|k: int| 0 <= k < ps@.len() ==> 0 < #[trigger] ps@[k].1 <= WEIGHT_LIMIT,
    ensures
        match r {
            Some(v) => {
                let sc = scaled_weights(weight_pairs_view(ps@), max_scale(weight_pairs_view(ps@)));
                &&& wide_pairs_view(v@) == sc
                &&& pair_sum(sc) <= WEIGHT_LIMIT
                &&& forall|k: int| 0 <= k < v@.len() ==> 0 < #[trigger] v@[k].1
            },
            None => pair_sum(
                scaled_weights(weight_pairs_view(ps@), max_scale(weight_pairs_view(ps@))),
            ) > WEIGHT_LIMIT,
        },
{
    let ghost pv = weight_pairs_view(ps@);
    let mut f: usize = 0;
    for i in 0..ps.len()
        invariant
            pv == weight_pairs_view(ps@),
            f == max_scale(pv.take(i as int)),
    {
        assert(pv.take(i + 1).drop_last() =~= pv.take(i as int));
        assert(pv[i as int].1.1 == ps@[i as int].2);
        if ps[i].2 > f {
            f = ps[i].2;
        }
    }
    assert(pv.take(ps@.len() as int) =~= pv);
    proof {
        lemma_max_scale(pv);
    }
    let ghost sc = scaled_weights(pv, f as nat);
    let mut r: Vec<(String, i128)> = Vec::new();
    let mut total: u128 = 0;
    for i in 0..ps.len()
        invariant
            pv == weight_pairs_view(ps@),
            f == max_scale(pv),
            forall|k: int| 0 <= k < pv.len() ==> (#[trigger] pv[k]).1.1 <= f,
            forall|k: int| 0 <= k < ps@.len() ==> 0 < #[trigger] ps@[k].1 <= WEIGHT_LIMIT,
            sc == scaled_weights(pv, f as nat),
            wide_pairs_view(r@) == sc.take(i as int),
            total == pair_sum(sc.take(i as int)),
            total <= WEIGHT_LIMIT,
            forall|k: int| 0 <= k < r@.len() ==> 0 < #[trigger] r@[k].1,
    {
        let n = ps[i].1;
        assert(pv[i as int] == (ps@[i as int].0@, (n as int, ps@[i as int].2 as nat)));
        assert(pv[i as int].1.1 <= f);
        let e = f - ps[i].2;
        assert(sc[i as int] == (pv[i as int].0, n * pow10(e as nat)));
        assert forall|k: int| 0 <= k < sc.len() implies (#[trigger] sc[k]).1 > 0 by {
            assert(pv[k].1.0 == ps@[k].1);
            lemma_pow10_pos((f - pv[k].1.1) as nat);
            assert(pv[k].1.0 * pow10((f - pv[k].1.1) as nat) > 0) by (nonlinear_arith)
                requires pv[k].1.0 > 0, pow10((f - pv[k].1.1) as nat) >= 1;
        }
        assert(sc.take(i + 1).drop_last() =~= sc.take(i as int));
        // the scaled weight, n * 10^e, stopping once it passes the limit
        let mut v: u128 = n;
        let mut j: usize = 0;
        while j < e
            invariant
                j <= e,
                v == n * pow10(j as nat),
                v <= WEIGHT_LIMIT,
                n > 0,
            decreases e - j,
        {
            if v > WEIGHT_LIMIT / 10 {
                proof {
                    lemma_pow10_mono((j + 1) as nat, e as nat);
                    assert(n * pow10(e as nat) >= n * pow10((j + 1) as nat)) by (nonlinear_arith)
                        requires pow10(e as nat) >= pow10((j + 1) as nat), n > 0;
                    assert(n * pow10((j + 1) as nat) == 10 * v) by (nonlinear_arith)
                        requires v == n * pow10(j as nat), pow10((j + 1) as nat) == 10 * pow10(j as nat);
                    lemma_pair_sum_prefix(sc, i as int);
                }
                return None;
            }
            proof {
                assert(n * pow10((j + 1) as nat) == 10 * v) by (nonlinear_arith)
                    requires v == n * pow10(j as nat), pow10((j + 1) as nat) == 10 * pow10(j as nat);
            }
            v = v * 10;
            j = j + 1;
        }
        if v > WEIGHT_LIMIT - total {
            proof {
                lemma_pair_sum_prefix(sc, i as int);
            }
            return None;
        }
        r.push((ps[i].0.clone(), v as i128));
        assert(wide_pairs_view(r@) =~= sc.take(i + 1));
        total = total + v;
    }
    assert(sc.take(ps@.len() as int) =~= sc);
    Some(r)
}

proof fn lemma_int_sum_weights(m: Seq<(Seq<char>, int)>)
    ensures
        int_sum(weights_of(m)) == pair_sum(m),
    decreases m.len(),
{
    if m.len() > 0 {
        assert(weights_of(m).drop_last() =~= weights_of(m.drop_last()));
        lemma_int_sum_weights(m.drop_last());
    }
}

/// Splits `total` in proportion to the weights in `text`, "name weight"
/// pairs; weights of the same member (ignoring letter case) add up. Each
/// share is rounded half away from zero and the units left over go one at a
/// time to the first members.
#[verifier::loop_isolation(false)]
pub fn process_debts_ratio(text: &str, total: Option<i64>) -> (r: Result<
    Vec<(String, i64)>,
    LedgerError,
>)
    requires
        total matches Some(t) ==> t > 0,
    ensures
        match r {
            Ok(v) => ratio_outcome(text@, total) == Ok::<_, LedgerError>(pairs_view(v@)),
            Err(e) => ratio_outcome(text@, total) == Err::<Seq<(Seq<char>, int)>, _>(e),
        },
        r matches Ok(v) ==> total matches Some(t) && pair_sum(pairs_view(v@)) == t,
{
    let items = split_words(text);
    if items.len() % 2 != 0 {
        return Err(LedgerError::OddTokenCount);
    }
    let ps = match parse_weight_pairs(&items) {
        Ok(ps) => ps,
        Err(e) => {
            return Err(e);
        },
    };
    let total = match total {
        Some(val) => val,
        None => {
            return Err(LedgerError::MissingTotal);
        },
    };
    let scaled = match scale_weights(&ps) {
        Some(v) => v,
        None => {
            return Err(LedgerError::AmountTooLarge);
        },
    };
    let (m, _) = merge_pairs(&scaled, true);
    let ghost mv = wide_pairs_view(m@);
    proof {
        lemma_pair_sum_merged(wide_pairs_view(scaled@), true);
    }
    if m.len() == 0 {
        return Err(LedgerError::EmptyParticipantList);
    }
    let mut weights: Vec<u128> = Vec::new();
    for i in 0..m.len()
        invariant
            mv == wide_pairs_view(m@),
            forall|k: int| 0 <= k < m@.len() ==> 0 < #[trigger] m@[k].1,
            weights@.len() == i,
            forall|k: int| 0 <= k < i ==> #[trigger] weights@[k] == mv[k].1,
    {
        assert(mv[i as int].1 == m@[i as int].1);
        weights.push(m[i].1 as u128);
    }
    assert(weights_view(weights@) =~= weights_of(mv));
    proof {
        lemma_int_sum_weights(mv);
    }
    let amounts = split_ratio_amounts(total, &weights);
    let mut names: Vec<String> = Vec::new();
    for i in 0..m.len()
        invariant
            names@.len() == i,
            forall|k: int| 0 <= k < i ==> (#[trigger] names@[k])@ == m@[k].0@,
    {
        names.push(m[i].0.clone());
    }
    let r = zip_shares(&names, &amounts);
    assert(pairs_view(r@) =~= Seq::new(
        mv.len(),
        |i: int| (mv[i].0, ratio_share(total as int, weights_of(mv), i)),
    ));
    Ok(r)
}

/// Reads a pay-back request: "name amount" pairs in the currency's minor
/// units, amounts of a repeated name adding up; the sender may not name
/// themselves.
#[verifier::loop_isolation(false)]
pub fn parse_debts_payback(text: &str, currency: Currency, sender: &str) -> (r: Result<
    Vec<(String, i64)>,
    LedgerError,
>)
    requires
        currency.1 >= 0,
    ensures
        match r {
            Ok(v) => payback_outcome(text@, currency.1 as int, sender@) == Ok::<_, LedgerError>(
                pairs_view(v@),
            ),
            Err(e) => payback_outcome(text@, currency.1 as int, sender@) == Err::<
                Seq<(Seq<char>, int)>,
                _,
            >(e),
        },
{
    let items = split_words(text);
    if items.len() % 2 != 0 {
        return Err(LedgerError::OddTokenCount);
    }
    let ps = match parse_pairs(&items, currency.1, Some(sender)) {
        Ok(ps) => ps,
        Err(e) => {
            return Err(e);
        },
    };
    let wide = widen_pairs(&ps);
    let (m, _) = merge_pairs(&wide, false);
    let ghost mv = wide_pairs_view(m@);
    for i in 0..m.len()
        invariant
            mv == wide_pairs_view(m@),
            forall|k: int| 0 <= k < i ==> #[trigger] m@[k].1 <= i64::MAX,
    {
        if m[i].1 > i64::MAX as i128 {
            assert(mv[i as int].1 > i64::MAX);
            return Err(LedgerError::AmountTooLarge);
        }
    }
    assert forall|k: int| 0 <= k < mv.len() implies !(#[trigger] mv[k].1 > i64::MAX) by {
        assert(mv[k].1 == m@[k].1);
    }
    Ok(narrow_pairs(&m, i64::MAX as i128))
}

/// How a payment's total is divided among its members.
#[derive(Clone, Copy, Debug, PartialEq, Eq, Structural)]
pub enum AddDebtsFormat {
    Equal,
    Exact,
    Ratio,
}

/// Divides a payment's total by the chosen split format.
pub fn process_debts(
    debts_format: AddDebtsFormat,
    text: &str,
    creditor: &Option<String>,
    currency: Option<Currency>,
    total: Option<i64>,
) -> (r: Result<Vec<(String, i64)>, LedgerError>)
    requires
        currency matches Some(c) ==> c.1 >= 0,
        total matches Some(t) ==> t > 0,
    ensures
        match debts_format {
            AddDebtsFormat::Equal => match r {
                Ok(v) => equal_outcome(text@, total) == Ok::<_, LedgerError>(pairs_view(v@)),
                Err(e) => equal_outcome(text@, total) == Err::<Seq<(Seq<char>, int)>, _>(e),
            },
            AddDebtsFormat::Exact => match r {
                Ok(v) => exact_outcome(
                    text@,
                    match creditor { Some(c) => Some(c@), None => None },
                    match currency { Some(c) => Some(c.1 as int), None => None },
                    total,
                ) == Ok::<_, LedgerError>(pairs_view(v@)),
                Err(e) => exact_outcome(
                    text@,
                    match creditor { Some(c) => Some(c@), None => None },
                    match currency { Some(c) => Some(c.1 as int), None => None },
                    total,
                ) == Err::<Seq<(Seq<char>, int)>, _>(e),
            },
            AddDebtsFormat::Ratio => match r {
                Ok(v) => ratio_outcome(text@, total) == Ok::<_, LedgerError>(pairs_view(v@)),
                Err(e) => ratio_outcome(text@, total) == Err::<Seq<(Seq<char>, int)>, _>(e),
            },
        },
        r matches Ok(v) ==> total matches Some(t) && pair_sum(pairs_view(v@)) == t,
{
    match debts_format {
        AddDebtsFormat::Equal => process_debts_equal(text, total),
        AddDebtsFormat::Exact => process_debts_exact(text, creditor, currency, total),
        AddDebtsFormat::Ratio => process_debts_ratio(text, total),
    }
}

} // verus!
