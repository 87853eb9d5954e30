//! Statements: the balances in one currency, or all converted to one
//! display currency at rates the caller supplies.

use vstd::prelude::*;

use crate::balance::{
    applied, edge_key, lemma_canonical_rebuilt, net_of, payment_delta, reversed,
    sorted_debts, steps_fit, BalanceGraph, Debt, EdgeKey,
};
use crate::amounts::pow10;
use crate::currency::{currency_of, get_currency_from_code, upper_of};
use crate::error::LedgerError;
use crate::split::{pairs_view, round_div};
use crate::text::views;

verus! {

/// Which balances a statement shows.
#[derive(Clone, Debug, PartialEq, Eq)]
pub enum StatementOption {
    /// The balances in this currency only.
    Currency(String),
    /// All balances, converted to the chat's display currency.
    ConvertCurrency,
}

/// Whether a payment listing was opened to edit or to delete one.
#[derive(Clone, Copy, Debug, PartialEq, Eq, Structural)]
pub enum SelectPaymentType {
    EditPayment,
    DeletePayment,
}

/// An exchange rate as an exact fraction: one unit of the source currency is
/// `numerator / denominator` units of the target currency.
#[derive(Clone, Copy, Debug, PartialEq, Eq, Structural)]
pub struct Rate {
    pub numerator: u32,
    pub denominator: u32,
}


/// `v` held to the range of `i64`.
pub open spec fn clamp_i64(v: int) -> int {
    if v > i64::MAX {
        i64::MAX as int
    } else if v < i64::MIN {
        i64::MIN as int
    } else {
        v
    }
}

/// An amount of minor units with `from` decimals, converted at `rate` into
/// minor units with `to` decimals, rounded half away from zero and held to
/// the range of `i64`.
pub open spec fn converted(amount: int, from: int, to: int, rate: Rate) -> int {
    let mag = if amount < 0 { -amount } else { amount };
    let p = mag * rate.numerator * (if to >= from { pow10((to - from) as nat) } else { 1 });
    let q = rate.denominator * (if from > to { pow10((from - to) as nat) } else { 1 });
    let m = round_div(p, q);
    clamp_i64(if amount < 0 { -m } else { m })
}

proof fn lemma_pow10_bounds(k: nat)
    requires
        k <= 9,
    ensures
        1 <= pow10(k) <= 1_000_000_000,
{
    reveal_with_fuel(pow10, 10);
}

/// `p / q` rounded half away from zero, computed without overflow.
fn round_div_u128(p: u128, q: u128) -> (r: u128)
    requires
        q > 0,
        q <= 0x1_0000_0000_0000_0000_0000_0000,
    ensures
        r == round_div(p as int, q as int),
{
    let a = p / q;
    let b = p % q;
    proof {
        vstd::arithmetic::div_mod::lemma_fundamental_div_mod(p as int, q as int);
        let r = round_div(p as int, q as int);
        assert(p == q * a + b);
        assert(0 <= b < q);
        if 2 * b >= q {
            assert(2 * p + q == (a + 1) * (2 * q) + (2 * b - q)) by (nonlinear_arith)
                requires
                    p == q * a + b,
            ;
            vstd::arithmetic::div_mod::lemma_fundamental_div_mod_converse(
                2 * p + q,
                2 * q,
                a + 1,
                2 * b - q,
            );
        } else {
            assert(2 * p + q == a * (2 * q) + (2 * b + q)) by (nonlinear_arith)
                requires
                    p == q * a + b,
            ;
            vstd::arithmetic::div_mod::lemma_fundamental_div_mod_converse(
                2 * p + q,
                2 * q,
                a as int,
                2 * b + q,
            );
        }
    }
    if 2 * b >= q {
        assert(a < p || p == 0) by (nonlinear_arith)
            requires
                p == q * a + b,
                2 * b >= q,
                b < q,
                q > 0,
        ;
        a + 1
    } else {
        a
    }
}


/// Ten to the power `k`, for `k` up to nine.
fn pow10_u128(k: i32) -> (r: u128)
    requires
        0 <= k <= 9,
    ensures
        r == pow10(k as nat),
        1 <= r <= 1_000_000_000,
{
    let mut r: u128 = 1;
    let mut i: i32 = 0;
    proof {
        lemma_pow10_bounds(k as nat);
    }
    while i < k
        invariant
            0 <= i <= k <= 9,
            r == pow10(i as nat),
        decreases k - i,
    {
        proof {
            lemma_pow10_bounds(i as nat);
            assert(pow10((i + 1) as nat) == 10 * pow10(i as nat));
        }
        r = r * 10;
        i = i + 1;
    }
    r
}

/// Converts an amount between currencies with the given numbers of decimal
/// places: `amount * 10^(to - from) * rate`, rounded half away from zero and
/// held to the range of `i64`.
pub fn convert_amount(amount: i64, from_decimals: i32, to_decimals: i32, rate: Rate) -> (r: i64)
    requires
        0 <= from_decimals <= 9,
        0 <= to_decimals <= 9,
        rate.denominator > 0,
    ensures
        r == converted(amount as int, from_decimals as int, to_decimals as int, rate),
{
    let mag: u128 = if amount < 0 {
        (0i128 - amount as i128) as u128
    } else {
        amount as u128
    };
    let up: u128 = if to_decimals >= from_decimals {
        pow10_u128(to_decimals - from_decimals)
    } else {
        1
    };
    let down: u128 = if from_decimals > to_decimals {
        pow10_u128(from_decimals - to_decimals)
    } else {
        1
    };
    let num = rate.numerator as u128;
    let den = rate.denominator as u128;
    assert(mag * num <= 0x8000_0000_0000_0000 * 0xffff_ffff) by (nonlinear_arith)
        requires
            mag <= 0x8000_0000_0000_0000,
            num <= 0xffff_ffff,
    ;
    let pn = mag * num;
    assert(pn * up <= 0x8000_0000_0000_0000 * 0xffff_ffff * 1_000_000_000) by (nonlinear_arith)
        requires
            pn <= 0x8000_0000_0000_0000 * 0xffff_ffff,
            up <= 1_000_000_000,
    ;
    let p = pn * up;
    assert(den * down <= 0xffff_ffff * 1_000_000_000) by (nonlinear_arith)
        requires
            den <= 0xffff_ffff,
            down <= 1_000_000_000,
    ;
    let q = den * down;
    assert(q >= 1) by (nonlinear_arith)
        requires
            den >= 1,
            down >= 1,
            q == den * down,
    ;
    assert(p == mag * num * up);
    let m = round_div_u128(p, q);
    if amount < 0 {
        if m > 0x8000_0000_0000_0000 {
            i64::MIN
        } else {
            (0i128 - m as i128) as i64
        }
    } else {
        if m > i64::MAX as u128 {
            i64::MAX
        } else {
            m as i64
        }
    }
}

/// Converts an amount between two currencies given by code, at `rate`; an
/// unknown code leaves the amount as it is.
pub fn convert_currency(amount: i64, from: &str, to: &str, rate: Rate) -> (r: i64)
    requires
        rate.denominator > 0,
    ensures
        match (currency_of(upper_of(from@)), currency_of(upper_of(to@))) {
            (Some(f), Some(t)) => r == converted(amount as int, f.1, t.1, rate),
            _ => r == amount,
        },
{
    let f = match get_currency_from_code(from) {
        Some(c) => c,
        None => {
            return amount;
        },
    };
    let t = match get_currency_from_code(to) {
        Some(c) => c,
        None => {
            return amount;
        },
    };
    convert_amount(amount, f.1, t.1, rate)
}


/// The rate at which one currency converts to the display currency; `None`
/// when the rate source had none.
#[derive(Clone, Debug, PartialEq, Eq)]
pub struct CurrencyRate {
    pub code: String,
    pub rate: Option<Rate>,
}

/// A rate that can be used: its denominator is not zero.
pub open spec fn rate_valid(r: Option<Rate>) -> bool {
    match r {
        Some(x) => x.denominator > 0,
        None => true,
    }
}

pub open spec fn rates_view(rates: Seq<CurrencyRate>) -> Seq<(Seq<char>, Option<Rate>)> {
    rates.map_values(|r: CurrencyRate| (r.code@, r.rate))
}

/// The rate given for `code` by its first entry, if any.
pub open spec fn rate_lookup(rates: Seq<(Seq<char>, Option<Rate>)>, code: Seq<char>) -> Option<Rate>
    decreases rates.len(),
{
    if rates.len() == 0 {
        None
    } else if rates[0].0 == code {
        rates[0].1
    } else {
        rate_lookup(rates.drop_first(), code)
    }
}

/// An edge as it stands in the converted statement: moved to the display
/// currency when a rate is known, left in its own currency otherwise.
pub open spec fn converted_record(
    e: Debt,
    target: Seq<char>,
    rates: Seq<(Seq<char>, Option<Rate>)>,
) -> (EdgeKey, int) {
    if e.currency@ == target {
        (edge_key(e), e.amount as int)
    } else {
        match rate_lookup(rates, e.currency@) {
            Some(r) => (
                (target, e.debtor@, e.creditor@),
                match (currency_of(upper_of(e.currency@)), currency_of(upper_of(target))) {
                    (Some(f), Some(t)) => converted(e.amount as int, f.1, t.1, r),
                    _ => e.amount as int,
                },
            ),
            None => (edge_key(e), e.amount as int),
        }
    }
}

/// What the debtor of `k` owes on balance over a list of records.
pub open spec fn records_net(recs: Seq<(EdgeKey, int)>, k: EdgeKey) -> int
    decreases recs.len(),
{
    if recs.len() == 0 {
        0
    } else {
        records_net(recs.drop_last(), k) + (if recs.last().0 == k {
            recs.last().1
        } else if recs.last().0 == reversed(k) {
            -recs.last().1
        } else {
            0
        })
    }
}

/// The records netted into positive edges.
pub open spec fn records_map(recs: Seq<(EdgeKey, int)>) -> Map<EdgeKey, int> {
    Map::new(|k: EdgeKey| records_net(recs, k) > 0, |k: EdgeKey| records_net(recs, k))
}

/// Whether every running net amount stays within `i64` while the records
/// are netted one by one.
pub open spec fn records_fit(recs: Seq<(EdgeKey, int)>) -> bool {
    forall|i: int|
        0 <= i < recs.len() ==> -i64::MAX <= #[trigger] records_net(recs.take(i + 1), recs[i].0)
            <= i64::MAX
}

/// The graph's edges as they stand in a statement converted to `target`.
pub open spec fn converted_records(g: BalanceGraph, target: Seq<char>, rates: Seq<CurrencyRate>) -> Seq<
    (EdgeKey, int),
> {
    Seq::new(
        g.edges().len(),
        |i: int| converted_record(g.edges()[i], target, rates_view(rates)),
    )
}

/// Looks up the rate for a currency code.
fn find_rate(rates: &Vec<CurrencyRate>, code: &String) -> (r: Option<Rate>)
    ensures
        r == rate_lookup(rates_view(rates@), code@),
{
    let ghost rv = rates_view(rates@);
    let mut i: usize = 0;
    assert(rv.skip(0) =~= rv);
    while i < rates.len()
        invariant
            rv == rates_view(rates@),
            i <= rates@.len(),
            rate_lookup(rv, code@) == rate_lookup(rv.skip(i as int), code@),
        decreases rates@.len() - i,
    {
        assert(rv.skip(i as int)[0] == (rates@[i as int].code@, rates@[i as int].rate));
        if rates[i].code == *code {
            return rates[i].rate;
        }
        assert(rv.skip(i as int).drop_first() =~= rv.skip(i + 1));
        i = i + 1;
    }
    None
}

/// Converts every balance to `target` at the supplied rates and nets the
/// result again; a balance whose currency has no rate stays in its own
/// currency.
pub fn convert_balances(graph: &BalanceGraph, target: &str, rates: &Vec<CurrencyRate>) -> (r: Result<
    BalanceGraph,
    LedgerError,
>)
    requires
        graph.wf(),
        forall|i: int| 0 <= i < rates@.len() ==> rate_valid((#[trigger] rates@[i]).rate),
    ensures
        r is Ok <==> records_fit(converted_records(*graph, target@, rates@)),
        r matches Ok(g) ==> g.wf() && g@ == records_map(converted_records(*graph, target@, rates@)),
        r matches Err(e) ==> e == LedgerError::BalanceOverflow,
{
    let edges = graph.stored_edges();
    let ghost recs = converted_records(*graph, target@, rates@);
    let ghost rv = rates_view(rates@);
    let tg = String::from_str(target);
    let mut g = BalanceGraph::new();
    proof {
        assert forall|i: int| 0 <= i < rv.len() implies rate_valid((#[trigger] rv[i]).1) by {
            assert(rv[i].1 == rates@[i].rate);
        }
        lemma_rate_lookup_valid(rv, tg@);
    }
    for i in 0..edges.len()
        invariant
            edges@ == graph.edges(),
            recs == converted_records(*graph, target@, rates@),
            rv == rates_view(rates@),
            tg@ == target@,
            graph.wf(),
            forall|i: int| 0 <= i < rv.len() ==> rate_valid((#[trigger] rv[i]).1),
            g.wf(),
            forall|k: EdgeKey| #[trigger] net_of(g@, k) == records_net(recs.take(i as int), k),
            forall|j: int| 0 <= j < i ==> -i64::MAX <= #[trigger] records_net(recs.take(j + 1), recs[j].0) <= i64::MAX,
    {
        let e = &edges[i];
        proof {
            lemma_rate_lookup_valid(rv, e.currency@);
            graph.lemma_edge_distinct(i as int);
        }
        let (cur, amt) = if e.currency == tg {
            (e.currency.clone(), e.amount)
        } else {
            match find_rate(rates, &e.currency) {
                Some(rate) => (tg.clone(), convert_currency(e.amount, e.currency.as_str(), target, rate)),
                None => (e.currency.clone(), e.amount),
            }
        };
        let ghost rec = recs[i as int];
        assert(rec == ((cur@, e.debtor@, e.creditor@), amt as int));
        let debts = vec![(e.debtor.clone(), amt)];
        let ghost dv = pairs_view(debts@);
        let ghost v = g@;
        proof {
            g.lemma_view_canonical();
            assert(dv =~= seq![(e.debtor@, amt as int)]);
            assert(dv.take(1) =~= dv);
            assert(dv.drop_last() =~= Seq::<(Seq<char>, int)>::empty());
            assert(recs.take(i + 1).drop_last() =~= recs.take(i as int));
            assert forall|k: EdgeKey| #[trigger] payment_delta(dv, e.creditor@, cur@, k) == (if rec.0 == k {
                rec.1
            } else if rec.0 == reversed(k) {
                -rec.1
            } else {
                0
            }) by {
                assert(reversed(reversed(k)) == k);
                assert(payment_delta(dv.drop_last(), e.creditor@, cur@, k) == 0);
                assert(dv.last() == (e.debtor@, amt as int));
                assert(e.debtor@ != e.creditor@);
            }
        }
        match g.insert_payment(&debts, e.creditor.as_str(), cur.as_str()) {
            Ok(()) => {
                proof {
                    g.lemma_view_canonical();
                    assert(dv[0] == (e.debtor@, amt as int));
                    assert forall|k: EdgeKey| #[trigger] net_of(g@, k) == records_net(recs.take(i + 1), k) by {
                        let f = |q: EdgeKey| net_of(v, q) + payment_delta(dv, e.creditor@, cur@, q);
                        assert(g@ == applied(v, dv, e.creditor@, cur@, true));
                        assert(net_of(g@, k) == f(k)) by {
                            crate::balance::lemma_delta_reversed(dv, e.creditor@, cur@, k);
                            assert(reversed(reversed(k)) == k);
                        }
                    }
                    assert(records_net(recs.take(i + 1), recs[i as int].0) == net_of(v, rec.0) + rec.1);
                    assert(dv[0].0 != e.creditor@);
                }
            },
            Err(err) => {
                proof {
                    assert(!steps_fit(v, dv, e.creditor@, cur@, true));
                    assert(dv[0] == (e.debtor@, amt as int));
                    assert(records_net(recs.take(i + 1), recs[i as int].0) == net_of(v, rec.0) + rec.1);
                }
                return Err(LedgerError::BalanceOverflow);
            },
        }
    }
    assert(recs.take(edges@.len() as int) =~= recs);
    proof {
        g.lemma_view_canonical();
        lemma_canonical_rebuilt(g@);
        assert(g@ =~= records_map(recs));
    }
    Ok(g)
}

proof fn lemma_rate_lookup_valid(rv: Seq<(Seq<char>, Option<Rate>)>, code: Seq<char>)
    requires
        forall|i: int| 0 <= i < rv.len() ==> rate_valid((#[trigger] rv[i]).1),
    ensures
        rate_valid(rate_lookup(rv, code)),
    decreases rv.len(),
{
    if rv.len() > 0 {
        assert forall|i: int| 0 <= i < rv.drop_first().len() implies rate_valid((#[trigger] rv.drop_first()[i]).1) by {
            assert(rv.drop_first()[i] == rv[i + 1]);
        }
        lemma_rate_lookup_valid(rv.drop_first(), code);
    }
}


/// `v` lists exactly the edges of `m` (those in currency `only`, when given),
/// each once, with its amount, in statement order.
pub open spec fn lists_edges(v: Seq<Debt>, m: Map<EdgeKey, int>, only: Option<Seq<char>>) -> bool {
    &&& sorted_debts(v)
    &&& forall|i: int|
        0 <= i < v.len() ==> m.contains_key(edge_key(#[trigger] v[i])) && m[edge_key(v[i])]
            == v[i].amount && (only matches Some(c) ==> v[i].currency@ == c)
    &&& forall|k: EdgeKey|
        #[trigger] m.contains_key(k) && (only matches Some(c) ==> k.0 == c) ==> exists|i: int|
            0 <= i < v.len() && edge_key(#[trigger] v[i]) == k
}

/// Renders a statement: the balances in one currency, or all balances
/// converted to `display_currency` at the supplied rates and netted again.
pub fn render_statement(
    graph: &BalanceGraph,
    option: &StatementOption,
    display_currency: &str,
    rates: &Vec<CurrencyRate>,
) -> (r: Result<Vec<Debt>, LedgerError>)
    requires
        graph.wf(),
        forall|i: int| 0 <= i < rates@.len() ==> rate_valid((#[trigger] rates@[i]).rate),
    ensures
        match option {
            StatementOption::Currency(c) => r matches Ok(v) && lists_edges(v@, graph@, Some(c@)),
            StatementOption::ConvertCurrency => (r is Ok <==> records_fit(
                converted_records(*graph, display_currency@, rates@),
            )) && (r matches Ok(v) ==> lists_edges(
                v@,
                records_map(converted_records(*graph, display_currency@, rates@)),
                None,
            )),
        },
        r matches Err(e) ==> e == LedgerError::BalanceOverflow,
{
    match option {
        StatementOption::Currency(c) => Ok(graph.net_balances(c.as_str())),
        StatementOption::ConvertCurrency => {
            let g = convert_balances(graph, display_currency, rates)?;
            Ok(g.balances())
        },
    }
}


/// The currencies left after taking out `code`.
fn without_code(codes: &Vec<String>, code: &String) -> (r: Vec<String>)
    ensures
        views(r@) == views(codes@).filter(|c: Seq<char>| c != code@),
{
    let ghost cv = views(codes@);
    let mut r: Vec<String> = Vec::new();
    for i in 0..codes.len()
        invariant
            cv == views(codes@),
            views(r@) == cv.take(i as int).filter(|c: Seq<char>| c != code@),
    {
        assert(cv.take(i + 1) =~= cv.take(i as int).push(codes@[i as int]@));
        proof {
            cv.take(i as int).lemma_filter_push(codes@[i as int]@, |c: Seq<char>| c != code@);
        }
        let ghost before = r@;
        if codes[i] != *code {
            r.push(codes[i].clone());
            assert(views(r@) =~= views(before).push(codes@[i as int]@));
        }
    }
    assert(cv.take(codes@.len() as int) =~= cv);
    r
}

/// Renders a statement; when it lists nothing and other currencies are
/// offered, shows the first of those instead and takes it off the offered
/// currencies. Returns whether it fell back, the option shown, and the
/// statement.
pub fn render_with_fallback(
    graph: &BalanceGraph,
    option: StatementOption,
    display_currency: &str,
    rates: &Vec<CurrencyRate>,
    offered: &mut Vec<String>,
) -> (r: Result<(bool, StatementOption, Vec<Debt>), LedgerError>)
    requires
        graph.wf(),
        forall|i: int| 0 <= i < rates@.len() ==> rate_valid((#[trigger] rates@[i]).rate),
    ensures
        match r {
            Err(e) => e == LedgerError::BalanceOverflow && option == StatementOption::ConvertCurrency
                && final(offered)@ == old(offered)@,
            Ok((fell_back, shown, v)) => if !fell_back {
                shown == option && final(offered)@ == old(offered)@ && match option {
                    StatementOption::Currency(c) => lists_edges(v@, graph@, Some(c@)),
                    StatementOption::ConvertCurrency => lists_edges(
                        v@,
                        records_map(converted_records(*graph, display_currency@, rates@)),
                        None,
                    ),
                } && (v@.len() > 0 || old(offered)@.len() == 0)
            } else {
                &&& old(offered)@.len() > 0
                &&& shown == StatementOption::Currency(old(offered)@[0])
                &&& lists_edges(v@, graph@, Some(old(offered)@[0]@))
                &&& views(final(offered)@) == views(old(offered)@).filter(
                    |c: Seq<char>| c != old(offered)@[0]@,
                )
            },
        },
{
    let first = render_statement(graph, &option, display_currency, rates)?;
    if first.len() == 0 && offered.len() > 0 {
        let code = offered[0].clone();
        let alternative = StatementOption::Currency(code.clone());
        let v = graph.net_balances(code.as_str());
        let rest = without_code(offered, &code);
        *offered = rest;
        Ok((true, alternative, v))
    } else {
        Ok((false, option, first))
    }
}

} // verus!
