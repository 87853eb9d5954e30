//! Balance graph: per-currency net debts between members, kept up to date
//! as payments are recorded, edited and deleted.

use vstd::prelude::*;

use crate::error::LedgerError;
use crate::currency::Currency;
use crate::split::{pair_sum, pairs_view};

verus! {

/// One directed, positive, net obligation: `debtor` owes `creditor`
/// `amount` minor units of `currency`.
#[derive(Clone, Debug, PartialEq, Eq)]
pub struct Debt {
    pub debtor: String,
    pub creditor: String,
    pub currency: String,
    pub amount: i64,
}

/// One ledger entry: who paid, how much, and each debtor's share.
#[derive(Debug)]
pub struct Payment {
    pub payment_id: String,
    pub chat_id: String,
    pub datetime: String,
    pub description: String,
    pub creditor: String,
    pub currency: Currency,
    pub total: i64,
    pub debts: Vec<(String, i64)>,
}

impl Payment {
    /// The total is positive and the shares add up to it exactly.
    pub open spec fn consistent(&self) -> bool {
        self.total > 0 && pair_sum(pairs_view(self.debts@)) == self.total
    }

    /// Whether the total is positive and the shares add up to it exactly.
    pub fn is_consistent(&self) -> (r: bool)
        ensures
            r == self.consistent(),
    {
        let ghost pv = pairs_view(self.debts@);
        let mut sum: i128 = 0;
        for i in 0..self.debts.len()
            invariant
                pv == pairs_view(self.debts@),
                sum == pair_sum(pv.take(i as int)),
                -(i as int) * 0x8000_0000_0000_0000 <= sum <= (i as int) * 0x8000_0000_0000_0000,
        {
            assert(pv.take(i + 1).drop_last() =~= pv.take(i as int));
            assert((i + 1) * 0x8000_0000_0000_0000 <= 0x1_0000_0000_0000_0000 * 0x8000_0000_0000_0000)
                by (nonlinear_arith)
                requires
                    i + 1 <= 0x1_0000_0000_0000_0000,
            ;
            sum = sum + self.debts[i].1 as i128;
        }
        assert(pv.take(self.debts@.len() as int) =~= pv);
        self.total > 0 && sum == self.total as i128
    }
}

/// An edge's identity as plain values: (currency, debtor, creditor).
pub type EdgeKey = (Seq<char>, Seq<char>, Seq<char>);

pub open spec fn edge_key(d: Debt) -> EdgeKey {
    (d.currency@, d.debtor@, d.creditor@)
}

/// The same pair in the other direction.
pub open spec fn reversed(k: EdgeKey) -> EdgeKey {
    (k.0, k.2, k.1)
}

/// Total amount of the edges with key `k`.
pub open spec fn owed(s: Seq<Debt>, k: EdgeKey) -> int
    decreases s.len(),
{
    if s.len() == 0 {
        0
    } else {
        owed(s.drop_last(), k) + (if edge_key(s.last()) == k {
            s.last().amount as int
        } else {
            0
        })
    }
}

/// What the debtor of `k` owes its creditor, net of what is owed back.
pub open spec fn net(s: Seq<Debt>, k: EdgeKey) -> int {
    owed(s, k) - owed(s, reversed(k))
}

/// Positive amounts, no member owing themselves, and at most one edge per
/// pair of members and currency, in one direction only.
pub open spec fn edges_wf(s: Seq<Debt>) -> bool {
    &&& forall|i: int| 0 <= i < s.len() ==> (#[trigger] s[i]).amount > 0 && s[i].debtor@ != s[i].creditor@
    &&& forall|i: int, j: int|
        0 <= i < s.len() && 0 <= j < s.len() && i != j ==> edge_key(#[trigger] s[i]) != edge_key(
            #[trigger] s[j],
        ) && edge_key(s[i]) != reversed(edge_key(s[j]))
}

/// The net obligations as a map from (currency, debtor, creditor) to the
/// positive amount owed.
pub open spec fn net_map(s: Seq<Debt>) -> Map<EdgeKey, int> {
    Map::new(|k: EdgeKey| net(s, k) > 0, |k: EdgeKey| net(s, k))
}

/// What the debtor of `k` owes on balance in a map of positive edges.
pub open spec fn net_of(v: Map<EdgeKey, int>, k: EdgeKey) -> int {
    (if v.contains_key(k) { v[k] } else { 0 }) - (if v.contains_key(reversed(k)) {
        v[reversed(k)]
    } else {
        0
    })
}

/// A map of positive edges with at most one direction per pair.
pub open spec fn canonical(v: Map<EdgeKey, int>) -> bool {
    forall|k: EdgeKey| #[trigger] v.contains_key(k) ==> v[k] > 0 && !v.contains_key(reversed(k))
}

/// The signed amount of a share: added on insert, taken back on delete.
pub open spec fn signed(insert: bool, a: int) -> int {
    if insert {
        a
    } else {
        -a
    }
}

/// How much the shares of a payment change what the debtor of `k` owes the
/// creditor of `k`. A share of the creditor themselves changes nothing.
pub open spec fn payment_delta(
    debts: Seq<(Seq<char>, int)>,
    creditor: Seq<char>,
    currency: Seq<char>,
    k: EdgeKey,
) -> int
    decreases debts.len(),
{
    if debts.len() == 0 {
        0
    } else {
        let d = debts.last();
        payment_delta(debts.drop_last(), creditor, currency, k) + (if d.0 != creditor && k == (
            currency,
            d.0,
            creditor,
        ) {
            d.1
        } else if d.0 != creditor && k == (currency, creditor, d.0) {
            -d.1
        } else {
            0
        })
    }
}

/// The edges after the shares of a payment are added (`insert`) or taken
/// back.
pub open spec fn applied(
    v: Map<EdgeKey, int>,
    debts: Seq<(Seq<char>, int)>,
    creditor: Seq<char>,
    currency: Seq<char>,
    insert: bool,
) -> Map<EdgeKey, int> {
    Map::new(
        |k: EdgeKey| net_of(v, k) + signed(insert, payment_delta(debts, creditor, currency, k)) > 0,
        |k: EdgeKey| net_of(v, k) + signed(insert, payment_delta(debts, creditor, currency, k)),
    )
}

/// Whether every intermediate net amount stays within `i64` while the shares
/// are applied one by one.
pub open spec fn steps_fit(
    v: Map<EdgeKey, int>,
    debts: Seq<(Seq<char>, int)>,
    creditor: Seq<char>,
    currency: Seq<char>,
    insert: bool,
) -> bool {
    forall|i: int|
        0 <= i < debts.len() && (#[trigger] debts[i]).0 != creditor ==> {
            let k = (currency, debts[i].0, creditor);
            let n = net_of(v, k) + signed(
                insert,
                payment_delta(debts.take(i + 1), creditor, currency, k),
            );
            -i64::MAX <= n <= i64::MAX
        }
}

proof fn lemma_owed_push(s: Seq<Debt>, d: Debt, k: EdgeKey)
    ensures
        owed(s.push(d), k) == owed(s, k) + (if edge_key(d) == k { d.amount as int } else { 0 }),
{
    assert(s.push(d).drop_last() =~= s);
}

proof fn lemma_owed_remove(s: Seq<Debt>, i: int, k: EdgeKey)
    requires
        0 <= i < s.len(),
    ensures
        owed(s.remove(i), k) == owed(s, k) - (if edge_key(s[i]) == k {
            s[i].amount as int
        } else {
            0
        }),
    decreases s.len(),
{
    if i == s.len() - 1 {
        assert(s.remove(i) =~= s.drop_last());
    } else {
        assert(s.remove(i).drop_last() =~= s.drop_last().remove(i));
        assert(s.remove(i).last() == s.last());
        lemma_owed_remove(s.drop_last(), i, k);
    }
}

proof fn lemma_owed_nonneg(s: Seq<Debt>, k: EdgeKey)
    requires
        edges_wf(s),
    ensures
        owed(s, k) >= 0,
    decreases s.len(),
{
    if s.len() > 0 {
        assert(s.last() == s[s.len() - 1]);
        assert(edges_wf(s.drop_last())) by {
            let t = s.drop_last();
            assert forall|i: int| 0 <= i < t.len() implies (#[trigger] t[i]).amount > 0
                && t[i].debtor@ != t[i].creditor@ by {
                assert(t[i] == s[i]);
            }
            assert forall|i: int, j: int|
                0 <= i < t.len() && 0 <= j < t.len() && i != j implies edge_key(#[trigger] t[i])
                != edge_key(#[trigger] t[j]) && edge_key(t[i]) != reversed(edge_key(t[j])) by {
                assert(t[i] == s[i]);
                assert(t[j] == s[j]);
            }
        }
        lemma_owed_nonneg(s.drop_last(), k);
    }
}

proof fn lemma_owed_absent(s: Seq<Debt>, k: EdgeKey)
    requires
        forall|i: int| 0 <= i < s.len() ==> edge_key(#[trigger] s[i]) != k,
    ensures
        owed(s, k) == 0,
    decreases s.len(),
{
    if s.len() > 0 {
        assert(edge_key(s[s.len() - 1]) != k);
        lemma_owed_absent(s.drop_last(), k);
    }
}

proof fn lemma_owed_single(s: Seq<Debt>, i: int)
    requires
        edges_wf(s),
        0 <= i < s.len(),
    ensures
        owed(s, edge_key(s[i])) == s[i].amount,
        owed(s, reversed(edge_key(s[i]))) == 0,
{
    let k = edge_key(s[i]);
    lemma_owed_remove(s, i, k);
    lemma_owed_remove(s, i, reversed(k));
    let t = s.remove(i);
    assert forall|j: int| 0 <= j < t.len() implies edge_key(#[trigger] t[j]) != k by {
        let jj = if j < i { j } else { j + 1 };
        assert(t[j] == s[jj]);
    }
    assert forall|j: int| 0 <= j < t.len() implies edge_key(#[trigger] t[j]) != reversed(k) by {
        let jj = if j < i { j } else { j + 1 };
        assert(t[j] == s[jj]);
    }
    lemma_owed_absent(t, k);
    lemma_owed_absent(t, reversed(k));
}

/// A well-formed edge list's net map is canonical, and its net amounts are
/// read back from it.
proof fn lemma_net_map(s: Seq<Debt>)
    requires
        edges_wf(s),
    ensures
        canonical(net_map(s)),
        forall|k: EdgeKey| #[trigger] net_of(net_map(s), k) == net(s, k),
{
    assert forall|k: EdgeKey| #[trigger] net_of(net_map(s), k) == net(s, k) by {
        assert(net(s, reversed(k)) == -net(s, k)) by {
            assert(reversed(reversed(k)) == k);
        }
    }
    assert forall|k: EdgeKey| #[trigger] net_map(s).contains_key(k) implies net_map(s)[k] > 0
        && !net_map(s).contains_key(reversed(k)) by {
        assert(reversed(reversed(k)) == k);
    }
}

/// Changes what `debtor` owes `creditor` in `currency` by `x`, keeping one
/// positive edge per pair at most. Returns false, changing nothing, when the
/// new net amount does not fit in `i64`.
fn shift(work: &mut Vec<Debt>, currency: &String, debtor: &String, creditor: &String, x: i128) -> (ok:
    bool)
    requires
        edges_wf(old(work)@),
        debtor@ != creditor@,
        -0x8000_0000_0000_0000 <= x <= 0x8000_0000_0000_0000,
    ensures
        ok == (-i64::MAX <= net(old(work)@, (currency@, debtor@, creditor@)) + x <= i64::MAX),
        ok ==> edges_wf(final(work)@),
        ok ==> forall|k: EdgeKey| #[trigger]
            net(final(work)@, k) == net(old(work)@, k) + (if k == (currency@, debtor@, creditor@) {
                x as int
            } else if k == (currency@, creditor@, debtor@) {
                -x
            } else {
                0
            }),
        !ok ==> final(work)@ == old(work)@,
{
    let ghost s = work@;
    let ghost k = (currency@, debtor@, creditor@);
    let ghost rk = (currency@, creditor@, debtor@);
    assert(reversed(k) == rk && reversed(rk) == k);
    let n = work.len();
    let mut fi: usize = n;
    let mut ri: usize = n;
    for i in 0..n
        invariant
            n == s.len(),
            work@ == s,
            k == (currency@, debtor@, creditor@),
            rk == (currency@, creditor@, debtor@),
            debtor@ != creditor@,
            fi == n || (fi < i && edge_key(s[fi as int]) == k),
            ri == n || (ri < i && edge_key(s[ri as int]) == rk),
            fi == n ==> forall|j: int| 0 <= j < i ==> edge_key(#[trigger] s[j]) != k,
            ri == n ==> forall|j: int| 0 <= j < i ==> edge_key(#[trigger] s[j]) != rk,
    {
        if work[i].currency == *currency {
            if work[i].debtor == *debtor && work[i].creditor == *creditor {
                fi = i;
            } else if work[i].debtor == *creditor && work[i].creditor == *debtor {
                ri = i;
            }
        }
    }
    proof {
        if fi < n {
            lemma_owed_single(s, fi as int);
        } else {
            lemma_owed_absent(s, k);
        }
        if ri < n {
            lemma_owed_single(s, ri as int);
        } else {
            lemma_owed_absent(s, rk);
        }
        if fi < n && ri < n {
            assert(edge_key(s[fi as int]) == reversed(edge_key(s[ri as int])));
        }
    }
    let cur: i128 = if fi < n {
        work[fi].amount as i128
    } else if ri < n {
        -(work[ri].amount as i128)
    } else {
        0
    };
    assert(cur == net(s, k));
    let next = cur + x;
    if next < -(i64::MAX as i128) || next > i64::MAX as i128 {
        return false;
    }
    // the one edge of this pair, if any, goes
    let ghost t = if fi < n {
        s.remove(fi as int)
    } else if ri < n {
        s.remove(ri as int)
    } else {
        s
    };
    if fi < n {
        work.remove(fi);
    } else if ri < n {
        work.remove(ri);
    }
    assert(work@ == t);
    proof {
        assert forall|j: int| 0 <= j < t.len() implies edge_key(#[trigger] t[j]) != k && edge_key(t[j])
            != rk by {
            if fi < n {
                let jj = if j < fi { j } else { j + 1 };
                assert(t[j] == s[jj]);
                assert(jj != fi);
            } else if ri < n {
                let jj = if j < ri { j } else { j + 1 };
                assert(t[j] == s[jj]);
                assert(jj != ri);
            } else {
                assert(t[j] == s[j]);
            }
        }
        assert forall|q: EdgeKey| #[trigger] owed(t, q) == owed(s, q) - (if q == k {
            if fi < n { s[fi as int].amount as int } else { 0 }
        } else if q == rk {
            if ri < n { s[ri as int].amount as int } else { 0 }
        } else {
            0
        }) by {
            if fi < n {
                lemma_owed_remove(s, fi as int, q);
            } else if ri < n {
                lemma_owed_remove(s, ri as int, q);
            }
        }
        assert(edges_wf(t)) by {
            assert forall|i: int, j: int|
                0 <= i < t.len() && 0 <= j < t.len() && i != j implies edge_key(#[trigger] t[i])
                != edge_key(#[trigger] t[j]) && edge_key(t[i]) != reversed(edge_key(t[j])) by {
                let r = if fi < n { fi as int } else if ri < n { ri as int } else { s.len() as int };
                let ii = if i < r { i } else { i + 1 };
                let jj = if j < r { j } else { j + 1 };
                assert(t[i] == s[ii]);
                assert(t[j] == s[jj]);
            }
            assert forall|i: int| 0 <= i < t.len() implies (#[trigger] t[i]).amount > 0
                && t[i].debtor@ != t[i].creditor@ by {
                let r = if fi < n { fi as int } else if ri < n { ri as int } else { s.len() as int };
                let ii = if i < r { i } else { i + 1 };
                assert(t[i] == s[ii]);
            }
        }
        lemma_owed_absent(t, k);
        lemma_owed_absent(t, rk);
    }
    if next != 0 {
        let d = if next > 0 {
            Debt {
                debtor: debtor.clone(),
                creditor: creditor.clone(),
                currency: currency.clone(),
                amount: next as i64,
            }
        } else {
            Debt {
                debtor: creditor.clone(),
                creditor: debtor.clone(),
                currency: currency.clone(),
                amount: (-next) as i64,
            }
        };
        work.push(d);
        proof {
            assert forall|q: EdgeKey| #[trigger] owed(work@, q) == owed(t, q) + (if edge_key(d) == q {
                d.amount as int
            } else {
                0
            }) by {
                lemma_owed_push(t, d, q);
            }
            let w = work@;
            assert(edges_wf(w)) by {
                assert forall|i: int, j: int|
                    0 <= i < w.len() && 0 <= j < w.len() && i != j implies edge_key(#[trigger] w[i])
                    != edge_key(#[trigger] w[j]) && edge_key(w[i]) != reversed(edge_key(w[j])) by {
                    if i < t.len() {
                        assert(w[i] == t[i]);
                    }
                    if j < t.len() {
                        assert(w[j] == t[j]);
                    }
                }
                assert forall|i: int| 0 <= i < w.len() implies (#[trigger] w[i]).amount > 0
                    && w[i].debtor@ != w[i].creditor@ by {
                    if i < t.len() {
                        assert(w[i] == t[i]);
                    }
                }
            }
        }
    }
    true
}

/// A copy of an edge.
fn copy_debt(d: &Debt) -> (r: Debt)
    ensures
        r == *d,
{
    Debt {
        debtor: d.debtor.clone(),
        creditor: d.creditor.clone(),
        currency: d.currency.clone(),
        amount: d.amount,
    }
}

/// A copy of a list of edges.
fn copy_edges(v: &Vec<Debt>) -> (r: Vec<Debt>)
    ensures
        r@ == v@,
{
    let mut r: Vec<Debt> = Vec::new();
    for i in 0..v.len()
        invariant
            r@ == v@.take(i as int),
    {
        r.push(copy_debt(&v[i]));
        assert(r@ =~= v@.take(i + 1));
    }
    assert(v@.take(v@.len() as int) =~= v@);
    r
}

proof fn lemma_delta_step(
    debts: Seq<(Seq<char>, int)>,
    creditor: Seq<char>,
    currency: Seq<char>,
    i: int,
    k: EdgeKey,
)
    requires
        0 <= i < debts.len(),
    ensures
        payment_delta(debts.take(i + 1), creditor, currency, k) == payment_delta(
            debts.take(i),
            creditor,
            currency,
            k,
        ) + (if debts[i].0 != creditor && k == (currency, debts[i].0, creditor) {
            debts[i].1
        } else if debts[i].0 != creditor && k == (currency, creditor, debts[i].0) {
            -debts[i].1
        } else {
            0
        }),
{
    assert(debts.take(i + 1).drop_last() =~= debts.take(i));
}

/// The edges after one payment is replaced by another: what each debtor owes
/// changes by the new shares less the old ones.
pub open spec fn edited(
    v: Map<EdgeKey, int>,
    old_debts: Seq<(Seq<char>, int)>,
    old_creditor: Seq<char>,
    old_currency: Seq<char>,
    new_debts: Seq<(Seq<char>, int)>,
    new_creditor: Seq<char>,
    new_currency: Seq<char>,
) -> Map<EdgeKey, int> {
    Map::new(
        |k: EdgeKey|
            net_of(v, k) - payment_delta(old_debts, old_creditor, old_currency, k) + payment_delta(
                new_debts,
                new_creditor,
                new_currency,
                k,
            ) > 0,
        |k: EdgeKey|
            net_of(v, k) - payment_delta(old_debts, old_creditor, old_currency, k) + payment_delta(
                new_debts,
                new_creditor,
                new_currency,
                k,
            ),
    )
}

pub proof fn lemma_delta_reversed(
    debts: Seq<(Seq<char>, int)>,
    creditor: Seq<char>,
    currency: Seq<char>,
    k: EdgeKey,
)
    ensures
        payment_delta(debts, creditor, currency, reversed(k)) == -payment_delta(
            debts,
            creditor,
            currency,
            k,
        ),
    decreases debts.len(),
{
    if debts.len() > 0 {
        lemma_delta_reversed(debts.drop_last(), creditor, currency, k);
    }
}

/// Reading back what each debtor owes from a map of positive edges gives
/// the amounts the map was built from.
proof fn lemma_net_of_positive_part(v: Map<EdgeKey, int>, f: spec_fn(EdgeKey) -> int)
    requires
        forall|k: EdgeKey| #[trigger] f(reversed(k)) == -f(k),
        v == Map::new(|k: EdgeKey| f(k) > 0, |k: EdgeKey| f(k)),
    ensures
        forall|k: EdgeKey| #[trigger] net_of(v, k) == f(k),
{
    assert forall|k: EdgeKey| #[trigger] net_of(v, k) == f(k) by {
        assert(f(reversed(k)) == -f(k));
    }
}

/// The net amount that a map of positive edges reports for the reversed
/// pair is the negated amount.
proof fn lemma_net_of_reversed(v: Map<EdgeKey, int>, k: EdgeKey)
    ensures
        net_of(v, reversed(k)) == -net_of(v, k),
{
    assert(reversed(reversed(k)) == k);
}

/// A canonical map is rebuilt from its own net amounts.
pub proof fn lemma_canonical_rebuilt(v: Map<EdgeKey, int>)
    requires
        canonical(v),
    ensures
        v == Map::new(|k: EdgeKey| net_of(v, k) > 0, |k: EdgeKey| net_of(v, k)),
{
    let m = Map::new(|k: EdgeKey| net_of(v, k) > 0, |k: EdgeKey| net_of(v, k));
    assert forall|k: EdgeKey| #[trigger] v.contains_key(k) <==> m.contains_key(k) by {
        if v.contains_key(k) {
            assert(v[k] > 0 && !v.contains_key(reversed(k)));
        } else if v.contains_key(reversed(k)) {
            assert(v[reversed(k)] > 0);
        }
    }
    assert forall|k: EdgeKey| #[trigger] v.contains_key(k) implies v[k] == m[k] by {
        assert(!v.contains_key(reversed(k)));
    }
    assert(v =~= m);
}

/// Recording a payment and then deleting it leaves the balances exactly as
/// they were.
pub proof fn lemma_insert_then_delete(
    v: Map<EdgeKey, int>,
    debts: Seq<(Seq<char>, int)>,
    creditor: Seq<char>,
    currency: Seq<char>,
)
    requires
        canonical(v),
    ensures
        applied(applied(v, debts, creditor, currency, true), debts, creditor, currency, false) == v,
{
    let f = |k: EdgeKey| net_of(v, k) + payment_delta(debts, creditor, currency, k);
    let w = applied(v, debts, creditor, currency, true);
    assert forall|k: EdgeKey| #[trigger] f(reversed(k)) == -f(k) by {
        lemma_delta_reversed(debts, creditor, currency, k);
        lemma_net_of_reversed(v, k);
    }
    assert(w =~= Map::new(|k: EdgeKey| f(k) > 0, |k: EdgeKey| f(k)));
    lemma_net_of_positive_part(w, f);
    lemma_canonical_rebuilt(v);
    assert(applied(w, debts, creditor, currency, false) =~= Map::new(
        |k: EdgeKey| net_of(v, k) > 0,
        |k: EdgeKey| net_of(v, k),
    ));
}

/// Recording or taking back a payment keeps the balances canonical: positive
/// amounts, one direction per pair.
pub proof fn lemma_applied_canonical(
    v: Map<EdgeKey, int>,
    debts: Seq<(Seq<char>, int)>,
    creditor: Seq<char>,
    currency: Seq<char>,
    insert: bool,
)
    ensures
        canonical(applied(v, debts, creditor, currency, insert)),
{
    let w = applied(v, debts, creditor, currency, insert);
    assert forall|k: EdgeKey| #[trigger] w.contains_key(k) implies w[k] > 0 && !w.contains_key(
        reversed(k),
    ) by {
        lemma_delta_reversed(debts, creditor, currency, k);
        lemma_net_of_reversed(v, k);
    }
}

/// Recording a second payment and deleting it again leaves the balances as
/// they were after the first; deleting the first too leaves them as they
/// were before both.
pub proof fn lemma_delete_later_then_earlier(
    v: Map<EdgeKey, int>,
    first: Seq<(Seq<char>, int)>,
    first_creditor: Seq<char>,
    first_currency: Seq<char>,
    second: Seq<(Seq<char>, int)>,
    second_creditor: Seq<char>,
    second_currency: Seq<char>,
)
    requires
        canonical(v),
    ensures
        applied(
            applied(applied(v, first, first_creditor, first_currency, true), second, second_creditor, second_currency, true),
            second,
            second_creditor,
            second_currency,
            false,
        ) == applied(v, first, first_creditor, first_currency, true),
        applied(
            applied(
                applied(applied(v, first, first_creditor, first_currency, true), second, second_creditor, second_currency, true),
                second,
                second_creditor,
                second_currency,
                false,
            ),
            first,
            first_creditor,
            first_currency,
            false,
        ) == v,
{
    let after_first = applied(v, first, first_creditor, first_currency, true);
    lemma_applied_canonical(v, first, first_creditor, first_currency, true);
    lemma_insert_then_delete(after_first, second, second_creditor, second_currency);
    lemma_insert_then_delete(v, first, first_creditor, first_currency);
}

/// Editing a payment gives the same balances as deleting its old version and
/// then recording the new one.
pub proof fn lemma_edit_is_delete_then_insert(
    v: Map<EdgeKey, int>,
    old_debts: Seq<(Seq<char>, int)>,
    old_creditor: Seq<char>,
    old_currency: Seq<char>,
    new_debts: Seq<(Seq<char>, int)>,
    new_creditor: Seq<char>,
    new_currency: Seq<char>,
)
    ensures
        edited(v, old_debts, old_creditor, old_currency, new_debts, new_creditor, new_currency)
            == applied(
            applied(v, old_debts, old_creditor, old_currency, false),
            new_debts,
            new_creditor,
            new_currency,
            true,
        ),
{
    let f = |k: EdgeKey| net_of(v, k) - payment_delta(old_debts, old_creditor, old_currency, k);
    let w = applied(v, old_debts, old_creditor, old_currency, false);
    assert forall|k: EdgeKey| #[trigger] f(reversed(k)) == -f(k) by {
        lemma_delta_reversed(old_debts, old_creditor, old_currency, k);
        lemma_net_of_reversed(v, k);
    }
    assert(w =~= Map::new(|k: EdgeKey| f(k) > 0, |k: EdgeKey| f(k)));
    lemma_net_of_positive_part(w, f);
    assert(edited(v, old_debts, old_creditor, old_currency, new_debts, new_creditor, new_currency)
        =~= applied(w, new_debts, new_creditor, new_currency, true));
}

/// Lexicographic order of texts by character code (the order of `String`).
pub open spec fn text_lt(a: Seq<char>, b: Seq<char>) -> bool
    decreases a.len(),
{
    if a.len() == 0 {
        b.len() > 0
    } else if b.len() == 0 {
        false
    } else if a[0] != b[0] {
        a[0] < b[0]
    } else {
        text_lt(a.drop_first(), b.drop_first())
    }
}

/// Statement order: by debtor, then creditor, then currency.
pub open spec fn debt_lt(x: Debt, y: Debt) -> bool {
    ||| text_lt(x.debtor@, y.debtor@)
    ||| x.debtor@ == y.debtor@ && text_lt(x.creditor@, y.creditor@)
    ||| x.debtor@ == y.debtor@ && x.creditor@ == y.creditor@ && text_lt(x.currency@, y.currency@)
}

/// Strictly increasing in statement order (so no edge is listed twice).
pub open spec fn sorted_debts(v: Seq<Debt>) -> bool {
    forall|i: int, j: int| 0 <= i < j < v.len() ==> debt_lt(#[trigger] v[i], #[trigger] v[j])
}

pub proof fn lemma_text_lt_irrefl(a: Seq<char>)
    ensures
        !text_lt(a, a),
    decreases a.len(),
{
    if a.len() > 0 {
        lemma_text_lt_irrefl(a.drop_first());
    }
}

pub proof fn lemma_text_lt_trans(a: Seq<char>, b: Seq<char>, c: Seq<char>)
    requires
        text_lt(a, b),
        text_lt(b, c),
    ensures
        text_lt(a, c),
    decreases a.len(),
{
    if a.len() > 0 && b.len() > 0 && c.len() > 0 && a[0] == b[0] && b[0] == c[0] {
        lemma_text_lt_trans(a.drop_first(), b.drop_first(), c.drop_first());
    }
}

pub proof fn lemma_text_lt_total(a: Seq<char>, b: Seq<char>)
    ensures
        a == b || text_lt(a, b) || text_lt(b, a),
    decreases a.len(),
{
    if a.len() > 0 && b.len() > 0 {
        if a[0] == b[0] {
            lemma_text_lt_total(a.drop_first(), b.drop_first());
            if a.drop_first() == b.drop_first() {
                assert(a =~= seq![a[0]] + a.drop_first());
                assert(b =~= seq![b[0]] + b.drop_first());
            }
        }
    } else if a.len() == 0 && b.len() == 0 {
        assert(a =~= b);
    }
}

proof fn lemma_debt_lt_trans(x: Debt, y: Debt, z: Debt)
    requires
        debt_lt(x, y),
        debt_lt(y, z),
    ensures
        debt_lt(x, z),
{
    if text_lt(x.debtor@, y.debtor@) && text_lt(y.debtor@, z.debtor@) {
        lemma_text_lt_trans(x.debtor@, y.debtor@, z.debtor@);
    }
    if text_lt(x.creditor@, y.creditor@) && text_lt(y.creditor@, z.creditor@) {
        lemma_text_lt_trans(x.creditor@, y.creditor@, z.creditor@);
    }
    if text_lt(x.currency@, y.currency@) && text_lt(y.currency@, z.currency@) {
        lemma_text_lt_trans(x.currency@, y.currency@, z.currency@);
    }
}

proof fn lemma_debt_lt_total(x: Debt, y: Debt)
    requires
        edge_key(x) != edge_key(y),
    ensures
        debt_lt(x, y) || debt_lt(y, x),
{
    lemma_text_lt_total(x.debtor@, y.debtor@);
    lemma_text_lt_total(x.creditor@, y.creditor@);
    lemma_text_lt_total(x.currency@, y.currency@);
}

/// Whether `a` comes before `b` in the order of `String`.
pub fn text_less(a: &String, b: &String) -> (r: bool)
    ensures
        r == text_lt(a@, b@),
{
    let x = crate::text::chars_of(a.as_str());
    let y = crate::text::chars_of(b.as_str());
    let mut i: usize = 0;
    assert(x@.skip(0) =~= x@);
    assert(y@.skip(0) =~= y@);
    while i < x.len() && i < y.len() && x[i] == y[i]
        invariant
            x@ == a@,
            y@ == b@,
            i <= x@.len(),
            i <= y@.len(),
            text_lt(a@, b@) == text_lt(x@.skip(i as int), y@.skip(i as int)),
        decreases x@.len() - i,
    {
        assert(x@.skip(i as int).drop_first() =~= x@.skip(i + 1));
        assert(y@.skip(i as int).drop_first() =~= y@.skip(i + 1));
        i = i + 1;
    }
    if i == x.len() {
        i < y.len()
    } else if i == y.len() {
        false
    } else {
        assert(x@.skip(i as int)[0] == x@[i as int]);
        assert(y@.skip(i as int)[0] == y@[i as int]);
        x[i] < y[i]
    }
}

/// Whether edge `a` comes before edge `b` in statement order.
pub fn debt_less(a: &Debt, b: &Debt) -> (r: bool)
    ensures
        r == debt_lt(*a, *b),
{
    if text_less(&a.debtor, &b.debtor) {
        return true;
    }
    if a.debtor != b.debtor {
        return false;
    }
    if text_less(&a.creditor, &b.creditor) {
        return true;
    }
    if a.creditor != b.creditor {
        return false;
    }
    text_less(&a.currency, &b.currency)
}

proof fn lemma_sorted_insert(s: Seq<Debt>, pos: int, x: Debt)
    requires
        sorted_debts(s),
        0 <= pos <= s.len(),
        forall|k: int| 0 <= k < pos ==> debt_lt(#[trigger] s[k], x),
        forall|k: int| pos <= k < s.len() ==> debt_lt(x, #[trigger] s[k]),
    ensures
        sorted_debts(s.insert(pos, x)),
{
    let nr = s.insert(pos, x);
    assert forall|a: int, b: int| 0 <= a < b < nr.len() implies debt_lt(#[trigger] nr[a], #[trigger] nr[b]) by {
        if a < pos && b < pos {
            assert(nr[a] == s[a] && nr[b] == s[b]);
        } else if a < pos && b == pos {
            assert(nr[a] == s[a]);
        } else if a < pos {
            assert(nr[a] == s[a] && nr[b] == s[b - 1]);
            lemma_debt_lt_trans(s[a], x, s[b - 1]);
        } else if a == pos {
            assert(nr[b] == s[b - 1]);
        } else {
            assert(nr[a] == s[a - 1] && nr[b] == s[b - 1]);
        }
    }
}

/// Two lists with the same multiset hold the same edges.
proof fn lemma_same_members(r: Seq<Debt>, v: Seq<Debt>)
    requires
        r.to_multiset() == v.to_multiset(),
    ensures
        forall|k: int| 0 <= k < r.len() ==> v.contains(#[trigger] r[k]),
        forall|j: int| 0 <= j < v.len() ==> r.contains(#[trigger] v[j]),
{
    broadcast use vstd::seq_lib::to_multiset_contains;

    assert forall|k: int| 0 <= k < r.len() implies v.contains(#[trigger] r[k]) by {
        assert(r.contains(r[k]));
        vstd::seq_lib::to_multiset_contains(r, r[k]);
        vstd::seq_lib::to_multiset_contains(v, r[k]);
    }
    assert forall|j: int| 0 <= j < v.len() implies r.contains(#[trigger] v[j]) by {
        assert(v.contains(v[j]));
        vstd::seq_lib::to_multiset_contains(r, v[j]);
        vstd::seq_lib::to_multiset_contains(v, v[j]);
    }
}

/// The edges in statement order.
fn sort_debts(v: &Vec<Debt>) -> (r: Vec<Debt>)
    requires
        forall|i: int, j: int|
            0 <= i < v@.len() && 0 <= j < v@.len() && i != j ==> edge_key(#[trigger] v@[i])
                != edge_key(#[trigger] v@[j]),
    ensures
        sorted_debts(r@),
        r@.to_multiset() == v@.to_multiset(),
{
    broadcast use vstd::seq_lib::to_multiset_contains;

    let mut r: Vec<Debt> = Vec::new();
    let n = v.len();
    let mut i: usize = 0;
    assert(v@.take(0) =~= Seq::<Debt>::empty());
    while i < n
        invariant
            n == v@.len(),
            i <= n,
            forall|a: int, b: int|
                0 <= a < v@.len() && 0 <= b < v@.len() && a != b ==> edge_key(#[trigger] v@[a])
                    != edge_key(#[trigger] v@[b]),
            sorted_debts(r@),
            r@.to_multiset() == v@.take(i as int).to_multiset(),
        decreases n - i,
    {
        let x = copy_debt(&v[i]);
        let mut pos: usize = 0;
        while pos < r.len() && !debt_less(&x, &r[pos])
            invariant
                pos <= r@.len(),
                i < v@.len(),
                x == v@[i as int],
                forall|k: int| 0 <= k < pos ==> !debt_lt(x, #[trigger] r@[k]),
            decreases r@.len() - pos,
        {
            pos = pos + 1;
        }
        let ghost old_r = r@;
        proof {
            assert forall|k: int| 0 <= k < old_r.len() implies edge_key(#[trigger] old_r[k]) != edge_key(x) by {
                assert(old_r.contains(old_r[k]));
                vstd::seq_lib::to_multiset_contains(old_r, old_r[k]);
                vstd::seq_lib::to_multiset_contains(v@.take(i as int), old_r[k]);
                assert(v@.take(i as int).contains(old_r[k]));
                let j = choose|j: int| 0 <= j < i && v@.take(i as int)[j] == old_r[k];
                assert(v@[j] == old_r[k]);
            }
            assert forall|k: int| 0 <= k < pos implies debt_lt(#[trigger] old_r[k], x) by {
                lemma_debt_lt_total(old_r[k], x);
            }
            assert forall|k: int| pos <= k < old_r.len() implies debt_lt(x, #[trigger] old_r[k]) by {
                if k > pos {
                    lemma_debt_lt_trans(x, old_r[pos as int], old_r[k]);
                }
            }
        }
        r.insert(pos, x);
        proof {
            lemma_sorted_insert(old_r, pos as int, x);
            vstd::seq_lib::to_multiset_insert(old_r, pos as int, x);
            assert(v@.take(i + 1) =~= v@.take(i as int).push(x));
            vstd::seq_lib::to_multiset_build(v@.take(i as int), x);
        }
        i = i + 1;
    }
    assert(v@.take(n as int) =~= v@);
    r
}

/// The net amounts between members, per currency.
pub struct BalanceGraph {
    edges: Vec<Debt>,
}

impl BalanceGraph {
    /// The graph's edges as stored.
    pub closed spec fn edges(&self) -> Seq<Debt> {
        self.edges@
    }

    pub closed spec fn wf(&self) -> bool {
        edges_wf(self.edges@)
    }

    /// The net obligations, keyed by (currency, debtor, creditor).
    pub closed spec fn view(&self) -> Map<EdgeKey, int> {
        net_map(self.edges@)
    }

    /// The view of a well-formed graph is canonical.
    pub proof fn lemma_view_canonical(&self)
        requires
            self.wf(),
        ensures
            canonical(self.view()),
            forall|k: EdgeKey| #[trigger] net_of(self.view(), k) == net(self.edges(), k),
    {
        lemma_net_map(self.edges@);
    }

    /// Adds (`insert`) or takes back the shares of one payment: each debtor
    /// comes to owe the creditor their share more (or less), netted against
    /// what the creditor owed them. Nothing changes when a net amount would
    /// leave the range of `i64`.
    pub fn apply_delta(
        &mut self,
        insert: bool,
        debts: &Vec<(String, i64)>,
        creditor: &str,
        currency: &str,
    ) -> (r: Result<(), LedgerError>)
        requires
            old(self).wf(),
        ensures
            final(self).wf(),
            r is Ok <==> steps_fit(old(self)@, pairs_view(debts@), creditor@, currency@, insert),
            r is Ok ==> final(self)@ == applied(
                old(self)@,
                pairs_view(debts@),
                creditor@,
                currency@,
                insert,
            ),
            r is Err ==> final(self).edges() == old(self).edges() && r == Err::<(), _>(LedgerError::BalanceOverflow),
    {
        let ghost s = self.edges@;
        let ghost v = self@;
        let ghost pv = pairs_view(debts@);
        proof {
            lemma_net_map(s);
        }
        let cr = String::from_str(creditor);
        let cu = String::from_str(currency);
        let mut work = copy_edges(&self.edges);
        for i in 0..debts.len()
            invariant
                s == self.edges@,
                v == net_map(s),
                edges_wf(s),
                edges_wf(work@),
                pv == pairs_view(debts@),
                cr@ == creditor@,
                cu@ == currency@,
                forall|k: EdgeKey| #[trigger] net_of(v, k) == net(s, k),
                forall|k: EdgeKey| #[trigger]
                    net(work@, k) == net(s, k) + signed(
                        insert,
                        payment_delta(pv.take(i as int), creditor@, currency@, k),
                    ),
                forall|j: int|
                    0 <= j < i && (#[trigger] pv[j]).0 != creditor@ ==> {
                        let k = (currency@, pv[j].0, creditor@);
                        let n = net_of(v, k) + signed(
                            insert,
                            payment_delta(pv.take(j + 1), creditor@, currency@, k),
                        );
                        -i64::MAX <= n <= i64::MAX
                    },
        {
            assert(pv[i as int] == (debts@[i as int].0@, debts@[i as int].1 as int));
            proof {
                assert forall|k: EdgeKey| #[trigger]
                    payment_delta(pv.take(i + 1), creditor@, currency@, k) == payment_delta(
                        pv.take(i as int),
                        creditor@,
                        currency@,
                        k,
                    ) + (if pv[i as int].0 != creditor@ && k == (currency@, pv[i as int].0, creditor@) {
                        pv[i as int].1
                    } else if pv[i as int].0 != creditor@ && k == (currency@, creditor@, pv[i as int].0) {
                        -pv[i as int].1
                    } else {
                        0
                    }) by {
                    lemma_delta_step(pv, creditor@, currency@, i as int, k);
                }
            }
            if debts[i].0 != cr {
                let a = debts[i].1 as i128;
                let x: i128 = if insert {
                    a
                } else {
                    -a
                };
                let ok = shift(&mut work, &cu, &debts[i].0, &cr, x);
                if !ok {
                    return Err(LedgerError::BalanceOverflow);
                }
            }
        }
        assert(pv.take(debts@.len() as int) =~= pv);
        self.edges = work;
        assert(self@ =~= applied(v, pv, creditor@, currency@, insert));
        Ok(())
    }

    /// Records a payment: its shares are added to the balances.
    pub fn insert_payment(&mut self, debts: &Vec<(String, i64)>, creditor: &str, currency: &str) -> (r:
        Result<(), LedgerError>)
        requires
            old(self).wf(),
        ensures
            final(self).wf(),
            r is Ok <==> steps_fit(old(self)@, pairs_view(debts@), creditor@, currency@, true),
            r is Ok ==> final(self)@ == applied(old(self)@, pairs_view(debts@), creditor@, currency@, true),
            r is Err ==> final(self).edges() == old(self).edges(),
    {
        self.apply_delta(true, debts, creditor, currency)
    }

    /// Deletes a payment: its shares are taken back from the balances.
    pub fn delete_payment(&mut self, debts: &Vec<(String, i64)>, creditor: &str, currency: &str) -> (r:
        Result<(), LedgerError>)
        requires
            old(self).wf(),
        ensures
            final(self).wf(),
            r is Ok <==> steps_fit(old(self)@, pairs_view(debts@), creditor@, currency@, false),
            r is Ok ==> final(self)@ == applied(old(self)@, pairs_view(debts@), creditor@, currency@, false),
            r is Err ==> final(self).edges() == old(self).edges(),
    {
        self.apply_delta(false, debts, creditor, currency)
    }

    /// Edits a payment: the old version's shares are taken back, then the
    /// new version's shares are added. Nothing changes if either step fails.
    pub fn edit_payment(
        &mut self,
        old_debts: &Vec<(String, i64)>,
        old_creditor: &str,
        old_currency: &str,
        new_debts: &Vec<(String, i64)>,
        new_creditor: &str,
        new_currency: &str,
    ) -> (r: Result<(), LedgerError>)
        requires
            old(self).wf(),
        ensures
            final(self).wf(),
            r is Ok <==> steps_fit(old(self)@, pairs_view(old_debts@), old_creditor@, old_currency@, false)
                && steps_fit(
                applied(old(self)@, pairs_view(old_debts@), old_creditor@, old_currency@, false),
                pairs_view(new_debts@),
                new_creditor@,
                new_currency@,
                true,
            ),
            r is Ok ==> final(self)@ == edited(
                old(self)@,
                pairs_view(old_debts@),
                old_creditor@,
                old_currency@,
                pairs_view(new_debts@),
                new_creditor@,
                new_currency@,
            ),
            r is Err ==> final(self).edges() == old(self).edges(),
    {
        proof {
            lemma_edit_is_delete_then_insert(
                self@,
                pairs_view(old_debts@),
                old_creditor@,
                old_currency@,
                pairs_view(new_debts@),
                new_creditor@,
                new_currency@,
            );
        }
        let saved = copy_edges(&self.edges);
        self.apply_delta(false, old_debts, old_creditor, old_currency)?;
        match self.apply_delta(true, new_debts, new_creditor, new_currency) {
            Ok(()) => Ok(()),
            Err(e) => {
                self.edges = saved;
                Err(e)
            },
        }
    }

    /// No member owes themselves.
    pub proof fn lemma_edge_distinct(&self, i: int)
        requires
            self.wf(),
            0 <= i < self.edges().len(),
        ensures
            self.edges()[i].debtor@ != self.edges()[i].creditor@,
    {
    }

    /// The outstanding balances in one currency, in statement order.
    pub fn net_balances(&self, currency: &str) -> (r: Vec<Debt>)
        requires
            self.wf(),
        ensures
            sorted_debts(r@),
            forall|i: int|
                0 <= i < r@.len() ==> (#[trigger] r@[i]).currency@ == currency@ && self@.contains_key(
                    edge_key(r@[i]),
                ) && self@[edge_key(r@[i])] == r@[i].amount,
            forall|k: EdgeKey|
                #[trigger] self@.contains_key(k) && k.0 == currency@ ==> exists|i: int|
                    0 <= i < r@.len() && edge_key(#[trigger] r@[i]) == k,
    {
        let e = self.edges_in(currency);
        let r = sort_debts(&e);
        proof {
            lemma_same_members(r@, e@);
            assert forall|i: int| 0 <= i < r@.len() implies (#[trigger] r@[i]).currency@ == currency@
                && self@.contains_key(edge_key(r@[i])) && self@[edge_key(r@[i])] == r@[i].amount by {
                assert(e@.contains(r@[i]));
            }
            assert forall|k: EdgeKey| #[trigger] self@.contains_key(k) && k.0 == currency@ implies exists|
                i: int,
            | 0 <= i < r@.len() && edge_key(#[trigger] r@[i]) == k by {
                let j = choose|j: int| 0 <= j < e@.len() && edge_key(#[trigger] e@[j]) == k;
                assert(r@.contains(e@[j]));
            }
        }
        r
    }

    /// The outstanding balances in one currency, as stored.
    fn edges_in(&self, currency: &str) -> (r: Vec<Debt>)
        requires
            self.wf(),
        ensures
            forall|i: int|
                0 <= i < r@.len() ==> (#[trigger] r@[i]).currency@ == currency@ && self@.contains_key(
                    edge_key(r@[i]),
                ) && self@[edge_key(r@[i])] == r@[i].amount,
            forall|k: EdgeKey|
                #[trigger] self@.contains_key(k) && k.0 == currency@ ==> exists|i: int|
                    0 <= i < r@.len() && edge_key(#[trigger] r@[i]) == k,
            forall|i: int, j: int|
                0 <= i < r@.len() && 0 <= j < r@.len() && i != j ==> edge_key(#[trigger] r@[i])
                    != edge_key(#[trigger] r@[j]),
    {
        let cu = String::from_str(currency);
        let ghost s = self.edges@;
        let mut r: Vec<Debt> = Vec::new();
        let ghost mut picked: Seq<int> = seq![];
        for i in 0..self.edges.len()
            invariant
                s == self.edges@,
                edges_wf(s),
                cu@ == currency@,
                r@.len() == picked.len(),
                forall|q: int| 0 <= q < picked.len() ==> 0 <= #[trigger] picked[q] < i && r@[q] == s[picked[q]],
                forall|q: int, p: int| 0 <= q < p < picked.len() ==> #[trigger] picked[q] < #[trigger] picked[p],
                forall|q: int| 0 <= q < r@.len() ==> (#[trigger] r@[q]).currency@ == currency@,
                forall|j: int| 0 <= j < i && (#[trigger] s[j]).currency@ == currency@ ==> exists|q: int|
                    0 <= q < picked.len() && picked[q] == j,
        {
            let ghost prev = picked;
            if self.edges[i].currency == cu {
                r.push(copy_debt(&self.edges[i]));
                proof {
                    picked = picked.push(i as int);
                    assert(picked[picked.len() - 1] == i);
                }
            }
            assert forall|j: int| 0 <= j < i + 1 && (#[trigger] s[j]).currency@ == currency@ implies exists|
                q: int,
            | 0 <= q < picked.len() && picked[q] == j by {
                if j == i {
                    assert(picked[picked.len() - 1] == i);
                } else {
                    let q = choose|q: int| 0 <= q < prev.len() && prev[q] == j;
                    assert(picked[q] == prev[q]);
                }
            }
        }
        proof {
            assert forall|q: int| 0 <= q < r@.len() implies self@.contains_key(edge_key(#[trigger] r@[q]))
                && self@[edge_key(r@[q])] == r@[q].amount by {
                lemma_owed_single(s, picked[q]);
            }
            assert forall|k: EdgeKey| #[trigger] self@.contains_key(k) && k.0 == currency@ implies exists|
                q: int,
            | 0 <= q < r@.len() && edge_key(#[trigger] r@[q]) == k by {
                if forall|j: int| 0 <= j < s.len() ==> edge_key(#[trigger] s[j]) != k {
                    lemma_owed_absent(s, k);
                    assert(owed(s, reversed(k)) >= 0) by {
                        lemma_owed_nonneg(s, reversed(k));
                    }
                } else {
                    let j = choose|j: int| 0 <= j < s.len() && edge_key(#[trigger] s[j]) == k;
                    let q = choose|q: int| 0 <= q < picked.len() && picked[q] == j;
                    assert(edge_key(r@[q]) == k);
                }
            }
            assert forall|a: int, b: int|
                0 <= a < r@.len() && 0 <= b < r@.len() && a != b implies edge_key(#[trigger] r@[a])
                != edge_key(#[trigger] r@[b]) by {
                if a < b {
                    assert(picked[a] < picked[b]);
                } else {
                    assert(picked[b] < picked[a]);
                }
            }
        }
        r
    }

    /// All outstanding balances, in statement order.
    pub fn balances(&self) -> (r: Vec<Debt>)
        requires
            self.wf(),
        ensures
            sorted_debts(r@),
            forall|i: int|
                0 <= i < r@.len() ==> self@.contains_key(edge_key(#[trigger] r@[i])) && self@[edge_key(
                    r@[i],
                )] == r@[i].amount,
            forall|k: EdgeKey|
                #[trigger] self@.contains_key(k) ==> exists|i: int|
                    0 <= i < r@.len() && edge_key(#[trigger] r@[i]) == k,
    {
        let e = self.stored_edges();
        let r = sort_debts(&e);
        proof {
            lemma_same_members(r@, e@);
            assert forall|i: int| 0 <= i < r@.len() implies self@.contains_key(edge_key(#[trigger] r@[i]))
                && self@[edge_key(r@[i])] == r@[i].amount by {
                assert(e@.contains(r@[i]));
            }
            assert forall|k: EdgeKey| #[trigger] self@.contains_key(k) implies exists|i: int|
                0 <= i < r@.len() && edge_key(#[trigger] r@[i]) == k by {
                let j = choose|j: int| 0 <= j < e@.len() && edge_key(#[trigger] e@[j]) == k;
                assert(r@.contains(e@[j]));
            }
        }
        r
    }

    /// All outstanding balances, as stored.
    pub(crate) fn stored_edges(&self) -> (r: Vec<Debt>)
        requires
            self.wf(),
        ensures
            r@ == self.edges(),
            forall|i: int|
                0 <= i < r@.len() ==> self@.contains_key(edge_key(#[trigger] r@[i])) && self@[edge_key(
                    r@[i],
                )] == r@[i].amount,
            forall|k: EdgeKey|
                #[trigger] self@.contains_key(k) ==> exists|i: int|
                    0 <= i < r@.len() && edge_key(#[trigger] r@[i]) == k,
    {
        let r = copy_edges(&self.edges);
        let ghost s = self.edges@;
        proof {
            assert forall|q: int| 0 <= q < r@.len() implies self@.contains_key(edge_key(#[trigger] r@[q]))
                && self@[edge_key(r@[q])] == r@[q].amount by {
                lemma_owed_single(s, q);
            }
            assert forall|k: EdgeKey| #[trigger] self@.contains_key(k) implies exists|q: int|
                0 <= q < r@.len() && edge_key(#[trigger] r@[q]) == k by {
                if forall|j: int| 0 <= j < s.len() ==> edge_key(#[trigger] s[j]) != k {
                    lemma_owed_absent(s, k);
                    lemma_owed_nonneg(s, reversed(k));
                }
            }
        }
        r
    }

    /// A graph from stored edges, which must be positive, between two
    /// different members, and at most one per pair and currency.
    pub fn from_edges(edges: Vec<Debt>) -> (r: Result<BalanceGraph, LedgerError>)
        ensures
            r is Ok <==> edges_wf(edges@),
            r matches Ok(g) ==> g.wf() && g.edges() == edges@,
            r matches Err(e) ==> e == LedgerError::GraphConsistency,
    {
        let n = edges.len();
        for i in 0..n
            invariant
                n == edges@.len(),
                forall|a: int| 0 <= a < i ==> (#[trigger] edges@[a]).amount > 0 && edges@[a].debtor@
                    != edges@[a].creditor@,
                forall|a: int, b: int|
                    0 <= a < i && 0 <= b < n && a != b ==> edge_key(#[trigger] edges@[a]) != edge_key(
                        #[trigger] edges@[b],
                    ) && edge_key(edges@[a]) != reversed(edge_key(edges@[b])),
        {
            if edges[i].amount <= 0 || edges[i].debtor == edges[i].creditor {
                return Err(LedgerError::GraphConsistency);
            }
            for j in 0..n
                invariant
                    n == edges@.len(),
                    i < n,
                    forall|b: int|
                        0 <= b < j && b != i ==> edge_key(#[trigger] edges@[b]) != edge_key(edges@[i as int])
                            && edge_key(edges@[i as int]) != reversed(edge_key(edges@[b])),
            {
                if j != i && edges[j].currency == edges[i].currency {
                    let same = edges[j].debtor == edges[i].debtor && edges[j].creditor == edges[i].creditor;
                    let flipped = edges[j].debtor == edges[i].creditor && edges[j].creditor == edges[i].debtor;
                    if same || flipped {
                        proof {
                            if same {
                                assert(edge_key(edges@[i as int]) == edge_key(edges@[j as int]));
                            } else {
                                assert(edge_key(edges@[i as int]) == reversed(edge_key(edges@[j as int])));
                            }
                        }
                        return Err(LedgerError::GraphConsistency);
                    }
                }
            }
            proof {
                assert forall|a: int, b: int|
                    0 <= a < i + 1 && 0 <= b < n && a != b implies edge_key(#[trigger] edges@[a]) != edge_key(
                        #[trigger] edges@[b],
                    ) && edge_key(edges@[a]) != reversed(edge_key(edges@[b])) by {
                    if a == i {
                        assert(b != i);
                    }
                }
            }
        }
        Ok(BalanceGraph { edges })
    }

    /// A graph with no outstanding balances.
    pub fn new() -> (g: BalanceGraph)
        ensures
            g.wf(),
            g.view() == Map::<EdgeKey, int>::empty(),
    {
        let g = BalanceGraph { edges: Vec::new() };
        assert(g.view() =~= Map::<EdgeKey, int>::empty());
        g
    }
}

} // verus!
