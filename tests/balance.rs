use chaching_clan::balance::{BalanceGraph, Debt, Payment};
use chaching_clan::error::LedgerError;
use chaching_clan::format::display_balances;
use chaching_clan::split::process_debts_equal;

fn debt(debtor: &str, creditor: &str, currency: &str, amount: i64) -> Debt {
    Debt {
        debtor: debtor.to_string(),
        creditor: creditor.to_string(),
        currency: currency.to_string(),
        amount,
    }
}

fn sorted(mut v: Vec<Debt>) -> Vec<Debt> {
    v.sort_by(|a, b| {
        (&a.currency, &a.debtor, &a.creditor).cmp(&(&b.currency, &b.debtor, &b.creditor))
    });
    v
}

fn shares(list: &[(&str, i64)]) -> Vec<(String, i64)> {
    list.iter().map(|(n, a)| (n.to_string(), *a)).collect()
}

#[test]
fn opposite_payments_net_to_one_edge() {
    let mut g = BalanceGraph::new();
    let first = shares(&[("alice", 50)]);
    let second = shares(&[("bob", 30)]);
    g.insert_payment(&first, "bob", "USD").unwrap();
    g.insert_payment(&second, "alice", "USD").unwrap();
    assert_eq!(g.net_balances("USD"), vec![debt("alice", "bob", "USD", 20)]);
    g.delete_payment(&second, "alice", "USD").unwrap();
    assert_eq!(g.net_balances("USD"), vec![debt("alice", "bob", "USD", 50)]);
    g.delete_payment(&first, "bob", "USD").unwrap();
    assert_eq!(g.net_balances("USD"), Vec::<Debt>::new());
}

#[test]
fn netting_can_flip_direction() {
    let mut g = BalanceGraph::new();
    g.insert_payment(&shares(&[("alice", 10)]), "bob", "EUR").unwrap();
    g.insert_payment(&shares(&[("bob", 25)]), "alice", "EUR").unwrap();
    assert_eq!(g.net_balances("EUR"), vec![debt("bob", "alice", "EUR", 15)]);
}

#[test]
fn currencies_are_kept_apart_and_self_shares_ignored() {
    let mut g = BalanceGraph::new();
    g.insert_payment(&shares(&[("alice", 10), ("carol", 7)]), "carol", "USD").unwrap();
    g.insert_payment(&shares(&[("carol", 4)]), "alice", "EUR").unwrap();
    assert_eq!(g.net_balances("USD"), vec![debt("alice", "carol", "USD", 10)]);
    assert_eq!(g.net_balances("EUR"), vec![debt("carol", "alice", "EUR", 4)]);
    assert_eq!(g.net_balances("JPY"), Vec::<Debt>::new());
}

#[test]
fn insert_then_delete_leaves_no_residue() {
    let mut g = BalanceGraph::new();
    g.insert_payment(&shares(&[("alice", 40), ("bob", 60)]), "carol", "USD").unwrap();
    let before = sorted(g.balances());
    let rendered_before = display_balances(&before);
    let p = shares(&[("carol", 25), ("bob", 5), ("alice", 70)]);
    g.insert_payment(&p, "alice", "USD").unwrap();
    assert_ne!(sorted(g.balances()), before);
    g.delete_payment(&p, "alice", "USD").unwrap();
    assert_eq!(sorted(g.balances()), before);
    assert_eq!(display_balances(&sorted(g.balances())), rendered_before);
}

#[test]
fn edit_equals_delete_then_reinsert() {
    let old_debts = process_debts_equal("alice bob_b carol", Some(100)).unwrap();
    let new_debts = process_debts_equal("alice bob_b carol", Some(150)).unwrap();
    let mut edited = BalanceGraph::new();
    edited.insert_payment(&shares(&[("bob_b", 5)]), "carol", "USD").unwrap();
    edited.insert_payment(&old_debts, "alice", "USD").unwrap();
    let mut replaced = BalanceGraph::new();
    replaced.insert_payment(&shares(&[("bob_b", 5)]), "carol", "USD").unwrap();
    replaced.insert_payment(&old_debts, "alice", "USD").unwrap();

    edited
        .edit_payment(&old_debts, "alice", "USD", &new_debts, "alice", "USD")
        .unwrap();
    replaced.delete_payment(&old_debts, "alice", "USD").unwrap();
    replaced.insert_payment(&new_debts, "alice", "USD").unwrap();
    assert_eq!(sorted(edited.balances()), sorted(replaced.balances()));
    assert_eq!(
        sorted(edited.balances()),
        vec![
            debt("bob_b", "alice", "USD", 50),
            debt("bob_b", "carol", "USD", 5),
            debt("carol", "alice", "USD", 50),
        ]
    );
}

#[test]
fn overflow_is_refused_without_change() {
    let mut g = BalanceGraph::new();
    g.insert_payment(&shares(&[("alice", i64::MAX)]), "bob", "USD").unwrap();
    let before = g.balances();
    assert_eq!(
        g.insert_payment(&shares(&[("carol", 1), ("alice", 1)]), "bob", "USD"),
        Err(LedgerError::BalanceOverflow)
    );
    assert_eq!(g.balances(), before);
}

#[test]
fn display_balances_lines() {
    let lines = display_balances(&vec![
        debt("alice", "bob_b", "USD", 1234),
        debt("carol", "bob_b", "JPY", 50),
        debt("carol", "bob_b", "???", 50),
    ]);
    assert_eq!(lines, "@alice owes @bob_b: 12.34\n@carol owes @bob_b: 50\n");
    assert_eq!(display_balances(&vec![]), "No outstanding balances! 🥳\n");
}

#[test]
fn stored_edges_are_checked() {
    let ok = BalanceGraph::from_edges(vec![
        debt("alice", "bob_b", "USD", 5),
        debt("bob_b", "alice", "EUR", 7),
    ])
    .unwrap();
    assert_eq!(ok.net_balances("EUR"), vec![debt("bob_b", "alice", "EUR", 7)]);
    let dual = BalanceGraph::from_edges(vec![
        debt("alice", "bob_b", "USD", 5),
        debt("bob_b", "alice", "USD", 2),
    ]);
    assert_eq!(dual.err(), Some(LedgerError::GraphConsistency));
    let zero = BalanceGraph::from_edges(vec![debt("alice", "bob_b", "USD", 0)]);
    assert_eq!(zero.err(), Some(LedgerError::GraphConsistency));
    let own = BalanceGraph::from_edges(vec![debt("alice", "alice", "USD", 3)]);
    assert_eq!(own.err(), Some(LedgerError::GraphConsistency));
}

#[test]
fn payment_shares_must_add_up() {
    let mut p = Payment {
        payment_id: "payment_1".to_string(),
        chat_id: "chat_1".to_string(),
        datetime: "2024-01-01T00:00:00Z".to_string(),
        description: "Dinner".to_string(),
        creditor: "carol".to_string(),
        currency: ("USD".to_string(), 2),
        total: 100,
        debts: process_debts_equal("alice bob_b carol", Some(100)).unwrap(),
    };
    assert!(p.is_consistent());
    p.total = 101;
    assert!(!p.is_consistent());
    p.total = 0;
    p.debts = vec![];
    assert!(!p.is_consistent());
}

#[test]
fn balances_come_in_statement_order() {
    let mut g = BalanceGraph::new();
    g.insert_payment(&shares(&[("zed_z", 1), ("bob_b", 2), ("alice", 3)]), "mia_m", "USD").unwrap();
    g.insert_payment(&shares(&[("alice", 4)]), "bob_b", "USD").unwrap();
    g.insert_payment(&shares(&[("alice", 5)]), "bob_b", "EUR").unwrap();
    assert_eq!(
        g.net_balances("USD"),
        vec![
            debt("alice", "bob_b", "USD", 4),
            debt("alice", "mia_m", "USD", 3),
            debt("bob_b", "mia_m", "USD", 2),
            debt("zed_z", "mia_m", "USD", 1),
        ]
    );
    assert_eq!(
        g.balances(),
        vec![
            debt("alice", "bob_b", "EUR", 5),
            debt("alice", "bob_b", "USD", 4),
            debt("alice", "mia_m", "USD", 3),
            debt("bob_b", "mia_m", "USD", 2),
            debt("zed_z", "mia_m", "USD", 1),
        ]
    );
}

#[test]
fn statement_text_is_restored_after_insert_and_delete() {
    let mut g = BalanceGraph::new();
    g.insert_payment(&shares(&[("carol", 40), ("bob_b", 60)]), "alice", "USD").unwrap();
    let before = display_balances(&g.net_balances("USD"));
    let p = shares(&[("alice", 70), ("bob_b", 5)]);
    g.insert_payment(&p, "carol", "USD").unwrap();
    let _ = display_balances(&g.net_balances("USD"));
    g.delete_payment(&p, "carol", "USD").unwrap();
    assert_eq!(display_balances(&g.net_balances("USD")), before);
}
