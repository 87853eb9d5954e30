use chaching_clan::error::LedgerError;
use chaching_clan::split::{
    parse_debts_payback, process_debts, process_debts_equal, process_debts_exact,
    process_debts_ratio, split_equal_amounts, split_ratio_amounts, AddDebtsFormat,
};

fn total_of(debts: &[(String, i64)]) -> i64 {
    debts.iter().map(|d| d.1).sum()
}

fn names(n: usize) -> String {
    (0..n).map(|i| format!("@member_{i:03}")).collect::<Vec<_>>().join(" ")
}

#[test]
fn equal_split_of_one_hundred_among_three() {
    let debts = process_debts_equal("@alpha_a @bravo_b @charlie", Some(100)).unwrap();
    assert_eq!(
        debts,
        vec![
            ("alpha_a".to_string(), 34),
            ("bravo_b".to_string(), 33),
            ("charlie".to_string(), 33),
        ]
    );
    let max = debts.iter().map(|d| d.1).max().unwrap();
    let min = debts.iter().map(|d| d.1).min().unwrap();
    assert!(max - min <= 1);
    assert_eq!(total_of(&debts), 100);
}

#[test]
fn equal_split_takes_back_from_the_first_when_rounding_up() {
    let debts = process_debts_equal("alpha_a bravo_b charlie", Some(5)).unwrap();
    assert_eq!(
        debts,
        vec![
            ("alpha_a".to_string(), 1),
            ("bravo_b".to_string(), 2),
            ("charlie".to_string(), 2),
        ]
    );
}

#[test]
fn equal_split_counts_repeats_once() {
    let debts = process_debts_equal("@alpha_a @ALPHA_A @bravo_b", Some(10)).unwrap();
    assert_eq!(
        debts,
        vec![("alpha_a".to_string(), 5), ("bravo_b".to_string(), 5)]
    );
}

#[test]
fn equal_split_errors() {
    assert_eq!(
        process_debts_equal("   ", Some(10)),
        Err(LedgerError::EmptyParticipantList)
    );
    assert_eq!(
        process_debts_equal("@alpha_a", None),
        Err(LedgerError::MissingTotal)
    );
    assert_eq!(
        process_debts_equal("@ab", Some(10)),
        Err(LedgerError::InvalidUsername)
    );
}

#[test]
fn exact_split_charges_shortfall_to_creditor() {
    let debts = process_debts_exact(
        "@alpha_a 60 @bravo_b 30",
        &Some("charlie".to_string()),
        Some(("NIL".to_string(), 0)),
        Some(100),
    )
    .unwrap();
    assert!(debts.contains(&("charlie".to_string(), 10)));
    assert_eq!(total_of(&debts), 100);
    assert_eq!(
        debts,
        vec![
            ("alpha_a".to_string(), 60),
            ("bravo_b".to_string(), 30),
            ("charlie".to_string(), 10),
        ]
    );
}

#[test]
fn exact_split_adds_repeated_names_and_creditor_share() {
    let debts = process_debts_exact(
        "alpha_a 1.50 bravo_b 2 alpha_a 0.50",
        &Some("bravo_b".to_string()),
        Some(("USD".to_string(), 2)),
        Some(500),
    )
    .unwrap();
    assert_eq!(
        debts,
        vec![("alpha_a".to_string(), 200), ("bravo_b".to_string(), 300)]
    );
}

#[test]
fn exact_split_errors() {
    let usd = Some(("USD".to_string(), 2));
    let payer = Some("charlie".to_string());
    assert_eq!(
        process_debts_exact("alpha_a 60", &None, usd.clone(), Some(100)),
        Err(LedgerError::MissingCreditor)
    );
    assert_eq!(
        process_debts_exact("alpha_a 60", &payer, usd.clone(), None),
        Err(LedgerError::MissingTotal)
    );
    assert_eq!(
        process_debts_exact("alpha_a 60", &payer, None, Some(100)),
        Err(LedgerError::MissingCurrency)
    );
    assert_eq!(
        process_debts_exact("alpha_a 60 bravo_b", &payer, usd.clone(), Some(100)),
        Err(LedgerError::OddTokenCount)
    );
    assert_eq!(
        process_debts_exact("alpha_a 2", &payer, usd.clone(), Some(100)),
        Err(LedgerError::ExactAmountsExceedTotal)
    );
    assert_eq!(
        process_debts_exact("alpha_a x", &payer, usd.clone(), Some(100)),
        Err(LedgerError::InvalidAmount)
    );
    assert_eq!(
        process_debts_exact("alpha_a -1", &payer, usd, Some(100)),
        Err(LedgerError::NonPositiveAmount)
    );
}

#[test]
fn ratio_split_of_one_hundred_one_to_two() {
    let debts = process_debts_ratio("@alpha_a 1 @bravo_b 2", Some(100)).unwrap();
    assert_eq!(
        debts,
        vec![("alpha_a".to_string(), 33), ("bravo_b".to_string(), 67)]
    );
    assert_eq!(total_of(&debts), 100);
}

#[test]
fn ratio_split_merges_names_ignoring_case() {
    let debts = process_debts_ratio("alpha_a 1 bravo_b 1 ALPHA_A 2", Some(8)).unwrap();
    assert_eq!(
        debts,
        vec![("alpha_a".to_string(), 6), ("bravo_b".to_string(), 2)]
    );
}

#[test]
fn ratio_split_errors() {
    assert_eq!(
        process_debts_ratio("alpha_a 1 bravo_b", Some(10)),
        Err(LedgerError::OddTokenCount)
    );
    assert_eq!(
        process_debts_ratio("alpha_a 1", None),
        Err(LedgerError::MissingTotal)
    );
    assert_eq!(
        process_debts_ratio("", Some(10)),
        Err(LedgerError::EmptyParticipantList)
    );
    assert_eq!(
        process_debts_ratio("alpha_a 0", Some(10)),
        Err(LedgerError::NonPositiveAmount)
    );
}

#[test]
fn every_split_sums_to_its_total() {
    for n in 1..=50usize {
        for total in [1i64, 2, 3, 7, 99, 100, 101, 12345, 999_999_937] {
            let people = names(n);
            let equal = process_debts_equal(&people, Some(total)).unwrap();
            assert_eq!(total_of(&equal), total);
            assert_eq!(equal.len(), n);

            let weighted: String = (0..n)
                .map(|i| format!("@member_{i:03} {}", i % 7 + 1))
                .collect::<Vec<_>>()
                .join(" ");
            let ratio = process_debts_ratio(&weighted, Some(total)).unwrap();
            assert_eq!(total_of(&ratio), total);

            let exact_text: String = (0..n)
                .map(|i| format!("@member_{i:03} 0.01"))
                .collect::<Vec<_>>()
                .join(" ");
            if (n as i64) <= total {
                let exact = process_debts_exact(
                    &exact_text,
                    &Some("payer_x".to_string()),
                    Some(("USD".to_string(), 2)),
                    Some(total),
                )
                .unwrap();
                assert_eq!(total_of(&exact), total);
            }
        }
    }
}

#[test]
fn split_amounts_directly() {
    assert_eq!(split_equal_amounts(10, 4), vec![2, 2, 3, 3]);
    assert_eq!(split_equal_amounts(1, 3), vec![1, 0, 0]);
    assert_eq!(split_ratio_amounts(10, &vec![1, 1, 1]), vec![4, 3, 3]);
    assert_eq!(split_ratio_amounts(i64::MAX, &vec![1]), vec![i64::MAX]);
    assert_eq!(
        split_ratio_amounts(i64::MAX, &vec![1, 1u128 << 125]),
        vec![0, i64::MAX]
    );
}

#[test]
fn process_debts_dispatches_on_format() {
    let payer = Some("charlie".to_string());
    let usd = Some(("USD".to_string(), 2));
    assert_eq!(
        process_debts(AddDebtsFormat::Equal, "alpha_a bravo_b", &payer, usd.clone(), Some(4)),
        Ok(vec![("alpha_a".to_string(), 2), ("bravo_b".to_string(), 2)])
    );
    assert_eq!(
        process_debts(AddDebtsFormat::Exact, "alpha_a 0.03", &payer, usd.clone(), Some(4)),
        Ok(vec![("alpha_a".to_string(), 3), ("charlie".to_string(), 1)])
    );
    assert_eq!(
        process_debts(AddDebtsFormat::Ratio, "alpha_a 3 bravo_b 1", &payer, usd, Some(4)),
        Ok(vec![("alpha_a".to_string(), 3), ("bravo_b".to_string(), 1)])
    );
}

#[test]
fn payback_reads_pairs_and_refuses_self() {
    let usd = ("USD".to_string(), 2);
    assert_eq!(
        parse_debts_payback("@alpha_a 1.5 @bravo_b 2 @alpha_a 1", usd.clone(), "charlie"),
        Ok(vec![("alpha_a".to_string(), 250), ("bravo_b".to_string(), 200)])
    );
    assert_eq!(
        parse_debts_payback("@Charlie 1", usd.clone(), "charlie"),
        Err(LedgerError::SelfPayback)
    );
    assert_eq!(
        parse_debts_payback("@alpha_a", usd, "charlie"),
        Err(LedgerError::OddTokenCount)
    );
}

#[test]
fn ratio_weights_are_read_exactly() {
    assert_eq!(
        process_debts_ratio("@alpha_a 0.0000001 @bravo_b 0.0000003", Some(100)),
        Ok(vec![("alpha_a".to_string(), 25), ("bravo_b".to_string(), 75)])
    );
    assert_eq!(
        process_debts_ratio("alpha_a 0.5 bravo_b 1.25", Some(7)),
        Ok(vec![("alpha_a".to_string(), 2), ("bravo_b".to_string(), 5)])
    );
    assert_eq!(
        process_debts_ratio("alpha_a 1000000000000 bravo_b 3000000000000", Some(8)),
        Ok(vec![("alpha_a".to_string(), 2), ("bravo_b".to_string(), 6)])
    );
    assert_eq!(
        process_debts_ratio("alpha_a 1000000000000000 bravo_b 0.000000000000000000001", Some(10)),
        Ok(vec![("alpha_a".to_string(), 10), ("bravo_b".to_string(), 0)])
    );
    assert_eq!(
        process_debts_ratio("alpha_a 1000000000000001", Some(10)),
        Err(LedgerError::AmountTooLarge)
    );
    assert_eq!(
        process_debts_ratio("alpha_a -2", Some(10)),
        Err(LedgerError::NonPositiveAmount)
    );
}

#[test]
fn equal_split_counts_a_name_once_with_or_without_at() {
    let debts = process_debts_equal("@alpha_a alpha_a ALPHA_A @bravo_b", Some(10)).unwrap();
    assert_eq!(
        debts,
        vec![("alpha_a".to_string(), 5), ("bravo_b".to_string(), 5)]
    );
}

#[test]
fn payback_sums_large_repeated_amounts() {
    let jpy = ("JPY".to_string(), 0);
    assert_eq!(
        parse_debts_payback(
            "@alpha_a 1000000000000000 @alpha_a 1000000000000000",
            jpy,
            "charlie"
        ),
        Ok(vec![("alpha_a".to_string(), 2_000_000_000_000_000)])
    );
}
