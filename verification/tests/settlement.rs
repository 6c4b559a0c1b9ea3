// Tests of the settlement engine on concrete requests. Amounts are in cents
// (100.00 becomes 10000) and percentages in basis points (50% becomes 5000).

use bill_split::engine::calculate;
use bill_split::models::{BillSplitParticipant, BillSplitState, CalcError, SplitMode, SplitResult,
    MAX_AMOUNT_CENTS};

fn p(name: &str, paid: i64) -> BillSplitParticipant {
    BillSplitParticipant { name: name.to_string(), paid, percentage: None, is_payer: None }
}

fn p_pct(name: &str, paid: i64, pct: i64) -> BillSplitParticipant {
    BillSplitParticipant { name: name.to_string(), paid, percentage: Some(pct), is_payer: None }
}

fn p_solo(name: &str, paid: i64, is_payer: bool) -> BillSplitParticipant {
    BillSplitParticipant {
        name: name.to_string(),
        paid,
        percentage: None,
        is_payer: Some(is_payer),
    }
}

fn state(mode: SplitMode, num_people: usize, participants: Vec<BillSplitParticipant>) -> BillSplitState {
    BillSplitState { split_mode: mode, num_people, participants }
}

fn row_core(r: &SplitResult) -> (String, i64, i64, i64) {
    (r.name.clone(), r.paid, r.share, r.balance)
}

#[test]
fn equal_split_two_people() {
    let s = state(SplitMode::Equal, 2, vec![p("A", 10000), p("B", 0)]);
    let rows = calculate(&s).unwrap();
    assert_eq!(rows.len(), 2);
    assert_eq!(row_core(&rows[0]), ("A".to_string(), 10000, 5000, 5000));
    assert_eq!(row_core(&rows[1]), ("B".to_string(), 0, 5000, -5000));
    assert!(rows[0].payments.is_empty());
    assert_eq!(rows[1].payments.len(), 1);
    assert_eq!(rows[1].payments[0].to, "A");
    assert_eq!(rows[1].payments[0].amount, 5000);
}

#[test]
fn percentage_split_even() {
    let s = state(
        SplitMode::Percentage,
        2,
        vec![p_pct("A", 9000, 5000), p_pct("B", 0, 5000)],
    );
    let rows = calculate(&s).unwrap();
    assert_eq!(row_core(&rows[0]), ("A".to_string(), 9000, 4500, 4500));
    assert_eq!(row_core(&rows[1]), ("B".to_string(), 0, 4500, -4500));
    assert!(rows[0].payments.is_empty());
    assert_eq!(rows[1].payments.len(), 1);
    assert_eq!(rows[1].payments[0].to, "A");
    assert_eq!(rows[1].payments[0].amount, 4500);
}

#[test]
fn percentage_mismatch_rejected() {
    let s = state(
        SplitMode::Percentage,
        2,
        vec![p_pct("A", 9000, 5000), p_pct("B", 0, 4000)],
    );
    assert!(matches!(calculate(&s), Err(CalcError::BadPercentSum)));
}

#[test]
fn percentage_tolerance_boundaries() {
    // 100.01% passes, 100.02% fails; 99.99% passes, 99.98% fails.
    for (a, b, ok) in [
        (5000, 5001, true),
        (5000, 5002, false),
        (5000, 4999, true),
        (5000, 4998, false),
    ] {
        let s = state(SplitMode::Percentage, 2, vec![p_pct("A", 100, a), p_pct("B", 0, b)]);
        let r = calculate(&s);
        if ok {
            assert!(r.is_ok(), "sum {} should pass", a + b);
        } else {
            assert!(matches!(r, Err(CalcError::BadPercentSum)), "sum {} should fail", a + b);
        }
    }
}

#[test]
fn percentage_absent_treated_as_zero() {
    let s = state(
        SplitMode::Percentage,
        2,
        vec![p_pct("A", 6000, 10000), p("B", 0)],
    );
    let rows = calculate(&s).unwrap();
    assert_eq!(rows[0].share, 6000);
    assert_eq!(rows[1].share, 0);
    assert_eq!(rows[1].balance, 0);
    assert!(rows[1].payments.is_empty());
}

#[test]
fn solo_mode_payer_owes_all() {
    let s = state(
        SplitMode::Solo,
        2,
        vec![p_solo("A", 0, false), p_solo("B", 20000, true)],
    );
    let rows = calculate(&s).unwrap();
    assert_eq!(row_core(&rows[0]), ("A".to_string(), 0, 0, 0));
    assert_eq!(row_core(&rows[1]), ("B".to_string(), 20000, 20000, 0));
    assert!(rows[0].payments.is_empty());
    assert!(rows[1].payments.is_empty());
}

#[test]
fn solo_mode_absent_payer_flag_means_not_payer() {
    let s = state(SplitMode::Solo, 2, vec![p("A", 5000), p_solo("B", 0, true)]);
    let rows = calculate(&s).unwrap();
    assert_eq!(rows[0].share, 0);
    assert_eq!(rows[1].share, 5000);
    // A overpaid by 5000, B underpaid by 5000: B pays A.
    assert_eq!(rows[1].payments.len(), 1);
    assert_eq!(rows[1].payments[0].to, "A");
    assert_eq!(rows[1].payments[0].amount, 5000);
}

#[test]
fn three_way_uneven_equal_split() {
    let s = state(SplitMode::Equal, 3, vec![p("A", 30000), p("B", 0), p("C", 0)]);
    let rows = calculate(&s).unwrap();
    assert_eq!(row_core(&rows[0]), ("A".to_string(), 30000, 10000, 20000));
    assert_eq!(row_core(&rows[1]), ("B".to_string(), 0, 10000, -10000));
    assert_eq!(row_core(&rows[2]), ("C".to_string(), 0, 10000, -10000));
    assert!(rows[0].payments.is_empty());
    assert_eq!(rows[1].payments.len(), 1);
    assert_eq!(rows[1].payments[0].to, "A");
    assert_eq!(rows[1].payments[0].amount, 10000);
    assert_eq!(rows[2].payments.len(), 1);
    assert_eq!(rows[2].payments[0].to, "A");
    assert_eq!(rows[2].payments[0].amount, 10000);
}

#[test]
fn empty_participants_rejected_in_every_mode() {
    for mode in [SplitMode::Equal, SplitMode::Percentage, SplitMode::Solo, SplitMode::Other] {
        let s = state(mode, 2, vec![]);
        assert!(matches!(calculate(&s), Err(CalcError::NoParticipants)));
    }
}

#[test]
fn unknown_mode_gives_zero_shares() {
    let s = state(SplitMode::Other, 2, vec![p("A", 10000), p("B", -10000)]);
    let rows = calculate(&s).unwrap();
    assert_eq!(rows[0].share, 0);
    assert_eq!(rows[1].share, 0);
    assert_eq!(rows[0].balance, 10000);
    assert_eq!(rows[1].balance, -10000);
    // The zero-share policy still settles: B owes 10000 and A is owed 10000.
    assert_eq!(rows[1].payments.len(), 1);
    assert_eq!(rows[1].payments[0].to, "A");
    assert_eq!(rows[1].payments[0].amount, 10000);
}

#[test]
fn equal_split_rounds_each_share_to_the_cent() {
    // 100.00 among three: each share rounds to 33.33, one cent undistributed.
    let s = state(SplitMode::Equal, 3, vec![p("A", 10000), p("B", 0), p("C", 0)]);
    let rows = calculate(&s).unwrap();
    assert_eq!(rows[0].share, 3333);
    assert_eq!(rows[0].balance, 6667);
    assert_eq!(rows[1].balance, -3333);
    assert_eq!(rows[2].balance, -3333);
    // Both debtors pay in full; A stays one cent short of its balance.
    assert_eq!(rows[1].payments[0].amount, 3333);
    assert_eq!(rows[2].payments[0].amount, 3333);
    let total_balance: i64 = rows.iter().map(|r| r.balance).sum();
    assert_eq!(total_balance, 1);
}

#[test]
fn half_cent_rounds_away_from_zero() {
    // 0.15 split two ways: 7.5 cents becomes 8 cents.
    let s = state(SplitMode::Equal, 2, vec![p("A", 15), p("B", 0)]);
    let rows = calculate(&s).unwrap();
    assert_eq!(rows[0].share, 8);
    assert_eq!(rows[1].share, 8);
    assert_eq!(rows[0].balance, 7);
    assert_eq!(rows[1].balance, -8);
    // B owes 8 but only 7 cents of credit exist: the payment is capped there.
    assert_eq!(rows[1].payments.len(), 1);
    assert_eq!(rows[1].payments[0].amount, 7);
}

#[test]
fn negative_total_rounds_away_from_zero() {
    // A refund of 0.15 split two ways: -7.5 cents becomes -8 cents.
    let s = state(SplitMode::Equal, 2, vec![p("A", -15), p("B", 0)]);
    let rows = calculate(&s).unwrap();
    assert_eq!(rows[0].share, -8);
    assert_eq!(rows[0].balance, -7);
    assert_eq!(rows[1].balance, 8);
    // A owes 7 and B is owed 8: A pays B what it owes.
    assert_eq!(rows[0].payments.len(), 1);
    assert_eq!(rows[0].payments[0].to, "B");
    assert_eq!(rows[0].payments[0].amount, 7);
}

#[test]
fn solo_mode_with_two_payers() {
    let s = state(
        SplitMode::Solo,
        2,
        vec![p_solo("A", 10000, true), p_solo("B", 10000, true)],
    );
    let rows = calculate(&s).unwrap();
    // Each payer owes the whole total; there is no creditor to receive.
    assert_eq!(rows[0].share, 20000);
    assert_eq!(rows[1].share, 20000);
    assert_eq!(rows[0].balance, -10000);
    assert_eq!(rows[1].balance, -10000);
    assert!(rows[0].payments.is_empty());
    assert!(rows[1].payments.is_empty());
}

#[test]
fn one_debtor_pays_several_creditors() {
    let s = state(
        SplitMode::Equal,
        3,
        vec![p("A", 3000), p("B", 3000), p("C", 0)],
    );
    let rows = calculate(&s).unwrap();
    // Shares of 2000 each: A and B are owed 1000, C owes 2000.
    assert_eq!(rows[2].payments.len(), 2);
    assert_eq!(rows[2].payments[0].to, "A");
    assert_eq!(rows[2].payments[0].amount, 1000);
    assert_eq!(rows[2].payments[1].to, "B");
    assert_eq!(rows[2].payments[1].amount, 1000);
}

#[test]
fn calculate_twice_gives_identical_output() {
    let s = state(
        SplitMode::Equal,
        3,
        vec![p("A", 10000), p("B", 2500), p("C", 0)],
    );
    let r1 = calculate(&s).unwrap();
    let r2 = calculate(&s).unwrap();
    assert_eq!(r1.len(), r2.len());
    for (a, b) in r1.iter().zip(r2.iter()) {
        assert_eq!(row_core(a), row_core(b));
        assert_eq!(a.payments.len(), b.payments.len());
        for (x, y) in a.payments.iter().zip(b.payments.iter()) {
            assert_eq!(x.to, y.to);
            assert_eq!(x.amount, y.amount);
        }
    }
}

#[test]
fn error_messages() {
    assert_eq!(CalcError::NoParticipants.message(), "Must have at least one participant");
    assert_eq!(CalcError::BadPercentSum.message(), "Percentages must sum to 100");
}

#[test]
fn num_people_independent_of_participant_count() {
    // The divisor is taken as given, even when it differs from the list length.
    let s = state(SplitMode::Equal, 4, vec![p("A", 10000), p("B", 0)]);
    let rows = calculate(&s).unwrap();
    assert_eq!(rows[0].share, 2500);
    assert_eq!(rows[1].share, 2500);
    assert_eq!(rows[0].balance, 7500);
    assert_eq!(rows[1].balance, -2500);
    assert_eq!(rows[1].payments[0].to, "A");
    assert_eq!(rows[1].payments[0].amount, 2500);
}

#[test]
fn negative_percentage_accepted_when_sum_is_right() {
    let s = state(
        SplitMode::Percentage,
        2,
        vec![p_pct("A", 10000, -5000), p_pct("B", 0, 15000)],
    );
    let rows = calculate(&s).unwrap();
    assert_eq!(rows[0].share, -5000);
    assert_eq!(rows[1].share, 15000);
    assert_eq!(rows[0].balance, 15000);
    assert_eq!(rows[1].balance, -15000);
    assert_eq!(rows[1].payments.len(), 1);
    assert_eq!(rows[1].payments[0].to, "A");
    assert_eq!(rows[1].payments[0].amount, 15000);
}

#[test]
fn largest_supported_amount() {
    let s = state(SplitMode::Equal, 2, vec![p("A", MAX_AMOUNT_CENTS), p("B", 0)]);
    let rows = calculate(&s).unwrap();
    assert_eq!(rows[0].share, MAX_AMOUNT_CENTS / 2);
    assert_eq!(rows[1].balance, -MAX_AMOUNT_CENTS / 2);
    assert_eq!(rows[1].payments[0].amount, MAX_AMOUNT_CENTS / 2);
}

#[test]
fn many_participants_balance_out() {
    // One payer and 999 others splitting equally: every non-payer owes the
    // payer one share, and the balances sum to zero exactly.
    let n: usize = 1000;
    let mut parts = vec![p("payer", 100_000)];
    for i in 1..n {
        parts.push(p(&format!("guest{}", i), 0));
    }
    let s = state(SplitMode::Equal, n, parts);
    let rows = calculate(&s).unwrap();
    assert_eq!(rows.len(), n);
    assert_eq!(rows[0].share, 100);
    assert_eq!(rows[0].balance, 99_900);
    assert!(rows[0].payments.is_empty());
    for row in rows.iter().skip(1) {
        assert_eq!(row.balance, -100);
        assert_eq!(row.payments.len(), 1);
        assert_eq!(row.payments[0].to, "payer");
        assert_eq!(row.payments[0].amount, 100);
    }
    let total_balance: i64 = rows.iter().map(|r| r.balance).sum();
    assert_eq!(total_balance, 0);
}

#[test]
fn single_participant_equal_split() {
    let s = state(SplitMode::Equal, 1, vec![p("A", 12345)]);
    let rows = calculate(&s).unwrap();
    assert_eq!(row_core(&rows[0]), ("A".to_string(), 12345, 12345, 0));
    assert!(rows[0].payments.is_empty());
}
