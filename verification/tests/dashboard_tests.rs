use tarascapay::balances::BalanceRow;
use tarascapay::dashboard::{dashboard_debts, debt_ledger, ledger_fits_check, summarize_debts, PersonTotal};
use tarascapay::balances::UserBrief;

fn row(id: u128, paid: i64, owed: i64) -> BalanceRow {
    BalanceRow {
        user_id: id,
        display_name: format!("u{id}"),
        email: format!("u{id}@mail.com"),
        avatar_url: None,
        paid_cents: paid,
        owed_cents: owed,
    }
}

fn brief(id: u128) -> UserBrief {
    UserBrief { id, display_name: format!("u{id}"), email: String::new(), avatar_url: None }
}

#[test]
fn debts_add_up_over_groups() {
    // Group A: I (1) paid 90 for three; 2 and 3 owe me 30 each.
    let a = vec![row(1, 9_000, 3_000), row(2, 0, 3_000), row(3, 0, 3_000)];
    // Group B: 2 paid 50 for both of us; I owe 2 twenty-five.
    let b = vec![row(1, 0, 2_500), row(2, 5_000, 2_500)];
    let o = dashboard_debts(&[a, b], 1).unwrap();
    let got: Vec<(u128, i64)> = o.debts.iter().map(|d| (d.user.id, d.net_cents)).collect();
    assert_eq!(got, vec![(3, 3_000), (2, 500)]);
    assert_eq!(o.you_are_owed_cents, 3_500);
    assert_eq!(o.you_owe_cents, 0);
    assert_eq!(o.net_cents, 3_500);
}

#[test]
fn even_people_are_left_out_and_larger_debts_come_first() {
    let a = vec![row(1, 0, 1_000), row(2, 1_000, 0)];
    let b = vec![row(1, 1_000, 0), row(2, 0, 1_000)];
    let c = vec![row(1, 0, 4_000), row(4, 4_000, 0)];
    let d = vec![row(1, 200, 0), row(5, 0, 200)];
    let o = dashboard_debts(&[a, b, c, d], 1).unwrap();
    let got: Vec<(u128, i64)> = o.debts.iter().map(|d| (d.user.id, d.net_cents)).collect();
    assert_eq!(got, vec![(4, -4_000), (5, 200)]);
    assert_eq!(o.you_are_owed_cents, 200);
    assert_eq!(o.you_owe_cents, 4_000);
    assert_eq!(o.net_cents, -3_800);
}

#[test]
fn no_groups_no_debts() {
    let o = dashboard_debts(&[], 1).unwrap();
    assert!(o.debts.is_empty());
    assert_eq!((o.you_are_owed_cents, o.you_owe_cents, o.net_cents), (0, 0, 0));
    assert!(debt_ledger(&[vec![row(2, 10, 0), row(3, 0, 10)]], 1).is_empty());
}

#[test]
fn totals_that_do_not_fit_are_refused() {
    let big = vec![PersonTotal { user: brief(2), net_cents: i64::MAX as i128 }, PersonTotal { user: brief(3), net_cents: 1 }];
    assert!(!ledger_fits_check(&big));
    let min = vec![PersonTotal { user: brief(2), net_cents: i64::MIN as i128 }];
    assert!(!ledger_fits_check(&min));
    let fine = vec![PersonTotal { user: brief(2), net_cents: -5 }, PersonTotal { user: brief(3), net_cents: 0 }];
    assert!(ledger_fits_check(&fine));
    let o = summarize_debts(fine);
    assert_eq!(o.debts.len(), 1);
    assert_eq!(o.you_owe_cents, 5);
}
