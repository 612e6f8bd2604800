use tarascapay::settle::{simplify_debts, NetBalance};
use tarascapay::split::{compute_shares, default_split_type, distribute, Participant, SplitError, SplitType};

fn ids(n: usize) -> Vec<u128> {
    (0..n)
        .map(|i| uuid::Uuid::from_u128(0x1000_0000_0000_0000_0000_0000_0000_0000u128 + i as u128).as_u128())
        .collect()
}

fn parts(ids: &[u128], values: &[i64]) -> Vec<Participant> {
    ids.iter()
        .zip(values)
        .map(|(&user_id, &value)| Participant { user_id, value })
        .collect()
}

#[test]
fn equal_split_divides_evenly() {
    let u = ids(4);
    let p = parts(&u, &[0, 0, 0, 0]);
    let shares = compute_shares(10_000, SplitType::Equal, &p).unwrap();
    assert!(shares.iter().all(|s| s.share_cents == 2_500));
}

#[test]
fn equal_split_never_loses_a_cent() {
    let u = ids(3);
    let p = parts(&u, &[0, 0, 0]);
    let shares = compute_shares(10_000, SplitType::Equal, &p).unwrap();
    let total: i64 = shares.iter().map(|s| s.share_cents).sum();
    assert_eq!(total, 10_000);
    let mut cents: Vec<i64> = shares.iter().map(|s| s.share_cents).collect();
    cents.sort();
    assert_eq!(cents, vec![3_333, 3_333, 3_334]);
}

#[test]
fn equal_split_of_one_cent_goes_to_a_single_person() {
    let u = ids(3);
    let p = parts(&u, &[0, 0, 0]);
    let shares = compute_shares(1, SplitType::Equal, &p).unwrap();
    let total: i64 = shares.iter().map(|s| s.share_cents).sum();
    assert_eq!(total, 1);
    assert_eq!(shares.iter().filter(|s| s.share_cents == 1).count(), 1);
}

#[test]
fn exact_split_requires_matching_total() {
    let u = ids(2);
    let ok = compute_shares(5_000, SplitType::Exact, &parts(&u, &[2_000, 3_000]));
    assert!(ok.is_ok());

    let bad = compute_shares(5_000, SplitType::Exact, &parts(&u, &[2_000, 2_000]));
    assert_eq!(
        bad.unwrap_err(),
        SplitError::ExactMismatch {
            expected: 5_000,
            got: 4_000
        }
    );
}

#[test]
fn percentage_split_requires_one_hundred_percent() {
    let u = ids(2);
    let shares =
        compute_shares(10_000, SplitType::Percentage, &parts(&u, &[7_000, 3_000])).unwrap();
    assert_eq!(shares[0].share_cents, 7_000);
    assert_eq!(shares[1].share_cents, 3_000);

    let bad = compute_shares(10_000, SplitType::Percentage, &parts(&u, &[7_000, 2_000]));
    assert_eq!(bad.unwrap_err(), SplitError::PercentageMismatch { got: 9_000 });
}

#[test]
fn percentage_split_with_thirds_stays_exact() {
    let u = ids(3);
    let shares = compute_shares(
        10_000,
        SplitType::Percentage,
        &parts(&u, &[3_333, 3_333, 3_334]),
    )
    .unwrap();
    let total: i64 = shares.iter().map(|s| s.share_cents).sum();
    assert_eq!(total, 10_000);
}

#[test]
fn shares_split_is_proportional() {
    let u = ids(3);
    let shares = compute_shares(9_000, SplitType::Shares, &parts(&u, &[2, 1, 0])).unwrap();
    assert_eq!(shares[0].share_cents, 6_000);
    assert_eq!(shares[1].share_cents, 3_000);
    assert_eq!(shares[2].share_cents, 0);
}

#[test]
fn shares_split_rejects_all_zero() {
    let u = ids(2);
    let bad = compute_shares(1_000, SplitType::Shares, &parts(&u, &[0, 0]));
    assert_eq!(bad.unwrap_err(), SplitError::ZeroShares);
}

#[test]
fn rejects_bad_inputs() {
    let u = ids(2);
    assert_eq!(
        compute_shares(0, SplitType::Equal, &parts(&u, &[0, 0])).unwrap_err(),
        SplitError::NonPositiveAmount
    );
    assert_eq!(
        compute_shares(100, SplitType::Equal, &[]).unwrap_err(),
        SplitError::NoParticipants
    );
    assert_eq!(
        compute_shares(100, SplitType::Shares, &parts(&u, &[-1, 2])).unwrap_err(),
        SplitError::NegativeValue
    );
    let dup = vec![
        Participant { user_id: u[0], value: 1 },
        Participant { user_id: u[0], value: 1 },
    ];
    assert_eq!(
        compute_shares(100, SplitType::Equal, &dup).unwrap_err(),
        SplitError::DuplicateParticipant
    );
}

#[test]
fn simplify_settles_a_simple_triangle() {
    let u = ids(3);
    let balances = vec![
        NetBalance { user_id: u[0], net_cents: 6_000 },
        NetBalance { user_id: u[1], net_cents: -4_000 },
        NetBalance { user_id: u[2], net_cents: -2_000 },
    ];
    let transfers = simplify_debts(&balances);
    assert_eq!(transfers.len(), 2);
    assert!(transfers.iter().all(|t| t.to == u[0]));
    let total: i64 = transfers.iter().map(|t| t.amount_cents).sum();
    assert_eq!(total, 6_000);
}

#[test]
fn simplify_produces_at_most_n_minus_one_transfers() {
    let u = ids(5);
    let balances = vec![
        NetBalance { user_id: u[0], net_cents: 10_000 },
        NetBalance { user_id: u[1], net_cents: 5_000 },
        NetBalance { user_id: u[2], net_cents: -3_000 },
        NetBalance { user_id: u[3], net_cents: -6_000 },
        NetBalance { user_id: u[4], net_cents: -6_000 },
    ];
    let transfers = simplify_debts(&balances);
    assert!(transfers.len() <= 4, "demasiadas transferencias");

    let mut net: Vec<(u128, i64)> = balances.iter().map(|b| (b.user_id, b.net_cents)).collect();
    for t in &transfers {
        net.iter_mut().find(|(id, _)| *id == t.from).unwrap().1 += t.amount_cents;
        net.iter_mut().find(|(id, _)| *id == t.to).unwrap().1 -= t.amount_cents;
    }
    assert!(net.iter().all(|(_, v)| *v == 0));
}

#[test]
fn simplify_ignores_settled_groups() {
    let u = ids(2);
    let balances = vec![
        NetBalance { user_id: u[0], net_cents: 0 },
        NetBalance { user_id: u[1], net_cents: 0 },
    ];
    assert!(simplify_debts(&balances).is_empty());
}

// ---------------------------------------------------------------------------

#[test]
fn split_types_round_trip_through_their_names() {
    for t in [SplitType::Equal, SplitType::Exact, SplitType::Percentage, SplitType::Shares] {
        assert_eq!(SplitType::parse(t.as_str()).unwrap(), t);
    }
    assert_eq!(SplitType::Percentage.as_str(), "percentage");
    assert_eq!(
        SplitType::parse("mitad").unwrap_err(),
        SplitError::UnknownSplitType("mitad".to_string())
    );
    assert_eq!(default_split_type(), "equal");
}

#[test]
fn split_error_messages() {
    assert_eq!(
        SplitError::ExactMismatch { expected: 5_000, got: 4_000 }.message(),
        "los importes del reparto suman 4000 y el gasto es de 5000"
    );
    assert_eq!(
        SplitError::PercentageMismatch { got: 9_000 }.message(),
        "los porcentajes deben sumar 100 % (suman 90.00 %)"
    );
    assert_eq!(
        SplitError::UnknownSplitType("x".to_string()).message(),
        "tipo de reparto desconocido: 'x'"
    );
    assert_eq!(
        SplitError::DuplicateParticipant.message(),
        "hay participantes repetidos en el reparto"
    );
    assert_eq!(SplitError::NoParticipants.message(), "el gasto necesita al menos un participante");
    assert_eq!(SplitError::NonPositiveAmount.message(), "el importe debe ser mayor a cero");
    assert_eq!(SplitError::NegativeValue.message(), "los valores del reparto no pueden ser negativos");
    assert_eq!(SplitError::ZeroShares.message(), "al menos un participante debe tener partes");
}

#[test]
fn largest_remainder_goes_to_the_earliest_on_ties() {
    // 100 cents over three equal weights: 34, 33, 33.
    assert_eq!(distribute(100, &[1, 1, 1]), vec![34, 33, 33]);
    // 10 over weights 1 and 2: 3.33.. and 6.66..: the larger remainder wins.
    assert_eq!(distribute(10, &[1, 2]), vec![3, 7]);
    assert_eq!(distribute(0, &[5, 5]), vec![0, 0]);
}

#[test]
fn shares_always_add_up_to_the_amount() {
    let u = ids(7);
    for amount in [1i64, 7, 100, 9_999, 123_457] {
        let shares = compute_shares(amount, SplitType::Equal, &parts(&u, &[0; 7])).unwrap();
        assert_eq!(shares.iter().map(|s| s.share_cents).sum::<i64>(), amount);
        let shares = compute_shares(amount, SplitType::Shares, &parts(&u, &[1, 2, 3, 4, 5, 6, 7])).unwrap();
        assert_eq!(shares.iter().map(|s| s.share_cents).sum::<i64>(), amount);
    }
}

#[test]
fn simplify_pays_the_largest_debts_first() {
    let balances = vec![
        NetBalance { user_id: 1, net_cents: 100 },
        NetBalance { user_id: 2, net_cents: 300 },
        NetBalance { user_id: 3, net_cents: -400 },
    ];
    let transfers = simplify_debts(&balances);
    assert_eq!(transfers.len(), 2);
    assert_eq!((transfers[0].from, transfers[0].to, transfers[0].amount_cents), (3, 2, 300));
    assert_eq!((transfers[1].from, transfers[1].to, transfers[1].amount_cents), (3, 1, 100));
}

#[test]
fn simplify_pairs_the_largest_remaining_each_time() {
    let balances = vec![
        NetBalance { user_id: 1, net_cents: 700 },
        NetBalance { user_id: 2, net_cents: 600 },
        NetBalance { user_id: 3, net_cents: -500 },
        NetBalance { user_id: 4, net_cents: -400 },
        NetBalance { user_id: 5, net_cents: -400 },
    ];
    let got: Vec<(u128, u128, i64)> = simplify_debts(&balances)
        .iter()
        .map(|t| (t.from, t.to, t.amount_cents))
        .collect();
    assert_eq!(got, vec![(3, 1, 500), (4, 2, 400), (5, 1, 200), (5, 2, 200)]);
}

#[test]
fn simplify_ignores_the_order_of_the_balances() {
    let balances = vec![
        NetBalance { user_id: 1, net_cents: 700 },
        NetBalance { user_id: 2, net_cents: 600 },
        NetBalance { user_id: 3, net_cents: -500 },
        NetBalance { user_id: 4, net_cents: -400 },
        NetBalance { user_id: 5, net_cents: -400 },
    ];
    let mut reversed = balances.clone();
    reversed.reverse();
    let mut mixed = balances.clone();
    mixed.swap(0, 3);
    mixed.swap(1, 4);
    assert_eq!(simplify_debts(&balances), simplify_debts(&reversed));
    assert_eq!(simplify_debts(&balances), simplify_debts(&mixed));
}
