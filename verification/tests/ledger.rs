use cost_ledger::error::AppError;
use cost_ledger::model::{Account, CreateDebtorDto, Date, Payment, Split};
use cost_ledger::model::{payment_to_dto, CostsQuery, CreateCostDto, CreatePaymentDto};
use cost_ledger::service::{account, cost, payment};
use cost_ledger::store::Registry;

fn date(year: u16, month: u8, day: u8) -> Date {
    Date { year, month, day }
}

fn two_accounts(reg: &mut Registry) -> (u64, u64) {
    let a = account::create(reg, "Payer".to_string()).unwrap();
    let b = account::create(reg, "Lender".to_string()).unwrap();
    (a.id, b.id)
}

#[test]
fn correctly_calculate_current_snapshot() {
    let lender_id = 1u64;
    let payer_id = 2u64;

    let lender_account = Account {
        id: lender_id,
        name: "Lender".to_string(),
    };

    let payer_account = Account {
        id: payer_id,
        name: "Payer".to_string(),
    };

    // payer added cost of 412
    //   with a split of lender needs to pay 11, rest is payed by payer (and ignored - as cant ow yourself)
    let to_pay: Vec<(u64, i128)> = vec![(lender_id, 11)];
    let being_paid: Vec<(u64, i128)> = vec![(payer_id, 401)];

    // lender pays back 100 to payer
    let payed_payments = vec![Payment {
        id: 3,
        payer_account_id: payer_id,
        lender_account_id: lender_id,
        amount: 100,
        event_date: date(2020, 1, 1),
        description: None,
    }];

    // noone pays back to lender
    let given_payments: Vec<Payment> = vec![];

    let results = cost::accumulate_costs(
        &payed_payments,
        &given_payments,
        &to_pay,
        &being_paid,
        &vec![lender_account, payer_account.clone()],
        &payer_account,
        vec![],
    );

    // resulting in lender: 11 was needed, 100 was payed, so 89 is now owed to lender instead
    assert_eq!(results[0].amount, 89);
    assert_eq!(results[0].amount as f64 / 100.0, 0.89);
}

#[test]
fn snapshot_scenario_end_to_end() {
    let mut reg = Registry::new();
    let payer = account::create(&mut reg, "Payer".to_string()).unwrap();
    let lender = account::create(&mut reg, "Lender".to_string()).unwrap();

    // the lender fronts a cost of 412 cents; the payer's share is 11,
    // the rest stays with the lender itself
    cost::create(
        &mut reg,
        lender.id,
        vec![
            CreateDebtorDto { account_id: payer.id, share: Split::Amount(11) },
            CreateDebtorDto { account_id: lender.id, share: Split::Amount(401) },
        ],
        412,
        None,
        date(2020, 1, 1),
        None,
    )
    .unwrap();

    // the payer settles 100 cents to the lender
    payment::create(&mut reg, payer.id, lender.id, 100, None, date(2020, 1, 2)).unwrap();

    let snapshot = cost::get_current_snapshot(&reg).unwrap();

    // the payer owed 11, paid 100: the lender now owes the payer 89
    let entry = snapshot
        .iter()
        .find(|e| e.payer_account.id == payer.id && e.lender_account.id == lender.id)
        .unwrap();
    assert_eq!(entry.amount, 89);
    assert_eq!(entry.payer_account.name, "Payer");
    assert_eq!(entry.lender_account.name, "Lender");

    // and symmetrically from the lender's side
    let entry = snapshot
        .iter()
        .find(|e| e.payer_account.id == lender.id && e.lender_account.id == payer.id)
        .unwrap();
    assert_eq!(entry.amount, -89);

    // no entry pairs an account with itself
    assert!(snapshot.iter().all(|e| e.payer_account.id != e.lender_account.id));
}

#[test]
fn snapshot_of_empty_registry_is_empty() {
    let reg = Registry::new();
    let snapshot = cost::get_current_snapshot(&reg).unwrap();
    assert_eq!(snapshot.len(), 0);
}

#[test]
fn percentage_split_must_sum_to_one_hundred() {
    let mut reg = Registry::new();
    let (payer, lender) = two_accounts(&mut reg);

    for bad_sum in [99i16, 101] {
        let result = cost::create(
            &mut reg,
            payer,
            vec![
                CreateDebtorDto { account_id: payer, share: Split::Percentage(50) },
                CreateDebtorDto { account_id: lender, share: Split::Percentage(bad_sum - 50) },
            ],
            1000,
            None,
            date(2021, 5, 1),
            None,
        );
        match result {
            Err(AppError::Service(m)) => {
                assert_eq!(
                    m,
                    format!("sum of all debtors percentage needs to be 100 but is {bad_sum}")
                );
            }
            other => panic!("expected a validation error, got {other:?}"),
        }
        assert_eq!(reg.costs.len(), 0);
        assert_eq!(reg.debts.len(), 0);
    }

    let created = cost::create(
        &mut reg,
        payer,
        vec![
            CreateDebtorDto { account_id: payer, share: Split::Percentage(50) },
            CreateDebtorDto { account_id: lender, share: Split::Percentage(50) },
        ],
        1000,
        None,
        date(2021, 5, 1),
        None,
    );
    assert!(created.is_ok());
    assert_eq!(reg.costs.len(), 1);
    assert_eq!(reg.debts.len(), 2);
}

#[test]
fn amount_split_must_sum_to_the_cost_amount() {
    let mut reg = Registry::new();
    let (payer, lender) = two_accounts(&mut reg);

    let result = cost::create(
        &mut reg,
        payer,
        vec![
            CreateDebtorDto { account_id: payer, share: Split::Amount(100) },
            CreateDebtorDto { account_id: lender, share: Split::Amount(300) },
        ],
        412,
        None,
        date(2021, 5, 1),
        None,
    );
    match result {
        Err(AppError::Service(m)) => {
            assert_eq!(m, "sum of all debtors amount needs to be 412 but is 400");
        }
        other => panic!("expected a validation error, got {other:?}"),
    }
    // atomicity: nothing was written
    assert_eq!(reg.costs.len(), 0);
    assert_eq!(reg.debts.len(), 0);

    let created = cost::create(
        &mut reg,
        payer,
        vec![
            CreateDebtorDto { account_id: payer, share: Split::Amount(112) },
            CreateDebtorDto { account_id: lender, share: Split::Amount(300) },
        ],
        412,
        None,
        date(2021, 5, 1),
        None,
    );
    assert!(created.is_ok());
    assert_eq!(reg.costs.len(), 1);
    assert_eq!(reg.debts.len(), 2);
}

#[test]
fn non_positive_debtor_amount_is_rejected() {
    let mut reg = Registry::new();
    let (payer, lender) = two_accounts(&mut reg);
    let result = cost::create(
        &mut reg,
        payer,
        vec![CreateDebtorDto { account_id: lender, share: Split::Amount(0) }],
        0,
        None,
        date(2021, 5, 1),
        None,
    );
    match result {
        Err(AppError::Controller(m)) => {
            assert_eq!(m, "given amount 0 is non existent or negative which it can not be");
        }
        other => panic!("expected a controller error, got {other:?}"),
    }
    assert_eq!(reg.costs.len(), 0);
}

#[test]
fn mixed_split_kinds_are_rejected() {
    let mut reg = Registry::new();
    let (payer, lender) = two_accounts(&mut reg);
    let result = cost::create(
        &mut reg,
        payer,
        vec![
            CreateDebtorDto { account_id: payer, share: Split::Amount(100) },
            CreateDebtorDto { account_id: lender, share: Split::Percentage(50) },
        ],
        100,
        None,
        date(2021, 5, 1),
        None,
    );
    assert!(matches!(result, Err(AppError::Service(_))));
    assert_eq!(reg.costs.len(), 0);
}

#[test]
fn cost_with_unknown_account_is_not_found() {
    let mut reg = Registry::new();
    let (payer, _) = two_accounts(&mut reg);
    let result = cost::create(
        &mut reg,
        payer,
        vec![CreateDebtorDto { account_id: 999, share: Split::Amount(100) }],
        100,
        None,
        date(2021, 5, 1),
        None,
    );
    assert!(matches!(result, Err(AppError::NotFound)));
}

#[test]
fn tags_are_deduplicated() {
    let mut reg = Registry::new();
    let (payer, lender) = two_accounts(&mut reg);
    let created = cost::create(
        &mut reg,
        payer,
        vec![CreateDebtorDto { account_id: lender, share: Split::Amount(100) }],
        100,
        None,
        date(2021, 5, 1),
        Some(vec!["a".to_string(), "b".to_string(), "a".to_string()]),
    )
    .unwrap();
    assert_eq!(created.tags.len(), 2);
    assert!(created.tags.contains(&"a".to_string()));
    assert!(created.tags.contains(&"b".to_string()));

    let tags = account::get_tags(&reg, payer).unwrap();
    assert_eq!(tags.len(), 2);
}

#[test]
fn cost_delete_cascades_to_debts() {
    let mut reg = Registry::new();
    let (payer, lender) = two_accounts(&mut reg);
    let created = cost::create(
        &mut reg,
        payer,
        vec![CreateDebtorDto { account_id: lender, share: Split::Amount(100) }],
        100,
        None,
        date(2021, 5, 1),
        None,
    )
    .unwrap();
    assert_eq!(reg.debts.len(), 1);

    assert!(cost::delete(&mut reg, created.id).is_ok());
    assert_eq!(reg.costs.len(), 0);
    assert_eq!(reg.debts.len(), 0);
    assert!(matches!(cost::delete(&mut reg, created.id), Err(AppError::NotFound)));
}

#[test]
fn percentage_shares_resolve_through_the_snapshot() {
    let mut reg = Registry::new();
    let (payer, lender) = two_accounts(&mut reg);
    // lender fronts 412 cents, the payer owes 25 percent: 103 cents
    cost::create(
        &mut reg,
        lender,
        vec![
            CreateDebtorDto { account_id: payer, share: Split::Percentage(25) },
            CreateDebtorDto { account_id: lender, share: Split::Percentage(75) },
        ],
        412,
        None,
        date(2021, 5, 1),
        None,
    )
    .unwrap();
    let snapshot = cost::get_current_snapshot(&reg).unwrap();
    let entry = snapshot
        .iter()
        .find(|e| e.payer_account.id == payer && e.lender_account.id == lender)
        .unwrap();
    assert_eq!(entry.amount, -103);
}

#[test]
fn account_get_and_delete() {
    let mut reg = Registry::new();
    let created = account::create(&mut reg, "Solo".to_string()).unwrap();
    assert_eq!(account::get(&reg, created.id).unwrap().name, "Solo");
    assert!(matches!(account::get(&reg, created.id + 1), Err(AppError::NotFound)));

    assert!(account::delete(&mut reg, created.id).is_ok());
    assert!(matches!(account::get(&reg, created.id), Err(AppError::NotFound)));
    assert!(matches!(account::delete(&mut reg, created.id), Err(AppError::NotFound)));
}

#[test]
fn referenced_account_cannot_be_deleted() {
    let mut reg = Registry::new();
    let (payer, lender) = two_accounts(&mut reg);
    payment::create(&mut reg, payer, lender, 100, None, date(2022, 2, 2)).unwrap();
    let result = account::delete(&mut reg, payer);
    match result {
        Err(AppError::Service(m)) => {
            assert_eq!(m, "account is still referenced by costs, debts or payments");
        }
        other => panic!("expected a validation error, got {other:?}"),
    }
    assert_eq!(reg.accounts.len(), 2);
}

#[test]
fn payment_queries_filter_by_role() {
    let mut reg = Registry::new();
    let (payer, lender) = two_accounts(&mut reg);
    payment::create(&mut reg, payer, lender, 100, None, date(2022, 2, 2)).unwrap();
    payment::create(&mut reg, lender, payer, 40, None, date(2022, 2, 3)).unwrap();

    let made = payment::get_for_account(&reg, payer).unwrap();
    assert_eq!(made.len(), 1);
    assert_eq!(made[0].amount, 100);

    let received = payment::get_of_account(&reg, payer).unwrap();
    assert_eq!(received.len(), 1);
    assert_eq!(received[0].amount, 40);

    assert_eq!(payment::get_all(&reg).unwrap().len(), 2);

    let id = made[0].id;
    assert_eq!(payment::get(&reg, id).unwrap().amount, 100);
    assert!(payment::delete(&mut reg, id).is_ok());
    assert!(matches!(payment::get(&reg, id), Err(AppError::NotFound)));
}

#[test]
fn out_of_range_amounts_are_rejected() {
    let mut reg = Registry::new();
    let (payer, lender) = two_accounts(&mut reg);
    let result = payment::create(&mut reg, payer, lender, -1, None, date(2022, 2, 2));
    match result {
        Err(AppError::Service(m)) => {
            assert_eq!(m, "given amount -1 is out of range");
        }
        other => panic!("expected a validation error, got {other:?}"),
    }
    assert_eq!(reg.payments.len(), 0);
}

#[test]
fn response_shapes_carry_cents() {
    let request = CreatePaymentDto {
        lender_account_id: 2,
        amount: 1740,
        event_date: date(2022, 3, 4),
        description: Some("rent".to_string()),
    };
    let mut reg = Registry::new();
    let (payer, lender) = two_accounts(&mut reg);
    let stored = payment::create(
        &mut reg,
        payer,
        lender,
        request.amount,
        request.description.clone(),
        request.event_date,
    )
    .unwrap();
    let dto = payment_to_dto(&stored);
    assert_eq!(dto.amount, 1740);
    assert_eq!(dto.payer_account_id, payer);
    assert_eq!(dto.description, Some("rent".to_string()));

    let cost_request = CreateCostDto {
        debtors: vec![CreateDebtorDto { account_id: lender, share: Split::Amount(1740) }],
        amount: 1740,
        event_date: date(2022, 3, 4),
        description: None,
        tags: None,
    };
    cost::create(
        &mut reg,
        payer,
        cost_request.debtors,
        cost_request.amount,
        cost_request.description,
        cost_request.event_date,
        cost_request.tags,
    )
    .unwrap();

    let query = CostsQuery { start_date: Some(date(2022, 1, 1)), end_date: None };
    let listed = cost::get_all(&reg, query.start_date, query.end_date).unwrap();
    assert_eq!(listed.len(), 1);
    assert_eq!(listed[0].amount, 1740);
    assert_eq!(listed[0].debtors.len(), 1);
    assert_eq!(listed[0].debtors[0].amount, 1740);

    // a cost dated before the window stays out
    let earlier_only = cost::get_all(&reg, Some(date(2023, 1, 1)), None).unwrap();
    assert_eq!(earlier_only.len(), 0);
}

#[test]
fn costs_of_one_account_are_listed() {
    let mut reg = Registry::new();
    let (payer, lender) = two_accounts(&mut reg);
    cost::create(
        &mut reg,
        payer,
        vec![CreateDebtorDto { account_id: lender, share: Split::Amount(100) }],
        100,
        None,
        date(2021, 5, 1),
        None,
    )
    .unwrap();
    let listed = cost::get_for_account(&reg, payer).unwrap();
    assert_eq!(listed.len(), 1);
    assert_eq!(listed[0].amount, 100);
    assert_eq!(cost::get_for_account(&reg, lender).unwrap().len(), 0);
    assert_eq!(cost::get(&reg, listed[0].id).unwrap().amount, 100);
}

#[test]
fn debts_aggregate_per_counterparty() {
    let mut reg = Registry::new();
    let (payer, lender) = two_accounts(&mut reg);
    for share in [11i64, 20] {
        cost::create(
            &mut reg,
            lender,
            vec![
                CreateDebtorDto { account_id: payer, share: Split::Amount(share) },
                CreateDebtorDto { account_id: lender, share: Split::Amount(100 - share) },
            ],
            100,
            None,
            date(2021, 6, 1),
            None,
        )
        .unwrap();
    }
    let owed = cost::get_debts_for_account(&reg, payer).unwrap();
    assert_eq!(owed, vec![(lender, 31i128)]);

    let snapshot = cost::get_current_snapshot(&reg).unwrap();
    let entry = snapshot
        .iter()
        .find(|e| e.payer_account.id == payer && e.lender_account.id == lender)
        .unwrap();
    assert_eq!(entry.amount, -31);
}

#[test]
fn percentage_shares_round_down() {
    let mut reg = Registry::new();
    let (payer, lender) = two_accounts(&mut reg);
    // 50 percent of 101 cents resolves to 50 cents for each debtor
    cost::create(
        &mut reg,
        lender,
        vec![
            CreateDebtorDto { account_id: payer, share: Split::Percentage(50) },
            CreateDebtorDto { account_id: lender, share: Split::Percentage(50) },
        ],
        101,
        None,
        date(2021, 6, 1),
        None,
    )
    .unwrap();
    let owed = cost::get_debts_for_account(&reg, payer).unwrap();
    assert_eq!(owed, vec![(lender, 50i128)]);
}
