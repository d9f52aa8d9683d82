use disburse::host::{Action, Address, Env, Event, Symbol};
use disburse::org_registry::{OrgRegistryContract, RegistryAnswer};
use disburse::payroll::{
    validate_splits, PayFrequency, PaySplit, PayrollContract, PayrollError,
};

fn addr(s: &str) -> Address {
    Address::from_strkey(s)
}

struct Fixture {
    contract_id: Address,
    registry: OrgRegistryContract,
    client: PayrollContract,
    token: Address,
    org_id: u64,
    org_admin: Address,
}

fn setup() -> Fixture {
    let super_admin = addr("GSUPERADMIN");
    let registry_id = addr("CORGREGISTRY");
    let mut registry = OrgRegistryContract::new(super_admin);
    let org_admin = addr("GORGADMIN");
    let mut env = Env::new(0, registry_id.clone());
    let org_id = registry.create_org(&mut env, Symbol::new("acme"), org_admin.clone()).unwrap();

    let token = addr("CTOKEN");
    let contract_id = addr("CPAYROLL");
    let client = PayrollContract::new(registry_id, token.clone());
    Fixture { contract_id, registry, client, token, org_id, org_admin }
}

fn events(env: &Env) -> Vec<&Event> {
    env.actions
        .iter()
        .filter_map(|a| match a {
            Action::Publish(e) => Some(e),
            _ => None,
        })
        .collect()
}

fn assert_last_event(env: &Env, expected: Event) {
    let all = events(env);
    assert!(!all.is_empty());
    assert_eq!(all[all.len() - 1], &expected);
}

fn one_split(to: &Address) -> Vec<PaySplit> {
    vec![PaySplit { destination: to.clone(), percentage: 10_000 }]
}

#[test]
fn contract_registers() {
    let org_registry = addr("CORGREGISTRY");
    let token = addr("CTOKEN");
    let payroll = PayrollContract::new(org_registry.clone(), token.clone());
    assert_eq!(payroll.org_registry(), &org_registry);
    assert_eq!(payroll.token(), &token);
}

#[test]
fn pay_frequency_equality() {
    assert_eq!(PayFrequency::Weekly, PayFrequency::Weekly);
    assert_ne!(PayFrequency::Weekly, PayFrequency::Monthly);
}

#[test]
fn period_seconds_per_frequency() {
    assert_eq!(PayFrequency::Weekly.period_seconds(), 604_800);
    assert_eq!(PayFrequency::Biweekly.period_seconds(), 1_209_600);
    assert_eq!(PayFrequency::Monthly.period_seconds(), 2_592_000);
}

#[test]
fn fund_payroll_increases_balance_and_emits_event() {
    let mut f = setup();

    let funder = addr("GFUNDER");
    let mut env = Env::new(0, f.contract_id.clone());
    f.client.fund_payroll(&mut env, f.org_id, funder.clone(), 500_000).unwrap();

    assert_last_event(
        &env,
        Event::PayrollFunded {
            org_id: f.org_id,
            funder: funder.clone(),
            amount: 500_000,
            new_balance: 500_000,
        },
    );
    assert_eq!(
        env.actions[1],
        Action::Transfer {
            token: f.token.clone(),
            from: funder,
            to: f.contract_id.clone(),
            amount: 500_000,
        }
    );

    assert_eq!(f.client.get_org_balance(f.org_id), Ok(500_000));
}

#[test]
fn add_schedule_rejects_bad_split_sum() {
    let mut f = setup();

    let employee = addr("GEMPLOYEE");
    let bad_splits = vec![PaySplit { destination: employee.clone(), percentage: 5_000 }];
    let mut env = Env::new(0, f.contract_id.clone());
    let result = f.client.add_schedule(
        &f.registry,
        &mut env,
        f.org_id,
        employee,
        2_000,
        PayFrequency::Monthly,
        bad_splits,
        f.org_admin.clone(),
    );
    assert_eq!(result, Err(PayrollError::InvalidSplits));
}

#[test]
fn add_schedule_stores_schedule_and_emits_event() {
    let mut f = setup();

    let employee = addr("GEMPLOYEE");
    let mut env = Env::new(0, f.contract_id.clone());
    f.client
        .add_schedule(
            &f.registry,
            &mut env,
            f.org_id,
            employee.clone(),
            2_000,
            PayFrequency::Monthly,
            one_split(&employee),
            f.org_admin.clone(),
        )
        .unwrap();

    assert_last_event(
        &env,
        Event::ScheduleAdded {
            org_id: f.org_id,
            employee: employee.clone(),
            amount: 2_000,
            frequency: PayFrequency::Monthly,
        },
    );

    let schedule = f.client.get_schedule(f.org_id, employee).unwrap();
    assert_eq!(schedule.amount, 2_000);
    assert!(schedule.active);
    assert_eq!(schedule.total_paid, 0);
}

#[test]
fn execute_payroll_disburses_splits_and_emits_events() {
    let mut f = setup();

    let funder = addr("GFUNDER");
    let mut env = Env::new(0, f.contract_id.clone());
    f.client.fund_payroll(&mut env, f.org_id, funder, 10_000).unwrap();

    let employee = addr("GEMPLOYEE");
    let main_wallet = addr("GMAIN");
    let savings_wallet = addr("GSAVINGS");
    let splits = vec![
        PaySplit { destination: main_wallet.clone(), percentage: 7_000 },
        PaySplit { destination: savings_wallet.clone(), percentage: 3_000 },
    ];
    f.client
        .add_schedule(
            &f.registry,
            &mut env,
            f.org_id,
            employee.clone(),
            2_000,
            PayFrequency::Monthly,
            splits,
            f.org_admin.clone(),
        )
        .unwrap();

    let batch_id = f.client.prepare_batch(&mut env, f.org_id).unwrap();
    let mut env = Env::new(0, f.contract_id.clone());
    f.client.execute_payroll(&mut env, f.org_id, batch_id).unwrap();

    // The invocation asks, in order: two token transfers (one per split),
    // one EmployeePaid, then one PayrollExecuted.
    assert_eq!(env.actions.len(), 4);
    assert_eq!(
        env.actions[2],
        Action::Publish(Event::EmployeePaid {
            org_id: f.org_id,
            employee: employee.clone(),
            amount: 2_000,
        })
    );
    assert_eq!(
        env.actions[3],
        Action::Publish(Event::PayrollExecuted {
            org_id: f.org_id,
            batch_id,
            total_disbursed: 2_000,
            employee_count: 1,
        })
    );

    // Split math: 2,000 @ 70/30.
    assert_eq!(
        env.actions[0],
        Action::Transfer {
            token: f.token.clone(),
            from: f.contract_id.clone(),
            to: main_wallet,
            amount: 1_400,
        }
    );
    assert_eq!(
        env.actions[1],
        Action::Transfer {
            token: f.token.clone(),
            from: f.contract_id.clone(),
            to: savings_wallet,
            amount: 600,
        }
    );

    let schedule = f.client.get_schedule(f.org_id, employee).unwrap();
    assert_eq!(schedule.total_paid, 2_000);
    assert!(schedule.next_payment_at > 0);

    assert_eq!(f.client.get_org_balance(f.org_id), Ok(8_000));
}

#[test]
fn execute_payroll_fails_on_insufficient_balance() {
    let mut f = setup();

    let employee = addr("GEMPLOYEE");
    let mut env = Env::new(0, f.contract_id.clone());
    f.client
        .add_schedule(
            &f.registry,
            &mut env,
            f.org_id,
            employee.clone(),
            2_000,
            PayFrequency::Monthly,
            one_split(&employee),
            f.org_admin.clone(),
        )
        .unwrap();

    // No fund_payroll call — balance stays at 0, below the 2,000 owed.
    let batch_id = f.client.prepare_batch(&mut env, f.org_id).unwrap();
    let result = f.client.execute_payroll(&mut env, f.org_id, batch_id);
    assert_eq!(result, Err(PayrollError::InsufficientBalance));
}

#[test]
fn validate_splits_needs_exactly_full_share() {
    let a = addr("GA");
    assert_eq!(validate_splits(&Vec::new()), Err(PayrollError::InvalidSplits));
    assert_eq!(validate_splits(&one_split(&a)), Ok(()));
    let parts = vec![
        PaySplit { destination: a.clone(), percentage: 3_333 },
        PaySplit { destination: a.clone(), percentage: 3_333 },
        PaySplit { destination: a.clone(), percentage: 3_334 },
    ];
    assert_eq!(validate_splits(&parts), Ok(()));
    let over = vec![
        PaySplit { destination: a.clone(), percentage: 9_000 },
        PaySplit { destination: a, percentage: 2_000 },
    ];
    assert_eq!(validate_splits(&over), Err(PayrollError::InvalidSplits));
}

#[test]
fn last_split_takes_the_rounding_remainder() {
    let mut f = setup();
    let mut env = Env::new(0, f.contract_id.clone());
    f.client.fund_payroll(&mut env, f.org_id, addr("GFUNDER"), 1_000).unwrap();
    let employee = addr("GEMPLOYEE");
    let splits = vec![
        PaySplit { destination: addr("GX"), percentage: 3_333 },
        PaySplit { destination: addr("GY"), percentage: 3_333 },
        PaySplit { destination: addr("GZ"), percentage: 3_334 },
    ];
    f.client
        .add_schedule(
            &f.registry,
            &mut env,
            f.org_id,
            employee,
            100,
            PayFrequency::Weekly,
            splits,
            f.org_admin.clone(),
        )
        .unwrap();
    let batch_id = f.client.prepare_batch(&mut env, f.org_id).unwrap();
    let mut env = Env::new(0, f.contract_id.clone());
    f.client.execute_payroll(&mut env, f.org_id, batch_id).unwrap();
    let transfers: Vec<(Address, i128)> = env
        .actions
        .iter()
        .filter_map(|a| match a {
            Action::Transfer { to, amount, .. } => Some((to.clone(), *amount)),
            _ => None,
        })
        .collect();
    // 33 + 33, and the last split takes the remaining 34: all 100 debited
    // reach the destinations.
    assert_eq!(transfers, vec![(addr("GX"), 33), (addr("GY"), 33), (addr("GZ"), 34)]);
    assert_eq!(f.client.get_org_balance(f.org_id), Ok(900));
}

#[test]
fn tiny_amount_reaches_the_last_split() {
    let mut f = setup();
    let mut env = Env::new(0, f.contract_id.clone());
    f.client.fund_payroll(&mut env, f.org_id, addr("GFUNDER"), 10).unwrap();
    let employee = addr("GEMPLOYEE");
    let splits = vec![
        PaySplit { destination: addr("GX"), percentage: 5_000 },
        PaySplit { destination: addr("GY"), percentage: 5_000 },
    ];
    f.client
        .add_schedule(
            &f.registry,
            &mut env,
            f.org_id,
            employee.clone(),
            1,
            PayFrequency::Weekly,
            splits,
            f.org_admin.clone(),
        )
        .unwrap();
    let batch_id = f.client.prepare_batch(&mut env, f.org_id).unwrap();
    let mut env = Env::new(0, f.contract_id.clone());
    f.client.execute_payroll(&mut env, f.org_id, batch_id).unwrap();
    let transfers: Vec<&Action> =
        env.actions.iter().filter(|a| matches!(a, Action::Transfer { .. })).collect();
    assert_eq!(
        transfers,
        vec![&Action::Transfer {
            token: f.token.clone(),
            from: f.contract_id.clone(),
            to: addr("GY"),
            amount: 1
        }]
    );
    assert_eq!(f.client.get_schedule(f.org_id, employee).unwrap().total_paid, 1);
    assert_eq!(f.client.get_org_balance(f.org_id), Ok(9));
}

#[test]
fn readded_schedule_is_listed_and_paid() {
    let mut f = setup();
    let employee = addr("GEMPLOYEE");
    let mut env = Env::new(0, f.contract_id.clone());
    for _ in 0..2 {
        f.client
            .add_schedule(
                &f.registry,
                &mut env,
                f.org_id,
                employee.clone(),
                50,
                PayFrequency::Weekly,
                one_split(&employee),
                f.org_admin.clone(),
            )
            .unwrap();
        f.client
            .remove_schedule(&f.registry, &mut env, f.org_id, employee.clone(), f.org_admin.clone())
            .unwrap();
    }
    f.client
        .add_schedule(
            &f.registry,
            &mut env,
            f.org_id,
            employee.clone(),
            50,
            PayFrequency::Weekly,
            one_split(&employee),
            f.org_admin.clone(),
        )
        .unwrap();
    let batch_id = f.client.prepare_batch(&mut env, f.org_id).unwrap();
    let batch = f.client.get_batch(f.org_id, batch_id).unwrap();
    assert_eq!(batch.employees, vec![employee]);
    assert_eq!(batch.total_amount, 50);
}

#[test]
fn second_batch_at_the_same_time_pays_nobody_twice() {
    let mut f = setup();
    let employee = addr("GEMPLOYEE");
    let mut env = Env::new(100, f.contract_id.clone());
    f.client.fund_payroll(&mut env, f.org_id, addr("GFUNDER"), 10_000).unwrap();
    f.client
        .add_schedule(
            &f.registry,
            &mut env,
            f.org_id,
            employee.clone(),
            2_000,
            PayFrequency::Monthly,
            one_split(&employee),
            f.org_admin.clone(),
        )
        .unwrap();
    let first = f.client.prepare_batch(&mut env, f.org_id).unwrap();
    let second = f.client.prepare_batch(&mut env, f.org_id).unwrap();
    assert_ne!(first, second);
    f.client.execute_payroll(&mut env, f.org_id, first).unwrap();
    let mut env = Env::new(100, f.contract_id.clone());
    f.client.execute_payroll(&mut env, f.org_id, second).unwrap();
    assert!(env.actions.iter().all(|a| !matches!(a, Action::Transfer { .. })));
    let s = f.client.get_schedule(f.org_id, employee).unwrap();
    assert_eq!(s.total_paid, 2_000);
    assert_eq!(s.next_payment_at, 100 + 30 * 86_400);
    assert_eq!(f.client.get_org_balance(f.org_id), Ok(8_000));
}

#[test]
fn raised_schedule_is_checked_against_the_balance() {
    let mut f = setup();
    let employee = addr("GEMPLOYEE");
    let mut env = Env::new(0, f.contract_id.clone());
    f.client.fund_payroll(&mut env, f.org_id, addr("GFUNDER"), 1_000).unwrap();
    f.client
        .add_schedule(
            &f.registry,
            &mut env,
            f.org_id,
            employee.clone(),
            1_000,
            PayFrequency::Weekly,
            one_split(&employee),
            f.org_admin.clone(),
        )
        .unwrap();
    let batch_id = f.client.prepare_batch(&mut env, f.org_id).unwrap();
    f.client
        .update_schedule(
            &f.registry,
            &mut env,
            f.org_id,
            employee.clone(),
            2_000,
            PayFrequency::Weekly,
            one_split(&employee),
            f.org_admin.clone(),
        )
        .unwrap();
    let mut env = Env::new(0, f.contract_id.clone());
    assert_eq!(
        f.client.execute_payroll(&mut env, f.org_id, batch_id),
        Err(PayrollError::InsufficientBalance)
    );
    assert!(env.actions.is_empty());
    assert_eq!(f.client.get_org_balance(f.org_id), Ok(1_000));
}

#[test]
fn huge_percentages_are_invalid_not_overflowing() {
    let to = addr("GX");
    let splits = vec![
        PaySplit { destination: to.clone(), percentage: u32::MAX },
        PaySplit { destination: to, percentage: 10_001 },
    ];
    assert_eq!(validate_splits(&splits), Err(PayrollError::InvalidSplits));
}

#[test]
fn non_admin_cannot_manage_schedules() {
    let mut f = setup();
    let stranger = addr("GSTRANGER");
    let employee = addr("GEMPLOYEE");
    let mut env = Env::new(0, f.contract_id.clone());
    assert_eq!(
        f.client.add_schedule(
            &f.registry,
            &mut env,
            f.org_id,
            employee.clone(),
            10,
            PayFrequency::Weekly,
            one_split(&employee),
            stranger.clone(),
        ),
        Err(PayrollError::NotAuthorized)
    );
    assert_eq!(
        f.client.set_approval_threshold(&f.registry, &mut env, f.org_id, 2, stranger.clone()),
        Err(PayrollError::NotAuthorized)
    );
    assert_eq!(
        f.client.withdraw_funds(&f.registry, &mut env, f.org_id, 1, stranger.clone()),
        Err(PayrollError::NotAuthorized)
    );
    assert_eq!(
        f.client.remove_schedule(&f.registry, &mut env, f.org_id, employee.clone(), stranger),
        Err(PayrollError::NotAuthorized)
    );
    assert_eq!(
        f.client.update_schedule(
            &f.registry,
            &mut env,
            f.org_id,
            employee.clone(),
            10,
            PayFrequency::Weekly,
            one_split(&employee),
            f.org_admin.clone(),
        ),
        Err(PayrollError::ScheduleNotFound)
    );
    assert_eq!(f.client.get_schedule(f.org_id, employee), Err(PayrollError::ScheduleNotFound));
    assert_eq!(f.client.get_batch(f.org_id, 1), Err(PayrollError::BatchNotFound));
}

#[test]
fn prepare_batch_collects_only_due_active_schedules() {
    let mut f = setup();
    let mut env = Env::new(100, f.contract_id.clone());
    assert_eq!(f.client.prepare_batch(&mut env, f.org_id), Err(PayrollError::NoEligiblePayments));
    let alice = addr("GALICE");
    let bob = addr("GBOB");
    let carol = addr("GCAROL");
    for (who, amount) in [(&alice, 100i128), (&bob, 200), (&carol, 400)] {
        f.client
            .add_schedule(
                &f.registry,
                &mut env,
                f.org_id,
                who.clone(),
                amount,
                PayFrequency::Weekly,
                one_split(who),
                f.org_admin.clone(),
            )
            .unwrap();
    }
    f.client
        .remove_schedule(&f.registry, &mut env, f.org_id, bob.clone(), f.org_admin.clone())
        .unwrap();
    let mut env = Env::new(100, f.contract_id.clone());
    let batch_id = f.client.prepare_batch(&mut env, f.org_id).unwrap();
    assert_eq!(batch_id, 1);
    assert_eq!(
        env.actions,
        vec![Action::Publish(Event::BatchPrepared {
            org_id: f.org_id,
            batch_id: 1,
            total_amount: 500,
            employee_count: 2,
        })]
    );
    let batch = f.client.get_batch(f.org_id, 1).unwrap();
    assert_eq!(batch.employees, vec![alice.clone(), carol.clone()]);
    assert_eq!(batch.total_amount, 500);
    assert!(!batch.executed);
    assert!(batch.approvals.is_empty());
}

#[test]
fn batches_execute_once() {
    let mut f = setup();
    let mut env = Env::new(0, f.contract_id.clone());
    f.client.fund_payroll(&mut env, f.org_id, addr("GFUNDER"), 10_000).unwrap();
    let alice = addr("GALICE");
    f.client
        .add_schedule(
            &f.registry,
            &mut env,
            f.org_id,
            alice.clone(),
            1_000,
            PayFrequency::Biweekly,
            one_split(&alice),
            f.org_admin.clone(),
        )
        .unwrap();
    let batch_id = f.client.prepare_batch(&mut env, f.org_id).unwrap();
    f.client.execute_payroll(&mut env, f.org_id, batch_id).unwrap();
    assert_eq!(
        f.client.execute_payroll(&mut env, f.org_id, batch_id),
        Err(PayrollError::AlreadyExecuted)
    );
    assert_eq!(f.client.execute_payroll(&mut env, f.org_id, 9), Err(PayrollError::BatchNotFound));
    // Paid: next payment one period later, so nothing is due now.
    let schedule = f.client.get_schedule(f.org_id, alice).unwrap();
    assert_eq!(schedule.next_payment_at, 1_209_600);
    assert_eq!(f.client.prepare_batch(&mut env, f.org_id), Err(PayrollError::NoEligiblePayments));
    assert_eq!(f.client.get_org_balance(f.org_id), Ok(9_000));
}

#[test]
fn multisig_approval_executes_at_threshold() {
    let mut f = setup();
    let registry_env_id = addr("CORGREGISTRY");
    let bob = addr("GBOB");
    let mut renv = Env::new(0, registry_env_id);
    f.registry.add_signer(&mut renv, f.org_id, bob.clone()).unwrap();

    let mut env = Env::new(0, f.contract_id.clone());
    f.client
        .set_approval_threshold(&f.registry, &mut env, f.org_id, 2, f.org_admin.clone())
        .unwrap();
    f.client.fund_payroll(&mut env, f.org_id, addr("GFUNDER"), 5_000).unwrap();
    let alice = addr("GALICE");
    f.client
        .add_schedule(
            &f.registry,
            &mut env,
            f.org_id,
            alice.clone(),
            1_500,
            PayFrequency::Monthly,
            one_split(&alice),
            f.org_admin.clone(),
        )
        .unwrap();
    let batch_id = f.client.prepare_batch(&mut env, f.org_id).unwrap();
    assert_eq!(
        f.client.execute_payroll(&mut env, f.org_id, batch_id),
        Err(PayrollError::InsufficientApprovals)
    );
    assert_eq!(
        f.client.approve_batch(&f.registry, &mut env, f.org_id, batch_id, addr("GSTRANGER")),
        Err(PayrollError::NotAuthorized)
    );

    let mut env = Env::new(0, f.contract_id.clone());
    f.client.approve_batch(&f.registry, &mut env, f.org_id, batch_id, bob.clone()).unwrap();
    assert_eq!(
        env.actions,
        vec![
            Action::RequireAuth(bob.clone()),
            Action::Publish(Event::BatchApproved {
                org_id: f.org_id,
                batch_id,
                signer: bob.clone(),
                approvals_so_far: 1,
                threshold: 2,
            }),
        ]
    );
    // Approving twice counts once.
    f.client.approve_batch(&f.registry, &mut env, f.org_id, batch_id, bob.clone()).unwrap();
    assert_eq!(f.client.get_batch(f.org_id, batch_id).unwrap().approvals, vec![bob.clone()]);
    assert!(!f.client.get_batch(f.org_id, batch_id).unwrap().executed);

    let mut env = Env::new(0, f.contract_id.clone());
    f.client
        .approve_batch(&f.registry, &mut env, f.org_id, batch_id, f.org_admin.clone())
        .unwrap();
    let batch = f.client.get_batch(f.org_id, batch_id).unwrap();
    assert!(batch.executed);
    assert_eq!(batch.approvals, vec![bob, f.org_admin.clone()]);
    assert_eq!(f.client.get_org_balance(f.org_id), Ok(3_500));
    assert_last_event(
        &env,
        Event::PayrollExecuted {
            org_id: f.org_id,
            batch_id,
            total_disbursed: 1_500,
            employee_count: 1,
        },
    );
    assert_eq!(
        f.client.approve_batch(&f.registry, &mut env, f.org_id, batch_id, f.org_admin.clone()),
        Err(PayrollError::AlreadyExecuted)
    );
}

#[test]
fn approval_reaching_threshold_without_funds_is_refused_whole() {
    let mut f = setup();
    let mut env = Env::new(0, f.contract_id.clone());
    let alice = addr("GALICE");
    f.client
        .add_schedule(
            &f.registry,
            &mut env,
            f.org_id,
            alice.clone(),
            700,
            PayFrequency::Monthly,
            one_split(&alice),
            f.org_admin.clone(),
        )
        .unwrap();
    let batch_id = f.client.prepare_batch(&mut env, f.org_id).unwrap();
    assert_eq!(
        f.client.approve_batch(&f.registry, &mut env, f.org_id, batch_id, f.org_admin.clone()),
        Err(PayrollError::InsufficientBalance)
    );
    assert!(f.client.get_batch(f.org_id, batch_id).unwrap().approvals.is_empty());
}

#[test]
fn withdraw_keeps_next_cycle_covered() {
    let mut f = setup();
    let mut env = Env::new(0, f.contract_id.clone());
    f.client.fund_payroll(&mut env, f.org_id, addr("GFUNDER"), 3_000).unwrap();
    let alice = addr("GALICE");
    f.client
        .add_schedule(
            &f.registry,
            &mut env,
            f.org_id,
            alice.clone(),
            1_000,
            PayFrequency::Monthly,
            one_split(&alice),
            f.org_admin.clone(),
        )
        .unwrap();
    assert_eq!(
        f.client.withdraw_funds(&f.registry, &mut env, f.org_id, 2_001, f.org_admin.clone()),
        Err(PayrollError::InsufficientBalance)
    );
    let mut env = Env::new(0, f.contract_id.clone());
    f.client.withdraw_funds(&f.registry, &mut env, f.org_id, 2_000, f.org_admin.clone()).unwrap();
    assert_eq!(
        env.actions,
        vec![
            Action::RequireAuth(f.org_admin.clone()),
            Action::Transfer {
                token: f.token.clone(),
                from: f.contract_id.clone(),
                to: f.org_admin.clone(),
                amount: 2_000,
            },
            Action::Publish(Event::FundsWithdrawn {
                org_id: f.org_id,
                amount: 2_000,
                remaining_balance: 1_000,
            }),
        ]
    );
    assert_eq!(f.client.get_org_balance(f.org_id), Ok(1_000));
}

#[test]
fn employee_updates_own_splits_and_admin_updates_schedule() {
    let mut f = setup();
    let mut env = Env::new(0, f.contract_id.clone());
    let alice = addr("GALICE");
    f.client
        .add_schedule(
            &f.registry,
            &mut env,
            f.org_id,
            alice.clone(),
            1_000,
            PayFrequency::Monthly,
            one_split(&alice),
            f.org_admin.clone(),
        )
        .unwrap();
    let new_splits = vec![
        PaySplit { destination: addr("GMAIN"), percentage: 5_000 },
        PaySplit { destination: addr("GSAVE"), percentage: 5_000 },
    ];
    let mut env = Env::new(0, f.contract_id.clone());
    f.client.update_splits(&mut env, f.org_id, alice.clone(), new_splits.clone()).unwrap();
    assert_eq!(env.actions[0], Action::RequireAuth(alice.clone()));
    assert_last_event(
        &env,
        Event::SplitsUpdated { org_id: f.org_id, employee: alice.clone(), splits: new_splits.clone() },
    );
    assert_eq!(f.client.get_schedule(f.org_id, alice.clone()).unwrap().splits, new_splits);
    assert_eq!(
        f.client.update_splits(&mut env, f.org_id, addr("GNOBODY"), one_split(&alice)),
        Err(PayrollError::ScheduleNotFound)
    );

    f.client
        .update_schedule(
            &f.registry,
            &mut env,
            f.org_id,
            alice.clone(),
            1_200,
            PayFrequency::Weekly,
            one_split(&alice),
            f.org_admin.clone(),
        )
        .unwrap();
    let schedule = f.client.get_schedule(f.org_id, alice.clone()).unwrap();
    assert_eq!(schedule.amount, 1_200);
    assert_eq!(schedule.frequency, PayFrequency::Weekly);
    assert!(schedule.active);
}

#[test]
fn registry_cascade_removes_schedule_without_admin() {
    let mut f = setup();
    let mut env = Env::new(0, f.contract_id.clone());
    let alice = addr("GALICE");
    f.client
        .add_schedule(
            &f.registry,
            &mut env,
            f.org_id,
            alice.clone(),
            1_000,
            PayFrequency::Monthly,
            one_split(&alice),
            f.org_admin.clone(),
        )
        .unwrap();
    let registry_id = addr("CORGREGISTRY");
    let mut env = Env::new(0, f.contract_id.clone());
    f.client
        .remove_schedule(&f.registry, &mut env, f.org_id, alice.clone(), registry_id.clone())
        .unwrap();
    assert_eq!(
        env.actions,
        vec![
            Action::RequireAuth(registry_id),
            Action::Publish(Event::ScheduleRemoved { org_id: f.org_id, employee: alice.clone() }),
        ]
    );
    assert!(!f.client.get_schedule(f.org_id, alice).unwrap().active);
    assert_eq!(f.client.prepare_batch(&mut env, f.org_id), Err(PayrollError::NoEligiblePayments));
}

#[test]
fn threshold_zero_means_one() {
    let mut f = setup();
    let mut env = Env::new(0, f.contract_id.clone());
    f.client
        .set_approval_threshold(&f.registry, &mut env, f.org_id, 0, f.org_admin.clone())
        .unwrap();
    f.client.fund_payroll(&mut env, f.org_id, addr("GFUNDER"), 100).unwrap();
    let alice = addr("GALICE");
    f.client
        .add_schedule(
            &f.registry,
            &mut env,
            f.org_id,
            alice.clone(),
            100,
            PayFrequency::Monthly,
            one_split(&alice),
            f.org_admin.clone(),
        )
        .unwrap();
    let batch_id = f.client.prepare_batch(&mut env, f.org_id).unwrap();
    f.client
        .approve_batch(&f.registry, &mut env, f.org_id, batch_id, f.org_admin.clone())
        .unwrap();
    assert!(f.client.get_batch(f.org_id, batch_id).unwrap().executed);
}

#[test]
fn registry_answers_decide_authority() {
    let f = setup();
    let mut client = f.client;
    let employee = addr("GEMPLOYEE");
    let admin = RegistryAnswer { org_id: f.org_id, address: f.org_admin.clone(), admin: true, signer: true };
    let mut env = Env::new(0, f.contract_id.clone());
    assert_eq!(
        client.add_schedule(
            &admin,
            &mut env,
            f.org_id,
            employee.clone(),
            10,
            PayFrequency::Weekly,
            one_split(&employee),
            f.org_admin.clone(),
        ),
        Ok(())
    );
    let refused = RegistryAnswer { admin: false, ..admin };
    let mut env = Env::new(0, f.contract_id.clone());
    assert_eq!(
        client.set_approval_threshold(&refused, &mut env, f.org_id, 2, f.org_admin.clone()),
        Err(PayrollError::NotAuthorized)
    );
}

#[test]
fn removed_schedule_in_a_pending_batch_is_not_paid() {
    let mut f = setup();
    let alice = addr("GALICE");
    let bob = addr("GBOB");
    let mut env = Env::new(0, f.contract_id.clone());
    f.client.fund_payroll(&mut env, f.org_id, addr("GFUNDER"), 1_000).unwrap();
    for who in [&alice, &bob] {
        f.client
            .add_schedule(
                &f.registry,
                &mut env,
                f.org_id,
                who.clone(),
                100,
                PayFrequency::Weekly,
                one_split(who),
                f.org_admin.clone(),
            )
            .unwrap();
    }
    let batch_id = f.client.prepare_batch(&mut env, f.org_id).unwrap();
    f.client
        .remove_schedule(&f.registry, &mut env, f.org_id, bob.clone(), f.org_admin.clone())
        .unwrap();
    let mut env = Env::new(0, f.contract_id.clone());
    f.client.execute_payroll(&mut env, f.org_id, batch_id).unwrap();
    let paid_to: Vec<Address> = env
        .actions
        .iter()
        .filter_map(|a| match a {
            Action::Transfer { to, .. } => Some(to.clone()),
            _ => None,
        })
        .collect();
    assert_eq!(paid_to, vec![alice]);
    assert_eq!(f.client.get_schedule(f.org_id, bob).unwrap().total_paid, 0);
    assert_eq!(f.client.get_org_balance(f.org_id), Ok(900));
}
