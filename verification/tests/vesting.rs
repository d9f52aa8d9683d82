use disburse::host::{Action, Address, Env, Event, Symbol};
use disburse::org_registry::OrgRegistryContract;
use disburse::vesting::{vested_amount, vested_amount_checked, VestingContract, VestingError, VestingGrant};

fn addr(s: &str) -> Address {
    Address::from_strkey(s)
}

const MONTH: u64 = 30 * 86_400;

struct Fixture {
    contract_id: Address,
    registry: OrgRegistryContract,
    client: VestingContract,
    org_id: u64,
    admin: Address,
    employee: Address,
    token: Address,
}

fn setup() -> Fixture {
    let registry_id = addr("CORGREGISTRY");
    let mut registry = OrgRegistryContract::new(addr("GSUPERADMIN"));
    let admin = addr("GADMIN");
    let mut env = Env::new(0, registry_id.clone());
    let org_id = registry.create_org(&mut env, Symbol::new("acme"), admin.clone()).unwrap();
    Fixture {
        contract_id: addr("CVESTING"),
        registry,
        client: VestingContract::new(registry_id),
        org_id,
        admin,
        employee: addr("GEMPLOYEE"),
        token: addr("CUSDC"),
    }
}

fn grant(total: i128, start: u64, cliff: u64, vesting: u64) -> VestingGrant {
    VestingGrant {
        grant_id: 1,
        org_id: 1,
        employee: addr("GEMPLOYEE"),
        token: addr("CUSDC"),
        total_amount: total,
        claimed_amount: 0,
        start_at: start,
        cliff_seconds: cliff,
        vesting_seconds: vesting,
        revoked: false,
        revoked_at: 0,
    }
}

#[test]
fn vesting_contract_registers() {
    let org_registry = addr("CORGREGISTRY");
    let vesting = VestingContract::new(org_registry.clone());
    assert_eq!(vesting.org_registry(), &org_registry);
    assert_eq!(vesting.grant_count(), 0);
}

#[test]
fn cliff_and_linear_schedule_from_the_architecture_example() {
    // 10,000 over 24 months with a 6-month cliff.
    let g = grant(10_000, 0, 6 * MONTH, 24 * MONTH);
    assert_eq!(vested_amount(&g, 0), 0);
    assert_eq!(vested_amount(&g, 5 * MONTH), 0);
    assert_eq!(vested_amount(&g, 6 * MONTH - 1), 0);
    assert_eq!(vested_amount(&g, 6 * MONTH), 2_500);
    assert_eq!(vested_amount(&g, 7 * MONTH), 2_916);
    assert_eq!(vested_amount(&g, 12 * MONTH), 5_000);
    assert_eq!(vested_amount(&g, 24 * MONTH), 10_000);
    assert_eq!(vested_amount(&g, 30 * MONTH), 10_000);
}

#[test]
fn vested_amount_rounds_toward_zero_for_negative_totals() {
    let g = grant(-10, 0, 0, 3);
    assert_eq!(vested_amount(&g, 1), -3);
}

#[test]
fn revoked_grant_stops_vesting() {
    let mut g = grant(1_200, 100, 0, 1_200);
    g.revoked = true;
    g.revoked_at = 400;
    assert_eq!(vested_amount(&g, 400), 300);
    assert_eq!(vested_amount(&g, 1_000_000), 300);
}

#[test]
fn checked_vesting_reports_overflow() {
    let g = grant(1_000, u64::MAX, 1, 10);
    assert_eq!(vested_amount_checked(&g, 5), None);
    let huge = grant(i128::MAX, 0, 0, u64::MAX);
    assert_eq!(vested_amount_checked(&huge, 1_000), None);
    let fine = grant(10_000, 0, 6 * MONTH, 24 * MONTH);
    assert_eq!(vested_amount_checked(&fine, 12 * MONTH), Some(5_000));
}

#[test]
fn create_grant_needs_an_admin_and_locks_the_tokens() {
    let mut f = setup();
    let mut env = Env::new(50, f.contract_id.clone());
    assert_eq!(
        f.client.create_grant(
            &f.registry,
            &mut env,
            f.org_id,
            f.employee.clone(),
            f.token.clone(),
            1_000,
            10,
            100,
            f.employee.clone(),
        ),
        Err(VestingError::NotAuthorized)
    );
    assert_eq!(env.actions, vec![Action::RequireAuth(f.employee.clone())]);

    let mut env = Env::new(50, f.contract_id.clone());
    let id = f
        .client
        .create_grant(
            &f.registry,
            &mut env,
            f.org_id,
            f.employee.clone(),
            f.token.clone(),
            1_000,
            10,
            100,
            f.admin.clone(),
        )
        .unwrap();
    assert_eq!(id, 1);
    assert_eq!(
        env.actions,
        vec![
            Action::RequireAuth(f.admin.clone()),
            Action::Transfer {
                token: f.token.clone(),
                from: f.admin.clone(),
                to: f.contract_id.clone(),
                amount: 1_000,
            },
            Action::Publish(Event::GrantCreated {
                grant_id: 1,
                org_id: f.org_id,
                employee: f.employee.clone(),
                token: f.token.clone(),
                amount: 1_000,
                cliff_seconds: 10,
                vesting_seconds: 100,
            }),
        ]
    );
    let g = f.client.get_grant(1).unwrap();
    assert_eq!(g.start_at, 50);
    assert_eq!(g.claimed_amount, 0);
    assert!(!g.revoked);
    assert_eq!(f.client.get_grant(2), Err(VestingError::GrantNotFound));
}

#[test]
fn claims_pay_what_vested_and_nothing_twice() {
    let mut f = setup();
    let mut env = Env::new(0, f.contract_id.clone());
    let id = f
        .client
        .create_grant(
            &f.registry,
            &mut env,
            f.org_id,
            f.employee.clone(),
            f.token.clone(),
            1_000,
            100,
            1_000,
            f.admin.clone(),
        )
        .unwrap();

    let mut env = Env::new(50, f.contract_id.clone());
    assert_eq!(f.client.claim(&mut env, id, f.employee.clone()), Err(VestingError::NothingClaimable));
    assert_eq!(
        f.client.claim(&mut env, id, f.admin.clone()),
        Err(VestingError::NotAuthorized)
    );
    assert_eq!(f.client.claim(&mut env, 9, f.employee.clone()), Err(VestingError::GrantNotFound));

    let mut env = Env::new(250, f.contract_id.clone());
    assert_eq!(f.client.get_claimable(&env, id), Ok(250));
    assert_eq!(f.client.claim(&mut env, id, f.employee.clone()), Ok(250));
    assert_eq!(
        env.actions,
        vec![
            Action::RequireAuth(f.employee.clone()),
            Action::Transfer {
                token: f.token.clone(),
                from: f.contract_id.clone(),
                to: f.employee.clone(),
                amount: 250,
            },
            Action::Publish(Event::TokensClaimed {
                grant_id: id,
                employee: f.employee.clone(),
                amount_claimed: 250,
                total_claimed: 250,
                remaining: 750,
            }),
        ]
    );
    assert_eq!(f.client.claim(&mut env, id, f.employee.clone()), Err(VestingError::NothingClaimable));
    assert_eq!(f.client.get_claimable(&env, id), Ok(0));

    let mut env = Env::new(5_000, f.contract_id.clone());
    assert_eq!(f.client.claim(&mut env, id, f.employee.clone()), Ok(750));
    assert_eq!(f.client.get_grant(id).unwrap().claimed_amount, 1_000);
}

#[test]
fn revocation_returns_the_unvested_rest() {
    let mut f = setup();
    let mut env = Env::new(0, f.contract_id.clone());
    let id = f
        .client
        .create_grant(
            &f.registry,
            &mut env,
            f.org_id,
            f.employee.clone(),
            f.token.clone(),
            1_000,
            0,
            1_000,
            f.admin.clone(),
        )
        .unwrap();

    let mut env = Env::new(400, f.contract_id.clone());
    assert_eq!(
        f.client.revoke_grant(&f.registry, &mut env, id, f.employee.clone()),
        Err(VestingError::NotAuthorized)
    );
    let mut env = Env::new(400, f.contract_id.clone());
    f.client.revoke_grant(&f.registry, &mut env, id, f.admin.clone()).unwrap();
    assert_eq!(
        env.actions,
        vec![
            Action::RequireAuth(f.admin.clone()),
            Action::Transfer {
                token: f.token.clone(),
                from: f.contract_id.clone(),
                to: f.admin.clone(),
                amount: 600,
            },
            Action::Publish(Event::GrantRevoked {
                grant_id: id,
                employee: f.employee.clone(),
                vested_amount: 400,
                returned_amount: 600,
            }),
        ]
    );
    assert_eq!(
        f.client.revoke_grant(&f.registry, &mut env, id, f.admin.clone()),
        Err(VestingError::GrantRevoked)
    );
    assert_eq!(
        f.client.revoke_grant(&f.registry, &mut env, 7, f.admin.clone()),
        Err(VestingError::GrantNotFound)
    );

    // The employee keeps exactly what had vested at revocation.
    let mut env = Env::new(900, f.contract_id.clone());
    assert_eq!(f.client.claim(&mut env, id, f.employee.clone()), Ok(400));
    let mut env = Env::new(100_000, f.contract_id.clone());
    assert_eq!(f.client.get_claimable(&env, id), Ok(0));
    assert_eq!(f.client.claim(&mut env, id, f.employee.clone()), Err(VestingError::NothingClaimable));
}

#[test]
fn fully_vested_revocation_returns_nothing() {
    let mut f = setup();
    let mut env = Env::new(0, f.contract_id.clone());
    let id = f
        .client
        .create_grant(
            &f.registry,
            &mut env,
            f.org_id,
            f.employee.clone(),
            f.token.clone(),
            500,
            0,
            10,
            f.admin.clone(),
        )
        .unwrap();
    let mut env = Env::new(20, f.contract_id.clone());
    f.client.revoke_grant(&f.registry, &mut env, id, f.admin.clone()).unwrap();
    assert_eq!(env.actions.len(), 2);
    assert_eq!(
        env.actions[1],
        Action::Publish(Event::GrantRevoked {
            grant_id: id,
            employee: f.employee.clone(),
            vested_amount: 500,
            returned_amount: 0,
        })
    );
}

#[test]
fn grants_are_listed_per_employee_and_org() {
    let mut f = setup();
    let other = addr("GOTHER");
    let mut env = Env::new(0, f.contract_id.clone());
    for who in [&f.employee, &other, &f.employee] {
        f.client
            .create_grant(
                &f.registry,
                &mut env,
                f.org_id,
                who.clone(),
                f.token.clone(),
                100,
                0,
                10,
                f.admin.clone(),
            )
            .unwrap();
    }
    let mine = f.client.get_grants_by_employee(f.org_id, f.employee.clone()).unwrap();
    assert_eq!(mine.iter().map(|g| g.grant_id).collect::<Vec<_>>(), vec![1, 3]);
    let theirs = f.client.get_grants_by_employee(f.org_id, other).unwrap();
    assert_eq!(theirs.len(), 1);
    assert_eq!(theirs[0].grant_id, 2);
    assert!(f.client.get_grants_by_employee(99, f.employee.clone()).unwrap().is_empty());
}

#[test]
fn claims_after_revocation_total_what_had_vested() {
    let mut f = setup();
    let mut env = Env::new(0, f.contract_id.clone());
    let id = f
        .client
        .create_grant(
            &f.registry,
            &mut env,
            f.org_id,
            f.employee.clone(),
            f.token.clone(),
            1_000,
            0,
            100,
            f.admin.clone(),
        )
        .unwrap();
    let mut env = Env::new(30, f.contract_id.clone());
    assert_eq!(f.client.claim(&mut env, id, f.employee.clone()), Ok(300));
    let mut env = Env::new(50, f.contract_id.clone());
    f.client.revoke_grant(&f.registry, &mut env, id, f.admin.clone()).unwrap();
    let returned: i128 = env
        .actions
        .iter()
        .map(|a| match a {
            Action::Transfer { amount, .. } => *amount,
            _ => 0,
        })
        .sum();
    assert_eq!(returned, 500);
    let env = Env::new(90, f.contract_id.clone());
    assert_eq!(f.client.get_claimable(&env, id), Ok(200));
    let mut env = Env::new(90, f.contract_id.clone());
    assert_eq!(f.client.claim(&mut env, id, f.employee.clone()), Ok(200));
    assert_eq!(f.client.get_grant(id).unwrap().claimed_amount, 500);
    let env = Env::new(1_000, f.contract_id.clone());
    assert_eq!(f.client.get_claimable(&env, id), Ok(0));
}
