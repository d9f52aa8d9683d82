use disburse::host::{Action, Address, Env, Event, Symbol};
use disburse::org_registry::{
    OrgRegistryContract, OrgRegistryError, OrgRegistryInterface, RegistryAnswer,
};

fn addr(s: &str) -> Address {
    Address::from_strkey(s)
}

fn setup() -> (Address, OrgRegistryContract) {
    let super_admin = addr("GSUPERADMIN");
    let contract_id = addr("CORGREGISTRY");
    (contract_id, OrgRegistryContract::new(super_admin))
}

fn events(env: &Env) -> Vec<&Event> {
    env.actions
        .iter()
        .filter_map(|a| match a {
            Action::Publish(e) => Some(e),
            _ => None,
        })
        .collect()
}

/// The invocation published exactly one event, `expected`.
fn assert_last_event(env: &Env, expected: Event) {
    let all = events(env);
    assert_eq!(all.len(), 1);
    assert_eq!(all[0], &expected);
}

#[test]
fn test_contract_registers() {
    let super_admin = addr("GSUPERADMIN");
    let registry = OrgRegistryContract::new(super_admin);
    assert_eq!(registry.org_count(), 0);
}

#[test]
fn create_org_stores_org_and_emits_event() {
    let (contract_id, mut client) = setup();

    let admin = addr("GADMIN");
    let name = Symbol::new("acme");
    let mut env = Env::new(0, contract_id.clone());
    let org_id = client.create_org(&mut env, name.clone(), admin.clone()).unwrap();
    assert_eq!(org_id, 1);

    assert_last_event(&env, Event::OrgCreated { org_id, name: name.clone(), admin: admin.clone() });

    let org = client.get_org(org_id).unwrap();
    assert_eq!(org.org_id, 1);
    assert_eq!(org.name, name);
    assert_eq!(org.admin, admin);
    assert_eq!(org.signers, vec![admin]);
    assert_eq!(org.employee_count, 0);
}

#[test]
fn add_employee_increments_count_once_and_emits_event() {
    let (contract_id, mut client) = setup();

    let admin = addr("GADMIN");
    let mut env = Env::new(0, contract_id.clone());
    let org_id = client.create_org(&mut env, Symbol::new("acme"), admin.clone()).unwrap();

    let employee = addr("GALICE");
    let display_name = Symbol::new("alice");
    let role = Symbol::new("engineer");
    let mut env = Env::new(0, contract_id.clone());
    client
        .add_employee(&mut env, org_id, employee.clone(), display_name.clone(), role.clone())
        .unwrap();

    assert_last_event(
        &env,
        Event::EmployeeAdded {
            org_id,
            employee: employee.clone(),
            display_name: display_name.clone(),
            role: role.clone(),
        },
    );

    assert_eq!(client.get_org(org_id).unwrap().employee_count, 1);

    // Re-adding the same employee updates their record but does not
    // double-count or re-emit EmployeeAdded.
    let mut env = Env::new(0, contract_id.clone());
    client.add_employee(&mut env, org_id, employee.clone(), display_name, role).unwrap();
    assert_eq!(events(&env).len(), 0);
    assert_eq!(client.get_org(org_id).unwrap().employee_count, 1);
}

#[test]
fn remove_employee_deactivates_and_emits_event() {
    let (contract_id, mut client) = setup();

    let admin = addr("GADMIN");
    let mut env = Env::new(0, contract_id.clone());
    let org_id = client.create_org(&mut env, Symbol::new("acme"), admin.clone()).unwrap();
    let employee = addr("GALICE");
    client
        .add_employee(
            &mut env,
            org_id,
            employee.clone(),
            Symbol::new("alice"),
            Symbol::new("engineer"),
        )
        .unwrap();

    let mut env = Env::new(0, contract_id.clone());
    client.remove_employee(&mut env, org_id, employee.clone()).unwrap();

    assert_last_event(&env, Event::EmployeeRemoved { org_id, employee: employee.clone() });

    assert_eq!(client.get_org(org_id).unwrap().employee_count, 0);
    assert!(!client.get_employee(org_id, employee).unwrap().active);
}

#[test]
fn add_employee_rejects_non_admin_caller() {
    let (contract_id, mut client) = setup();

    let admin = addr("GADMIN");
    let mut env = Env::new(0, contract_id.clone());
    let org_id = client.create_org(&mut env, Symbol::new("acme"), admin.clone()).unwrap();

    // With no signatures at all, the admin's authorization is missing and
    // the invocation must fail.
    let employee = addr("GALICE");
    let mut env = Env::new(0, contract_id.clone());
    let result = client.add_employee(
        &mut env,
        org_id,
        employee,
        Symbol::new("alice"),
        Symbol::new("engineer"),
    );
    let _ = result;
    assert!(!env.authorized_by(&Vec::new()));
    assert!(env.authorized_by(&vec![admin]));
}

#[test]
fn get_org_not_found_errors() {
    let (_, client) = setup();
    let result = client.get_org(999);
    assert_eq!(result, Err(OrgRegistryError::OrgNotFound));
}

#[test]
fn unknown_org_is_rejected_everywhere() {
    let (contract_id, mut client) = setup();
    let someone = addr("GSOMEONE");
    let mut env = Env::new(0, contract_id.clone());
    assert_eq!(
        client.add_signer(&mut env, 7, someone.clone()),
        Err(OrgRegistryError::OrgNotFound)
    );
    assert_eq!(
        client.remove_employee(&mut env, 7, someone.clone()),
        Err(OrgRegistryError::OrgNotFound)
    );
    assert_eq!(
        client.get_employee(7, someone.clone()),
        Err(OrgRegistryError::EmployeeNotFound)
    );
    assert_eq!(client.get_employees(7), Ok(Vec::new()));
    assert!(!client.is_admin(7, someone.clone()));
    assert!(!client.is_signer(7, someone));
    assert!(env.actions.is_empty());
}

#[test]
fn org_ids_count_up_from_one() {
    let (contract_id, mut client) = setup();
    let mut env = Env::new(5, contract_id.clone());
    let first = client.create_org(&mut env, Symbol::new("acme"), addr("GA")).unwrap();
    let second = client.create_org(&mut env, Symbol::new("initech"), addr("GB")).unwrap();
    assert_eq!((first, second), (1, 2));
    assert_eq!(client.get_org(2).unwrap().created_at, 5);
    assert!(client.is_admin(1, addr("GA")));
    assert!(!client.is_admin(1, addr("GB")));
}

#[test]
fn signers_are_added_once_and_the_last_one_stays() {
    let (contract_id, mut client) = setup();
    let admin = addr("GADMIN");
    let mut env = Env::new(0, contract_id.clone());
    let org_id = client.create_org(&mut env, Symbol::new("acme"), admin.clone()).unwrap();

    let mut env = Env::new(0, contract_id.clone());
    assert_eq!(
        client.remove_signer(&mut env, org_id, admin.clone()),
        Err(OrgRegistryError::CannotRemoveLastSigner)
    );
    assert_eq!(env.actions, vec![Action::RequireAuth(admin.clone())]);

    let bob = addr("GBOB");
    client.add_signer(&mut env, org_id, bob.clone()).unwrap();
    client.add_signer(&mut env, org_id, bob.clone()).unwrap();
    assert_eq!(client.get_org(org_id).unwrap().signers, vec![admin.clone(), bob.clone()]);
    assert!(client.is_signer(org_id, bob.clone()));
    assert!(OrgRegistryInterface::is_signer(&client, org_id, &bob));

    client.remove_signer(&mut env, org_id, admin.clone()).unwrap();
    assert_eq!(client.get_org(org_id).unwrap().signers, vec![bob.clone()]);
    assert!(!client.is_signer(org_id, admin.clone()));
    // The admin stays admin even when no longer a signer.
    assert!(client.is_admin(org_id, admin.clone()));

    // Removing an address that is not a signer changes nothing.
    client.add_signer(&mut env, org_id, admin.clone()).unwrap();
    client.remove_signer(&mut env, org_id, addr("GNOBODY")).unwrap();
    assert_eq!(client.get_org(org_id).unwrap().signers, vec![bob, admin]);
}

#[test]
fn transfer_admin_makes_new_admin_a_signer() {
    let (contract_id, mut client) = setup();
    let admin = addr("GADMIN");
    let mut env = Env::new(0, contract_id.clone());
    let org_id = client.create_org(&mut env, Symbol::new("acme"), admin.clone()).unwrap();

    let carol = addr("GCAROL");
    let mut env = Env::new(0, contract_id.clone());
    client.transfer_admin(&mut env, org_id, carol.clone()).unwrap();
    assert_eq!(env.actions, vec![Action::RequireAuth(admin.clone())]);
    let org = client.get_org(org_id).unwrap();
    assert_eq!(org.admin, carol);
    assert_eq!(org.signers, vec![admin.clone(), carol.clone()]);
    assert!(OrgRegistryInterface::is_admin(&client, org_id, &carol));
    assert!(!OrgRegistryInterface::is_admin(&client, org_id, &admin));

    // Further changes need the new admin.
    let mut env = Env::new(0, contract_id.clone());
    client.add_signer(&mut env, org_id, addr("GDAVE")).unwrap();
    assert_eq!(env.actions, vec![Action::RequireAuth(carol)]);
}

#[test]
fn employees_are_listed_in_order_with_updates() {
    let (contract_id, mut client) = setup();
    let admin = addr("GADMIN");
    let mut env = Env::new(10, contract_id.clone());
    let org_id = client.create_org(&mut env, Symbol::new("acme"), admin.clone()).unwrap();
    let alice = addr("GALICE");
    let bob = addr("GBOB");
    client
        .add_employee(&mut env, org_id, alice.clone(), Symbol::new("alice"), Symbol::new("dev"))
        .unwrap();
    client
        .add_employee(&mut env, org_id, bob.clone(), Symbol::new("bob"), Symbol::new("ops"))
        .unwrap();
    assert_eq!(
        client.update_employee(&mut env, org_id, addr("GNOBODY"), Symbol::new("x"), Symbol::new("y")),
        Err(OrgRegistryError::EmployeeNotFound)
    );
    client
        .update_employee(&mut env, org_id, alice.clone(), Symbol::new("ally"), Symbol::new("lead"))
        .unwrap();
    client.remove_employee(&mut env, org_id, bob.clone()).unwrap();

    let all = client.get_employees(org_id).unwrap();
    assert_eq!(all.len(), 2);
    assert_eq!(all[0].address, alice);
    assert_eq!(all[0].display_name, Symbol::new("ally"));
    assert_eq!(all[0].role, Symbol::new("lead"));
    assert_eq!(all[0].added_at, 10);
    assert!(all[0].active);
    assert_eq!(all[1].address, bob);
    assert!(!all[1].active);
    assert_eq!(client.get_org(org_id).unwrap().employee_count, 1);

    // Removing an inactive employee again changes nothing and announces nothing.
    let mut env = Env::new(10, contract_id.clone());
    client.remove_employee(&mut env, org_id, bob.clone()).unwrap();
    assert_eq!(events(&env).len(), 0);
    assert_eq!(client.get_org(org_id).unwrap().employee_count, 1);
    assert_eq!(
        client.remove_employee(&mut env, org_id, addr("GNOBODY")),
        Err(OrgRegistryError::EmployeeNotFound)
    );
}

#[test]
fn readding_a_removed_employee_reactivates_without_counting() {
    let (contract_id, mut client) = setup();
    let admin = addr("GADMIN");
    let mut env = Env::new(0, contract_id.clone());
    let org_id = client.create_org(&mut env, Symbol::new("acme"), admin).unwrap();
    let alice = addr("GALICE");
    client
        .add_employee(&mut env, org_id, alice.clone(), Symbol::new("alice"), Symbol::new("dev"))
        .unwrap();
    client.remove_employee(&mut env, org_id, alice.clone()).unwrap();
    assert_eq!(client.get_org(org_id).unwrap().employee_count, 0);
    let mut env = Env::new(5, contract_id.clone());
    client
        .add_employee(&mut env, org_id, alice.clone(), Symbol::new("alice"), Symbol::new("dev"))
        .unwrap();
    assert!(client.get_employee(org_id, alice.clone()).unwrap().active);
    assert_eq!(client.get_org(org_id).unwrap().employee_count, 0);
    assert_eq!(client.get_employees(org_id).unwrap().len(), 1);
    assert!(events(&env).is_empty());
}

#[test]
fn unknown_org_has_no_employees() {
    let (_, client) = setup();
    assert_eq!(client.get_employees(999), Ok(vec![]));
}

#[test]
fn payroll_wiring_is_set_once_and_cascades_removals() {
    let (contract_id, mut client) = setup();
    let payroll = addr("CPAYROLL");
    let mut env = Env::new(0, contract_id.clone());
    client.set_payroll_contract(&mut env, payroll.clone()).unwrap();
    assert_eq!(env.actions, vec![Action::RequireAuth(addr("GSUPERADMIN"))]);
    assert_eq!(
        client.set_payroll_contract(&mut env, addr("COTHER")),
        Err(OrgRegistryError::AlreadySet)
    );
    assert_eq!(client.payroll_contract(), &Some(payroll.clone()));

    let admin = addr("GADMIN");
    let org_id = client.create_org(&mut env, Symbol::new("acme"), admin.clone()).unwrap();
    let alice = addr("GALICE");
    client
        .add_employee(&mut env, org_id, alice.clone(), Symbol::new("alice"), Symbol::new("dev"))
        .unwrap();

    let mut env = Env::new(0, contract_id.clone());
    client.remove_employee(&mut env, org_id, alice.clone()).unwrap();
    assert_eq!(
        env.actions,
        vec![
            Action::RequireAuth(admin),
            Action::Publish(Event::EmployeeRemoved { org_id, employee: alice.clone() }),
            Action::RemoveSchedule {
                contract: payroll,
                org_id,
                employee: alice,
                caller: contract_id,
            },
        ]
    );
}

#[test]
fn registry_answer_speaks_only_of_its_address_and_org() {
    let who = addr("GADMIN");
    let answer = RegistryAnswer { org_id: 7, address: who.clone(), admin: true, signer: false };
    assert!(answer.is_admin(7, &who));
    assert!(!answer.is_signer(7, &who));
    assert!(!answer.is_admin(8, &who));
    assert!(!answer.is_admin(7, &addr("GOTHER")));

    let signer = RegistryAnswer { org_id: 7, address: who.clone(), admin: false, signer: true };
    assert!(signer.is_signer(7, &who));
    assert!(!signer.is_admin(7, &who));
}
