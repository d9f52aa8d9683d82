//! Organizations, their employee rosters and their signer roles.
use vstd::prelude::*;

use crate::host::{
    address_in, addresses_distinct, distinct_addresses, find_address, Action, Address, Env, Event,
    Symbol,
};
use crate::keyed::{
    has_key, key_index, lemma_key_index, lemma_lookup_push, lemma_lookup_update, lookup,
    unique_keys, Keyed,
};

verus! {

/// What the payroll and vesting contracts ask of the organization registry.
pub trait OrgRegistryInterface {
    /// Whether `address` administers organization `org_id`.
    spec fn spec_is_admin(&self, org_id: u64, address: Seq<char>) -> bool;

    /// Whether `address` may approve payroll batches of organization `org_id`.
    spec fn spec_is_signer(&self, org_id: u64, address: Seq<char>) -> bool;

    fn is_admin(&self, org_id: u64, address: &Address) -> (r: bool)
        ensures
            r == self.spec_is_admin(org_id, address@),
    ;

    fn is_signer(&self, org_id: u64, address: &Address) -> (r: bool)
        ensures
            r == self.spec_is_signer(org_id, address@),
    ;
}

/// An organization: its admin and the signers who approve its payroll.
#[derive(Debug, PartialEq, Eq)]
pub struct Organization {
    pub org_id: u64,
    pub name: Symbol,
    pub admin: Address,
    pub signers: Vec<Address>,
    pub employee_count: u32,
    pub created_at: u64,
}

/// An employee's record in an organization's roster.
#[derive(Debug, PartialEq, Eq)]
pub struct Employee {
    pub address: Address,
    pub display_name: Symbol,
    pub role: Symbol,
    pub added_at: u64,
    pub active: bool,
}

impl Clone for Employee {
    fn clone(&self) -> (r: Self)
        ensures
            r == *self,
    {
        Employee {
            address: self.address.clone(),
            display_name: self.display_name.clone(),
            role: self.role.clone(),
            added_at: self.added_at,
            active: self.active,
        }
    }
}

impl Keyed for Employee {
    type Key = Seq<char>;

    open spec fn key(&self) -> Seq<char> {
        self.address@
    }
}

#[derive(Clone, Copy, Debug, PartialEq, Eq, PartialOrd, Ord, Structural)]
pub enum OrgRegistryError {
    OrgNotFound,
    EmployeeNotFound,
    NotAuthorized,
    CannotRemoveLastSigner,
    AlreadySet,
}

/// `o` is `prev` with admin `admin`, signers `signers` and employee count
/// `employee_count`, and otherwise unchanged.
pub open spec fn org_with(
    o: Organization,
    prev: Organization,
    admin: Address,
    signers: Seq<Address>,
    employee_count: u32,
) -> bool {
    &&& o.org_id == prev.org_id
    &&& o.name == prev.name
    &&& o.admin == admin
    &&& o.signers@ == signers
    &&& o.employee_count == employee_count
    &&& o.created_at == prev.created_at
}

/// `signers` without `a`, where it occurs.
pub open spec fn without_signer(signers: Seq<Address>, a: Seq<char>) -> Seq<Address> {
    if address_in(signers, a) {
        signers.remove(choose|i: int| 0 <= i < signers.len() && (#[trigger] signers[i])@ == a)
    } else {
        signers
    }
}

/// `signers` with `a` added at the end, unless it is already there.
pub open spec fn with_signer(signers: Seq<Address>, a: Address) -> Seq<Address> {
    if address_in(signers, a@) {
        signers
    } else {
        signers.push(a)
    }
}

/// The registry's state: the organizations, the one with id `k` at
/// position `k - 1`, and each one's roster of every employee ever added.
pub struct OrgRegistryContract {
    super_admin: Address,
    payroll_contract: Option<Address>,
    orgs: Vec<Organization>,
    rosters: Vec<Vec<Employee>>,
}

impl OrgRegistryContract {
    pub closed spec fn wf(self) -> bool {
        &&& self.orgs@.len() == self.rosters@.len()
        &&& forall|i: int|
            0 <= i < self.orgs@.len() ==> {
                let o = #[trigger] self.orgs@[i];
                &&& o.org_id == i + 1
                &&& o.signers@.len() >= 1
                &&& distinct_addresses(o.signers@)
                &&& o.employee_count <= active_employees(self.rosters@[i]@)
            }
        &&& forall|i: int| 0 <= i < self.rosters@.len() ==> unique_keys((#[trigger] self.rosters@[i])@)
    }

    /// The address that may wire in the payroll contract.
    pub closed spec fn super_admin_address(self) -> Address {
        self.super_admin
    }

    /// The payroll contract that employee removals cascade to, once set.
    pub closed spec fn payroll_address(self) -> Option<Address> {
        self.payroll_contract
    }

    /// All organizations, in the order of their ids.
    pub closed spec fn orgs(self) -> Seq<Organization> {
        self.orgs@
    }

    /// The roster of organization `org_id`, in the order employees were
    /// first added.
    pub closed spec fn roster(self, org_id: u64) -> Seq<Employee> {
        if 1 <= org_id <= self.orgs@.len() {
            self.rosters@[org_id - 1]@
        } else {
            Seq::empty()
        }
    }

    /// Organization `org_id`, if it exists.
    pub open spec fn org(self, org_id: u64) -> Option<Organization> {
        if 1 <= org_id <= self.orgs().len() {
            Some(self.orgs()[org_id - 1])
        } else {
            None
        }
    }

    /// The record of `employee` in organization `org_id`, if any.
    pub open spec fn employee(self, org_id: u64, employee: Seq<char>) -> Option<Employee> {
        lookup(self.roster(org_id), employee)
    }

    /// `self` differs from `other` at most in organization `org_id`.
    pub open spec fn only_org(self, other: Self, org_id: u64) -> bool {
        &&& self.wf()
        &&& self.super_admin_address() == other.super_admin_address()
        &&& self.payroll_address() == other.payroll_address()
        &&& self.orgs().len() == other.orgs().len()
        &&& forall|o: u64|
            o != org_id ==> #[trigger] self.org(o) == other.org(o) && self.roster(o) == other.roster(
                o,
            )
    }

    /// `self` holds what `other` holds.
    pub open spec fn same_state(self, other: Self) -> bool {
        &&& self.only_org(other, 0)
        &&& self.org(0) == other.org(0)
    }

    /// A registry with no organizations, whose payroll wiring `super_admin`
    /// authorizes.
    pub fn new(super_admin: Address) -> (c: Self)
        ensures
            c.wf(),
            c.super_admin_address() == super_admin,
            c.payroll_address() == None::<Address>,
            c.orgs() == Seq::<Organization>::empty(),
    {
        OrgRegistryContract {
            super_admin,
            payroll_contract: None,
            orgs: Vec::new(),
            rosters: Vec::new(),
        }
    }

    /// The super admin, the payroll wiring, the organizations in the order
    /// of their ids, and their rosters in the same order.
    pub fn into_parts(self) -> (r: (Address, Option<Address>, Vec<Organization>, Vec<Vec<Employee>>))
        requires
            self.wf(),
        ensures
            r.0 == self.super_admin_address(),
            r.1 == self.payroll_address(),
            r.2@ == self.orgs(),
            r.3@.len() == r.2@.len(),
            forall|i: int| 0 <= i < r.3@.len() ==> (#[trigger] r.3@[i])@ == self.roster((i + 1) as u64),
    {
        let count = self.rosters.len();
        proof {
            assert(count == self.rosters@.len());
            assert forall|i: int| 0 <= i < self.rosters@.len() implies (
            #[trigger] self.rosters@[i])@ == self.roster((i + 1) as u64) by {
                assert((i + 1) as u64 == i + 1);
            }
        }
        (self.super_admin, self.payroll_contract, self.orgs, self.rosters)
    }

    /// The registry with these parts, if they are well-formed: one roster
    /// per organization, organizations carrying the ids 1, 2, ... in order,
    /// each with at least one signer and none twice and counting no more
    /// than the active employees of its roster, and no employee twice in a
    /// roster.
    pub fn from_parts(
        super_admin: Address,
        payroll_contract: Option<Address>,
        orgs: Vec<Organization>,
        rosters: Vec<Vec<Employee>>,
    ) -> (r: Option<Self>)
        ensures
            r is Some <==> ({
                &&& orgs@.len() == rosters@.len()
                &&& forall|i: int|
                    0 <= i < orgs@.len() ==> {
                        let o = #[trigger] orgs@[i];
                        &&& o.org_id == i + 1
                        &&& o.signers@.len() >= 1
                        &&& distinct_addresses(o.signers@)
                        &&& o.employee_count <= active_employees(rosters@[i]@)
                    }
                &&& forall|i: int| 0 <= i < rosters@.len() ==> unique_keys((#[trigger] rosters@[i])@)
            }),
            r matches Some(c) ==> {
                &&& c.wf()
                &&& c.super_admin_address() == super_admin
                &&& c.payroll_address() == payroll_contract
                &&& c.orgs() == orgs@
                &&& forall|i: int| 0 <= i < rosters@.len() ==> (#[trigger] rosters@[i])@ == c.roster((i + 1) as u64)
            },
    {
        if orgs.len() != rosters.len() {
            return None;
        }
        let mut i: usize = 0;
        while i < orgs.len()
            invariant
                i <= orgs@.len(),
                orgs@.len() == rosters@.len(),
                forall|k: int|
                    0 <= k < i ==> {
                        let o = #[trigger] orgs@[k];
                        &&& o.org_id == k + 1
                        &&& o.signers@.len() >= 1
                        &&& distinct_addresses(o.signers@)
                        &&& o.employee_count <= active_employees(rosters@[k]@)
                    },
                forall|k: int| 0 <= k < i ==> unique_keys((#[trigger] rosters@[k])@),
            decreases orgs@.len() - i,
        {
            let o = &orgs[i];
            if o.org_id != i as u64 + 1 || o.signers.len() == 0 || !addresses_distinct(&o.signers)
                || !employees_unique(&rosters[i]) || o.employee_count as u64 > count_active(
                &rosters[i],
            ) as u64 {
                return None;
            }
            i = i + 1;
        }
        Some(OrgRegistryContract { super_admin, payroll_contract, orgs, rosters })
    }

    /// How many organizations exist; the last one has this id.
    pub fn org_count(&self) -> (r: u64)
        requires
            self.orgs().len() <= u64::MAX,
        ensures
            r == self.orgs().len(),
    {
        self.orgs.len() as u64
    }

    /// The payroll contract employee removals cascade to, once set.
    pub fn payroll_contract(&self) -> (r: &Option<Address>)
        ensures
            *r == self.payroll_address(),
    {
        &self.payroll_contract
    }

    /// Wires in the payroll contract, once; the super admin must authorize.
    pub fn set_payroll_contract(&mut self, env: &mut Env, payroll_contract: Address) -> (r: Result<
        (),
        OrgRegistryError,
    >)
        requires
            old(self).wf(),
        ensures
            final(self).wf(),
            final(self).super_admin_address() == old(self).super_admin_address(),
            final(self).orgs() == old(self).orgs(),
            forall|o: u64| #[trigger] final(self).roster(o) == old(self).roster(o),
            final(env).extends(*old(env), seq![Action::RequireAuth(old(self).super_admin_address())]),
            old(self).payroll_address() is Some ==> {
                &&& r == Err::<(), OrgRegistryError>(OrgRegistryError::AlreadySet)
                &&& final(self).payroll_address() == old(self).payroll_address()
            },
            old(self).payroll_address() is None ==> {
                &&& r == Ok::<(), OrgRegistryError>(())
                &&& final(self).payroll_address() == Some(payroll_contract)
            },
    {
        env.require_auth(&self.super_admin);
        if self.payroll_contract.is_some() {
            return Err(OrgRegistryError::AlreadySet);
        }
        self.payroll_contract = Some(payroll_contract);
        Ok(())
    }

    /// Creates an organization named `name` administered by `admin`, who
    /// is also its first signer. Returns its id, one past the last id.
    pub fn create_org(&mut self, env: &mut Env, name: Symbol, admin: Address) -> (r: Result<
        u64,
        OrgRegistryError,
    >)
        requires
            old(self).wf(),
            old(self).orgs().len() < u64::MAX,
        ensures
            ({
                let id = (old(self).orgs().len() + 1) as u64;
                &&& r == Ok::<u64, OrgRegistryError>(id)
                &&& final(self).wf()
                &&& final(self).super_admin_address() == old(self).super_admin_address()
                &&& final(self).payroll_address() == old(self).payroll_address()
                &&& final(self).orgs().len() == id
                &&& final(self).orgs().drop_last() == old(self).orgs()
                &&& forall|o: u64|
                    o != id ==> #[trigger] final(self).roster(o) == old(self).roster(o)
                &&& final(self).roster(id) == Seq::<Employee>::empty()
                &&& final(self).org(id) matches Some(org) && org.org_id == id && org.name == name
                    && org.admin == admin && org.signers@ == seq![admin] && org.employee_count
                    == 0 && org.created_at == old(env).timestamp
                &&& final(env).extends(
                    *old(env),
                    seq![
                        Action::RequireAuth(admin),
                        Action::Publish(Event::OrgCreated { org_id: id, name, admin }),
                    ],
                )
            }),
    {
        env.require_auth(&admin);
        let org_id = self.orgs.len() as u64 + 1;
        let event = Event::OrgCreated { org_id, name: name.clone(), admin: admin.clone() };
        let mut signers: Vec<Address> = Vec::new();
        signers.push(admin.clone());
        let org = Organization {
            org_id,
            name,
            admin,
            signers,
            employee_count: 0,
            created_at: env.timestamp,
        };
        let ghost old_orgs = self.orgs@;
        self.orgs.push(org);
        self.rosters.push(Vec::new());
        proof {
            assert(self.orgs@.drop_last() =~= old_orgs);
            assert forall|i: int| 0 <= i < self.orgs@.len() implies {
                let o = #[trigger] self.orgs@[i];
                &&& o.org_id == i + 1
                &&& o.signers@.len() >= 1
                &&& distinct_addresses(o.signers@)
            } by {
                if i < old_orgs.len() {
                    assert(self.orgs@[i] == old_orgs[i]);
                }
            }
            assert forall|i: int| 0 <= i < self.rosters@.len() implies unique_keys(
                (#[trigger] self.rosters@[i])@,
            ) by {
                if i < old(self).rosters@.len() {
                    assert(self.rosters@[i] == old(self).rosters@[i]);
                }
            }
            assert forall|o: u64| o != org_id implies #[trigger] self.roster(o) == old(self).roster(
                o,
            ) by {
                if 1 <= o <= old(self).orgs@.len() {
                    assert(self.rosters@[o - 1] == old(self).rosters@[o - 1]);
                }
            }
        }
        env.publish(event);
        Ok(org_id)
    }


    /// The position of organization `org_id`, if it exists.
    fn org_index(&self, org_id: u64) -> (r: Option<usize>)
        ensures
            match r {
                Some(i) => 1 <= org_id <= self.orgs().len() && i == org_id - 1,
                None => self.org(org_id) is None,
            },
    {
        if org_id == 0 || org_id > self.orgs.len() as u64 {
            None
        } else {
            Some((org_id - 1) as usize)
        }
    }

    /// Makes `signer` a payroll approver of `org_id`; its admin must
    /// authorize. An existing signer is left as is.
    pub fn add_signer(&mut self, env: &mut Env, org_id: u64, signer: Address) -> (r: Result<
        (),
        OrgRegistryError,
    >)
        requires
            old(self).wf(),
        ensures
            match old(self).org(org_id) {
                None => {
                    &&& r == Err::<(), OrgRegistryError>(OrgRegistryError::OrgNotFound)
                    &&& *final(self) == *old(self)
                    &&& final(env).extends(*old(env), Seq::<Action>::empty())
                },
                Some(o) => {
                    &&& r == Ok::<(), OrgRegistryError>(())
                    &&& final(self).only_org(*old(self), org_id)
                    &&& final(self).roster(org_id) == old(self).roster(org_id)
                    &&& final(self).org(org_id) matches Some(n) && org_with(
                        n,
                        o,
                        o.admin,
                        with_signer(o.signers@, signer),
                        o.employee_count,
                    )
                    &&& final(env).extends(*old(env), seq![Action::RequireAuth(o.admin)])
                },
            },
    {
        let i = match self.org_index(org_id) {
            Some(i) => i,
            None => return Err(OrgRegistryError::OrgNotFound),
        };
        env.require_auth(&self.orgs[i].admin);
        let ghost before = *self;
        if find_address(&self.orgs[i].signers, &signer).is_none() {
            let ghost prev = self.orgs@[i as int].signers@;
            self.orgs[i].signers.push(signer);
            proof {
                let now = self.orgs@[i as int].signers@;
                assert forall|x: int, y: int|
                    0 <= x < now.len() && 0 <= y < now.len() && (#[trigger] now[x])@ == (
                    #[trigger] now[y])@ implies x == y by {
                    if x < prev.len() {
                        assert(now[x] == prev[x]);
                    }
                    if y < prev.len() {
                        assert(now[y] == prev[y]);
                    }
                }
            }
        }
        proof {
            assert(self.orgs@ =~= before.orgs@.update(i as int, self.orgs@[i as int]));
            Self::lemma_org_changed(before, *self, i as int);
        }
        Ok(())
    }

    /// Takes `signer` off the payroll approvers of `org_id`; its admin must
    /// authorize. The last signer cannot be removed.
    pub fn remove_signer(&mut self, env: &mut Env, org_id: u64, signer: Address) -> (r: Result<
        (),
        OrgRegistryError,
    >)
        requires
            old(self).wf(),
        ensures
            match old(self).org(org_id) {
                None => {
                    &&& r == Err::<(), OrgRegistryError>(OrgRegistryError::OrgNotFound)
                    &&& *final(self) == *old(self)
                    &&& final(env).extends(*old(env), Seq::<Action>::empty())
                },
                Some(o) => {
                    &&& final(env).extends(*old(env), seq![Action::RequireAuth(o.admin)])
                    &&& o.signers@.len() <= 1 ==> {
                        &&& r == Err::<(), OrgRegistryError>(
                            OrgRegistryError::CannotRemoveLastSigner,
                        )
                        &&& *final(self) == *old(self)
                    }
                    &&& o.signers@.len() > 1 ==> {
                        &&& r == Ok::<(), OrgRegistryError>(())
                        &&& final(self).only_org(*old(self), org_id)
                        &&& final(self).roster(org_id) == old(self).roster(org_id)
                        &&& final(self).org(org_id) matches Some(n) && org_with(
                            n,
                            o,
                            o.admin,
                            without_signer(o.signers@, signer@),
                            o.employee_count,
                        )
                    }
                },
            },
    {
        let i = match self.org_index(org_id) {
            Some(i) => i,
            None => return Err(OrgRegistryError::OrgNotFound),
        };
        env.require_auth(&self.orgs[i].admin);
        if self.orgs[i].signers.len() <= 1 {
            return Err(OrgRegistryError::CannotRemoveLastSigner);
        }
        let ghost before = *self;
        let ghost prev = self.orgs@[i as int].signers@;
        proof {
            assert(self.orgs@[i as int].wf_signers());
        }
        match find_address(&self.orgs[i].signers, &signer) {
            Some(k) => {
                self.orgs[i].signers.remove(k);
                proof {
                    let c = choose|m: int| 0 <= m < prev.len() && (#[trigger] prev[m])@ == signer@;
                    assert(prev[k as int]@ == signer@);
                    assert(c == k);
                    let now = self.orgs@[i as int].signers@;
                    assert forall|x: int, y: int|
                        0 <= x < now.len() && 0 <= y < now.len() && (#[trigger] now[x])@ == (
                        #[trigger] now[y])@ implies x == y by {
                        let x0 = if x < k { x } else { x + 1 };
                        let y0 = if y < k { y } else { y + 1 };
                        assert(now[x] == prev[x0]);
                        assert(now[y] == prev[y0]);
                    }
                }
            },
            None => {},
        }
        proof {
            assert(self.orgs@ =~= before.orgs@.update(i as int, self.orgs@[i as int]));
            Self::lemma_org_changed(before, *self, i as int);
        }
        Ok(())
    }

    /// Makes `new_admin` the admin of `org_id`, and a signer if it is not
    /// one yet; the current admin must authorize.
    pub fn transfer_admin(&mut self, env: &mut Env, org_id: u64, new_admin: Address) -> (r: Result<
        (),
        OrgRegistryError,
    >)
        requires
            old(self).wf(),
        ensures
            match old(self).org(org_id) {
                None => {
                    &&& r == Err::<(), OrgRegistryError>(OrgRegistryError::OrgNotFound)
                    &&& *final(self) == *old(self)
                    &&& final(env).extends(*old(env), Seq::<Action>::empty())
                },
                Some(o) => {
                    &&& r == Ok::<(), OrgRegistryError>(())
                    &&& final(self).only_org(*old(self), org_id)
                    &&& final(self).roster(org_id) == old(self).roster(org_id)
                    &&& final(self).org(org_id) matches Some(n) && org_with(
                        n,
                        o,
                        new_admin,
                        with_signer(o.signers@, new_admin),
                        o.employee_count,
                    )
                    &&& final(env).extends(*old(env), seq![Action::RequireAuth(o.admin)])
                },
            },
    {
        let i = match self.org_index(org_id) {
            Some(i) => i,
            None => return Err(OrgRegistryError::OrgNotFound),
        };
        env.require_auth(&self.orgs[i].admin);
        let ghost before = *self;
        self.orgs[i].admin = new_admin.clone();
        if find_address(&self.orgs[i].signers, &new_admin).is_none() {
            let ghost prev = self.orgs@[i as int].signers@;
            self.orgs[i].signers.push(new_admin);
            proof {
                let now = self.orgs@[i as int].signers@;
                assert forall|x: int, y: int|
                    0 <= x < now.len() && 0 <= y < now.len() && (#[trigger] now[x])@ == (
                    #[trigger] now[y])@ implies x == y by {
                    if x < prev.len() {
                        assert(now[x] == prev[x]);
                    }
                    if y < prev.len() {
                        assert(now[y] == prev[y]);
                    }
                }
            }
        }
        proof {
            assert(self.orgs@ =~= before.orgs@.update(i as int, self.orgs@[i as int]));
            Self::lemma_org_changed(before, *self, i as int);
        }
        Ok(())
    }

    /// Registers `employee` in `org_id` as active, with the given name and
    /// role; its admin must authorize. A first registration adds the
    /// employee to the roster, counts and announces them; a repeated one
    /// rewrites the record in place, active again, and changes no count.
    pub fn add_employee(
        &mut self,
        env: &mut Env,
        org_id: u64,
        employee: Address,
        display_name: Symbol,
        role: Symbol,
    ) -> (r: Result<(), OrgRegistryError>)
        requires
            old(self).wf(),
            old(self).employee(org_id, employee@) is None ==> (old(self).org(org_id) matches Some(o)
                ==> o.employee_count < u32::MAX),
        ensures
            match old(self).org(org_id) {
                None => {
                    &&& r == Err::<(), OrgRegistryError>(OrgRegistryError::OrgNotFound)
                    &&& *final(self) == *old(self)
                    &&& final(env).extends(*old(env), Seq::<Action>::empty())
                },
                Some(o) => {
                    let rec = Employee {
                        address: employee,
                        display_name,
                        role,
                        added_at: old(env).timestamp,
                        active: true,
                    };
                    let roster = old(self).roster(org_id);
                    let is_new = old(self).employee(org_id, employee@) is None;
                    &&& r == Ok::<(), OrgRegistryError>(())
                    &&& final(self).only_org(*old(self), org_id)
                    &&& final(self).roster(org_id) == if is_new {
                        roster.push(rec)
                    } else {
                        roster.update(key_index(roster, employee@), rec)
                    }
                    &&& final(self).employee(org_id, employee@) == Some(rec)
                    &&& forall|e: Seq<char>|
                        e != employee@ ==> #[trigger] final(self).employee(org_id, e) == old(
                            self,
                        ).employee(org_id, e)
                    &&& final(self).org(org_id) matches Some(n) && org_with(
                        n,
                        o,
                        o.admin,
                        o.signers@,
                        if is_new {
                            (o.employee_count + 1) as u32
                        } else {
                            o.employee_count
                        },
                    )
                    &&& final(env).extends(
                        *old(env),
                        seq![Action::RequireAuth(o.admin)] + if is_new {
                            seq![
                                Action::Publish(
                                    Event::EmployeeAdded { org_id, employee, display_name, role },
                                ),
                            ]
                        } else {
                            Seq::<Action>::empty()
                        },
                    )
                },
            },
    {
        let i = match self.org_index(org_id) {
            Some(i) => i,
            None => return Err(OrgRegistryError::OrgNotFound),
        };
        env.require_auth(&self.orgs[i].admin);
        let ghost before = *self;
        let ghost roster = self.rosters@[i as int]@;
        proof {
            assert(unique_keys(roster));
        }
        let record = Employee {
            address: employee.clone(),
            display_name: display_name.clone(),
            role: role.clone(),
            added_at: env.timestamp,
            active: true,
        };
        let found = find_employee(&self.rosters[i], &employee);
        match found {
            Some(j) => {
                proof {
                    lemma_key_index(roster, j as int);
                    lemma_lookup_update(roster, j as int, record);
                    lemma_active_update(roster, j as int, record);
                }
                self.rosters[i].set(j, record);
                proof {
                    assert(self.rosters@ =~= before.rosters@.update(i as int, self.rosters@[i as int]));
                    assert(self.orgs@ =~= before.orgs@.update(i as int, self.orgs@[i as int]));
                    Self::lemma_roster_changed(before, *self, i as int);
                }
            },
            None => {
                proof {
                    lemma_lookup_push(roster, record);
                    lemma_active_push(roster, record);
                }
                self.rosters[i].push(record);
                let count = self.orgs[i].employee_count + 1;
                self.orgs[i].employee_count = count;
                proof {
                    assert(self.rosters@ =~= before.rosters@.update(i as int, self.rosters@[i as int]));
                    assert(self.orgs@ =~= before.orgs@.update(i as int, self.orgs@[i as int]));
                    Self::lemma_roster_changed(before, *self, i as int);
                }
                env.publish(Event::EmployeeAdded { org_id, employee, display_name, role });
            },
        }
        Ok(())
    }

    /// Marks `employee` of `org_id` inactive and uncounts them; its admin
    /// must authorize. Once a payroll contract is wired in, asks it to
    /// remove the employee's schedule.
    pub fn remove_employee(&mut self, env: &mut Env, org_id: u64, employee: Address) -> (r: Result<
        (),
        OrgRegistryError,
    >)
        requires
            old(self).wf(),
        ensures
            match old(self).org(org_id) {
                None => {
                    &&& r == Err::<(), OrgRegistryError>(OrgRegistryError::OrgNotFound)
                    &&& *final(self) == *old(self)
                    &&& final(env).extends(*old(env), Seq::<Action>::empty())
                },
                Some(o) => match old(self).employee(org_id, employee@) {
                    None => {
                        &&& r == Err::<(), OrgRegistryError>(OrgRegistryError::EmployeeNotFound)
                        &&& *final(self) == *old(self)
                        &&& final(env).extends(*old(env), seq![Action::RequireAuth(o.admin)])
                    },
                    Some(rec) => {
                        let roster = old(self).roster(org_id);
                        &&& r == Ok::<(), OrgRegistryError>(())
                        &&& final(self).only_org(*old(self), org_id)
                        &&& final(self).roster(org_id) == if rec.active {
                            roster.update(
                                key_index(roster, employee@),
                                Employee { active: false, ..rec },
                            )
                        } else {
                            roster
                        }
                        &&& final(self).employee(org_id, employee@) == Some(
                            Employee { active: false, ..rec },
                        )
                        &&& forall|e: Seq<char>|
                            e != employee@ ==> #[trigger] final(self).employee(org_id, e) == old(
                                self,
                            ).employee(org_id, e)
                        &&& final(self).org(org_id) matches Some(n) && org_with(
                            n,
                            o,
                            o.admin,
                            o.signers@,
                            if rec.active && o.employee_count > 0 {
                                (o.employee_count - 1) as u32
                            } else {
                                o.employee_count
                            },
                        )
                        &&& final(env).extends(
                            *old(env),
                            seq![Action::RequireAuth(o.admin)] + (if rec.active {
                                seq![Action::Publish(Event::EmployeeRemoved { org_id, employee })]
                            } else {
                                Seq::<Action>::empty()
                            }) + match old(self).payroll_address() {
                                Some(p) => seq![
                                    Action::RemoveSchedule {
                                        contract: p,
                                        org_id,
                                        employee,
                                        caller: old(env).current_contract,
                                    },
                                ],
                                None => Seq::<Action>::empty(),
                            },
                        )
                    },
                },
            },
    {
        let i = match self.org_index(org_id) {
            Some(i) => i,
            None => return Err(OrgRegistryError::OrgNotFound),
        };
        env.require_auth(&self.orgs[i].admin);
        let ghost before = *self;
        let ghost roster = self.rosters@[i as int]@;
        proof {
            assert(unique_keys(roster));
        }
        let j = match find_employee(&self.rosters[i], &employee) {
            Some(j) => j,
            None => return Err(OrgRegistryError::EmployeeNotFound),
        };
        proof {
            lemma_key_index(roster, j as int);
        }
        if self.rosters[i][j].active {
            let ghost rec = Employee { active: false, ..roster[j as int] };
            proof {
                lemma_lookup_update(roster, j as int, rec);
                lemma_active_update(roster, j as int, rec);
            }
            self.rosters[i][j].active = false;
            let count = self.orgs[i].employee_count;
            self.orgs[i].employee_count = if count > 0 {
                count - 1
            } else {
                0
            };
            proof {
                assert(self.rosters@[i as int]@ =~= roster.update(j as int, rec));
                assert(self.rosters@ =~= before.rosters@.update(i as int, self.rosters@[i as int]));
                assert(self.orgs@ =~= before.orgs@.update(i as int, self.orgs@[i as int]));
                Self::lemma_roster_changed(before, *self, i as int);
            }
            env.publish(Event::EmployeeRemoved { org_id, employee: employee.clone() });
        } else {
            proof {
                assert(Employee { active: false, ..roster[j as int] } == roster[j as int]);
                assert(self.rosters@ =~= before.rosters@.update(i as int, self.rosters@[i as int]));
                assert(self.orgs@ =~= before.orgs@.update(i as int, self.orgs@[i as int]));
                Self::lemma_roster_changed(before, *self, i as int);
            }
        }
        if let Some(payroll) = &self.payroll_contract {
            let here = env.current_contract.clone();
            env.invoke_remove_schedule(payroll, org_id, &employee, &here);
        }
        Ok(())
    }

    /// Rewrites the name and role of `employee` of `org_id`; its admin must
    /// authorize.
    pub fn update_employee(
        &mut self,
        env: &mut Env,
        org_id: u64,
        employee: Address,
        display_name: Symbol,
        role: Symbol,
    ) -> (r: Result<(), OrgRegistryError>)
        requires
            old(self).wf(),
        ensures
            match old(self).org(org_id) {
                None => {
                    &&& r == Err::<(), OrgRegistryError>(OrgRegistryError::OrgNotFound)
                    &&& *final(self) == *old(self)
                    &&& final(env).extends(*old(env), Seq::<Action>::empty())
                },
                Some(o) => match old(self).employee(org_id, employee@) {
                    None => {
                        &&& r == Err::<(), OrgRegistryError>(OrgRegistryError::EmployeeNotFound)
                        &&& *final(self) == *old(self)
                        &&& final(env).extends(*old(env), seq![Action::RequireAuth(o.admin)])
                    },
                    Some(rec) => {
                        let roster = old(self).roster(org_id);
                        let updated = Employee { display_name, role, ..rec };
                        &&& r == Ok::<(), OrgRegistryError>(())
                        &&& final(self).only_org(*old(self), org_id)
                        &&& final(self).roster(org_id) == roster.update(
                            key_index(roster, employee@),
                            updated,
                        )
                        &&& final(self).employee(org_id, employee@) == Some(updated)
                        &&& forall|e: Seq<char>|
                            e != employee@ ==> #[trigger] final(self).employee(org_id, e) == old(
                                self,
                            ).employee(org_id, e)
                        &&& final(self).org(org_id) == old(self).org(org_id)
                        &&& final(env).extends(*old(env), seq![Action::RequireAuth(o.admin)])
                    },
                },
            },
    {
        let i = match self.org_index(org_id) {
            Some(i) => i,
            None => return Err(OrgRegistryError::OrgNotFound),
        };
        env.require_auth(&self.orgs[i].admin);
        let ghost before = *self;
        let ghost roster = self.rosters@[i as int]@;
        proof {
            assert(unique_keys(roster));
        }
        let j = match find_employee(&self.rosters[i], &employee) {
            Some(j) => j,
            None => return Err(OrgRegistryError::EmployeeNotFound),
        };
        let ghost updated = Employee { display_name, role, ..roster[j as int] };
        proof {
            lemma_key_index(roster, j as int);
            lemma_lookup_update(roster, j as int, updated);
            lemma_active_update(roster, j as int, updated);
        }
        self.rosters[i][j].display_name = display_name;
        self.rosters[i][j].role = role;
        proof {
            assert(self.rosters@[i as int]@ =~= roster.update(j as int, updated));
            assert(self.rosters@ =~= before.rosters@.update(i as int, self.rosters@[i as int]));
            assert(self.orgs@ =~= before.orgs@.update(i as int, self.orgs@[i as int]));
            Self::lemma_roster_changed(before, *self, i as int);
            assert(self.orgs@ =~= before.orgs@);
            assert(self.org(org_id) == old(self).org(org_id));
            assert forall|e: Seq<char>| e != employee@ implies #[trigger] self.employee(org_id, e)
                == old(self).employee(org_id, e) by {}
        }
        Ok(())
    }

    /// Organization `org_id`.
    pub fn get_org(&self, org_id: u64) -> (r: Result<&Organization, OrgRegistryError>)
        ensures
            match self.org(org_id) {
                Some(o) => r matches Ok(x) && *x == o,
                None => r matches Err(e) && e == OrgRegistryError::OrgNotFound,
            },
    {
        match self.org_index(org_id) {
            Some(i) => Ok(&self.orgs[i]),
            None => Err(OrgRegistryError::OrgNotFound),
        }
    }

    /// The record of `employee` in `org_id`.
    pub fn get_employee(&self, org_id: u64, employee: Address) -> (r: Result<
        Employee,
        OrgRegistryError,
    >)
        requires
            self.wf(),
        ensures
            r == (match self.employee(org_id, employee@) {
                Some(e) => Ok::<Employee, OrgRegistryError>(e),
                None => Err(OrgRegistryError::EmployeeNotFound),
            }),
    {
        match self.org_index(org_id) {
            Some(i) => {
                proof {
                    assert(unique_keys(self.rosters@[i as int]@));
                }
                match find_employee(&self.rosters[i], &employee) {
                    Some(j) => Ok(self.rosters[i][j].clone()),
                    None => Err(OrgRegistryError::EmployeeNotFound),
                }
            },
            None => Err(OrgRegistryError::EmployeeNotFound),
        }
    }

    /// Every employee ever added to `org_id`, active or not, in the order
    /// they were first added.
    pub fn get_employees(&self, org_id: u64) -> (r: Result<Vec<Employee>, OrgRegistryError>)
        requires
            self.wf(),
        ensures
            r matches Ok(v) && v@ == self.roster(org_id),
            r matches Ok(v) ==> unique_keys(v@),
            r matches Ok(v) ==> (self.org(org_id) is None ==> v@.len() == 0),
            r matches Ok(v) ==> forall|k: int|
                0 <= k < v@.len() ==> self.employee(org_id, (#[trigger] v@[k]).address@) == Some(
                    v@[k],
                ),
    {
        let mut out: Vec<Employee> = Vec::new();
        if let Some(i) = self.org_index(org_id) {
            let mut k: usize = 0;
            while k < self.rosters[i].len()
                invariant
                    i < self.rosters@.len(),
                    k <= self.rosters@[i as int]@.len(),
                    out@ == self.rosters@[i as int]@.subrange(0, k as int),
                decreases self.rosters@[i as int]@.len() - k,
            {
                out.push(self.rosters[i][k].clone());
                k = k + 1;
                assert(out@ =~= self.rosters@[i as int]@.subrange(0, k as int));
            }
            assert(out@ =~= self.rosters@[i as int]@);
        }
        proof {
            self.lemma_rosters_consistent(org_id);
            assert(out@ == self.roster(org_id));
            assert forall|k: int| 0 <= k < out@.len() implies self.employee(
                org_id,
                (#[trigger] out@[k]).address@,
            ) == Some(out@[k]) by {
                lemma_key_index(self.roster(org_id), k);
            }
        }
        Ok(out)
    }

    /// Whether `address` is a signer of `org_id`.
    pub fn is_signer(&self, org_id: u64, address: Address) -> (r: bool)
        ensures
            r == (self.org(org_id) matches Some(o) && address_in(o.signers@, address@)),
    {
        match self.org_index(org_id) {
            Some(i) => find_address(&self.orgs[i].signers, &address).is_some(),
            None => false,
        }
    }

    /// Whether `address` is the admin of `org_id`.
    pub fn is_admin(&self, org_id: u64, address: Address) -> (r: bool)
        ensures
            r == (self.org(org_id) matches Some(o) && o.admin@ == address@),
    {
        match self.org_index(org_id) {
            Some(i) => self.orgs[i].admin.same(&address),
            None => false,
        }
    }

    /// The organization at position `i` has changed only in its admin,
    /// signers and employee count, keeping a distinct, non-empty set of
    /// signers; every other organization keeps its records.
    proof fn lemma_org_changed(before: Self, after: Self, i: int)
        requires
            before.wf(),
            0 <= i < before.orgs@.len(),
            after.orgs@ == before.orgs@.update(i, after.orgs@[i]),
            after.rosters@ == before.rosters@,
            after.orgs@[i].org_id == before.orgs@[i].org_id,
            after.orgs@[i].signers@.len() >= 1,
            distinct_addresses(after.orgs@[i].signers@),
            after.orgs@[i].employee_count == before.orgs@[i].employee_count,
            after.super_admin == before.super_admin,
            after.payroll_contract == before.payroll_contract,
        ensures
            after.only_org(before, (i + 1) as u64),
            after.roster((i + 1) as u64) == before.roster((i + 1) as u64),
            after.org((i + 1) as u64) == Some(after.orgs@[i]),
    {
        assert forall|o: u64| o != (i + 1) as u64 implies #[trigger] after.org(o) == before.org(o)
            && after.roster(o) == before.roster(o) by {
            if 1 <= o <= before.orgs@.len() {
                assert(after.orgs@[o - 1] == before.orgs@[o - 1]);
            }
        }
    }

    /// The roster at position `i` has changed, keeping its keys unique, and
    /// the organization there only in its employee count; every other
    /// organization keeps its records.
    proof fn lemma_roster_changed(before: Self, after: Self, i: int)
        requires
            before.wf(),
            0 <= i < before.orgs@.len(),
            after.orgs@ == before.orgs@.update(i, after.orgs@[i]),
            after.rosters@ == before.rosters@.update(i, after.rosters@[i]),
            after.orgs@[i].org_id == before.orgs@[i].org_id,
            after.orgs@[i].signers@ == before.orgs@[i].signers@,
            unique_keys(after.rosters@[i]@),
            after.orgs@[i].employee_count <= active_employees(after.rosters@[i]@),
            after.super_admin == before.super_admin,
            after.payroll_contract == before.payroll_contract,
        ensures
            after.only_org(before, (i + 1) as u64),
            after.roster((i + 1) as u64) == after.rosters@[i]@,
            before.roster((i + 1) as u64) == before.rosters@[i]@,
            after.org((i + 1) as u64) == Some(after.orgs@[i]),
    {
        assert forall|o: u64| o != (i + 1) as u64 implies #[trigger] after.org(o) == before.org(o)
            && after.roster(o) == before.roster(o) by {
            if 1 <= o <= before.orgs@.len() {
                assert(after.orgs@[o - 1] == before.orgs@[o - 1]);
                assert(after.rosters@[o - 1] == before.rosters@[o - 1]);
            }
        }
        assert forall|k: int| 0 <= k < after.rosters@.len() implies unique_keys(
            (#[trigger] after.rosters@[k])@,
        ) by {
            if k != i {
                assert(after.rosters@[k] == before.rosters@[k]);
            }
        }
        assert forall|k: int| 0 <= k < after.orgs@.len() implies (#[trigger] after.orgs@[k]).employee_count
            <= active_employees(after.rosters@[k]@) by {
            if k != i {
                assert(after.orgs@[k] == before.orgs@[k]);
                assert(after.rosters@[k] == before.rosters@[k]);
            }
        }
    }
}

impl Organization {
    spec fn wf_signers(self) -> bool {
        &&& self.signers@.len() >= 1
        &&& distinct_addresses(self.signers@)
    }
}

impl OrgRegistryInterface for OrgRegistryContract {
    open spec fn spec_is_admin(&self, org_id: u64, address: Seq<char>) -> bool {
        self.org(org_id) matches Some(o) && o.admin@ == address
    }

    open spec fn spec_is_signer(&self, org_id: u64, address: Seq<char>) -> bool {
        self.org(org_id) matches Some(o) && address_in(o.signers@, address)
    }

    fn is_admin(&self, org_id: u64, address: &Address) -> (r: bool) {
        OrgRegistryContract::is_admin(self, org_id, address.clone())
    }

    fn is_signer(&self, org_id: u64, address: &Address) -> (r: bool) {
        OrgRegistryContract::is_signer(self, org_id, address.clone())
    }
}

/// What the registry answered about one address in one organization: a
/// contract that consults the registry from elsewhere asks it first and
/// decides with these answers. Of any other address or organization the
/// answer is no.
pub struct RegistryAnswer {
    pub org_id: u64,
    pub address: Address,
    pub admin: bool,
    pub signer: bool,
}

impl OrgRegistryInterface for RegistryAnswer {
    open spec fn spec_is_admin(&self, org_id: u64, address: Seq<char>) -> bool {
        self.admin && org_id == self.org_id && address == self.address@
    }

    open spec fn spec_is_signer(&self, org_id: u64, address: Seq<char>) -> bool {
        self.signer && org_id == self.org_id && address == self.address@
    }

    fn is_admin(&self, org_id: u64, address: &Address) -> (r: bool) {
        self.admin && org_id == self.org_id && address.same(&self.address)
    }

    fn is_signer(&self, org_id: u64, address: &Address) -> (r: bool) {
        self.signer && org_id == self.org_id && address.same(&self.address)
    }
}

/// How many employees of `roster` are active.
fn count_active(roster: &Vec<Employee>) -> (r: usize)
    ensures
        r == active_employees(roster@),
{
    let mut count: usize = 0;
    let mut i: usize = 0;
    while i < roster.len()
        invariant
            i <= roster@.len(),
            count <= i,
            count == active_employees(roster@.take(i as int)),
        decreases roster@.len() - i,
    {
        proof {
            assert(roster@.take(i + 1).drop_last() =~= roster@.take(i as int));
            assert(roster@.take(i + 1).last() == roster@[i as int]);
        }
        if roster[i].active {
            count = count + 1;
        }
        i = i + 1;
    }
    proof {
        assert(roster@.take(roster@.len() as int) =~= roster@);
    }
    count
}

/// Whether no employee occurs twice in `roster`.
pub fn employees_unique(roster: &Vec<Employee>) -> (r: bool)
    ensures
        r == unique_keys(roster@),
{
    let mut i: usize = 0;
    while i < roster.len()
        invariant
            i <= roster@.len(),
            forall|x: int, y: int|
                0 <= x < i && 0 <= y < roster@.len() && (#[trigger] roster@[x]).key() == (
                #[trigger] roster@[y]).key() ==> x == y,
        decreases roster@.len() - i,
    {
        let mut j: usize = 0;
        while j < roster.len()
            invariant
                i < roster@.len(),
                j <= roster@.len(),
                forall|x: int, y: int|
                    0 <= x < i && 0 <= y < roster@.len() && (#[trigger] roster@[x]).key() == (
                    #[trigger] roster@[y]).key() ==> x == y,
                forall|y: int|
                    0 <= y < j && (#[trigger] roster@[y]).key() == roster@[i as int].key() ==> y == i,
            decreases roster@.len() - j,
        {
            if j != i && roster[j].address.same(&roster[i].address) {
                return false;
            }
            j = j + 1;
        }
        i = i + 1;
    }
    true
}

/// The position of the record of `employee` in `roster`.
fn find_employee(roster: &Vec<Employee>, employee: &Address) -> (r: Option<usize>)
    requires
        unique_keys(roster@),
    ensures
        match r {
            Some(j) => {
                &&& j < roster@.len()
                &&& roster@[j as int].key() == employee@
                &&& lookup(roster@, employee@) == Some(roster@[j as int])
            },
            None => !has_key(roster@, employee@) && lookup(roster@, employee@) is None,
        },
{
    let mut j: usize = 0;
    while j < roster.len()
        invariant
            j <= roster@.len(),
            unique_keys(roster@),
            forall|k: int| 0 <= k < j ==> (#[trigger] roster@[k]).key() != employee@,
        decreases roster@.len() - j,
    {
        if roster[j].address.same(employee) {
            proof {
                lemma_key_index(roster@, j as int);
            }
            return Some(j);
        }
        j = j + 1;
    }
    None
}

/// How many employees of `roster` are active.
pub open spec fn active_employees(roster: Seq<Employee>) -> nat
    decreases roster.len(),
{
    if roster.len() == 0 {
        0
    } else {
        active_employees(roster.drop_last()) + if roster.last().active {
            1nat
        } else {
            0
        }
    }
}

proof fn lemma_active_le_len(roster: Seq<Employee>)
    ensures
        active_employees(roster) <= roster.len(),
    decreases roster.len(),
{
    if roster.len() > 0 {
        lemma_active_le_len(roster.drop_last());
    }
}

proof fn lemma_active_push(roster: Seq<Employee>, e: Employee)
    ensures
        active_employees(roster.push(e)) == active_employees(roster) + if e.active {
            1nat
        } else {
            0
        },
{
    assert(roster.push(e).drop_last() =~= roster);
}

proof fn lemma_active_update(roster: Seq<Employee>, j: int, e: Employee)
    requires
        0 <= j < roster.len(),
    ensures
        active_employees(roster.update(j, e)) + (if roster[j].active {
            1nat
        } else {
            0
        }) == active_employees(roster) + if e.active {
            1nat
        } else {
            0
        },
    decreases roster.len(),
{
    if j < roster.len() - 1 {
        lemma_active_update(roster.drop_last(), j, e);
        assert(roster.update(j, e).drop_last() =~= roster.drop_last().update(j, e));
    } else {
        assert(roster.update(j, e).drop_last() =~= roster.drop_last());
    }
}

impl OrgRegistryContract {
    /// Every organization keeps at least one signer, and no signer twice.
    pub proof fn lemma_signers_never_empty(self, org_id: u64)
        requires
            self.wf(),
            self.org(org_id) is Some,
        ensures
            self.org(org_id)->0.signers@.len() >= 1,
            distinct_addresses(self.org(org_id)->0.signers@),
    {
        assert(self.orgs@[org_id - 1].org_id == org_id);
    }

    /// Every roster holds each employee once; every organization counts no
    /// more employees than are active in its roster, and so no more than
    /// its roster holds; an organization that does not exist has no roster.
    pub proof fn lemma_rosters_consistent(self, org_id: u64)
        requires
            self.wf(),
        ensures
            unique_keys(self.roster(org_id)),
            self.org(org_id) matches Some(o) ==> o.employee_count <= active_employees(
                self.roster(org_id),
            ),
            active_employees(self.roster(org_id)) <= self.roster(org_id).len(),
            self.org(org_id) is None ==> self.roster(org_id).len() == 0,
    {
        if 1 <= org_id <= self.orgs@.len() {
            assert(self.orgs@[org_id - 1].org_id == org_id);
            assert(unique_keys(self.rosters@[org_id - 1]@));
        }
        lemma_active_le_len(self.roster(org_id));
    }

    /// The payroll and vesting contracts' admin and signer checks, answered
    /// by this registry, are its current records.
    pub proof fn lemma_authority_is_current(self, org_id: u64, address: Seq<char>)
        ensures
            self.spec_is_admin(org_id, address) == (self.org(org_id) matches Some(o) && o.admin@
                == address),
            self.spec_is_signer(org_id, address) == (self.org(org_id) matches Some(o)
                && address_in(o.signers@, address)),
    {
    }
}

/// Adding a signer keeps every signer in place and makes `a` a signer,
/// once: it is appended only when not already there.
pub proof fn lemma_signer_added(signers: Seq<Address>, a: Address)
    ensures
        exists|k: int| 0 <= k < with_signer(signers, a).len() && (#[trigger] with_signer(signers, a)[k])@ == a@,
        forall|k: int| 0 <= k < signers.len() ==> #[trigger] with_signer(signers, a)[k] == signers[k],
        with_signer(signers, a).len() == signers.len() + if (exists|k: int|
            0 <= k < signers.len() && (#[trigger] signers[k])@ == a@) {
            0int
        } else {
            1int
        },
{
    if !address_in(signers, a@) {
        assert(with_signer(signers, a)[signers.len() as int] == a);
    } else {
        let k = choose|k: int| 0 <= k < signers.len() && (#[trigger] signers[k])@ == a@;
        assert(with_signer(signers, a)[k] == signers[k]);
    }
}

/// Removing a signer from a list that holds none twice leaves no trace of
/// `a` and keeps every other signer, in order, one fewer when `a` was there.
pub proof fn lemma_signer_removed(signers: Seq<Address>, a: Seq<char>)
    requires
        distinct_addresses(signers),
    ensures
        !(exists|k: int| 0 <= k < without_signer(signers, a).len() && (#[trigger] without_signer(signers, a)[k])@ == a),
        forall|k: int|
            0 <= k < signers.len() && (#[trigger] signers[k])@ != a ==> without_signer(signers, a).contains(
                signers[k],
            ),
        without_signer(signers, a).len() == signers.len() - if (exists|k: int|
            0 <= k < signers.len() && (#[trigger] signers[k])@ == a) {
            1int
        } else {
            0int
        },
{
    let r = without_signer(signers, a);
    if address_in(signers, a) {
        let i0 = choose|i: int| 0 <= i < signers.len() && (#[trigger] signers[i])@ == a;
        assert(r == signers.remove(i0));
        assert forall|k: int| 0 <= k < r.len() implies (#[trigger] r[k])@ != a by {
            if k < i0 {
                assert(r[k] == signers[k]);
            } else {
                assert(r[k] == signers[k + 1]);
            }
        }
        assert forall|k: int| 0 <= k < signers.len() && (#[trigger] signers[k])@ != a implies r.contains(
            signers[k],
        ) by {
            if k < i0 {
                assert(r[k] == signers[k]);
            } else {
                assert(k != i0);
                assert(r[k - 1] == signers[k]);
            }
        }
    } else {
        assert forall|k: int| 0 <= k < signers.len() && (#[trigger] signers[k])@ != a implies r.contains(
            signers[k],
        ) by {
            assert(r[k] == signers[k]);
        }
    }
}

} // verus!
