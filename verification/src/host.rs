//! The ledger-facing vocabulary shared by the three contracts: account
//! addresses, short symbols, and the invocation context through which a
//! contract asks for authorization, moves tokens and publishes events.
use vstd::prelude::*;

use crate::payroll::{PayFrequency, PaySplit};

verus! {

/// A Stellar address (an account or a contract), identified by its strkey.
#[derive(Debug, PartialEq, Eq)]
pub struct Address {
    strkey: String,
}

impl View for Address {
    type V = Seq<char>;

    closed spec fn view(&self) -> Seq<char> {
        self.strkey@
    }
}

impl Address {
    /// The address whose strkey is `strkey`.
    pub fn from_strkey(strkey: &str) -> (a: Address)
        ensures
            a@ == strkey@,
    {
        Address { strkey: strkey.to_owned() }
    }

    /// The strkey text of this address.
    pub fn as_str(&self) -> (s: &str)
        ensures
            s@ == self@,
    {
        self.strkey.as_str()
    }

    /// Whether both values name the same address.
    pub fn same(&self, other: &Address) -> (r: bool)
        ensures
            r == (self@ == other@),
    {
        self.strkey == other.strkey
    }
}

impl Clone for Address {
    fn clone(&self) -> (r: Self)
        ensures
            r == *self,
    {
        Address { strkey: self.strkey.clone() }
    }
}

/// A short name (organization names, display names, roles).
#[derive(Debug, PartialEq, Eq)]
pub struct Symbol {
    text: String,
}

impl View for Symbol {
    type V = Seq<char>;

    closed spec fn view(&self) -> Seq<char> {
        self.text@
    }
}

impl Symbol {
    /// The symbol spelled `text`.
    pub fn new(text: &str) -> (s: Symbol)
        ensures
            s@ == text@,
    {
        Symbol { text: text.to_owned() }
    }

    /// The text of this symbol.
    pub fn as_str(&self) -> (s: &str)
        ensures
            s@ == self@,
    {
        self.text.as_str()
    }
}

impl Clone for Symbol {
    fn clone(&self) -> (r: Self)
        ensures
            r == *self,
    {
        Symbol { text: self.text.clone() }
    }
}

/// An event published by a contract, with its payload.
#[derive(Debug, PartialEq, Eq)]
pub enum Event {
    OrgCreated { org_id: u64, name: Symbol, admin: Address },
    EmployeeAdded { org_id: u64, employee: Address, display_name: Symbol, role: Symbol },
    EmployeeRemoved { org_id: u64, employee: Address },
    PayrollFunded { org_id: u64, funder: Address, amount: i128, new_balance: i128 },
    ScheduleAdded { org_id: u64, employee: Address, amount: i128, frequency: PayFrequency },
    ScheduleUpdated { org_id: u64, employee: Address, amount: i128, frequency: PayFrequency },
    ScheduleRemoved { org_id: u64, employee: Address },
    BatchPrepared { org_id: u64, batch_id: u64, total_amount: i128, employee_count: u32 },
    BatchApproved {
        org_id: u64,
        batch_id: u64,
        signer: Address,
        approvals_so_far: u32,
        threshold: u32,
    },
    EmployeePaid { org_id: u64, employee: Address, amount: i128 },
    PayrollExecuted { org_id: u64, batch_id: u64, total_disbursed: i128, employee_count: u32 },
    SplitsUpdated { org_id: u64, employee: Address, splits: Vec<PaySplit> },
    FundsWithdrawn { org_id: u64, amount: i128, remaining_balance: i128 },
    GrantCreated {
        grant_id: u64,
        org_id: u64,
        employee: Address,
        token: Address,
        amount: i128,
        cliff_seconds: u64,
        vesting_seconds: u64,
    },
    TokensClaimed {
        grant_id: u64,
        employee: Address,
        amount_claimed: i128,
        total_claimed: i128,
        remaining: i128,
    },
    GrantRevoked { grant_id: u64, employee: Address, vested_amount: i128, returned_amount: i128 },
}

/// Something an invocation asks of the ledger, in the order it asks it.
#[derive(Debug, PartialEq, Eq)]
pub enum Action {
    /// The invocation is valid only if `0` authorized it.
    RequireAuth(Address),
    /// Move `amount` of `token` from `from` to `to`.
    Transfer { token: Address, from: Address, to: Address, amount: i128 },
    /// Publish an event.
    Publish(Event),
    /// Call `remove_schedule(org_id, employee, caller)` on the payroll
    /// contract at `contract`, ignoring its outcome.
    RemoveSchedule { contract: Address, org_id: u64, employee: Address, caller: Address },
}

/// The context of one contract invocation: the ledger time, the address of
/// the running contract, and the actions it has asked for so far.
#[derive(Debug)]
pub struct Env {
    pub timestamp: u64,
    pub current_contract: Address,
    pub actions: Vec<Action>,
}

impl Env {
    /// An invocation at ledger time `timestamp` of the contract at
    /// `current_contract`, with nothing asked for yet.
    pub fn new(timestamp: u64, current_contract: Address) -> (e: Env)
        ensures
            e.timestamp == timestamp,
            e.current_contract == current_contract,
            e.actions@ == Seq::<Action>::empty(),
    {
        Env { timestamp, current_contract, actions: Vec::new() }
    }

    /// `self` is `prev` with `added` asked for after what `prev` had asked.
    pub open spec fn extends(self, prev: Env, added: Seq<Action>) -> bool {
        &&& self.timestamp == prev.timestamp
        &&& self.current_contract == prev.current_contract
        &&& self.actions@ =~= prev.actions@ + added
    }

    /// Records that the invocation needs `who`'s authorization.
    pub fn require_auth(&mut self, who: &Address)
        ensures
            final(self).extends(*old(self), seq![Action::RequireAuth(*who)]),
    {
        self.actions.push(Action::RequireAuth(who.clone()));
    }

    /// Records a token transfer.
    pub fn transfer(&mut self, token: &Address, from: &Address, to: &Address, amount: i128)
        ensures
            final(self).extends(
                *old(self),
                seq![Action::Transfer { token: *token, from: *from, to: *to, amount }],
            ),
    {
        self.actions.push(
            Action::Transfer { token: token.clone(), from: from.clone(), to: to.clone(), amount },
        );
    }

    /// Records an event.
    pub fn publish(&mut self, event: Event)
        ensures
            final(self).extends(*old(self), seq![Action::Publish(event)]),
    {
        self.actions.push(Action::Publish(event));
    }

    /// Records a call of the payroll contract's `remove_schedule`.
    pub fn invoke_remove_schedule(
        &mut self,
        contract: &Address,
        org_id: u64,
        employee: &Address,
        caller: &Address,
    )
        ensures
            final(self).extends(
                *old(self),
                seq![
                    Action::RemoveSchedule {
                        contract: *contract,
                        org_id,
                        employee: *employee,
                        caller: *caller,
                    },
                ],
            ),
    {
        self.actions.push(
            Action::RemoveSchedule {
                contract: contract.clone(),
                org_id,
                employee: employee.clone(),
                caller: caller.clone(),
            },
        );
    }

    /// Whether every authorization asked for so far is among `signers`.
    pub fn authorized_by(&self, signers: &Vec<Address>) -> (r: bool)
        ensures
            r == (forall|i: int|
                0 <= i < self.actions@.len() ==> (#[trigger] self.actions@[i] matches Action::RequireAuth(a)
                    ==> address_in(signers@, a@))),
    {
        let mut i: usize = 0;
        while i < self.actions.len()
            invariant
                i <= self.actions@.len(),
                forall|k: int|
                    0 <= k < i ==> (#[trigger] self.actions@[k] matches Action::RequireAuth(a)
                        ==> address_in(signers@, a@)),
            decreases self.actions@.len() - i,
        {
            match &self.actions[i] {
                Action::RequireAuth(a) => {
                    if find_address(signers, a).is_none() {
                        return false;
                    }
                },
                _ => {},
            }
            i = i + 1;
        }
        true
    }
}

/// Whether `a` is one of `list`, compared by address.
pub open spec fn address_in(list: Seq<Address>, a: Seq<char>) -> bool {
    exists|i: int| 0 <= i < list.len() && (#[trigger] list[i])@ == a
}

/// Whether no address occurs twice in `list`.
pub open spec fn distinct_addresses(list: Seq<Address>) -> bool {
    forall|i: int, j: int|
        0 <= i < list.len() && 0 <= j < list.len() && (#[trigger] list[i])@ == (#[trigger] list[j])@
            ==> i == j
}

/// The position of `a` in `list`, searching from the front.
pub fn find_address(list: &Vec<Address>, a: &Address) -> (r: Option<usize>)
    ensures
        match r {
            Some(i) => i < list@.len() && list@[i as int]@ == a@ && forall|k: int|
                0 <= k < i ==> (#[trigger] list@[k])@ != a@,
            None => !address_in(list@, a@),
        },
{
    let mut i: usize = 0;
    while i < list.len()
        invariant
            i <= list@.len(),
            forall|k: int| 0 <= k < i ==> (#[trigger] list@[k])@ != a@,
        decreases list@.len() - i,
    {
        if list[i].same(a) {
            return Some(i);
        }
        i = i + 1;
    }
    None
}

/// Whether no address occurs twice in `list`.
pub fn addresses_distinct(list: &Vec<Address>) -> (r: bool)
    ensures
        r == distinct_addresses(list@),
{
    let mut i: usize = 0;
    while i < list.len()
        invariant
            i <= list@.len(),
            forall|x: int, y: int|
                0 <= x < i && 0 <= y < list@.len() && (#[trigger] list@[x])@ == (#[trigger] list@[y])@
                    ==> x == y,
        decreases list@.len() - i,
    {
        let mut j: usize = 0;
        while j < list.len()
            invariant
                i < list@.len(),
                j <= list@.len(),
                forall|x: int, y: int|
                    0 <= x < i && 0 <= y < list@.len() && (#[trigger] list@[x])@ == (
                    #[trigger] list@[y])@ ==> x == y,
                forall|y: int| 0 <= y < j && (#[trigger] list@[y])@ == list@[i as int]@ ==> y == i,
            decreases list@.len() - j,
        {
            if j != i && list[j].same(&list[i]) {
                return false;
            }
            j = j + 1;
        }
        i = i + 1;
    }
    true
}

} // verus!
