//! Recurring payroll: per-organization balances, employee payment schedules
//! with split destinations, and multi-signer approved payout batches.
use vstd::prelude::*;

use crate::host::{
    address_in, addresses_distinct, distinct_addresses, find_address, Action,
    Address, Env, Event,
};
use crate::keyed::{
    has_key, key_index, lemma_key_index, lemma_lookup_push, lemma_lookup_update, lemma_same_keys,
    lookup, unique_keys, Keyed,
};
use crate::org_registry::OrgRegistryInterface;
use crate::vesting::div_toward_zero;

verus! {

/// Split percentages are basis points and must sum to this value.
pub const BPS_DENOMINATOR: u32 = 10_000;

/// Per-organization payroll configuration.
#[derive(Clone, Copy, Debug, PartialEq, Eq, Structural)]
pub struct PayrollConfig {
    pub org_id: u64,
    pub usdc_balance: i128,
    pub approval_threshold: u32,
    pub current_batch_id: u64,
    pub created_at: u64,
}

/// How often a payment schedule pays out.
#[derive(Clone, Copy, Debug, PartialEq, Eq, Structural)]
pub enum PayFrequency {
    Weekly,
    Biweekly,
    Monthly,
}

impl PayFrequency {
    /// Length of one pay period in seconds.
    pub open spec fn spec_period_seconds(self) -> u64 {
        match self {
            PayFrequency::Weekly => 604_800,
            PayFrequency::Biweekly => 1_209_600,
            PayFrequency::Monthly => 2_592_000,
        }
    }

    /// Length of one pay period in seconds: 7, 14 or 30 days.
    pub fn period_seconds(&self) -> (r: u64)
        ensures
            r == self.spec_period_seconds(),
    {
        match self {
            PayFrequency::Weekly => 7 * 86_400,
            PayFrequency::Biweekly => 14 * 86_400,
            PayFrequency::Monthly => 30 * 86_400,
        }
    }
}

/// One destination of an employee's pay, in basis points of the amount.
#[derive(Debug, PartialEq, Eq)]
pub struct PaySplit {
    pub destination: Address,
    /// Basis points. 7000 = 70%.
    pub percentage: u32,
}

impl Clone for PaySplit {
    fn clone(&self) -> (r: Self)
        ensures
            r == *self,
    {
        PaySplit { destination: self.destination.clone(), percentage: self.percentage }
    }
}

/// An employee's payment schedule.
#[derive(Debug, PartialEq, Eq)]
pub struct PaymentSchedule {
    pub employee: Address,
    pub amount: i128,
    pub frequency: PayFrequency,
    pub next_payment_at: u64,
    pub splits: Vec<PaySplit>,
    pub active: bool,
    pub total_paid: i128,
    pub last_paid_at: u64,
}

impl Keyed for PaymentSchedule {
    type Key = Seq<char>;

    open spec fn key(&self) -> Seq<char> {
        self.employee@
    }
}

/// Approval tracking and contents of one payout batch.
#[derive(Debug, PartialEq, Eq)]
pub struct BatchApproval {
    pub batch_id: u64,
    pub total_amount: i128,
    pub employee_count: u32,
    pub approvals: Vec<Address>,
    pub executed: bool,
    pub created_at: u64,
    /// The employees eligible when the batch was prepared.
    pub employees: Vec<Address>,
}

#[derive(Clone, Copy, Debug, PartialEq, Eq, PartialOrd, Ord, Structural)]
pub enum PayrollError {
    OrgNotFound,
    ScheduleNotFound,
    BatchNotFound,
    NotAuthorized,
    InsufficientBalance,
    InvalidSplits,
    AlreadyExecuted,
    NoEligiblePayments,
    InsufficientApprovals,
}

/// The sum of the percentages of `splits`.
pub open spec fn percentage_sum(splits: Seq<PaySplit>) -> nat
    decreases splits.len(),
{
    if splits.len() == 0 {
        0
    } else {
        percentage_sum(splits.drop_last()) + splits.last().percentage as nat
    }
}

/// Splits that name at least one destination and share out exactly 100%.
pub open spec fn valid_splits(splits: Seq<PaySplit>) -> bool {
    splits.len() > 0 && percentage_sum(splits) == BPS_DENOMINATOR
}

/// The part of `amount` that a split of `percentage` basis points receives,
/// rounded toward zero.
pub open spec fn split_amount(amount: i128, percentage: u32) -> int {
    div_toward_zero(amount * percentage, BPS_DENOMINATOR as int)
}

proof fn lemma_percentage_sum_prefix(splits: Seq<PaySplit>, i: int)
    requires
        0 <= i <= splits.len(),
    ensures
        percentage_sum(splits.take(i)) <= percentage_sum(splits),
        percentage_sum(splits.take(i)) <= i * 0xffff_ffff,
    decreases splits.len() - i,
{
    lemma_percentage_sum_bound(splits.take(i));
    if i < splits.len() {
        lemma_percentage_sum_prefix(splits, i + 1);
        assert(splits.take(i + 1).drop_last() =~= splits.take(i));
    } else {
        assert(splits.take(i) =~= splits);
        lemma_percentage_sum_bound(splits);
    }
}

proof fn lemma_percentage_sum_bound(splits: Seq<PaySplit>)
    ensures
        percentage_sum(splits) <= splits.len() * 0xffff_ffff,
    decreases splits.len(),
{
    if splits.len() > 0 {
        lemma_percentage_sum_bound(splits.drop_last());
    }
}

/// The sum of the percentages of `splits`, without overflow.
pub fn percentage_total(splits: &Vec<PaySplit>) -> (t: u128)
    ensures
        t == percentage_sum(splits@),
{
    let mut total: u128 = 0;
    let mut i: usize = 0;
    while i < splits.len()
        invariant
            i <= splits@.len(),
            total == percentage_sum(splits@.take(i as int)),
        decreases splits@.len() - i,
    {
        proof {
            lemma_percentage_sum_prefix(splits@, i as int);
            assert(splits@.take(i + 1).drop_last() =~= splits@.take(i as int));
            assert(i * 0xffff_ffff <= 0xffff_ffff_ffff_ffff * 0xffff_ffff) by (nonlinear_arith)
                requires
                    i <= 0xffff_ffff_ffff_ffff,
            ;
        }
        total = total + splits[i].percentage as u128;
        i = i + 1;
    }
    assert(splits@.take(splits@.len() as int) =~= splits@);
    total
}

/// Checks that `splits` name a destination and share out exactly 100%.
pub fn validate_splits(splits: &Vec<PaySplit>) -> (r: Result<(), PayrollError>)
    ensures
        r == (if valid_splits(splits@) {
            Ok::<(), PayrollError>(())
        } else {
            Err(PayrollError::InvalidSplits)
        }),
{
    if splits.len() == 0 {
        return Err(PayrollError::InvalidSplits);
    }
    let total = percentage_total(splits);
    if total != BPS_DENOMINATOR as u128 {
        return Err(PayrollError::InvalidSplits);
    }
    Ok(())
}

/// A copy of a list of splits.
pub fn copy_splits(splits: &Vec<PaySplit>) -> (r: Vec<PaySplit>)
    ensures
        r@ == splits@,
{
    let mut out: Vec<PaySplit> = Vec::new();
    let mut i: usize = 0;
    while i < splits.len()
        invariant
            i <= splits@.len(),
            out@ == splits@.subrange(0, i as int),
        decreases splits@.len() - i,
    {
        out.push(splits[i].clone());
        i = i + 1;
        assert(out@ =~= splits@.subrange(0, i as int));
    }
    assert(out@ =~= splits@);
    out
}

/// The position of the schedule of `employee` in `schedules`.
fn find_schedule(schedules: &Vec<PaymentSchedule>, employee: &Address) -> (r: Option<usize>)
    requires
        unique_keys(schedules@),
    ensures
        match r {
            Some(j) => {
                &&& j < schedules@.len()
                &&& schedules@[j as int].key() == employee@
                &&& lookup(schedules@, employee@) == Some(schedules@[j as int])
            },
            None => !has_key(schedules@, employee@) && lookup(schedules@, employee@) is None,
        },
{
    let mut j: usize = 0;
    while j < schedules.len()
        invariant
            j <= schedules@.len(),
            unique_keys(schedules@),
            forall|k: int| 0 <= k < j ==> (#[trigger] schedules@[k]).key() != employee@,
        decreases schedules@.len() - j,
    {
        if schedules[j].employee.same(employee) {
            proof {
                lemma_key_index(schedules@, j as int);
            }
            return Some(j);
        }
        j = j + 1;
    }
    None
}

/// `s` after a payment at `now`: the amount counts as paid and the next
/// payment falls one period after `now`.
pub open spec fn paid_schedule(s: PaymentSchedule, now: u64) -> PaymentSchedule {
    PaymentSchedule {
        total_paid: (s.total_paid + s.amount) as i128,
        last_paid_at: now,
        next_payment_at: (now + s.frequency.spec_period_seconds()) as u64,
        ..s
    }
}

/// The share of split `j` of `splits` in `amount`: its percentage of the
/// amount rounded toward zero, except that the last split takes what the
/// others leave, so that the shares add up to the amount.
pub open spec fn split_share(amount: i128, splits: Seq<PaySplit>, j: int) -> int {
    if j == splits.len() - 1 {
        amount - split_sum(amount, splits.take(j))
    } else {
        split_amount(amount, splits[j].percentage)
    }
}

/// The transfers that pay the shares of the first `k` splits of `splits`
/// in `amount` out of `from`, skipping the shares that come to nothing.
pub open spec fn split_transfers_upto(
    token: Address,
    from: Address,
    amount: i128,
    splits: Seq<PaySplit>,
    k: int,
) -> Seq<Action>
    decreases k,
{
    if k <= 0 {
        Seq::empty()
    } else {
        split_transfers_upto(token, from, amount, splits, k - 1) + if split_share(
            amount,
            splits,
            k - 1,
        ) > 0 {
            seq![
                Action::Transfer {
                    token,
                    from,
                    to: splits[k - 1].destination,
                    amount: split_share(amount, splits, k - 1) as i128,
                },
            ]
        } else {
            Seq::empty()
        }
    }
}

/// The transfers that pay `amount` out of `from` across `splits`.
pub open spec fn split_transfers(
    token: Address,
    from: Address,
    amount: i128,
    splits: Seq<PaySplit>,
) -> Seq<Action> {
    split_transfers_upto(token, from, amount, splits, splits.len() as int)
}

/// What paying the first `n` employees of `emps` at `now` asks for: for
/// each one whose schedule is active and due, the split transfers and an
/// `EmployeePaid` event.
pub open spec fn payout_actions(
    schedules: Seq<PaymentSchedule>,
    emps: Seq<Address>,
    n: int,
    now: u64,
    org_id: u64,
    token: Address,
    from: Address,
) -> Seq<Action>
    decreases n,
{
    if n <= 0 {
        Seq::empty()
    } else {
        payout_actions(schedules, emps, n - 1, now, org_id, token, from) + if is_due(
            schedules,
            emps[n - 1],
            now,
        ) {
            let s = lookup(schedules, emps[n - 1]@)->0;
            split_transfers(token, from, s.amount, s.splits@) + seq![
                Action::Publish(
                    Event::EmployeePaid { org_id, employee: emps[n - 1], amount: s.amount },
                ),
            ]
        } else {
            Seq::empty()
        }
    }
}

/// Paying `s` at `now` stays within the machine's integer types.
pub open spec fn schedule_in_range(s: PaymentSchedule, now: u64) -> bool {
    &&& fits_i128(s.total_paid + s.amount)
    &&& now + s.frequency.spec_period_seconds() <= u64::MAX
    &&& forall|j: int| 0 <= j < s.splits@.len() ==> fits_i128(s.amount * (#[trigger] s.splits@[j]).percentage)
}

/// What paying out `emps` at `now` costs: the amounts of their schedules
/// that are active and due.
pub open spec fn payout_total(schedules: Seq<PaymentSchedule>, emps: Seq<Address>, now: u64) -> int {
    due_total(schedules, emps, now, emps.len() as int)
}

/// Adding up what paying out `emps` at `now` costs stays within `i128`.
pub open spec fn payout_sum_in_range(
    schedules: Seq<PaymentSchedule>,
    emps: Seq<Address>,
    now: u64,
) -> bool {
    forall|n: int| 0 <= n <= emps.len() ==> fits_i128(#[trigger] due_total(schedules, emps, now, n))
}

/// Paying out `emps` at `now` from `balance` stays within the machine's
/// integer types.
pub open spec fn payout_in_range(
    schedules: Seq<PaymentSchedule>,
    emps: Seq<Address>,
    now: u64,
    balance: i128,
) -> bool {
    &&& forall|i: int|
        0 <= i < emps.len() && is_due(schedules, #[trigger] emps[i], now) ==> schedule_in_range(
            lookup(schedules, emps[i]@)->0,
            now,
        )
    &&& fits_i128(balance - payout_total(schedules, emps, now))
}

/// Pays `amount` out of `from` across `splits`.
fn transfer_splits(env: &mut Env, token: &Address, from: &Address, amount: i128, splits: &Vec<PaySplit>)
    requires
        valid_splits(splits@),
        forall|j: int| 0 <= j < splits@.len() ==> fits_i128(amount * (#[trigger] splits@[j]).percentage),
    ensures
        final(env).extends(*old(env), split_transfers(*token, *from, amount, splits@)),
{
    let n = splits.len();
    let mut paid: i128 = 0;
    let mut k: usize = 0;
    while k < n
        invariant
            n == splits@.len(),
            k <= n,
            valid_splits(splits@),
            forall|j: int| 0 <= j < splits@.len() ==> fits_i128(amount * (#[trigger] splits@[j]).percentage),
            k < n ==> paid == split_sum(amount, splits@.take(k as int)),
            env.extends(*old(env), split_transfers_upto(*token, *from, amount, splits@, k as int)),
        decreases n - k,
    {
        let sp = &splits[k];
        proof {
            assert(fits_i128(amount * splits@[k as int].percentage));
            lemma_split_sum_within(amount, splits@, k as int);
            lemma_split_sum_within(amount, splits@, k + 1);
            assert(splits@.take(k + 1).drop_last() =~= splits@.take(k as int));
            assert(splits@.take(k + 1).last() == splits@[k as int]);
        }
        let part: i128 = if k + 1 == n {
            amount - paid
        } else {
            amount * (sp.percentage as i128) / (BPS_DENOMINATOR as i128)
        };
        proof {
            assert(part == split_share(amount, splits@, k as int));
        }
        if part > 0 {
            env.transfer(token, from, &sp.destination, part);
        }
        if k + 1 < n {
            paid = paid + part;
        }
        proof {
            assert(env.actions@ =~= old(env).actions@ + split_transfers_upto(
                *token,
                *from,
                amount,
                splits@,
                k + 1,
            ));
        }
        k = k + 1;
    }
}

/// `nb` is batch `bt` with the approvals `approvals` and the executed flag
/// `executed`, and otherwise unchanged.
pub open spec fn approved_batch(
    nb: BatchApproval,
    bt: BatchApproval,
    approvals: Seq<Address>,
    executed: bool,
) -> bool {
    &&& nb.batch_id == bt.batch_id
    &&& nb.total_amount == bt.total_amount
    &&& nb.employee_count == bt.employee_count
    &&& nb.approvals@ == approvals
    &&& nb.executed == executed
    &&& nb.created_at == bt.created_at
    &&& nb.employees == bt.employees
}

/// The approvals of `bt` once `signer` has approved it.
pub open spec fn approvals_with(bt: BatchApproval, signer: Address) -> Seq<Address> {
    if address_in(bt.approvals@, signer@) {
        bt.approvals@
    } else {
        bt.approvals@.push(signer)
    }
}

/// The records the payroll contract keeps for one organization.
pub struct OrgPayroll {
    pub org_id: u64,
    pub config: Option<PayrollConfig>,
    pub schedules: Vec<PaymentSchedule>,
    /// The employees whose schedules the payroll scans, in order.
    pub schedule_list: Vec<Address>,
    /// The batches; batch `k` at position `k - 1`.
    pub batches: Vec<BatchApproval>,
}

impl Keyed for OrgPayroll {
    type Key = u64;

    open spec fn key(&self) -> u64 {
        self.org_id
    }
}

/// The id of the last batch prepared under `config`.
pub open spec fn last_batch_id(config: Option<PayrollConfig>) -> u64 {
    match config {
        Some(c) => c.current_batch_id,
        None => 0,
    }
}

impl OrgPayroll {
    /// The records are consistent: schedules and list entries unique, every
    /// listed or batched employee scheduled, every split list valid, and
    /// the batches numbered 1, 2, ... up to the configuration's last id.
    pub closed spec fn wf(self) -> bool {
        &&& self.config matches Some(c) ==> c.org_id == self.org_id
        &&& unique_keys(self.schedules@)
        &&& forall|i: int|
            0 <= i < self.schedules@.len() ==> valid_splits((#[trigger] self.schedules@[i]).splits@)
        &&& distinct_addresses(self.schedule_list@)
        &&& forall|i: int|
            0 <= i < self.schedule_list@.len() ==> has_key(
                self.schedules@,
                (#[trigger] self.schedule_list@[i])@,
            )
        &&& self.batches@.len() == last_batch_id(self.config)
        &&& forall|i: int|
            0 <= i < self.batches@.len() ==> {
                let b = #[trigger] self.batches@[i];
                &&& b.batch_id == i + 1
                &&& b.employees@.len() <= u32::MAX
                &&& b.employee_count == b.employees@.len()
                &&& distinct_addresses(b.employees@)
                &&& forall|j: int|
                    0 <= j < b.employees@.len() ==> has_key(
                        self.schedules@,
                        (#[trigger] b.employees@[j])@,
                    )
            }
    }
}

impl OrgPayroll {
    /// A book whose schedules keep every key and stay valid, and whose list
    /// stays distinct and scheduled, is well-formed.
    proof fn lemma_schedules_changed(ob: OrgPayroll, nb: OrgPayroll)
        requires
            ob.wf(),
            nb.org_id == ob.org_id,
            nb.config == ob.config,
            nb.batches@ == ob.batches@,
            unique_keys(nb.schedules@),
            forall|k: Seq<char>| has_key(ob.schedules@, k) ==> #[trigger] has_key(nb.schedules@, k),
            forall|i: int|
                0 <= i < nb.schedules@.len() ==> valid_splits((#[trigger] nb.schedules@[i]).splits@),
            distinct_addresses(nb.schedule_list@),
            forall|i: int|
                0 <= i < nb.schedule_list@.len() ==> has_key(
                    nb.schedules@,
                    (#[trigger] nb.schedule_list@[i])@,
                ),
        ensures
            nb.wf(),
    {
        assert forall|i: int| 0 <= i < nb.batches@.len() implies {
            let bt = #[trigger] nb.batches@[i];
            &&& bt.batch_id == i + 1
            &&& bt.employees@.len() <= u32::MAX
            &&& bt.employee_count == bt.employees@.len()
            &&& distinct_addresses(bt.employees@)
            &&& forall|j: int|
                0 <= j < bt.employees@.len() ==> has_key(
                    nb.schedules@,
                    (#[trigger] bt.employees@[j])@,
                )
        } by {
            let bt = nb.batches@[i];
            assert(bt == ob.batches@[i]);
            assert forall|j: int| 0 <= j < bt.employees@.len() implies has_key(
                nb.schedules@,
                (#[trigger] bt.employees@[j])@,
            ) by {
                assert(has_key(ob.schedules@, bt.employees@[j]@));
            }
        }
    }

    /// Replacing the schedule at `j` by one of the same employee with valid
    /// splits keeps the book well-formed.
    proof fn lemma_schedule_replaced(ob: OrgPayroll, nb: OrgPayroll, j: int, x: PaymentSchedule)
        requires
            ob.wf(),
            0 <= j < ob.schedules@.len(),
            x.key() == ob.schedules@[j].key(),
            valid_splits(x.splits@),
            nb.org_id == ob.org_id,
            nb.config == ob.config,
            nb.batches@ == ob.batches@,
            nb.schedule_list@ == ob.schedule_list@,
            nb.schedules@ == ob.schedules@.update(j, x),
        ensures
            nb.wf(),
            forall|k: Seq<char>|
                #![trigger lookup(nb.schedules@, k)]
                lookup(nb.schedules@, k) == if k == x.key() {
                    Some(x)
                } else {
                    lookup(ob.schedules@, k)
                },
    {
        lemma_lookup_update(ob.schedules@, j, x);
        assert forall|k: Seq<char>| has_key(ob.schedules@, k) implies #[trigger] has_key(
            nb.schedules@,
            k,
        ) by {
            assert(lookup(nb.schedules@, k) is Some);
        }
        assert forall|i: int| 0 <= i < nb.schedules@.len() implies valid_splits(
            (#[trigger] nb.schedules@[i]).splits@,
        ) by {
            if i != j {
                assert(nb.schedules@[i] == ob.schedules@[i]);
            }
        }
        assert forall|i: int| 0 <= i < nb.schedule_list@.len() implies has_key(
            nb.schedules@,
            (#[trigger] nb.schedule_list@[i])@,
        ) by {
            assert(has_key(ob.schedules@, nb.schedule_list@[i]@));
        }
        Self::lemma_schedules_changed(ob, nb);
    }

    /// A book whose schedules, batches and configuration change only in
    /// what payouts and approvals change stays well-formed.
    proof fn lemma_same_shape(ob: OrgPayroll, nb: OrgPayroll)
        requires
            ob.wf(),
            nb.org_id == ob.org_id,
            nb.config matches Some(c) && c.org_id == ob.org_id && c.current_batch_id
                == last_batch_id(ob.config),
            nb.schedule_list@ == ob.schedule_list@,
            nb.schedules@.len() == ob.schedules@.len(),
            forall|i: int|
                0 <= i < ob.schedules@.len() ==> {
                    &&& (#[trigger] nb.schedules@[i]).employee == ob.schedules@[i].employee
                    &&& nb.schedules@[i].splits == ob.schedules@[i].splits
                },
            nb.batches@.len() == ob.batches@.len(),
            forall|i: int|
                0 <= i < ob.batches@.len() ==> {
                    &&& (#[trigger] nb.batches@[i]).batch_id == ob.batches@[i].batch_id
                    &&& nb.batches@[i].employees == ob.batches@[i].employees
                    &&& nb.batches@[i].employee_count == ob.batches@[i].employee_count
                },
        ensures
            nb.wf(),
            forall|k: Seq<char>| #[trigger] has_key(nb.schedules@, k) == has_key(ob.schedules@, k),
    {
        lemma_same_keys(ob.schedules@, nb.schedules@);
        assert forall|i: int| 0 <= i < nb.schedules@.len() implies valid_splits(
            (#[trigger] nb.schedules@[i]).splits@,
        ) by {
            assert(valid_splits(ob.schedules@[i].splits@));
        }
        assert forall|i: int| 0 <= i < nb.schedule_list@.len() implies has_key(
            nb.schedules@,
            (#[trigger] nb.schedule_list@[i])@,
        ) by {
            assert(has_key(ob.schedules@, ob.schedule_list@[i]@));
        }
        assert forall|i: int| 0 <= i < nb.batches@.len() implies {
            let bt = #[trigger] nb.batches@[i];
            &&& bt.batch_id == i + 1
            &&& bt.employees@.len() <= u32::MAX
            &&& bt.employee_count == bt.employees@.len()
            &&& distinct_addresses(bt.employees@)
            &&& forall|j: int|
                0 <= j < bt.employees@.len() ==> has_key(
                    nb.schedules@,
                    (#[trigger] bt.employees@[j])@,
                )
        } by {
            let bt = nb.batches@[i];
            let obt = ob.batches@[i];
            assert(obt.employee_count == obt.employees@.len());
            assert forall|j: int| 0 <= j < bt.employees@.len() implies has_key(
                nb.schedules@,
                (#[trigger] bt.employees@[j])@,
            ) by {
                assert(has_key(ob.schedules@, obt.employees@[j]@));
            }
        }
    }
}

/// Whether the schedule of `a` in `schedules` is active and due at `now`.
pub open spec fn is_due(schedules: Seq<PaymentSchedule>, a: Address, now: u64) -> bool {
    match lookup(schedules, a@) {
        Some(s) => s.active && s.next_payment_at <= now,
        None => false,
    }
}

/// The employees of `list` whose schedules are due at `now`, in list order.
pub open spec fn due_employees(schedules: Seq<PaymentSchedule>, list: Seq<Address>, now: u64) -> Seq<
    Address,
> {
    list.filter(|a: Address| is_due(schedules, a, now))
}

/// What the due schedules among the first `n` employees of `list` pay.
pub open spec fn due_total(
    schedules: Seq<PaymentSchedule>,
    list: Seq<Address>,
    now: u64,
    n: int,
) -> int
    decreases n,
{
    if n <= 0 {
        0
    } else {
        due_total(schedules, list, now, n - 1) + if is_due(schedules, list[n - 1], now) {
            lookup(schedules, list[n - 1]@)->0.amount as int
        } else {
            0
        }
    }
}

/// Whether `a` has an active schedule in `schedules`.
pub open spec fn pays(schedules: Seq<PaymentSchedule>, a: Address) -> bool {
    match lookup(schedules, a@) {
        Some(s) => s.active,
        None => false,
    }
}

/// What the active schedules among the first `n` employees of `list` pay
/// per cycle.
pub open spec fn active_total(schedules: Seq<PaymentSchedule>, list: Seq<Address>, n: int) -> int
    decreases n,
{
    if n <= 0 {
        0
    } else {
        active_total(schedules, list, n - 1) + if pays(schedules, list[n - 1]) {
            lookup(schedules, list[n - 1]@)->0.amount as int
        } else {
            0
        }
    }
}

/// The value fits in an `i128`.
pub open spec fn fits_i128(x: int) -> bool {
    i128::MIN <= x <= i128::MAX
}

/// The batch a successful `prepare_batch` stores.
pub open spec fn prepared_batch(
    nb: BatchApproval,
    batch_id: u64,
    total: int,
    employees: Seq<Address>,
    now: u64,
) -> bool {
    &&& nb.batch_id == batch_id
    &&& nb.total_amount == total
    &&& nb.employee_count == employees.len()
    &&& nb.approvals@ == Seq::<Address>::empty()
    &&& !nb.executed
    &&& nb.created_at == now
    &&& nb.employees@ == employees
}

/// Whether no employee has two schedules in `schedules`.
pub fn schedules_unique(schedules: &Vec<PaymentSchedule>) -> (r: bool)
    ensures
        r == unique_keys(schedules@),
{
    let mut i: usize = 0;
    while i < schedules.len()
        invariant
            i <= schedules@.len(),
            forall|x: int, y: int|
                0 <= x < i && 0 <= y < schedules@.len() && (#[trigger] schedules@[x]).key() == (
                #[trigger] schedules@[y]).key() ==> x == y,
        decreases schedules@.len() - i,
    {
        let mut j: usize = 0;
        while j < schedules.len()
            invariant
                i < schedules@.len(),
                j <= schedules@.len(),
                forall|x: int, y: int|
                    0 <= x < i && 0 <= y < schedules@.len() && (#[trigger] schedules@[x]).key() == (
                    #[trigger] schedules@[y]).key() ==> x == y,
                forall|y: int|
                    0 <= y < j && (#[trigger] schedules@[y]).key() == schedules@[i as int].key()
                        ==> y == i,
            decreases schedules@.len() - j,
        {
            if j != i && schedules[j].employee.same(&schedules[i].employee) {
                return false;
            }
            j = j + 1;
        }
        i = i + 1;
    }
    true
}

impl OrgPayroll {
    /// Whether these records are consistent.
    pub fn check(&self) -> (r: bool)
        ensures
            r == self.wf(),
    {
        if let Some(c) = &self.config {
            if c.org_id != self.org_id {
                return false;
            }
        }
        if !schedules_unique(&self.schedules) {
            return false;
        }
        let mut i: usize = 0;
        while i < self.schedules.len()
            invariant
                i <= self.schedules@.len(),
                forall|k: int|
                    0 <= k < i ==> valid_splits((#[trigger] self.schedules@[k]).splits@),
            decreases self.schedules@.len() - i,
        {
            let splits = &self.schedules[i].splits;
            if splits.len() == 0 || percentage_total(splits) != BPS_DENOMINATOR as u128 {
                return false;
            }
            i = i + 1;
        }
        if !addresses_distinct(&self.schedule_list) {
            return false;
        }
        let mut i: usize = 0;
        while i < self.schedule_list.len()
            invariant
                i <= self.schedule_list@.len(),
                unique_keys(self.schedules@),
                forall|k: int|
                    0 <= k < i ==> has_key(self.schedules@, (#[trigger] self.schedule_list@[k])@),
            decreases self.schedule_list@.len() - i,
        {
            if find_schedule(&self.schedules, &self.schedule_list[i]).is_none() {
                return false;
            }
            i = i + 1;
        }
        let last = match &self.config {
            Some(c) => c.current_batch_id,
            None => 0,
        };
        if self.batches.len() as u64 != last {
            return false;
        }
        let mut i: usize = 0;
        while i < self.batches.len()
            invariant
                i <= self.batches@.len(),
                unique_keys(self.schedules@),
                forall|k: int|
                    0 <= k < i ==> {
                        let b = #[trigger] self.batches@[k];
                        &&& b.batch_id == k + 1
                        &&& b.employees@.len() <= u32::MAX
                        &&& b.employee_count == b.employees@.len()
                        &&& distinct_addresses(b.employees@)
                        &&& forall|j: int|
                            0 <= j < b.employees@.len() ==> has_key(
                                self.schedules@,
                                (#[trigger] b.employees@[j])@,
                            )
                    },
            decreases self.batches@.len() - i,
        {
            let b = &self.batches[i];
            if b.batch_id != i as u64 + 1 || b.employees.len() as u64 > u32::MAX as u64
                || b.employee_count as u64 != b.employees.len() as u64
                || !addresses_distinct(&b.employees) {
                return false;
            }
            let mut j: usize = 0;
            while j < b.employees.len()
                invariant
                    i < self.batches@.len(),
                    *b == self.batches@[i as int],
                    j <= b.employees@.len(),
                    unique_keys(self.schedules@),
                    forall|m: int|
                        0 <= m < j ==> has_key(self.schedules@, (#[trigger] b.employees@[m])@),
                decreases b.employees@.len() - j,
            {
                if find_schedule(&self.schedules, &b.employees[j]).is_none() {
                    proof {
                        let bt = self.batches@[i as int];
                        assert(!has_key(self.schedules@, bt.employees@[j as int]@));
                    }
                    return false;
                }
                j = j + 1;
            }
            i = i + 1;
        }
        true
    }
}


/// Whether paying `s` at `now` stays within the machine's integer types.
pub fn schedule_fits(s: &PaymentSchedule, now: u64) -> (r: bool)
    ensures
        r == schedule_in_range(*s, now),
{
    if s.total_paid.checked_add(s.amount).is_none() {
        return false;
    }
    if now.checked_add(s.frequency.period_seconds()).is_none() {
        return false;
    }
    let mut j: usize = 0;
    while j < s.splits.len()
        invariant
            j <= s.splits@.len(),
            forall|k: int| 0 <= k < j ==> fits_i128(s.amount * (#[trigger] s.splits@[k]).percentage),
        decreases s.splits@.len() - j,
    {
        if s.amount.checked_mul(s.splits[j].percentage as i128).is_none() {
            proof {
                assert(!fits_i128(s.amount * s.splits@[j as int].percentage));
            }
            return false;
        }
        j = j + 1;
    }
    true
}

/// What the schedules of `list` that are active and due at `now` pay, if
/// adding it up stays within `i128`.
fn sum_due(schedules: &Vec<PaymentSchedule>, list: &Vec<Address>, now: u64) -> (r: Option<i128>)
    requires
        unique_keys(schedules@),
    ensures
        r is Some <==> forall|n: int|
            0 <= n <= list@.len() ==> fits_i128(#[trigger] due_total(schedules@, list@, now, n)),
        r matches Some(t) ==> t == due_total(schedules@, list@, now, list@.len() as int),
{
    let ghost sch = schedules@;
    let ghost l = list@;
    let mut total: i128 = 0;
    let mut i: usize = 0;
    while i < list.len()
        invariant
            sch == schedules@,
            l == list@,
            unique_keys(sch),
            i <= l.len(),
            total == due_total(sch, l, now, i as int),
            forall|n: int| 0 <= n <= i ==> fits_i128(#[trigger] due_total(sch, l, now, n)),
        decreases l.len() - i,
    {
        match find_schedule(schedules, &list[i]) {
            Some(j) => {
                let s = &schedules[j];
                if s.active && s.next_payment_at <= now {
                    match total.checked_add(s.amount) {
                        Some(t) => {
                            total = t;
                        },
                        None => {
                            proof {
                                assert(!fits_i128(due_total(sch, l, now, i + 1)));
                            }
                            return None;
                        },
                    }
                }
            },
            None => {},
        }
        proof {
            assert(fits_i128(due_total(sch, l, now, i + 1)));
        }
        i = i + 1;
    }
    Some(total)
}

impl OrgPayroll {
    /// Whether paying out the batch at `bi` at `now` from `balance` stays
    /// within the machine's integer types, once adding up its cost does.
    fn payout_fits(&self, bi: usize, now: u64, balance: i128) -> (r: bool)
        requires
            self.wf(),
            bi < self.batches@.len(),
            payout_sum_in_range(self.schedules@, self.batches@[bi as int].employees@, now),
        ensures
            r == payout_in_range(self.schedules@, self.batches@[bi as int].employees@, now, balance),
    {
        let ghost sch = self.schedules@;
        let ghost emps = self.batches@[bi as int].employees@;
        let emps_exec = &self.batches[bi].employees;
        let mut i: usize = 0;
        while i < emps_exec.len()
            invariant
                sch == self.schedules@,
                emps == emps_exec@,
                bi < self.batches@.len(),
                emps == self.batches@[bi as int].employees@,
                unique_keys(sch),
                i <= emps.len(),
                forall|k: int|
                    0 <= k < i && is_due(sch, #[trigger] emps[k], now) ==> schedule_in_range(
                        lookup(sch, emps[k]@)->0,
                        now,
                    ),
            decreases emps.len() - i,
        {
            match find_schedule(&self.schedules, &emps_exec[i]) {
                Some(j) => {
                    let s = &self.schedules[j];
                    if s.active && s.next_payment_at <= now && !schedule_fits(s, now) {
                        proof {
                            assert(is_due(sch, emps[i as int], now));
                        }
                        return false;
                    }
                },
                None => {},
            }
            i = i + 1;
        }
        let total = sum_due(&self.schedules, emps_exec, now).unwrap();
        balance.checked_sub(total).is_some()
    }

    /// Whether computing the batch of what is due at `now` stays within the
    /// machine's integer types.
    fn due_fits(&self, now: u64) -> (r: bool)
        requires
            self.wf(),
        ensures
            r == forall|n: int|
                0 <= n <= self.schedule_list@.len() ==> fits_i128(
                    #[trigger] due_total(self.schedules@, self.schedule_list@, now, n),
                ),
    {
        let ghost sch = self.schedules@;
        let ghost list = self.schedule_list@;
        let mut total: i128 = 0;
        let mut i: usize = 0;
        while i < self.schedule_list.len()
            invariant
                sch == self.schedules@,
                list == self.schedule_list@,
                unique_keys(sch),
                i <= list.len(),
                total == due_total(sch, list, now, i as int),
                forall|n: int| 0 <= n <= i ==> fits_i128(#[trigger] due_total(sch, list, now, n)),
            decreases list.len() - i,
        {
            match find_schedule(&self.schedules, &self.schedule_list[i]) {
                Some(j) => {
                    let s = &self.schedules[j];
                    if s.active && s.next_payment_at <= now {
                        match total.checked_add(s.amount) {
                            Some(t) => {
                                total = t;
                            },
                            None => {
                                proof {
                                    assert(!fits_i128(due_total(sch, list, now, i + 1)));
                                }
                                return false;
                            },
                        }
                    }
                },
                None => {},
            }
            proof {
                assert(fits_i128(due_total(sch, list, now, i + 1)));
            }
            i = i + 1;
        }
        true
    }

    /// How many employees on the payroll list are due at `now`.
    fn due_count(&self, now: u64) -> (r: usize)
        requires
            self.wf(),
        ensures
            r == due_employees(self.schedules@, self.schedule_list@, now).len(),
    {
        let ghost sch = self.schedules@;
        let ghost list = self.schedule_list@;
        let ghost pred = |a: Address| is_due(sch, a, now);
        let mut count: usize = 0;
        let mut i: usize = 0;
        while i < self.schedule_list.len()
            invariant
                sch == self.schedules@,
                list == self.schedule_list@,
                unique_keys(sch),
                pred == (|a: Address| is_due(sch, a, now)),
                i <= list.len(),
                count <= i,
                count == list.take(i as int).filter(pred).len(),
            decreases list.len() - i,
        {
            let due = match find_schedule(&self.schedules, &self.schedule_list[i]) {
                Some(j) => {
                    let s = &self.schedules[j];
                    s.active && s.next_payment_at <= now
                },
                None => false,
            };
            proof {
                reveal_with_fuel(Seq::<_>::filter, 1);
                let next = list.take(i + 1);
                assert(next.drop_last() =~= list.take(i as int));
                assert(next.last() == list[i as int]);
                assert(due == pred(list[i as int]));
            }
            if due {
                count = count + 1;
            }
            i = i + 1;
        }
        proof {
            assert(list.take(list.len() as int) =~= list);
        }
        count
    }

    /// Whether summing what the listed active schedules owe per cycle stays
    /// within the machine's integer types.
    fn obligation_fits(&self) -> (r: bool)
        requires
            self.wf(),
        ensures
            r == forall|n: int|
                0 <= n <= self.schedule_list@.len() ==> fits_i128(
                    #[trigger] active_total(self.schedules@, self.schedule_list@, n),
                ),
    {
        let ghost sch = self.schedules@;
        let ghost list = self.schedule_list@;
        let mut total: i128 = 0;
        let mut i: usize = 0;
        while i < self.schedule_list.len()
            invariant
                sch == self.schedules@,
                list == self.schedule_list@,
                unique_keys(sch),
                i <= list.len(),
                total == active_total(sch, list, i as int),
                forall|n: int| 0 <= n <= i ==> fits_i128(#[trigger] active_total(sch, list, n)),
            decreases list.len() - i,
        {
            match find_schedule(&self.schedules, &self.schedule_list[i]) {
                Some(j) => {
                    let s = &self.schedules[j];
                    if s.active {
                        match total.checked_add(s.amount) {
                            Some(t) => {
                                total = t;
                            },
                            None => {
                                proof {
                                    assert(!fits_i128(active_total(sch, list, i + 1)));
                                }
                                return false;
                            },
                        }
                    }
                },
                None => {},
            }
            proof {
                assert(fits_i128(active_total(sch, list, i + 1)));
            }
            i = i + 1;
        }
        true
    }
}

/// The payroll contract's state: what it keeps for each organization.
pub struct PayrollContract {
    org_registry: Address,
    token: Address,
    books: Vec<OrgPayroll>,
}

/// The configuration used when an organization has none stored yet.
pub open spec fn default_config(org_id: u64, now: u64) -> PayrollConfig {
    PayrollConfig {
        org_id,
        usdc_balance: 0,
        approval_threshold: 1,
        current_batch_id: 0,
        created_at: now,
    }
}

impl PayrollContract {
    pub closed spec fn wf(self) -> bool {
        &&& unique_keys(self.books@)
        &&& forall|i: int| 0 <= i < self.books@.len() ==> (#[trigger] self.books@[i]).wf()
    }

    /// The organization registry this contract asks about admins and signers.
    pub closed spec fn registry(self) -> Address {
        self.org_registry
    }

    /// The token that payroll is funded and paid in.
    pub closed spec fn token_address(self) -> Address {
        self.token
    }

    /// The configuration stored for `org_id`, if any.
    pub closed spec fn stored_config(self, org_id: u64) -> Option<PayrollConfig> {
        match lookup(self.books@, org_id) {
            Some(b) => b.config,
            None => None,
        }
    }

    /// The payment schedules stored for `org_id`.
    pub closed spec fn schedules(self, org_id: u64) -> Seq<PaymentSchedule> {
        match lookup(self.books@, org_id) {
            Some(b) => b.schedules@,
            None => Seq::empty(),
        }
    }

    /// The employees of `org_id` whose schedules the payroll scans, in order.
    pub closed spec fn schedule_list(self, org_id: u64) -> Seq<Address> {
        match lookup(self.books@, org_id) {
            Some(b) => b.schedule_list@,
            None => Seq::empty(),
        }
    }

    /// The batches of `org_id`; batch `k` is at position `k - 1`.
    pub closed spec fn batches(self, org_id: u64) -> Seq<BatchApproval> {
        match lookup(self.books@, org_id) {
            Some(b) => b.batches@,
            None => Seq::empty(),
        }
    }

    /// The configuration of `org_id` as read at time `now`.
    pub open spec fn config(self, org_id: u64, now: u64) -> PayrollConfig {
        match self.stored_config(org_id) {
            Some(c) => c,
            None => default_config(org_id, now),
        }
    }

    /// The funded balance of `org_id`.
    pub open spec fn balance(self, org_id: u64) -> i128 {
        self.config(org_id, 0).usdc_balance
    }

    /// The schedule of `employee` in `org_id`, if any.
    pub open spec fn schedule(self, org_id: u64, employee: Seq<char>) -> Option<PaymentSchedule> {
        lookup(self.schedules(org_id), employee)
    }

    /// Batch `batch_id` of `org_id`, if any.
    pub open spec fn batch(self, org_id: u64, batch_id: u64) -> Option<BatchApproval> {
        if 1 <= batch_id <= self.batches(org_id).len() {
            Some(self.batches(org_id)[batch_id - 1])
        } else {
            None
        }
    }

    /// `self` and `other` hold the same records for `org_id`.
    pub open spec fn agrees_on(self, other: Self, org_id: u64) -> bool {
        &&& self.stored_config(org_id) == other.stored_config(org_id)
        &&& self.schedules(org_id) == other.schedules(org_id)
        &&& self.schedule_list(org_id) == other.schedule_list(org_id)
        &&& self.batches(org_id) == other.batches(org_id)
    }

    /// `self` differs from `other` at most in the records of `org_id`.
    pub open spec fn only_touches(self, other: Self, org_id: u64) -> bool {
        &&& self.registry() == other.registry()
        &&& self.token_address() == other.token_address()
        &&& self.wf()
        &&& forall|o: u64| o != org_id ==> #[trigger] self.agrees_on(other, o)
    }

    /// `self` holds the same records as `other` for every organization.
    pub open spec fn same_records(self, other: Self) -> bool {
        &&& self.registry() == other.registry()
        &&& self.token_address() == other.token_address()
        &&& self.wf()
        &&& forall|o: u64| #[trigger] self.agrees_on(other, o)
    }

    /// The schedule `add_schedule` stores.
    pub open spec fn new_schedule(
        employee: Address,
        amount: i128,
        frequency: PayFrequency,
        splits: Vec<PaySplit>,
        now: u64,
    ) -> PaymentSchedule {
        PaymentSchedule {
            employee,
            amount,
            frequency,
            next_payment_at: now,
            splits,
            active: true,
            total_paid: 0,
            last_paid_at: 0,
        }
    }

    /// `self` is `old` after paying out the employees of batch `bt` of
    /// `org_id` at `now`: every schedule among them that is active and due
    /// is paid once and the organization's balance drops by what they were
    /// owed.
    pub open spec fn paid_out(self, old: Self, org_id: u64, bt: BatchApproval, now: u64) -> bool {
        let c = old.config(org_id, now);
        let emps = bt.employees@;
        let total = payout_total(old.schedules(org_id), emps, now);
        &&& self.only_touches(old, org_id)
        &&& self.stored_config(org_id) == Some(
            PayrollConfig { usdc_balance: (c.usdc_balance - total) as i128, ..c },
        )
        &&& self.schedule_list(org_id) == old.schedule_list(org_id)
        &&& forall|e: Seq<char>|
            #[trigger] self.schedule(org_id, e) == match old.schedule(org_id, e) {
                Some(s) => if s.active && s.next_payment_at <= now && address_in(emps, e) {
                    Some(paid_schedule(s, now))
                } else {
                    Some(s)
                },
                None => None,
            }
    }

    /// What executing batch `bt` of `org_id` at `now` asks for.
    pub open spec fn execution_actions(
        self,
        org_id: u64,
        bt: BatchApproval,
        from: Address,
        now: u64,
    ) -> Seq<Action> {
        let emps = bt.employees@;
        let schedules = self.schedules(org_id);
        payout_actions(schedules, emps, emps.len() as int, now, org_id, self.token_address(), from)
            + seq![
            Action::Publish(
                Event::PayrollExecuted {
                    org_id,
                    batch_id: bt.batch_id,
                    total_disbursed: payout_total(schedules, emps, now) as i128,
                    employee_count: due_employees(schedules, emps, now).len() as u32,
                },
            ),
        ]
    }

    /// A contract with no records, consulting `org_registry` and paying in
    /// `token`.
    pub fn new(org_registry: Address, token: Address) -> (c: Self)
        ensures
            c.wf(),
            c.registry() == org_registry,
            c.token_address() == token,
            forall|o: u64|
                {
                    &&& c.stored_config(o) == None::<PayrollConfig>
                    &&& #[trigger] c.schedules(o) == Seq::<PaymentSchedule>::empty()
                    &&& c.schedule_list(o) == Seq::<Address>::empty()
                    &&& c.batches(o) == Seq::<BatchApproval>::empty()
                },
    {
        PayrollContract { org_registry, token, books: Vec::new() }
    }

    /// The registry address, the token, and the records of each
    /// organization.
    pub fn into_parts(self) -> (r: (Address, Address, Vec<OrgPayroll>))
        ensures
            r.0 == self.registry(),
            r.1 == self.token_address(),
            forall|o: u64|
                #![trigger self.stored_config(o)]
                match lookup(r.2@, o) {
                    Some(b) => {
                        &&& self.stored_config(o) == b.config
                        &&& self.schedules(o) == b.schedules@
                        &&& self.schedule_list(o) == b.schedule_list@
                        &&& self.batches(o) == b.batches@
                    },
                    None => {
                        &&& self.stored_config(o) == None::<PayrollConfig>
                        &&& self.schedules(o) == Seq::<PaymentSchedule>::empty()
                        &&& self.schedule_list(o) == Seq::<Address>::empty()
                        &&& self.batches(o) == Seq::<BatchApproval>::empty()
                    },
                },
    {
        (self.org_registry, self.token, self.books)
    }

    /// The contract with these parts, if every organization appears once
    /// and its records are consistent.
    pub fn from_parts(org_registry: Address, token: Address, books: Vec<OrgPayroll>) -> (r: Option<
        Self,
    >)
        ensures
            r is Some <==> (unique_keys(books@) && forall|i: int|
                0 <= i < books@.len() ==> (#[trigger] books@[i]).wf()),
            r matches Some(c) ==> {
                &&& c.wf()
                &&& c.registry() == org_registry
                &&& c.token_address() == token
                &&& forall|o: u64|
                    #![trigger c.stored_config(o)]
                    match lookup(books@, o) {
                        Some(b) => {
                            &&& c.stored_config(o) == b.config
                            &&& c.schedules(o) == b.schedules@
                            &&& c.schedule_list(o) == b.schedule_list@
                            &&& c.batches(o) == b.batches@
                        },
                        None => {
                            &&& c.stored_config(o) == None::<PayrollConfig>
                            &&& c.schedules(o) == Seq::<PaymentSchedule>::empty()
                            &&& c.schedule_list(o) == Seq::<Address>::empty()
                            &&& c.batches(o) == Seq::<BatchApproval>::empty()
                        },
                    }
            },
    {
        let mut i: usize = 0;
        while i < books.len()
            invariant
                i <= books@.len(),
                forall|k: int| 0 <= k < i ==> (#[trigger] books@[k]).wf(),
                forall|x: int, y: int|
                    0 <= x < i && 0 <= y < books@.len() && (#[trigger] books@[x]).org_id == (
                    #[trigger] books@[y]).org_id ==> x == y,
            decreases books@.len() - i,
        {
            if !books[i].check() {
                return None;
            }
            let mut j: usize = 0;
            while j < books.len()
                invariant
                    i < books@.len(),
                    j <= books@.len(),
                    forall|y: int|
                        0 <= y < j && (#[trigger] books@[y]).org_id == books@[i as int].org_id
                            ==> y == i,
                decreases books@.len() - j,
            {
                if j != i && books[j].org_id == books[i].org_id {
                    proof {
                        assert(books@[j as int].key() == books@[i as int].key());
                    }
                    return None;
                }
                j = j + 1;
            }
            i = i + 1;
        }
        Some(PayrollContract { org_registry, token, books })
    }

    /// The address of the organization registry.
    pub fn org_registry(&self) -> (r: &Address)
        ensures
            *r == self.registry(),
    {
        &self.org_registry
    }

    /// The address of the payroll token.
    pub fn token(&self) -> (r: &Address)
        ensures
            *r == self.token_address(),
    {
        &self.token
    }

    /// The position of the book of `org_id`, added empty if there was none.
    fn book_index(&mut self, org_id: u64) -> (b: usize)
        requires
            old(self).wf(),
        ensures
            final(self).wf(),
            b < final(self).books@.len(),
            final(self).books@[b as int].org_id == org_id,
            final(self).org_registry == old(self).org_registry,
            final(self).token == old(self).token,
            forall|o: u64| #[trigger] final(self).agrees_on(*old(self), o),
    {
        let mut i: usize = 0;
        while i < self.books.len()
            invariant
                i <= self.books@.len(),
                *self == *old(self),
                self.wf(),
                forall|k: int| 0 <= k < i ==> (#[trigger] self.books@[k]).org_id != org_id,
            decreases self.books@.len() - i,
        {
            if self.books[i].org_id == org_id {
                return i;
            }
            i = i + 1;
        }
        let ghost before = self.books@;
        let book = OrgPayroll {
            org_id,
            config: None,
            schedules: Vec::new(),
            schedule_list: Vec::new(),
            batches: Vec::new(),
        };
        proof {
            assert(!has_key(before, org_id));
            lemma_lookup_push(before, book);
        }
        self.books.push(book);
        proof {
            assert(self.books@ == before.push(book));
            assert forall|k: int| 0 <= k < self.books@.len() implies (#[trigger] self.books@[k]).wf() by {
                if k < before.len() {
                    assert(self.books@[k] == before[k]);
                }
            }
        }
        i
    }


    /// The records of the organization whose book is at `b` are that book's.
    proof fn lemma_book_at(self, b: int)
        requires
            self.wf(),
            0 <= b < self.books@.len(),
        ensures
            lookup(self.books@, self.books@[b].org_id) == Some(self.books@[b]),
            self.stored_config(self.books@[b].org_id) == self.books@[b].config,
            self.schedules(self.books@[b].org_id) == self.books@[b].schedules@,
            self.schedule_list(self.books@[b].org_id) == self.books@[b].schedule_list@,
            self.batches(self.books@[b].org_id) == self.books@[b].batches@,
            self.books@[b].wf(),
    {
        lemma_key_index(self.books@, b);
    }

    /// The records of every organization are consistent: each employee has
    /// at most one schedule and is listed at most once, every listed
    /// employee has a schedule, every schedule's splits share out exactly
    /// 100%, and the batches are numbered 1, 2, ... up to the last id
    /// issued.
    pub proof fn lemma_books_consistent(self, org_id: u64, now: u64)
        requires
            self.wf(),
        ensures
            unique_keys(self.schedules(org_id)),
            distinct_addresses(self.schedule_list(org_id)),
            forall|i: int|
                0 <= i < self.schedule_list(org_id).len() ==> has_key(
                    self.schedules(org_id),
                    (#[trigger] self.schedule_list(org_id)[i])@,
                ),
            forall|i: int|
                0 <= i < self.schedules(org_id).len() ==> valid_splits(
                    (#[trigger] self.schedules(org_id)[i]).splits@,
                ),
            self.batches(org_id).len() == self.config(org_id, now).current_batch_id,
            forall|k: u64|
                1 <= k <= self.batches(org_id).len() ==> (#[trigger] self.batch(org_id, k) matches Some(
                    bt,
                ) && bt.batch_id == k && bt.employee_count == bt.employees@.len()),
    {
        if has_key(self.books@, org_id) {
            let b = key_index(self.books@, org_id);
            self.lemma_book_at(b);
            assert forall|k: u64| 1 <= k <= self.batches(org_id).len() implies (#[trigger] self.batch(
                org_id,
                k,
            ) matches Some(bt) && bt.batch_id == k && bt.employee_count == bt.employees@.len()) by {
                assert(self.books@[b].batches@[k - 1].batch_id == k - 1 + 1);
            }
        }
    }

    /// Replacing the book at `b` by a well-formed book of the same
    /// organization keeps the contract well-formed and every other
    /// organization's records.
    proof fn lemma_book_replaced(before: Self, after: Self, b: int)
        requires
            before.wf(),
            0 <= b < before.books@.len(),
            after.books@ == before.books@.update(b, after.books@[b]),
            after.books@[b].org_id == before.books@[b].org_id,
            after.books@[b].wf(),
            after.org_registry == before.org_registry,
            after.token == before.token,
        ensures
            after.only_touches(before, before.books@[b].org_id),
            after.stored_config(before.books@[b].org_id) == after.books@[b].config,
            after.schedules(before.books@[b].org_id) == after.books@[b].schedules@,
            after.schedule_list(before.books@[b].org_id) == after.books@[b].schedule_list@,
            after.batches(before.books@[b].org_id) == after.books@[b].batches@,
    {
        let org_id = before.books@[b].org_id;
        lemma_lookup_update(before.books@, b, after.books@[b]);
        assert forall|i: int| 0 <= i < after.books@.len() implies (#[trigger] after.books@[i]).wf() by {
            if i != b {
                assert(after.books@[i] == before.books@[i]);
            }
        }
        assert forall|o: u64| o != org_id implies #[trigger] after.agrees_on(before, o) by {
            assert(lookup(after.books@, o) == lookup(before.books@, o));
        }
        after.lemma_book_at(b);
    }


    /// Changing only `org_id`'s records after a change that kept every
    /// organization's records changes only `org_id`'s records.
    proof fn lemma_touch_chain(first: Self, mid: Self, last: Self, org_id: u64)
        requires
            mid.registry() == first.registry(),
            mid.token_address() == first.token_address(),
            forall|o: u64| #[trigger] mid.agrees_on(first, o),
            last.only_touches(mid, org_id),
        ensures
            last.only_touches(first, org_id),
            last.agrees_on(mid, org_id) ==> last.agrees_on(first, org_id),
    {
        assert forall|o: u64| o != org_id implies #[trigger] last.agrees_on(first, o) by {
            assert(mid.agrees_on(first, o));
            assert(last.agrees_on(mid, o));
        }
        assert(mid.agrees_on(first, org_id));
    }

    /// The configuration of the organization at `b`, read at `now`.
    fn config_at(&self, b: usize, now: u64) -> (c: PayrollConfig)
        requires
            b < self.books@.len(),
        ensures
            c == (match self.books@[b as int].config {
                Some(c) => c,
                None => default_config(self.books@[b as int].org_id, now),
            }),
    {
        match self.books[b].config {
            Some(c) => c,
            None => PayrollConfig {
                org_id: self.books[b].org_id,
                usdc_balance: 0,
                approval_threshold: 1,
                current_batch_id: 0,
                created_at: now,
            },
        }
    }

    /// Adds `amount` of the token, moved from `funder` to this contract, to
    /// the balance of `org_id`.
    pub fn fund_payroll(&mut self, env: &mut Env, org_id: u64, funder: Address, amount: i128) -> (r:
        Result<(), PayrollError>)
        requires
            old(self).wf(),
            i128::MIN <= old(self).config(org_id, old(env).timestamp).usdc_balance + amount
                <= i128::MAX,
        ensures
            r == Ok::<(), PayrollError>(()),
            final(self).only_touches(*old(self), org_id),
            final(self).schedules(org_id) == old(self).schedules(org_id),
            final(self).schedule_list(org_id) == old(self).schedule_list(org_id),
            final(self).batches(org_id) == old(self).batches(org_id),
            ({
                let c = old(self).config(org_id, old(env).timestamp);
                let new_balance = (c.usdc_balance + amount) as i128;
                &&& final(self).stored_config(org_id) == Some(
                    PayrollConfig { usdc_balance: new_balance, ..c },
                )
                &&& final(env).extends(
                    *old(env),
                    seq![
                        Action::RequireAuth(funder),
                        Action::Transfer {
                            token: old(self).token_address(),
                            from: funder,
                            to: old(env).current_contract,
                            amount,
                        },
                        Action::Publish(
                            Event::PayrollFunded { org_id, funder, amount, new_balance },
                        ),
                    ],
                )
            }),
    {
        env.require_auth(&funder);
        let here = env.current_contract.clone();
        env.transfer(&self.token, &funder, &here, amount);
        let b = self.book_index(org_id);
        proof {
            self.lemma_book_at(b as int);
            assert(self.agrees_on(*old(self), org_id));
        }
        let mut config = self.config_at(b, env.timestamp);
        config.usdc_balance = config.usdc_balance + amount;
        let ghost before = *self;
        self.books[b].config = Some(config);
        proof {
            Self::lemma_book_replaced(before, *self, b as int);
            Self::lemma_touch_chain(*old(self), before, *self, org_id);
        }
        env.publish(
            Event::PayrollFunded { org_id, funder, amount, new_balance: config.usdc_balance },
        );
        Ok(())
    }


    /// Checks that `caller` administers `org_id` according to `registry`.
    fn require_admin<R: OrgRegistryInterface>(registry: &R, org_id: u64, caller: &Address) -> (r:
        Result<(), PayrollError>)
        ensures
            r == (if registry.spec_is_admin(org_id, caller@) {
                Ok::<(), PayrollError>(())
            } else {
                Err(PayrollError::NotAuthorized)
            }),
    {
        if registry.is_admin(org_id, caller) {
            Ok(())
        } else {
            Err(PayrollError::NotAuthorized)
        }
    }

    /// Sets how many signer approvals a batch of `org_id` needs before it
    /// executes; 0 is taken as 1. `caller` must administer `org_id`.
    pub fn set_approval_threshold<R: OrgRegistryInterface>(
        &mut self,
        registry: &R,
        env: &mut Env,
        org_id: u64,
        threshold: u32,
        caller: Address,
    ) -> (r: Result<(), PayrollError>)
        requires
            old(self).wf(),
        ensures
            final(env).extends(*old(env), seq![Action::RequireAuth(caller)]),
            !registry.spec_is_admin(org_id, caller@) ==> {
                &&& r == Err::<(), PayrollError>(PayrollError::NotAuthorized)
                &&& final(self).same_records(*old(self))
            },
            registry.spec_is_admin(org_id, caller@) ==> {
                &&& r == Ok::<(), PayrollError>(())
                &&& final(self).only_touches(*old(self), org_id)
                &&& final(self).schedules(org_id) == old(self).schedules(org_id)
                &&& final(self).schedule_list(org_id) == old(self).schedule_list(org_id)
                &&& final(self).batches(org_id) == old(self).batches(org_id)
                &&& final(self).stored_config(org_id) == Some(
                    PayrollConfig {
                        approval_threshold: if threshold == 0 {
                            1
                        } else {
                            threshold
                        },
                        ..old(self).config(org_id, old(env).timestamp)
                    },
                )
            },
    {
        env.require_auth(&caller);
        if let Err(e) = Self::require_admin(registry, org_id, &caller) {
            return Err(e);
        }
        let b = self.book_index(org_id);
        proof {
            self.lemma_book_at(b as int);
            assert(self.agrees_on(*old(self), org_id));
        }
        let mut config = self.config_at(b, env.timestamp);
        config.approval_threshold = if threshold == 0 {
            1
        } else {
            threshold
        };
        let ghost before = *self;
        self.books[b].config = Some(config);
        proof {
            Self::lemma_book_replaced(before, *self, b as int);
            Self::lemma_touch_chain(*old(self), before, *self, org_id);
        }
        Ok(())
    }

    /// Stores a new payment schedule for `employee` of `org_id`, paying
    /// `amount` per `frequency` across `splits`, first due now. `caller` must
    /// administer `org_id`; the splits must share out exactly 100%. A
    /// schedule already stored for the employee is replaced, and an employee
    /// not on the organization's payroll list is put back on it.
    pub fn add_schedule<R: OrgRegistryInterface>(
        &mut self,
        registry: &R,
        env: &mut Env,
        org_id: u64,
        employee: Address,
        amount: i128,
        frequency: PayFrequency,
        splits: Vec<PaySplit>,
        caller: Address,
    ) -> (r: Result<(), PayrollError>)
        requires
            old(self).wf(),
        ensures
            !registry.spec_is_admin(org_id, caller@) ==> {
                &&& r == Err::<(), PayrollError>(PayrollError::NotAuthorized)
                &&& final(self).same_records(*old(self))
                &&& final(env).extends(*old(env), seq![Action::RequireAuth(caller)])
            },
            registry.spec_is_admin(org_id, caller@) && !valid_splits(splits@) ==> {
                &&& r == Err::<(), PayrollError>(PayrollError::InvalidSplits)
                &&& final(self).same_records(*old(self))
                &&& final(env).extends(*old(env), seq![Action::RequireAuth(caller)])
            },
            registry.spec_is_admin(org_id, caller@) && valid_splits(splits@) ==> {
                &&& r == Ok::<(), PayrollError>(())
                &&& final(self).only_touches(*old(self), org_id)
                &&& final(self).stored_config(org_id) == old(self).stored_config(org_id)
                &&& final(self).batches(org_id) == old(self).batches(org_id)
                &&& final(self).schedule(org_id, employee@) == Some(
                    Self::new_schedule(employee, amount, frequency, splits, old(env).timestamp),
                )
                &&& forall|e: Seq<char>|
                    e != employee@ ==> #[trigger] final(self).schedule(org_id, e) == old(
                        self,
                    ).schedule(org_id, e)
                &&& final(self).schedule_list(org_id) == if address_in(
                    old(self).schedule_list(org_id),
                    employee@,
                ) {
                    old(self).schedule_list(org_id)
                } else {
                    old(self).schedule_list(org_id).push(employee)
                }
                &&& final(env).extends(
                    *old(env),
                    seq![
                        Action::RequireAuth(caller),
                        Action::Publish(
                            Event::ScheduleAdded { org_id, employee, amount, frequency },
                        ),
                    ],
                )
            },
    {
        env.require_auth(&caller);
        if let Err(e) = Self::require_admin(registry, org_id, &caller) {
            return Err(e);
        }
        if let Err(e) = validate_splits(&splits) {
            return Err(e);
        }
        let b = self.book_index(org_id);
        proof {
            self.lemma_book_at(b as int);
            assert(self.agrees_on(*old(self), org_id));
        }
        let ghost before = *self;
        let ghost old_schedules = self.books@[b as int].schedules@;
        let found = find_schedule(&self.books[b].schedules, &employee);
        let listed = find_address(&self.books[b].schedule_list, &employee).is_some();
        let schedule = PaymentSchedule {
            employee: employee.clone(),
            amount,
            frequency,
            next_payment_at: env.timestamp,
            splits,
            active: true,
            total_paid: 0,
            last_paid_at: 0,
        };
        match found {
            Some(j) => {
                proof {
                    lemma_lookup_update(old_schedules, j as int, schedule);
                }
                self.books[b].schedules.set(j, schedule);
            },
            None => {
                proof {
                    lemma_lookup_push(old_schedules, schedule);
                }
                self.books[b].schedules.push(schedule);
            },
        }
        if !listed {
            self.books[b].schedule_list.push(employee.clone());
        }
        proof {
            let nb = self.books@[b as int];
            let ob = before.books@[b as int];
            assert(self.books@ =~= before.books@.update(b as int, nb));
            assert forall|k: Seq<char>| has_key(ob.schedules@, k) implies #[trigger] has_key(
                nb.schedules@,
                k,
            ) by {
                assert(lookup(nb.schedules@, k) is Some);
            }
            assert forall|i: int| 0 <= i < nb.schedules@.len() implies valid_splits(
                (#[trigger] nb.schedules@[i]).splits@,
            ) by {
                if found is Some && i != found->0 {
                    assert(nb.schedules@[i] == ob.schedules@[i]);
                } else if found is None && i < ob.schedules@.len() {
                    assert(nb.schedules@[i] == ob.schedules@[i]);
                }
            }
            assert forall|i: int| 0 <= i < nb.schedule_list@.len() implies has_key(
                nb.schedules@,
                (#[trigger] nb.schedule_list@[i])@,
            ) by {
                if i < ob.schedule_list@.len() {
                    assert(nb.schedule_list@[i] == ob.schedule_list@[i]);
                    assert(has_key(ob.schedules@, ob.schedule_list@[i]@));
                } else {
                    assert(lookup(nb.schedules@, employee@) is Some);
                }
            }
            if !listed {
                assert forall|i: int, j: int|
                    0 <= i < nb.schedule_list@.len() && 0 <= j < nb.schedule_list@.len()
                        && (#[trigger] nb.schedule_list@[i])@ == (#[trigger] nb.schedule_list@[j])@
                    implies i == j by {
                    if i < ob.schedule_list@.len() && j < ob.schedule_list@.len() {
                        assert(nb.schedule_list@[i] == ob.schedule_list@[i]);
                        assert(nb.schedule_list@[j] == ob.schedule_list@[j]);
                    } else if i < ob.schedule_list@.len() {
                        assert(nb.schedule_list@[i] == ob.schedule_list@[i]);
                    } else if j < ob.schedule_list@.len() {
                        assert(nb.schedule_list@[j] == ob.schedule_list@[j]);
                    }
                }
            }
            OrgPayroll::lemma_schedules_changed(ob, nb);
            Self::lemma_book_replaced(before, *self, b as int);
            Self::lemma_touch_chain(*old(self), before, *self, org_id);
        }
        env.publish(Event::ScheduleAdded { org_id, employee, amount, frequency });
        Ok(())
    }


    /// Changes the amount, frequency and splits of the existing schedule of
    /// `employee` in `org_id`, from the next payment on. `caller` must
    /// administer `org_id`; the splits must share out exactly 100%.
    pub fn update_schedule<R: OrgRegistryInterface>(
        &mut self,
        registry: &R,
        env: &mut Env,
        org_id: u64,
        employee: Address,
        amount: i128,
        frequency: PayFrequency,
        splits: Vec<PaySplit>,
        caller: Address,
    ) -> (r: Result<(), PayrollError>)
        requires
            old(self).wf(),
        ensures
            !registry.spec_is_admin(org_id, caller@) ==> {
                &&& r == Err::<(), PayrollError>(PayrollError::NotAuthorized)
                &&& final(self).same_records(*old(self))
                &&& final(env).extends(*old(env), seq![Action::RequireAuth(caller)])
            },
            registry.spec_is_admin(org_id, caller@) && !valid_splits(splits@) ==> {
                &&& r == Err::<(), PayrollError>(PayrollError::InvalidSplits)
                &&& final(self).same_records(*old(self))
                &&& final(env).extends(*old(env), seq![Action::RequireAuth(caller)])
            },
            registry.spec_is_admin(org_id, caller@) && valid_splits(splits@) && old(self).schedule(
                org_id,
                employee@,
            ) is None ==> {
                &&& r == Err::<(), PayrollError>(PayrollError::ScheduleNotFound)
                &&& final(self).same_records(*old(self))
                &&& final(env).extends(*old(env), seq![Action::RequireAuth(caller)])
            },
            registry.spec_is_admin(org_id, caller@) && valid_splits(splits@) ==> (old(self).schedule(
                org_id,
                employee@,
            ) matches Some(s) ==> {
                &&& r == Ok::<(), PayrollError>(())
                &&& final(self).only_touches(*old(self), org_id)
                &&& final(self).stored_config(org_id) == old(self).stored_config(org_id)
                &&& final(self).schedule_list(org_id) == old(self).schedule_list(org_id)
                &&& final(self).batches(org_id) == old(self).batches(org_id)
                &&& final(self).schedule(org_id, employee@) == Some(
                    PaymentSchedule { amount, frequency, splits, ..s },
                )
                &&& forall|e: Seq<char>|
                    e != employee@ ==> #[trigger] final(self).schedule(org_id, e) == old(
                        self,
                    ).schedule(org_id, e)
                &&& final(env).extends(
                    *old(env),
                    seq![
                        Action::RequireAuth(caller),
                        Action::Publish(
                            Event::ScheduleUpdated { org_id, employee, amount, frequency },
                        ),
                    ],
                )
            }),
    {
        env.require_auth(&caller);
        if let Err(e) = Self::require_admin(registry, org_id, &caller) {
            return Err(e);
        }
        if let Err(e) = validate_splits(&splits) {
            return Err(e);
        }
        let b = self.book_index(org_id);
        proof {
            self.lemma_book_at(b as int);
            assert(self.agrees_on(*old(self), org_id));
        }
        let ghost before = *self;
        let j = match find_schedule(&self.books[b].schedules, &employee) {
            Some(j) => j,
            None => return Err(PayrollError::ScheduleNotFound),
        };
        let current = &self.books[b].schedules[j];
        let schedule = PaymentSchedule {
            employee: current.employee.clone(),
            amount,
            frequency,
            next_payment_at: current.next_payment_at,
            splits,
            active: current.active,
            total_paid: current.total_paid,
            last_paid_at: current.last_paid_at,
        };
        self.books[b].schedules.set(j, schedule);
        proof {
            let nb = self.books@[b as int];
            let ob = before.books@[b as int];
            assert(self.books@ =~= before.books@.update(b as int, nb));
            OrgPayroll::lemma_schedule_replaced(ob, nb, j as int, schedule);
            Self::lemma_book_replaced(before, *self, b as int);
            Self::lemma_touch_chain(*old(self), before, *self, org_id);
        }
        env.publish(Event::ScheduleUpdated { org_id, employee, amount, frequency });
        Ok(())
    }

    /// Lets `employee` replace the splits of their own schedule in `org_id`;
    /// the splits must share out exactly 100%.
    pub fn update_splits(
        &mut self,
        env: &mut Env,
        org_id: u64,
        employee: Address,
        splits: Vec<PaySplit>,
    ) -> (r: Result<(), PayrollError>)
        requires
            old(self).wf(),
        ensures
            !valid_splits(splits@) ==> {
                &&& r == Err::<(), PayrollError>(PayrollError::InvalidSplits)
                &&& final(self).same_records(*old(self))
                &&& final(env).extends(*old(env), seq![Action::RequireAuth(employee)])
            },
            valid_splits(splits@) && old(self).schedule(org_id, employee@) is None ==> {
                &&& r == Err::<(), PayrollError>(PayrollError::ScheduleNotFound)
                &&& final(self).same_records(*old(self))
                &&& final(env).extends(*old(env), seq![Action::RequireAuth(employee)])
            },
            valid_splits(splits@) ==> (old(self).schedule(org_id, employee@) matches Some(s) ==> {
                &&& r == Ok::<(), PayrollError>(())
                &&& final(self).only_touches(*old(self), org_id)
                &&& final(self).stored_config(org_id) == old(self).stored_config(org_id)
                &&& final(self).schedule_list(org_id) == old(self).schedule_list(org_id)
                &&& final(self).batches(org_id) == old(self).batches(org_id)
                &&& final(self).schedule(org_id, employee@) == Some(PaymentSchedule { splits, ..s })
                &&& forall|e: Seq<char>|
                    e != employee@ ==> #[trigger] final(self).schedule(org_id, e) == old(
                        self,
                    ).schedule(org_id, e)
                &&& final(env).timestamp == old(env).timestamp
                &&& final(env).current_contract == old(env).current_contract
                &&& final(env).actions@.len() == old(env).actions@.len() + 2
                &&& final(env).actions@.subrange(0, old(env).actions@.len() as int) == old(
                    env,
                ).actions@
                &&& final(env).actions@[old(env).actions@.len() as int] == Action::RequireAuth(
                    employee,
                )
                &&& final(env).actions@.last() matches Action::Publish(
                    Event::SplitsUpdated { org_id: o, employee: e, splits: published },
                ) && o == org_id && e == employee && published@ == splits@
            }),
    {
        env.require_auth(&employee);
        if let Err(e) = validate_splits(&splits) {
            return Err(e);
        }
        let b = self.book_index(org_id);
        proof {
            self.lemma_book_at(b as int);
            assert(self.agrees_on(*old(self), org_id));
        }
        let ghost before = *self;
        let j = match find_schedule(&self.books[b].schedules, &employee) {
            Some(j) => j,
            None => return Err(PayrollError::ScheduleNotFound),
        };
        let published = copy_splits(&splits);
        let current = &self.books[b].schedules[j];
        let schedule = PaymentSchedule {
            employee: current.employee.clone(),
            amount: current.amount,
            frequency: current.frequency,
            next_payment_at: current.next_payment_at,
            splits,
            active: current.active,
            total_paid: current.total_paid,
            last_paid_at: current.last_paid_at,
        };
        self.books[b].schedules.set(j, schedule);
        proof {
            let nb = self.books@[b as int];
            let ob = before.books@[b as int];
            assert(self.books@ =~= before.books@.update(b as int, nb));
            OrgPayroll::lemma_schedule_replaced(ob, nb, j as int, schedule);
            Self::lemma_book_replaced(before, *self, b as int);
            Self::lemma_touch_chain(*old(self), before, *self, org_id);
        }
        env.publish(Event::SplitsUpdated { org_id, employee, splits: published });
        Ok(())
    }

    /// Deactivates the schedule of `employee` in `org_id` and takes the
    /// employee off the payroll list. `caller` must be the organization
    /// registry (removing an employee) or an admin of `org_id`.
    pub fn remove_schedule<R: OrgRegistryInterface>(
        &mut self,
        registry: &R,
        env: &mut Env,
        org_id: u64,
        employee: Address,
        caller: Address,
    ) -> (r: Result<(), PayrollError>)
        requires
            old(self).wf(),
        ensures
            ({
                let from_registry = caller@ == old(self).registry()@;
                let auth = if from_registry {
                    Action::RequireAuth(old(self).registry())
                } else {
                    Action::RequireAuth(caller)
                };
                let allowed = from_registry || registry.spec_is_admin(org_id, caller@);
                &&& !allowed ==> {
                    &&& r == Err::<(), PayrollError>(PayrollError::NotAuthorized)
                    &&& final(self).same_records(*old(self))
                    &&& final(env).extends(*old(env), seq![auth])
                }
                &&& allowed && old(self).schedule(org_id, employee@) is None ==> {
                    &&& r == Err::<(), PayrollError>(PayrollError::ScheduleNotFound)
                    &&& final(self).same_records(*old(self))
                    &&& final(env).extends(*old(env), seq![auth])
                }
                &&& allowed ==> (old(self).schedule(org_id, employee@) matches Some(s) ==> {
                    let list = old(self).schedule_list(org_id);
                    &&& r == Ok::<(), PayrollError>(())
                    &&& final(self).only_touches(*old(self), org_id)
                    &&& final(self).stored_config(org_id) == old(self).stored_config(org_id)
                    &&& final(self).batches(org_id) == old(self).batches(org_id)
                    &&& final(self).schedule(org_id, employee@) == Some(
                        PaymentSchedule { active: false, ..s },
                    )
                    &&& forall|e: Seq<char>|
                        e != employee@ ==> #[trigger] final(self).schedule(org_id, e) == old(
                            self,
                        ).schedule(org_id, e)
                    &&& final(self).schedule_list(org_id) == if address_in(list, employee@) {
                        list.remove(
                            choose|i: int| 0 <= i < list.len() && (#[trigger] list[i])@ == employee@,
                        )
                    } else {
                        list
                    }
                    &&& !address_in(final(self).schedule_list(org_id), employee@)
                    &&& final(env).extends(
                        *old(env),
                        seq![auth, Action::Publish(Event::ScheduleRemoved { org_id, employee })],
                    )
                })
            }),
    {
        if caller.same(&self.org_registry) {
            env.require_auth(&self.org_registry);
        } else {
            env.require_auth(&caller);
            if let Err(e) = Self::require_admin(registry, org_id, &caller) {
                return Err(e);
            }
        }
        let b = self.book_index(org_id);
        proof {
            self.lemma_book_at(b as int);
            assert(self.agrees_on(*old(self), org_id));
        }
        let ghost before = *self;
        let j = match find_schedule(&self.books[b].schedules, &employee) {
            Some(j) => j,
            None => return Err(PayrollError::ScheduleNotFound),
        };
        let ghost schedule = PaymentSchedule { active: false, ..self.books@[b as int].schedules@[j as int] };
        self.books[b].schedules[j].active = false;
        let ghost mid = *self;
        proof {
            let nb = self.books@[b as int];
            let ob = before.books@[b as int];
            assert(self.books@ =~= before.books@.update(b as int, nb));
            OrgPayroll::lemma_schedule_replaced(ob, nb, j as int, schedule);
        }
        let ghost list = self.books@[b as int].schedule_list@;
        match find_address(&self.books[b].schedule_list, &employee) {
            Some(i) => {
                self.books[b].schedule_list.remove(i);
                proof {
                    let c = choose|k: int| 0 <= k < list.len() && (#[trigger] list[k])@ == employee@;
                    assert(list[i as int]@ == employee@);
                    assert(c == i);
                    let nb = self.books@[b as int];
                    let ob = mid.books@[b as int];
                    assert(self.books@ =~= mid.books@.update(b as int, nb));
                    assert(forall|k: int| 0 <= k < list.len() && (#[trigger] list[k])@ == employee@ ==> k == i);
                    assert forall|x: int, y: int|
                        0 <= x < nb.schedule_list@.len() && 0 <= y < nb.schedule_list@.len()
                            && (#[trigger] nb.schedule_list@[x])@ == (#[trigger] nb.schedule_list@[y])@
                        implies x == y by {
                        let x0 = if x < i { x } else { x + 1 };
                        let y0 = if y < i { y } else { y + 1 };
                        assert(nb.schedule_list@[x] == list[x0]);
                        assert(nb.schedule_list@[y] == list[y0]);
                    }
                    assert forall|x: int| 0 <= x < nb.schedule_list@.len() implies has_key(
                        nb.schedules@,
                        (#[trigger] nb.schedule_list@[x])@,
                    ) by {
                        let x0 = if x < i { x } else { x + 1 };
                        assert(nb.schedule_list@[x] == list[x0]);
                    }
                    assert forall|k: Seq<char>| has_key(ob.schedules@, k) implies #[trigger] has_key(
                        nb.schedules@,
                        k,
                    ) by {}
                    OrgPayroll::lemma_schedules_changed(ob, nb);
                    Self::lemma_book_replaced(mid, *self, b as int);
                }
            },
            None => {},
        }
        proof {
            assert(self.books@ =~= before.books@.update(b as int, self.books@[b as int]));
            Self::lemma_book_replaced(before, *self, b as int);
            Self::lemma_touch_chain(*old(self), before, *self, org_id);
            old(self).lemma_books_consistent(org_id, 0);
            let list = old(self).schedule_list(org_id);
            let after = self.schedule_list(org_id);
            if address_in(list, employee@) {
                let i0 = choose|i: int| 0 <= i < list.len() && (#[trigger] list[i])@ == employee@;
                assert(!address_in(after, employee@)) by {
                    if address_in(after, employee@) {
                        let k = choose|k: int| 0 <= k < after.len() && (#[trigger] after[k])@ == employee@;
                        if k < i0 {
                            assert(after[k] == list[k]);
                        } else {
                            assert(after[k] == list[k + 1]);
                        }
                    }
                }
            }
        }
        env.publish(Event::ScheduleRemoved { org_id, employee });
        Ok(())
    }


    /// Collects the employees of `org_id` whose active schedules are due
    /// now into a new batch awaiting approval, with what they are owed.
    /// Returns the batch id.
    pub fn prepare_batch(&mut self, env: &mut Env, org_id: u64) -> (r: Result<u64, PayrollError>)
        requires
            old(self).wf(),
            forall|n: int|
                0 <= n <= old(self).schedule_list(org_id).len() ==> fits_i128(
                    #[trigger] due_total(
                        old(self).schedules(org_id),
                        old(self).schedule_list(org_id),
                        old(env).timestamp,
                        n,
                    ),
                ),
            due_employees(old(self).schedules(org_id), old(self).schedule_list(org_id), old(env).timestamp).len() > 0
                ==> {
                &&& old(self).config(org_id, old(env).timestamp).current_batch_id < u64::MAX
                &&& due_employees(
                    old(self).schedules(org_id),
                    old(self).schedule_list(org_id),
                    old(env).timestamp,
                ).len() <= u32::MAX
            },
        ensures
            ({
                let now = old(env).timestamp;
                let list = old(self).schedule_list(org_id);
                let due = due_employees(old(self).schedules(org_id), list, now);
                let c = old(self).config(org_id, now);
                let id = (c.current_batch_id + 1) as u64;
                let total = due_total(old(self).schedules(org_id), list, now, list.len() as int);
                &&& due.len() == 0 ==> {
                    &&& r == Err::<u64, PayrollError>(PayrollError::NoEligiblePayments)
                    &&& final(self).same_records(*old(self))
                    &&& final(env).extends(*old(env), Seq::<Action>::empty())
                }
                &&& due.len() > 0 ==> {
                    &&& r == Ok::<u64, PayrollError>(id)
                    &&& final(self).only_touches(*old(self), org_id)
                    &&& final(self).schedules(org_id) == old(self).schedules(org_id)
                    &&& final(self).schedule_list(org_id) == list
                    &&& final(self).stored_config(org_id) == Some(
                        PayrollConfig { current_batch_id: id, ..c },
                    )
                    &&& final(self).batches(org_id).len() == old(self).batches(org_id).len() + 1
                    &&& final(self).batches(org_id).drop_last() == old(self).batches(org_id)
                    &&& prepared_batch(final(self).batches(org_id).last(), id, total, due, now)
                    &&& final(self).batch(org_id, id) matches Some(nb) && prepared_batch(
                        nb,
                        id,
                        total,
                        due,
                        now,
                    )
                    &&& final(env).extends(
                        *old(env),
                        seq![
                            Action::Publish(
                                Event::BatchPrepared {
                                    org_id,
                                    batch_id: id,
                                    total_amount: total as i128,
                                    employee_count: due.len() as u32,
                                },
                            ),
                        ],
                    )
                }
            }),
    {
        let b = self.book_index(org_id);
        proof {
            self.lemma_book_at(b as int);
            assert(self.agrees_on(*old(self), org_id));
        }
        let ghost before = *self;
        let now = env.timestamp;
        let mut config = self.config_at(b, now);
        let ghost schedules = self.books@[b as int].schedules@;
        let ghost list = self.books@[b as int].schedule_list@;
        let ghost pred = |a: Address| is_due(schedules, a, now);
        let mut eligible: Vec<Address> = Vec::new();
        let mut total: i128 = 0;
        let mut i: usize = 0;
        while i < self.books[b].schedule_list.len()
            invariant
                *self == before,
                b < self.books@.len(),
                schedules == self.books@[b as int].schedules@,
                list == self.books@[b as int].schedule_list@,
                unique_keys(schedules),
                distinct_addresses(list),
                pred == (|a: Address| is_due(schedules, a, now)),
                i <= list.len(),
                total == due_total(schedules, list, now, i as int),
                forall|n: int| 0 <= n <= list.len() ==> fits_i128(#[trigger] due_total(schedules, list, now, n)),
                eligible@ == list.take(i as int).filter(pred),
                distinct_addresses(eligible@),
                forall|k: int|
                    0 <= k < eligible@.len() ==> address_in(
                        list.take(i as int),
                        (#[trigger] eligible@[k])@,
                    ) && is_due(schedules, eligible@[k], now),
            decreases list.len() - i,
        {
            let a = &self.books[b].schedule_list[i];
            let due = match find_schedule(&self.books[b].schedules, a) {
                Some(j) => {
                    let s = &self.books[b].schedules[j];
                    s.active && s.next_payment_at <= now
                },
                None => false,
            };
            proof {
                reveal_with_fuel(Seq::<_>::filter, 1);
                let next = list.take(i + 1);
                assert(next.drop_last() =~= list.take(i as int));
                assert(next.last() == list[i as int]);
                assert(pred(list[i as int]) == is_due(schedules, list[i as int], now));
                assert(due == is_due(schedules, list[i as int], now));
                assert(forall|m: int| 0 <= m < i ==> list.take(i + 1)[m] == list.take(i as int)[m]);
            }
            if due {
                let j = find_schedule(&self.books[b].schedules, a).unwrap();
                proof {
                    assert(due_total(schedules, list, now, i + 1) == total
                        + self.books@[b as int].schedules@[j as int].amount);
                    assert(fits_i128(due_total(schedules, list, now, i + 1)));
                }
                total = total + self.books[b].schedules[j].amount;
                let ghost prev = eligible@;
                eligible.push(a.clone());
                proof {
                    assert forall|x: int, y: int|
                        0 <= x < eligible@.len() && 0 <= y < eligible@.len()
                            && (#[trigger] eligible@[x])@ == (#[trigger] eligible@[y])@
                        implies x == y by {
                        if x < prev.len() && y == prev.len() {
                            let m = choose|m: int|
                                0 <= m < i && (#[trigger] list.take(i as int)[m])@ == prev[x]@;
                            assert(list[m] == list.take(i as int)[m]);
                        } else if y < prev.len() && x == prev.len() {
                            let m = choose|m: int|
                                0 <= m < i && (#[trigger] list.take(i as int)[m])@ == prev[y]@;
                            assert(list[m] == list.take(i as int)[m]);
                        }
                    }
                    assert forall|k: int| 0 <= k < eligible@.len() implies address_in(
                        list.take(i + 1),
                        (#[trigger] eligible@[k])@,
                    ) && is_due(schedules, eligible@[k], now) by {
                        if k < prev.len() {
                            let m = choose|m: int|
                                0 <= m < i && (#[trigger] list.take(i as int)[m])@ == prev[k]@;
                            assert(list.take(i + 1)[m] == list.take(i as int)[m]);
                        } else {
                            assert(list.take(i + 1)[i as int] == list[i as int]);
                        }
                    }
                }
            } else {
                proof {
                    assert forall|k: int| 0 <= k < eligible@.len() implies address_in(
                        list.take(i + 1),
                        (#[trigger] eligible@[k])@,
                    ) && is_due(schedules, eligible@[k], now) by {
                        let m = choose|m: int|
                            0 <= m < i && (#[trigger] list.take(i as int)[m])@ == eligible@[k]@;
                        assert(list.take(i + 1)[m] == list.take(i as int)[m]);
                    }
                }
            }
            i = i + 1;
        }
        proof {
            assert(list.take(list.len() as int) =~= list);
        }
        if eligible.len() == 0 {
            return Err(PayrollError::NoEligiblePayments);
        }
        let batch_id = config.current_batch_id + 1;
        let count = eligible.len() as u32;
        let batch = BatchApproval {
            batch_id,
            total_amount: total,
            employee_count: count,
            approvals: Vec::new(),
            executed: false,
            created_at: now,
            employees: eligible,
        };
        self.books[b].batches.push(batch);
        config.current_batch_id = batch_id;
        self.books[b].config = Some(config);
        proof {
            let nb = self.books@[b as int];
            let ob = before.books@[b as int];
            assert(self.books@ =~= before.books@.update(b as int, nb));
            assert(nb.batches@ == ob.batches@.push(batch));
            assert forall|x: int| 0 <= x < nb.batches@.len() implies {
                let bt = #[trigger] nb.batches@[x];
                &&& bt.batch_id == x + 1
                &&& bt.employees@.len() <= u32::MAX
                &&& bt.employee_count == bt.employees@.len()
                &&& distinct_addresses(bt.employees@)
                &&& forall|j: int|
                    0 <= j < bt.employees@.len() ==> has_key(
                        nb.schedules@,
                        (#[trigger] bt.employees@[j])@,
                    )
            } by {
                if x < ob.batches@.len() {
                    assert(nb.batches@[x] == ob.batches@[x]);
                } else {
                    let bt = nb.batches@[x];
                    assert(bt == batch);
                    assert forall|j: int| 0 <= j < bt.employees@.len() implies has_key(
                        nb.schedules@,
                        (#[trigger] bt.employees@[j])@,
                    ) by {
                        assert(is_due(schedules, bt.employees@[j], now));
                    }
                }
            }
            assert(nb.batches@.drop_last() =~= ob.batches@);
            Self::lemma_book_replaced(before, *self, b as int);
            Self::lemma_touch_chain(*old(self), before, *self, org_id);
            old(self).lemma_books_consistent(org_id, now);
        }
        env.publish(
            Event::BatchPrepared { org_id, batch_id, total_amount: total, employee_count: count },
        );
        Ok(batch_id)
    }


    /// What the active schedules on the payroll list of the organization
    /// at `b` pay per cycle.
    fn next_cycle_obligation(&self, b: usize) -> (r: i128)
        requires
            self.wf(),
            b < self.books@.len(),
            forall|n: int|
                0 <= n <= self.books@[b as int].schedule_list@.len() ==> fits_i128(
                    #[trigger] active_total(
                        self.books@[b as int].schedules@,
                        self.books@[b as int].schedule_list@,
                        n,
                    ),
                ),
        ensures
            r == active_total(
                self.books@[b as int].schedules@,
                self.books@[b as int].schedule_list@,
                self.books@[b as int].schedule_list@.len() as int,
            ),
    {
        let ghost schedules = self.books@[b as int].schedules@;
        let ghost list = self.books@[b as int].schedule_list@;
        proof {
            assert(self.books@[b as int].wf());
        }
        let mut total: i128 = 0;
        let mut i: usize = 0;
        while i < self.books[b].schedule_list.len()
            invariant
                b < self.books@.len(),
                schedules == self.books@[b as int].schedules@,
                list == self.books@[b as int].schedule_list@,
                unique_keys(schedules),
                i <= list.len(),
                total == active_total(schedules, list, i as int),
                forall|n: int| 0 <= n <= list.len() ==> fits_i128(#[trigger] active_total(schedules, list, n)),
            decreases list.len() - i,
        {
            let a = &self.books[b].schedule_list[i];
            match find_schedule(&self.books[b].schedules, a) {
                Some(j) => {
                    if self.books[b].schedules[j].active {
                        proof {
                            assert(active_total(schedules, list, i + 1) == total
                                + self.books@[b as int].schedules@[j as int].amount);
                            assert(fits_i128(active_total(schedules, list, i + 1)));
                        }
                        total = total + self.books[b].schedules[j].amount;
                    }
                },
                None => {},
            }
            i = i + 1;
        }
        total
    }

    /// Pays `amount` of `org_id`'s balance back to `caller`, who must
    /// administer `org_id`. What remains must still cover one cycle of every
    /// active schedule on the payroll list.
    pub fn withdraw_funds<R: OrgRegistryInterface>(
        &mut self,
        registry: &R,
        env: &mut Env,
        org_id: u64,
        amount: i128,
        caller: Address,
    ) -> (r: Result<(), PayrollError>)
        requires
            old(self).wf(),
            registry.spec_is_admin(org_id, caller@) ==> {
                &&& forall|n: int|
                    0 <= n <= old(self).schedule_list(org_id).len() ==> fits_i128(
                        #[trigger] active_total(
                            old(self).schedules(org_id),
                            old(self).schedule_list(org_id),
                            n,
                        ),
                    )
                &&& fits_i128(old(self).config(org_id, old(env).timestamp).usdc_balance - amount)
            },
        ensures
            !registry.spec_is_admin(org_id, caller@) ==> {
                &&& r == Err::<(), PayrollError>(PayrollError::NotAuthorized)
                &&& final(self).same_records(*old(self))
                &&& final(env).extends(*old(env), seq![Action::RequireAuth(caller)])
            },
            registry.spec_is_admin(org_id, caller@) ==> {
                let c = old(self).config(org_id, old(env).timestamp);
                let list = old(self).schedule_list(org_id);
                let obligation = active_total(old(self).schedules(org_id), list, list.len() as int);
                let remaining = (c.usdc_balance - amount) as i128;
                &&& c.usdc_balance - amount < obligation ==> {
                    &&& r == Err::<(), PayrollError>(PayrollError::InsufficientBalance)
                    &&& final(self).same_records(*old(self))
                    &&& final(env).extends(*old(env), seq![Action::RequireAuth(caller)])
                }
                &&& c.usdc_balance - amount >= obligation ==> {
                    &&& r == Ok::<(), PayrollError>(())
                    &&& final(self).only_touches(*old(self), org_id)
                    &&& final(self).schedules(org_id) == old(self).schedules(org_id)
                    &&& final(self).schedule_list(org_id) == list
                    &&& final(self).batches(org_id) == old(self).batches(org_id)
                    &&& final(self).stored_config(org_id) == Some(
                        PayrollConfig { usdc_balance: remaining, ..c },
                    )
                    &&& final(env).extends(
                        *old(env),
                        seq![
                            Action::RequireAuth(caller),
                            Action::Transfer {
                                token: old(self).token_address(),
                                from: old(env).current_contract,
                                to: caller,
                                amount,
                            },
                            Action::Publish(
                                Event::FundsWithdrawn {
                                    org_id,
                                    amount,
                                    remaining_balance: remaining,
                                },
                            ),
                        ],
                    )
                }
            },
    {
        env.require_auth(&caller);
        if let Err(e) = Self::require_admin(registry, org_id, &caller) {
            return Err(e);
        }
        let b = self.book_index(org_id);
        proof {
            self.lemma_book_at(b as int);
            assert(self.agrees_on(*old(self), org_id));
        }
        let ghost before = *self;
        let mut config = self.config_at(b, env.timestamp);
        let obligation = self.next_cycle_obligation(b);
        if config.usdc_balance - amount < obligation {
            return Err(PayrollError::InsufficientBalance);
        }
        let here = env.current_contract.clone();
        env.transfer(&self.token, &here, &caller, amount);
        config.usdc_balance = config.usdc_balance - amount;
        self.books[b].config = Some(config);
        proof {
            Self::lemma_book_replaced(before, *self, b as int);
            Self::lemma_touch_chain(*old(self), before, *self, org_id);
        }
        env.publish(
            Event::FundsWithdrawn { org_id, amount, remaining_balance: config.usdc_balance },
        );
        Ok(())
    }


    /// Pays every employee of batch `batch_id` of `org_id` whose schedule is
    /// still active and due, splitting each payment across the schedule's
    /// splits, and marks the batch executed. Needs the batch's approvals
    /// when the organization's threshold is above one, and a balance
    /// covering what it pays.
    pub fn execute_payroll(&mut self, env: &mut Env, org_id: u64, batch_id: u64) -> (r: Result<
        (),
        PayrollError,
    >)
        requires
            old(self).wf(),
            ({
                let c = old(self).config(org_id, old(env).timestamp);
                let sch = old(self).schedules(org_id);
                let now = old(env).timestamp;
                match old(self).batch(org_id, batch_id) {
                    Some(bt) => !bt.executed && !(c.approval_threshold > 1 && bt.approvals@.len()
                        < c.approval_threshold) ==> {
                        &&& payout_sum_in_range(sch, bt.employees@, now)
                        &&& c.usdc_balance >= payout_total(sch, bt.employees@, now)
                            ==> payout_in_range(sch, bt.employees@, now, c.usdc_balance)
                    },
                    None => true,
                }
            }),
        ensures
            ({
                let now = old(env).timestamp;
                let c = old(self).config(org_id, now);
                match old(self).batch(org_id, batch_id) {
                    None => {
                        &&& r == Err::<(), PayrollError>(PayrollError::BatchNotFound)
                        &&& final(self).same_records(*old(self))
                        &&& final(env).extends(*old(env), Seq::<Action>::empty())
                    },
                    Some(bt) => if bt.executed {
                        &&& r == Err::<(), PayrollError>(PayrollError::AlreadyExecuted)
                        &&& final(self).same_records(*old(self))
                        &&& final(env).extends(*old(env), Seq::<Action>::empty())
                    } else if c.approval_threshold > 1 && bt.approvals@.len()
                        < c.approval_threshold {
                        &&& r == Err::<(), PayrollError>(PayrollError::InsufficientApprovals)
                        &&& final(self).same_records(*old(self))
                        &&& final(env).extends(*old(env), Seq::<Action>::empty())
                    } else if c.usdc_balance < payout_total(
                        old(self).schedules(org_id),
                        bt.employees@,
                        now,
                    ) {
                        &&& r == Err::<(), PayrollError>(PayrollError::InsufficientBalance)
                        &&& final(self).same_records(*old(self))
                        &&& final(env).extends(*old(env), Seq::<Action>::empty())
                    } else {
                        &&& r == Ok::<(), PayrollError>(())
                        &&& final(self).paid_out(*old(self), org_id, bt, now)
                        &&& final(self).batches(org_id) == old(self).batches(org_id).update(
                            batch_id - 1,
                            BatchApproval { executed: true, ..bt },
                        )
                        &&& final(env).extends(
                            *old(env),
                            old(self).execution_actions(org_id, bt, old(env).current_contract, now),
                        )
                    },
                }
            }),
    {
        let b = self.book_index(org_id);
        proof {
            self.lemma_book_at(b as int);
            assert(self.agrees_on(*old(self), org_id));
        }
        let ghost before = *self;
        let now = env.timestamp;
        let mut config = self.config_at(b, now);
        if batch_id == 0 || batch_id > self.books[b].batches.len() as u64 {
            return Err(PayrollError::BatchNotFound);
        }
        let bi = (batch_id - 1) as usize;
        if self.books[b].batches[bi].executed {
            return Err(PayrollError::AlreadyExecuted);
        }
        if config.approval_threshold > 1 && (self.books[b].batches[bi].approvals.len() as u64)
            < config.approval_threshold as u64 {
            return Err(PayrollError::InsufficientApprovals);
        }
        proof {
            assert(self.books@[b as int].wf());
        }
        let payout = sum_due(&self.books[b].schedules, &self.books[b].batches[bi].employees, now)
            .unwrap();
        if config.usdc_balance < payout {
            return Err(PayrollError::InsufficientBalance);
        }
        let token = self.token.clone();
        let here = env.current_contract.clone();
        let ghost env0 = *env;
        let ghost sch0 = self.books@[b as int].schedules@;
        let ghost emps = self.books@[b as int].batches@[bi as int].employees@;
        proof {
            assert(self.books@[b as int].wf());
        }
        let mut total: i128 = 0;
        let mut count: u32 = 0;
        let mut i: usize = 0;
        let n = self.books[b].batches[bi].employees.len();
        while i < n
            invariant
                b < self.books@.len(),
                bi < self.books@[b as int].batches@.len(),
                self.org_registry == before.org_registry,
                self.token == before.token,
                self.books@.len() == before.books@.len(),
                forall|x: int|
                    0 <= x < self.books@.len() && x != b ==> #[trigger] self.books@[x]
                        == before.books@[x],
                self.books@[b as int].org_id == before.books@[b as int].org_id,
                self.books@[b as int].config == before.books@[b as int].config,
                self.books@[b as int].schedule_list == before.books@[b as int].schedule_list,
                self.books@[b as int].batches == before.books@[b as int].batches,
                sch0 == before.books@[b as int].schedules@,
                emps == self.books@[b as int].batches@[bi as int].employees@,
                n == emps.len(),
                n <= u32::MAX,
                unique_keys(sch0),
                distinct_addresses(emps),
                forall|j: int| 0 <= j < emps.len() ==> has_key(sch0, (#[trigger] emps[j])@),
                payout_sum_in_range(sch0, emps, now),
                forall|x: int| 0 <= x < sch0.len() ==> valid_splits((#[trigger] sch0[x]).splits@),
                payout_in_range(sch0, emps, now, config.usdc_balance),
                payout == payout_total(sch0, emps, now),
                token == before.token,
                here == env0.current_contract,
                i <= n,
                self.books@[b as int].schedules@.len() == sch0.len(),
                forall|x: int|
                    0 <= x < sch0.len() ==> #[trigger] self.books@[b as int].schedules@[x] == if sch0[x].active
                        && sch0[x].next_payment_at <= now && address_in(
                        emps.take(i as int),
                        sch0[x].employee@,
                    ) {
                        paid_schedule(sch0[x], now)
                    } else {
                        sch0[x]
                    },
                total == due_total(sch0, emps, now, i as int),
                count == emps.take(i as int).filter(|a: Address| is_due(sch0, a, now)).len(),
                count <= i,
                env.extends(env0, payout_actions(sch0, emps, i as int, now, org_id, token, here)),
            decreases n - i,
        {
            let emp = self.books[b].batches[bi].employees[i].clone();
            let ghost cur = self.books@[b as int].schedules@;
            proof {
                assert(emps[i as int] == emp);
                assert(has_key(sch0, emp@));
                assert forall|x: int| 0 <= x < sch0.len() implies (#[trigger] cur[x]).key()
                    == sch0[x].key() by {}
                lemma_same_keys(sch0, cur);
            }
            let j = find_schedule(&self.books[b].schedules, &emp).unwrap();
            proof {
                assert(sch0[j as int].key() == emp@);
                lemma_key_index(sch0, j as int);
                assert(!address_in(emps.take(i as int), emp@)) by {
                    if address_in(emps.take(i as int), emp@) {
                        let m = choose|m: int|
                            0 <= m < i && (#[trigger] emps.take(i as int)[m])@ == emp@;
                        assert(emps.take(i as int)[m] == emps[m]);
                    }
                }
                assert(cur[j as int] == sch0[j as int]);
                assert forall|x: int| 0 <= x < sch0.len() implies address_in(
                    emps.take(i + 1),
                    (#[trigger] sch0[x]).employee@,
                ) == (address_in(emps.take(i as int), sch0[x].employee@) || sch0[x].employee@
                    == emp@) by {
                    if address_in(emps.take(i + 1), sch0[x].employee@) {
                        let m = choose|m: int|
                            0 <= m < i + 1 && (#[trigger] emps.take(i + 1)[m])@
                                == sch0[x].employee@;
                        if m < i {
                            assert(emps.take(i as int)[m] == emps.take(i + 1)[m]);
                        }
                    }
                    if address_in(emps.take(i as int), sch0[x].employee@) {
                        let m = choose|m: int|
                            0 <= m < i && (#[trigger] emps.take(i as int)[m])@
                                == sch0[x].employee@;
                        assert(emps.take(i as int)[m] == emps.take(i + 1)[m]);
                    }
                    if sch0[x].employee@ == emp@ {
                        assert(emps.take(i + 1)[i as int] == emp);
                    }
                }
            }
            proof {
                reveal_with_fuel(Seq::<_>::filter, 1);
                let next = emps.take(i + 1);
                assert(next.drop_last() =~= emps.take(i as int));
                assert(next.last() == emps[i as int]);
            }
            if !(self.books[b].schedules[j].active && self.books[b].schedules[j].next_payment_at
                <= now) {
                proof {
                    assert(!is_due(sch0, emps[i as int], now));
                    assert(env.actions@ =~= env0.actions@ + payout_actions(
                        sch0,
                        emps,
                        i + 1,
                        now,
                        org_id,
                        token,
                        here,
                    ));
                }
                i = i + 1;
                continue;
            }
            let amount = self.books[b].schedules[j].amount;
            proof {
                assert(is_due(sch0, emps[i as int], now));
                assert(schedule_in_range(sch0[j as int], now));
                assert(due_total(sch0, emps, now, i + 1) == total + amount);
                assert(fits_i128(due_total(sch0, emps, now, i + 1)));
            }
            let ghost before_splits = *env;
            transfer_splits(env, &token, &here, amount, &self.books[b].schedules[j].splits);
            total = total + amount;
            count = count + 1;
            let period = self.books[b].schedules[j].frequency.period_seconds();
            let paid_so_far = self.books[b].schedules[j].total_paid + amount;
            self.books[b].schedules[j].total_paid = paid_so_far;
            self.books[b].schedules[j].last_paid_at = now;
            self.books[b].schedules[j].next_payment_at = now + period;
            env.publish(Event::EmployeePaid { org_id, employee: emp, amount });
            proof {
                assert(self.books@[b as int].schedules@[j as int] == paid_schedule(sch0[j as int], now));
                assert forall|x: int|
                    0 <= x < self.books@.len() && x != b implies #[trigger] self.books@[x]
                        == before.books@[x] by {}
                assert forall|x: int| 0 <= x < sch0.len() implies #[trigger] self.books@[b as int].schedules@[x]
                    == if sch0[x].active && sch0[x].next_payment_at <= now && address_in(
                    emps.take(i + 1),
                    sch0[x].employee@,
                ) {
                    paid_schedule(sch0[x], now)
                } else {
                    sch0[x]
                } by {
                    if x != j {
                        assert(sch0[x].key() != emp@);
                    }
                }
                assert(env.actions@ =~= env0.actions@ + payout_actions(
                    sch0,
                    emps,
                    i + 1,
                    now,
                    org_id,
                    token,
                    here,
                ));
            }
            i = i + 1;
        }
        proof {
            assert(emps.take(n as int) =~= emps);
        }
        config.usdc_balance = config.usdc_balance - total;
        self.books[b].config = Some(config);
        self.books[b].batches[bi].executed = true;
        env.publish(
            Event::PayrollExecuted {
                org_id,
                batch_id,
                total_disbursed: total,
                employee_count: count,
            },
        );
        proof {
            let nb = self.books@[b as int];
            let ob = before.books@[b as int];
            assert(self.books@ =~= before.books@.update(b as int, nb));
            OrgPayroll::lemma_same_shape(ob, nb);
            Self::lemma_book_replaced(before, *self, b as int);
            Self::lemma_touch_chain(*old(self), before, *self, org_id);
            lemma_same_keys(sch0, nb.schedules@);
            assert forall|e: Seq<char>| #[trigger] self.schedule(org_id, e) == match old(self).schedule(
                org_id,
                e,
            ) {
                Some(s) => if s.active && s.next_payment_at <= now && address_in(emps, e) {
                    Some(paid_schedule(s, now))
                } else {
                    Some(s)
                },
                None => None,
            } by {
                if has_key(sch0, e) {
                    let x = key_index(sch0, e);
                    lemma_key_index(sch0, x);
                }
            }
            assert(nb.batches@ =~= ob.batches@.update(bi as int, BatchApproval { executed: true, ..ob.batches@[bi as int] }));
        }
        Ok(())
    }


    /// Records `signer`'s approval of batch `batch_id` of `org_id`; `signer`
    /// must be a signer of `org_id`. Once the batch has as many approvals as
    /// the organization's threshold, it is executed in the same call.
    pub fn approve_batch<R: OrgRegistryInterface>(
        &mut self,
        registry: &R,
        env: &mut Env,
        org_id: u64,
        batch_id: u64,
        signer: Address,
    ) -> (r: Result<(), PayrollError>)
        requires
            old(self).wf(),
            registry.spec_is_signer(org_id, signer@) ==> ({
                let c = old(self).config(org_id, old(env).timestamp);
                let sch = old(self).schedules(org_id);
                let now = old(env).timestamp;
                match old(self).batch(org_id, batch_id) {
                    Some(bt) => !bt.executed ==> {
                        &&& bt.approvals@.len() < u32::MAX
                        &&& approvals_with(bt, signer).len() >= c.approval_threshold ==> {
                            &&& payout_sum_in_range(sch, bt.employees@, now)
                            &&& c.usdc_balance >= payout_total(sch, bt.employees@, now)
                                ==> payout_in_range(sch, bt.employees@, now, c.usdc_balance)
                        }
                    },
                    None => true,
                }
            }),
        ensures
            ({
                let now = old(env).timestamp;
                let c = old(self).config(org_id, now);
                let auth = seq![Action::RequireAuth(signer)];
                if !registry.spec_is_signer(org_id, signer@) {
                    &&& r == Err::<(), PayrollError>(PayrollError::NotAuthorized)
                    &&& final(self).same_records(*old(self))
                    &&& final(env).extends(*old(env), auth)
                } else {
                    match old(self).batch(org_id, batch_id) {
                        None => {
                            &&& r == Err::<(), PayrollError>(PayrollError::BatchNotFound)
                            &&& final(self).same_records(*old(self))
                            &&& final(env).extends(*old(env), auth)
                        },
                        Some(bt) => {
                            let approvals = approvals_with(bt, signer);
                            let reached = approvals.len() >= c.approval_threshold;
                            let approved = Action::Publish(
                                Event::BatchApproved {
                                    org_id,
                                    batch_id,
                                    signer,
                                    approvals_so_far: approvals.len() as u32,
                                    threshold: c.approval_threshold,
                                },
                            );
                            if bt.executed {
                                &&& r == Err::<(), PayrollError>(PayrollError::AlreadyExecuted)
                                &&& final(self).same_records(*old(self))
                                &&& final(env).extends(*old(env), auth)
                            } else if reached && c.usdc_balance < payout_total(
                                old(self).schedules(org_id),
                                bt.employees@,
                                now,
                            ) {
                                &&& r == Err::<(), PayrollError>(PayrollError::InsufficientBalance)
                                &&& final(self).same_records(*old(self))
                                &&& final(env).extends(*old(env), auth)
                            } else {
                                &&& r == Ok::<(), PayrollError>(())
                                &&& final(self).batches(org_id).len() == old(self).batches(
                                    org_id,
                                ).len()
                                &&& forall|k: int|
                                    0 <= k < old(self).batches(org_id).len() && k != batch_id - 1
                                        ==> #[trigger] final(self).batches(org_id)[k] == old(
                                        self,
                                    ).batches(org_id)[k]
                                &&& approved_batch(
                                    final(self).batches(org_id)[batch_id - 1],
                                    bt,
                                    approvals,
                                    reached,
                                )
                                &&& !reached ==> {
                                    &&& final(self).only_touches(*old(self), org_id)
                                    &&& final(self).stored_config(org_id) == old(
                                        self,
                                    ).stored_config(org_id)
                                    &&& final(self).schedules(org_id) == old(self).schedules(org_id)
                                    &&& final(self).schedule_list(org_id) == old(
                                        self,
                                    ).schedule_list(org_id)
                                    &&& final(env).extends(*old(env), auth.push(approved))
                                }
                                &&& reached ==> {
                                    &&& final(self).paid_out(*old(self), org_id, bt, now)
                                    &&& final(env).extends(
                                        *old(env),
                                        auth.push(approved) + old(self).execution_actions(
                                            org_id,
                                            bt,
                                            old(env).current_contract,
                                            now,
                                        ),
                                    )
                                }
                            }
                        },
                    }
                }
            }),
    {
        env.require_auth(&signer);
        if !registry.is_signer(org_id, &signer) {
            return Err(PayrollError::NotAuthorized);
        }
        let b = self.book_index(org_id);
        proof {
            self.lemma_book_at(b as int);
            assert(self.agrees_on(*old(self), org_id));
        }
        let ghost before = *self;
        let ghost env0 = *env;
        let now = env.timestamp;
        let config = self.config_at(b, now);
        if batch_id == 0 || batch_id > self.books[b].batches.len() as u64 {
            return Err(PayrollError::BatchNotFound);
        }
        let bi = (batch_id - 1) as usize;
        if self.books[b].batches[bi].executed {
            return Err(PayrollError::AlreadyExecuted);
        }
        let already = find_address(&self.books[b].batches[bi].approvals, &signer).is_some();
        let count: u32 = if already {
            self.books[b].batches[bi].approvals.len() as u32
        } else {
            self.books[b].batches[bi].approvals.len() as u32 + 1
        };
        let reached = count >= config.approval_threshold;
        if reached {
            proof {
                assert(self.books@[b as int].wf());
            }
            let payout = sum_due(&self.books[b].schedules, &self.books[b].batches[bi].employees, now)
                .unwrap();
            if config.usdc_balance < payout {
                return Err(PayrollError::InsufficientBalance);
            }
        }
        if !already {
            self.books[b].batches[bi].approvals.push(signer.clone());
        }
        proof {
            let nb = self.books@[b as int];
            let ob = before.books@[b as int];
            assert(self.books@ =~= before.books@.update(b as int, nb));
            OrgPayroll::lemma_same_shape(ob, nb);
            Self::lemma_book_replaced(before, *self, b as int);
            Self::lemma_touch_chain(*old(self), before, *self, org_id);
            assert(nb.batches@ =~= ob.batches@.update(bi as int, nb.batches@[bi as int]));
        }
        let ghost mid = *self;
        env.publish(
            Event::BatchApproved {
                org_id,
                batch_id,
                signer,
                approvals_so_far: count,
                threshold: config.approval_threshold,
            },
        );
        if reached {
            proof {
                assert(mid.schedules(org_id) == old(self).schedules(org_id));
                assert(mid.config(org_id, now) == old(self).config(org_id, now));
            }
            let result = self.execute_payroll(env, org_id, batch_id);
            proof {
                assert(result is Ok);
                Self::lemma_touch_chain(*old(self), *old(self), mid, org_id);
                assert forall|o: u64| o != org_id implies #[trigger] self.agrees_on(*old(self), o) by {
                    assert(self.agrees_on(mid, o));
                    assert(mid.agrees_on(*old(self), o));
                }
                assert forall|o: u64| #[trigger] old(self).agrees_on(*old(self), o) by {}
                assert(env.actions@ =~= old(env).actions@ + seq![Action::RequireAuth(signer)].push(
                    Action::Publish(
                        Event::BatchApproved {
                            org_id,
                            batch_id,
                            signer,
                            approvals_so_far: count,
                            threshold: config.approval_threshold,
                        },
                    ),
                ) + old(self).execution_actions(
                    org_id,
                    mid.batch(org_id, batch_id)->0,
                    old(env).current_contract,
                    now,
                ));
            }
            return result;
        }
        Ok(())
    }


    /// The position of the book of `org_id`, if there is one.
    fn find_book(&self, org_id: u64) -> (r: Option<usize>)
        requires
            self.wf(),
        ensures
            match r {
                Some(b) => b < self.books@.len() && self.books@[b as int].org_id == org_id,
                None => lookup(self.books@, org_id) is None,
            },
    {
        let mut i: usize = 0;
        while i < self.books.len()
            invariant
                i <= self.books@.len(),
                forall|k: int| 0 <= k < i ==> (#[trigger] self.books@[k]).org_id != org_id,
            decreases self.books@.len() - i,
        {
            if self.books[i].org_id == org_id {
                return Some(i);
            }
            i = i + 1;
        }
        proof {
            assert(!has_key(self.books@, org_id)) by {
                if has_key(self.books@, org_id) {
                    let k = key_index(self.books@, org_id);
                    assert(self.books@[k].key() == org_id);
                }
            }
        }
        None
    }

    /// Whether `prepare_batch` for `org_id` in `env` stays within the
    /// machine's integer types.
    pub fn prepare_batch_fits(&self, env: &Env, org_id: u64) -> (r: bool)
        requires
            self.wf(),
        ensures
            r == ({
                &&& forall|n: int|
                    0 <= n <= self.schedule_list(org_id).len() ==> fits_i128(
                        #[trigger] due_total(
                            self.schedules(org_id),
                            self.schedule_list(org_id),
                            env.timestamp,
                            n,
                        ),
                    )
                &&& due_employees(self.schedules(org_id), self.schedule_list(org_id), env.timestamp).len()
                    > 0 ==> {
                    &&& self.config(org_id, env.timestamp).current_batch_id < u64::MAX
                    &&& due_employees(
                        self.schedules(org_id),
                        self.schedule_list(org_id),
                        env.timestamp,
                    ).len() <= u32::MAX
                }
            }),
    {
        match self.find_book(org_id) {
            Some(b) => {
                proof {
                    self.lemma_book_at(b as int);
                }
                let config = self.config_at(b, env.timestamp);
                let due = self.books[b].due_count(env.timestamp);
                self.books[b].due_fits(env.timestamp) && (due == 0 || (config.current_batch_id
                    < u64::MAX && due as u64 <= u32::MAX as u64))
            },
            None => {
                proof {
                    reveal_with_fuel(Seq::<_>::filter, 1);
                    assert(due_employees(
                        Seq::<PaymentSchedule>::empty(),
                        Seq::<Address>::empty(),
                        env.timestamp,
                    ) =~= Seq::<Address>::empty());
                    assert forall|n: int| 0 <= n <= 0 implies fits_i128(
                        #[trigger] due_total(
                            Seq::<PaymentSchedule>::empty(),
                            Seq::<Address>::empty(),
                            env.timestamp,
                            n,
                        ),
                    ) by {}
                }
                true
            },
        }
    }

    /// Whether `withdraw_funds` of `amount` for `org_id` in `env`, once the
    /// caller is an admin, stays within the machine's integer types.
    pub fn withdraw_funds_fits(&self, env: &Env, org_id: u64, amount: i128) -> (r: bool)
        requires
            self.wf(),
        ensures
            r == ({
                &&& forall|n: int|
                    0 <= n <= self.schedule_list(org_id).len() ==> fits_i128(
                        #[trigger] active_total(self.schedules(org_id), self.schedule_list(org_id), n),
                    )
                &&& fits_i128(self.config(org_id, env.timestamp).usdc_balance - amount)
            }),
    {
        match self.find_book(org_id) {
            Some(b) => {
                proof {
                    self.lemma_book_at(b as int);
                }
                let config = self.config_at(b, env.timestamp);
                self.books[b].obligation_fits() && config.usdc_balance.checked_sub(amount).is_some()
            },
            None => {
                proof {
                    assert forall|n: int| 0 <= n <= 0 implies fits_i128(
                        #[trigger] active_total(
                            Seq::<PaymentSchedule>::empty(),
                            Seq::<Address>::empty(),
                            n,
                        ),
                    ) by {}
                }
                0i128.checked_sub(amount).is_some()
            },
        }
    }

    /// Whether `execute_payroll` of batch `batch_id` of `org_id` in `env`
    /// stays within the machine's integer types.
    pub fn execute_payroll_fits(&self, env: &Env, org_id: u64, batch_id: u64) -> (r: bool)
        requires
            self.wf(),
        ensures
            r == ({
                let c = self.config(org_id, env.timestamp);
                let sch = self.schedules(org_id);
                match self.batch(org_id, batch_id) {
                    Some(bt) => !bt.executed && !(c.approval_threshold > 1 && bt.approvals@.len()
                        < c.approval_threshold) ==> {
                        &&& payout_sum_in_range(sch, bt.employees@, env.timestamp)
                        &&& c.usdc_balance >= payout_total(sch, bt.employees@, env.timestamp)
                            ==> payout_in_range(sch, bt.employees@, env.timestamp, c.usdc_balance)
                    },
                    None => true,
                }
            }),
    {
        match self.find_book(org_id) {
            Some(b) => {
                proof {
                    self.lemma_book_at(b as int);
                }
                if batch_id == 0 || batch_id > self.books[b].batches.len() as u64 {
                    return true;
                }
                let bi = (batch_id - 1) as usize;
                let config = self.config_at(b, env.timestamp);
                let bt = &self.books[b].batches[bi];
                if bt.executed || (config.approval_threshold > 1 && (bt.approvals.len() as u64)
                    < config.approval_threshold as u64) {
                    return true;
                }
                proof {
                    assert(self.books@[b as int].wf());
                }
                match sum_due(&self.books[b].schedules, &bt.employees, env.timestamp) {
                    Some(payout) => config.usdc_balance < payout || self.books[b].payout_fits(
                        bi,
                        env.timestamp,
                        config.usdc_balance,
                    ),
                    None => false,
                }
            },
            None => true,
        }
    }

    /// Whether `approve_batch` of batch `batch_id` of `org_id` by `signer`
    /// in `env` stays within the machine's integer types.
    pub fn approve_batch_fits(&self, env: &Env, org_id: u64, batch_id: u64, signer: &Address) -> (r:
        bool)
        requires
            self.wf(),
        ensures
            r == ({
                let c = self.config(org_id, env.timestamp);
                let sch = self.schedules(org_id);
                match self.batch(org_id, batch_id) {
                    Some(bt) => !bt.executed ==> {
                        &&& bt.approvals@.len() < u32::MAX
                        &&& approvals_with(bt, *signer).len() >= c.approval_threshold ==> {
                            &&& payout_sum_in_range(sch, bt.employees@, env.timestamp)
                            &&& c.usdc_balance >= payout_total(sch, bt.employees@, env.timestamp)
                                ==> payout_in_range(sch, bt.employees@, env.timestamp, c.usdc_balance)
                        }
                    },
                    None => true,
                }
            }),
    {
        match self.find_book(org_id) {
            Some(b) => {
                proof {
                    self.lemma_book_at(b as int);
                }
                if batch_id == 0 || batch_id > self.books[b].batches.len() as u64 {
                    return true;
                }
                let bi = (batch_id - 1) as usize;
                let config = self.config_at(b, env.timestamp);
                let bt = &self.books[b].batches[bi];
                if bt.executed {
                    return true;
                }
                if bt.approvals.len() as u64 >= u32::MAX as u64 {
                    return false;
                }
                let count: u64 = if find_address(&bt.approvals, signer).is_some() {
                    bt.approvals.len() as u64
                } else {
                    bt.approvals.len() as u64 + 1
                };
                if count < config.approval_threshold as u64 {
                    return true;
                }
                proof {
                    assert(self.books@[b as int].wf());
                }
                match sum_due(&self.books[b].schedules, &bt.employees, env.timestamp) {
                    Some(payout) => config.usdc_balance < payout || self.books[b].payout_fits(
                        bi,
                        env.timestamp,
                        config.usdc_balance,
                    ),
                    None => false,
                }
            },
            None => true,
        }
    }

    /// The schedule of `employee` in `org_id`.
    pub fn get_schedule(&self, org_id: u64, employee: Address) -> (r: Result<
        &PaymentSchedule,
        PayrollError,
    >)
        requires
            self.wf(),
        ensures
            match self.schedule(org_id, employee@) {
                Some(s) => r matches Ok(x) && *x == s,
                None => r matches Err(e) && e == PayrollError::ScheduleNotFound,
            },
    {
        match self.find_book(org_id) {
            Some(b) => {
                proof {
                    self.lemma_book_at(b as int);
                }
                match find_schedule(&self.books[b].schedules, &employee) {
                    Some(j) => Ok(&self.books[b].schedules[j]),
                    None => Err(PayrollError::ScheduleNotFound),
                }
            },
            None => Err(PayrollError::ScheduleNotFound),
        }
    }

    /// Batch `batch_id` of `org_id`.
    pub fn get_batch(&self, org_id: u64, batch_id: u64) -> (r: Result<&BatchApproval, PayrollError>)
        requires
            self.wf(),
        ensures
            match self.batch(org_id, batch_id) {
                Some(bt) => r matches Ok(x) && *x == bt,
                None => r matches Err(e) && e == PayrollError::BatchNotFound,
            },
    {
        match self.find_book(org_id) {
            Some(b) => {
                proof {
                    self.lemma_book_at(b as int);
                }
                if batch_id == 0 || batch_id > self.books[b].batches.len() as u64 {
                    Err(PayrollError::BatchNotFound)
                } else {
                    Ok(&self.books[b].batches[(batch_id - 1) as usize])
                }
            },
            None => Err(PayrollError::BatchNotFound),
        }
    }

    /// The funded balance of `org_id`.
    pub fn get_org_balance(&self, org_id: u64) -> (r: Result<i128, PayrollError>)
        requires
            self.wf(),
        ensures
            r == Ok::<i128, PayrollError>(self.balance(org_id)),
    {
        match self.find_book(org_id) {
            Some(b) => {
                proof {
                    self.lemma_book_at(b as int);
                }
                match self.books[b].config {
                    Some(c) => Ok(c.usdc_balance),
                    None => Ok(0),
                }
            },
            None => Ok(0),
        }
    }
}

/// The shares of `amount` that the percentages of `splits` come to, each
/// rounded toward zero, in total.
pub open spec fn split_sum(amount: i128, splits: Seq<PaySplit>) -> int
    decreases splits.len(),
{
    if splits.len() == 0 {
        0
    } else {
        split_sum(amount, splits.drop_last()) + split_amount(amount, splits.last().percentage)
    }
}

/// The sum of the amounts of the transfers among `actions`.
pub open spec fn transferred(actions: Seq<Action>) -> int
    decreases actions.len(),
{
    if actions.len() == 0 {
        0
    } else {
        transferred(actions.drop_last()) + match actions.last() {
            Action::Transfer { amount, .. } => amount as int,
            _ => 0,
        }
    }
}

proof fn lemma_transferred_append(a: Seq<Action>, b: Seq<Action>)
    ensures
        transferred(a + b) == transferred(a) + transferred(b),
    decreases b.len(),
{
    if b.len() == 0 {
        assert(a + b =~= a);
    } else {
        lemma_transferred_append(a, b.drop_last());
        assert((a + b).drop_last() =~= a + b.drop_last());
        assert((a + b).last() == b.last());
    }
}

proof fn lemma_split_sum_scaled(amount: i128, splits: Seq<PaySplit>)
    requires
        amount >= 0,
    ensures
        split_sum(amount, splits) * 10_000 <= amount * percentage_sum(splits),
        split_sum(amount, splits) * 10_000 >= amount * percentage_sum(splits) - 9_999 * splits.len(),
        split_sum(amount, splits) >= 0,
    decreases splits.len(),
{
    if splits.len() > 0 {
        let rest = splits.drop_last();
        let p = splits.last().percentage;
        lemma_split_sum_scaled(amount, rest);
        let x: int = amount * p;
        assert(amount * p >= 0) by (nonlinear_arith)
            requires
                amount >= 0,
                p >= 0,
        ;
        let q = x / 10_000;
        assert(q * 10_000 <= x < q * 10_000 + 10_000) by (nonlinear_arith)
            requires
                x >= 0,
                q == x / 10_000,
        ;
        assert(q >= 0) by (nonlinear_arith)
            requires
                x >= 0,
                q == x / 10_000,
        ;
        assert(amount * percentage_sum(splits) == amount * percentage_sum(rest) + x) by (
        nonlinear_arith)
            requires
                percentage_sum(splits) == percentage_sum(rest) + p,
                x == amount * p,
        ;
        assert(split_amount(amount, p) == q);
        assert(split_sum(amount, splits) == split_sum(amount, rest) + q);
        assert(rest.len() + 1 == splits.len());
        assert(x <= q * 10_000 + 9_999);
        assert(split_sum(amount, splits) * 10_000 == split_sum(amount, rest) * 10_000 + q * 10_000);
        assert(9_999 * splits.len() == 9_999 * rest.len() + 9_999);
    } else {
        assert(amount * percentage_sum(splits) == 0) by (nonlinear_arith)
            requires
                percentage_sum(splits) == 0,
        ;
    }
}

proof fn lemma_split_sum_scaled_neg(amount: i128, splits: Seq<PaySplit>)
    requires
        amount <= 0,
    ensures
        split_sum(amount, splits) * 10_000 >= amount * percentage_sum(splits),
        split_sum(amount, splits) <= 0,
    decreases splits.len(),
{
    if splits.len() > 0 {
        let rest = splits.drop_last();
        let p = splits.last().percentage;
        lemma_split_sum_scaled_neg(amount, rest);
        let x: int = amount * p;
        assert(x <= 0) by (nonlinear_arith)
            requires
                amount <= 0,
                p >= 0,
                x == amount * p,
        ;
        let q = (-x) / 10_000;
        assert(q * 10_000 <= -x && q >= 0) by (nonlinear_arith)
            requires
                -x >= 0,
                q == (-x) / 10_000,
        ;
        assert(split_amount(amount, p) == -q) by {
            if x == 0 {
                assert(q == 0);
            }
        }
        assert(amount * percentage_sum(splits) == amount * percentage_sum(rest) + x) by (
        nonlinear_arith)
            requires
                percentage_sum(splits) == percentage_sum(rest) + p,
                x == amount * p,
        ;
        assert(split_sum(amount, splits) == split_sum(amount, rest) - q);
    } else {
        assert(amount * percentage_sum(splits) == 0) by (nonlinear_arith)
            requires
                percentage_sum(splits) == 0,
        ;
    }
}

/// The rounded shares of the first `k` splits of a list sharing out 100%
/// lie between nothing and the whole amount.
proof fn lemma_split_sum_within(amount: i128, splits: Seq<PaySplit>, k: int)
    requires
        valid_splits(splits),
        0 <= k <= splits.len(),
    ensures
        amount >= 0 ==> 0 <= split_sum(amount, splits.take(k)) <= amount,
        amount < 0 ==> amount <= split_sum(amount, splits.take(k)) <= 0,
{
    let pre = splits.take(k);
    lemma_percentage_sum_prefix(splits, k);
    let ps = percentage_sum(pre);
    let ss = split_sum(amount, pre);
    if amount >= 0 {
        lemma_split_sum_scaled(amount, pre);
        assert(ss <= amount) by (nonlinear_arith)
            requires
                ss * 10_000 <= amount * ps,
                ps <= 10_000,
                amount >= 0,
        ;
    } else {
        lemma_split_sum_scaled_neg(amount, pre);
        assert(ss >= amount) by (nonlinear_arith)
            requires
                ss * 10_000 >= amount * ps,
                ps <= 10_000,
                ps >= 0,
                amount < 0,
        ;
    }
}

proof fn lemma_split_transfers_upto(
    token: Address,
    from: Address,
    amount: i128,
    splits: Seq<PaySplit>,
    k: int,
)
    requires
        amount >= 0,
        valid_splits(splits),
        0 <= k <= splits.len(),
    ensures
        transferred(split_transfers_upto(token, from, amount, splits, k)) == if k == splits.len() {
            amount as int
        } else {
            split_sum(amount, splits.take(k))
        },
    decreases k,
{
    if k == 0 {
        assert(splits.take(0) =~= Seq::<PaySplit>::empty());
    } else {
        lemma_split_transfers_upto(token, from, amount, splits, k - 1);
        lemma_split_sum_within(amount, splits, k - 1);
        let share = split_share(amount, splits, k - 1);
        let sp = splits[k - 1];
        if k - 1 < splits.len() - 1 {
            lemma_percentage_le_sum(splits, k - 1);
            lemma_split_amount_bounded(amount, sp.percentage);
            assert(splits.take(k).drop_last() =~= splits.take(k - 1));
            assert(splits.take(k).last() == sp);
        }
        assert(share >= 0);
        let prev = split_transfers_upto(token, from, amount, splits, k - 1);
        let tail = if share > 0 {
            seq![Action::Transfer { token, from, to: sp.destination, amount: share as i128 }]
        } else {
            Seq::<Action>::empty()
        };
        assert(split_transfers_upto(token, from, amount, splits, k) == prev + tail);
        lemma_transferred_append(prev, tail);
        if share > 0 {
            assert(tail.drop_last() =~= Seq::<Action>::empty());
            assert(transferred(tail.drop_last()) == 0);
            assert(transferred(tail) == share);
        } else {
            assert(transferred(tail) == 0);
        }
    }
}

/// Paying an amount that is not negative across splits that share out
/// exactly 100% moves exactly that amount: the last split takes what
/// rounding the others leaves, so nothing stays behind.
pub proof fn lemma_split_transfers_pay_amount(
    token: Address,
    from: Address,
    amount: i128,
    splits: Seq<PaySplit>,
)
    requires
        amount >= 0,
        valid_splits(splits),
    ensures
        transferred(split_transfers(token, from, amount, splits)) == amount,
{
    lemma_split_transfers_upto(token, from, amount, splits, splits.len() as int);
}

proof fn lemma_split_amount_bounded(amount: i128, p: u32)
    requires
        amount >= 0,
        p <= BPS_DENOMINATOR,
    ensures
        0 <= split_amount(amount, p) <= amount,
{
    assert(0 <= amount * p <= amount * 10_000) by (nonlinear_arith)
        requires
            amount >= 0,
            0 <= p <= 10_000,
    ;
    assert((amount * p) / 10_000 <= amount) by (nonlinear_arith)
        requires
            0 <= amount * p <= amount * 10_000,
    ;
    assert((amount * p) / 10_000 >= 0) by (nonlinear_arith)
        requires
            amount * p >= 0,
    ;
}

/// No split of a list shares out more than the whole list does.
proof fn lemma_percentage_le_sum(splits: Seq<PaySplit>, j: int)
    requires
        0 <= j < splits.len(),
    ensures
        splits[j].percentage <= percentage_sum(splits),
    decreases splits.len(),
{
    if j < splits.len() - 1 {
        lemma_percentage_le_sum(splits.drop_last(), j);
    }
}

/// Executing a payout moves exactly what it debits from the organization's
/// balance, when the schedules paid have amounts that are not negative.
pub proof fn lemma_payout_moves_debit(
    schedules: Seq<PaymentSchedule>,
    emps: Seq<Address>,
    n: int,
    now: u64,
    org_id: u64,
    token: Address,
    from: Address,
)
    requires
        0 <= n <= emps.len(),
        forall|i: int|
            0 <= i < emps.len() && is_due(schedules, #[trigger] emps[i], now) ==> {
                let s = lookup(schedules, emps[i]@)->0;
                s.amount >= 0 && valid_splits(s.splits@)
            },
    ensures
        transferred(payout_actions(schedules, emps, n, now, org_id, token, from)) == due_total(
            schedules,
            emps,
            now,
            n,
        ),
    decreases n,
{
    if n > 0 {
        lemma_payout_moves_debit(schedules, emps, n - 1, now, org_id, token, from);
        let prev = payout_actions(schedules, emps, n - 1, now, org_id, token, from);
        if is_due(schedules, emps[n - 1], now) {
            let s = lookup(schedules, emps[n - 1]@)->0;
            let splits_part = split_transfers(token, from, s.amount, s.splits@);
            let last = seq![
                Action::Publish(
                    Event::EmployeePaid { org_id, employee: emps[n - 1], amount: s.amount },
                ),
            ];
            assert(payout_actions(schedules, emps, n, now, org_id, token, from) == prev + (
            splits_part + last));
            lemma_transferred_append(prev, splits_part + last);
            lemma_transferred_append(splits_part, last);
            assert(last.drop_last() =~= Seq::<Action>::empty());
            assert(transferred(last.drop_last()) == 0);
            assert(transferred(last) == 0);
            lemma_split_transfers_pay_amount(token, from, s.amount, s.splits@);
        } else {
            assert(payout_actions(schedules, emps, n, now, org_id, token, from) == prev
                + Seq::<Action>::empty());
            assert(prev + Seq::<Action>::empty() =~= prev);
        }
    }
}

proof fn lemma_due_total_prefix(
    schedules: Seq<PaymentSchedule>,
    emps: Seq<Address>,
    x: Address,
    now: u64,
    k: int,
)
    requires
        0 <= k <= emps.len(),
    ensures
        due_total(schedules, emps.push(x), now, k) == due_total(schedules, emps, now, k),
    decreases k,
{
    if k > 0 {
        lemma_due_total_prefix(schedules, emps, x, now, k - 1);
        assert(emps.push(x)[k - 1] == emps[k - 1]);
    }
}

/// What a prepared batch records as its total is what paying out its
/// employees at the same time debits, as long as their schedules have not
/// changed since.
pub proof fn lemma_batch_total_is_payout(
    schedules: Seq<PaymentSchedule>,
    list: Seq<Address>,
    now: u64,
    n: int,
)
    requires
        0 <= n <= list.len(),
    ensures
        ({
            let due = list.take(n).filter(|a: Address| is_due(schedules, a, now));
            payout_total(schedules, due, now) == due_total(schedules, list, now, n)
        }),
    decreases n,
{
    let pred = |a: Address| is_due(schedules, a, now);
    if n > 0 {
        lemma_batch_total_is_payout(schedules, list, now, n - 1);
        reveal_with_fuel(Seq::<_>::filter, 1);
        let prev = list.take(n - 1).filter(pred);
        assert(list.take(n).drop_last() =~= list.take(n - 1));
        assert(list.take(n).last() == list[n - 1]);
        if pred(list[n - 1]) {
            let due = prev.push(list[n - 1]);
            assert(list.take(n).filter(pred) == due);
            lemma_due_total_prefix(schedules, prev, list[n - 1], now, prev.len() as int);
            assert(due[due.len() - 1] == list[n - 1]);
        }
    }
}

/// A schedule paid at `now` is not due again at `now`: a second batch
/// prepared or executed at the same time does not pay it twice.
pub proof fn lemma_paid_not_due_again(s: PaymentSchedule, now: u64)
    requires
        schedule_in_range(s, now),
    ensures
        paid_schedule(s, now).next_payment_at > now,
{
}

proof fn lemma_split_transfers_only_transfer(
    token: Address,
    from: Address,
    amount: i128,
    splits: Seq<PaySplit>,
    k: int,
)
    ensures
        forall|x: int|
            0 <= x < split_transfers_upto(token, from, amount, splits, k).len() ==> (
            #[trigger] split_transfers_upto(token, from, amount, splits, k)[x]) is Transfer,
    decreases k,
{
    if k > 0 {
        lemma_split_transfers_only_transfer(token, from, amount, splits, k - 1);
        let prev = split_transfers_upto(token, from, amount, splits, k - 1);
        let all = split_transfers_upto(token, from, amount, splits, k);
        assert forall|x: int| 0 <= x < all.len() implies (#[trigger] all[x]) is Transfer by {
            if x < prev.len() {
                assert(all[x] == prev[x]);
            }
        }
    }
}

/// Every employee a payout announces as paid had a schedule that was
/// active and due: an employee whose schedule was removed, or already paid
/// for this period, is not paid.
pub proof fn lemma_paid_employees_were_due(
    schedules: Seq<PaymentSchedule>,
    emps: Seq<Address>,
    n: int,
    now: u64,
    org_id: u64,
    token: Address,
    from: Address,
)
    ensures
        forall|x: int|
            0 <= x < payout_actions(schedules, emps, n, now, org_id, token, from).len() ==> (
            #[trigger] payout_actions(schedules, emps, n, now, org_id, token, from)[x] matches Action::Publish(
                Event::EmployeePaid { employee, .. },
            ) ==> is_due(schedules, employee, now)),
    decreases n,
{
    if n > 0 {
        lemma_paid_employees_were_due(schedules, emps, n - 1, now, org_id, token, from);
        let prev = payout_actions(schedules, emps, n - 1, now, org_id, token, from);
        let all = payout_actions(schedules, emps, n, now, org_id, token, from);
        if is_due(schedules, emps[n - 1], now) {
            let s = lookup(schedules, emps[n - 1]@)->0;
            let st = split_transfers(token, from, s.amount, s.splits@);
            lemma_split_transfers_only_transfer(token, from, s.amount, s.splits@, s.splits@.len() as int);
            assert forall|x: int| 0 <= x < all.len() implies (#[trigger] all[x] matches Action::Publish(
                Event::EmployeePaid { employee, .. },
            ) ==> is_due(schedules, employee, now)) by {
                if x < prev.len() {
                    assert(all[x] == prev[x]);
                } else if x < prev.len() + st.len() {
                    assert(all[x] == st[x - prev.len()]);
                }
            }
        } else {
            assert(all =~= prev);
        }
    }
}

impl PayrollContract {
    /// Once executing a batch at `now` has paid an employee, no payout at the
    /// same time, of whichever batch, pays them again: their next payment
    /// date has moved past `now`.
    pub proof fn lemma_no_second_payment(
        before: Self,
        after: Self,
        org_id: u64,
        bt: BatchApproval,
        now: u64,
        e: Address,
        emps: Seq<Address>,
        token: Address,
        from: Address,
    )
        requires
            after.paid_out(before, org_id, bt, now),
            before.schedule(org_id, e@) matches Some(s) && s.active && s.next_payment_at <= now
                && schedule_in_range(s, now),
            address_in(bt.employees@, e@),
        ensures
            !is_due(after.schedules(org_id), e, now),
            forall|x: int|
                0 <= x < payout_actions(after.schedules(org_id), emps, emps.len() as int, now, org_id, token, from).len()
                    ==> !(#[trigger] payout_actions(
                    after.schedules(org_id),
                    emps,
                    emps.len() as int,
                    now,
                    org_id,
                    token,
                    from,
                )[x] matches Action::Publish(Event::EmployeePaid { employee, .. }) && employee@ == e@),
    {
        let s = before.schedule(org_id, e@)->0;
        assert(after.schedule(org_id, e@) == Some(paid_schedule(s, now)));
        lemma_paid_not_due_again(s, now);
        lemma_paid_employees_were_due(
            after.schedules(org_id),
            emps,
            emps.len() as int,
            now,
            org_id,
            token,
            from,
        );
    }

    /// A schedule removed (made inactive) before a batch is executed is not
    /// paid: the payout announces no payment to its employee, does not count
    /// it in what it debits, and leaves the schedule as it was.
    pub proof fn lemma_removed_schedule_not_paid(
        before: Self,
        after: Self,
        org_id: u64,
        bt: BatchApproval,
        now: u64,
        e: Address,
        token: Address,
        from: Address,
    )
        requires
            before.schedule(org_id, e@) matches Some(s) && !s.active,
            after.paid_out(before, org_id, bt, now),
        ensures
            !is_due(before.schedules(org_id), e, now),
            after.schedule(org_id, e@) == before.schedule(org_id, e@),
            forall|x: int|
                0 <= x < payout_actions(before.schedules(org_id), bt.employees@, bt.employees@.len() as int, now, org_id, token, from).len()
                    ==> !(#[trigger] payout_actions(
                    before.schedules(org_id),
                    bt.employees@,
                    bt.employees@.len() as int,
                    now,
                    org_id,
                    token,
                    from,
                )[x] matches Action::Publish(Event::EmployeePaid { employee, .. }) && employee@ == e@),
    {
        assert(after.schedule(org_id, e@) == before.schedule(org_id, e@));
        lemma_paid_employees_were_due(
            before.schedules(org_id),
            bt.employees@,
            bt.employees@.len() as int,
            now,
            org_id,
            token,
            from,
        );
    }
}

/// The withdrawal floor adds up every active schedule on the list: it is
/// nothing for no employees, and each further employee adds the amount of
/// their schedule when it is active, and nothing otherwise.
pub proof fn lemma_obligation_is_sum(schedules: Seq<PaymentSchedule>, list: Seq<Address>, n: int)
    requires
        0 <= n < list.len(),
    ensures
        active_total(schedules, list, 0) == 0,
        active_total(schedules, list, n + 1) == active_total(schedules, list, n) + match lookup(
            schedules,
            list[n]@,
        ) {
            Some(s) => if s.active {
                s.amount as int
            } else {
                0
            },
            None => 0,
        },
{
}

/// What a payout or a prepared batch costs adds up the schedules that are
/// active and due: nothing for no employees, and each further employee adds
/// the amount of their schedule when it is active and due at `now`, and
/// nothing otherwise.
pub proof fn lemma_payout_is_sum(schedules: Seq<PaymentSchedule>, list: Seq<Address>, now: u64, n: int)
    requires
        0 <= n < list.len(),
    ensures
        due_total(schedules, list, now, 0) == 0,
        due_total(schedules, list, now, n + 1) == due_total(schedules, list, now, n) + match lookup(
            schedules,
            list[n]@,
        ) {
            Some(s) => if s.active && s.next_payment_at <= now {
                s.amount as int
            } else {
                0
            },
            None => 0,
        },
{
}

/// A batch prepared with `employees` counts exactly those employees, holds
/// them, totals `total`, and starts unapproved and unexecuted at `now`.
pub proof fn lemma_prepared_batch_counts(
    nb: BatchApproval,
    batch_id: u64,
    total: int,
    employees: Seq<Address>,
    now: u64,
)
    requires
        prepared_batch(nb, batch_id, total, employees, now),
    ensures
        nb.employee_count == nb.employees@.len(),
        nb.employees@ == employees,
        nb.batch_id == batch_id,
        nb.total_amount == total,
        nb.approvals@.len() == 0,
        !nb.executed,
        nb.created_at == now,
{
}

impl PayrollContract {
    /// Executing a batch at `now` takes from the organization's balance
    /// exactly what its active, due employees are owed, and changes nothing
    /// else of its configuration; no other organization is touched.
    pub proof fn lemma_payout_debits(
        before: Self,
        after: Self,
        org_id: u64,
        bt: BatchApproval,
        now: u64,
    )
        requires
            after.paid_out(before, org_id, bt, now),
            fits_i128(before.config(org_id, now).usdc_balance - payout_total(
                before.schedules(org_id),
                bt.employees@,
                now,
            )),
        ensures
            after.stored_config(org_id) matches Some(c) && {
                let b = before.config(org_id, now);
                &&& c.usdc_balance == b.usdc_balance - due_total(
                    before.schedules(org_id),
                    bt.employees@,
                    now,
                    bt.employees@.len() as int,
                )
                &&& c.org_id == b.org_id
                &&& c.approval_threshold == b.approval_threshold
                &&& c.current_batch_id == b.current_batch_id
                &&& c.created_at == b.created_at
            },
            forall|o: u64| o != org_id ==> #[trigger] after.agrees_on(before, o),
    {
    }

    /// A schedule added at `now` is active, has paid nothing and never been
    /// paid, keeps what it was given, and is first due at `now` itself.
    pub proof fn lemma_new_schedule_due_now(
        employee: Address,
        amount: i128,
        frequency: PayFrequency,
        splits: Vec<PaySplit>,
        now: u64,
    )
        ensures
            ({
                let s = Self::new_schedule(employee, amount, frequency, splits, now);
                &&& s.next_payment_at == now
                &&& s.active
                &&& s.total_paid == 0
                &&& s.last_paid_at == 0
                &&& s.employee == employee
                &&& s.amount == amount
                &&& s.frequency == frequency
                &&& s.splits == splits
                &&& is_due(seq![s], employee, now)
            }),
    {
        let s = Self::new_schedule(employee, amount, frequency, splits, now);
        lemma_key_index(seq![s], 0);
    }

    /// Executing a batch at `now` pays each of its employees whose schedule
    /// is active and due once: their lifetime total grows by exactly the
    /// amount paid, the payment is recorded at `now`, and the next one falls
    /// one period (7, 14 or 30 days) later; the rest of the schedule stays.
    /// Every other schedule is left as it was.
    pub proof fn lemma_payment_records(
        before: Self,
        after: Self,
        org_id: u64,
        bt: BatchApproval,
        now: u64,
        e: Seq<char>,
    )
        requires
            after.paid_out(before, org_id, bt, now),
            before.schedule(org_id, e) matches Some(s) && (s.active && s.next_payment_at <= now
                && address_in(bt.employees@, e) ==> schedule_in_range(s, now)),
        ensures
            ({
                let s = before.schedule(org_id, e)->0;
                let period: int = match s.frequency {
                    PayFrequency::Weekly => 604_800int,
                    PayFrequency::Biweekly => 1_209_600int,
                    PayFrequency::Monthly => 2_592_000int,
                };
                if s.active && s.next_payment_at <= now && address_in(bt.employees@, e) {
                    after.schedule(org_id, e) matches Some(t) && {
                        &&& t.total_paid == s.total_paid + s.amount
                        &&& t.last_paid_at == now
                        &&& t.next_payment_at == now + period
                        &&& t.employee == s.employee
                        &&& t.amount == s.amount
                        &&& t.frequency == s.frequency
                        &&& t.splits == s.splits
                        &&& t.active
                    }
                } else {
                    after.schedule(org_id, e) == Some(s)
                }
            }),
    {
        assert(after.schedule(org_id, e) == match before.schedule(org_id, e) {
            Some(s) => if s.active && s.next_payment_at <= now && address_in(bt.employees@, e) {
                Some(paid_schedule(s, now))
            } else {
                Some(s)
            },
            None => None,
        });
    }
}

/// Every split but the last receives its percentage, in basis points, of the
/// amount, rounded toward zero: the share times 10,000 is within 10,000 of
/// the amount times the percentage, on the side of zero.
pub proof fn lemma_split_share_rounds(amount: i128, splits: Seq<PaySplit>, j: int)
    requires
        0 <= j < splits.len() - 1,
    ensures
        ({
            let x: int = amount * splits[j].percentage;
            let q = split_share(amount, splits, j);
            &&& x >= 0 ==> q * 10_000 <= x < q * 10_000 + 10_000
            &&& x < 0 ==> q * 10_000 - 10_000 < x <= q * 10_000
        }),
{
    let x: int = amount * splits[j].percentage;
    let q = split_share(amount, splits, j);
    if x >= 0 {
        assert(q == x / 10_000);
        assert(q * 10_000 <= x < q * 10_000 + 10_000) by (nonlinear_arith)
            requires
                x >= 0,
                q == x / 10_000,
        ;
    } else {
        let y = (-x) / 10_000;
        assert(q == -y);
        assert(y * 10_000 <= -x < y * 10_000 + 10_000) by (nonlinear_arith)
            requires
                -x > 0,
                y == (-x) / 10_000,
        ;
    }
}

/// Approving a batch adds the signer to its approvals once: the earlier
/// approvals stay, in order, and the signer is appended unless already
/// there.
pub proof fn lemma_approval_recorded_once(bt: BatchApproval, signer: Address)
    ensures
        ({
            let a = approvals_with(bt, signer);
            &&& exists|k: int| 0 <= k < a.len() && (#[trigger] a[k])@ == signer@
            &&& forall|k: int| 0 <= k < bt.approvals@.len() ==> #[trigger] a[k] == bt.approvals@[k]
            &&& a.len() == bt.approvals@.len() + if (exists|k: int|
                0 <= k < bt.approvals@.len() && (#[trigger] bt.approvals@[k])@ == signer@) {
                0int
            } else {
                1int
            }
        }),
{
    let a = approvals_with(bt, signer);
    if !address_in(bt.approvals@, signer@) {
        assert(a[a.len() - 1] == signer);
    }
}

/// The employees a batch prepared at `now` collects are exactly the listed
/// employees whose schedules are active and due at `now`.
pub proof fn lemma_due_employees_members(
    schedules: Seq<PaymentSchedule>,
    list: Seq<Address>,
    now: u64,
)
    ensures
        forall|i: int|
            0 <= i < due_employees(schedules, list, now).len() ==> {
                let a = #[trigger] due_employees(schedules, list, now)[i];
                &&& list.contains(a)
                &&& lookup(schedules, a@) matches Some(s) && s.active && s.next_payment_at <= now
            },
        forall|i: int|
            0 <= i < list.len() && (lookup(schedules, list[i]@) matches Some(s) && s.active
                && s.next_payment_at <= now) ==> due_employees(schedules, list, now).contains(
                #[trigger] list[i],
            ),
{
    let pred = |a: Address| is_due(schedules, a, now);
    assert forall|i: int| 0 <= i < list.filter(pred).len() implies list.contains(
        #[trigger] list.filter(pred)[i],
    ) && pred(list.filter(pred)[i]) by {
        list.lemma_filter_pred(pred, i);
        list.lemma_filter_contains_rev(pred, list.filter(pred)[i]);
    }
    assert forall|i: int| 0 <= i < list.len() && pred(list[i]) implies list.filter(pred).contains(
        #[trigger] list[i],
    ) by {
        list.lemma_filter_contains(pred, i);
    }
}

/// An organization whose payroll has never been configured reads as a
/// zero balance, a threshold of one approval, no batches yet, and created
/// at the time it is read.
pub proof fn lemma_fresh_config(org_id: u64, now: u64)
    ensures
        default_config(org_id, now).org_id == org_id,
        default_config(org_id, now).usdc_balance == 0,
        default_config(org_id, now).approval_threshold == 1,
        default_config(org_id, now).current_batch_id == 0,
        default_config(org_id, now).created_at == now,
{
}

} // verus!
