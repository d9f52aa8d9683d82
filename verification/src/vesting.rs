//! Token grants that vest after a cliff and then linearly, claimable by the
//! employee and revocable by the organization's admin.
use vstd::prelude::*;

use crate::host::{Action, Address, Env, Event};
use crate::org_registry::OrgRegistryInterface;

verus! {

/// A grant of `total_amount` of `token` to `employee`.
#[derive(Debug, PartialEq, Eq)]
pub struct VestingGrant {
    pub grant_id: u64,
    pub org_id: u64,
    pub employee: Address,
    pub token: Address,
    pub total_amount: i128,
    pub claimed_amount: i128,
    pub start_at: u64,
    pub cliff_seconds: u64,
    pub vesting_seconds: u64,
    pub revoked: bool,
    pub revoked_at: u64,
}

impl Clone for VestingGrant {
    fn clone(&self) -> (r: Self)
        ensures
            r == *self,
    {
        VestingGrant {
            grant_id: self.grant_id,
            org_id: self.org_id,
            employee: self.employee.clone(),
            token: self.token.clone(),
            total_amount: self.total_amount,
            claimed_amount: self.claimed_amount,
            start_at: self.start_at,
            cliff_seconds: self.cliff_seconds,
            vesting_seconds: self.vesting_seconds,
            revoked: self.revoked,
            revoked_at: self.revoked_at,
        }
    }
}

#[derive(Clone, Copy, Debug, PartialEq, Eq, PartialOrd, Ord, Structural)]
pub enum VestingError {
    GrantNotFound,
    NotAuthorized,
    GrantRevoked,
    NothingClaimable,
}

/// Integer division of `a` by a positive `b`, rounding toward zero.
pub open spec fn div_toward_zero(a: int, b: int) -> int {
    if a >= 0 {
        a / b
    } else {
        -((-a) / b)
    }
}

/// The time up to which a grant vests: the revocation time once revoked.
pub open spec fn effective_time(g: VestingGrant, now: u64) -> u64 {
    if g.revoked {
        g.revoked_at
    } else {
        now
    }
}

/// The amount of `g` vested at `now`: nothing before the cliff, then the
/// share of the total that the elapsed part of the vesting period makes,
/// and the whole total once the period has passed.
pub open spec fn vested(g: VestingGrant, now: u64) -> int {
    let t = effective_time(g, now);
    if t < g.start_at + g.cliff_seconds {
        0
    } else if t - g.start_at >= g.vesting_seconds {
        g.total_amount as int
    } else {
        div_toward_zero(g.total_amount * (t - g.start_at), g.vesting_seconds as int)
    }
}

/// The vesting computation for `g` at `now` stays within the machine's
/// integer types.
pub open spec fn vesting_in_range(g: VestingGrant, now: u64) -> bool {
    let t = effective_time(g, now);
    &&& g.start_at + g.cliff_seconds <= u64::MAX
    &&& (g.start_at + g.cliff_seconds <= t && t - g.start_at < g.vesting_seconds) ==> i128::MIN
        <= g.total_amount * (t - g.start_at) <= i128::MAX
}

/// What can be claimed of `g` at `now`: vested minus already claimed.
pub open spec fn claimable(g: VestingGrant, now: u64) -> int {
    vested(g, now) - g.claimed_amount
}

/// The claim computation for `g` at `now` stays within the machine's
/// integer types.
pub open spec fn claim_in_range(g: VestingGrant, now: u64) -> bool {
    &&& vesting_in_range(g, now)
    &&& i128::MIN <= claimable(g, now) <= i128::MAX
}

proof fn lemma_div_toward_zero_bounds(a: int, b: int)
    requires
        b > 0,
    ensures
        a >= 0 ==> 0 <= div_toward_zero(a, b) <= a,
        a < 0 ==> a <= div_toward_zero(a, b) <= 0,
{
    if a >= 0 {
        assert(a / b <= a) by (nonlinear_arith)
            requires
                a >= 0,
                b > 0,
        ;
        assert(a / b >= 0) by (nonlinear_arith)
            requires
                a >= 0,
                b > 0,
        ;
    } else {
        assert((-a) / b <= -a) by (nonlinear_arith)
            requires
                -a > 0,
                b > 0,
        ;
        assert((-a) / b >= 0) by (nonlinear_arith)
            requires
                -a > 0,
                b > 0,
        ;
    }
}

/// The vested amount lies between nothing and the grant's total.
pub proof fn lemma_vested_within_total(g: VestingGrant, now: u64)
    ensures
        g.total_amount >= 0 ==> 0 <= vested(g, now) <= g.total_amount,
        g.total_amount < 0 ==> g.total_amount <= vested(g, now) <= 0,
{
    let t = effective_time(g, now);
    if t >= g.start_at + g.cliff_seconds && t - g.start_at < g.vesting_seconds {
        let e: int = t - g.start_at;
        let total: int = g.total_amount as int;
        let vs: int = g.vesting_seconds as int;
        lemma_div_toward_zero_bounds(total * e, vs);
        if total >= 0 {
            assert(total * e <= total * vs) by (nonlinear_arith)
                requires
                    total >= 0,
                    0 <= e < vs,
            ;
            assert((total * e) / vs <= total) by (nonlinear_arith)
                requires
                    total * e <= total * vs,
                    vs > 0,
            ;
            assert(total * e >= 0) by (nonlinear_arith)
                requires
                    total >= 0,
                    e >= 0,
            ;
        } else {
            assert((-total) * e <= (-total) * vs) by (nonlinear_arith)
                requires
                    -total > 0,
                    0 <= e < vs,
            ;
            assert(((-total) * e) / vs <= -total) by (nonlinear_arith)
                requires
                    (-total) * e <= (-total) * vs,
                    vs > 0,
            ;
            assert(total * e <= 0) by (nonlinear_arith)
                requires
                    total < 0,
                    e >= 0,
            ;
            assert(-(total * e) == (-total) * e) by (nonlinear_arith);
        }
    }
}

/// Nothing of a grant vests before its cliff.
pub proof fn lemma_nothing_before_cliff(g: VestingGrant, now: u64)
    requires
        effective_time(g, now) < g.start_at + g.cliff_seconds,
    ensures
        vested(g, now) == 0,
{
}

/// Once the cliff and the whole vesting period have passed, the whole grant
/// has vested.
pub proof fn lemma_fully_vested(g: VestingGrant, now: u64)
    requires
        effective_time(g, now) >= g.start_at + g.cliff_seconds,
        effective_time(g, now) >= g.start_at + g.vesting_seconds,
    ensures
        vested(g, now) == g.total_amount,
{
}

/// A grant that is not revoked vests more as time passes, never less.
pub proof fn lemma_vested_monotone(g: VestingGrant, now1: u64, now2: u64)
    requires
        g.total_amount >= 0,
        !g.revoked,
        now1 <= now2,
    ensures
        vested(g, now1) <= vested(g, now2),
{
    lemma_vested_within_total(g, now1);
    lemma_vested_within_total(g, now2);
    let total: int = g.total_amount as int;
    let vs: int = g.vesting_seconds as int;
    if now1 >= g.start_at + g.cliff_seconds && now2 - g.start_at < g.vesting_seconds {
        let e1: int = now1 - g.start_at;
        let e2: int = now2 - g.start_at;
        assert(total * e1 <= total * e2) by (nonlinear_arith)
            requires
                total >= 0,
                e1 <= e2,
        ;
        assert(total * e1 >= 0) by (nonlinear_arith)
            requires
                total >= 0,
                e1 >= 0,
        ;
        assert((total * e1) / vs <= (total * e2) / vs) by (nonlinear_arith)
            requires
                total * e1 <= total * e2,
                vs > 0,
        ;
    }
}

/// Between the cliff and the end of the vesting period, a grant whose total
/// is not negative has vested its total times the fraction of the period
/// elapsed since its start, rounded down; a revocation stops the clock at
/// the time of revocation.
pub proof fn lemma_vested_linear(g: VestingGrant, now: u64)
    requires
        g.total_amount >= 0,
        ({
            let t: int = if g.revoked {
                g.revoked_at as int
            } else {
                now as int
            };
            g.start_at + g.cliff_seconds <= t && t - g.start_at < g.vesting_seconds
        }),
    ensures
        ({
            let t: int = if g.revoked {
                g.revoked_at as int
            } else {
                now as int
            };
            let e: int = t - g.start_at;
            &&& vested(g, now) * g.vesting_seconds <= g.total_amount * e
            &&& g.total_amount * e < (vested(g, now) + 1) * g.vesting_seconds
        }),
{
    let t: int = if g.revoked {
        g.revoked_at as int
    } else {
        now as int
    };
    let e: int = t - g.start_at;
    let total: int = g.total_amount as int;
    let vs: int = g.vesting_seconds as int;
    let x = total * e;
    assert(x >= 0) by (nonlinear_arith)
        requires
            total >= 0,
            e >= 0,
            x == total * e,
    ;
    let q = x / vs;
    assert(vested(g, now) == q);
    assert(q * vs <= x < (q + 1) * vs) by (nonlinear_arith)
        requires
            x >= 0,
            vs > 0,
            q == x / vs,
    ;
}

/// A revoked grant vests no further: its vested amount no longer depends on
/// the time.
pub proof fn lemma_revocation_freezes(g: VestingGrant, now1: u64, now2: u64)
    requires
        g.revoked,
    ensures
        vested(g, now1) == vested(g, now2),
{
}

/// The vested amount does not depend on what has been claimed.
pub proof fn lemma_vested_ignores_claims(g: VestingGrant, claimed: i128, now: u64)
    ensures
        vested(VestingGrant { claimed_amount: claimed, ..g }, now) == vested(g, now),
{
}

/// `g` after a revocation at `now`.
pub open spec fn revoked_grant(g: VestingGrant, now: u64) -> VestingGrant {
    VestingGrant { revoked: true, revoked_at: now, ..g }
}

/// An employee keeps what had vested when the grant was revoked, and keeps
/// exactly that at any later time.
pub proof fn lemma_revocation_keeps_vested(g: VestingGrant, now: u64, later: u64)
    requires
        !g.revoked,
    ensures
        vested(revoked_grant(g, now), later) == vested(g, now),
{
}


/// When a grant whose total is not negative is revoked, what has vested and
/// what goes back to the admin make up the whole grant.
pub proof fn lemma_revocation_accounts_for_total(g: VestingGrant, now: u64)
    requires
        g.total_amount >= 0,
    ensures
        vested(g, now) + (if g.total_amount - vested(g, now) > 0 {
            g.total_amount - vested(g, now)
        } else {
            0
        }) == g.total_amount,
{
    lemma_vested_within_total(g, now);
}

/// The vested amount of `grant` at `now`.
pub fn vested_amount(grant: &VestingGrant, now: u64) -> (r: i128)
    requires
        vesting_in_range(*grant, now),
    ensures
        r == vested(*grant, now),
{
    let effective_now = if grant.revoked {
        grant.revoked_at
    } else {
        now
    };
    if effective_now < grant.start_at + grant.cliff_seconds {
        return 0;
    }
    let elapsed = effective_now - grant.start_at;
    if elapsed >= grant.vesting_seconds {
        return grant.total_amount;
    }
    let product = grant.total_amount * (elapsed as i128);
    product / (grant.vesting_seconds as i128)
}

/// The vested amount of `grant` at `now`, or `None` where computing it
/// would leave the machine's integer types.
pub fn vested_amount_checked(grant: &VestingGrant, now: u64) -> (r: Option<i128>)
    ensures
        r == (if vesting_in_range(*grant, now) {
            Some(vested(*grant, now) as i128)
        } else {
            None
        }),
{
    let effective_now = if grant.revoked {
        grant.revoked_at
    } else {
        now
    };
    let cliff_end = match grant.start_at.checked_add(grant.cliff_seconds) {
        Some(c) => c,
        None => return None,
    };
    if effective_now < cliff_end {
        return Some(0);
    }
    let elapsed = effective_now - grant.start_at;
    if elapsed >= grant.vesting_seconds {
        return Some(grant.total_amount);
    }
    match grant.total_amount.checked_mul(elapsed as i128) {
        Some(product) => Some(product / (grant.vesting_seconds as i128)),
        None => None,
    }
}

/// `g` after a successful claim at `now`: everything vested is claimed.
pub open spec fn claimed_grant(g: VestingGrant, now: u64) -> VestingGrant {
    VestingGrant { claimed_amount: vested(g, now) as i128, ..g }
}

/// Once a claim has taken everything vested, a second claim at the same
/// time finds nothing to claim.
pub proof fn lemma_claim_exhausts(g: VestingGrant, now: u64)
    requires
        i128::MIN <= vested(g, now) <= i128::MAX,
    ensures
        claimable(claimed_grant(g, now), now) == 0,
{
}

/// After a claim, what becomes claimable later is never negative: claims
/// never take more than has vested.
pub proof fn lemma_claims_never_exceed_vested(g: VestingGrant, now: u64, later: u64)
    requires
        g.total_amount >= 0,
        !g.revoked,
        now <= later,
        i128::MIN <= vested(g, now) <= i128::MAX,
    ensures
        claimable(claimed_grant(g, now), later) >= 0,
{
    lemma_vested_monotone(g, now, later);
}

/// From time `t` on, `g` has paid out no more than has vested: what it has
/// paid is covered by what has vested at `t` and at every later time.
pub open spec fn claims_covered(g: VestingGrant, t: u64) -> bool {
    &&& g.total_amount >= 0
    &&& 0 <= g.claimed_amount
    &&& forall|later: u64| t <= later ==> g.claimed_amount <= #[trigger] vested(g, later)
}

/// A new grant of a total that is not negative has its claims covered from
/// its creation on.
pub proof fn lemma_new_grant_covered(g: VestingGrant, t: u64)
    requires
        g.total_amount >= 0,
        g.claimed_amount == 0,
    ensures
        claims_covered(g, t),
{
    assert forall|later: u64| t <= later implies g.claimed_amount <= #[trigger] vested(g, later) by {
        lemma_vested_within_total(g, later);
    }
}

/// A claim at `now`, on a grant whose claims are covered from an earlier
/// time, leaves its claims covered from `now` on.
pub proof fn lemma_claim_keeps_covered(g: VestingGrant, t: u64, now: u64)
    requires
        claims_covered(g, t),
        t <= now,
        i128::MIN <= vested(g, now) <= i128::MAX,
    ensures
        claims_covered(claimed_grant(g, now), now),
{
    let c = claimed_grant(g, now);
    assert(g.claimed_amount <= vested(g, now));
    assert forall|later: u64| now <= later implies c.claimed_amount <= #[trigger] vested(c, later) by {
        lemma_vested_ignores_claims(g, c.claimed_amount, later);
        if g.revoked {
            lemma_revocation_freezes(g, now, later);
        } else {
            lemma_vested_monotone(g, now, later);
        }
    }
}

/// Revoking at `now` a grant whose claims are covered from an earlier time
/// leaves its claims covered from `now` on.
pub proof fn lemma_revocation_keeps_covered(g: VestingGrant, t: u64, now: u64)
    requires
        claims_covered(g, t),
        t <= now,
        !g.revoked,
    ensures
        claims_covered(revoked_grant(g, now), now),
{
    let r = revoked_grant(g, now);
    assert(g.claimed_amount <= vested(g, now));
    assert forall|later: u64| now <= later implies r.claimed_amount <= #[trigger] vested(r, later) by {
        lemma_revocation_keeps_vested(g, now, later);
    }
}

/// While a grant's claims are covered, what it can claim is never
/// negative.
pub proof fn lemma_covered_claimable(g: VestingGrant, t: u64, now: u64)
    requires
        claims_covered(g, t),
        t <= now,
    ensures
        claimable(g, now) >= 0,
{
    assert(g.claimed_amount <= vested(g, now));
}

/// After a revocation at `now`, claiming everything claimable at any later
/// time brings the employee's claims to exactly what had vested at `now`.
pub proof fn lemma_claims_after_revocation(g: VestingGrant, now: u64, later: u64)
    requires
        !g.revoked,
        i128::MIN <= vested(g, now) <= i128::MAX,
    ensures
        claimed_grant(revoked_grant(g, now), later).claimed_amount == vested(g, now),
{
    lemma_revocation_keeps_vested(g, now, later);
}

/// A revocation at `r` settles the grant: at any later time the employee can
/// claim what had vested at `r` less what they had claimed, claiming it
/// brings their claims to exactly what had vested, and, for a total that
/// is not negative, what had vested and what went back to the admin make
/// up the total.
pub proof fn lemma_revocation_settles(g: VestingGrant, r: u64, now: u64)
    requires
        !g.revoked,
    ensures
        claimable(revoked_grant(g, r), now) == vested(g, r) - g.claimed_amount,
        i128::MIN <= vested(g, r) <= i128::MAX ==> claimed_grant(revoked_grant(g, r), now).claimed_amount
            == vested(g, r),
        g.total_amount >= 0 ==> vested(g, r) + (if g.total_amount - vested(g, r) > 0 {
            g.total_amount - vested(g, r)
        } else {
            0
        }) == g.total_amount,
{
    lemma_revocation_keeps_vested(g, r, now);
    if g.total_amount >= 0 {
        lemma_revocation_accounts_for_total(g, r);
    }
}

/// The vesting contract's state: the grants, the one with id `k` at
/// position `k - 1`.
pub struct VestingContract {
    org_registry: Address,
    grants: Vec<VestingGrant>,
}

impl VestingContract {
    /// The grants have the ids 1, 2, ... in the order of their positions.
    pub closed spec fn wf(self) -> bool {
        forall|i: int| 0 <= i < self.grants@.len() ==> (#[trigger] self.grants@[i]).grant_id == i + 1
    }

    /// The organization registry this contract asks about admins.
    pub closed spec fn registry(self) -> Address {
        self.org_registry
    }

    /// All grants, in the order of their ids.
    pub closed spec fn grants(self) -> Seq<VestingGrant> {
        self.grants@
    }

    /// The grant with id `grant_id`, if there is one.
    pub open spec fn grant(self, grant_id: u64) -> Option<VestingGrant> {
        if 1 <= grant_id <= self.grants().len() {
            Some(self.grants()[grant_id - 1])
        } else {
            None
        }
    }

    /// A contract with no grants that consults the registry at `org_registry`.
    pub fn new(org_registry: Address) -> (c: Self)
        ensures
            c.wf(),
            c.registry() == org_registry,
            c.grants() == Seq::<VestingGrant>::empty(),
    {
        VestingContract { org_registry, grants: Vec::new() }
    }

    /// The address of the organization registry.
    pub fn org_registry(&self) -> (r: &Address)
        ensures
            *r == self.registry(),
    {
        &self.org_registry
    }

    /// The registry address and the grants, in the order of their ids.
    pub fn into_parts(self) -> (r: (Address, Vec<VestingGrant>))
        ensures
            r.0 == self.registry(),
            r.1@ == self.grants(),
    {
        (self.org_registry, self.grants)
    }

    /// The contract with these parts, if the grants carry the ids 1, 2, ...
    /// in order.
    pub fn from_parts(org_registry: Address, grants: Vec<VestingGrant>) -> (r: Option<Self>)
        ensures
            r is Some <==> forall|i: int|
                0 <= i < grants@.len() ==> (#[trigger] grants@[i]).grant_id == i + 1,
            r matches Some(c) ==> c.wf() && c.registry() == org_registry && c.grants()
                == grants@,
    {
        let mut i: usize = 0;
        while i < grants.len()
            invariant
                i <= grants@.len(),
                forall|k: int| 0 <= k < i ==> (#[trigger] grants@[k]).grant_id == k + 1,
            decreases grants@.len() - i,
        {
            if grants[i].grant_id != i as u64 + 1 {
                return None;
            }
            i = i + 1;
        }
        Some(VestingContract { org_registry, grants })
    }

    /// How many grants exist; the last one has this id.
    pub fn grant_count(&self) -> (r: u64)
        requires
            self.grants().len() <= u64::MAX,
        ensures
            r == self.grants().len(),
    {
        self.grants.len() as u64
    }

    /// Creates a grant of `amount` of `token` to `employee`, vesting over
    /// `vesting_seconds` after a cliff of `cliff_seconds`, starting now.
    /// `caller` must be an admin of `org_id` in `registry` (the registry at
    /// `self.registry()`); the amount moves from `caller` to this contract.
    /// Returns the new grant's id.
    pub fn create_grant<R: OrgRegistryInterface>(
        &mut self,
        registry: &R,
        env: &mut Env,
        org_id: u64,
        employee: Address,
        token: Address,
        amount: i128,
        cliff_seconds: u64,
        vesting_seconds: u64,
        caller: Address,
    ) -> (r: Result<u64, VestingError>)
        requires
            old(self).wf(),
            registry.spec_is_admin(org_id, caller@) ==> old(self).grants().len() < u64::MAX,
        ensures
            final(self).wf(),
            final(self).registry() == old(self).registry(),
            registry.spec_is_admin(org_id, caller@) ==> {
                let id = (old(self).grants().len() + 1) as u64;
                &&& r == Ok::<u64, VestingError>(id)
                &&& final(self).grants() == old(self).grants().push(
                    VestingGrant {
                        grant_id: id,
                        org_id,
                        employee,
                        token,
                        total_amount: amount,
                        claimed_amount: 0,
                        start_at: old(env).timestamp,
                        cliff_seconds,
                        vesting_seconds,
                        revoked: false,
                        revoked_at: 0,
                    },
                )
                &&& final(env).extends(
                    *old(env),
                    seq![
                        Action::RequireAuth(caller),
                        Action::Transfer {
                            token,
                            from: caller,
                            to: old(env).current_contract,
                            amount,
                        },
                        Action::Publish(
                            Event::GrantCreated {
                                grant_id: id,
                                org_id,
                                employee,
                                token,
                                amount,
                                cliff_seconds,
                                vesting_seconds,
                            },
                        ),
                    ],
                )
            },
            !registry.spec_is_admin(org_id, caller@) ==> {
                &&& r == Err::<u64, VestingError>(VestingError::NotAuthorized)
                &&& final(self).grants() == old(self).grants()
                &&& final(env).extends(*old(env), seq![Action::RequireAuth(caller)])
            },
    {
        env.require_auth(&caller);
        if !registry.is_admin(org_id, &caller) {
            return Err(VestingError::NotAuthorized);
        }
        let here = env.current_contract.clone();
        env.transfer(&token, &caller, &here, amount);
        let grant_id = self.grants.len() as u64 + 1;
        let grant = VestingGrant {
            grant_id,
            org_id,
            employee: employee.clone(),
            token: token.clone(),
            total_amount: amount,
            claimed_amount: 0,
            start_at: env.timestamp,
            cliff_seconds,
            vesting_seconds,
            revoked: false,
            revoked_at: 0,
        };
        self.grants.push(grant);
        env.publish(
            Event::GrantCreated {
                grant_id,
                org_id,
                employee,
                token,
                amount,
                cliff_seconds,
                vesting_seconds,
            },
        );
        Ok(grant_id)
    }

    /// Pays `caller`, who must be the grant's employee, everything vested
    /// and not yet claimed. Returns the amount paid.
    pub fn claim(&mut self, env: &mut Env, grant_id: u64, caller: Address) -> (r: Result<
        i128,
        VestingError,
    >)
        requires
            old(self).wf(),
            old(self).grant(grant_id) matches Some(g) ==> (g.employee@ == caller@ ==> claim_in_range(
                g,
                old(env).timestamp,
            )),
        ensures
            final(self).wf(),
            final(self).registry() == old(self).registry(),
            match old(self).grant(grant_id) {
                None => {
                    &&& r == Err::<i128, VestingError>(VestingError::GrantNotFound)
                    &&& final(self).grants() == old(self).grants()
                    &&& final(env).extends(*old(env), seq![Action::RequireAuth(caller)])
                },
                Some(g) => {
                    let now = old(env).timestamp;
                    let c = claimable(g, now);
                    if g.employee@ != caller@ {
                        &&& r == Err::<i128, VestingError>(VestingError::NotAuthorized)
                        &&& final(self).grants() == old(self).grants()
                        &&& final(env).extends(*old(env), seq![Action::RequireAuth(caller)])
                    } else if c <= 0 {
                        &&& r == Err::<i128, VestingError>(VestingError::NothingClaimable)
                        &&& final(self).grants() == old(self).grants()
                        &&& final(env).extends(*old(env), seq![Action::RequireAuth(caller)])
                    } else {
                        &&& r == Ok::<i128, VestingError>(c as i128)
                        &&& final(self).grants() == old(self).grants().update(
                            grant_id - 1,
                            claimed_grant(g, now),
                        )
                        &&& final(env).extends(
                            *old(env),
                            seq![
                                Action::RequireAuth(caller),
                                Action::Transfer {
                                    token: g.token,
                                    from: old(env).current_contract,
                                    to: g.employee,
                                    amount: c as i128,
                                },
                                Action::Publish(
                                    Event::TokensClaimed {
                                        grant_id,
                                        employee: g.employee,
                                        amount_claimed: c as i128,
                                        total_claimed: vested(g, now) as i128,
                                        remaining: (g.total_amount - vested(g, now)) as i128,
                                    },
                                ),
                            ],
                        )
                    }
                },
            },
    {
        env.require_auth(&caller);
        if grant_id == 0 || grant_id > self.grants.len() as u64 {
            return Err(VestingError::GrantNotFound);
        }
        let idx = (grant_id - 1) as usize;
        let mut grant = self.grants[idx].clone();
        if !caller.same(&grant.employee) {
            return Err(VestingError::NotAuthorized);
        }
        let now = env.timestamp;
        let vested_now = vested_amount(&grant, now);
        let claimable_now = vested_now - grant.claimed_amount;
        if claimable_now <= 0 {
            return Err(VestingError::NothingClaimable);
        }
        let here = env.current_contract.clone();
        env.transfer(&grant.token, &here, &grant.employee, claimable_now);
        grant.claimed_amount = grant.claimed_amount + claimable_now;
        proof {
            lemma_vested_within_total(grant, now);
        }
        let remaining = grant.total_amount - grant.claimed_amount;
        let event = Event::TokensClaimed {
            grant_id,
            employee: grant.employee.clone(),
            amount_claimed: claimable_now,
            total_claimed: grant.claimed_amount,
            remaining,
        };
        self.grants.set(idx, grant);
        env.publish(event);
        Ok(claimable_now)
    }

    /// Stops further vesting of a grant. `caller` must be an admin of the
    /// grant's organization in `registry`; the employee keeps what has vested
    /// and the unvested rest goes back to `caller`.
    pub fn revoke_grant<R: OrgRegistryInterface>(
        &mut self,
        registry: &R,
        env: &mut Env,
        grant_id: u64,
        caller: Address,
    ) -> (r: Result<(), VestingError>)
        requires
            old(self).wf(),
            old(self).grant(grant_id) matches Some(g) ==> (!g.revoked && registry.spec_is_admin(
                g.org_id,
                caller@,
            ) ==> vesting_in_range(g, old(env).timestamp)),
        ensures
            final(self).wf(),
            final(self).registry() == old(self).registry(),
            match old(self).grant(grant_id) {
                None => {
                    &&& r == Err::<(), VestingError>(VestingError::GrantNotFound)
                    &&& final(self).grants() == old(self).grants()
                    &&& final(env).extends(*old(env), seq![Action::RequireAuth(caller)])
                },
                Some(g) => {
                    let now = old(env).timestamp;
                    let v = vested(g, now);
                    let unvested = g.total_amount - v;
                    if g.revoked {
                        &&& r == Err::<(), VestingError>(VestingError::GrantRevoked)
                        &&& final(self).grants() == old(self).grants()
                        &&& final(env).extends(*old(env), seq![Action::RequireAuth(caller)])
                    } else if !registry.spec_is_admin(g.org_id, caller@) {
                        &&& r == Err::<(), VestingError>(VestingError::NotAuthorized)
                        &&& final(self).grants() == old(self).grants()
                        &&& final(env).extends(*old(env), seq![Action::RequireAuth(caller)])
                    } else {
                        &&& r == Ok::<(), VestingError>(())
                        &&& final(self).grants() == old(self).grants().update(
                            grant_id - 1,
                            revoked_grant(g, now),
                        )
                        &&& final(env).extends(
                            *old(env),
                            seq![Action::RequireAuth(caller)] + (if unvested > 0 {
                                seq![
                                    Action::Transfer {
                                        token: g.token,
                                        from: old(env).current_contract,
                                        to: caller,
                                        amount: unvested as i128,
                                    },
                                ]
                            } else {
                                Seq::<Action>::empty()
                            }) + seq![
                                Action::Publish(
                                    Event::GrantRevoked {
                                        grant_id,
                                        employee: g.employee,
                                        vested_amount: v as i128,
                                        returned_amount: if unvested > 0 {
                                            unvested as i128
                                        } else {
                                            0
                                        },
                                    },
                                ),
                            ],
                        )
                    }
                },
            },
    {
        env.require_auth(&caller);
        if grant_id == 0 || grant_id > self.grants.len() as u64 {
            return Err(VestingError::GrantNotFound);
        }
        let idx = (grant_id - 1) as usize;
        let mut grant = self.grants[idx].clone();
        if grant.revoked {
            return Err(VestingError::GrantRevoked);
        }
        if !registry.is_admin(grant.org_id, &caller) {
            return Err(VestingError::NotAuthorized);
        }
        let now = env.timestamp;
        let vested_now = vested_amount(&grant, now);
        proof {
            lemma_vested_within_total(grant, now);
        }
        let unvested = grant.total_amount - vested_now;
        grant.revoked = true;
        grant.revoked_at = now;
        let event = Event::GrantRevoked {
            grant_id,
            employee: grant.employee.clone(),
            vested_amount: vested_now,
            returned_amount: if unvested > 0 {
                unvested
            } else {
                0
            },
        };
        let token = grant.token.clone();
        self.grants.set(idx, grant);
        if unvested > 0 {
            let here = env.current_contract.clone();
            env.transfer(&token, &here, &caller, unvested);
        }
        env.publish(event);
        Ok(())
    }

    /// Whether claiming grant `grant_id` in `env` (or reading what is
    /// claimable) stays within the machine's integer types.
    pub fn claim_fits(&self, env: &Env, grant_id: u64) -> (r: bool)
        requires
            self.wf(),
        ensures
            r == (self.grant(grant_id) matches Some(g) ==> claim_in_range(g, env.timestamp)),
    {
        if grant_id == 0 || grant_id > self.grants.len() as u64 {
            return true;
        }
        let grant = &self.grants[(grant_id - 1) as usize];
        match vested_amount_checked(grant, env.timestamp) {
            Some(v) => v.checked_sub(grant.claimed_amount).is_some(),
            None => false,
        }
    }

    /// Whether revoking grant `grant_id` in `env` stays within the
    /// machine's integer types.
    pub fn revoke_grant_fits(&self, env: &Env, grant_id: u64) -> (r: bool)
        requires
            self.wf(),
        ensures
            r == (self.grant(grant_id) matches Some(g) ==> (!g.revoked ==> vesting_in_range(
                g,
                env.timestamp,
            ))),
    {
        if grant_id == 0 || grant_id > self.grants.len() as u64 {
            return true;
        }
        let grant = &self.grants[(grant_id - 1) as usize];
        grant.revoked || vested_amount_checked(grant, env.timestamp).is_some()
    }

    /// The grant with id `grant_id`.
    pub fn get_grant(&self, grant_id: u64) -> (r: Result<VestingGrant, VestingError>)
        requires
            self.wf(),
        ensures
            r == (match self.grant(grant_id) {
                Some(g) => Ok::<VestingGrant, VestingError>(g),
                None => Err(VestingError::GrantNotFound),
            }),
    {
        if grant_id == 0 || grant_id > self.grants.len() as u64 {
            return Err(VestingError::GrantNotFound);
        }
        Ok(self.grants[(grant_id - 1) as usize].clone())
    }

    /// What the employee of grant `grant_id` could claim now.
    pub fn get_claimable(&self, env: &Env, grant_id: u64) -> (r: Result<i128, VestingError>)
        requires
            self.wf(),
            self.grant(grant_id) matches Some(g) ==> claim_in_range(g, env.timestamp),
        ensures
            r == (match self.grant(grant_id) {
                Some(g) => Ok::<i128, VestingError>(claimable(g, env.timestamp) as i128),
                None => Err(VestingError::GrantNotFound),
            }),
    {
        if grant_id == 0 || grant_id > self.grants.len() as u64 {
            return Err(VestingError::GrantNotFound);
        }
        let grant = &self.grants[(grant_id - 1) as usize];
        Ok(vested_amount(grant, env.timestamp) - grant.claimed_amount)
    }

    /// All grants of `employee` in organization `org_id`, in the order of
    /// their ids.
    pub fn get_grants_by_employee(&self, org_id: u64, employee: Address) -> (r: Result<
        Vec<VestingGrant>,
        VestingError,
    >)
        ensures
            r matches Ok(v) && v@ == self.grants().filter(
                |g: VestingGrant| g.org_id == org_id && g.employee@ == employee@,
            ),
    {
        let ghost pred = |g: VestingGrant| g.org_id == org_id && g.employee@ == employee@;
        let mut out: Vec<VestingGrant> = Vec::new();
        let mut i: usize = 0;
        while i < self.grants.len()
            invariant
                i <= self.grants@.len(),
                out@ == self.grants@.take(i as int).filter(pred),
                pred == (|g: VestingGrant| g.org_id == org_id && g.employee@ == employee@),
            decreases self.grants@.len() - i,
        {
            let g = &self.grants[i];
            proof {
                reveal_with_fuel(Seq::<_>::filter, 1);
                let next = self.grants@.take(i + 1);
                assert(next.drop_last() =~= self.grants@.take(i as int));
                assert(next.last() == self.grants@[i as int]);
                assert(pred(*g) == (g.org_id == org_id && g.employee@ == employee@));
                assert(next.filter(pred) == (if pred(*g) {
                    self.grants@.take(i as int).filter(pred).push(*g)
                } else {
                    self.grants@.take(i as int).filter(pred)
                }));
            }
            if g.org_id == org_id && g.employee.same(&employee) {
                out.push(g.clone());
            }
            i = i + 1;
        }
        assert(self.grants@.take(self.grants@.len() as int) =~= self.grants@);
        Ok(out)
    }
}

} // verus!
