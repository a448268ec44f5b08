//! The mathematical model of the venue.
//!
//! `VenueView` is the abstract state every contract speaks of; the spec
//! functions here are the state machine: what each operation returns and
//! how it moves the state. Executable code in `contract` is proved to
//! follow them exactly.

use vstd::prelude::*;

verus! {

use crate::keys::canonical_key;
use crate::keys::lemma_pack_key_injective;
use crate::keys::pack_key;
use crate::types::Action;
use crate::types::AgentNotification;
use crate::types::SwapError;
use crate::types::SwapRequest;
use crate::types::YieldStatus;
use crate::types::INIT_SHARES_SUPPLY;

/// Abstract picture of one pool.
#[verifier::ext_equal]
pub ghost struct PoolView {
    pub token_a: u64,
    pub token_b: u64,
    pub token_a_balance: u128,
    pub token_b_balance: u128,
    pub total_shares: u128,
    /// Account (widened to the map's key type) to share count.
    pub shares: Map<u128, u128>,
}

/// Abstract picture of the whole venue.
#[verifier::ext_equal]
pub ghost struct VenueView {
    /// Off-chain agent name, included in published notifications.
    pub agent: Seq<char>,
    /// The only account allowed to resolve suspended swaps.
    pub agent_account_id: u64,
    /// Canonical pair key to pool.
    pub pools: Map<u128, PoolView>,
    /// Packed (account, token) key to ledger balance.
    pub deposits: Map<u128, u128>,
    /// Correlation token (widened) to yield-point state.
    pub yields: Map<u128, YieldStatus>,
}

/// Ledger balance of an account for a token; absent entries read as
/// zero.
pub open spec fn bal(v: VenueView, account: u64, token: u64) -> u128 {
    if v.deposits.contains_key(pack_key(account, token)) {
        v.deposits[pack_key(account, token)]
    } else {
        0
    }
}

/// The credit does not overflow the balance type.
pub open spec fn credit_fits(v: VenueView, account: u64, token: u64, amount: u128) -> bool {
    bal(v, account, token) + amount <= u128::MAX
}

/// Credit: increases a balance, creating the entry if absent. Never
/// fails; nothing in the venue ever debits the ledger.
pub open spec fn credit_post(v: VenueView, account: u64, token: u64, amount: u128) -> VenueView {
    VenueView {
        deposits: v.deposits.insert(
            pack_key(account, token),
            (bal(v, account, token) + amount) as u128,
        ),
        ..v
    }
}

/// A credit moves exactly the credited balance: the account's balance
/// for the credited token grows by the amount, every other balance of
/// the account stays, and nothing outside the ledger moves.
pub proof fn lemma_credit_bal(v: VenueView, account: u64, token: u64, amount: u128)
    requires
        credit_fits(v, account, token, amount),
    ensures
        forall|t: u64|
            bal(credit_post(v, account, token, amount), account, t) as int == bal(v, account, t)
                + (if t == token {
                amount as int
            } else {
                0
            }),
        credit_post(v, account, token, amount).pools == v.pools,
        credit_post(v, account, token, amount).yields == v.yields,
{
    assert forall|t: u64|
        bal(credit_post(v, account, token, amount), account, t) as int == bal(v, account, t) + (
        if t == token {
            amount as int
        } else {
            0
        }) by {
        if t != token && pack_key(account, t) == pack_key(account, token) {
            lemma_pack_key_injective(account, t, account, token);
        }
    }
}

/// Shares held by an account in a pool; absent entries read as zero.
pub open spec fn shares_of(p: PoolView, account: u64) -> u128 {
    if p.shares.contains_key(account as u128) {
        p.shares[account as u128]
    } else {
        0
    }
}

/// Reserve on the `token_in` side of a pool; the orientation follows the
/// pool's stored field order, not the caller's argument order.
pub open spec fn oriented_in(p: PoolView, token_in: u64) -> u128 {
    if token_in == p.token_a {
        p.token_a_balance
    } else {
        p.token_b_balance
    }
}

/// Reserve on the opposite side.
pub open spec fn oriented_out(p: PoolView, token_in: u64) -> u128 {
    if token_in == p.token_a {
        p.token_b_balance
    } else {
        p.token_a_balance
    }
}

/// The pool a freshly created pair starts with: the observed amounts as
/// reserves and the fixed initial share supply, all granted to the
/// creator.
pub open spec fn new_pool_view(
    token_a: u64,
    token_b: u64,
    amount_a: u128,
    amount_b: u128,
    creator: u64,
) -> PoolView {
    PoolView {
        token_a,
        token_b,
        token_a_balance: amount_a,
        token_b_balance: amount_b,
        total_shares: INIT_SHARES_SUPPLY,
        shares: Map::empty().insert(creator as u128, INIT_SHARES_SUPPLY),
    }
}

/// Outcome of pool creation: the creator's deposits must cover both
/// amounts (checked, not consumed), and the pair must be new.
pub open spec fn create_result(
    v: VenueView,
    token_a: u64,
    amount_a: u128,
    token_b: u64,
    amount_b: u128,
    creator: u64,
) -> Result<(), SwapError> {
    if bal(v, creator, token_a) < amount_a || bal(v, creator, token_b) < amount_b {
        Err(SwapError::InsufficientDeposit)
    } else if v.pools.contains_key(canonical_key(token_a, token_b)) {
        Err(SwapError::PoolAlreadyExists)
    } else {
        Ok(())
    }
}

/// State after pool creation; unchanged when creation fails.
pub open spec fn create_post(
    v: VenueView,
    token_a: u64,
    amount_a: u128,
    token_b: u64,
    amount_b: u128,
    creator: u64,
) -> VenueView {
    if create_result(v, token_a, amount_a, token_b, amount_b, creator) is Ok {
        VenueView {
            pools: v.pools.insert(
                canonical_key(token_a, token_b),
                new_pool_view(token_a, token_b, amount_a, amount_b, creator),
            ),
            ..v
        }
    } else {
        v
    }
}

/// Amount deposited on the pool's `token_a` side by an add-liquidity
/// call whose transferred token is `token_in`.
pub open spec fn side_a(p: PoolView, token_in: u64, amount_in: u128, amount_other: u128) -> u128 {
    if token_in == p.token_a {
        amount_in
    } else {
        amount_other
    }
}

/// Amount deposited on the pool's `token_b` side.
pub open spec fn side_b(p: PoolView, token_in: u64, amount_in: u128, amount_other: u128) -> u128 {
    if token_in == p.token_a {
        amount_other
    } else {
        amount_in
    }
}

/// Shares minted for a liquidity provision: the minimum of the two
/// proportional ratios, each in floor division — the dual-sided rule
/// that keeps one-sided deposits from moving the share price.
pub open spec fn minted_shares(
    p: PoolView,
    token_in: u64,
    amount_in: u128,
    amount_other: u128,
) -> int {
    let ta = side_a(p, token_in, amount_in, amount_other);
    let tb = side_b(p, token_in, amount_in, amount_other);
    vstd::math::min(
        ta * p.total_shares / p.token_a_balance as int,
        tb * p.total_shares / p.token_b_balance as int,
    )
}

/// The arithmetic of a liquidity provision stays within the machine
/// types: positive reserves (so the ratios divide) and no overflow of
/// the products, the grown reserves, or the share counts.
pub open spec fn add_liq_fits(
    v: VenueView,
    token_in: u64,
    token_other: u64,
    amount_in: u128,
    amount_other: u128,
    provider: u64,
) -> bool {
    let key = canonical_key(token_in, token_other);
    v.pools.contains_key(key) ==> {
        let p = v.pools[key];
        let ta = side_a(p, token_in, amount_in, amount_other);
        let tb = side_b(p, token_in, amount_in, amount_other);
        let minted = minted_shares(p, token_in, amount_in, amount_other);
        p.token_a_balance > 0 && p.token_b_balance > 0 && ta * p.total_shares <= u128::MAX && tb
            * p.total_shares <= u128::MAX && p.token_a_balance + ta <= u128::MAX
            && p.token_b_balance + tb <= u128::MAX && p.total_shares + minted <= u128::MAX
            && shares_of(p, provider) + minted <= u128::MAX
    }
}

/// Pool after a liquidity provision: both reserves grow by the full
/// deposited amounts even where minting reflected the more constraining
/// side, and the minted shares go to the provider.
pub open spec fn pool_after_add(
    p: PoolView,
    token_in: u64,
    amount_in: u128,
    amount_other: u128,
    provider: u64,
) -> PoolView {
    let ta = side_a(p, token_in, amount_in, amount_other);
    let tb = side_b(p, token_in, amount_in, amount_other);
    let minted = minted_shares(p, token_in, amount_in, amount_other);
    PoolView {
        token_a_balance: (p.token_a_balance + ta) as u128,
        token_b_balance: (p.token_b_balance + tb) as u128,
        total_shares: (p.total_shares + minted) as u128,
        shares: p.shares.insert(provider as u128, (shares_of(p, provider) + minted) as u128),
        ..p
    }
}

/// Share conservation of a liquidity provision: the pool's total grows
/// by exactly the minted amount, the provider's count grows by the same
/// amount, and no other account's count moves — so a total that equals
/// the sum of all per-account counts keeps doing so.
pub proof fn lemma_add_liquidity_conserves_shares(
    p: PoolView,
    token_in: u64,
    amount_in: u128,
    amount_other: u128,
    provider: u64,
)
    requires
        p.total_shares + minted_shares(p, token_in, amount_in, amount_other) <= u128::MAX,
        shares_of(p, provider) + minted_shares(p, token_in, amount_in, amount_other) <= u128::MAX,
        minted_shares(p, token_in, amount_in, amount_other) >= 0,
    ensures
        ({
            let minted = minted_shares(p, token_in, amount_in, amount_other);
            let p1 = pool_after_add(p, token_in, amount_in, amount_other, provider);
            &&& p1.total_shares == p.total_shares + minted
            &&& shares_of(p1, provider) == shares_of(p, provider) + minted
            &&& forall|account: u64|
                account != provider ==> shares_of(p1, account) == shares_of(p, account)
        }),
{
}

/// Outcome of a liquidity provision against the registry alone: only a
/// missing pool fails it.
pub open spec fn add_liq_result(v: VenueView, token_in: u64, token_other: u64) -> Result<
    (),
    SwapError,
> {
    if v.pools.contains_key(canonical_key(token_in, token_other)) {
        Ok(())
    } else {
        Err(SwapError::PoolNotFound)
    }
}

/// State after a liquidity provision; unchanged when the pool is
/// missing.
pub open spec fn add_liq_post(
    v: VenueView,
    token_in: u64,
    token_other: u64,
    amount_in: u128,
    amount_other: u128,
    provider: u64,
) -> VenueView {
    let key = canonical_key(token_in, token_other);
    if v.pools.contains_key(key) {
        VenueView {
            pools: v.pools.insert(
                key,
                pool_after_add(v.pools[key], token_in, amount_in, amount_other, provider),
            ),
            ..v
        }
    } else {
        v
    }
}

/// A reserve commit stays within the reserves: the incoming side does
/// not overflow and the outgoing side is not driven below zero. The
/// settlement validator establishes this before committing.
pub open spec fn swap_fits(
    v: VenueView,
    token_in: u64,
    token_out: u64,
    amount_in: u128,
    amount_out: u128,
) -> bool {
    let key = canonical_key(token_in, token_out);
    v.pools.contains_key(key) ==> {
        let p = v.pools[key];
        oriented_in(p, token_in) + amount_in <= u128::MAX && amount_out <= oriented_out(
            p,
            token_in,
        )
    }
}

/// Pool after a reserve commit: `amount_in` joins the incoming side,
/// `amount_out` leaves the outgoing side.
pub open spec fn pool_after_swap(
    p: PoolView,
    token_in: u64,
    amount_in: u128,
    amount_out: u128,
) -> PoolView {
    if token_in == p.token_a {
        PoolView {
            token_a_balance: (p.token_a_balance + amount_in) as u128,
            token_b_balance: (p.token_b_balance - amount_out) as u128,
            ..p
        }
    } else {
        PoolView {
            token_b_balance: (p.token_b_balance + amount_in) as u128,
            token_a_balance: (p.token_a_balance - amount_out) as u128,
            ..p
        }
    }
}

/// Outcome of a reserve commit: only a missing pool fails it.
pub open spec fn swap_result(v: VenueView, token_in: u64, token_out: u64, amount_out: u128) -> Result<
    u128,
    SwapError,
> {
    if v.pools.contains_key(canonical_key(token_in, token_out)) {
        Ok(amount_out)
    } else {
        Err(SwapError::PoolNotFound)
    }
}

/// State after a reserve commit; unchanged when the pool is missing.
pub open spec fn swap_post(
    v: VenueView,
    token_in: u64,
    token_out: u64,
    amount_in: u128,
    amount_out: u128,
) -> VenueView {
    let key = canonical_key(token_in, token_out);
    if v.pools.contains_key(key) {
        VenueView {
            pools: v.pools.insert(
                key,
                pool_after_swap(v.pools[key], token_in, amount_in, amount_out),
            ),
            ..v
        }
    } else {
        v
    }
}

/// The swap context a suspension captures.
pub open spec fn make_request(
    sender_id: u64,
    token_in: u64,
    token_out: u64,
    amount_in: u128,
    min_amount_out: u128,
) -> SwapRequest {
    SwapRequest { sender_id, token_in, token_out, amount_in, min_amount_out }
}

/// The correlation token is fresh: the suspend primitive issues each
/// token once.
pub open spec fn suspend_fits(v: VenueView, correlation_token: u64) -> bool {
    !v.yields.contains_key(correlation_token as u128)
}

/// State after a suspension: the yield point is recorded, nothing else
/// moves.
pub open spec fn suspend_post(v: VenueView, req: SwapRequest, correlation_token: u64) -> VenueView {
    VenueView {
        yields: v.yields.insert(correlation_token as u128, YieldStatus::Suspended(req)),
        ..v
    }
}

/// Outcome of a resolve: only the agent account may resolve, and only a
/// yield point that is present and still suspended can be consumed.
pub open spec fn resolve_result(v: VenueView, caller: u64, correlation_token: u64) -> Result<
    SwapRequest,
    SwapError,
> {
    if caller != v.agent_account_id {
        Err(SwapError::Unauthorized)
    } else if !v.yields.contains_key(correlation_token as u128) {
        Err(SwapError::UnknownOrClosedYieldPoint)
    } else {
        match v.yields[correlation_token as u128] {
            YieldStatus::Suspended(req) => Ok(req),
            YieldStatus::Closed => Err(SwapError::UnknownOrClosedYieldPoint),
        }
    }
}

/// State after a resolve: a consumed yield point closes; a failed
/// resolve changes nothing.
pub open spec fn resolve_post(v: VenueView, caller: u64, correlation_token: u64) -> VenueView {
    if resolve_result(v, caller, correlation_token) is Ok {
        VenueView {
            yields: v.yields.insert(correlation_token as u128, YieldStatus::Closed),
            ..v
        }
    } else {
        v
    }
}

/// A correlation token is consumed at most once: after a successful
/// resolve, a second resolve of the same token by the agent fails with
/// `UnknownOrClosedYieldPoint`, and any second resolve changes nothing.
pub proof fn lemma_resolve_at_most_once(
    v: VenueView,
    caller: u64,
    caller2: u64,
    correlation_token: u64,
)
    requires
        resolve_result(v, caller, correlation_token) is Ok,
    ensures
        caller2 == v.agent_account_id ==> resolve_result(
            resolve_post(v, caller, correlation_token),
            caller2,
            correlation_token,
        ) == Err::<SwapRequest, SwapError>(SwapError::UnknownOrClosedYieldPoint),
        resolve_post(resolve_post(v, caller, correlation_token), caller2, correlation_token)
            == resolve_post(v, caller, correlation_token),
{
}

/// A reserve commit that respects its precondition never drives a
/// reserve below zero: the outgoing side loses exactly `amount_out` and
/// stays non-negative, the incoming side gains exactly `amount_in`, and
/// shares do not move.
pub proof fn lemma_swap_reserves_nonnegative(
    v: VenueView,
    token_in: u64,
    token_out: u64,
    amount_in: u128,
    amount_out: u128,
)
    requires
        swap_fits(v, token_in, token_out, amount_in, amount_out),
        v.pools.contains_key(canonical_key(token_in, token_out)),
    ensures
        ({
            let key = canonical_key(token_in, token_out);
            let p0 = v.pools[key];
            let p1 = swap_post(v, token_in, token_out, amount_in, amount_out).pools[key];
            &&& oriented_out(p1, token_in) == oriented_out(p0, token_in) - amount_out
            &&& oriented_out(p0, token_in) - amount_out >= 0
            &&& oriented_in(p1, token_in) == oriented_in(p0, token_in) + amount_in
            &&& p1.total_shares == p0.total_shares
            &&& p1.shares == p0.shares
        }),
{
}

/// Outcome of a settlement: an agent failure rejects the swap with no
/// further effect; a quote below the floor aborts with
/// `SlippageViolation` and commits nothing; otherwise the commit happens
/// and an outbound transfer of the quoted amount to the original sender
/// is requested.
pub open spec fn settle_result(v: VenueView, req: SwapRequest, amount_out: Option<u128>) -> Result<
    Option<crate::types::TransferRequest>,
    SwapError,
> {
    match amount_out {
        None => Ok(None),
        Some(a) => {
            if a < req.min_amount_out {
                Err(SwapError::SlippageViolation)
            } else if !v.pools.contains_key(canonical_key(req.token_in, req.token_out)) {
                Err(SwapError::PoolNotFound)
            } else {
                Ok(
                    Some(
                        crate::types::TransferRequest {
                            receiver_id: req.sender_id,
                            token: req.token_out,
                            amount: a,
                        },
                    ),
                )
            }
        },
    }
}

/// The settlement's reserve commit stays within the reserves; asked only
/// where the commit would happen.
pub open spec fn settle_fits(v: VenueView, req: SwapRequest, amount_out: Option<u128>) -> bool {
    match amount_out {
        None => true,
        Some(a) => a >= req.min_amount_out ==> swap_fits(
            v,
            req.token_in,
            req.token_out,
            req.amount_in,
            a,
        ),
    }
}

/// State after a settlement: only a successful commit moves reserves.
pub open spec fn settle_post(v: VenueView, req: SwapRequest, amount_out: Option<u128>) -> VenueView {
    match amount_out {
        None => v,
        Some(a) => {
            if a < req.min_amount_out {
                v
            } else {
                swap_post(v, req.token_in, req.token_out, req.amount_in, a)
            }
        },
    }
}

/// What the pool-info query returns: reserves and total shares of the
/// pair's pool, `None` where no pool exists.
pub open spec fn pool_info(v: VenueView, token_a: u64, token_b: u64) -> Option<(u128, u128, u128)> {
    let key = canonical_key(token_a, token_b);
    if v.pools.contains_key(key) {
        Some(
            (
                v.pools[key].token_a_balance,
                v.pools[key].token_b_balance,
                v.pools[key].total_shares,
            ),
        )
    } else {
        None
    }
}

/// What the shares query returns: the account's share count in the
/// pair's pool.
pub open spec fn shares_result(v: VenueView, token_a: u64, token_b: u64, account: u64) -> Result<
    u128,
    SwapError,
> {
    let key = canonical_key(token_a, token_b);
    if v.pools.contains_key(key) {
        Ok(shares_of(v.pools[key], account))
    } else {
        Err(SwapError::PoolNotFound)
    }
}

/// What the swap-balances query returns: the pair's reserves oriented
/// from the side of `token_in`.
pub open spec fn swap_balances(v: VenueView, token_in: u64, token_out: u64) -> Result<
    (u128, u128),
    SwapError,
> {
    let key = canonical_key(token_in, token_out);
    if v.pools.contains_key(key) {
        Ok((oriented_in(v.pools[key], token_in), oriented_out(v.pools[key], token_in)))
    } else {
        Err(SwapError::PoolNotFound)
    }
}

/// Outcome of one dispatch action: the new state and, for a swap
/// suspension, the notification to publish.
pub open spec fn step_action(
    v: VenueView,
    sender: u64,
    token_in: u64,
    amount_in: u128,
    act: Action,
    corr: u64,
) -> Result<(VenueView, Option<AgentNotification>), SwapError> {
    match act {
        Action::Deposit => Ok((credit_post(v, sender, token_in, amount_in), None)),
        Action::Swap { token_out, min_amount_out } => {
            let v1 = credit_post(v, sender, token_in, amount_in);
            let req = make_request(sender, token_in, token_out, amount_in, min_amount_out);
            Ok(
                (
                    suspend_post(v1, req, corr),
                    Some(AgentNotification { request: req, correlation_token: corr }),
                ),
            )
        },
        Action::AddLiquidity { token_other, amount_other } => {
            if bal(v, sender, token_other) < amount_other {
                Err(SwapError::InsufficientDeposit)
            } else if !v.pools.contains_key(canonical_key(token_in, token_other)) {
                Err(SwapError::PoolNotFound)
            } else {
                Ok((add_liq_post(v, token_in, token_other, amount_in, amount_other, sender), None))
            }
        },
    }
}

/// The machine-limit side conditions of one action, asked only where the
/// action would succeed.
pub open spec fn step_fits(
    v: VenueView,
    sender: u64,
    token_in: u64,
    amount_in: u128,
    act: Action,
    corr: u64,
) -> bool {
    match act {
        Action::Deposit => credit_fits(v, sender, token_in, amount_in),
        Action::Swap { token_out, min_amount_out } => credit_fits(v, sender, token_in, amount_in)
            && suspend_fits(credit_post(v, sender, token_in, amount_in), corr),
        Action::AddLiquidity { token_other, amount_other } => (bal(v, sender, token_other)
            >= amount_other && v.pools.contains_key(canonical_key(token_in, token_other)))
            ==> add_liq_fits(v, token_in, token_other, amount_in, amount_other, sender),
    }
}

/// A notification as a (possibly empty) sequence.
pub open spec fn opt_seq(n: Option<AgentNotification>) -> Seq<AgentNotification> {
    match n {
        Some(x) => seq![x],
        None => Seq::empty(),
    }
}

/// Runs a whole dispatch message: the actions in order, each against the
/// state the previous ones left, consuming one correlation token per
/// swap. The first failing action fails the whole run; the venue commits
/// a run only when every action succeeded.
pub open spec fn run_actions(
    v: VenueView,
    sender: u64,
    token_in: u64,
    amount_in: u128,
    acts: Seq<Action>,
    corrs: Seq<u64>,
) -> Result<(VenueView, Seq<AgentNotification>), SwapError>
    decreases acts.len(),
{
    if acts.len() == 0 {
        Ok((v, Seq::empty()))
    } else {
        let corr = if acts[0] is Swap {
            corrs[0]
        } else {
            0
        };
        let rest_corrs = if acts[0] is Swap {
            corrs.drop_first()
        } else {
            corrs
        };
        match step_action(v, sender, token_in, amount_in, acts[0], corr) {
            Err(e) => Err(e),
            Ok((v1, n)) => match run_actions(
                v1,
                sender,
                token_in,
                amount_in,
                acts.drop_first(),
                rest_corrs,
            ) {
                Err(e) => Err(e),
                Ok((v2, ns)) => Ok((v2, opt_seq(n) + ns)),
            },
        }
    }
}

/// The venue exposes no withdrawal: a dispatch run only ever credits
/// the ledger, so after a successful run every balance is at least what
/// it was.
pub proof fn lemma_run_never_debits(
    v: VenueView,
    sender: u64,
    token_in: u64,
    amount_in: u128,
    acts: Seq<Action>,
    corrs: Seq<u64>,
)
    requires
        actions_fit(v, sender, token_in, amount_in, acts, corrs),
        run_actions(v, sender, token_in, amount_in, acts, corrs) is Ok,
    ensures
        ({
            let v2 = match run_actions(v, sender, token_in, amount_in, acts, corrs) {
                Ok(outcome) => outcome.0,
                Err(_) => v,
            };
            forall|account: u64, token: u64|
                bal(v2, account, token) >= #[trigger] bal(v, account, token)
        }),
    decreases acts.len(),
{
    if acts.len() > 0 {
        let corr = if acts[0] is Swap {
            corrs[0]
        } else {
            0
        };
        let rest_corrs = if acts[0] is Swap {
            corrs.drop_first()
        } else {
            corrs
        };
        let v1 = match step_action(v, sender, token_in, amount_in, acts[0], corr) {
            Ok(step) => step.0,
            Err(_) => v,
        };
        assert forall|account: u64, token: u64|
            bal(v1, account, token) >= #[trigger] bal(v, account, token) by {
            match acts[0] {
                Action::Deposit => {
                    if pack_key(account, token) == pack_key(sender, token_in) {
                        lemma_pack_key_injective(account, token, sender, token_in);
                    }
                },
                Action::Swap { .. } => {
                    if pack_key(account, token) == pack_key(sender, token_in) {
                        lemma_pack_key_injective(account, token, sender, token_in);
                    }
                },
                Action::AddLiquidity { .. } => {},
            }
        }
        lemma_run_never_debits(
            v1,
            sender,
            token_in,
            amount_in,
            acts.drop_first(),
            rest_corrs,
        );
    }
}

/// The machine-limit side conditions of a whole run, each asked in the
/// state its action runs against; nothing is asked past a failing
/// action.
pub open spec fn actions_fit(
    v: VenueView,
    sender: u64,
    token_in: u64,
    amount_in: u128,
    acts: Seq<Action>,
    corrs: Seq<u64>,
) -> bool
    decreases acts.len(),
{
    acts.len() == 0 || {
        let corr = if acts[0] is Swap {
            corrs[0]
        } else {
            0
        };
        let rest_corrs = if acts[0] is Swap {
            corrs.drop_first()
        } else {
            corrs
        };
        (acts[0] is Swap ==> corrs.len() >= 1) && step_fits(
            v,
            sender,
            token_in,
            amount_in,
            acts[0],
            corr,
        ) && match step_action(v, sender, token_in, amount_in, acts[0], corr) {
            Err(_) => true,
            Ok((v1, _)) => actions_fit(
                v1,
                sender,
                token_in,
                amount_in,
                acts.drop_first(),
                rest_corrs,
            ),
        }
    }
}

} // verus!
