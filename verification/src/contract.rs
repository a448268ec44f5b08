//! The venue itself: deposit ledger, pool registry, and the
//! suspend/resume settlement protocol, all proved to follow the state
//! machine in `model`.

use vstd::prelude::*;

verus! {

use crate::amap::AMap;
use crate::keys::canonical_key;
use crate::keys::get_pool_key;
use crate::keys::lemma_pack_key_parts;
use crate::keys::make_packed_key;
use crate::keys::pack_key;
use crate::keys::PAIR_BASE;
use crate::model::actions_fit;
use crate::model::add_liq_fits;
use crate::model::add_liq_post;
use crate::model::add_liq_result;
use crate::model::bal;
use crate::model::create_post;
use crate::model::create_result;
use crate::model::credit_fits;
use crate::model::credit_post;
use crate::model::lemma_credit_bal;
use crate::model::make_request;
use crate::model::opt_seq;
use crate::model::run_actions;
use crate::model::step_action;
use crate::model::minted_shares;
use crate::model::new_pool_view;
use crate::model::pool_after_add;
use crate::model::pool_after_swap;
use crate::model::pool_info;
use crate::model::resolve_post;
use crate::model::resolve_result;
use crate::model::settle_fits;
use crate::model::settle_post;
use crate::model::settle_result;
use crate::model::shares_of;
use crate::model::shares_result;
use crate::model::suspend_fits;
use crate::model::suspend_post;
use crate::model::swap_balances;
use crate::model::swap_fits;
use crate::model::swap_post;
use crate::model::swap_result;
use crate::model::PoolView;
use crate::model::VenueView;
use crate::types::Action;
use crate::types::AgentNotification;
use crate::types::SwapError;
use crate::types::SwapRequest;
use crate::types::TransferRequest;
use crate::types::YieldStatus;
use crate::types::INIT_SHARES_SUPPLY;

/// A liquidity pool for one unordered token pair. The field order of
/// `token_a`/`token_b` is fixed at creation from the creator's argument
/// order and never changes.
pub struct Pool {
    token_a: u64,
    token_b: u64,
    token_a_balance: u128,
    token_b_balance: u128,
    total_shares: u128,
    shares: AMap<u128>,
}

impl Pool {
    /// The abstract picture of this pool.
    pub closed spec fn vw(&self) -> PoolView {
        PoolView {
            token_a: self.token_a,
            token_b: self.token_b,
            token_a_balance: self.token_a_balance,
            token_b_balance: self.token_b_balance,
            total_shares: self.total_shares,
            shares: self.shares@,
        }
    }

    /// Well-formed: the share table has pairwise-distinct keys and
    /// `total_shares` equals the sum of all per-account share balances —
    /// the share-conservation invariant every operation preserves.
    pub closed spec fn wf(&self) -> bool {
        self.shares.wf() && self.total_shares as int == self.shares.sum()
    }
}

/// A snapshot of one account's deposits: token to balance.
pub struct AccountDeposits {
    pub tokens: Vec<(u64, u128)>,
}

/// The map of pools as abstract pool pictures.
pub open spec fn pools_as_views(m: Map<u128, Pool>) -> Map<u128, PoolView> {
    Map::new(|k: u128| m.contains_key(k), |k: u128| m[k].vw())
}

/// The venue: configuration, deposit ledger, pool registry and
/// yield-point table.
pub struct Contract {
    /// Off-chain agent name, included in published notifications.
    agent: String,
    /// The only account allowed to resolve suspended swaps.
    agent_account_id: u64,
    /// Canonical pair key to pool.
    pools: AMap<Pool>,
    /// Packed (account, token) key to ledger balance.
    deposits: AMap<u128>,
    /// Correlation token (widened) to yield-point state.
    yields: AMap<YieldStatus>,
}

impl Contract {
    /// The abstract picture of the venue.
    pub closed spec fn vw(&self) -> VenueView {
        VenueView {
            agent: self.agent@,
            agent_account_id: self.agent_account_id,
            pools: pools_as_views(self.pools@),
            deposits: self.deposits@,
            yields: self.yields@,
        }
    }

    /// Well-formed: the tables have pairwise-distinct keys, every pool
    /// is well-formed, and every pool sits under the canonical key of
    /// its own pair.
    pub closed spec fn wf(&self) -> bool {
        &&& self.pools.wf()
        &&& self.deposits.wf()
        &&& self.yields.wf()
        &&& forall|k: u128|
            self.pools@.contains_key(k) ==> (#[trigger] self.pools@[k]).wf() && canonical_key(
                self.pools@[k].token_a,
                self.pools@[k].token_b,
            ) == k
    }

    /// A fresh venue: the agent configuration, and nothing else.
    pub fn new(agent: String, agent_account_id: u64) -> (r: Contract)
        ensures
            r.wf(),
            r.vw() == (VenueView {
                agent: agent@,
                agent_account_id,
                pools: Map::<u128, PoolView>::empty(),
                deposits: Map::<u128, u128>::empty(),
                yields: Map::<u128, YieldStatus>::empty(),
            }),
    {
        let r = Contract {
            agent,
            agent_account_id,
            pools: AMap::new(),
            deposits: AMap::new(),
            yields: AMap::new(),
        };
        proof {
            assert(pools_as_views(r.pools@) =~= Map::<u128, PoolView>::empty());
        }
        r
    }

    /// Replaces the off-chain agent name; nothing else moves.
    pub fn set_agent(&mut self, agent: String)
        requires
            old(self).wf(),
        ensures
            final(self).wf(),
            final(self).vw() == (VenueView { agent: agent@, ..old(self).vw() }),
    {
        self.agent = agent;
    }

    /// The off-chain agent name, for publishing notifications.
    pub fn agent_name(&self) -> (r: &String)
        ensures
            r@ == self.vw().agent,
    {
        &self.agent
    }

    /// Ledger balance of an account for a token; zero if no entry
    /// exists. Side-effect-free.
    pub fn balance_of(&self, account_id: u64, token_id: u64) -> (r: u128)
        requires
            self.wf(),
        ensures
            r == bal(self.vw(), account_id, token_id),
    {
        match self.deposits.get(make_packed_key(account_id, token_id)) {
            Some(v) => *v,
            None => 0,
        }
    }

    /// Credits an amount to an account's balance for a token, creating
    /// the entry if absent. Never fails; nothing in the venue debits the
    /// ledger.
    pub fn internal_deposit(&mut self, account_id: u64, token_id: u64, amount: u128)
        requires
            old(self).wf(),
            credit_fits(old(self).vw(), account_id, token_id, amount),
        ensures
            final(self).wf(),
            final(self).vw() == credit_post(old(self).vw(), account_id, token_id, amount),
    {
        let b = self.balance_of(account_id, token_id);
        let key = make_packed_key(account_id, token_id);
        self.deposits.insert(key, b + amount);
        proof {
            assert(self.vw() =~= credit_post(old(self).vw(), account_id, token_id, amount));
        }
    }

    /// Creates the pool of a new pair: the creator's deposits must cover
    /// both amounts (checked, not consumed), the pair must be new; the
    /// amounts become the reserves and the fixed initial share supply
    /// goes to the creator.
    pub fn create_pool(
        &mut self,
        token_a: u64,
        token_a_amount: u128,
        token_b: u64,
        token_b_amount: u128,
        sender_id: u64,
    ) -> (r: Result<(), SwapError>)
        requires
            old(self).wf(),
        ensures
            final(self).wf(),
            r == create_result(
                old(self).vw(),
                token_a,
                token_a_amount,
                token_b,
                token_b_amount,
                sender_id,
            ),
            final(self).vw() == create_post(
                old(self).vw(),
                token_a,
                token_a_amount,
                token_b,
                token_b_amount,
                sender_id,
            ),
    {
        let balance_token_a = self.balance_of(sender_id, token_a);
        if balance_token_a < token_a_amount {
            return Err(SwapError::InsufficientDeposit);
        }
        let balance_token_b = self.balance_of(sender_id, token_b);
        if balance_token_b < token_b_amount {
            return Err(SwapError::InsufficientDeposit);
        }
        let pool_key = get_pool_key(token_a, token_b);
        if self.pools.contains(pool_key) {
            return Err(SwapError::PoolAlreadyExists);
        }
        let mut shares_map: AMap<u128> = AMap::new();
        proof {
            shares_map.lemma_sum_empty();
        }
        shares_map.insert_amount(sender_id as u128, INIT_SHARES_SUPPLY);
        let pool = Pool {
            token_a,
            token_b,
            token_a_balance: token_a_amount,
            token_b_balance: token_b_amount,
            total_shares: INIT_SHARES_SUPPLY,
            shares: shares_map,
        };
        proof {
            assert(pool.vw() =~= new_pool_view(
                token_a,
                token_b,
                token_a_amount,
                token_b_amount,
                sender_id,
            ));
        }
        self.pools.insert(pool_key, pool);
        proof {
            assert(pools_as_views(self.pools@) =~= pools_as_views(old(self).pools@).insert(
                canonical_key(token_a, token_b),
                new_pool_view(token_a, token_b, token_a_amount, token_b_amount, sender_id),
            ));
            assert(self.vw() =~= create_post(
                old(self).vw(),
                token_a,
                token_a_amount,
                token_b,
                token_b_amount,
                sender_id,
            ));
        }
        Ok(())
    }

    /// Reserves and total shares of the pair's pool, `None` where no
    /// pool exists; independent of argument order.
    pub fn get_pool_info(&self, token_a: u64, token_b: u64) -> (r: Option<(u128, u128, u128)>)
        requires
            self.wf(),
        ensures
            r == pool_info(self.vw(), token_a, token_b),
    {
        let pool_key = get_pool_key(token_a, token_b);
        match self.pools.get(pool_key) {
            Some(pool) => Some((pool.token_a_balance, pool.token_b_balance, pool.total_shares)),
            None => None,
        }
    }

    /// The account's share count in the pair's pool; zero if the account
    /// holds none, `PoolNotFound` where no pool exists.
    pub fn get_shares(&self, token_a: u64, token_b: u64, account_id: u64) -> (r: Result<
        u128,
        SwapError,
    >)
        requires
            self.wf(),
        ensures
            r == shares_result(self.vw(), token_a, token_b, account_id),
    {
        let pool_key = get_pool_key(token_a, token_b);
        match self.pools.get(pool_key) {
            Some(pool) => match pool.shares.get(account_id as u128) {
                Some(v) => Ok(*v),
                None => Ok(0),
            },
            None => Err(SwapError::PoolNotFound),
        }
    }

    /// The pair's reserves oriented from the side of `token_in`;
    /// `PoolNotFound` where no pool exists.
    pub fn get_swap_balances(&self, token_in: u64, token_out: u64) -> (r: Result<
        (u128, u128),
        SwapError,
    >)
        requires
            self.wf(),
        ensures
            r == swap_balances(self.vw(), token_in, token_out),
    {
        let pool_key = get_pool_key(token_in, token_out);
        match self.pools.get(pool_key) {
            Some(pool) => {
                if token_in == pool.token_a {
                    Ok((pool.token_a_balance, pool.token_b_balance))
                } else {
                    Ok((pool.token_b_balance, pool.token_a_balance))
                }
            },
            None => Err(SwapError::PoolNotFound),
        }
    }

    /// One account's deposits: every token the ledger holds for the
    /// account, each with its balance, each token once. An account
    /// without entries gets an empty snapshot.
    pub fn get_deposits(&self, account_id: u64) -> (r: AccountDeposits)
        requires
            self.wf(),
        ensures
            forall|i: int|
                0 <= i < r.tokens@.len() ==> self.vw().deposits.contains_key(
                    pack_key(account_id, (#[trigger] r.tokens@[i]).0),
                ) && r.tokens@[i].1 == self.vw().deposits[pack_key(account_id, r.tokens@[i].0)],
            forall|t: u64|
                self.vw().deposits.contains_key(#[trigger] pack_key(account_id, t)) ==> exists|
                    i: int,
                |
                    0 <= i < r.tokens@.len() && (#[trigger] r.tokens@[i]).0 == t,
    {
        let entries = self.deposits.entries_list();
        proof {
            self.deposits.lemma_entries_correspond();
        }
        let ghost es = self.deposits.entries_view();
        let mut r = AccountDeposits { tokens: Vec::new() };
        let mut j: usize = 0;
        while j < entries.len()
            invariant
                self.wf(),
                j <= entries.len(),
                entries@ == es,
                es == self.deposits.entries_view(),
                forall|i: int|
                    0 <= i < es.len() ==> self.deposits@.contains_key((#[trigger] es[i]).0)
                        && self.deposits@[es[i].0] == es[i].1,
                forall|i: int|
                    0 <= i < r.tokens@.len() ==> self.deposits@.contains_key(
                        pack_key(account_id, (#[trigger] r.tokens@[i]).0),
                    ) && r.tokens@[i].1 == self.deposits@[pack_key(account_id, r.tokens@[i].0)],
                forall|i0: int|
                    0 <= i0 < j && (#[trigger] es[i0]).0 / PAIR_BASE == account_id as u128
                        ==> exists|i: int|
                        0 <= i < r.tokens@.len() && (#[trigger] r.tokens@[i]).0 as u128 == es[i0].0
                            % PAIR_BASE,
            decreases entries.len() - j,
        {
            let (k, v) = entries[j];
            let ghost prev = r.tokens@;
            if k / PAIR_BASE == account_id as u128 {
                let tok = (k % PAIR_BASE) as u64;
                proof {
                    assert(k == (k / PAIR_BASE) * PAIR_BASE + k % PAIR_BASE) by (nonlinear_arith);
                    assert(k == pack_key(account_id, tok));
                }
                r.tokens.push((tok, v));
            }
            proof {
                assert forall|i0: int|
                    0 <= i0 < j + 1 && (#[trigger] es[i0]).0 / PAIR_BASE
                        == account_id as u128 implies exists|i: int|
                    0 <= i < r.tokens@.len() && (#[trigger] r.tokens@[i]).0 as u128 == es[i0].0
                        % PAIR_BASE by {
                    if i0 < j {
                        let i = choose|i: int|
                            0 <= i < prev.len() && (#[trigger] prev[i]).0 as u128 == es[i0].0
                                % PAIR_BASE;
                        assert(r.tokens@[i].0 as u128 == es[i0].0 % PAIR_BASE);
                    } else {
                        let i = r.tokens@.len() - 1;
                        assert(r.tokens@[i].0 as u128 == es[i0].0 % PAIR_BASE);
                    }
                }
            }
            j = j + 1;
        }
        proof {
            assert forall|t: u64|
                self.vw().deposits.contains_key(
                    #[trigger] pack_key(account_id, t),
                ) implies exists|i: int|
                0 <= i < r.tokens@.len() && (#[trigger] r.tokens@[i]).0 == t by {
                let i0 = choose|i0: int|
                    0 <= i0 < es.len() && (#[trigger] es[i0]).0 == pack_key(account_id, t);
                lemma_pack_key_parts(account_id, t);
                assert(es[i0].0 / PAIR_BASE == account_id as u128);
                let i = choose|i: int|
                    0 <= i < r.tokens@.len() && (#[trigger] r.tokens@[i]).0 as u128 == es[i0].0
                        % PAIR_BASE;
                assert(r.tokens@[i].0 == t);
            }
        }
        r
    }

    /// Commits already-validated swap numbers to the pair's pool:
    /// `amount_in` joins the `token_in` side, `amount_out` leaves the
    /// other side. No slippage or liquidity check happens here — the
    /// settlement validator establishes `swap_fits` before calling.
    pub fn internal_swap(
        &mut self,
        token_in: u64,
        token_out: u64,
        amount_in: u128,
        amount_out: u128,
    ) -> (r: Result<u128, SwapError>)
        requires
            old(self).wf(),
            swap_fits(old(self).vw(), token_in, token_out, amount_in, amount_out),
        ensures
            final(self).wf(),
            r == swap_result(old(self).vw(), token_in, token_out, amount_out),
            final(self).vw() == swap_post(old(self).vw(), token_in, token_out, amount_in, amount_out),
    {
        let pool_key = get_pool_key(token_in, token_out);
        let mut pool = match self.pools.remove(pool_key) {
            Some(p) => p,
            None => {
                proof {
                    assert(self.vw() =~= old(self).vw());
                }
                return Err(SwapError::PoolNotFound);
            },
        };
        proof {
            assert(old(self).vw().pools[pool_key] == pool.vw());
        }
        if token_in == pool.token_a {
            pool.token_a_balance = pool.token_a_balance + amount_in;
            pool.token_b_balance = pool.token_b_balance - amount_out;
        } else {
            pool.token_b_balance = pool.token_b_balance + amount_in;
            pool.token_a_balance = pool.token_a_balance - amount_out;
        }
        proof {
            assert(pool.vw() =~= pool_after_swap(
                old(self).vw().pools[pool_key],
                token_in,
                amount_in,
                amount_out,
            ));
        }
        self.pools.insert(pool_key, pool);
        proof {
            assert(self.pools@ =~= old(self).pools@.insert(pool_key, pool));
            assert(pools_as_views(self.pools@) =~= old(self).vw().pools.insert(
                pool_key,
                pool.vw(),
            ));
            assert(self.vw() =~= swap_post(
                old(self).vw(),
                token_in,
                token_out,
                amount_in,
                amount_out,
            ));
        }
        Ok(amount_out)
    }

    /// Provides liquidity to the pair's pool: mints the minimum of the
    /// two proportional ratios (floor division), grows both reserves by
    /// the full deposited amounts, and credits the minted shares to the
    /// provider. Minting zero shares for a negligible deposit is
    /// accepted.
    pub fn internal_add_liquidity(
        &mut self,
        token_in: u64,
        token_other: u64,
        amount_in: u128,
        amount_other: u128,
        sender_id: u64,
    ) -> (r: Result<(), SwapError>)
        requires
            old(self).wf(),
            add_liq_fits(old(self).vw(), token_in, token_other, amount_in, amount_other, sender_id),
        ensures
            final(self).wf(),
            r == add_liq_result(old(self).vw(), token_in, token_other),
            final(self).vw() == add_liq_post(
                old(self).vw(),
                token_in,
                token_other,
                amount_in,
                amount_other,
                sender_id,
            ),
    {
        let pool_key = get_pool_key(token_in, token_other);
        let mut pool = match self.pools.remove(pool_key) {
            Some(p) => p,
            None => {
                proof {
                    assert(self.vw() =~= old(self).vw());
                }
                return Err(SwapError::PoolNotFound);
            },
        };
        proof {
            assert(old(self).vw().pools[pool_key] == pool.vw());
        }
        let ghost p0 = pool.vw();
        let token_a_amount = if token_in == pool.token_a {
            amount_in
        } else {
            amount_other
        };
        let token_b_amount = if token_in == pool.token_a {
            amount_other
        } else {
            amount_in
        };
        let ratio_a = token_a_amount * pool.total_shares / pool.token_a_balance;
        let ratio_b = token_b_amount * pool.total_shares / pool.token_b_balance;
        let share = if ratio_a < ratio_b {
            ratio_a
        } else {
            ratio_b
        };
        proof {
            assert(share as int == minted_shares(p0, token_in, amount_in, amount_other));
        }
        pool.token_a_balance = pool.token_a_balance + token_a_amount;
        pool.token_b_balance = pool.token_b_balance + token_b_amount;
        pool.total_shares = pool.total_shares + share;
        let user_shares = match pool.shares.get(sender_id as u128) {
            Some(v) => *v,
            None => 0,
        };
        pool.shares.insert_amount(sender_id as u128, user_shares + share);
        proof {
            assert(pool.vw() =~= pool_after_add(p0, token_in, amount_in, amount_other, sender_id));
        }
        self.pools.insert(pool_key, pool);
        proof {
            assert(pools_as_views(self.pools@) =~= old(self).vw().pools.insert(
                pool_key,
                pool.vw(),
            ));
            assert(self.vw() =~= add_liq_post(
                old(self).vw(),
                token_in,
                token_other,
                amount_in,
                amount_other,
                sender_id,
            ));
        }
        Ok(())
    }

    /// Provides liquidity out of the provider's own deposits: both
    /// ledger balances must cover the amounts (checked, not consumed).
    /// Returns the provider's share count after the mint.
    pub fn add_liquidity_from_deposits(
        &mut self,
        token_a: u64,
        token_b: u64,
        amount_a: u128,
        amount_b: u128,
        sender_id: u64,
    ) -> (r: Result<u128, SwapError>)
        requires
            old(self).wf(),
            bal(old(self).vw(), sender_id, token_a) >= amount_a && bal(
                old(self).vw(),
                sender_id,
                token_b,
            ) >= amount_b ==> add_liq_fits(
                old(self).vw(),
                token_a,
                token_b,
                amount_a,
                amount_b,
                sender_id,
            ),
        ensures
            final(self).wf(),
            ({
                let v0 = old(self).vw();
                if bal(v0, sender_id, token_a) < amount_a || bal(v0, sender_id, token_b)
                    < amount_b {
                    r == Err::<u128, SwapError>(SwapError::InsufficientDeposit) && final(self).vw()
                        == v0
                } else if !v0.pools.contains_key(canonical_key(token_a, token_b)) {
                    r == Err::<u128, SwapError>(SwapError::PoolNotFound) && final(self).vw() == v0
                } else {
                    let v1 = add_liq_post(v0, token_a, token_b, amount_a, amount_b, sender_id);
                    final(self).vw() == v1 && r == Ok::<u128, SwapError>(
                        shares_of(v1.pools[canonical_key(token_a, token_b)], sender_id),
                    )
                }
            }),
    {
        let balance_a = self.balance_of(sender_id, token_a);
        let balance_b = self.balance_of(sender_id, token_b);
        if balance_a < amount_a || balance_b < amount_b {
            return Err(SwapError::InsufficientDeposit);
        }
        match self.internal_add_liquidity(token_a, token_b, amount_a, amount_b, sender_id) {
            Ok(_) => {},
            Err(e) => {
                return Err(e);
            },
        }
        match self.get_shares(token_a, token_b, sender_id) {
            Ok(s) => Ok(s),
            Err(_) => {
                proof {
                    assert(false);
                }
                Err(SwapError::PoolNotFound)
            },
        }
    }

    /// The suspend half of a swap: records the yield point under the
    /// fresh correlation token the suspend primitive issued, and returns
    /// the notification to publish to the agent. The caller's deposit
    /// was already applied by the dispatcher; nothing else moves here.
    pub fn run_agent_market_maker(
        &mut self,
        sender_id: u64,
        token_in: u64,
        token_out: u64,
        amount_in: u128,
        min_amount_out: u128,
        correlation_token: u64,
    ) -> (r: AgentNotification)
        requires
            old(self).wf(),
            suspend_fits(old(self).vw(), correlation_token),
        ensures
            final(self).wf(),
            final(self).vw() == suspend_post(
                old(self).vw(),
                make_request(sender_id, token_in, token_out, amount_in, min_amount_out),
                correlation_token,
            ),
            r == (AgentNotification {
                request: make_request(sender_id, token_in, token_out, amount_in, min_amount_out),
                correlation_token,
            }),
    {
        let request = SwapRequest { sender_id, token_in, token_out, amount_in, min_amount_out };
        self.yields.insert(correlation_token as u128, YieldStatus::Suspended(request));
        proof {
            assert(self.vw() =~= suspend_post(
                old(self).vw(),
                make_request(sender_id, token_in, token_out, amount_in, min_amount_out),
                correlation_token,
            ));
        }
        AgentNotification { request, correlation_token }
    }

    /// The resume half: only the configured agent account may call;
    /// consumes the yield point exactly once and hands back the
    /// suspended context with the agent's quote, for the settlement
    /// callback. A second resolve of the same token fails with
    /// `UnknownOrClosedYieldPoint` and changes nothing.
    pub fn agent_response(&mut self, caller: u64, correlation_token: u64, amount_out: u128) -> (r:
        Result<(SwapRequest, u128), SwapError>)
        requires
            old(self).wf(),
        ensures
            final(self).wf(),
            r == match resolve_result(old(self).vw(), caller, correlation_token) {
                Ok(req) => Ok::<(SwapRequest, u128), SwapError>((req, amount_out)),
                Err(e) => Err::<(SwapRequest, u128), SwapError>(e),
            },
            final(self).vw() == resolve_post(old(self).vw(), caller, correlation_token),
    {
        if caller != self.agent_account_id {
            return Err(SwapError::Unauthorized);
        }
        let status = match self.yields.get(correlation_token as u128) {
            Some(s) => Some(*s),
            None => None,
        };
        match status {
            Some(YieldStatus::Suspended(request)) => {
                self.yields.insert(correlation_token as u128, YieldStatus::Closed);
                proof {
                    assert(self.vw() =~= resolve_post(old(self).vw(), caller, correlation_token));
                }
                Ok((request, amount_out))
            },
            Some(YieldStatus::Closed) => Err(SwapError::UnknownOrClosedYieldPoint),
            None => Err(SwapError::UnknownOrClosedYieldPoint),
        }
    }

    /// The settlement validator, run inside the resumed continuation
    /// with the context captured at suspend time. An agent failure
    /// (`None`) rejects the swap with no effect. A quote below the floor
    /// aborts with `SlippageViolation`, committing no reserve change and
    /// requesting no transfer. Otherwise the reserve commit happens
    /// against the pool's current state — never a pre-suspension
    /// snapshot — and the outbound transfer of the quoted amount to the
    /// original sender is returned for the host to perform.
    pub fn on_agent_market_maker_response(
        &mut self,
        sender_id: u64,
        token_in: u64,
        token_out: u64,
        amount_in: u128,
        min_amount_out: u128,
        amount_out: Option<u128>,
    ) -> (r: Result<Option<TransferRequest>, SwapError>)
        requires
            old(self).wf(),
            settle_fits(
                old(self).vw(),
                make_request(sender_id, token_in, token_out, amount_in, min_amount_out),
                amount_out,
            ),
        ensures
            final(self).wf(),
            r == settle_result(
                old(self).vw(),
                make_request(sender_id, token_in, token_out, amount_in, min_amount_out),
                amount_out,
            ),
            final(self).vw() == settle_post(
                old(self).vw(),
                make_request(sender_id, token_in, token_out, amount_in, min_amount_out),
                amount_out,
            ),
    {
        match amount_out {
            None => Ok(None),
            Some(quoted) => {
                if quoted < min_amount_out {
                    return Err(SwapError::SlippageViolation);
                }
                match self.internal_swap(token_in, token_out, amount_in, quoted) {
                    Ok(paid) => Ok(
                        Some(TransferRequest { receiver_id: sender_id, token: token_out, amount: paid }),
                    ),
                    Err(e) => Err(e),
                }
            },
        }
    }

    /// Applies a decoded dispatch message: the actions in order, each
    /// against the state the previous ones left, consuming one
    /// fresh correlation token per swap suspension. The whole message is
    /// atomic: the first failing action fails the call and nothing at
    /// all is committed. On success, returns the agent notifications to
    /// publish, in action order.
    pub fn internal_process_token_transfer(
        &mut self,
        sender_id: u64,
        token_in: u64,
        amount_in: u128,
        actions: &Vec<Action>,
        correlation_tokens: &Vec<u64>,
    ) -> (r: Result<Vec<AgentNotification>, SwapError>)
        requires
            old(self).wf(),
            actions_fit(
                old(self).vw(),
                sender_id,
                token_in,
                amount_in,
                actions@,
                correlation_tokens@,
            ),
        ensures
            final(self).wf(),
            match run_actions(
                old(self).vw(),
                sender_id,
                token_in,
                amount_in,
                actions@,
                correlation_tokens@,
            ) {
                Ok(outcome) => r matches Ok(ns) && ns@ == outcome.1 && final(self).vw()
                    == outcome.0,
                Err(e) => r == Err::<Vec<AgentNotification>, SwapError>(e) && final(self).vw()
                    == old(self).vw(),
            },
    {
        let ghost v0 = old(self).vw();
        let ghost acts = actions@;
        let ghost corrs = correlation_tokens@;
        // First pass: read-only validation, so a failing action leaves
        // the venue untouched. It walks the would-be run in ghost state;
        // the only data a check needs beyond the initial state is how
        // much the run has already credited to (sender, token_in).
        let mut j: usize = 0;
        let mut credited: u128 = 0;
        let mut swaps_used: usize = 0;
        let ghost mut gv = v0;
        let ghost mut gnotifs = Seq::<AgentNotification>::empty();
        proof {
            assert(acts.skip(0) =~= acts);
            assert(corrs.skip(0) =~= corrs);
            match run_actions(v0, sender_id, token_in, amount_in, acts, corrs) {
                Ok(rest) => {
                    assert(Seq::<AgentNotification>::empty() + rest.1 =~= rest.1);
                },
                Err(_) => {},
            }
        }
        while j < actions.len()
            invariant
                self.wf(),
                self.vw() == v0,
                old(self).wf(),
                actions_fit(old(self).vw(), sender_id, token_in, amount_in, acts, corrs),
                acts == actions@,
                corrs == correlation_tokens@,
                v0 == old(self).vw(),
                j <= actions.len(),
                swaps_used <= correlation_tokens.len(),
                actions_fit(
                    gv,
                    sender_id,
                    token_in,
                    amount_in,
                    acts.skip(j as int),
                    corrs.skip(swaps_used as int),
                ),
                run_actions(v0, sender_id, token_in, amount_in, acts, corrs) == (match run_actions(
                    gv,
                    sender_id,
                    token_in,
                    amount_in,
                    acts.skip(j as int),
                    corrs.skip(swaps_used as int),
                ) {
                    Err(e) => Err::<(VenueView, Seq<AgentNotification>), SwapError>(e),
                    Ok(rest) => Ok::<(VenueView, Seq<AgentNotification>), SwapError>(
                        (rest.0, gnotifs + rest.1),
                    ),
                }),
                gv.pools.dom() == v0.pools.dom(),
                forall|t: u64|
                    bal(gv, sender_id, t) as int == bal(v0, sender_id, t) + (if t == token_in {
                        credited as int
                    } else {
                        0
                    }),
            decreases actions.len() - j,
        {
            proof {
                assert(acts.skip(j as int)[0] == acts[j as int]);
                assert(acts.skip(j as int).drop_first() =~= acts.skip(j as int + 1));
            }
            let action = actions[j];
            match action {
                Action::Deposit => {
                    proof {
                        let gvp = gv;
                        let gv1 = credit_post(gv, sender_id, token_in, amount_in);
                        lemma_credit_bal(gv, sender_id, token_in, amount_in);
                        match run_actions(
                            gv1,
                            sender_id,
                            token_in,
                            amount_in,
                            acts.skip(j as int + 1),
                            corrs.skip(swaps_used as int),
                        ) {
                            Ok(rest) => {
                                assert(gnotifs + (opt_seq(None) + rest.1) =~= gnotifs + rest.1);
                            },
                            Err(_) => {},
                        }
                        gv = gv1;
                        assert forall|t: u64|
                            bal(gv, sender_id, t) as int == bal(v0, sender_id, t) + (if t
                                == token_in {
                                credited as int + amount_in
                            } else {
                                0int
                            }) by {
                            assert(bal(gv1, sender_id, t) as int == bal(gvp, sender_id, t) + (
                            if t == token_in {
                                amount_in as int
                            } else {
                                0int
                            }));
                        }
                    }
                    credited = credited + amount_in;
                },
                Action::Swap { token_out, min_amount_out } => {
                    proof {
                        assert(acts.skip(j as int)[0] is Swap);
                        assert(corrs.skip(swaps_used as int).len() >= 1);
                        assert(swaps_used < correlation_tokens.len());
                        assert(corrs.skip(swaps_used as int)[0] == corrs[swaps_used as int]);
                        assert(corrs.skip(swaps_used as int).drop_first() =~= corrs.skip(
                            swaps_used as int + 1,
                        ));
                        let corr = corrs[swaps_used as int];
                        let req = make_request(
                            sender_id,
                            token_in,
                            token_out,
                            amount_in,
                            min_amount_out,
                        );
                        let gvp = gv;
                        let gv1 = suspend_post(
                            credit_post(gv, sender_id, token_in, amount_in),
                            req,
                            corr,
                        );
                        lemma_credit_bal(gv, sender_id, token_in, amount_in);
                        let n = AgentNotification { request: req, correlation_token: corr };
                        match run_actions(
                            gv1,
                            sender_id,
                            token_in,
                            amount_in,
                            acts.skip(j as int + 1),
                            corrs.skip(swaps_used as int + 1),
                        ) {
                            Ok(rest) => {
                                assert(gnotifs + (opt_seq(Some(n)) + rest.1) =~= (gnotifs + seq![n])
                                    + rest.1);
                            },
                            Err(_) => {},
                        }
                        gv = gv1;
                        gnotifs = gnotifs + seq![n];
                        assert forall|t: u64|
                            bal(gv, sender_id, t) as int == bal(v0, sender_id, t) + (if t
                                == token_in {
                                credited as int + amount_in
                            } else {
                                0int
                            }) by {
                            assert(bal(gv1, sender_id, t) == bal(
                                credit_post(gvp, sender_id, token_in, amount_in),
                                sender_id,
                                t,
                            ));
                            assert(bal(
                                credit_post(gvp, sender_id, token_in, amount_in),
                                sender_id,
                                t,
                            ) as int == bal(gvp, sender_id, t) + (if t == token_in {
                                amount_in as int
                            } else {
                                0int
                            }));
                        }
                    }
                    credited = credited + amount_in;
                    swaps_used = swaps_used + 1;
                },
                Action::AddLiquidity { token_other, amount_other } => {
                    let base = self.balance_of(sender_id, token_other);
                    let effective = if token_other == token_in {
                        base + credited
                    } else {
                        base
                    };
                    proof {
                        assert(effective == bal(gv, sender_id, token_other));
                    }
                    if effective < amount_other {
                        return Err(SwapError::InsufficientDeposit);
                    }
                    let key = get_pool_key(token_in, token_other);
                    if !self.pools.contains(key) {
                        return Err(SwapError::PoolNotFound);
                    }
                    proof {
                        let gvp = gv;
                        let gv1 = add_liq_post(
                            gv,
                            token_in,
                            token_other,
                            amount_in,
                            amount_other,
                            sender_id,
                        );
                        assert(gv1.pools.dom() =~= gv.pools.dom());
                        match run_actions(
                            gv1,
                            sender_id,
                            token_in,
                            amount_in,
                            acts.skip(j as int + 1),
                            corrs.skip(swaps_used as int),
                        ) {
                            Ok(rest) => {
                                assert(gnotifs + (opt_seq(None) + rest.1) =~= gnotifs + rest.1);
                            },
                            Err(_) => {},
                        }
                        gv = gv1;
                        assert forall|t: u64|
                            bal(gv, sender_id, t) as int == bal(v0, sender_id, t) + (if t
                                == token_in {
                                credited as int
                            } else {
                                0int
                            }) by {
                            assert(gv1.deposits == gvp.deposits);
                            assert(bal(gv1, sender_id, t) == bal(gvp, sender_id, t));
                        }
                    }
                },
            }
            j = j + 1;
        }
        proof {
            assert(acts.skip(acts.len() as int) =~= Seq::<Action>::empty());
            assert(gnotifs + Seq::<AgentNotification>::empty() =~= gnotifs);
        }
        let ghost vfin = gv;
        let ghost nsfin = gnotifs;
        // Every action validated: run_actions(v0, ...) == Ok((vfin, nsfin)).
        // Second pass: apply, proving the venue tracks that run exactly.
        let mut notifs: Vec<AgentNotification> = Vec::new();
        let mut i: usize = 0;
        let mut su: usize = 0;
        let ghost mut gv2 = v0;
        proof {
            assert(notifs@ =~= Seq::<AgentNotification>::empty());
            assert(acts.skip(0) =~= acts);
            assert(corrs.skip(0) =~= corrs);
            match run_actions(v0, sender_id, token_in, amount_in, acts, corrs) {
                Ok(rest) => {
                    assert(notifs@ + rest.1 =~= rest.1);
                },
                Err(_) => {},
            }
        }
        while i < actions.len()
            invariant
                self.wf(),
                self.vw() == gv2,
                acts == actions@,
                corrs == correlation_tokens@,
                i <= actions.len(),
                su <= correlation_tokens.len(),
                run_actions(v0, sender_id, token_in, amount_in, acts, corrs) == Ok::<
                    (VenueView, Seq<AgentNotification>),
                    SwapError,
                >((vfin, nsfin)),
                actions_fit(
                    gv2,
                    sender_id,
                    token_in,
                    amount_in,
                    acts.skip(i as int),
                    corrs.skip(su as int),
                ),
                run_actions(v0, sender_id, token_in, amount_in, acts, corrs) == (match run_actions(
                    gv2,
                    sender_id,
                    token_in,
                    amount_in,
                    acts.skip(i as int),
                    corrs.skip(su as int),
                ) {
                    Err(e) => Err::<(VenueView, Seq<AgentNotification>), SwapError>(e),
                    Ok(rest) => Ok::<(VenueView, Seq<AgentNotification>), SwapError>(
                        (rest.0, notifs@ + rest.1),
                    ),
                }),
            decreases actions.len() - i,
        {
            proof {
                assert(acts.skip(i as int)[0] == acts[i as int]);
                assert(acts.skip(i as int).drop_first() =~= acts.skip(i as int + 1));
            }
            let action = actions[i];
            match action {
                Action::Deposit => {
                    self.internal_deposit(sender_id, token_in, amount_in);
                    proof {
                        let gv1 = credit_post(gv2, sender_id, token_in, amount_in);
                        match run_actions(
                            gv1,
                            sender_id,
                            token_in,
                            amount_in,
                            acts.skip(i as int + 1),
                            corrs.skip(su as int),
                        ) {
                            Ok(rest) => {
                                assert(notifs@ + (opt_seq(None) + rest.1) =~= notifs@ + rest.1);
                            },
                            Err(_) => {},
                        }
                        gv2 = gv1;
                    }
                },
                Action::Swap { token_out, min_amount_out } => {
                    proof {
                        assert(acts.skip(i as int)[0] is Swap);
                        assert(corrs.skip(su as int).len() >= 1);
                        assert(su < correlation_tokens.len());
                        assert(corrs.skip(su as int)[0] == corrs[su as int]);
                        assert(corrs.skip(su as int).drop_first() =~= corrs.skip(su as int + 1));
                    }
                    self.internal_deposit(sender_id, token_in, amount_in);
                    let corr = correlation_tokens[su];
                    let n = self.run_agent_market_maker(
                        sender_id,
                        token_in,
                        token_out,
                        amount_in,
                        min_amount_out,
                        corr,
                    );
                    proof {
                        let req = make_request(
                            sender_id,
                            token_in,
                            token_out,
                            amount_in,
                            min_amount_out,
                        );
                        let gv1 = suspend_post(
                            credit_post(gv2, sender_id, token_in, amount_in),
                            req,
                            corr,
                        );
                        match run_actions(
                            gv1,
                            sender_id,
                            token_in,
                            amount_in,
                            acts.skip(i as int + 1),
                            corrs.skip(su as int + 1),
                        ) {
                            Ok(rest) => {
                                assert(notifs@ + (opt_seq(Some(n)) + rest.1) =~= (notifs@ + seq![n])
                                    + rest.1);
                            },
                            Err(_) => {},
                        }
                        gv2 = gv1;
                    }
                    let ghost notifs_prev = notifs@;
                    notifs.push(n);
                    proof {
                        assert(notifs@ =~= notifs_prev + seq![n]);
                    }
                    su = su + 1;
                },
                Action::AddLiquidity { token_other, amount_other } => {
                    proof {
                        if step_action(
                            gv2,
                            sender_id,
                            token_in,
                            amount_in,
                            acts[i as int],
                            0,
                        ) is Err {
                            assert(false);
                        }
                    }
                    let res = self.internal_add_liquidity(
                        token_in,
                        token_other,
                        amount_in,
                        amount_other,
                        sender_id,
                    );
                    proof {
                        assert(res is Ok);
                        let gv1 = add_liq_post(
                            gv2,
                            token_in,
                            token_other,
                            amount_in,
                            amount_other,
                            sender_id,
                        );
                        match run_actions(
                            gv1,
                            sender_id,
                            token_in,
                            amount_in,
                            acts.skip(i as int + 1),
                            corrs.skip(su as int),
                        ) {
                            Ok(rest) => {
                                assert(notifs@ + (opt_seq(None) + rest.1) =~= notifs@ + rest.1);
                            },
                            Err(_) => {},
                        }
                        gv2 = gv1;
                    }
                },
            }
            i = i + 1;
        }
        proof {
            assert(acts.skip(acts.len() as int) =~= Seq::<Action>::empty());
            assert(notifs@ + Seq::<AgentNotification>::empty() =~= notifs@);
        }
        Ok(notifs)
    }

    /// Lists an account's deposits as (token, balance) pairs.
    pub fn get_user_deposits(&self, account_id: u64) -> (r: Vec<(u64, u128)>)
        requires
            self.wf(),
        ensures
            forall|i: int|
                0 <= i < r@.len() ==> self.vw().deposits.contains_key(
                    pack_key(account_id, (#[trigger] r@[i]).0),
                ) && r@[i].1 == self.vw().deposits[pack_key(account_id, r@[i].0)],
            forall|t: u64|
                self.vw().deposits.contains_key(#[trigger] pack_key(account_id, t)) ==> exists|
                    i: int,
                |
                    0 <= i < r@.len() && (#[trigger] r@[i]).0 == t,
    {
        let deposits = self.get_deposits(account_id);
        deposits.tokens
    }
}

} // verus!
