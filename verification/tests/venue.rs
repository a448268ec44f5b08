use swap_venue::contract::Contract;
use swap_venue::keys::get_pool_key;
use swap_venue::types::Action;
use swap_venue::types::SwapError;
use swap_venue::types::TransferRequest;
use swap_venue::types::INIT_SHARES_SUPPLY;

const BOB: u64 = 1;
const TOKEN_IN: u64 = 2;
const TOKEN_OUT: u64 = 3;
const AGENT_ACCOUNT: u64 = 99;

// One account holding 1_000_000 of each of the two tokens.
fn get_contract() -> (Contract, u64, u64, u64) {
    let mut contract = Contract::new("test-agent".to_string(), AGENT_ACCOUNT);
    contract.internal_deposit(BOB, TOKEN_IN, 1_000_000);
    contract.internal_deposit(BOB, TOKEN_OUT, 1_000_000);
    (contract, BOB, TOKEN_IN, TOKEN_OUT)
}

#[test]
fn test_new() {
    let (contract, account_a, account_b, account_c) = get_contract();
    assert!(contract.get_pool_info(account_b, account_c).is_none());
    assert_eq!(contract.get_user_deposits(account_a).len(), 2);
}

#[test]
fn test_create_pool() {
    let (mut contract, _, account_b, account_c) = get_contract();
    contract
        .create_pool(account_b, 1_000_000, account_c, 1_000_000, BOB)
        .unwrap();

    let pool_info = contract.get_pool_info(account_b, account_c);
    assert!(pool_info.is_some());
    let (token_a_balance, token_b_balance, total_shares) = pool_info.unwrap();
    assert_eq!(token_a_balance, 1_000_000);
    assert_eq!(token_b_balance, 1_000_000);
    assert_eq!(total_shares, INIT_SHARES_SUPPLY);
}

#[test]
fn test_create_pool_small_deposit() {
    let (mut contract, _, account_b, account_c) = get_contract();
    let r = contract.create_pool(account_b, 2_000_000, account_c, 1_000_000, BOB);
    assert_eq!(r, Err(SwapError::InsufficientDeposit));
    assert!(contract.get_pool_info(account_b, account_c).is_none());
}

#[test]
fn test_get_pool_info() {
    let (mut contract, _, account_b, account_c) = get_contract();
    contract
        .create_pool(account_b, 1_000_000, account_c, 1_000_000, BOB)
        .unwrap();

    let pool_info = contract.get_pool_info(account_b, account_c);
    assert!(pool_info.is_some());

    let pool_info_reverse = contract.get_pool_info(account_c, account_b);
    assert_eq!(pool_info, pool_info_reverse);
}

#[test]
fn test_get_shares() {
    let (mut contract, account_a, account_b, account_c) = get_contract();
    contract
        .create_pool(account_b, 1_000_000, account_c, 1_000_000, BOB)
        .unwrap();

    let shares = contract.get_shares(account_b, account_c, account_a).unwrap();
    assert_eq!(shares, INIT_SHARES_SUPPLY);
}

#[test]
fn test_internal_deposit() {
    let (mut contract, account_a, account_b, _) = get_contract();
    contract.internal_deposit(account_a, account_b, 1_000_000);
    assert_eq!(contract.balance_of(account_a, account_b), 2_000_000);
}

#[test]
fn test_internal_swap() {
    let (mut contract, _, account_b, account_c) = get_contract();
    contract
        .create_pool(account_b, 1_000_000, account_c, 1_000_000, BOB)
        .unwrap();

    let amount_out = contract.internal_swap(account_b, account_c, 500, 500).unwrap();
    assert!(amount_out > 0);

    let pool_info = contract.get_pool_info(account_b, account_c).unwrap();
    assert_eq!(pool_info.0, 1_000_500);
    assert_eq!(pool_info.1, 999_500);
}

#[test]
fn canonical_key_is_order_independent() {
    assert_eq!(get_pool_key(TOKEN_IN, TOKEN_OUT), get_pool_key(TOKEN_OUT, TOKEN_IN));
    assert_eq!(get_pool_key(7, 7), get_pool_key(7, 7));
    assert_ne!(get_pool_key(1, 2), get_pool_key(1, 3));
    assert_ne!(get_pool_key(1, 2), get_pool_key(2, 3));
}

#[test]
fn add_liquidity_mints_proportional_shares() {
    let (mut contract, account_a, account_b, account_c) = get_contract();
    contract
        .create_pool(account_b, 1_000_000, account_c, 1_000_000, BOB)
        .unwrap();

    let shares = contract
        .add_liquidity_from_deposits(account_b, account_c, 500_000, 500_000, BOB)
        .unwrap();
    // Equal ratio, so the mint is exact: 500_000 * INIT_SHARES_SUPPLY / 1_000_000.
    let minted = 500_000 * INIT_SHARES_SUPPLY / 1_000_000;
    assert_eq!(shares, INIT_SHARES_SUPPLY + minted);

    let (reserve_a, reserve_b, total_shares) =
        contract.get_pool_info(account_b, account_c).unwrap();
    assert_eq!(reserve_a, 1_500_000);
    assert_eq!(reserve_b, 1_500_000);
    assert_eq!(total_shares, INIT_SHARES_SUPPLY + minted);
    assert_eq!(
        contract.get_shares(account_b, account_c, account_a).unwrap(),
        INIT_SHARES_SUPPLY + minted
    );
}

#[test]
fn create_pool_twice_fails() {
    let (mut contract, _, account_b, account_c) = get_contract();
    contract
        .create_pool(account_b, 1_000_000, account_c, 1_000_000, BOB)
        .unwrap();
    let r = contract.create_pool(account_c, 1, account_b, 1, BOB);
    assert_eq!(r, Err(SwapError::PoolAlreadyExists));
}

#[test]
fn queries_fail_without_pool() {
    let (contract, account_a, account_b, account_c) = get_contract();
    assert_eq!(
        contract.get_shares(account_b, account_c, account_a),
        Err(SwapError::PoolNotFound)
    );
    assert_eq!(
        contract.get_swap_balances(account_b, account_c),
        Err(SwapError::PoolNotFound)
    );
}

#[test]
fn suspend_then_settle_commits_and_requests_transfer() {
    let (mut contract, _, account_b, account_c) = get_contract();
    contract
        .create_pool(account_b, 1_000_000, account_c, 1_000_000, BOB)
        .unwrap();

    let notification =
        contract.run_agent_market_maker(BOB, account_b, account_c, 500, 400, 7001);
    assert_eq!(notification.correlation_token, 7001);
    assert_eq!(notification.request.amount_in, 500);
    assert_eq!(notification.request.min_amount_out, 400);

    let (request, quoted) = contract.agent_response(AGENT_ACCOUNT, 7001, 500).unwrap();
    assert_eq!(request.sender_id, BOB);

    let transfer = contract
        .on_agent_market_maker_response(
            request.sender_id,
            request.token_in,
            request.token_out,
            request.amount_in,
            request.min_amount_out,
            Some(quoted),
        )
        .unwrap();
    assert_eq!(
        transfer,
        Some(TransferRequest { receiver_id: BOB, token: account_c, amount: 500 })
    );

    let pool_info = contract.get_pool_info(account_b, account_c).unwrap();
    assert_eq!(pool_info.0, 1_000_500);
    assert_eq!(pool_info.1, 999_500);
}

#[test]
fn settle_below_floor_aborts_without_effect() {
    let (mut contract, account_a, account_b, account_c) = get_contract();
    contract
        .create_pool(account_b, 1_000_000, account_c, 1_000_000, BOB)
        .unwrap();
    contract.run_agent_market_maker(BOB, account_b, account_c, 500, 500, 7001);
    let (request, quoted) = contract.agent_response(AGENT_ACCOUNT, 7001, 400).unwrap();

    let r = contract.on_agent_market_maker_response(
        request.sender_id,
        request.token_in,
        request.token_out,
        request.amount_in,
        request.min_amount_out,
        Some(quoted),
    );
    assert_eq!(r, Err(SwapError::SlippageViolation));

    // No reserve change, and the earlier input deposit stays in the ledger.
    let pool_info = contract.get_pool_info(account_b, account_c).unwrap();
    assert_eq!(pool_info, (1_000_000, 1_000_000, INIT_SHARES_SUPPLY));
    assert_eq!(contract.balance_of(account_a, account_b), 1_000_000);
}

#[test]
fn settle_on_agent_failure_rejects_quietly() {
    let (mut contract, _, account_b, account_c) = get_contract();
    contract
        .create_pool(account_b, 1_000_000, account_c, 1_000_000, BOB)
        .unwrap();
    let r = contract.on_agent_market_maker_response(BOB, account_b, account_c, 500, 400, None);
    assert_eq!(r, Ok(None));
    let pool_info = contract.get_pool_info(account_b, account_c).unwrap();
    assert_eq!(pool_info, (1_000_000, 1_000_000, INIT_SHARES_SUPPLY));
}

#[test]
fn resolve_by_non_agent_fails_without_state_change() {
    let (mut contract, account_a, account_b, account_c) = get_contract();
    contract
        .create_pool(account_b, 1_000_000, account_c, 1_000_000, BOB)
        .unwrap();
    contract.run_agent_market_maker(BOB, account_b, account_c, 500, 400, 7001);

    let r = contract.agent_response(7, 7001, 500);
    assert_eq!(r, Err(SwapError::Unauthorized));

    // The yield point is still open: the agent can resolve afterwards.
    assert!(contract.agent_response(AGENT_ACCOUNT, 7001, 500).is_ok());
    let pool_info = contract.get_pool_info(account_b, account_c).unwrap();
    assert_eq!(pool_info, (1_000_000, 1_000_000, INIT_SHARES_SUPPLY));
    assert_eq!(contract.balance_of(account_a, account_b), 1_000_000);
}

#[test]
fn resolve_consumes_the_yield_point_exactly_once() {
    let (mut contract, _, account_b, account_c) = get_contract();
    contract
        .create_pool(account_b, 1_000_000, account_c, 1_000_000, BOB)
        .unwrap();
    contract.run_agent_market_maker(BOB, account_b, account_c, 500, 400, 7001);

    assert!(contract.agent_response(AGENT_ACCOUNT, 7001, 500).is_ok());
    let second = contract.agent_response(AGENT_ACCOUNT, 7001, 500);
    assert_eq!(second, Err(SwapError::UnknownOrClosedYieldPoint));
    let unknown = contract.agent_response(AGENT_ACCOUNT, 7002, 500);
    assert_eq!(unknown, Err(SwapError::UnknownOrClosedYieldPoint));
}

#[test]
fn dispatch_deposit_action_credits_sender() {
    let (mut contract, account_a, account_b, _) = get_contract();
    let actions = vec![Action::Deposit];
    let corrs: Vec<u64> = Vec::new();
    let notifications = contract
        .internal_process_token_transfer(account_a, account_b, 250, &actions, &corrs)
        .unwrap();
    assert!(notifications.is_empty());
    assert_eq!(contract.balance_of(account_a, account_b), 1_000_250);
}

#[test]
fn dispatch_swap_action_credits_and_suspends() {
    let (mut contract, account_a, account_b, account_c) = get_contract();
    let actions = vec![Action::Swap { token_out: account_c, min_amount_out: 400 }];
    let corrs: Vec<u64> = vec![7001];
    let notifications = contract
        .internal_process_token_transfer(account_a, account_b, 500, &actions, &corrs)
        .unwrap();
    assert_eq!(notifications.len(), 1);
    assert_eq!(notifications[0].correlation_token, 7001);
    assert_eq!(notifications[0].request.token_out, account_c);
    assert_eq!(contract.balance_of(account_a, account_b), 1_000_500);

    // The suspended swap is now resolvable by the agent.
    assert!(contract.agent_response(AGENT_ACCOUNT, 7001, 450).is_ok());
}

#[test]
fn dispatch_add_liquidity_action_updates_pool() {
    let (mut contract, account_a, account_b, account_c) = get_contract();
    contract
        .create_pool(account_b, 1_000_000, account_c, 1_000_000, BOB)
        .unwrap();
    let actions = vec![Action::AddLiquidity { token_other: account_c, amount_other: 500_000 }];
    let corrs: Vec<u64> = Vec::new();
    contract
        .internal_process_token_transfer(account_a, account_b, 500_000, &actions, &corrs)
        .unwrap();
    let (reserve_a, reserve_b, _) = contract.get_pool_info(account_b, account_c).unwrap();
    assert_eq!(reserve_a, 1_500_000);
    assert_eq!(reserve_b, 1_500_000);
}

#[test]
fn dispatch_is_atomic_on_failure() {
    let (mut contract, account_a, account_b, account_c) = get_contract();
    // No pool exists: the second action fails, and the first action's
    // deposit must not be committed either.
    let actions = vec![
        Action::Deposit,
        Action::AddLiquidity { token_other: account_c, amount_other: 1 },
    ];
    let corrs: Vec<u64> = Vec::new();
    let r = contract.internal_process_token_transfer(account_a, account_b, 250, &actions, &corrs);
    assert_eq!(r, Err(SwapError::PoolNotFound));
    assert_eq!(contract.balance_of(account_a, account_b), 1_000_000);
}

#[test]
fn dispatch_insufficient_other_deposit_fails() {
    let (mut contract, account_a, account_b, account_c) = get_contract();
    contract
        .create_pool(account_b, 1_000_000, account_c, 1_000_000, BOB)
        .unwrap();
    let actions = vec![Action::AddLiquidity { token_other: account_c, amount_other: 2_000_000 }];
    let corrs: Vec<u64> = Vec::new();
    let r = contract.internal_process_token_transfer(account_a, account_b, 500, &actions, &corrs);
    assert_eq!(r, Err(SwapError::InsufficientDeposit));
    assert_eq!(contract.balance_of(account_a, account_b), 1_000_000);
}

#[test]
fn set_agent_changes_only_the_name() {
    let (mut contract, _, account_b, account_c) = get_contract();
    contract.set_agent("other-agent".to_string());
    assert_eq!(contract.agent_name().as_str(), "other-agent");
    assert!(contract.get_pool_info(account_b, account_c).is_none());
}

#[test]
fn user_deposit_listing_matches_ledger() {
    let (contract, account_a, account_b, account_c) = get_contract();
    let mut listing = contract.get_user_deposits(account_a);
    listing.sort();
    assert_eq!(listing, vec![(account_b, 1_000_000), (account_c, 1_000_000)]);
    let deposits = contract.get_deposits(account_a);
    assert_eq!(deposits.tokens.len(), 2);
    assert!(contract.get_user_deposits(42).is_empty());
}
