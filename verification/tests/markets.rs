use atc_chain::dex::{FeeCalculator, LiquidityPool, Order, OrderBook, OrderMatcher, Settlement, Side};
use atc_chain::governance::{Dao, Delegation, Proposal, ProposalStatus, VoteType, VotingSystem};
use atc_chain::l2::{ExecutionError, L2Executor, L2State, Transaction};

fn a(v: u8) -> [u8; 32] {
    [v; 32]
}

fn r(v: u8) -> [u8; 32] {
    [v; 32]
}

#[test]
fn token_transfer_is_deterministic() {
    let mut s = L2State::new(658467);
    s.execute(&Transaction::CreateToken { id: 1, symbol: "ATC2".into(), decimals: 18, issuer: a(1) }).unwrap();
    s.execute(&Transaction::Mint { token: 1, to: a(1), amount: 100 }).unwrap();
    s.execute(&Transaction::Transfer { token: 1, from: a(1), to: a(2), amount: 40 }).unwrap();
    assert_eq!(s.balance_of(1, a(1)), 60);
    assert_eq!(s.balance_of(1, a(2)), 40);
}

#[test]
fn deposit_reference_is_replay_protected() {
    let mut s = L2State::new(658467);
    s.execute(&Transaction::CreateToken { id: 1, symbol: "ATC2".into(), decimals: 18, issuer: a(1) }).unwrap();
    assert!(s.execute(&Transaction::Deposit { token: 1, to: a(2), amount: 50, l1_reference: r(7) }).is_ok());
    assert_eq!(
        s.execute(&Transaction::Deposit { token: 1, to: a(2), amount: 50, l1_reference: r(7) }),
        Err(ExecutionError::Replay)
    );
}

#[test]
fn batch_and_commitment_are_reproducible() {
    let txs = vec![
        Transaction::CreateToken { id: 1, symbol: "ATC2".into(), decimals: 18, issuer: a(1) },
        Transaction::Mint { token: 1, to: a(1), amount: 100 },
    ];
    let mut a_state = L2State::new(658467);
    let mut b_state = L2State::new(658467);
    let a_batch = L2Executor::execute_batch(&mut a_state, txs.clone()).unwrap();
    let b_batch = L2Executor::execute_batch(&mut b_state, txs).unwrap();
    assert_eq!(a_batch.state_root, b_batch.state_root);
    assert_eq!(a_batch.batch_hash, b_batch.batch_hash);
    assert_eq!(a_batch.state_root, a_state.state_root());
    let c = L2Executor::commitment(7, &a_batch);
    assert_eq!(c.batch_number, 1);
    assert_eq!(c.l2_chain_id, 7);
}

#[test]
fn l2_errors_cover_each_refusal() {
    let mut s = L2State::new(1);
    assert_eq!(s.execute(&Transaction::Mint { token: 9, to: a(1), amount: 1 }), Err(ExecutionError::UnknownToken));
    s.execute(&Transaction::CreateToken { id: 1, symbol: "T".into(), decimals: 2, issuer: a(1) }).unwrap();
    assert_eq!(
        s.execute(&Transaction::CreateToken { id: 1, symbol: "T".into(), decimals: 2, issuer: a(1) }),
        Err(ExecutionError::TokenExists)
    );
    assert_eq!(s.execute(&Transaction::Mint { token: 1, to: a(1), amount: 0 }), Err(ExecutionError::InvalidAmount));
    assert_eq!(s.execute(&Transaction::Burn { token: 1, from: a(1), amount: 5 }), Err(ExecutionError::InsufficientBalance));
    assert_eq!(
        s.execute(&Transaction::Deposit { token: 1, to: a(1), amount: 5, l1_reference: [0; 32] }),
        Err(ExecutionError::InvalidDepositReference)
    );
    s.execute(&Transaction::Mint { token: 1, to: a(1), amount: u128::MAX }).unwrap();
    assert_eq!(s.execute(&Transaction::Mint { token: 1, to: a(2), amount: 1 }), Err(ExecutionError::Overflow));
    s.execute(&Transaction::Withdraw { token: 1, from: a(1), amount: 5, l1_reference: r(3) }).unwrap();
    assert_eq!(
        s.execute(&Transaction::Withdraw { token: 1, from: a(1), amount: 5, l1_reference: r(3) }),
        Err(ExecutionError::WithdrawalAlreadyFinalized)
    );
    assert_eq!(s.balance_of(1, a(1)), u128::MAX - 5);
}

#[test]
fn fee_is_integer_and_deterministic() {
    let f = FeeCalculator::new(FeeCalculator::DEFAULT_RATE_BPS);
    assert_eq!(f.calculate_fee(100_000), 300);
    assert_eq!(f.calculate_net(100_000), 99_700);
    assert_eq!(f.rate_bps(), 30);
}

#[test]
fn matches_only_crossing_prices() {
    let mut b = OrderBook::default();
    b.add_order(Order { id: "s1".into(), price: 100, amount: 2, side: Side::Sell, timestamp: 1 });
    b.add_order(Order { id: "s2".into(), price: 101, amount: 2, side: Side::Sell, timestamp: 2 });
    let incoming = Order { id: "b".into(), price: 100, amount: 1, side: Side::Buy, timestamp: 3 };
    let matcher = OrderMatcher;
    assert_eq!(matcher.match_orders(&incoming, &b).len(), 1);
}

#[test]
fn ordering_is_price_then_time_then_id() {
    let mut b = OrderBook::default();
    b.add_order(Order { id: "b2".into(), price: 10, amount: 1, side: Side::Buy, timestamp: 2 });
    b.add_order(Order { id: "b1".into(), price: 10, amount: 1, side: Side::Buy, timestamp: 1 });
    assert_eq!(b.best_bid().unwrap().id, "b1");
}

#[test]
fn asks_are_lowest_first_and_removal_filters_by_id() {
    let mut b = OrderBook::default();
    b.add_order(Order { id: "x".into(), price: 12, amount: 1, side: Side::Sell, timestamp: 1 });
    b.add_order(Order { id: "y".into(), price: 11, amount: 1, side: Side::Sell, timestamp: 2 });
    b.add_order(Order { id: "z".into(), price: 11, amount: 1, side: Side::Sell, timestamp: 2 });
    let ids: Vec<&str> = b.asks().iter().map(|o| o.id.as_str()).collect();
    assert_eq!(ids, vec!["y", "z", "x"]);
    b.remove_order("y");
    assert_eq!(b.best_ask().unwrap().id, "z");
    assert!(b.best_bid().is_none());
}

#[test]
fn constant_product_swap_is_integer_only() {
    let mut p = LiquidityPool::new(1_000_000, 1_000_000);
    let out = p.swap_a_for_b(100_000).unwrap();
    assert_eq!(out, 90_910);
    assert_eq!(p.reserves(), (1_100_000, 909_090));
    assert_eq!(p.swap_a_for_b(0), None);
}

#[test]
fn settlement_numbers_trades_in_order() {
    let mut s = Settlement::default();
    let t0 = s.settle("a".into(), "b".into(), 10, 1, 5);
    let t1 = s.settle("c".into(), "d".into(), 11, 2, 6);
    assert_eq!((t0.id, t1.id), (0, 1));
    assert_eq!(s.trades().len(), 2);
}

#[test]
fn proposal_passes_through_timelock_to_execution() {
    let mut dao = Dao::new(1_000, 5, 10, 5_000).unwrap();
    dao.create_proposal(Proposal::new(1, "t", "d", "p", 10, 20)).unwrap();
    assert_eq!(dao.create_proposal(Proposal::new(1, "t", "d", "p", 10, 20)), Err("proposal id already exists".to_string()));
    assert_eq!(dao.activate(1, 5), Err("voting window has not started".to_string()));
    dao.activate(1, 10).unwrap();
    dao.vote(1, "alice", VoteType::For, 8).unwrap();
    dao.vote(1, "bob", VoteType::Against, 3).unwrap();
    assert_eq!(dao.vote(1, "bob", VoteType::For, 3), Err("Already voted".to_string()));
    assert_eq!(dao.close(1, 19), Err("voting window is still open".to_string()));
    assert_eq!(dao.close(1, 20), Ok(ProposalStatus::Queued));
    assert_eq!(dao.execute(1, 24), Err("timelock not expired".to_string()));
    assert_eq!(dao.execute(1, 25), Ok(()));
    assert_eq!(dao.execute(1, 26), Err("timelock not expired".to_string()));
    assert_eq!(Dao::new(1, 1, 0, 1).err(), Some("quorum must be non-zero".to_string()));
}

#[test]
fn votes_are_tallied_by_kind() {
    let mut v = VotingSystem::new();
    v.cast_vote("a", 1, VoteType::For, 5).unwrap();
    v.cast_vote("b", 1, VoteType::Abstain, 2).unwrap();
    v.cast_vote("c", 2, VoteType::Against, 9).unwrap();
    assert_eq!(v.tally(1), (5, 0, 2));
    assert_eq!(v.voter_count(1), 2);
    assert_eq!(v.get_vote("c", 2).unwrap().weight, 9);
    assert_eq!(v.cast_vote("d", 1, VoteType::For, 0), Err("vote weight must be non-zero".to_string()));
}

#[test]
fn delegation_refuses_cycles_and_resolves_chains() {
    let mut d = Delegation::new();
    assert_eq!(d.delegate("a", "a"), Err("Cannot delegate to self".to_string()));
    d.delegate("a", "b").unwrap();
    d.delegate("b", "c").unwrap();
    assert_eq!(d.delegate("c", "a"), Err("Cycle detected".to_string()));
    assert_eq!(d.resolve("a"), "c");
    assert_eq!(d.get_delegate("a"), Some(&"b".to_string()));
    d.undelegate("b");
    assert_eq!(d.resolve("a"), "b");
}

#[test]
fn proposal_tally_applies_quorum_and_threshold() {
    let mut p = Proposal::new(1, "t", "d", "p", 0, 1);
    p.activate(0).unwrap();
    p.for_votes = 6;
    p.against_votes = 4;
    p.tally(20, 5_000).unwrap();
    assert_eq!(p.status, ProposalStatus::Rejected);
    let mut q = Proposal::new(2, "t", "d", "p", 0, 1);
    q.activate(0).unwrap();
    q.for_votes = 6;
    q.against_votes = 4;
    q.tally(5, 6_000).unwrap();
    assert_eq!(q.status, ProposalStatus::Passed);
    assert!(q.cancel().is_ok());
    assert_eq!(q.cancel(), Err("proposal cannot be cancelled".to_string()));
}

#[test]
fn more_support_keeps_a_proposal_passing() {
    for extra in [0u64, 1, 1000, u64::MAX] {
        let mut p = Proposal::new(1, "t", "d", "alice", 0, 10);
        p.activate(0).unwrap();
        p.for_votes = 6u64.saturating_add(extra);
        p.against_votes = 4;
        p.tally(5, 6000).unwrap();
        assert_eq!(p.status, ProposalStatus::Passed);
    }
    let mut q = Proposal::new(2, "t", "d", "alice", 0, 10);
    q.activate(0).unwrap();
    q.for_votes = 5;
    q.against_votes = 5;
    q.tally(5, 6000).unwrap();
    assert_eq!(q.status, ProposalStatus::Rejected);
}

#[test]
fn supply_follows_balances_and_refusals_change_nothing() {
    let mut s = L2State::new(7);
    s.execute(&Transaction::CreateToken { id: 1, symbol: "ATC2".into(), decimals: 18, issuer: a(1) }).unwrap();
    s.execute(&Transaction::Mint { token: 1, to: a(1), amount: 100 }).unwrap();
    s.execute(&Transaction::Transfer { token: 1, from: a(1), to: a(2), amount: 40 }).unwrap();
    s.execute(&Transaction::Burn { token: 1, from: a(1), amount: 10 }).unwrap();
    s.execute(&Transaction::Deposit { token: 1, to: a(3), amount: 5, l1_reference: r(9) }).unwrap();
    s.execute(&Transaction::Withdraw { token: 1, from: a(2), amount: 2, l1_reference: r(8) }).unwrap();
    let held = s.balance_of(1, a(1)) + s.balance_of(1, a(2)) + s.balance_of(1, a(3));
    assert_eq!(held, 50 + 38 + 5);
    assert_eq!(s.tokens.get(&1).unwrap().total_supply, held);
    let before = s.clone();
    assert_eq!(
        s.execute(&Transaction::Transfer { token: 1, from: a(3), to: a(1), amount: 6 }),
        Err(ExecutionError::InsufficientBalance)
    );
    assert_eq!(
        s.execute(&Transaction::Mint { token: 1, to: a(1), amount: u128::MAX }),
        Err(ExecutionError::Overflow)
    );
    assert_eq!(s, before);
}

#[test]
fn casting_a_vote_adds_to_its_kind_and_count() {
    let mut v = VotingSystem::new();
    v.cast_vote("a", 1, VoteType::For, 5).unwrap();
    v.cast_vote("z", 2, VoteType::For, 1).unwrap();
    let (f, a0, x) = v.tally(1);
    let n = v.voter_count(1);
    v.cast_vote("b", 1, VoteType::Against, 4).unwrap();
    assert_eq!(v.tally(1), (f, a0 + 4, x));
    assert_eq!(v.voter_count(1), n + 1);
    assert_eq!(v.tally(2), (1, 0, 0));
    v.cast_vote("c", 1, VoteType::For, u64::MAX).unwrap();
    assert_eq!(v.tally(1), (u64::MAX, 4, 0));
}
