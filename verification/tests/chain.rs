use std::sync::Arc;

use blockdag::block::{Block, CompleteBlock};
use blockdag::blockchain::{get_block_reward, get_side_block_reward, Blockchain, Network};
use blockdag::config::{
    MAX_BLOCK_SIZE, MINIMUM_DIFFICULTY, STABLE_HEIGHT_LIMIT, TIMESTAMP_IN_FUTURE_LIMIT,
};
use blockdag::error::BlockchainError;
use blockdag::events::ChainEvent;
use blockdag::hash;
use blockdag::hash::PublicKey;
use blockdag::mempool::Mempool;
use blockdag::storage::Storage;
use blockdag::transaction::{Transaction, TransactionType, Transfer};
use blockdag::tx_verify::xelis_asset;

fn digest(n: u64) -> hash::Hash {
    hash::Hash { w0: 0, w1: 0, w2: 0, w3: n }
}

fn key(n: u64) -> PublicKey {
    PublicKey { id: hash::Hash { w0: 1, w1: 0, w2: 0, w3: n } }
}

fn miner() -> PublicKey {
    key(1)
}

fn dev() -> PublicKey {
    key(1000)
}

struct Node {
    chain: Blockchain,
    storage: Storage,
    mempool: Mempool,
}

impl Node {
    fn new() -> Node {
        Node {
            chain: Blockchain {
                height: 0,
                topoheight: 0,
                stable_height: 0,
                difficulty: MINIMUM_DIFFICULTY,
                simulator: false,
                network: Network::Mainnet,
                dev_key: dev(),
            },
            storage: Storage::new(),
            mempool: Mempool::new(),
        }
    }

    fn add(&mut self, block: CompleteBlock, now: u128) -> Result<Vec<ChainEvent>, BlockchainError> {
        self.chain.add_new_block_at(&mut self.storage, &mut self.mempool, block, now)
    }

    fn balance(&self, key: &PublicKey) -> u64 {
        self.storage.get_last_balance(key, &xelis_asset()).unwrap().1
    }
}

fn block(n: u64, height: u64, timestamp: u128, tips: Vec<u64>, txs: Vec<Arc<Transaction>>) -> CompleteBlock {
    let hashes = txs.iter().map(|tx| tx.hash).collect();
    let tips = tips.into_iter().map(digest).collect();
    CompleteBlock::new(digest(n), Block::new(height, timestamp, tips, [0u8; 32], miner(), hashes), txs)
}

fn transfer(n: u64, from: PublicKey, to: PublicKey, amount: u64, nonce: u64) -> Arc<Transaction> {
    let outputs = vec![Transfer { amount, asset: xelis_asset(), to, extra_data: None }];
    Arc::new(Transaction::new(digest(n), 100, from, nonce, 1000, TransactionType::Transfer(outputs)))
}

// A chain of `count` blocks after the genesis block, numbered from 1, each on the one before.
fn linear(count: u64) -> Node {
    let mut node = Node::new();
    node.add(block(1, 0, 1000, vec![], vec![]), 1000).unwrap();
    for i in 1..=count {
        node.add(block(i + 1, i, 1000 + i as u128, vec![i], vec![]), 5000).unwrap();
    }
    node
}

#[test]
fn genesis_has_no_tips_and_the_minimum_difficulty() {
    let mut node = Node::new();
    let events = node.add(block(1, 0, 1000, vec![], vec![]), 1000).unwrap();
    assert_eq!(node.storage.get_height_for_block(&digest(1)), Ok(0));
    assert_eq!(node.storage.get_topo_height_for_hash(&digest(1)), Ok(0));
    assert_eq!(node.storage.get_difficulty_for_block(&digest(1)), Ok(MINIMUM_DIFFICULTY));
    assert_eq!(node.storage.get_past_blocks_of(&digest(1)).unwrap().len(), 0);
    assert_eq!(node.chain.get_height(), 0);
    assert_eq!(node.chain.get_topo_height(), 0);
    assert_eq!(events.last(), Some(&ChainEvent::NewBlock { hash: digest(1) }));
    assert_eq!(node.chain.get_difficulty_at_tips(&node.storage, &vec![]), Ok(MINIMUM_DIFFICULTY));
}

#[test]
fn linear_chain_orders_blocks_and_sums_supply() {
    let node = linear(2);
    let first = get_block_reward(0);
    let second = get_block_reward(first);
    assert_eq!(first, 877380);
    assert_eq!(node.storage.get_topo_height_for_hash(&digest(1)), Ok(0));
    assert_eq!(node.storage.get_topo_height_for_hash(&digest(2)), Ok(1));
    assert_eq!(node.storage.get_topo_height_for_hash(&digest(3)), Ok(2));
    assert_eq!(node.storage.get_block_reward(&digest(2)), Ok(first));
    assert_eq!(node.storage.get_supply_for_block(&digest(3)), Ok(first + second));
    assert_eq!(node.chain.get_height(), 2);
    assert_eq!(node.chain.get_topo_height(), 2);
    assert_eq!(node.storage.get_tips(), &vec![digest(3)]);
}

#[test]
fn fork_and_merge_orders_the_heavier_branch_first() {
    let mut node = Node::new();
    node.add(block(1, 0, 1000, vec![], vec![]), 1000).unwrap();
    node.add(block(3, 1, 1001, vec![1], vec![]), 2000).unwrap();
    node.add(block(2, 1, 1001, vec![1], vec![]), 2000).unwrap();
    assert!(node.chain.is_block_orphaned_for_storage(&node.storage, &digest(2)));
    node.add(block(4, 2, 1002, vec![3, 2], vec![]), 2000).unwrap();
    assert_eq!(node.storage.get_hash_at_topo_height(0), Ok(digest(1)));
    assert_eq!(node.storage.get_hash_at_topo_height(1), Ok(digest(3)));
    assert_eq!(node.storage.get_hash_at_topo_height(2), Ok(digest(2)));
    assert_eq!(node.storage.get_hash_at_topo_height(3), Ok(digest(4)));
    assert_eq!(node.chain.is_side_block(&node.storage, &digest(3)), Ok(false));
    assert_eq!(node.chain.is_side_block(&node.storage, &digest(2)), Ok(true));
    assert_eq!(node.chain.is_side_block(&node.storage, &digest(4)), Ok(false));
    let first = get_block_reward(0);
    assert_eq!(node.storage.get_block_reward(&digest(3)), Ok(first));
    assert_eq!(node.storage.get_block_reward(&digest(2)), Ok(get_side_block_reward(first)));
    assert_eq!(get_side_block_reward(first), get_block_reward(first) * 30 / 100);
    assert_eq!(node.storage.get_tips(), &vec![digest(4)]);
}

#[test]
fn block_on_a_tip_that_drifted_is_refused() {
    let mut node = Node::new();
    node.add(block(1, 0, 1000, vec![], vec![]), 1000).unwrap();
    node.add(block(3, 1, 1001, vec![1], vec![]), 5000).unwrap();
    node.add(block(2, 1, 1001, vec![1], vec![]), 5000).unwrap();
    let mut last = 3;
    for height in 2..=7u64 {
        let n = 10 + height;
        node.add(block(n, height, 1000 + height as u128, vec![last], vec![]), 5000).unwrap();
        last = n;
    }
    assert_eq!(node.chain.get_height(), 7);
    assert_eq!(node.chain.calculate_distance_from_mainchain(&node.storage, &digest(2)), Ok(0));
    // Seven heights behind: still within the limit.
    assert!(node.chain.check_block(&node.storage, &block(50, 2, 2000, vec![2], vec![]), 5000).is_ok());
    node.add(block(18, 8, 1008, vec![last], vec![]), 5000).unwrap();
    node.add(block(19, 9, 1009, vec![18], vec![]), 5000).unwrap();
    assert_eq!(node.chain.get_height(), 9);
    assert_eq!(node.chain.get_height() - 0, STABLE_HEIGHT_LIMIT + 1);
    assert_eq!(
        node.add(block(51, 2, 2000, vec![2], vec![]), 5000),
        Err(BlockchainError::BlockDeviation)
    );
    assert!(!node.storage.has_block(&digest(51)));
}

#[test]
fn timestamp_at_the_limit_is_accepted_and_one_millisecond_later_refused() {
    let mut node = linear(1);
    let now: u128 = 10_000;
    let late = block(10, 2, now + TIMESTAMP_IN_FUTURE_LIMIT + 1, vec![2], vec![]);
    assert_eq!(
        node.add(late, now),
        Err(BlockchainError::TimestampIsInFuture(now, now + TIMESTAMP_IN_FUTURE_LIMIT + 1))
    );
    let on_time = block(10, 2, now + TIMESTAMP_IN_FUTURE_LIMIT, vec![2], vec![]);
    assert!(node.add(on_time, now).is_ok());
}

#[test]
fn tip_reachable_from_another_tip_is_refused() {
    let mut node = linear(2);
    assert_eq!(
        node.add(block(10, 3, 2000, vec![3, 2], vec![]), 5000),
        Err(BlockchainError::InvalidReachability)
    );
    assert_eq!(
        node.add(block(10, 3, 2000, vec![3, 3], vec![]), 5000),
        Err(BlockchainError::InvalidReachability)
    );
}

#[test]
fn admission_errors_come_with_their_inputs() {
    let mut node = linear(2);
    assert_eq!(node.add(block(3, 2, 2000, vec![2], vec![]), 5000), Err(BlockchainError::AlreadyInChain));
    assert_eq!(
        node.add(block(10, 3, 2000, vec![3, 2, 1, 9], vec![]), 5000),
        Err(BlockchainError::InvalidTips)
    );
    assert_eq!(node.add(block(10, 0, 2000, vec![], vec![]), 5000), Err(BlockchainError::ExpectedTips));
    assert_eq!(node.add(block(10, 3, 2000, vec![77], vec![]), 5000), Err(BlockchainError::InvalidTips));
    assert_eq!(
        node.add(block(10, 7, 2000, vec![3], vec![]), 5000),
        Err(BlockchainError::InvalidBlockHeight(3, 7))
    );
    assert_eq!(
        node.add(block(10, 3, 1, vec![3], vec![]), 5000),
        Err(BlockchainError::TimestampIsLessThanParent(1))
    );
    let heavy = CompleteBlock::new(
        hash::Hash { w0: u64::MAX, w1: 0, w2: 0, w3: 10 },
        Block::new(3, 2000, vec![digest(3)], [0u8; 32], miner(), vec![]),
        vec![],
    );
    assert_eq!(node.add(heavy, 5000), Err(BlockchainError::InvalidDifficulty));
    let tx = transfer(100, miner(), key(2), 10, 0);
    let mismatch = CompleteBlock::new(
        digest(10),
        Block::new(3, 2000, vec![digest(3)], [0u8; 32], miner(), vec![]),
        vec![tx.clone()],
    );
    assert_eq!(node.add(mismatch, 5000), Err(BlockchainError::InvalidBlockTxs(0, 1)));
    let wrong = CompleteBlock::new(
        digest(10),
        Block::new(3, 2000, vec![digest(3)], [0u8; 32], miner(), vec![digest(101)]),
        vec![tx.clone()],
    );
    assert_eq!(node.add(wrong, 5000), Err(BlockchainError::InvalidTxInBlock(digest(100))));
    assert_eq!(
        node.add(block(10, 3, 2000, vec![3], vec![tx.clone(), tx]), 5000),
        Err(BlockchainError::TxAlreadyInBlock(digest(100)))
    );
    assert_eq!(node.chain.get_height(), 2);
    assert_eq!(node.storage.get_tips(), &vec![digest(3)]);
}

#[test]
fn block_under_the_stable_height_is_refused() {
    let mut node = linear(10);
    assert!(node.chain.get_stable_height() >= 2);
    assert_eq!(
        node.add(block(50, 1, 2000, vec![1], vec![]), 5000),
        Err(BlockchainError::InvalidBlockHeightStableHeight)
    );
}

#[test]
fn block_of_the_maximum_size_is_accepted_and_one_byte_more_refused() {
    let mut node = linear(3);
    let header = 99 + 32 * 2;
    let fits = Arc::new(Transaction::new(
        digest(100),
        MAX_BLOCK_SIZE - header,
        miner(),
        0,
        1_024_000,
        TransactionType::Burn(xelis_asset(), 1),
    ));
    let too_big = Arc::new(Transaction::new(
        digest(100),
        MAX_BLOCK_SIZE - header + 1,
        miner(),
        0,
        1_024_000,
        TransactionType::Burn(xelis_asset(), 1),
    ));
    assert_eq!(
        node.add(block(10, 4, 2000, vec![4], vec![too_big]), 5000),
        Err(BlockchainError::InvalidBlockSize(MAX_BLOCK_SIZE, MAX_BLOCK_SIZE + 1))
    );
    assert!(node.add(block(10, 4, 2000, vec![4], vec![fits]), 5000).is_ok());
}

#[test]
fn nonce_must_follow_the_transactions_before_it_in_the_block() {
    let mut node = linear(2);
    let ahead = transfer(101, miner(), key(2), 10, 1);
    assert_eq!(
        node.add(block(10, 3, 2000, vec![3], vec![ahead.clone()]), 5000),
        Err(BlockchainError::InvalidTxNonce)
    );
    let first = transfer(100, miner(), key(2), 10, 0);
    assert!(node.add(block(10, 3, 2000, vec![3], vec![first, ahead]), 5000).is_ok());
    assert_eq!(node.storage.get_nonce(&miner()), 2);
    assert_eq!(node.balance(&key(2)), 20);
}

#[test]
fn second_spend_of_a_block_that_the_balance_cannot_cover_refuses_the_block() {
    let mut node = linear(2);
    let fund = transfer(100, miner(), key(7), 2100, 0);
    node.add(block(10, 3, 2000, vec![3], vec![fund]), 5000).unwrap();
    assert_eq!(node.balance(&key(7)), 2100);
    let first = transfer(101, key(7), key(8), 60, 0);
    let second = transfer(102, key(7), key(9), 50, 1);
    assert_eq!(
        node.add(block(11, 4, 2001, vec![10], vec![first.clone(), second]), 5000),
        Err(BlockchainError::NotEnoughFunds(key(7), xelis_asset(), 2110, 2100))
    );
    assert!(!node.storage.has_block(&digest(11)));
    assert!(node.add(block(11, 4, 2001, vec![10], vec![first]), 5000).is_ok());
    assert_eq!(node.balance(&key(7)), 1040);
    assert_eq!(node.balance(&key(8)), 60);
}

#[test]
fn rewind_restores_balances_and_returns_transactions_to_the_pool() {
    let mut node = linear(2);
    let mut last = 3;
    for i in 0..5u64 {
        let tx = transfer(100 + i, miner(), key(2), 10, i);
        let n = 10 + i;
        node.add(block(n, 3 + i, 2000 + i as u128, vec![last], vec![tx]), 5000).unwrap();
        last = n;
    }
    assert_eq!(node.balance(&key(2)), 50);
    assert_eq!(node.chain.get_topo_height(), 7);
    let tips = node.storage.get_tips().clone();
    assert_eq!(tips, vec![digest(14)]);
    let reached = node.chain.rewind_chain_for_storage(&mut node.storage, &mut node.mempool, 2);
    assert_eq!(reached, Ok(5));
    assert_eq!(node.balance(&key(2)), 30);
    assert_eq!(node.chain.get_topo_height(), 5);
    assert_eq!(node.chain.get_height(), 5);
    assert_eq!(node.storage.get_nonce(&miner()), 3);
    assert_eq!(node.storage.get_tips(), &vec![digest(12)]);
    assert!(!node.storage.has_block(&digest(13)));
    assert_eq!(node.mempool.size(), 2);
    assert!(node.mempool.contains_tx(&digest(103)));
    assert!(node.mempool.contains_tx(&digest(104)));
    assert_eq!(node.mempool.get_txs()[0].nonce, 3);
    assert_eq!(node.mempool.get_txs()[1].nonce, 4);
}

#[test]
fn adding_a_block_and_rewinding_one_restores_the_store() {
    let mut node = linear(3);
    let tx = transfer(100, miner(), key(2), 10, 0);
    let height = node.storage.get_top_height();
    let topoheight = node.storage.get_top_topoheight();
    let tips = node.storage.get_tips().clone();
    let balance = node.balance(&miner());
    node.add(block(10, 4, 2000, vec![4], vec![tx]), 5000).unwrap();
    assert_eq!(node.balance(&key(2)), 10);
    assert_eq!(node.chain.rewind_chain_for_storage(&mut node.storage, &mut node.mempool, 1), Ok(topoheight));
    assert_eq!(node.storage.get_top_height(), height);
    assert_eq!(node.storage.get_top_topoheight(), topoheight);
    assert_eq!(node.storage.get_tips(), &tips);
    assert_eq!(node.balance(&miner()), balance);
    assert!(node.storage.get_last_balance(&key(2), &xelis_asset()).is_err());
    assert!(node.mempool.contains_tx(&digest(100)));
    assert!(node.add(block(10, 4, 2000, vec![4], vec![transfer(100, miner(), key(2), 10, 0)]), 5000).is_ok());
}

#[test]
fn replaying_the_blocks_gives_the_same_order_and_difficulties() {
    let build = |now: u128| {
        let mut node = Node::new();
        node.add(block(1, 0, 1000, vec![], vec![]), now).unwrap();
        node.add(block(3, 1, 1001, vec![1], vec![]), now).unwrap();
        node.add(block(2, 1, 1001, vec![1], vec![]), now).unwrap();
        node.add(block(4, 2, 1002, vec![3, 2], vec![]), now).unwrap();
        node.add(block(5, 3, 1003, vec![4], vec![]), now).unwrap();
        node
    };
    let a = build(2000);
    let b = build(9000);
    for n in 1..=5u64 {
        assert_eq!(
            a.storage.get_topo_height_for_hash(&digest(n)),
            b.storage.get_topo_height_for_hash(&digest(n))
        );
        assert_eq!(
            a.storage.get_cumulative_difficulty_for_block(&digest(n)),
            b.storage.get_cumulative_difficulty_for_block(&digest(n))
        );
    }
    assert_eq!(a.storage.get_cumulative_difficulty_for_block(&digest(1)), Ok(MINIMUM_DIFFICULTY));
    assert_eq!(a.storage.get_cumulative_difficulty_for_block(&digest(3)), Ok(2 * MINIMUM_DIFFICULTY));
    assert_eq!(a.storage.get_cumulative_difficulty_for_block(&digest(4)), Ok(4 * MINIMUM_DIFFICULTY));
}

#[test]
fn every_topoheight_holds_one_block_and_supply_never_falls() {
    let node = {
        let mut node = Node::new();
        node.add(block(1, 0, 1000, vec![], vec![]), 2000).unwrap();
        node.add(block(3, 1, 1001, vec![1], vec![]), 2000).unwrap();
        node.add(block(2, 1, 1001, vec![1], vec![]), 2000).unwrap();
        node.add(block(4, 2, 1002, vec![3, 2], vec![]), 2000).unwrap();
        node
    };
    let top = node.storage.get_top_topoheight();
    assert_eq!(top, 3);
    let mut supply = 0;
    for t in 0..=top {
        let h = node.storage.get_hash_at_topo_height(t).unwrap();
        assert_eq!(node.storage.get_topo_height_for_hash(&h), Ok(t));
        let now = node.storage.get_supply_at_topo_height(t).unwrap();
        assert!(now >= supply);
        supply = now;
        for tip in node.storage.get_past_blocks_of(&h).unwrap() {
            assert!(node.storage.get_topo_height_for_hash(tip).unwrap() < t);
            assert!(node.storage.get_height_for_block(tip).unwrap() < node.storage.get_height_for_block(&h).unwrap());
        }
    }
    assert!(node.storage.get_hash_at_topo_height(top + 1).is_err());
}

#[test]
fn miner_and_development_key_share_the_reward() {
    let node = linear(1);
    let reward = get_block_reward(0);
    assert_eq!(node.balance(&dev()), reward * 5 / 100);
    assert_eq!(node.balance(&miner()), reward - reward * 5 / 100);
    assert_eq!(node.storage.get_nonce(&miner()), 0);
    assert!(node.storage.has_nonce(&miner()));
    assert!(!node.storage.has_nonce(&key(2)));
}
