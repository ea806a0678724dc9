use std::sync::Arc;

use blockdag::account::VersionedBalance;
use blockdag::block::{Block, CompleteBlock};
use blockdag::blockchain::{Blockchain, Network};
use blockdag::chain_state::ChainState;
use blockdag::config::{MINIMUM_DIFFICULTY, TIMESTAMP_IN_FUTURE_LIMIT};
use blockdag::error::BlockchainError;
use blockdag::events::ChainEvent;
use blockdag::globals::get_current_timestamp;
use blockdag::hash;
use blockdag::hash::PublicKey;
use blockdag::mempool::Mempool;
use blockdag::storage::{Storage, StoredBlock, TopoEntry};
use blockdag::transaction::{Transaction, TransactionType, Transfer};
use blockdag::tx_verify::{xelis_asset, ExpectedNonce, Spending};

fn digest(n: u64) -> hash::Hash {
    hash::Hash { w0: 0, w1: 0, w2: 0, w3: n }
}

fn key(n: u64) -> PublicKey {
    PublicKey { id: hash::Hash { w0: 1, w1: 0, w2: 0, w3: n } }
}

fn coordinator() -> Blockchain {
    Blockchain {
        height: 0,
        topoheight: 0,
        stable_height: 0,
        difficulty: MINIMUM_DIFFICULTY,
        simulator: false,
        network: Network::Mainnet,
        dev_key: key(1000),
    }
}

fn block(n: u64, height: u64, timestamp: u128, tips: Vec<u64>, txs: Vec<Arc<Transaction>>) -> CompleteBlock {
    let hashes = txs.iter().map(|tx| tx.hash).collect();
    let tips = tips.into_iter().map(digest).collect();
    CompleteBlock::new(digest(n), Block::new(height, timestamp, tips, [0u8; 32], key(1), hashes), txs)
}

fn transfer(n: u64, from: PublicKey, to: PublicKey, amount: u64, nonce: u64) -> Transaction {
    let outputs = vec![Transfer { amount, asset: xelis_asset(), to, extra_data: None }];
    Transaction::new(digest(n), 100, from, nonce, 1000, TransactionType::Transfer(outputs))
}

// Genesis and two blocks, all mined by the first key.
fn funded() -> (Blockchain, Storage, Mempool) {
    let mut chain = coordinator();
    let mut storage = Storage::new();
    let mut mempool = Mempool::new();
    chain.add_new_block_at(&mut storage, &mut mempool, block(1, 0, 1000, vec![], vec![]), 5000).unwrap();
    chain.add_new_block_at(&mut storage, &mut mempool, block(2, 1, 1001, vec![1], vec![]), 5000).unwrap();
    chain.add_new_block_at(&mut storage, &mut mempool, block(3, 2, 1002, vec![2], vec![]), 5000).unwrap();
    (chain, storage, mempool)
}

// A store that holds a first block, which alone is ordered, and a chain of
// `count` blocks on it that are not.
fn unordered_chain(count: u64) -> Storage {
    let mut storage = Storage::new();
    for i in 0..=count {
        let tips = if i == 0 { vec![] } else { vec![digest(i)] };
        storage.blocks.push(StoredBlock {
            hash: digest(i + 1),
            block: Block::new(i, 1000 + i as u128, tips, [0u8; 32], key(1), vec![]),
            txs: vec![],
            difficulty: MINIMUM_DIFFICULTY,
            cumulative_difficulty: MINIMUM_DIFFICULTY,
        });
    }
    storage.order.push(TopoEntry { hash: digest(1), reward: 0, supply: 0 });
    storage.tips.push(digest(count + 1));
    storage.top_height = count;
    storage
}

#[test]
fn block_is_admitted_at_the_time_of_the_clock() {
    let mut chain = coordinator();
    let mut storage = Storage::new();
    let mut mempool = Mempool::new();
    let now = get_current_timestamp();
    let events = chain
        .add_new_block_for_storage(&mut storage, &mut mempool, block(1, 0, now, vec![], vec![]))
        .unwrap();
    assert_eq!(events.last(), Some(&ChainEvent::NewBlock { hash: digest(1) }));
    assert_eq!(storage.get_topo_height_for_hash(&digest(1)), Ok(0));

    let late = now + 3_600_000 + TIMESTAMP_IN_FUTURE_LIMIT;
    let refused = chain.add_new_block_for_storage(&mut storage, &mut mempool, block(2, 1, late, vec![1], vec![]));
    match refused {
        Err(BlockchainError::TimestampIsInFuture(_, timestamp)) => assert_eq!(timestamp, late),
        other => panic!("{:?}", other),
    }
    assert!(!storage.has_block(&digest(2)));
    assert_eq!(storage.get_tips(), &vec![digest(1)]);
    assert_eq!(chain.get_height(), 0);

    let next = chain
        .add_new_block_for_storage(&mut storage, &mut mempool, block(2, 1, now, vec![1], vec![]))
        .unwrap();
    assert_eq!(
        next,
        vec![
            ChainEvent::BlockOrdered {
                hash: digest(2),
                topoheight: 1,
                block_type: blockdag::events::BlockType::Normal
            },
            ChainEvent::NewBlock { hash: digest(2) },
        ]
    );
    assert_eq!(chain.get_topo_height(), 1);
}

#[test]
fn distance_is_found_at_the_end_of_a_long_chain() {
    let storage = unordered_chain(3000);
    let chain = coordinator();
    assert_eq!(chain.calculate_distance_from_mainchain(&storage, &digest(3001)), Ok(0));
    assert_eq!(chain.calculate_distance_from_mainchain(&storage, &digest(1)), Ok(0));
    assert_eq!(
        chain.calculate_distance_from_mainchain(&storage, &digest(4000)),
        Err(BlockchainError::BlockNotFound(digest(4000)))
    );
}

#[test]
fn base_is_found_at_the_end_of_a_long_chain() {
    let storage = unordered_chain(3000);
    let chain = coordinator();
    assert_eq!(chain.find_tip_base(&storage, &digest(3001), 3000), Ok((digest(1), 0)));
    assert_eq!(chain.find_tip_base(&storage, &digest(1), 3000), Ok((digest(1), 0)));
    assert_eq!(chain.find_common_base(&storage, &vec![digest(3001), digest(2000)]), Ok((digest(1), 0)));
}

#[test]
fn order_is_found_at_the_end_of_a_long_chain() {
    let storage = unordered_chain(200);
    let chain = coordinator();
    let order = chain.generate_full_order(&storage, &digest(201), &digest(1), 0).unwrap();
    let expected: Vec<hash::Hash> = (1..=201).map(digest).collect();
    assert_eq!(order, expected);
    let short = chain.generate_full_order(&storage, &digest(201), &digest(199), 0).unwrap();
    assert_eq!(short, vec![digest(199), digest(200), digest(201)]);
}

#[test]
fn order_names_each_block_of_a_diamond_once() {
    // 1 <- 2, 1 <- 3, {2, 3} <- 4, {2, 3} <- 5, {4, 5} <- 6
    let mut storage = Storage::new();
    let shape: Vec<(u64, u64, Vec<u64>, u64)> = vec![
        (1, 0, vec![], 10),
        (2, 1, vec![1], 20),
        (3, 1, vec![1], 30),
        (4, 2, vec![2, 3], 40),
        (5, 2, vec![2, 3], 50),
        (6, 3, vec![4, 5], 60),
    ];
    for (n, height, tips, cumulative) in shape {
        storage.blocks.push(StoredBlock {
            hash: digest(n),
            block: Block::new(height, 1000 + height as u128, tips.into_iter().map(digest).collect(), [0u8; 32], key(1), vec![]),
            txs: vec![],
            difficulty: 10,
            cumulative_difficulty: cumulative,
        });
    }
    storage.order.push(TopoEntry { hash: digest(1), reward: 0, supply: 0 });
    storage.tips.push(digest(6));
    storage.top_height = 3;
    assert!(storage.is_sound());
    let chain = coordinator();

    let mut near = vec![digest(77)];
    chain.build_reachability_recursive(&storage, &mut near, 5, 15);
    near.sort_by_key(|h| h.w3);
    assert_eq!(near, vec![digest(4), digest(5), digest(6), digest(77)]);
    let mut all = Vec::new();
    chain.build_reachability_recursive(&storage, &mut all, 5, 0);
    all.sort_by_key(|h| h.w3);
    assert_eq!(all, (1..=6).map(digest).collect::<Vec<_>>());
    let mut two = Vec::new();
    chain.build_reachability_recursive(&storage, &mut two, 5, 14);
    two.sort_by_key(|h| h.w3);
    assert_eq!(two, (2..=6).map(digest).collect::<Vec<_>>());
    let mut alone = Vec::new();
    chain.build_reachability_recursive(&storage, &mut alone, 5, 16);
    assert_eq!(alone, vec![digest(6)]);

    assert_eq!(
        chain.generate_full_order(&storage, &digest(6), &digest(1), 0),
        Ok(vec![digest(1), digest(3), digest(2), digest(5), digest(4), digest(6)])
    );
    assert_eq!(chain.calculate_distance_from_mainchain(&storage, &digest(6)), Ok(0));
    assert_eq!(chain.find_tip_base(&storage, &digest(6), 3), Ok((digest(1), 0)));
}

#[test]
fn receiver_is_staged_from_its_last_balance() {
    let (chain, storage, _) = funded();
    let asset = xelis_asset();
    let (topoheight, balance) = storage.get_last_balance(&key(1), &asset).unwrap();
    assert_eq!(topoheight, 2);
    assert!(balance > 0);

    let next = storage.get_new_versioned_balance(&key(1), &asset, 3);
    assert_eq!(next, VersionedBalance { balance, previous_topoheight: Some(2), output_balance: None });
    let fresh = storage.get_new_versioned_balance(&key(9), &asset, 3);
    assert_eq!(fresh, VersionedBalance::zero());

    let mut state = ChainState::new(3, 0);
    let version = chain.retrieve_balance(&storage.ledger, &mut state, &key(1), &asset);
    assert_eq!(version, next);
    assert_eq!(state.receiver_balances.len(), 1);
    assert_eq!(state.receiver_balances[0].key, key(1));
    let again = chain.retrieve_balance(&storage.ledger, &mut state, &key(1), &asset);
    assert_eq!(again, next);
    assert_eq!(state.receiver_balances.len(), 1);

    assert_eq!(chain.add_balance(&storage.ledger, &mut state, &key(1), &asset, 5), Ok(()));
    assert_eq!(chain.retrieve_balance(&storage.ledger, &mut state, &key(1), &asset).get_balance(), balance + 5);
    assert_eq!(
        chain.add_balance(&storage.ledger, &mut state, &key(1), &asset, u64::MAX),
        Err(BlockchainError::Overflow)
    );
}

#[test]
fn transactions_of_a_batch_are_verified_in_turn() {
    let (chain, storage, _) = funded();
    let asset = xelis_asset();
    let mut balances: Vec<Spending> = Vec::new();
    let mut nonces: Vec<ExpectedNonce> = Vec::new();
    let first = transfer(100, key(1), key(2), 10, 0);
    assert_eq!(chain.verify_transaction_with_hash(&storage, &first, &mut balances, &mut nonces), Ok(()));
    assert_eq!(balances.len(), 1);
    assert_eq!((balances[0].key, balances[0].asset, balances[0].amount), (key(1), asset, 1010));
    assert_eq!(nonces.len(), 1);
    assert_eq!((nonces[0].key, nonces[0].nonce), (key(1), 1));

    let skipped = transfer(101, key(1), key(2), 10, 2);
    assert_eq!(
        chain.verify_transaction_with_hash(&storage, &skipped, &mut balances, &mut nonces),
        Err(BlockchainError::InvalidTxNonce)
    );
    assert_eq!(balances[0].amount, 1010);
    assert_eq!(nonces[0].nonce, 1);

    let second = transfer(102, key(1), key(2), 10, 1);
    assert_eq!(chain.verify_transaction_with_hash(&storage, &second, &mut balances, &mut nonces), Ok(()));
    assert_eq!(balances[0].amount, 2020);
    assert_eq!(nonces[0].nonce, 2);
}

#[test]
fn versions_and_transactions_give_what_they_hold() {
    let mut version = VersionedBalance::new(7, Some(3));
    assert_eq!(version.get_output_balance(), None);
    version.set_output_balance(5);
    assert_eq!(version.get_output_balance(), Some(5));
    assert_eq!(version.get_balance(), 7);
    assert_eq!(version.get_previous_topoheight(), Some(3));

    let tx = transfer(100, key(1), key(2), 10, 4);
    assert_eq!(tx.get_hash(), digest(100));
    assert_eq!(tx.get_size(), 100);
    assert_eq!(tx.get_owner(), &key(1));
    assert_eq!(tx.get_nonce(), 4);
    assert_eq!(tx.get_fee(), 1000);
    match tx.get_data() {
        TransactionType::Transfer(outputs) => assert_eq!(outputs[0].amount, 10),
        _ => panic!("a transfer was built"),
    }

    let (_, storage, _) = funded();
    assert_eq!(storage.get_block_by_hash(&digest(2)).unwrap().block.get_height(), 1);
    assert_eq!(storage.get_block_by_hash(&digest(9)).err(), Some(BlockchainError::BlockNotFound(digest(9))));
    assert_eq!(storage.get_timestamp_for_block(&digest(3)), Ok(1002));
    assert_eq!(storage.get_timestamp_for_block(&digest(9)), Err(BlockchainError::BlockNotFound(digest(9))));
}

#[test]
fn store_is_asked_whether_it_can_be_worked_on() {
    let (_, storage, _) = funded();
    assert!(storage.is_sound());
    assert!(Storage::new().is_sound());
    assert!(unordered_chain(20).is_sound());

    // a digest twice
    let mut twice = unordered_chain(3);
    twice.blocks[2].hash = digest(1);
    assert!(!twice.is_sound());

    // a tip that is not stored
    let mut missing = unordered_chain(3);
    missing.blocks[3].block.tips = vec![digest(99)];
    assert!(!missing.is_sound());

    // a tip that comes after the block
    let mut late = unordered_chain(3);
    late.blocks[1].block.tips = vec![digest(3)];
    assert!(!late.is_sound());

    // a height that is not the height at the tips
    let mut high = unordered_chain(3);
    high.blocks[3].block.height = 7;
    assert!(!high.is_sound());

    // a tip later than the block
    let mut early = unordered_chain(3);
    early.blocks[3].block.timestamp = 1;
    assert!(!early.is_sound());

    // more tips than a block may have
    let mut many = unordered_chain(5);
    many.blocks[5].block.tips = vec![digest(5), digest(4), digest(3), digest(2)];
    assert!(!many.is_sound());

    // an ordered block that is not stored
    let mut lost = unordered_chain(3);
    lost.order.push(TopoEntry { hash: digest(50), reward: 0, supply: 0 });
    assert!(!lost.is_sound());

    // a tip of the chain that is not stored
    let mut tipless = unordered_chain(3);
    tipless.tips.push(digest(60));
    assert!(!tipless.is_sound());

    // a tip set that is not the blocks that no block names
    let mut named = unordered_chain(3);
    named.tips = vec![digest(3), digest(4)];
    assert!(!named.is_sound());
    let mut none = unordered_chain(3);
    none.tips = vec![];
    assert!(!none.is_sound());

    // a top height that is not the greatest height stored
    let mut low = unordered_chain(3);
    low.top_height = 2;
    assert!(!low.is_sound());

    // a second block without tips
    let mut second = unordered_chain(3);
    second.blocks[2].block.tips = vec![];
    second.blocks[2].block.height = 0;
    assert!(!second.is_sound());

    // a log that does not ascend
    let (_, mut mixed, _) = funded();
    assert!(mixed.ledger.balances.len() >= 2);
    let last = mixed.ledger.balances.len() - 1;
    mixed.ledger.balances[0].topoheight = mixed.ledger.balances[last].topoheight + 1;
    assert!(!mixed.is_sound());
}

#[test]
fn every_block_is_ordered_after_its_tips() {
    let mut chain = coordinator();
    let mut storage = Storage::new();
    let mut mempool = Mempool::new();
    let blocks = vec![
        block(1, 0, 1000, vec![], vec![]),
        block(3, 1, 1001, vec![1], vec![]),
        block(2, 1, 1001, vec![1], vec![]),
        block(4, 2, 1002, vec![3, 2], vec![]),
        block(5, 3, 1003, vec![4], vec![]),
        block(6, 3, 1003, vec![4], vec![]),
        block(7, 4, 1004, vec![5, 6], vec![]),
    ];
    for b in blocks {
        chain.add_new_block_at(&mut storage, &mut mempool, b, 5000).unwrap();
    }
    assert_eq!(chain.get_topo_height(), 6);
    let mut ordered = 0;
    for stored in storage.blocks.iter() {
        let place = storage.get_topo_height_for_hash(&stored.hash).unwrap();
        ordered += 1;
        for tip in stored.block.tips.iter() {
            assert!(storage.get_topo_height_for_hash(tip).unwrap() < place);
        }
    }
    assert_eq!(ordered, 7);
    // the first block lies in the past of the last one, six generations of places back
    assert_eq!(storage.get_topo_height_for_hash(&digest(1)), Ok(0));
    assert_eq!(storage.get_topo_height_for_hash(&digest(7)), Ok(6));
}

#[test]
fn order_is_rebuilt_above_the_common_base_only() {
    let mut chain = coordinator();
    let mut storage = Storage::new();
    let mut mempool = Mempool::new();
    chain.add_new_block_at(&mut storage, &mut mempool, block(1, 0, 1000, vec![], vec![]), 5000).unwrap();
    chain.add_new_block_at(&mut storage, &mut mempool, block(3, 1, 1001, vec![1], vec![]), 5000).unwrap();
    chain.add_new_block_at(&mut storage, &mut mempool, block(2, 1, 1001, vec![1], vec![]), 5000).unwrap();
    assert_eq!(storage.get_hash_at_topo_height(0), Ok(digest(1)));
    assert_eq!(storage.get_hash_at_topo_height(1), Ok(digest(3)));
    assert!(chain.is_block_orphaned_for_storage(&storage, &digest(2)));
    let first = storage.order[0];

    // a block on the branch that was left out makes that branch the heavier one
    let events = chain
        .add_new_block_at(&mut storage, &mut mempool, block(5, 2, 1002, vec![2], vec![]), 5000)
        .unwrap();
    assert_eq!(storage.get_hash_at_topo_height(0), Ok(digest(1)));
    assert_eq!(storage.order[0], first);
    assert_eq!(storage.get_hash_at_topo_height(1), Ok(digest(2)));
    assert_eq!(storage.get_hash_at_topo_height(2), Ok(digest(5)));
    assert!(chain.is_block_orphaned_for_storage(&storage, &digest(3)));
    assert_eq!(
        storage.get_topo_height_for_hash(&digest(3)),
        Err(BlockchainError::BlockNotOrdered(digest(3)))
    );
    let ordered: Vec<u64> = events
        .iter()
        .filter_map(|event| match event {
            ChainEvent::BlockOrdered { topoheight, .. } => Some(*topoheight),
            _ => None,
        })
        .collect();
    assert_eq!(ordered, vec![1, 2]);
    assert!(storage.is_sound());
}

#[test]
fn side_block_has_every_near_predecessor_at_least_as_high() {
    let mut chain = coordinator();
    let mut storage = Storage::new();
    let mut mempool = Mempool::new();
    let blocks = vec![
        block(1, 0, 1000, vec![], vec![]),
        block(2, 1, 1001, vec![1], vec![]),
        block(4, 2, 1002, vec![2], vec![]),
        block(3, 2, 1002, vec![2], vec![]),
        block(5, 3, 1003, vec![4, 3], vec![]),
    ];
    for b in blocks {
        chain.add_new_block_at(&mut storage, &mut mempool, b, 5000).unwrap();
    }
    // heights 0, 1, 2, 2, 3 in the order
    assert_eq!(storage.get_hash_at_topo_height(2), Ok(digest(4)));
    assert_eq!(storage.get_hash_at_topo_height(3), Ok(digest(3)));
    assert_eq!(storage.get_hash_at_topo_height(4), Ok(digest(5)));
    // the block before the second of height 2 is as high, the one before that is lower
    assert_eq!(chain.is_side_block(&storage, &digest(3)), Ok(false));
    assert_eq!(chain.is_side_block(&storage, &digest(1)), Ok(false));
    assert_eq!(chain.is_side_block(&storage, &digest(2)), Ok(false));
    assert_eq!(chain.is_side_block(&storage, &digest(9)), Ok(false));
    let before = storage.get_supply_at_topo_height(2).unwrap();
    assert_eq!(storage.get_block_reward(&digest(3)), Ok(blockdag::blockchain::get_block_reward(before)));
}

#[test]
fn second_block_without_tips_is_refused() {
    let mut chain = coordinator();
    let mut storage = Storage::new();
    let mut mempool = Mempool::new();
    chain.add_new_block_at(&mut storage, &mut mempool, block(1, 0, 1000, vec![], vec![]), 5000).unwrap();
    assert_eq!(chain.get_height(), 0);
    assert_eq!(
        chain.add_new_block_at(&mut storage, &mut mempool, block(2, 0, 1000, vec![], vec![]), 5000),
        Err(BlockchainError::ExpectedTips)
    );
    assert!(!storage.has_block(&digest(2)));
    assert_eq!(storage.get_tips(), &vec![digest(1)]);
}

#[test]
fn tip_set_gains_the_block_and_loses_its_tips_and_rewinding_gives_it_back() {
    let mut chain = coordinator();
    let mut storage = Storage::new();
    let mut mempool = Mempool::new();
    chain.add_new_block_at(&mut storage, &mut mempool, block(1, 0, 1000, vec![], vec![]), 5000).unwrap();
    chain.add_new_block_at(&mut storage, &mut mempool, block(3, 1, 1001, vec![1], vec![]), 5000).unwrap();
    chain.add_new_block_at(&mut storage, &mut mempool, block(2, 1, 1001, vec![1], vec![]), 5000).unwrap();
    assert_eq!(storage.get_tips(), &vec![digest(3), digest(2)]);
    assert_eq!(storage.get_top_height(), 1);
    assert_eq!(chain.get_height(), 1);

    chain.add_new_block_at(&mut storage, &mut mempool, block(4, 2, 1002, vec![3], vec![]), 5000).unwrap();
    assert_eq!(storage.get_tips(), &vec![digest(2), digest(4)]);
    assert_eq!(storage.get_top_height(), 2);
    assert_eq!(chain.get_height(), 2);
    assert_eq!(chain.get_topo_height(), 2);

    assert_eq!(chain.rewind_chain_for_storage(&mut storage, &mut mempool, 1), Ok(1));
    assert_eq!(storage.get_tips(), &vec![digest(3), digest(2)]);
    assert_eq!(storage.get_top_height(), 1);
    assert_eq!(chain.get_height(), 1);
    assert_eq!(chain.get_topo_height(), 1);
    assert!(!storage.has_block(&digest(4)));
    assert!(storage.is_sound());
}

#[test]
fn tip_that_fell_behind_stays_in_the_tip_set() {
    let mut chain = coordinator();
    let mut storage = Storage::new();
    let mut mempool = Mempool::new();
    chain.add_new_block_at(&mut storage, &mut mempool, block(1, 0, 1000, vec![], vec![]), 5000).unwrap();
    chain.add_new_block_at(&mut storage, &mut mempool, block(3, 1, 1001, vec![1], vec![]), 5000).unwrap();
    chain.add_new_block_at(&mut storage, &mut mempool, block(2, 1, 1001, vec![1], vec![]), 5000).unwrap();
    let mut last = 3;
    for i in 0..12u64 {
        let n = 10 + i;
        chain
            .add_new_block_at(&mut storage, &mut mempool, block(n, 2 + i, 1002 + i as u128, vec![last], vec![]), 5000)
            .unwrap();
        last = n;
    }
    assert_eq!(storage.get_tips(), &vec![digest(2), digest(21)]);
    assert_eq!(storage.get_top_height(), 13);

    // a template leaves out the tip that a block may no longer name
    let template = chain.build_block_template(&storage, &mempool, key(1), [0u8; 32], 5000).unwrap();
    assert_eq!(template.get_tips(), &vec![digest(21)]);
    assert_eq!(template.get_height(), 14);
    let named = block(50, 14, 5000, vec![21, 2], vec![]);
    assert_eq!(
        chain.add_new_block_at(&mut storage, &mut mempool, named, 5000),
        Err(BlockchainError::BlockDeviation)
    );
    let mined = CompleteBlock::new(digest(51), template, vec![]);
    assert!(chain.add_new_block_at(&mut storage, &mut mempool, mined, 5000).is_ok());
    assert_eq!(storage.get_tips(), &vec![digest(2), digest(51)]);
}
