use std::sync::Arc;

use blockdag::block::{Block, CompleteBlock};
use blockdag::blockchain::{Blockchain, Config, Network};
use blockdag::config::{MINIMUM_DIFFICULTY, TIPS_LIMIT};
use blockdag::error::BlockchainError;
use blockdag::events::{BlockType, ChainEvent};
use blockdag::hash;
use blockdag::hash::PublicKey;
use blockdag::mempool::Mempool;
use blockdag::storage::Storage;
use blockdag::template::MiningStep;
use blockdag::transaction::{Transaction, TransactionType, Transfer};
use blockdag::tx_verify::{verify_structure, xelis_asset, ExpectedNonce};

fn digest(n: u64) -> hash::Hash {
    hash::Hash { w0: 0, w1: 0, w2: 0, w3: n }
}

fn key(n: u64) -> PublicKey {
    PublicKey { id: hash::Hash { w0: 1, w1: 0, w2: 0, w3: n } }
}

fn coordinator() -> Blockchain {
    Blockchain {
        height: 0,
        topoheight: 0,
        stable_height: 0,
        difficulty: MINIMUM_DIFFICULTY,
        simulator: false,
        network: Network::Mainnet,
        dev_key: key(1000),
    }
}

fn block(n: u64, height: u64, tips: Vec<u64>, txs: Vec<Arc<Transaction>>) -> CompleteBlock {
    let hashes = txs.iter().map(|tx| tx.hash).collect();
    let tips = tips.into_iter().map(digest).collect();
    CompleteBlock::new(digest(n), Block::new(height, 1000 + height as u128, tips, [0u8; 32], key(1), hashes), txs)
}

fn transfer(n: u64, from: PublicKey, to: PublicKey, amount: u64, nonce: u64, fee: u64) -> Arc<Transaction> {
    let outputs = vec![Transfer { amount, asset: xelis_asset(), to, extra_data: None }];
    Arc::new(Transaction::new(digest(n), 100, from, nonce, fee, TransactionType::Transfer(outputs)))
}

// Genesis and two blocks, all mined by the first key, which then holds two rewards.
fn funded() -> (Blockchain, Storage, Mempool) {
    let mut chain = coordinator();
    let mut storage = Storage::new();
    let mut mempool = Mempool::new();
    chain.add_new_block_at(&mut storage, &mut mempool, block(1, 0, vec![], vec![]), 5000).unwrap();
    chain.add_new_block_at(&mut storage, &mut mempool, block(2, 1, vec![1], vec![]), 5000).unwrap();
    chain.add_new_block_at(&mut storage, &mut mempool, block(3, 2, vec![2], vec![]), 5000).unwrap();
    (chain, storage, mempool)
}

#[test]
fn pool_takes_transactions_in_the_order_of_their_nonces() {
    let (chain, storage, mut mempool) = funded();
    let first = transfer(100, key(1), key(2), 10, 0, 1000);
    assert_eq!(
        chain.add_tx_for_mempool(&storage, &mut mempool, first.clone()),
        Ok(ChainEvent::TransactionAddedInMempool { tx_hash: digest(100) })
    );
    assert_eq!(
        chain.add_tx_for_mempool(&storage, &mut mempool, first),
        Err(BlockchainError::TxAlreadyInMempool(digest(100)))
    );
    assert_eq!(
        chain.add_tx_for_mempool(&storage, &mut mempool, transfer(101, key(1), key(2), 10, 0, 1000)),
        Err(BlockchainError::InvalidTxNonce)
    );
    assert_eq!(
        chain.add_tx_for_mempool(&storage, &mut mempool, transfer(102, key(1), key(2), 10, 2, 1000)),
        Err(BlockchainError::InvalidTxNonce)
    );
    assert!(chain.add_tx_for_mempool(&storage, &mut mempool, transfer(103, key(1), key(2), 10, 1, 1000)).is_ok());
    assert_eq!(mempool.size(), 2);
    assert!(mempool.contains_tx(&digest(103)));
    assert_eq!(mempool.get_tx(&digest(103)).unwrap().nonce, 1);
    assert_eq!(mempool.view_tx(&digest(100)).unwrap().nonce, 0);
    assert_eq!(mempool.get_tx(&digest(7)).err(), Some(BlockchainError::TxNotFound(digest(7))));
    assert_eq!(mempool.remove_tx(&digest(7)).err(), Some(BlockchainError::TxNotFound(digest(7))));
}

#[test]
fn transactions_are_refused_for_what_they_are() {
    let (chain, storage, mut mempool) = funded();
    let refused = |tx: Transaction| {
        let mut pool = Mempool::new();
        chain.add_tx_for_mempool(&storage, &mut pool, Arc::new(tx)).err()
    };
    let output = |to: PublicKey, amount: u64, extra: Option<Vec<u8>>| Transfer {
        amount,
        asset: xelis_asset(),
        to,
        extra_data: extra,
    };
    assert_eq!(
        refused(Transaction::new(digest(100), 1025, key(1), 0, 1999, TransactionType::Burn(xelis_asset(), 1))),
        Some(BlockchainError::InvalidTxFee(2000, 1999))
    );
    assert_eq!(
        refused(Transaction::new(digest(100), 100, key(1), 0, 1000, TransactionType::Transfer(vec![]))),
        Some(BlockchainError::TxEmpty(digest(100)))
    );
    assert_eq!(
        refused(Transaction::new(
            digest(100),
            100,
            key(1),
            0,
            1000,
            TransactionType::Transfer(vec![output(key(2), 1, None), output(key(1), 1, None)])
        )),
        Some(BlockchainError::InvalidTransactionToSender(digest(100)))
    );
    assert_eq!(
        refused(Transaction::new(
            digest(100),
            100,
            key(1),
            0,
            1000,
            TransactionType::Transfer(vec![output(key(2), 1, Some(vec![0; 1000])), output(key(3), 1, Some(vec![0; 25]))])
        )),
        Some(BlockchainError::InvalidTransactionExtraDataTooBig(1024, 1025))
    );
    assert_eq!(
        refused(Transaction::new(
            digest(100),
            100,
            key(1),
            0,
            1000,
            TransactionType::Transfer(vec![output(key(2), 1, Some(vec![0; 1000])), output(key(3), 1, Some(vec![0; 24]))])
        )),
        None
    );
    assert_eq!(
        refused(Transaction::new(digest(100), 100, key(1), 0, 1000, TransactionType::SmartContract)),
        Some(BlockchainError::SmartContractTodo)
    );
    assert_eq!(
        refused(Transaction::new(
            digest(100),
            100,
            key(1),
            0,
            1000,
            TransactionType::Transfer(vec![output(key(2), u64::MAX, None), output(key(3), 1, None)])
        )),
        Some(BlockchainError::Overflow)
    );
    let held = storage.get_last_balance(&key(1), &xelis_asset()).unwrap().1;
    assert_eq!(
        refused(Transaction::new(digest(100), 100, key(1), 0, 1000, TransactionType::Burn(xelis_asset(), held))),
        Some(BlockchainError::NotEnoughFunds(key(1), xelis_asset(), held + 1000, held))
    );
    assert_eq!(
        refused(Transaction::new(digest(100), 100, key(1), 0, 1000, TransactionType::Burn(xelis_asset(), held - 1000))),
        None
    );
    assert_eq!(
        refused(Transaction::new(digest(100), 100, key(1), 0, 1000, TransactionType::Burn(digest(77), 1))),
        Some(BlockchainError::AccountNotFound(key(1)))
    );
    assert_eq!(
        refused(Transaction::new(digest(100), 100, key(5), 0, 1000, TransactionType::Burn(xelis_asset(), 1))),
        Some(BlockchainError::AccountNotFound(key(5)))
    );
    assert!(verify_structure(&Transaction::new(digest(1), 0, key(1), 0, 0, TransactionType::Burn(xelis_asset(), 1))).is_ok());
    assert_eq!(mempool.size(), 0);
    assert!(chain.add_tx_for_mempool(&storage, &mut mempool, transfer(1, key(1), key(2), 1, 0, 1000)).is_ok());
}

#[test]
fn pool_is_sorted_by_fee_then_nonce_then_digest() {
    let mut mempool = Mempool::new();
    for (n, nonce, fee) in [(5u64, 3u64, 1000u64), (4, 1, 2000), (3, 0, 1000), (2, 1, 2000), (1, 0, 3000)] {
        mempool.add_tx(digest(n), transfer(n, key(n), key(50), 1, nonce, fee)).unwrap();
    }
    let sorted: Vec<u64> = mempool.get_sorted_txs().iter().map(|tx| tx.hash.w3).collect();
    assert_eq!(sorted, vec![1, 2, 4, 3, 5]);
    assert_eq!(mempool.get_txs().len(), 5);
    assert_eq!(mempool.remove_tx(&digest(4)).unwrap().hash, digest(4));
    mempool.remove_txs(&vec![digest(1), digest(9), digest(5)]);
    let left: Vec<u64> = mempool.get_txs().iter().map(|tx| tx.hash.w3).collect();
    assert_eq!(left, vec![3, 2]);
}

#[test]
fn template_names_the_heaviest_tips_and_the_transactions_that_fit() {
    let (chain, storage, mut mempool) = funded();
    chain.add_tx_for_mempool(&storage, &mut mempool, transfer(100, key(1), key(2), 10, 0, 1000)).unwrap();
    chain.add_tx_for_mempool(&storage, &mut mempool, transfer(101, key(1), key(2), 10, 1, 5000)).unwrap();
    let template = chain.build_block_template(&storage, &mempool, key(9), [7u8; 32], 4242).unwrap();
    assert_eq!(template.get_height(), 3);
    assert_eq!(template.get_timestamp(), 4242);
    assert_eq!(template.get_tips(), &vec![digest(3)]);
    assert_eq!(template.get_miner(), &key(9));
    assert_eq!(template.extra_nonce, [7u8; 32]);
    // The transaction with the greater fee comes first in the pool order but
    // its nonce is not due yet, so only the one with the due nonce is named.
    assert_eq!(template.get_txs_hashes(), &vec![digest(100)]);
    assert_eq!(template.get_txs_count(), 1);
    let complete = chain.build_complete_block_from_block(&mempool, template, digest(50)).unwrap();
    assert_eq!(complete.get_hash(), digest(50));
    assert_eq!(complete.get_transactions().len(), 1);
    assert_eq!(complete.get_transactions()[0].hash, digest(100));
    let from_clock = chain.get_block_template_for_storage(&storage, &mempool, key(9)).unwrap();
    assert_eq!(from_clock.get_tips(), &vec![digest(3)]);
    assert!(from_clock.get_timestamp() > 1_600_000_000_000);
    let missing = Block::new(3, 0, vec![digest(3)], [0u8; 32], key(9), vec![digest(100), digest(77)]);
    assert_eq!(
        chain.build_complete_block_from_block(&mempool, missing, digest(51)).err(),
        Some(BlockchainError::TxNotFound(digest(77)))
    );
    let empty = Storage::new();
    assert_eq!(
        chain.build_block_template(&empty, &mempool, key(9), [0u8; 32], 1).err(),
        Some(BlockchainError::ExpectedTips)
    );
    assert!(TIPS_LIMIT >= template_tips_len(&chain, &storage, &mempool));
}

fn template_tips_len(chain: &Blockchain, storage: &Storage, mempool: &Mempool) -> usize {
    chain.build_block_template(storage, mempool, key(9), [0u8; 32], 1).unwrap().get_tips().len()
}

#[test]
fn template_is_admitted_once_it_is_complete() {
    let (mut chain, mut storage, mut mempool) = funded();
    chain.add_tx_for_mempool(&storage, &mut mempool, transfer(100, key(1), key(2), 10, 0, 1000)).unwrap();
    let template = chain.build_block_template(&storage, &mempool, key(1), [0u8; 32], 4000).unwrap();
    assert_eq!(chain.mining_step(&digest(50), MINIMUM_DIFFICULTY, 2), MiningStep::Found);
    let far = hash::Hash { w0: u64::MAX, w1: 0, w2: 0, w3: 0 };
    assert_eq!(chain.mining_step(&far, MINIMUM_DIFFICULTY, 2), MiningStep::NextNonce);
    assert_eq!(chain.mining_step(&far, MINIMUM_DIFFICULTY, 1), MiningStep::NewTemplate);
    let complete = chain.build_complete_block_from_block(&mempool, template, digest(50)).unwrap();
    let events = chain.add_new_block_at(&mut storage, &mut mempool, complete, 5000).unwrap();
    assert_eq!(
        events,
        vec![
            ChainEvent::TransactionExecuted { tx_hash: digest(100), block_hash: digest(50), topoheight: 3 },
            ChainEvent::BlockOrdered { hash: digest(50), topoheight: 3, block_type: BlockType::Normal },
            ChainEvent::NewBlock { hash: digest(50) },
        ]
    );
    assert_eq!(mempool.size(), 0);
    assert_eq!(storage.get_last_balance(&key(2), &xelis_asset()).unwrap().1, 10);
    assert_eq!(chain.get_block_type_for_block(&storage, &digest(1)), BlockType::Sync);
    assert_eq!(chain.get_block_type_for_block(&storage, &digest(99)), BlockType::Orphaned);
}

#[test]
fn pool_drops_what_the_chain_has_used_up() {
    let (chain, storage, mut mempool) = funded();
    chain.add_tx_for_mempool(&storage, &mut mempool, transfer(100, key(1), key(2), 10, 0, 1000)).unwrap();
    chain.add_tx_for_mempool(&storage, &mut mempool, transfer(101, key(1), key(2), 10, 1, 1000)).unwrap();
    mempool.add_tx(digest(102), transfer(102, key(5), key(2), 10, 0, 1000)).unwrap();
    mempool.clean_up(&storage, &vec![ExpectedNonce { key: key(1), nonce: 1 }]);
    // The first is used up; the second no longer follows the committed nonce;
    // the transaction of the account that did not move stays.
    let left: Vec<u64> = mempool.get_txs().iter().map(|tx| tx.hash.w3).collect();
    assert_eq!(left, vec![102]);
}

#[test]
fn node_starts_on_a_store() {
    let config = |simulator: bool| Config {
        tag: None,
        p2p_bind_address: String::from("0.0.0.0:2125"),
        max_peers: 32,
        rpc_bind_address: String::from("0.0.0.0:8080"),
        priority_nodes: vec![],
        dir_path: None,
        cache_size: 1024,
        disable_getwork_server: false,
        simulator,
        disable_p2p_server: false,
    };
    let (chain, storage, _) = funded();
    assert_eq!(
        Blockchain::new(&config(true), Network::Mainnet, key(1000), &storage).err(),
        Some(BlockchainError::InvalidNetwork)
    );
    let started = Blockchain::new(&config(true), Network::Dev, key(1000), &storage).unwrap();
    assert!(started.simulator);
    assert_eq!(started.get_height(), chain.get_height());
    assert_eq!(started.get_topo_height(), chain.get_topo_height());
    assert_eq!(started.get_stable_height(), chain.get_stable_height());
    assert_eq!(started.get_difficulty(), chain.get_difficulty());
    assert_eq!(started.get_network(), &Network::Dev);
    let fresh = Blockchain::new(&config(false), Network::Testnet, key(1000), &Storage::new()).unwrap();
    assert_eq!(fresh.get_height(), 0);
    assert_eq!(fresh.get_difficulty(), MINIMUM_DIFFICULTY);
}

#[test]
fn genesis_must_come_from_the_development_key() {
    let mut chain = coordinator();
    let mut storage = Storage::new();
    let mut mempool = Mempool::new();
    let genesis = |miner: PublicKey| {
        CompleteBlock::new(
            hash::Hash { w0: u64::MAX, w1: 0, w2: 0, w3: 1 },
            Block::new(0, 1000, vec![], [0u8; 32], miner, vec![]),
            vec![],
        )
    };
    assert_eq!(
        chain.create_genesis_block(&mut storage, &mut mempool, genesis(key(1)), None, 1000),
        Err(BlockchainError::GenesisBlockMiner)
    );
    assert_eq!(
        chain.create_genesis_block(&mut storage, &mut mempool, genesis(key(1000)), Some(digest(1)), 1000),
        Err(BlockchainError::InvalidGenesisHash)
    );
    // The genesis block is not asked for proof of work, other blocks are.
    assert!(chain.create_genesis_block(&mut storage, &mut mempool, genesis(key(1000)), None, 1000).is_ok());
    assert!(!chain.simulator);
    assert!(storage.has_asset(&xelis_asset()));
    assert_eq!(storage.get_assets(), &vec![xelis_asset()]);
    assert_eq!(storage.get_top_topoheight(), 0);
    assert!(storage.has_blocks());
}

#[test]
fn rewind_never_takes_the_first_block() {
    let (mut chain, mut storage, mut mempool) = funded();
    assert_eq!(chain.rewind_chain_for_storage(&mut storage, &mut mempool, 0), Ok(2));
    assert_eq!(chain.rewind_chain_for_storage(&mut storage, &mut mempool, 100), Ok(0));
    assert_eq!(storage.get_tips(), &vec![digest(1)]);
    assert_eq!(storage.get_top_height(), 0);
    assert!(!storage.has_block(&digest(2)));
    assert_eq!(chain.rewind_chain_for_storage(&mut storage, &mut mempool, 1), Ok(0));
    assert!(chain.add_new_block_at(&mut storage, &mut mempool, block(2, 1, vec![1], vec![]), 5000).is_ok());
}

#[test]
fn rewound_transactions_are_told_with_their_accounts() {
    let chain = coordinator();
    let mut keys = vec![];
    let mut nonces = vec![];
    let reserved = Transaction::new(digest(1), 0, key(1), 4, 0, TransactionType::SmartContract);
    assert_eq!(chain.rewind_transaction(&reserved, &mut keys, &mut nonces), Err(BlockchainError::SmartContractTodo));
    assert!(keys.is_empty());
    chain.rewind_transaction(&transfer(2, key(1), key(2), 1, 5, 0), &mut keys, &mut nonces).unwrap();
    chain.rewind_transaction(&transfer(3, key(1), key(3), 1, 4, 0), &mut keys, &mut nonces).unwrap();
    chain.rewind_transaction(&transfer(4, key(2), key(1), 1, 9, 0), &mut keys, &mut nonces).unwrap();
    assert_eq!(keys, vec![key(1), key(2), key(3)]);
    assert_eq!(nonces, vec![ExpectedNonce { key: key(1), nonce: 4 }, ExpectedNonce { key: key(2), nonce: 9 }]);
}
