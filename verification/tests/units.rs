use std::sync::Arc;

use blockdag::account::{VersionedBalance, VersionedNonce};
use blockdag::address::{ip_from_bytes, ip_to_bytes, IpAddress, PacketPeerDisconnected, SocketAddress};
use blockdag::block::{Block, CompleteBlock};
use blockdag::blockchain::{get_block_reward, get_side_block_reward, Blockchain, Network};
use blockdag::blockdag::{
    calculate_height_at_tips, find_best_tip_by_cumulative_difficulty,
    sort_descending_by_cumulative_difficulty, sort_tips,
};
use blockdag::chain_state::{ChainState, Echange, Role};
use blockdag::chain_sync::ChainSync;
use blockdag::config::{FEE_PER_KB, MAX_SUPPLY, MINIMUM_DIFFICULTY};
use blockdag::difficulty::{calculate_difficulty, check_difficulty};
use blockdag::error::BlockchainError;
use blockdag::globals::{calculate_tx_fee, get_current_time, get_current_timestamp};
use blockdag::hash;
use blockdag::hash::PublicKey;
use blockdag::immutable::Immutable;
use blockdag::serializer::{Reader, ReaderError, Writer};
use blockdag::storage::{Ledger, NonceEntry, Storage, StoredBlock};
use blockdag::wallet::{
    check_fee, check_transfer, plan_rescan, AssetWithData, BalanceChanged, Event, NotifyEvent,
    RescanPlan, TransactionEntry, WalletError,
};
use blockdag::websocket::{route_response, websocket_target, Route};

fn digest(n: u64) -> hash::Hash {
    hash::Hash { w0: 0, w1: 0, w2: 0, w3: n }
}

fn key(n: u64) -> PublicKey {
    PublicKey { id: hash::Hash { w0: 1, w1: 0, w2: 0, w3: n } }
}

fn stored(n: u64, height: u64, tips: Vec<u64>, difficulty: u64, cumulative: u64) -> StoredBlock {
    StoredBlock {
        hash: digest(n),
        block: Block::new(height, 1000 + height as u128, tips.into_iter().map(digest).collect(), [0u8; 32], key(1), vec![]),
        txs: vec![],
        difficulty,
        cumulative_difficulty: cumulative,
    }
}

#[test]
fn difficulty_follows_the_intervals_that_went_by() {
    let previous = 2_048_000;
    assert_eq!(calculate_difficulty(1, 0, 5_000, previous), 2_049_000);
    assert_eq!(calculate_difficulty(1, 0, 9_999, previous), 2_049_000);
    assert_eq!(calculate_difficulty(1, 0, 10_000, previous), 2_048_000);
    assert_eq!(calculate_difficulty(1, 0, 30_000, previous), 2_046_000);
    assert_eq!(calculate_difficulty(3, 0, 10_000, previous), 2_050_000);
    assert_eq!(calculate_difficulty(3, 1_000, 31_000, previous), 2_048_000);
}

#[test]
fn difficulty_moves_by_ninety_nine_steps_at_most() {
    assert_eq!(calculate_difficulty(1, 0, 1_000_000, 2_048_000), 2_048_000 - 99_000);
    assert_eq!(calculate_difficulty(1, 0, 10_000_000, 2_048_000), 2_048_000 - 99_000);
    assert_eq!(calculate_difficulty(200, 0, 0, 2_048_000), 2_048_000 + 99_000);
}

#[test]
fn difficulty_stays_in_its_range() {
    assert_eq!(calculate_difficulty(1, 0, 1_000_000, MINIMUM_DIFFICULTY), MINIMUM_DIFFICULTY);
    assert_eq!(calculate_difficulty(1, 0, 0, 1), MINIMUM_DIFFICULTY);
    assert_eq!(calculate_difficulty(99, 0, 0, u64::MAX), u64::MAX);
    // A parent that is later than the block counts as no time gone by.
    assert_eq!(calculate_difficulty(1, 9_000, 1_000, 2_048_000), 2_049_000);
}

#[test]
fn proof_of_work_holds_up_to_the_greatest_number_of_256_bits() {
    let one_word = hash::Hash { w0: 1, w1: 0, w2: 0, w3: 0 };
    assert!(check_difficulty(&one_word, u64::MAX));
    let under_two = hash::Hash { w0: 1, w1: u64::MAX, w2: u64::MAX, w3: u64::MAX };
    assert!(check_difficulty(&under_two, 1 << 63));
    let two_words = hash::Hash { w0: 2, w1: 0, w2: 0, w3: 0 };
    assert!(!check_difficulty(&two_words, 1 << 63));
    assert!(check_difficulty(&two_words, (1 << 63) - 1));
    let greatest = hash::Hash { w0: u64::MAX, w1: u64::MAX, w2: u64::MAX, w3: u64::MAX };
    assert!(check_difficulty(&greatest, 1));
    assert!(!check_difficulty(&greatest, 2));
    assert!(check_difficulty(&greatest, 0));
    assert!(check_difficulty(&digest(7), u64::MAX));
}

#[test]
fn fee_is_owed_for_each_started_kilobyte() {
    assert_eq!(calculate_tx_fee(0), 0);
    assert_eq!(calculate_tx_fee(1), FEE_PER_KB);
    assert_eq!(calculate_tx_fee(1024), FEE_PER_KB);
    assert_eq!(calculate_tx_fee(1025), 2 * FEE_PER_KB);
    assert_eq!(calculate_tx_fee(10 * 1024), 10 * FEE_PER_KB);
}

#[test]
fn reward_is_what_is_left_to_emit_shifted() {
    assert_eq!(get_block_reward(0), MAX_SUPPLY >> 21);
    assert_eq!(get_block_reward(0), 877_380);
    assert_eq!(get_block_reward(MAX_SUPPLY), 0);
    assert_eq!(get_block_reward(MAX_SUPPLY + 5), 0);
    assert_eq!(get_block_reward(MAX_SUPPLY - (1 << 21)), 1);
    assert_eq!(get_side_block_reward(0), 877_380 * 30 / 100);
    assert_eq!(get_side_block_reward(0), 263_214);
}

#[test]
fn clock_reads_a_time_after_the_epoch() {
    let seconds = get_current_time();
    let millis = get_current_timestamp();
    assert!(seconds > 1_600_000_000);
    assert!(millis / 1000 >= seconds as u128);
}

#[test]
fn digest_is_built_from_its_bytes_and_gives_them_back() {
    let mut bytes = [0u8; 32];
    for (i, b) in bytes.iter_mut().enumerate() {
        *b = (i * 7 + 3) as u8;
    }
    let h = hash::Hash::new(bytes);
    assert_eq!(h.to_bytes(), bytes);
    assert_eq!(h.w0, u64::from_be_bytes([3, 10, 17, 24, 31, 38, 45, 52]));
    let mut one = [0u8; 32];
    one[31] = 1;
    assert_eq!(hash::Hash::new(one), digest(1));
    assert_eq!(hash::Hash::zero().to_bytes(), [0u8; 32]);
    assert_eq!(PublicKey::new(bytes).to_bytes(), bytes);
}

#[test]
fn digests_are_ordered_by_their_bytes() {
    let low = hash::Hash { w0: 0, w1: u64::MAX, w2: u64::MAX, w3: u64::MAX };
    let high = hash::Hash { w0: 1, w1: 0, w2: 0, w3: 0 };
    assert!(low.lt(&high));
    assert!(!high.lt(&low));
    assert!(!low.lt(&low));
    assert!(digest(1).lt(&digest(2)));
    assert_eq!(low.to_bytes() < high.to_bytes(), low.lt(&high));
}

#[test]
fn scores_are_sorted_by_score_and_then_by_digest() {
    let mut scores = vec![(digest(1), 10), (digest(5), 30), (digest(2), 30), (digest(9), 5), (digest(7), 30)];
    sort_descending_by_cumulative_difficulty(&mut scores);
    assert_eq!(scores, vec![(digest(7), 30), (digest(5), 30), (digest(2), 30), (digest(1), 10), (digest(9), 5)]);
    let mut empty: Vec<(hash::Hash, u64)> = vec![];
    sort_descending_by_cumulative_difficulty(&mut empty);
    assert!(empty.is_empty());
}

fn arena() -> Storage {
    let mut storage = Storage::new();
    storage.blocks.push(stored(1, 0, vec![], 1000, 1000));
    storage.blocks.push(stored(2, 1, vec![1], 1000, 2000));
    storage.blocks.push(stored(3, 1, vec![1], 910, 1910));
    storage.blocks.push(stored(4, 1, vec![1], 911, 1911));
    storage.blocks.push(stored(5, 2, vec![2], 1000, 3000));
    storage
}

#[test]
fn height_at_tips_is_one_above_the_highest_tip() {
    let storage = arena();
    assert_eq!(calculate_height_at_tips(&storage, &vec![]), Ok(0));
    assert_eq!(calculate_height_at_tips(&storage, &vec![digest(1)]), Ok(1));
    assert_eq!(calculate_height_at_tips(&storage, &vec![digest(3), digest(5)]), Ok(3));
    assert_eq!(
        calculate_height_at_tips(&storage, &vec![digest(3), digest(8), digest(9)]),
        Err(BlockchainError::BlockNotFound(digest(8)))
    );
}

#[test]
fn best_tip_is_the_first_of_the_heaviest() {
    let storage = arena();
    assert_eq!(find_best_tip_by_cumulative_difficulty(&storage, &vec![]), Err(BlockchainError::ExpectedTips));
    assert_eq!(find_best_tip_by_cumulative_difficulty(&storage, &vec![digest(3)]), Ok(digest(3)));
    assert_eq!(
        find_best_tip_by_cumulative_difficulty(&storage, &vec![digest(3), digest(2), digest(4)]),
        Ok(digest(2))
    );
    assert_eq!(
        find_best_tip_by_cumulative_difficulty(&storage, &vec![digest(3), digest(77)]),
        Err(BlockchainError::BlockNotFound(digest(77)))
    );
    assert_eq!(sort_tips(&storage, &vec![digest(3), digest(5), digest(4)]), Ok(vec![digest(5), digest(4), digest(3)]));
    assert_eq!(sort_tips(&storage, &vec![]), Err(BlockchainError::ExpectedTips));
}

#[test]
fn immutable_gives_the_value_it_holds() {
    let owned = Immutable::Owned(5u64);
    let shared = Immutable::Arc(Arc::new(5u64));
    assert_eq!(*owned.get_inner(), 5);
    assert_eq!(*shared.get_inner(), 5);
    assert_eq!(*owned.to_arc(), 5);
}

#[test]
fn events_name_their_kind() {
    let entry = TransactionEntry { hash: digest(1), topoheight: 3 };
    assert_eq!(Event::NewTransaction(entry).kind(), NotifyEvent::NewTransaction);
    assert_eq!(Event::NewTopoHeight { topoheight: 1 }.kind(), NotifyEvent::NewTopoHeight);
    assert_eq!(Event::BalanceChanged(BalanceChanged { asset: digest(0), balance: 1 }).kind(), NotifyEvent::BalanceChanged);
    assert_eq!(Event::NewAsset(AssetWithData { asset: digest(0), decimals: 5 }).kind(), NotifyEvent::NewAsset);
    assert_eq!(Event::Rescan { start_topoheight: 0 }.kind(), NotifyEvent::Rescan);
    assert_eq!(Event::Online.kind(), NotifyEvent::Online);
    assert_eq!(Event::Offline.kind(), NotifyEvent::Offline);
}

#[test]
fn wallet_checks_funds_extra_data_and_fee() {
    assert_eq!(check_transfer(100, 100, 5, digest(0), None), Ok(()));
    assert_eq!(
        check_transfer(100, 101, 5, digest(0), None),
        Err(WalletError::NotEnoughFunds(100, 101, 5, digest(0)))
    );
    assert_eq!(check_transfer(100, 1, 5, digest(0), Some(1024)), Ok(()));
    assert_eq!(
        check_transfer(100, 1, 5, digest(0), Some(1025)),
        Err(WalletError::ExtraDataTooBig(1024, 1025))
    );
    assert_eq!(check_fee(1000, 400, 600), Ok(()));
    assert_eq!(check_fee(1000, 400, 601), Err(WalletError::NotEnoughFundsForFee(1000, 1001)));
    assert_eq!(check_fee(1000, u64::MAX, 1), Err(WalletError::NotEnoughFundsForFee(1000, u64::MAX)));
}

#[test]
fn wallet_plans_a_rescan() {
    assert_eq!(plan_rescan(false, 0, 10), Err(WalletError::NotOnlineMode));
    assert_eq!(plan_rescan(true, 11, 10), Err(WalletError::RescanTopoheightTooHigh));
    assert_eq!(plan_rescan(true, 0, 10), Ok(RescanPlan::DeleteAll));
    assert_eq!(plan_rescan(true, 10, 10), Ok(RescanPlan::DeleteAbove(10)));
}

#[test]
fn address_is_written_and_read_back() {
    let v4 = SocketAddress { ip: IpAddress::V4(127, 0, 0, 1), port: 2125 };
    assert_eq!(ip_to_bytes(&v4), vec![0, 127, 0, 0, 1, 8, 77]);
    let v6 = SocketAddress { ip: IpAddress::V6(0x2001, 0xdb8, 0, 0, 0, 0, 0, 1), port: 80 };
    let bytes = ip_to_bytes(&v6);
    assert_eq!(bytes.len(), 19);
    assert_eq!(&bytes[..5], &[1, 0x20, 0x01, 0x0d, 0xb8]);
    let mut reader = Reader::new(bytes);
    assert_eq!(ip_from_bytes(&mut reader), Ok(v6));
    assert_eq!(reader.size(), 0);
    let mut both = ip_to_bytes(&v4);
    both.extend(ip_to_bytes(&v6));
    let mut reader = Reader::new(both);
    assert_eq!(ip_from_bytes(&mut reader), Ok(v4));
    assert_eq!(PacketPeerDisconnected::read(&mut reader), Ok(PacketPeerDisconnected::new(v6)));
    assert_eq!(ip_from_bytes(&mut reader), Err(ReaderError::InvalidSize));
    let mut short = Reader::new(vec![0, 127, 0, 0, 1, 8]);
    assert_eq!(ip_from_bytes(&mut short), Err(ReaderError::InvalidSize));
    let mut writer = Writer::new();
    PacketPeerDisconnected::new(v4).write(&mut writer);
    assert_eq!(writer.bytes, vec![0, 127, 0, 0, 1, 8, 77]);
    assert_eq!(writer.total_write(), 7);
    assert_eq!(PacketPeerDisconnected::new(v4).get_addr(), &v4);
}

#[test]
fn client_connects_with_a_socket_scheme() {
    let target = |s: &str| String::from_utf8(websocket_target(&s.as_bytes().to_vec())).unwrap();
    assert_eq!(target("https://node.example:8080/ws"), "wss://node.example:8080/ws");
    assert_eq!(target("http://127.0.0.1:8080"), "ws://127.0.0.1:8080");
    assert_eq!(target("127.0.0.1:8080"), "ws://127.0.0.1:8080");
    assert_eq!(target("ws://a"), "ws://a");
    assert_eq!(target("wss://a"), "wss://a");
    assert_eq!(target(""), "ws://");
}

#[test]
fn answers_go_to_the_request_first() {
    assert_eq!(route_response(None, true, true, 3), Route::Nowhere);
    assert_eq!(route_response(Some(4), true, true, 3), Route::Request(4));
    assert_eq!(route_response(Some(4), false, true, 3), Route::Listeners(4));
    assert_eq!(route_response(Some(4), false, true, 0), Route::Nowhere);
    assert_eq!(route_response(Some(4), false, false, 3), Route::Nowhere);
}

#[test]
fn chain_sync_takes_blocks_after_their_tips() {
    let block = |n: u64, tips: Vec<u64>| {
        Arc::new(CompleteBlock::new(
            digest(n),
            Block::new(0, 0, tips.into_iter().map(digest).collect(), [0u8; 32], key(1), vec![]),
            vec![],
        ))
    };
    let mut sync = ChainSync::new();
    assert_eq!(sync.size(), 0);
    assert_eq!(sync.insert_block(block(2, vec![1]), 5), Err(BlockchainError::BlockNotFound(digest(1))));
    sync.insert_block_no_check(digest(1), block(1, vec![]), 5);
    assert_eq!(sync.insert_block(block(2, vec![1]), 5), Ok(()));
    assert_eq!(sync.insert_block(block(2, vec![1]), 5), Ok(()));
    assert_eq!(sync.size(), 2);
    let heavy = Arc::new(CompleteBlock::new(
        hash::Hash { w0: u64::MAX, w1: 0, w2: 0, w3: 3 },
        Block::new(0, 0, vec![digest(2)], [0u8; 32], key(1), vec![]),
        vec![],
    ));
    assert_eq!(sync.insert_block(heavy, 2), Err(BlockchainError::InvalidDifficulty));
    assert_eq!(sync.get_block(&digest(2)).unwrap().hash, digest(2));
    assert!(sync.get_block(&digest(9)).is_err());
    assert!(sync.block_exist(&digest(1)));
    assert_eq!(sync.size(), 2);
}

#[test]
fn staged_sender_spends_from_its_last_version() {
    let mut ledger = Ledger { balances: vec![], nonces: vec![] };
    let mut state = ChainState::new(4, 0);
    let native = hash::Hash::zero();
    assert_eq!(
        state.internal_get_account_balance(&ledger, &key(1), &native, Role::Sender),
        Err(BlockchainError::AccountNotFound(key(1)))
    );
    assert_eq!(
        state.internal_update_sender_echange(&key(1), &native, 5),
        Err(BlockchainError::NoTxSender(key(1)))
    );
    ledger.nonces.push(NonceEntry { key: key(1), topoheight: 1, nonce: 7 });
    assert_eq!(state.internal_get_account_nonce(&ledger, &key(1)), Ok(7));
    assert_eq!(state.credit(&ledger, &key(1), &native, 100), Ok(()));
    assert_eq!(state.debit(&ledger, &key(1), &native, 1), Err(BlockchainError::NotEnoughFunds(key(1), native, 1, 0)));
    assert_eq!(state.credit(&ledger, &key(2), &native, u64::MAX), Ok(()));
    assert_eq!(state.credit(&ledger, &key(2), &native, 1), Err(BlockchainError::Overflow));
    assert_eq!(state.internal_update_account_nonce(&ledger, &key(1), 8), Ok(()));
    assert_eq!(state.internal_get_account_nonce(&ledger, &key(1)), Ok(8));
    // A sender that received the asset but never spent it has no output to merge.
    assert_eq!(state.apply_changes(&mut ledger), Err(BlockchainError::NoSenderOutput));
    assert!(ledger.balances.is_empty());
}

#[test]
fn echange_counts_what_was_spent() {
    let mut echange = Echange::new(VersionedBalance::new(50, Some(3)));
    assert!(!echange.use_output);
    assert_eq!(echange.get_balance(), 50);
    *echange.get_mut_balance() = 40;
    assert_eq!(echange.get_balance(), 40);
    echange.set_balance(30);
    assert_eq!(echange.version, VersionedBalance { balance: 30, previous_topoheight: Some(3), output_balance: None });
    assert_eq!(echange.add_change(20), Ok(()));
    assert_eq!(echange.add_change(5), Ok(()));
    assert_eq!(echange.change, Some(25));
    assert_eq!(echange.add_change(u64::MAX), Err(BlockchainError::Overflow));
    assert_eq!(echange.change, Some(25));
    let mut with_output = Echange::new(VersionedBalance { balance: 9, previous_topoheight: None, output_balance: Some(4) });
    assert!(with_output.use_output);
    with_output.set_balance(2);
    assert_eq!(with_output.version.output_balance, Some(2));
    assert_eq!(with_output.version.balance, 9);
    let mut nonce = VersionedNonce::new(1, None);
    nonce.set_nonce(2);
    assert_eq!(nonce.get_nonce(), 2);
    assert_eq!(nonce.get_previous_topoheight(), None);
    assert_eq!(VersionedBalance::zero().get_balance(), 0);
}

fn coordinator() -> Blockchain {
    Blockchain {
        height: 0,
        topoheight: 0,
        stable_height: 0,
        difficulty: MINIMUM_DIFFICULTY,
        simulator: false,
        network: Network::Mainnet,
        dev_key: key(1000),
    }
}

#[test]
fn tip_must_exceed_ninety_one_percent_of_the_best() {
    let storage = arena();
    let chain = coordinator();
    // Ninety-one percent of 1000 is 910: a tip of 911 exceeds it, a tip of 910 does not.
    assert_eq!(chain.validate_tips(&storage, &digest(2), &digest(4)), Ok(true));
    assert_eq!(chain.validate_tips(&storage, &digest(2), &digest(3)), Ok(false));
    assert_eq!(chain.validate_tips(&storage, &digest(2), &digest(2)), Ok(true));
    assert_eq!(
        chain.validate_tips(&storage, &digest(2), &digest(9)),
        Err(BlockchainError::BlockNotFound(digest(9)))
    );
    let on = |n: u64, tips: Vec<u64>| {
        CompleteBlock::new(
            digest(n),
            Block::new(2, 2000, tips.into_iter().map(digest).collect(), [0u8; 32], key(1), vec![]),
            vec![],
        )
    };
    assert_eq!(chain.check_block(&storage, &on(20, vec![2, 4]), 5000), Ok(MINIMUM_DIFFICULTY));
    assert_eq!(chain.check_block(&storage, &on(20, vec![2, 3]), 5000), Err(BlockchainError::InvalidTips));
}

#[test]
fn work_behind_a_tip_counts_each_block_once() {
    let mut storage = arena();
    storage.order.push(blockdag::storage::TopoEntry { hash: digest(1), reward: 0, supply: 0 });
    storage.blocks.push(stored(6, 3, vec![5, 3], 1000, 0));
    let chain = coordinator();
    // Blocks 6, 5, 2 and 3 at their difficulties, and the base at its cumulative difficulty.
    assert_eq!(chain.find_tip_work_score(&storage, &digest(6), &digest(1), 0), Ok(1000 + 1000 + 1000 + 910 + 1000));
    assert_eq!(chain.find_tip_work_score(&storage, &digest(1), &digest(1), 0), Ok(1000));
    assert_eq!(
        chain.find_tip_work_score(&storage, &digest(6), &digest(2), 0),
        Err(BlockchainError::BlockNotOrdered(digest(2)))
    );
    assert_eq!(
        chain.find_tip_work_score(&storage, &digest(9), &digest(1), 0),
        Err(BlockchainError::BlockNotFound(digest(9)))
    );
    assert_eq!(chain.find_best_tip(&storage, &vec![digest(4), digest(6), digest(3)], &digest(1), 0), Ok(digest(6)));
    assert_eq!(chain.find_best_tip(&storage, &vec![], &digest(1), 0), Err(BlockchainError::ExpectedTips));
    assert_eq!(
        chain.generate_full_order(&storage, &digest(6), &digest(1), 0),
        Ok(vec![digest(1), digest(2), digest(5), digest(3), digest(6)])
    );
    assert_eq!(chain.find_tip_base(&storage, &digest(6), 3), Ok((digest(1), 0)));
    assert_eq!(chain.find_common_base(&storage, &vec![digest(6), digest(4)]), Ok((digest(1), 0)));
    assert_eq!(chain.is_block_sync(&storage, &digest(1)), Ok(true));
    assert_eq!(chain.is_block_sync_at_height(&storage, &digest(2), 20), Ok(false));
    assert_eq!(chain.has_block_stable_order(&storage, &digest(1), 8), Ok(true));
    assert_eq!(chain.has_block_stable_order(&storage, &digest(1), 7), Ok(false));
    assert_eq!(chain.has_block_stable_order(&storage, &digest(2), 100), Ok(false));
    assert_eq!(chain.verify_non_reachability(&storage, &Block::new(4, 0, vec![digest(6), digest(4)], [0u8; 32], key(1), vec![])), Ok(true));
    assert_eq!(chain.verify_non_reachability(&storage, &Block::new(4, 0, vec![digest(6), digest(2)], [0u8; 32], key(1), vec![])), Ok(false));
    assert_eq!(chain.calculate_distance_from_mainchain(&storage, &digest(6)), Ok(0));
    assert_eq!(storage.get_nonce_at_maximum_topoheight(&key(1), 5), None);
}
