//! The coordinator: the cached heights and difficulty of the chain, and the
//! operations that admit blocks, order them and rewind them.

use vstd::prelude::*;
use crate::config::{EMISSION_SPEED_FACTOR, MAX_SUPPLY, SIDE_BLOCK_REWARD_PERCENT};
use crate::hash::PublicKey;

verus! {

/// The reward of a block that follows a supply of `supply`: what is left to
/// emit, shifted right by the emission speed factor.
pub open spec fn emission(supply: u64) -> u64 {
    if supply >= MAX_SUPPLY {
        0
    } else {
        ((MAX_SUPPLY - supply) / 2097152) as u64
    }
}

/// The reward of a side block that follows a supply of `supply`.
pub open spec fn side_emission(supply: u64) -> u64 {
    (emission(supply) as int * (SIDE_BLOCK_REWARD_PERCENT as int) / 100) as u64
}

/// The reward of a block that follows a supply of `supply`. Nothing is left
/// to emit once the supply has reached its maximum.
pub fn get_block_reward(supply: u64) -> (reward: u64)
    ensures
        reward == emission(supply),
        supply <= MAX_SUPPLY ==> supply + reward <= MAX_SUPPLY,
{
    if supply >= MAX_SUPPLY {
        return 0;
    }
    let left: u64 = MAX_SUPPLY - supply;
    assert(left >> 21 == left / 2097152) by (bit_vector);
    left >> EMISSION_SPEED_FACTOR
}

/// The reward of a side block that follows a supply of `supply`.
pub fn get_side_block_reward(supply: u64) -> (reward: u64)
    ensures
        reward == side_emission(supply),
        reward <= emission(supply),
{
    let reward = get_block_reward(supply);
    reward * SIDE_BLOCK_REWARD_PERCENT / 100
}

/// The settings of a node.
pub struct Config {
    /// Optional tag of the node.
    pub tag: Option<String>,
    /// Address on which peers are listened for.
    pub p2p_bind_address: String,
    /// Largest number of peers.
    pub max_peers: usize,
    /// Address on which requests are listened for.
    pub rpc_bind_address: String,
    /// Peers to connect to first.
    pub priority_nodes: Vec<String>,
    /// Directory of the store.
    pub dir_path: Option<String>,
    /// Size of the cache of the store; zero turns it off.
    pub cache_size: usize,
    /// Whether the work server for miners is off.
    pub disable_getwork_server: bool,
    /// Whether blocks are made without proof of work.
    pub simulator: bool,
    /// Whether no peer is connected to.
    pub disable_p2p_server: bool,
}

/// The network a node runs on.
#[derive(Clone, Copy, Debug, PartialEq, Eq, Structural)]
pub enum Network {
    Mainnet,
    Testnet,
    Dev,
}

/// The coordinator of the chain. It caches the height, the topoheight, the
/// stable height and the difficulty at the tips of the store it works on.
pub struct Blockchain {
    pub height: u64,
    pub topoheight: u64,
    pub stable_height: u64,
    pub difficulty: u64,
    pub simulator: bool,
    pub network: Network,
    /// The key that earns the development share of every block reward.
    pub dev_key: PublicKey,
}

impl Blockchain {
    /// The greatest height of the chain.
    pub fn get_height(&self) -> (height: u64)
        ensures
            height == self.height,
    {
        self.height
    }

    /// The greatest topoheight of the chain.
    pub fn get_topo_height(&self) -> (topoheight: u64)
        ensures
            topoheight == self.topoheight,
    {
        self.topoheight
    }

    /// The height under which no block can be re-ordered.
    pub fn get_stable_height(&self) -> (height: u64)
        ensures
            height == self.stable_height,
    {
        self.stable_height
    }

    /// The difficulty a block on the current tips must meet.
    pub fn get_difficulty(&self) -> (difficulty: u64)
        ensures
            difficulty == self.difficulty,
    {
        self.difficulty
    }

    /// The network of the chain.
    pub fn get_network(&self) -> (network: &Network)
        ensures
            *network == self.network,
    {
        &self.network
    }
}

} // verus!
