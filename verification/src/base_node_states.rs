//! The states and events of the base node's node-selection state machine, as
//! far as this wallet consumes them.

use vstd::prelude::*;

use crate::consensus::ChainMetadata;

verus! {

/// A peer on the network.
#[derive(Clone, Copy, Debug, PartialEq, Eq, Structural)]
pub struct NodeId {
    pub id: u64,
}

/// How block synchronisation fetches missing blocks.
#[derive(Clone, Copy, Debug, PartialEq, Eq, Structural)]
pub enum BlockSyncStrategy {
    ViaBestChainMetadata,
    ViaRandomPeer,
}

/// The states the base node moves through.
#[derive(Clone, Debug)]
pub enum BaseNodeState {
    Starting,
    BlockSync(BlockSyncStrategy, ChainMetadata, Vec<NodeId>),
    Listening,
    Waiting,
    Shutdown,
}

/// How far behind the network's chain the local node is.
#[derive(Clone, Debug)]
pub enum SyncStatus {
    /// Behind the chain tip: the best metadata seen and the peers that hold it.
    Lagging(ChainMetadata, Vec<NodeId>),
    UpToDate,
}

/// Events that drive transitions between base node states.
#[derive(Clone, Debug)]
pub enum StateEvent {
    Initialized,
    MetadataSynced(SyncStatus),
    BlocksSynchronized,
    BlockSyncFailure,
    FallenBehind(SyncStatus),
    NetworkSilence,
    FatalError(String),
    Continue,
    UserQuit,
}

impl BaseNodeState {
    /// A short label for the state.
    pub fn description(&self) -> (r: &'static str)
        ensures
            r@ == (match self {
                BaseNodeState::Starting => "Initializing"@,
                BaseNodeState::BlockSync(_, _, _) => "Synchronizing blocks"@,
                BaseNodeState::Listening => "Listening"@,
                BaseNodeState::Shutdown => "Shutting down"@,
                BaseNodeState::Waiting => "Waiting"@,
            }),
    {
        match self {
            BaseNodeState::Starting => "Initializing",
            BaseNodeState::BlockSync(_, _, _) => "Synchronizing blocks",
            BaseNodeState::Listening => "Listening",
            BaseNodeState::Shutdown => "Shutting down",
            BaseNodeState::Waiting => "Waiting",
        }
    }
}

} // verus!
