use output_manager::base_node_states::BaseNodeState;
use output_manager::consensus::Block;
use output_manager::consensus::BlockHeader;
use output_manager::consensus::ConsensusManagerBuilder;
use output_manager::consensus::EmissionSchedule;
use output_manager::consensus::MemoryBlockchainBackend;
use output_manager::consensus::Network;
use output_manager::consensus::PowAlgorithm;
use output_manager::consensus::get_median_timestamp;
use output_manager::consensus::get_target_difficulty;

fn header(height: u64, timestamp: u64, difficulty: u64) -> BlockHeader {
    BlockHeader { height, timestamp, prev_hash: [0u8; 32], pow_difficulty: difficulty }
}

#[test]
fn builder_applies_network_defaults() {
    let manager = ConsensusManagerBuilder::new(Network::MainNet).build();
    assert_eq!(manager.network(), Network::MainNet);
    let c = manager.consensus_constants();
    assert_eq!(c.min_pow_difficulty, 60_000_000);
    let e = manager.emission_schedule();
    assert_eq!(e.initial, c.emission_initial);
    assert_eq!(e.tail, c.emission_tail);
}

#[test]
fn builder_accepts_custom_constants() {
    let mut c = Network::LocalNet.create_consensus_constants();
    c.min_pow_difficulty = 5;
    c.emission_initial = 1_000;
    let manager = ConsensusManagerBuilder::new(Network::LocalNet)
        .with_consensus_constants(c)
        .build();
    assert_eq!(manager.consensus_constants().min_pow_difficulty, 5);
    assert_eq!(manager.emission_schedule().initial, 1_000);
}

#[test]
fn block_reward_decays_to_tail() {
    let e = EmissionSchedule::new(10_000_000_000, 1_000, 100_000_000);
    assert_eq!(e.block_reward(0), 10_000_000_000);
    assert_eq!(e.block_reward(1), 10_000_000_000 - 1_000);
    // far beyond depletion the tail emission holds
    assert_eq!(e.block_reward(20_000_000), 100_000_000);
    assert_eq!(e.block_reward(u64::MAX), 100_000_000);
}

#[test]
fn coinbase_and_fees() {
    let manager = ConsensusManagerBuilder::new(Network::MainNet).build();
    let block = Block { header: header(1, 0, 1), kernel_fees: vec![30, 12] };
    assert_eq!(
        manager.calculate_coinbase_and_fees(&block),
        10_000_000_000 - 1_000 + 42
    );
}

#[test]
fn genesis_hashes_differ_between_networks() {
    let mainnet = ConsensusManagerBuilder::new(Network::MainNet).build();
    let rincewind = ConsensusManagerBuilder::new(Network::Rincewind).build();
    let h1 = mainnet.get_genesis_block_hash();
    let h2 = rincewind.get_genesis_block_hash();
    assert_eq!(h1.len(), 32);
    assert_eq!(h2.len(), 32);
    assert_ne!(h1, h2);
    // the local network without a custom block uses the rincewind genesis
    let local = ConsensusManagerBuilder::new(Network::LocalNet).build();
    assert_eq!(local.get_genesis_block_hash(), h2);
}

#[test]
fn custom_genesis_block_on_local_network() {
    let custom = Block { header: header(0, 42, 7), kernel_fees: vec![] };
    let local = ConsensusManagerBuilder::new(Network::LocalNet)
        .with_block(custom)
        .build();
    let b = local.get_genesis_block();
    assert_eq!(b.header.timestamp, 42);
    assert_eq!(b.header.pow_difficulty, 7);
}

#[test]
fn target_difficulty_steady_chain() {
    // two headers, 120 ms apart, both at difficulty 100, target interval 120
    let headers = vec![header(0, 0, 100), header(1, 120, 100)];
    let d = get_target_difficulty(&headers, 90, 120, 1200, 1);
    assert_eq!(d, 100);
}

#[test]
fn target_difficulty_clamps_to_minimum() {
    let d = get_target_difficulty(&Vec::new(), 90, 120, 1200, 60_000);
    assert_eq!(d, 60_000);
    // very slow blocks push the estimate down, but never below the minimum
    let headers = vec![header(0, 0, 2), header(1, 100_000, 2)];
    let d = get_target_difficulty(&headers, 90, 120, 1200, 60_000);
    assert_eq!(d, 60_000);
}

#[test]
fn target_difficulty_through_manager() {
    let manager = ConsensusManagerBuilder::new(Network::LocalNet).build();
    let db = MemoryBlockchainBackend {
        headers: vec![header(0, 0, 50), header(1, 120, 50), header(2, 240, 50)],
    };
    let d = manager.get_target_difficulty(&db, PowAlgorithm::Blake).unwrap();
    assert_eq!(d, 50);
    let d2 = manager
        .get_target_difficulty_with_height(&db, PowAlgorithm::Blake, 1)
        .unwrap();
    assert_eq!(d2, 50);
}

#[test]
fn median_timestamp_exact() {
    assert_eq!(get_median_timestamp(&vec![]), None);
    assert_eq!(get_median_timestamp(&vec![7]), Some(7));
    assert_eq!(get_median_timestamp(&vec![9, 1, 5]), Some(5));
    // even count: the lower middle element
    assert_eq!(get_median_timestamp(&vec![4, 1, 9, 6]), Some(4));
}

#[test]
fn median_timestamp_through_manager() {
    let manager = ConsensusManagerBuilder::new(Network::LocalNet).build();
    let db = MemoryBlockchainBackend {
        headers: vec![header(0, 10, 1), header(1, 30, 1), header(2, 20, 1)],
    };
    assert_eq!(manager.get_median_timestamp(&db).unwrap(), 20);
    assert_eq!(manager.get_median_timestamp_at_height(&db, 1).unwrap(), 10);
}

#[test]
fn base_node_state_descriptions() {
    assert_eq!(BaseNodeState::Starting.description(), "Initializing");
    assert_eq!(BaseNodeState::Listening.description(), "Listening");
    assert_eq!(BaseNodeState::Shutdown.description(), "Shutting down");
}
