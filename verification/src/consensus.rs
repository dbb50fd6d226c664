//! Consensus rules: the configured network, its constants and emission
//! schedule, genesis blocks, and the target-difficulty estimate used by the
//! proof-of-work validators.

use vstd::prelude::*;

use crate::key_manager::push_u64_le;
use crate::key_manager::u64_le_bytes;
use crate::types::MicroTari;
use crate::wrappers::blake256_of;
use crate::wrappers::blake2b_256;

verus! {

/// The difficulty of a proof of work.
pub type Difficulty = u64;

/// The chain network this node follows.
#[derive(Clone, Copy, Debug, PartialEq, Eq, Structural)]
pub enum Network {
    MainNet,
    Rincewind,
    LocalNet,
}

/// The proof-of-work algorithms the chain accepts.
#[derive(Clone, Copy, Debug, PartialEq, Eq, Structural)]
pub enum PowAlgorithm {
    Monero,
    Blake,
}

/// Consensus constants: window sizes, intervals and the emission curve.
#[derive(Clone, Copy, Debug, PartialEq, Eq, Structural)]
pub struct ConsensusConstants {
    pub coinbase_lock_height: u64,
    pub difficulty_block_window: u64,
    pub diff_target_block_interval: u64,
    pub difficulty_max_block_interval: u64,
    pub min_pow_difficulty: u64,
    pub median_timestamp_count: u64,
    pub emission_initial: u64,
    pub emission_decay: u64,
    pub emission_tail: u64,
}

impl Network {
    /// The constants this network runs with.
    pub fn create_consensus_constants(&self) -> (r: ConsensusConstants)
        ensures
            r == network_constants(*self),
    {
        match self {
            Network::MainNet => ConsensusConstants {
                coinbase_lock_height: 60,
                difficulty_block_window: 90,
                diff_target_block_interval: 120,
                difficulty_max_block_interval: 1200,
                min_pow_difficulty: 60_000_000,
                median_timestamp_count: 11,
                emission_initial: 10_000_000_000,
                emission_decay: 1_000,
                emission_tail: 100_000_000,
            },
            Network::Rincewind => ConsensusConstants {
                coinbase_lock_height: 60,
                difficulty_block_window: 90,
                diff_target_block_interval: 120,
                difficulty_max_block_interval: 1200,
                min_pow_difficulty: 60_000,
                median_timestamp_count: 11,
                emission_initial: 10_000_000_000,
                emission_decay: 1_000,
                emission_tail: 100_000_000,
            },
            Network::LocalNet => ConsensusConstants {
                coinbase_lock_height: 2,
                difficulty_block_window: 90,
                diff_target_block_interval: 120,
                difficulty_max_block_interval: 1200,
                min_pow_difficulty: 1,
                median_timestamp_count: 11,
                emission_initial: 10_000_000_000,
                emission_decay: 1_000,
                emission_tail: 100_000_000,
            },
        }
    }
}

/// The constants of each network.
pub open spec fn network_constants(network: Network) -> ConsensusConstants {
    match network {
        Network::MainNet => ConsensusConstants {
            coinbase_lock_height: 60,
            difficulty_block_window: 90,
            diff_target_block_interval: 120,
            difficulty_max_block_interval: 1200,
            min_pow_difficulty: 60_000_000,
            median_timestamp_count: 11,
            emission_initial: 10_000_000_000,
            emission_decay: 1_000,
            emission_tail: 100_000_000,
        },
        Network::Rincewind => ConsensusConstants {
            coinbase_lock_height: 60,
            difficulty_block_window: 90,
            diff_target_block_interval: 120,
            difficulty_max_block_interval: 1200,
            min_pow_difficulty: 60_000,
            median_timestamp_count: 11,
            emission_initial: 10_000_000_000,
            emission_decay: 1_000,
            emission_tail: 100_000_000,
        },
        Network::LocalNet => ConsensusConstants {
            coinbase_lock_height: 2,
            difficulty_block_window: 90,
            diff_target_block_interval: 120,
            difficulty_max_block_interval: 1200,
            min_pow_difficulty: 1,
            median_timestamp_count: 11,
            emission_initial: 10_000_000_000,
            emission_decay: 1_000,
            emission_tail: 100_000_000,
        },
    }
}

/// The block reward at a height: the initial reward shrinks by `decay` per
/// block and never falls below the tail emission.
pub open spec fn block_reward_spec(initial: u64, decay: u64, tail: u64, height: u64) -> int {
    if decay * height >= initial {
        tail as int
    } else if initial - decay * height >= tail {
        initial - decay * height
    } else {
        tail as int
    }
}

/// The emission schedule: a linear decay from the initial reward down to the
/// tail emission.
#[derive(Clone, Copy, Debug, PartialEq, Eq, Structural)]
pub struct EmissionSchedule {
    pub initial: u64,
    pub decay: u64,
    pub tail: u64,
}

impl EmissionSchedule {
    pub fn new(initial: u64, decay: u64, tail: u64) -> (r: EmissionSchedule)
        ensures
            r == (EmissionSchedule { initial, decay, tail }),
    {
        EmissionSchedule { initial, decay, tail }
    }

    /// The emission at the given block height.
    pub fn block_reward(&self, height: u64) -> (r: u64)
        ensures
            r == block_reward_spec(self.initial, self.decay, self.tail, height),
    {
        match self.decay.checked_mul(height) {
            None => {
                proof {
                    assert(self.decay * height > u64::MAX >= self.initial);
                }
                self.tail
            },
            Some(d) => {
                if d >= self.initial {
                    self.tail
                } else if self.initial - d >= self.tail {
                    self.initial - d
                } else {
                    self.tail
                }
            },
        }
    }
}

/// A block header, as far as consensus reads it.
#[derive(Clone, Copy, Debug)]
pub struct BlockHeader {
    pub height: u64,
    pub timestamp: u64,
    pub prev_hash: [u8; 32],
    pub pow_difficulty: u64,
}

/// A block: its header and the fees of its kernels.
#[derive(Clone, Debug)]
pub struct Block {
    pub header: BlockHeader,
    pub kernel_fees: Vec<u64>,
}

/// Sum of a block's kernel fees.
pub open spec fn fees_sum(fees: Seq<u64>) -> int
    decreases fees.len(),
{
    if fees.len() == 0 {
        0
    } else {
        fees_sum(fees.drop_last()) + fees.last()
    }
}

/// A saturating value: the exact sum where it fits, the maximum otherwise.
pub open spec fn saturated(x: int) -> int {
    if x <= u64::MAX {
        x
    } else {
        u64::MAX as int
    }
}

proof fn lemma_fees_sum_take(fees: Seq<u64>, i: int)
    requires
        0 <= i < fees.len(),
    ensures
        fees_sum(fees.take(i + 1)) == fees_sum(fees.take(i)) + fees[i],
        fees_sum(fees.take(i)) >= 0,
    decreases i,
{
    assert(fees.take(i + 1).drop_last() =~= fees.take(i));
    assert(fees.take(i + 1).last() == fees[i]);
    if i > 0 {
        lemma_fees_sum_take(fees, i - 1);
    } else {
        assert(fees.take(0) =~= Seq::<u64>::empty());
    }
}

/// The canonical byte encoding of a block: header fields, then the kernel
/// fee list with a leading count.
pub open spec fn fees_bytes(fees: Seq<u64>) -> Seq<u8>
    decreases fees.len(),
{
    if fees.len() == 0 {
        Seq::empty()
    } else {
        fees_bytes(fees.drop_last()) + u64_le_bytes(fees.last())
    }
}

pub open spec fn block_bytes(
    height: u64,
    timestamp: u64,
    prev_hash: Seq<u8>,
    pow_difficulty: u64,
    fees: Seq<u64>,
) -> Seq<u8> {
    u64_le_bytes(height) + u64_le_bytes(timestamp) + prev_hash + u64_le_bytes(pow_difficulty)
        + u64_le_bytes(fees.len() as u64) + fees_bytes(fees)
}

impl Block {
    /// Total fees carried by the block, saturating at the largest amount.
    pub fn calculate_fees(&self) -> (r: u64)
        ensures
            r == saturated(fees_sum(self.kernel_fees@)),
    {
        let fees = &self.kernel_fees;
        let mut acc: u64 = 0;
        let mut i: usize = 0;
        let mut sat = false;
        proof {
            assert(fees@.take(0) =~= Seq::<u64>::empty());
        }
        while i < fees.len()
            invariant
                i <= fees.len(),
                !sat ==> acc == fees_sum(fees@.take(i as int)),
                sat ==> acc == u64::MAX && fees_sum(fees@.take(i as int)) > u64::MAX,
            decreases fees.len() - i,
        {
            proof {
                lemma_fees_sum_take(fees@, i as int);
            }
            let v = fees[i];
            if sat || v > u64::MAX - acc {
                acc = u64::MAX;
                sat = true;
            } else {
                acc = acc + v;
            }
            i = i + 1;
        }
        proof {
            assert(fees@.take(fees@.len() as int) =~= fees@);
        }
        acc
    }

    /// The canonical hash that identifies the block.
    pub fn hash(&self) -> (r: [u8; 32])
        ensures
            r@ == blake256_of(
                block_bytes(
                    self.header.height,
                    self.header.timestamp,
                    self.header.prev_hash@,
                    self.header.pow_difficulty,
                    self.kernel_fees@,
                ),
            ),
    {
        let mut data: Vec<u8> = Vec::new();
        push_u64_le(&mut data, self.header.height);
        push_u64_le(&mut data, self.header.timestamp);
        let mut i: usize = 0;
        while i < 32
            invariant
                i <= 32,
                data@ == u64_le_bytes(self.header.height) + u64_le_bytes(self.header.timestamp)
                    + self.header.prev_hash@.take(i as int),
            decreases 32 - i,
        {
            data.push(self.header.prev_hash[i]);
            proof {
                assert(data@ =~= u64_le_bytes(self.header.height) + u64_le_bytes(
                    self.header.timestamp,
                ) + self.header.prev_hash@.take(i as int + 1));
            }
            i = i + 1;
        }
        proof {
            assert(self.header.prev_hash@.take(32) =~= self.header.prev_hash@);
        }
        push_u64_le(&mut data, self.header.pow_difficulty);
        push_u64_le(&mut data, self.kernel_fees.len() as u64);
        let ghost prefix = data@;
        let mut k: usize = 0;
        proof {
            assert(fees_bytes(self.kernel_fees@.take(0)) =~= Seq::<u8>::empty());
            assert(data@ =~= prefix + fees_bytes(self.kernel_fees@.take(0)));
        }
        while k < self.kernel_fees.len()
            invariant
                k <= self.kernel_fees.len(),
                data@ == prefix + fees_bytes(self.kernel_fees@.take(k as int)),
                prefix == u64_le_bytes(self.header.height) + u64_le_bytes(self.header.timestamp)
                    + self.header.prev_hash@ + u64_le_bytes(self.header.pow_difficulty)
                    + u64_le_bytes(self.kernel_fees@.len() as u64),
            decreases self.kernel_fees.len() - k,
        {
            proof {
                assert(self.kernel_fees@.take(k as int + 1).drop_last() =~= self.kernel_fees@.take(
                    k as int,
                ));
                assert(self.kernel_fees@.take(k as int + 1).last() == self.kernel_fees@[k as int]);
            }
            push_u64_le(&mut data, self.kernel_fees[k]);
            proof {
                assert(data@ =~= prefix + fees_bytes(self.kernel_fees@.take(k as int + 1)));
            }
            k = k + 1;
        }
        proof {
            assert(self.kernel_fees@.take(self.kernel_fees@.len() as int) =~= self.kernel_fees@);
            assert(data@ =~= block_bytes(
                self.header.height,
                self.header.timestamp,
                self.header.prev_hash@,
                self.header.pow_difficulty,
                self.kernel_fees@,
            ));
        }
        blake2b_256(data.as_slice())
    }

    /// A field-for-field copy of the block.
    pub fn duplicate(&self) -> (r: Block)
        ensures
            r.header == self.header,
            r.kernel_fees@ == self.kernel_fees@,
    {
        let mut fees: Vec<u64> = Vec::new();
        let mut i: usize = 0;
        while i < self.kernel_fees.len()
            invariant
                i <= self.kernel_fees.len(),
                fees@ == self.kernel_fees@.take(i as int),
            decreases self.kernel_fees.len() - i,
        {
            fees.push(self.kernel_fees[i]);
            proof {
                assert(fees@ =~= self.kernel_fees@.take(i as int + 1));
            }
            i = i + 1;
        }
        proof {
            assert(self.kernel_fees@.take(self.kernel_fees@.len() as int) =~= self.kernel_fees@);
        }
        Block { header: self.header, kernel_fees: fees }
    }
}

/// A 32-byte string of zeroes.
pub open spec fn zero32() -> Seq<u8> {
    Seq::new(32, |i: int| 0u8)
}

/// The fields of the main network's genesis header.
pub open spec fn is_mainnet_genesis_header(h: BlockHeader) -> bool {
    &&& h.height == 0
    &&& h.timestamp == 1_577_836_800_000
    &&& h.prev_hash@ == zero32()
    &&& h.pow_difficulty == 1
}

/// The fields of the rincewind network's genesis header.
pub open spec fn is_rincewind_genesis_header(h: BlockHeader) -> bool {
    &&& h.height == 0
    &&& h.timestamp == 1_587_837_600_000
    &&& h.prev_hash@ == zero32()
    &&& h.pow_difficulty == 1
}

/// The genesis block of the main network.
pub fn get_mainnet_genesis_block() -> (r: Block)
    ensures
        is_mainnet_genesis_header(r.header),
        r.kernel_fees@ == Seq::<u64>::empty(),
{
    let r = Block {
        header: BlockHeader {
            height: 0,
            timestamp: 1_577_836_800_000,
            prev_hash: [0u8; 32],
            pow_difficulty: 1,
        },
        kernel_fees: Vec::new(),
    };
    proof {
        assert(r.kernel_fees@ =~= Seq::<u64>::empty());
        assert(r.header.prev_hash@ =~= zero32());
    }
    r
}

/// The genesis block of the rincewind test network.
pub fn get_rincewind_genesis_block() -> (r: Block)
    ensures
        is_rincewind_genesis_header(r.header),
        r.kernel_fees@ == Seq::<u64>::empty(),
{
    let r = Block {
        header: BlockHeader {
            height: 0,
            timestamp: 1_587_837_600_000,
            prev_hash: [0u8; 32],
            pow_difficulty: 1,
        },
        kernel_fees: Vec::new(),
    };
    proof {
        assert(r.kernel_fees@ =~= Seq::<u64>::empty());
        assert(r.header.prev_hash@ =~= zero32());
    }
    r
}

/// Consistent snapshot of the chain's shape.
#[derive(Clone, Copy, Debug)]
pub struct ChainMetadata {
    pub height_of_longest_chain: Option<u64>,
    pub accumulated_difficulty: Option<u64>,
    pub pruning_horizon: u64,
}

/// Errors from the chain storage backend.
#[derive(Clone, Copy, Debug, PartialEq, Eq, Structural)]
pub enum ChainStorageError {
    ValueNotFound,
    AccessFailed,
}

/// The chain storage a consensus manager reads: implemented by the node's
/// database; an in-memory implementation lives beside it for tests. A fetch
/// may fail, but whatever it returns is the chain the backend holds.
pub trait BlockchainBackend {
    /// The chain metadata the backend holds.
    spec fn chain_metadata(&self) -> Option<ChainMetadata>;

    /// The header the backend holds at a height.
    spec fn header_at(&self, height: u64) -> Option<BlockHeader>;

    fn fetch_metadata(&self) -> (r: Result<ChainMetadata, ChainStorageError>)
        ensures
            r matches Ok(m) ==> self.chain_metadata() == Some(m),
    ;

    fn fetch_header(&self, height: u64) -> (r: Result<BlockHeader, ChainStorageError>)
        ensures
            r matches Ok(h) ==> self.header_at(height) == Some(h),
    ;
}

/// An in-memory chain of headers.
pub struct MemoryBlockchainBackend {
    pub headers: Vec<BlockHeader>,
}

impl BlockchainBackend for MemoryBlockchainBackend {
    open spec fn chain_metadata(&self) -> Option<ChainMetadata> {
        if self.headers@.len() == 0 {
            Some(
                ChainMetadata {
                    height_of_longest_chain: None,
                    accumulated_difficulty: None,
                    pruning_horizon: 0,
                },
            )
        } else {
            Some(
                ChainMetadata {
                    height_of_longest_chain: Some((self.headers@.len() - 1) as u64),
                    accumulated_difficulty: None,
                    pruning_horizon: 0,
                },
            )
        }
    }

    open spec fn header_at(&self, height: u64) -> Option<BlockHeader> {
        if height < self.headers@.len() {
            Some(self.headers@[height as int])
        } else {
            None
        }
    }

    fn fetch_metadata(&self) -> (r: Result<ChainMetadata, ChainStorageError>) {
        if self.headers.len() == 0 {
            Ok(
                ChainMetadata {
                    height_of_longest_chain: None,
                    accumulated_difficulty: None,
                    pruning_horizon: 0,
                },
            )
        } else {
            Ok(
                ChainMetadata {
                    height_of_longest_chain: Some((self.headers.len() - 1) as u64),
                    accumulated_difficulty: None,
                    pruning_horizon: 0,
                },
            )
        }
    }

    fn fetch_header(&self, height: u64) -> (r: Result<BlockHeader, ChainStorageError>) {
        if height < self.headers.len() as u64 {
            Ok(self.headers[height as usize])
        } else {
            Err(ChainStorageError::ValueNotFound)
        }
    }
}

/// Errors raised by the consensus manager.
#[derive(Clone, Copy, Debug, PartialEq, Eq, Structural)]
pub enum ConsensusManagerError {
    DifficultyAdjustmentError,
    ChainStorageError,
    EmptyBlockchain,
    PoisonedAccess,
    MissingDifficultyAdjustmentManager,
}

/// The estimated target difficulty over a window of headers: the average
/// difficulty of the window, scaled by the ratio of the target block interval
/// to the observed average interval (clamped to the maximum interval), and
/// never below the network's minimum difficulty.
pub open spec fn target_difficulty_spec(
    headers: Seq<BlockHeader>,
    window: u64,
    target_interval: u64,
    max_interval: u64,
    min_difficulty: u64,
) -> int {
    if headers.len() == 0 || window == 0 || target_interval == 0 {
        min_difficulty as int
    } else {
        let w = if headers.len() <= window {
            headers
        } else {
            headers.subrange(headers.len() - window, headers.len() as int)
        };
        let avg = header_difficulty_sum(w) / w.len() as int;
        let span = w.last().timestamp - w.first().timestamp;
        let observed_raw = if w.len() > 1 && span > 0 {
            span / (w.len() - 1)
        } else {
            target_interval as int
        };
        let cap = if max_interval < 1 {
            1
        } else {
            max_interval as int
        };
        let observed = if observed_raw < 1 {
            1
        } else if observed_raw > cap {
            cap
        } else {
            observed_raw
        };
        let scaled = avg * target_interval / observed;
        let capped = if scaled > u64::MAX {
            u64::MAX as int
        } else {
            scaled
        };
        if capped < min_difficulty {
            min_difficulty as int
        } else {
            capped
        }
    }
}

/// Sum of the difficulties of a window of headers.
pub open spec fn header_difficulty_sum(headers: Seq<BlockHeader>) -> int
    decreases headers.len(),
{
    if headers.len() == 0 {
        0
    } else {
        header_difficulty_sum(headers.drop_last()) + headers.last().pow_difficulty
    }
}

proof fn lemma_difficulty_sum_take(headers: Seq<BlockHeader>, i: int)
    requires
        0 <= i < headers.len(),
    ensures
        header_difficulty_sum(headers.take(i + 1)) == header_difficulty_sum(headers.take(i))
            + headers[i].pow_difficulty,
        header_difficulty_sum(headers.take(i)) >= 0,
        header_difficulty_sum(headers.take(i)) <= i * (u64::MAX as int),
    decreases i,
{
    assert(headers.take(i + 1).drop_last() =~= headers.take(i));
    assert(headers.take(i + 1).last() == headers[i]);
    if i > 0 {
        lemma_difficulty_sum_take(headers, i - 1);
        assert(header_difficulty_sum(headers.take(i)) == header_difficulty_sum(
            headers.take(i - 1),
        ) + headers[i - 1].pow_difficulty);
    } else {
        assert(headers.take(0) =~= Seq::<BlockHeader>::empty());
    }
}

/// Estimate the target difficulty from a window of headers.
#[verifier::rlimit(100)]
pub fn get_target_difficulty(
    headers: &Vec<BlockHeader>,
    window: u64,
    target_interval: u64,
    max_interval: u64,
    min_difficulty: u64,
) -> (r: Difficulty)
    ensures
        r == target_difficulty_spec(headers@, window, target_interval, max_interval,
        min_difficulty),
        r >= min_difficulty || r == u64::MAX,
{
    if headers.len() == 0 || window == 0 || target_interval == 0 {
        return min_difficulty;
    }
    let start: usize = if (headers.len() as u64) <= window {
        0
    } else {
        headers.len() - window as usize
    };
    let ghost w = if headers@.len() <= window {
        headers@
    } else {
        headers@.subrange(headers@.len() - window, headers@.len() as int)
    };
    proof {
        assert(w =~= headers@.subrange(start as int, headers@.len() as int));
    }
    let n = headers.len() - start;
    let mut sum: u128 = 0;
    let mut i: usize = start;
    proof {
        assert(headers@.subrange(start as int, start as int) =~= w.take(0));
        assert(header_difficulty_sum(w.take(0)) == 0) by {
            assert(w.take(0) =~= Seq::<BlockHeader>::empty());
        }
    }
    while i < headers.len()
        invariant
            start <= i <= headers.len(),
            headers@.len() <= u64::MAX,
            w == headers@.subrange(start as int, headers@.len() as int),
            w.len() == headers@.len() - start,
            sum == header_difficulty_sum(w.take(i - start)),
            sum <= (i - start) * (u64::MAX as int),
        decreases headers.len() - i,
    {
        proof {
            lemma_difficulty_sum_take(w, i - start);
            assert(w[i - start] == headers@[i as int]);
        }
        sum = sum + (headers[i].pow_difficulty as u128);
        i = i + 1;
    }
    proof {
        assert(w.take(w.len() as int) =~= w);
    }
    let avg: u128 = sum / (n as u128);
    let first = headers[start];
    let last = headers[headers.len() - 1];
    proof {
        assert(w.first() == headers@[start as int]);
        assert(w.last() == headers@[headers@.len() - 1]);
    }
    let observed_raw: u128 = if n > 1 && last.timestamp > first.timestamp {
        ((last.timestamp - first.timestamp) as u128) / ((n - 1) as u128)
    } else {
        target_interval as u128
    };
    let cap: u128 = if max_interval < 1 {
        1
    } else {
        max_interval as u128
    };
    let observed: u128 = if observed_raw < 1 {
        1
    } else if observed_raw > cap {
        cap
    } else {
        observed_raw
    };
    proof {
        assert(sum / (n as u128) <= u64::MAX) by (nonlinear_arith)
            requires
                sum <= (n as u128) * (u64::MAX as u128),
                n >= 1,
        ;
        assert(avg * (target_interval as u128) <= (u64::MAX as u128) * (u64::MAX as u128))
            by (nonlinear_arith)
            requires
                avg <= u64::MAX as u128,
                target_interval <= u64::MAX,
        ;
    }
    let scaled: u128 = avg * (target_interval as u128) / observed;
    let capped: u64 = if scaled > u64::MAX as u128 {
        u64::MAX
    } else {
        scaled as u64
    };
    if capped < min_difficulty {
        min_difficulty
    } else {
        capped
    }
}

/// Whether a sequence of timestamps is in ascending order.
pub open spec fn ts_sorted(s: Seq<u64>) -> bool {
    forall|i: int, j: int| 0 <= i < j < s.len() ==> s[i] <= s[j]
}

/// The median of a list of timestamps: the middle element of its ascending
/// ordering, or the lower of the two middle elements for an even count.
pub fn get_median_timestamp(timestamps: &Vec<u64>) -> (r: Option<u64>)
    ensures
        r is None <==> timestamps@.len() == 0,
        r matches Some(m) ==> exists|s: Seq<u64>|
            #[trigger] s.to_multiset() == timestamps@.to_multiset() && ts_sorted(s) && s.len()
                == timestamps@.len() && m == s[(s.len() - 1) as int / 2],
{
    broadcast use vstd::seq_lib::group_to_multiset_ensures;

    if timestamps.len() == 0 {
        return None;
    }
    let mut src: Vec<u64> = Vec::new();
    let mut i: usize = 0;
    while i < timestamps.len()
        invariant
            i <= timestamps.len(),
            src@ == timestamps@.take(i as int),
        decreases timestamps.len() - i,
    {
        src.push(timestamps[i]);
        proof {
            assert(src@ =~= timestamps@.take(i as int + 1));
        }
        i = i + 1;
    }
    proof {
        assert(timestamps@.take(timestamps@.len() as int) =~= timestamps@);
    }
    let mut out: Vec<u64> = Vec::new();
    while src.len() > 0
        invariant
            out@.to_multiset().add(src@.to_multiset()) == timestamps@.to_multiset(),
            out@.len() + src@.len() == timestamps@.len(),
            ts_sorted(out@),
            forall|a: int, b: int|
                0 <= a < out@.len() && 0 <= b < src@.len() ==> out@[a] <= src@[b],
        decreases src.len(),
    {
        let mut mi: usize = 0;
        let mut k: usize = 1;
        while k < src.len()
            invariant
                mi < k <= src.len(),
                src@.len() > 0,
                forall|j: int| 0 <= j < k ==> src@[mi as int] <= src@[j],
            decreases src.len() - k,
        {
            if src[k] < src[mi] {
                mi = k;
            }
            k = k + 1;
        }
        let ghost src_before = src@;
        let v = src.remove(mi);
        let ghost out_before = out@;
        out.push(v);
        proof {
            assert(src_before[mi as int] == v);
            src_before.to_multiset_ensures();
            out_before.to_multiset_ensures();
            assert(src_before.contains(v));
            assert(src_before.to_multiset().count(v) > 0);
            assert(out@.to_multiset() =~= out_before.to_multiset().insert(v));
            assert(src@.to_multiset() =~= src_before.to_multiset().remove(v));
            assert(out@.to_multiset().add(src@.to_multiset()) =~= out_before.to_multiset().add(
                src_before.to_multiset(),
            ));
            assert forall|b: int| 0 <= b < src@.len() implies v <= src@[b] by {
                if b < mi {
                    assert(src@[b] == src_before[b]);
                } else {
                    assert(src@[b] == src_before[b + 1]);
                }
            }
        }
    }
    proof {
        assert(src@.to_multiset() =~= Seq::<u64>::empty().to_multiset());
        Seq::<u64>::empty().to_multiset_ensures();
        assert(out@.to_multiset() =~= timestamps@.to_multiset());
    }
    let m = out[(out.len() - 1) / 2];
    proof {
        assert(out@.to_multiset() == timestamps@.to_multiset() && ts_sorted(out@) && out@.len()
            == timestamps@.len() && m == out@[(out@.len() - 1) as int / 2]);
    }
    Some(m)
}

/// Manages all stateful consensus rules of the configured network.
#[derive(Clone)]
pub struct ConsensusManager {
    consensus_constants: ConsensusConstants,
    network: Network,
    emission: EmissionSchedule,
    gen_block: Option<Block>,
}

/// What an accepted median at a height promises: it is the median of the
/// timestamps of the window of headers the backend holds at heights
/// `height - min(height, count)` through `height`.
pub open spec fn median_window_ok<B: BlockchainBackend>(
    manager: ConsensusManager,
    db: &B,
    height: u64,
    t: u64,
) -> bool {
    let lo = if height > manager.constants().median_timestamp_count {
        (height - manager.constants().median_timestamp_count) as u64
    } else {
        0u64
    };
    exists|hs: Seq<BlockHeader>|
        #![trigger hs.len()]
        {
            &&& hs.len() == height - lo + 1
            &&& (forall|i: int|
                0 <= i < hs.len() ==> db.header_at((lo + i) as u64) == Some(#[trigger] hs[i]))
            &&& (exists|s: Seq<u64>|
                #[trigger] s.to_multiset() == hs.map_values(
                    |bh: BlockHeader| bh.timestamp,
                ).to_multiset() && ts_sorted(s) && s.len() == hs.len() && t == s[(hs.len() - 1) as int
                    / 2])
        }
}

impl ConsensusManager {
    /// The genesis block of the selected network; on a local network, the
    /// custom block if one was set.
    pub fn get_genesis_block(&self) -> (r: Block)
        ensures
            self.configured_network() == Network::MainNet ==> is_mainnet_genesis_header(r.header)
                && r.kernel_fees@ == Seq::<u64>::empty(),
            self.configured_network() == Network::Rincewind ==> is_rincewind_genesis_header(
                r.header,
            ) && r.kernel_fees@ == Seq::<u64>::empty(),
            self.configured_network() == Network::LocalNet ==> (match self.custom_block() {
                Some(b) => r.header == b.header && r.kernel_fees@ == b.kernel_fees@,
                None => is_rincewind_genesis_header(r.header) && r.kernel_fees@
                    == Seq::<u64>::empty(),
            }),
    {
        match self.network {
            Network::MainNet => get_mainnet_genesis_block(),
            Network::Rincewind => get_rincewind_genesis_block(),
            Network::LocalNet => match &self.gen_block {
                Some(b) => b.duplicate(),
                None => get_rincewind_genesis_block(),
            },
        }
    }

    /// The custom genesis block, if one was configured.
    pub closed spec fn custom_block(&self) -> Option<Block> {
        self.gen_block
    }

    /// The hash of the genesis block of the selected network.
    pub fn get_genesis_block_hash(&self) -> (r: Vec<u8>)
        ensures
            self.configured_network() == Network::MainNet ==> r@ == blake256_of(
                block_bytes(0, 1_577_836_800_000, zero32(), 1, Seq::<u64>::empty()),
            ),
            self.configured_network() == Network::Rincewind ==> r@ == blake256_of(
                block_bytes(0, 1_587_837_600_000, zero32(), 1, Seq::<u64>::empty()),
            ),
            self.configured_network() == Network::LocalNet ==> (match self.custom_block() {
                Some(b) => r@ == blake256_of(
                    block_bytes(
                        b.header.height,
                        b.header.timestamp,
                        b.header.prev_hash@,
                        b.header.pow_difficulty,
                        b.kernel_fees@,
                    ),
                ),
                None => r@ == blake256_of(
                    block_bytes(0, 1_587_837_600_000, zero32(), 1, Seq::<u64>::empty()),
                ),
            }),
    {
        let block = self.get_genesis_block();
        let h = block.hash();
        let mut out: Vec<u8> = Vec::new();
        let mut i: usize = 0;
        while i < 32
            invariant
                i <= 32,
                out@ == h@.take(i as int),
            decreases 32 - i,
        {
            out.push(h[i]);
            proof {
                assert(out@ =~= h@.take(i as int + 1));
            }
            i = i + 1;
        }
        proof {
            assert(h@.take(32) =~= h@);
        }
        out
    }

    /// The emission schedule.
    pub fn emission_schedule(&self) -> (r: &EmissionSchedule)
        ensures
            *r == self.emission_parameters(),
    {
        &self.emission
    }

    pub closed spec fn emission_parameters(&self) -> EmissionSchedule {
        self.emission
    }

    /// The consensus constants.
    pub fn consensus_constants(&self) -> (r: &ConsensusConstants)
        ensures
            *r == self.constants(),
    {
        &self.consensus_constants
    }

    pub closed spec fn constants(&self) -> ConsensusConstants {
        self.consensus_constants
    }

    /// The estimated target difficulty at the chain tip.
    pub fn get_target_difficulty<B: BlockchainBackend>(&self, db: &B, pow_algo: PowAlgorithm) -> (r:
        Result<Difficulty, ConsensusManagerError>)
        ensures
            r matches Ok(d) ==> d >= self.constants().min_pow_difficulty || d == u64::MAX,
            r matches Err(e) ==> (e == ConsensusManagerError::ChainStorageError || e
                == ConsensusManagerError::EmptyBlockchain),
            r == Err::<Difficulty, ConsensusManagerError>(ConsensusManagerError::EmptyBlockchain)
                ==> (db.chain_metadata() matches Some(m) && m.height_of_longest_chain is None),
            r matches Ok(d) ==> (db.chain_metadata() matches Some(m)
                && (m.height_of_longest_chain matches Some(h) && exists|hs: Seq<BlockHeader>|
                #![trigger hs.len()]
                {
                    &&& hs.len() == h + 1
                    &&& (forall|i: int| 0 <= i <= h ==> db.header_at(i as u64) == Some(#[trigger] hs[i]))
                    &&& d == target_difficulty_spec(
                        hs,
                        self.constants().difficulty_block_window,
                        self.constants().diff_target_block_interval,
                        self.constants().difficulty_max_block_interval,
                        self.constants().min_pow_difficulty,
                    )
                })),
    {
        let metadata = match db.fetch_metadata() {
            Ok(m) => m,
            Err(_) => {
                return Err(ConsensusManagerError::ChainStorageError);
            },
        };
        let height = match metadata.height_of_longest_chain {
            Some(h) => h,
            None => {
                return Err(ConsensusManagerError::EmptyBlockchain);
            },
        };
        self.get_target_difficulty_with_height(db, pow_algo, height)
    }

    /// The estimated target difficulty at the given height: the estimate
    /// over the headers the backend holds at heights zero through `height`.
    pub fn get_target_difficulty_with_height<B: BlockchainBackend>(
        &self,
        db: &B,
        pow_algo: PowAlgorithm,
        height: u64,
    ) -> (r: Result<Difficulty, ConsensusManagerError>)
        ensures
            r matches Ok(d) ==> d >= self.constants().min_pow_difficulty || d == u64::MAX,
            r matches Err(e) ==> e == ConsensusManagerError::ChainStorageError,
            r matches Ok(d) ==> exists|hs: Seq<BlockHeader>|
                {
                    &&& hs.len() == height + 1
                    &&& (forall|i: int| 0 <= i <= height ==> db.header_at(i as u64) == Some(#[trigger] hs[i]))
                    &&& d == target_difficulty_spec(
                        hs,
                        self.constants().difficulty_block_window,
                        self.constants().diff_target_block_interval,
                        self.constants().difficulty_max_block_interval,
                        self.constants().min_pow_difficulty,
                    )
                },
    {
        let mut headers: Vec<BlockHeader> = Vec::new();
        let mut h: u64 = 0;
        let mut done = false;
        while !done
            invariant
                h <= height,
                !done ==> headers@.len() == h,
                done ==> headers@.len() == height + 1,
                forall|i: int|
                    0 <= i < headers@.len() ==> db.header_at(i as u64) == Some(
                        #[trigger] headers@[i],
                    ),
            decreases (height - h) * 2 + if done {
                0int
            } else {
                1int
            },
        {
            match db.fetch_header(h) {
                Ok(header) => {
                    headers.push(header);
                },
                Err(_) => {
                    return Err(ConsensusManagerError::ChainStorageError);
                },
            }
            if h == height {
                done = true;
            } else {
                h = h + 1;
            }
        }
        let c = &self.consensus_constants;
        let d = get_target_difficulty(
            &headers,
            c.difficulty_block_window,
            c.diff_target_block_interval,
            c.difficulty_max_block_interval,
            c.min_pow_difficulty,
        );
        proof {
            let hs = headers@;
            assert(hs.len() == height + 1 && (forall|i: int|
                0 <= i <= height ==> db.header_at(i as u64) == Some(#[trigger] hs[i]))
                && d == target_difficulty_spec(
                hs,
                self.constants().difficulty_block_window,
                self.constants().diff_target_block_interval,
                self.constants().difficulty_max_block_interval,
                self.constants().min_pow_difficulty,
            ));
        }
        Ok(d)
    }

    /// The median timestamp of the recent window at the chain tip.
    pub fn get_median_timestamp<B: BlockchainBackend>(&self, db: &B) -> (r: Result<
        u64,
        ConsensusManagerError,
    >)
        ensures
            r matches Err(e) ==> (e == ConsensusManagerError::ChainStorageError || e
                == ConsensusManagerError::EmptyBlockchain),
            r == Err::<u64, ConsensusManagerError>(ConsensusManagerError::EmptyBlockchain)
                ==> (db.chain_metadata() matches Some(m) && m.height_of_longest_chain is None),
            r matches Ok(t) ==> (db.chain_metadata() matches Some(m)
                && (m.height_of_longest_chain matches Some(h) && median_window_ok(
                *self,
                db,
                h,
                t,
            ))),
    {
        let metadata = match db.fetch_metadata() {
            Ok(m) => m,
            Err(_) => {
                return Err(ConsensusManagerError::ChainStorageError);
            },
        };
        let height = match metadata.height_of_longest_chain {
            Some(h) => h,
            None => {
                return Err(ConsensusManagerError::EmptyBlockchain);
            },
        };
        self.get_median_timestamp_at_height(db, height)
    }

    /// The median timestamp of the window of headers the backend holds at
    /// heights `height - min(height, count)` through `height`. The window is
    /// never empty, so the median always exists when every fetch succeeds.
    pub fn get_median_timestamp_at_height<B: BlockchainBackend>(&self, db: &B, height: u64) -> (r:
        Result<u64, ConsensusManagerError>)
        ensures
            r matches Err(e) ==> e == ConsensusManagerError::ChainStorageError,
            r matches Ok(t) ==> median_window_ok(*self, db, height, t),
    {
        let count = self.consensus_constants.median_timestamp_count;
        let min_height: u64 = if height > count {
            height - count
        } else {
            0
        };
        let mut timestamps: Vec<u64> = Vec::new();
        let ghost mut ghs: Seq<BlockHeader> = Seq::empty();
        let mut h: u64 = min_height;
        let mut done = false;
        while !done
            invariant
                min_height <= h <= height,
                min_height == (if height > self.constants().median_timestamp_count {
                    height - self.constants().median_timestamp_count
                } else {
                    0
                }),
                ghs.len() == timestamps@.len(),
                !done ==> timestamps@.len() == h - min_height,
                done ==> timestamps@.len() == height - min_height + 1,
                forall|i: int|
                    0 <= i < ghs.len() ==> db.header_at((min_height + i) as u64) == Some(
                        #[trigger] ghs[i],
                    ),
                forall|i: int| 0 <= i < ghs.len() ==> timestamps@[i] == (#[trigger] ghs[i]).timestamp,
            decreases (height - h) * 2 + if done {
                0int
            } else {
                1int
            },
        {
            match db.fetch_header(h) {
                Ok(header) => {
                    timestamps.push(header.timestamp);
                    proof {
                        ghs = ghs.push(header);
                    }
                },
                Err(_) => {
                    return Err(ConsensusManagerError::ChainStorageError);
                },
            }
            if h == height {
                done = true;
            } else {
                h = h + 1;
            }
        }
        match get_median_timestamp(&timestamps) {
            Some(t) => {
                proof {
                    let lo = if height > self.constants().median_timestamp_count {
                        height - self.constants().median_timestamp_count
                    } else {
                        0
                    };
                    assert(timestamps@ =~= ghs.map_values(|bh: BlockHeader| bh.timestamp));
                    assert(ghs.len() == height - lo + 1 && (forall|i: int|
                        0 <= i < ghs.len() ==> db.header_at((lo + i) as u64) == Some(
                            #[trigger] ghs[i],
                        )) && (exists|s: Seq<u64>|
                        #[trigger] s.to_multiset() == ghs.map_values(
                            |bh: BlockHeader| bh.timestamp,
                        ).to_multiset() && ts_sorted(s) && s.len() == ghs.len() && t == s[(ghs.len()
                            - 1) as int / 2]));
                }
                Ok(t)
            },
            None => {
                proof {
                    assert(false);
                }
                Err(ConsensusManagerError::EmptyBlockchain)
            },
        }
    }

    /// The total coinbase value of a block: its emission reward plus its
    /// fees, saturating at the largest representable amount.
    pub fn calculate_coinbase_and_fees(&self, block: &Block) -> (r: MicroTari)
        ensures
            r == saturated(
                block_reward_spec(
                    self.emission_parameters().initial,
                    self.emission_parameters().decay,
                    self.emission_parameters().tail,
                    block.header.height,
                ) + saturated(fees_sum(block.kernel_fees@)),
            ),
    {
        let coinbase = self.emission.block_reward(block.header.height);
        let fees = block.calculate_fees();
        if coinbase > u64::MAX - fees {
            u64::MAX
        } else {
            coinbase + fees
        }
    }

    /// The currently configured chain network.
    pub fn network(&self) -> (r: Network)
        ensures
            r == self.configured_network(),
    {
        self.network
    }

    pub closed spec fn configured_network(&self) -> Network {
        self.network
    }
}

/// Builder for a consensus manager.
pub struct ConsensusManagerBuilder {
    pub consensus_constants: Option<ConsensusConstants>,
    pub network: Network,
    pub gen_block: Option<Block>,
}

impl ConsensusManagerBuilder {
    /// A new builder for the given network.
    pub fn new(network: Network) -> (r: ConsensusManagerBuilder)
        ensures
            r.consensus_constants is None,
            r.network == network,
            r.gen_block is None,
    {
        ConsensusManagerBuilder { consensus_constants: None, network, gen_block: None }
    }

    /// Use custom consensus constants.
    pub fn with_consensus_constants(self, consensus_constants: ConsensusConstants) -> (r:
        ConsensusManagerBuilder)
        ensures
            r.consensus_constants == Some(consensus_constants),
            r.network == self.network,
            r.gen_block == self.gen_block,
    {
        ConsensusManagerBuilder { consensus_constants: Some(consensus_constants), ..self }
    }

    /// Use a custom genesis block. It takes effect only on a local network.
    pub fn with_block(self, block: Block) -> (r: ConsensusManagerBuilder)
        ensures
            r.gen_block == Some(block),
            r.network == self.network,
            r.consensus_constants == self.consensus_constants,
    {
        ConsensusManagerBuilder { gen_block: Some(block), ..self }
    }

    /// Build the consensus manager: missing constants default to the
    /// network's own, and the emission schedule follows the constants.
    pub fn build(self) -> (r: ConsensusManager)
        ensures
            ({
                let c = match self.consensus_constants {
                    Some(c) => c,
                    None => network_constants(self.network),
                };
                &&& r.constants() == c
                &&& r.configured_network() == self.network
                &&& r.emission_parameters() == (EmissionSchedule {
                    initial: c.emission_initial,
                    decay: c.emission_decay,
                    tail: c.emission_tail,
                })
                &&& r.custom_block() == self.gen_block
            }),
    {
        let consensus_constants = match self.consensus_constants {
            Some(c) => c,
            None => self.network.create_consensus_constants(),
        };
        let emission = EmissionSchedule::new(
            consensus_constants.emission_initial,
            consensus_constants.emission_decay,
            consensus_constants.emission_tail,
        );
        ConsensusManager {
            consensus_constants,
            network: self.network,
            emission,
            gen_block: self.gen_block,
        }
    }
}

} // verus!
