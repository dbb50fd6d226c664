use vstd::prelude::*;

verus! {

/// Amounts are measured in micro-units of the wallet currency.
pub type MicroTari = u64;

/// Number of bytes in a spending key, a commitment and an output hash.
pub const KEY_LEN: usize = 32;

/// Feature set attached to an output: whether it is a coinbase output and the
/// block height before which it must not be spent.
#[derive(Clone, Copy, Debug)]
pub struct OutputFeatures {
    pub coinbase: bool,
    pub maturity: u64,
}

impl OutputFeatures {
    /// The feature set of an ordinary (non-coinbase) output with no maturity.
    pub fn default_features() -> (r: OutputFeatures)
        ensures
            r.coinbase == false,
            r.maturity == 0,
    {
        OutputFeatures { coinbase: false, maturity: 0 }
    }

    /// The feature set of a coinbase output that matures at the given height.
    pub fn create_coinbase(maturity_height: u64) -> (r: OutputFeatures)
        ensures
            r.coinbase == true,
            r.maturity == maturity_height,
    {
        OutputFeatures { coinbase: true, maturity: maturity_height }
    }
}

/// An output together with the wallet-side secret that unlocks it.
#[derive(Clone, Copy, Debug)]
pub struct UnblindedOutput {
    pub value: MicroTari,
    pub spending_key: [u8; 32],
    pub features: OutputFeatures,
}

impl UnblindedOutput {
    pub fn new(value: MicroTari, spending_key: [u8; 32], features: OutputFeatures) -> (r:
        UnblindedOutput)
        ensures
            r.value == value,
            r.spending_key == spending_key,
            r.features == features,
    {
        UnblindedOutput { value, spending_key, features }
    }
}

/// The chain-level form of an output, as far as this wallet reads it: the
/// feature set and the commitment that identifies the output on chain.
#[derive(Clone, Copy, Debug)]
pub struct TransactionOutput {
    pub features: OutputFeatures,
    pub commitment: [u8; 32],
}

/// A chain-level transaction input, identified by the commitment it spends.
#[derive(Clone, Copy, Debug)]
pub struct TransactionInput {
    pub features: OutputFeatures,
    pub commitment: [u8; 32],
}

/// The detailed balance of the wallet.
#[derive(Clone, Copy, Debug, PartialEq, Eq, Structural)]
pub struct Balance {
    /// The current balance that is available to spend.
    pub available_balance: MicroTari,
    /// Funds that are due to be received but have not yet been confirmed.
    pub pending_incoming_balance: MicroTari,
    /// Funds encumbered in pending outbound transactions not yet confirmed.
    pub pending_outgoing_balance: MicroTari,
}

/// Compare two 32-byte values for equality.
pub fn bytes32_eq(a: &[u8; 32], b: &[u8; 32]) -> (r: bool)
    ensures
        r == (a@ == b@),
{
    let mut i: usize = 0;
    while i < 32
        invariant
            i <= 32,
            forall|j: int| 0 <= j < i ==> a@[j] == b@[j],
        decreases 32 - i,
    {
        if a[i] != b[i] {
            assert(a@[i as int] != b@[i as int]);
            return false;
        }
        i = i + 1;
    }
    proof {
        assert(a@.len() == 32);
        assert(b@.len() == 32);
        assert(a@ =~= b@);
    }
    true
}

} // verus!
