//! The output manager service: it owns the store and the key manager, serves
//! API requests, assembles outbound transaction drafts, and reconciles the
//! unspent set with a remote base node. Handlers are plain state transitions;
//! the surrounding event loop performs the sends, sleeps and replies.

use vstd::prelude::*;

use crate::error::OutputManagerError;
use crate::key_manager::KeyManager;
use crate::key_manager::derived_key_of;
use crate::key_manager::seed_nibble;
use crate::key_manager::seed_word_for;
use crate::key_manager::seed_words_of_master;
use crate::key_manager::u64_le_bytes;
use crate::key_manager::push_u64_le;
use crate::selection::Fee;
use crate::selection::fee_for;
use crate::selection::sort_key;
use crate::selection::sort_records;
use crate::store::KeyManagerState;
use crate::store::KmModel;
use crate::store::OutputRecord;
use crate::store::OutputStatus;
use crate::store::OutputStore;
use crate::store::PendingTxRecord;
use crate::store::RecModel;
use crate::store::StoreModel;
use crate::store::bytes_views;
use crate::store::cancel_all_recs;
use crate::store::cancel_recs;
use crate::store::clear_short_term_flag;
use crate::store::commitment_known;
use crate::store::confirm_enc_recs;
use crate::store::confirm_tx_recs;
use crate::store::filter_status;
use crate::store::filter_tx_incoming;
use crate::store::filter_tx_outbound;
use crate::store::incoming_rec;
use crate::store::models;
use crate::store::pending_contains;
use crate::store::remove_many_pending;
use crate::store::remove_pending;
use crate::store::select_txs;
use crate::store::sum_all;
use crate::store::sum_status;
use crate::store::store_wf;
use crate::types::Balance;
use crate::types::MicroTari;
use crate::types::OutputFeatures;
use crate::types::TransactionInput;
use crate::types::TransactionOutput;
use crate::types::UnblindedOutput;
use crate::types::bytes32_eq;
use crate::wrappers::blake256_of;
use crate::wrappers::blake2b_256;
use crate::wrappers::canonical_scalar;
use crate::wrappers::commit_of;
use crate::wrappers::pedersen_commit;
use crate::wrappers::random_bytes_64;
use crate::wrappers::random_u64;
use crate::wrappers::scalar_from_wide_bytes;

verus! {

/// Service configuration: how long to wait for a base node query before
/// retrying, in milliseconds.
#[derive(Clone, Copy, Debug, PartialEq, Eq, Structural)]
pub struct OutputManagerServiceConfig {
    pub base_node_query_timeout_ms: u64,
}

/// Strategies for choosing which unspent outputs fulfil a transaction.
#[derive(Clone, Copy, Debug, PartialEq, Eq, Structural)]
pub enum UTXOSelectionStrategy {
    /// Start from the smallest outputs and work upwards.
    Smallest,
    /// Order by maturity first, then by value, to avoid locked-up outputs.
    MaturityThenSmallest,
}

/// Events published to subscribers after the state transition they describe.
#[derive(Clone, Debug, PartialEq)]
pub enum OutputManagerEvent {
    Error(String),
    ReceiveBaseNodeResponse(u64),
    BaseNodeSyncRequestTimedOut(u64),
}

/// An in-flight query to the base node about the wallet's unspent outputs.
pub struct PendingUtxoQuery {
    pub request_key: u64,
    pub hashes: Vec<[u8; 32]>,
}

/// Model of an in-flight query.
#[verifier::ext_equal]
pub ghost struct QueryModel {
    pub key: u64,
    pub hashes: Seq<Seq<u8>>,
}

impl View for PendingUtxoQuery {
    type V = QueryModel;

    open spec fn view(&self) -> QueryModel {
        QueryModel { key: self.request_key, hashes: self.hashes@.map_values(|h: [u8; 32]| h@) }
    }
}

/// An outbound fetch-utxos request, ready for the event loop to send to the
/// base node and to schedule the matching timeout ticket.
pub struct OutboundSyncRequest {
    pub destination: [u8; 32],
    pub request_key: u64,
    pub hashes: Vec<[u8; 32]>,
    pub timeout_ms: u64,
}

/// An output as decoded from a base node response. The commitment length is
/// not yet checked: a malformed output is dropped, the rest are processed.
pub struct RemoteOutput {
    pub features: OutputFeatures,
    pub commitment: Vec<u8>,
}

/// An inbound base node response. `outputs` is `None` for response variants
/// this service does not consume; those are silently dropped.
pub struct BaseNodeServiceResponse {
    pub request_key: u64,
    pub outputs: Option<Vec<RemoteOutput>>,
}

/// A pending transaction as reported to callers.
pub struct PendingTransactionOutputs {
    pub tx_id: u64,
    pub outputs_to_be_spent: Vec<UnblindedOutput>,
    pub outputs_to_be_received: Vec<UnblindedOutput>,
    pub timestamp: u64,
}

/// A sender transaction draft: what the negotiation protocol needs to carry
/// onwards, with the change already decided.
pub struct SenderTransactionProtocol {
    pub tx_id: u64,
    pub amount: MicroTari,
    pub fee: MicroTari,
    pub lock_height: u64,
    pub message: String,
    pub inputs: Vec<UnblindedOutput>,
    pub change_output: Option<UnblindedOutput>,
    pub offset: [u8; 32],
    pub nonce: [u8; 32],
    pub amount_to_self: MicroTari,
}

/// A fully assembled transaction, as produced by a coin split.
pub struct Transaction {
    pub inputs: Vec<TransactionInput>,
    pub outputs: Vec<TransactionOutput>,
    pub fee: MicroTari,
    pub lock_height: u64,
    pub offset: [u8; 32],
}

/// The byte string whose digest identifies an output on chain: the coinbase
/// flag, the maturity and the commitment.
pub open spec fn out_hash_material(coinbase: bool, maturity: u64, commitment: Seq<u8>) -> Seq<u8> {
    seq![if coinbase { 1u8 } else { 0u8 }] + u64_le_bytes(maturity) + commitment
}

/// The chain-level hash of a stored output.
pub open spec fn rec_hash(r: RecModel) -> Seq<u8> {
    blake256_of(out_hash_material(r.coinbase, r.maturity, r.commitment))
}

/// Compute the chain-level hash of an output form.
pub fn output_hash(features: &OutputFeatures, commitment: &[u8; 32]) -> (r: [u8; 32])
    ensures
        r@ == blake256_of(out_hash_material(features.coinbase, features.maturity, commitment@)),
{
    let mut data: Vec<u8> = Vec::new();
    if features.coinbase {
        data.push(1u8);
    } else {
        data.push(0u8);
    }
    push_u64_le(&mut data, features.maturity);
    let mut i: usize = 0;
    while i < 32
        invariant
            i <= 32,
            data@ == seq![if features.coinbase { 1u8 } else { 0u8 }] + u64_le_bytes(
                features.maturity,
            ) + commitment@.take(i as int),
        decreases 32 - i,
    {
        data.push(commitment[i]);
        proof {
            assert(data@ =~= seq![if features.coinbase { 1u8 } else { 0u8 }] + u64_le_bytes(
                features.maturity,
            ) + commitment@.take(i as int + 1));
        }
        i = i + 1;
    }
    proof {
        assert(commitment@.take(32) =~= commitment@);
        assert(data@ =~= out_hash_material(features.coinbase, features.maturity, commitment@));
    }
    blake2b_256(data.as_slice())
}

/// The key that the key manager issues next.
pub open spec fn next_key_of(km: KmModel) -> Seq<u8> {
    derived_key_of(km.master, km.branch, (km.index + 1) as u64)
}

/// The key manager state after one issuance.
pub open spec fn advanced(km: KmModel) -> KmModel {
    KmModel { index: (km.index + 1) as u64, ..km }
}

/// Whether a commitment appears among chain-level transaction inputs.
pub open spec fn commitment_in_inputs(c: Seq<u8>, inputs: Seq<TransactionInput>) -> bool {
    exists|i: int| 0 <= i < inputs.len() && (#[trigger] inputs[i]).commitment@ == c
}

/// Whether a commitment appears among chain-level transaction outputs.
pub open spec fn commitment_in_outputs(c: Seq<u8>, outputs: Seq<TransactionOutput>) -> bool {
    exists|i: int| 0 <= i < outputs.len() && (#[trigger] outputs[i]).commitment@ == c
}

/// Whether a transaction seen on chain accounts for everything the wallet's
/// pending record expects: every output to be spent appears among the inputs
/// and every output to be received among the outputs, by commitment.
pub open spec fn tx_matches(
    recs: Seq<RecModel>,
    tx_id: u64,
    inputs: Seq<TransactionInput>,
    outputs: Seq<TransactionOutput>,
) -> bool {
    &&& forall|i: int|
        0 <= i < filter_tx_outbound(recs, tx_id).len() ==> commitment_in_inputs(
            (#[trigger] filter_tx_outbound(recs, tx_id)[i]).commitment,
            inputs,
        )
    &&& forall|i: int|
        0 <= i < filter_tx_incoming(recs, tx_id).len() ==> commitment_in_outputs(
            (#[trigger] filter_tx_incoming(recs, tx_id)[i]).commitment,
            outputs,
        )
}

/// Whether an output value carries the data of a record model.
pub open spec fn out_matches(o: UnblindedOutput, m: RecModel) -> bool {
    &&& o.value == m.value
    &&& o.spending_key@ == m.key
    &&& o.features.coinbase == m.coinbase
    &&& o.features.maturity == m.maturity
}

/// Whether a list of outputs carries the data of a list of record models.
pub open spec fn outs_match(os: Seq<UnblindedOutput>, ms: Seq<RecModel>) -> bool {
    &&& os.len() == ms.len()
    &&& forall|i: int| 0 <= i < os.len() ==> out_matches(#[trigger] os[i], ms[i])
}

/// Whether the maturity-first ordering is in force.
pub open spec fn by_maturity_strategy(strategy: UTXOSelectionStrategy) -> bool {
    strategy == UTXOSelectionStrategy::MaturityThenSmallest
}

/// After selecting `k` outputs, the selection covers the amount and the fee
/// of a transaction without a change output exactly.
pub open spec fn stop_no_change(
    sel: Seq<RecModel>,
    k: int,
    amount: u64,
    fee_per_gram: u64,
    output_count: int,
) -> bool {
    sum_all(sel.take(k)) == amount + fee_for(fee_per_gram, 1, k, output_count)
}

/// After selecting `k` outputs, the selection covers the amount and the fee
/// of a transaction with one more, change, output.
pub open spec fn stop_with_change(
    sel: Seq<RecModel>,
    k: int,
    amount: u64,
    fee_per_gram: u64,
    output_count: int,
) -> bool {
    sum_all(sel.take(k)) >= amount + fee_for(fee_per_gram, 1, k, output_count + 1)
}

/// Selection stops as soon as either condition holds.
pub open spec fn sel_stop(
    sel: Seq<RecModel>,
    k: int,
    amount: u64,
    fee_per_gram: u64,
    output_count: int,
) -> bool {
    stop_no_change(sel, k, amount, fee_per_gram, output_count) || stop_with_change(
        sel,
        k,
        amount,
        fee_per_gram,
        output_count,
    )
}

/// Whether a record with the commitment is among the selected.
pub open spec fn sel_has_commitment(sel: Seq<RecModel>, c: Seq<u8>) -> bool {
    exists|i: int| 0 <= i < sel.len() && (#[trigger] sel[i]).commitment == c
}

/// Whether a record occurs in the store's records.
pub open spec fn rec_member(recs: Seq<RecModel>, r: RecModel) -> bool {
    exists|j: int| 0 <= j < recs.len() && recs[j] == r
}

/// The commitments of the selected records.
pub open spec fn commitments_of(sel: Seq<RecModel>) -> Seq<Seq<u8>> {
    sel.map_values(|r: RecModel| r.commitment)
}

/// What `select_utxos` guarantees of a successful selection: the selected
/// records are distinct unspent outputs of the store, taken smallest first
/// under the strategy's ordering, the selection stops at the first prefix
/// that covers amount and fee, and the change flag reports which stopping
/// rule fired.
pub open spec fn selection_valid(
    recs: Seq<RecModel>,
    sel: Seq<RecModel>,
    require_change: bool,
    amount: u64,
    fee_per_gram: u64,
    output_count: int,
    strategy: UTXOSelectionStrategy,
) -> bool {
    &&& forall|i: int|
        0 <= i < sel.len() ==> (#[trigger] sel[i]).status == OutputStatus::Unspent && rec_member(
            recs,
            sel[i],
        )
    &&& forall|i: int, j: int|
        0 <= i < j < sel.len() ==> (#[trigger] sel[i]).commitment != (#[trigger] sel[j]).commitment
    &&& forall|i: int, j: int|
        0 <= i < j < sel.len() ==> sort_key(#[trigger] sel[i], by_maturity_strategy(strategy))
            <= sort_key(#[trigger] sel[j], by_maturity_strategy(strategy))
    &&& forall|i: int, j: int|
        0 <= i < sel.len() && 0 <= j < recs.len() && (#[trigger] recs[j]).status
            == OutputStatus::Unspent && !sel_has_commitment(sel, recs[j].commitment) ==> sort_key(
            #[trigger] sel[i],
            by_maturity_strategy(strategy),
        ) <= sort_key(recs[j], by_maturity_strategy(strategy))
    &&& sum_all(sel) <= sum_status(recs, OutputStatus::Unspent)
    &&& (sel.len() == 0 ==> amount == 0 && require_change == false && filter_status(
        recs,
        OutputStatus::Unspent,
    ).len() == 0)
    &&& (sel.len() > 0 ==> {
        &&& sel_stop(sel, sel.len() as int, amount, fee_per_gram, output_count)
        &&& require_change == (!stop_no_change(sel, sel.len() as int, amount, fee_per_gram,
        output_count) && stop_with_change(sel, sel.len() as int, amount, fee_per_gram, output_count))
        &&& forall|k: int|
            1 <= k < sel.len() ==> !sel_stop(sel, k, amount, fee_per_gram, output_count)
    })
}

/// The keys of the unspent pool in ascending order: the canonical
/// arrangement that selection walks.
pub open spec fn sorted_unspent_keys(recs: Seq<RecModel>, strategy: UTXOSelectionStrategy) -> Seq<
    int,
> {
    crate::selection::rec_keys(
        filter_status(recs, OutputStatus::Unspent),
        by_maturity_strategy(strategy),
    ).sort_by(crate::selection::int_leq())
}

/// The stopping rules, expressed over the ascending key list.
pub open spec fn keys_stop_no_change(
    ks: Seq<int>,
    k: int,
    amount: u64,
    fee_per_gram: u64,
    output_count: int,
) -> bool {
    crate::selection::key_vals_sum(ks.take(k)) == amount + fee_for(fee_per_gram, 1, k, output_count)
}

pub open spec fn keys_stop_with_change(
    ks: Seq<int>,
    k: int,
    amount: u64,
    fee_per_gram: u64,
    output_count: int,
) -> bool {
    crate::selection::key_vals_sum(ks.take(k)) >= amount + fee_for(
        fee_per_gram,
        1,
        k,
        output_count + 1,
    )
}

pub open spec fn keys_stop(
    ks: Seq<int>,
    k: int,
    amount: u64,
    fee_per_gram: u64,
    output_count: int,
) -> bool {
    keys_stop_no_change(ks, k, amount, fee_per_gram, output_count) || keys_stop_with_change(
        ks,
        k,
        amount,
        fee_per_gram,
        output_count,
    )
}

/// When no selection at all can fund the request: with nothing to spend any
/// positive amount is unfundable, and otherwise no prefix of the ascending
/// pool satisfies either stopping rule.
pub open spec fn cannot_cover(
    recs: Seq<RecModel>,
    amount: u64,
    fee_per_gram: u64,
    output_count: int,
    strategy: UTXOSelectionStrategy,
) -> bool {
    let ks = sorted_unspent_keys(recs, strategy);
    if ks.len() == 0 {
        amount > 0
    } else {
        forall|k: int| 1 <= k <= ks.len() ==> !keys_stop(ks, k, amount, fee_per_gram, output_count)
    }
}

/// The first prefix length at which selection stops, starting the search at
/// `k`; zero when no prefix stops.
pub open spec fn first_stop_from(
    ks: Seq<int>,
    k: int,
    amount: u64,
    fee_per_gram: u64,
    output_count: int,
) -> int
    decreases ks.len() + 1 - k,
{
    if k < 1 || k > ks.len() {
        0
    } else if keys_stop(ks, k, amount, fee_per_gram, output_count) {
        k
    } else {
        first_stop_from(ks, k + 1, amount, fee_per_gram, output_count)
    }
}

/// The number of outputs a selection takes; zero when it takes none.
pub open spec fn selection_first_stop(
    recs: Seq<RecModel>,
    amount: u64,
    fee_per_gram: u64,
    output_count: int,
    strategy: UTXOSelectionStrategy,
) -> int {
    first_stop_from(sorted_unspent_keys(recs, strategy), 1, amount, fee_per_gram, output_count)
}

/// Whether a successful selection reports that a change output is required:
/// the first stopping prefix did not hit the no-change target exactly.
pub open spec fn selection_needs_change(
    recs: Seq<RecModel>,
    amount: u64,
    fee_per_gram: u64,
    output_count: int,
    strategy: UTXOSelectionStrategy,
) -> bool {
    let ks = sorted_unspent_keys(recs, strategy);
    let k = selection_first_stop(recs, amount, fee_per_gram, output_count, strategy);
    k >= 1 && !keys_stop_no_change(ks, k, amount, fee_per_gram, output_count)
}

proof fn lemma_first_stop_from_is(
    ks: Seq<int>,
    s: int,
    i: int,
    amount: u64,
    fee_per_gram: u64,
    output_count: int,
)
    requires
        1 <= s <= i <= ks.len(),
        keys_stop(ks, i, amount, fee_per_gram, output_count),
        forall|j: int| s <= j < i ==> !keys_stop(ks, j, amount, fee_per_gram, output_count),
    ensures
        first_stop_from(ks, s, amount, fee_per_gram, output_count) == i,
    decreases i - s,
{
    if s < i {
        lemma_first_stop_from_is(ks, s + 1, i, amount, fee_per_gram, output_count);
    }
}

/// What a non-zero first stop means: it is a stopping prefix and no shorter
/// prefix stops.
pub proof fn lemma_first_stop_sound(
    ks: Seq<int>,
    s: int,
    amount: u64,
    fee_per_gram: u64,
    output_count: int,
)
    requires
        1 <= s,
    ensures
        first_stop_from(ks, s, amount, fee_per_gram, output_count) == 0 || (s <= first_stop_from(
            ks,
            s,
            amount,
            fee_per_gram,
            output_count,
        ) <= ks.len() && keys_stop(
            ks,
            first_stop_from(ks, s, amount, fee_per_gram, output_count),
            amount,
            fee_per_gram,
            output_count,
        ) && forall|j: int|
            s <= j < first_stop_from(ks, s, amount, fee_per_gram, output_count) ==> !keys_stop(
                ks,
                j,
                amount,
                fee_per_gram,
                output_count,
            )),
    decreases ks.len() + 1 - s,
{
    if s <= ks.len() && !keys_stop(ks, s, amount, fee_per_gram, output_count) {
        lemma_first_stop_sound(ks, s + 1, amount, fee_per_gram, output_count);
    }
}

/// Selection stops at `i` exactly when `i` is the first stopping prefix.
pub proof fn lemma_first_stop_is(
    ks: Seq<int>,
    i: int,
    amount: u64,
    fee_per_gram: u64,
    output_count: int,
)
    requires
        1 <= i <= ks.len(),
        keys_stop(ks, i, amount, fee_per_gram, output_count),
        forall|j: int| 1 <= j < i ==> !keys_stop(ks, j, amount, fee_per_gram, output_count),
    ensures
        first_stop_from(ks, 1, amount, fee_per_gram, output_count) == i,
{
    lemma_first_stop_from_is(ks, 1, i, amount, fee_per_gram, output_count);
}

proof fn lemma_first_stop_from_none(
    ks: Seq<int>,
    s: int,
    amount: u64,
    fee_per_gram: u64,
    output_count: int,
)
    requires
        1 <= s,
        forall|j: int| s <= j <= ks.len() ==> !keys_stop(ks, j, amount, fee_per_gram, output_count),
    ensures
        first_stop_from(ks, s, amount, fee_per_gram, output_count) == 0,
    decreases ks.len() + 1 - s,
{
    if s <= ks.len() {
        lemma_first_stop_from_none(ks, s + 1, amount, fee_per_gram, output_count);
    }
}

/// When no prefix stops, the first stop is zero.
pub proof fn lemma_first_stop_none(ks: Seq<int>, amount: u64, fee_per_gram: u64, output_count: int)
    requires
        forall|j: int| 1 <= j <= ks.len() ==> !keys_stop(ks, j, amount, fee_per_gram, output_count),
    ensures
        first_stop_from(ks, 1, amount, fee_per_gram, output_count) == 0,
{
    lemma_first_stop_from_none(ks, 1, amount, fee_per_gram, output_count);
}

/// Link between an executable sorted arrangement of the unspent records and
/// the canonical ascending key list of the pool: equal keys, and equal
/// prefix value sums.
pub proof fn lemma_selection_bridge(
    recs: Seq<RecModel>,
    cs: Seq<RecModel>,
    strategy: UTXOSelectionStrategy,
)
    requires
        cs.to_multiset() == filter_status(recs, OutputStatus::Unspent).to_multiset(),
        forall|i: int, j: int|
            0 <= i < j < cs.len() ==> sort_key(#[trigger] cs[i], by_maturity_strategy(strategy))
                <= sort_key(#[trigger] cs[j], by_maturity_strategy(strategy)),
    ensures
        sorted_unspent_keys(recs, strategy) =~= crate::selection::rec_keys(
            cs,
            by_maturity_strategy(strategy),
        ),
        sorted_unspent_keys(recs, strategy).len() == cs.len(),
        forall|k: int|
            0 <= k <= cs.len() ==> crate::selection::key_vals_sum(
                #[trigger] sorted_unspent_keys(recs, strategy).take(k),
            ) == sum_all(cs.take(k)),
{
    let bm = by_maturity_strategy(strategy);
    let fl = filter_status(recs, OutputStatus::Unspent);
    let lq = crate::selection::int_leq();
    crate::selection::lemma_int_leq_total();
    crate::selection::rec_keys(fl, bm).lemma_sort_by_ensures(lq);
    crate::selection::lemma_rec_keys_multiset(cs, fl, bm);
    let kc = crate::selection::rec_keys(cs, bm);
    assert(vstd::relations::sorted_by(kc, lq)) by {
        assert forall|i: int, j: int| 0 <= i < j < kc.len() implies #[trigger] lq(
            kc[i],
            kc[j],
        ) by {
            assert(kc[i] == sort_key(cs[i], bm));
            assert(kc[j] == sort_key(cs[j], bm));
        }
    }
    crate::selection::lemma_sorted_ints_equal(kc, sorted_unspent_keys(recs, strategy));
    assert forall|k: int|
        0 <= k <= cs.len() implies crate::selection::key_vals_sum(
        #[trigger] sorted_unspent_keys(recs, strategy).take(k),
    ) == sum_all(cs.take(k)) by {
        assert(sorted_unspent_keys(recs, strategy).take(k) =~= kc.take(k));
        assert(kc.take(k) =~= crate::selection::rec_keys(cs.take(k), bm));
        crate::selection::lemma_sum_as_keys(cs.take(k), bm);
    }
}

/// When selection fails: with no unspent outputs any positive amount is
/// unfundable; otherwise even the whole unspent pool neither hits the
/// no-change target exactly nor covers the with-change target.
pub open spec fn insufficient_funds(
    recs: Seq<RecModel>,
    amount: u64,
    fee_per_gram: u64,
    output_count: int,
) -> bool {
    if filter_status(recs, OutputStatus::Unspent).len() == 0 {
        amount > 0
    } else {
        let n = filter_status(recs, OutputStatus::Unspent).len() as int;
        let total = sum_status(recs, OutputStatus::Unspent);
        total != amount + fee_for(fee_per_gram, 1, n, output_count) && total < amount + fee_for(
            fee_per_gram,
            1,
            n,
            output_count + 1,
        )
    }
}

/// Model of the whole service.
#[verifier::ext_equal]
pub ghost struct ServiceModel {
    pub store: StoreModel,
    pub km: KmModel,
    pub base_node_key: Option<Seq<u8>>,
    pub queries: Seq<QueryModel>,
    pub timeout_ms: u64,
}

/// No two in-flight queries share a request key.
pub open spec fn queries_distinct(queries: Seq<QueryModel>) -> bool {
    forall|i: int, j: int|
        0 <= i < j < queries.len() ==> (#[trigger] queries[i]).key != (#[trigger] queries[j]).key
}

/// Whether an in-flight query exists for the request key.
pub open spec fn queries_contain(queries: Seq<QueryModel>, key: u64) -> bool {
    exists|i: int| 0 <= i < queries.len() && (#[trigger] queries[i]).key == key
}

/// Well-formedness of the service: the store is well formed, the in-memory
/// key manager mirrors the persisted state, query keys are distinct, and
/// queries exist only once a base node key is known.
pub open spec fn svc_wf(m: ServiceModel) -> bool {
    &&& store_wf(m.store)
    &&& m.store.key_state == Some(m.km)
    &&& queries_distinct(m.queries)
    &&& m.queries.len() > 0 ==> m.base_node_key is Some
}

/// The value of the change output a send for `amount` creates, over the
/// canonical ascending key list and the first stopping prefix.
pub open spec fn prepare_change_value(recs: Seq<RecModel>, amount: u64, fee_per_gram: u64) -> int {
    let ks = sorted_unspent_keys(recs, UTXOSelectionStrategy::MaturityThenSmallest);
    let k = selection_first_stop(
        recs,
        amount,
        fee_per_gram,
        1,
        UTXOSelectionStrategy::MaturityThenSmallest,
    );
    crate::selection::key_vals_sum(ks.take(k)) - amount - fee_for(fee_per_gram, 1, k, 2)
}

/// What a successful `prepare_transaction_to_send` promises, witnessed by
/// the sequence of selected record models.
pub open spec fn prepare_witness(
    m0: ServiceModel,
    stp: SenderTransactionProtocol,
    amount: u64,
    fee_per_gram: u64,
    lock_height: Option<u64>,
    message: Seq<char>,
    now_ms: u64,
    m1: ServiceModel,
    sel: Seq<RecModel>,
) -> bool {
    &&& selection_valid(
        m0.store.recs,
        sel,
        stp.change_output is Some,
        amount,
        fee_per_gram,
        1,
        UTXOSelectionStrategy::MaturityThenSmallest,
    )
    &&& outs_match(stp.inputs@, sel)
    &&& stp.amount == amount
    &&& stp.lock_height == (match lock_height {
        Some(h) => h,
        None => 0,
    })
    &&& stp.message@ == message
    &&& (match stp.change_output {
        None => {
            &&& (fee_for(fee_per_gram, 1, sel.len() as int, 1) <= u64::MAX ==> stp.fee == fee_for(
                fee_per_gram,
                1,
                sel.len() as int,
                1,
            ))
            &&& (fee_for(fee_per_gram, 1, sel.len() as int, 1) > u64::MAX ==> stp.fee == u64::MAX)
            &&& stp.amount_to_self == 0
            &&& m1 == (ServiceModel {
                store: StoreModel {
                    recs: crate::store::mark_encumbered_recs(
                        m0.store.recs,
                        commitments_of(sel),
                        stp.tx_id,
                    ),
                    pending: m0.store.pending.push(
                        PendingTxRecord { tx_id: stp.tx_id, timestamp: now_ms, short_term: true },
                    ),
                    ..m0.store
                },
                ..m0
            })
        },
        Some(ch) => {
            &&& stp.fee == fee_for(fee_per_gram, 1, sel.len() as int, 2)
            &&& ch.value == sum_all(sel) - amount - fee_for(fee_per_gram, 1, sel.len() as int, 2)
            &&& ch.spending_key@ == next_key_of(m0.km)
            &&& ch.features.coinbase == false
            &&& ch.features.maturity == 0
            &&& stp.amount_to_self == ch.value
            &&& m1 == (ServiceModel {
                km: advanced(m0.km),
                store: StoreModel {
                    key_state: Some(advanced(m0.km)),
                    recs: crate::store::mark_encumbered_recs(
                        m0.store.recs,
                        commitments_of(sel),
                        stp.tx_id,
                    ) + seq![incoming_rec(ch, commit_of(ch.spending_key@, ch.value), stp.tx_id)],
                    pending: m0.store.pending.push(
                        PendingTxRecord { tx_id: stp.tx_id, timestamp: now_ms, short_term: true },
                    ),
                    ..m0.store
                },
                ..m0
            })
        },
    })
}

/// The key manager state after several issuances.
pub open spec fn advanced_by(km: KmModel, k: int) -> KmModel {
    KmModel { index: (km.index + k) as u64, ..km }
}

/// The expected incoming record created by the `i`-th output of a coin
/// split: its key is the `i`-th freshly derived key, its value the split
/// amount, or the residual change for the final extra output.
pub open spec fn split_rec(km: KmModel, tx_id: u64, i: int, value: u64) -> RecModel {
    RecModel {
        value,
        key: derived_key_of(km.master, km.branch, (km.index + 1 + i) as u64),
        coinbase: false,
        maturity: 0,
        commitment: commit_of(derived_key_of(km.master, km.branch, (km.index + 1 + i) as u64), value),
        status: OutputStatus::PendingIncoming,
        tx_id: Some(tx_id),
    }
}

/// The expected incoming records of a coin split: `split_count` equal
/// outputs, plus one residual change output when change is required.
pub open spec fn split_recs(
    km: KmModel,
    tx_id: u64,
    split_count: int,
    amount_per_split: u64,
    output_count: int,
    change: u64,
) -> Seq<RecModel> {
    Seq::new(
        output_count as nat,
        |i: int|
            split_rec(
                km,
                tx_id,
                i,
                if i < split_count {
                    amount_per_split
                } else {
                    change
                },
            ),
    )
}

/// Whether a coin split for `split_count` outputs of `amount_per_split` needs
/// a residual change output.
pub open spec fn coin_split_needs_change(
    recs: Seq<RecModel>,
    amount_per_split: u64,
    split_count: int,
    fee_per_gram: u64,
) -> bool {
    selection_needs_change(
        recs,
        (amount_per_split * split_count) as u64,
        fee_per_gram,
        split_count,
        UTXOSelectionStrategy::MaturityThenSmallest,
    )
}

/// How many outputs the split creates: the splits, plus one change output
/// when one is needed.
pub open spec fn coin_split_output_count(
    recs: Seq<RecModel>,
    amount_per_split: u64,
    split_count: int,
    fee_per_gram: u64,
) -> int {
    split_count + if coin_split_needs_change(recs, amount_per_split, split_count, fee_per_gram) {
        1int
    } else {
        0int
    }
}

/// When a coin split cannot be funded: the split target or its arithmetic
/// exceeds the representable range, no prefix of the unspent pool covers the
/// target, or the pool is empty and even the fee of an input-less split is
/// not zero.
pub open spec fn coin_split_cannot_fund(
    recs: Seq<RecModel>,
    amount_per_split: u64,
    split_count: int,
    fee_per_gram: u64,
) -> bool {
    ||| split_count >= usize::MAX - 1
    ||| amount_per_split * split_count > u64::MAX
    ||| cannot_cover(
        recs,
        (amount_per_split * split_count) as u64,
        fee_per_gram,
        split_count,
        UTXOSelectionStrategy::MaturityThenSmallest,
    )
    ||| (sorted_unspent_keys(recs, UTXOSelectionStrategy::MaturityThenSmallest).len() == 0
        && fee_for(fee_per_gram, 1, 0, split_count) != 0)
}

/// The total value the split's outputs carry: what was drawn from the
/// wallet, less the fee.
pub open spec fn coin_split_outputs_value(
    recs: Seq<RecModel>,
    amount_per_split: u64,
    split_count: int,
    fee_per_gram: u64,
) -> int {
    let ks = sorted_unspent_keys(recs, UTXOSelectionStrategy::MaturityThenSmallest);
    let k = selection_first_stop(
        recs,
        (amount_per_split * split_count) as u64,
        fee_per_gram,
        split_count,
        UTXOSelectionStrategy::MaturityThenSmallest,
    );
    crate::selection::key_vals_sum(ks.take(k)) - fee_for(
        fee_per_gram,
        1,
        k,
        coin_split_output_count(recs, amount_per_split, split_count, fee_per_gram),
    )
}

/// The residual change of a coin split.
pub open spec fn coin_split_change(
    recs: Seq<RecModel>,
    amount_per_split: u64,
    split_count: int,
    fee_per_gram: u64,
) -> int {
    coin_split_outputs_value(recs, amount_per_split, split_count, fee_per_gram) - amount_per_split
        * split_count
}

/// The value of the `i`-th output of a split.
pub open spec fn coin_split_value_at(
    amount_per_split: u64,
    split_count: int,
    change: int,
    i: int,
) -> int {
    if i < split_count {
        amount_per_split as int
    } else {
        change
    }
}

/// The commitment of the `i`-th output a split would create.
pub open spec fn split_commitment(
    km: KmModel,
    amount_per_split: u64,
    split_count: int,
    change: int,
    i: int,
) -> Seq<u8> {
    commit_of(
        derived_key_of(km.master, km.branch, (km.index + 1 + i) as u64),
        coin_split_value_at(amount_per_split, split_count, change, i) as u64,
    )
}

/// Sum of the first `k` output values of a split: the split amount for each
/// of the first `split_count`, the change for any beyond them.
pub open spec fn split_values_sum(split_count: int, amount_per_split: int, change: int, k: int) -> int
    decreases k,
{
    if k <= 0 {
        0
    } else {
        split_values_sum(split_count, amount_per_split, change, k - 1) + if k - 1 < split_count {
            amount_per_split
        } else {
            change
        }
    }
}

/// The length of the canonical ascending key list is the size of the unspent
/// partition.
pub proof fn lemma_sorted_keys_len(recs: Seq<RecModel>, strategy: UTXOSelectionStrategy)
    ensures
        sorted_unspent_keys(recs, strategy).len() == filter_status(
            recs,
            OutputStatus::Unspent,
        ).len(),
{
    let bm = by_maturity_strategy(strategy);
    let fl = filter_status(recs, OutputStatus::Unspent);
    crate::selection::lemma_int_leq_total();
    crate::selection::rec_keys(fl, bm).lemma_sort_by_ensures(crate::selection::int_leq());
    crate::selection::rec_keys(fl, bm).to_multiset_ensures();
    sorted_unspent_keys(recs, strategy).to_multiset_ensures();
}

/// What a successful `create_coin_split` promises, witnessed by the selected
/// record models.
#[verifier::opaque]
pub open spec fn coin_split_witness(
    m0: ServiceModel,
    tx_id: u64,
    tx: Transaction,
    fee: u64,
    utxo_total: u64,
    amount_per_split: u64,
    split_count: int,
    fee_per_gram: u64,
    lock_height: Option<u64>,
    now_ms: u64,
    m1: ServiceModel,
    sel: Seq<RecModel>,
    require_change: bool,
) -> bool {
    let output_count: int = if require_change {
        split_count + 1
    } else {
        split_count
    };
    let change: u64 = (utxo_total - fee - amount_per_split * split_count) as u64;
    &&& selection_valid(
        m0.store.recs,
        sel,
        require_change,
        (amount_per_split * split_count) as u64,
        fee_per_gram,
        split_count,
        UTXOSelectionStrategy::MaturityThenSmallest,
    )
    &&& utxo_total == sum_all(sel)
    &&& fee == fee_for(fee_per_gram, 1, sel.len() as int, output_count)
    &&& utxo_total >= fee + amount_per_split * split_count
    &&& tx.fee == fee
    &&& tx.lock_height == (match lock_height {
        Some(h) => h,
        None => 0,
    })
    &&& tx.inputs@.len() == sel.len()
    &&& (forall|i: int|
        0 <= i < sel.len() ==> (#[trigger] tx.inputs@[i]).commitment@ == sel[i].commitment)
    &&& tx.outputs@.len() == output_count
    &&& (forall|i: int|
        0 <= i < output_count ==> (#[trigger] tx.outputs@[i]).commitment@ == split_rec(
            m0.km,
            tx_id,
            i,
            if i < split_count {
                amount_per_split
            } else {
                change
            },
        ).commitment)
    &&& m0.km.index + output_count <= u64::MAX
    &&& m1 == (ServiceModel {
        km: advanced_by(m0.km, output_count),
        store: StoreModel {
            key_state: Some(advanced_by(m0.km, output_count)),
            recs: crate::store::confirm_enc_recs(
                crate::store::mark_encumbered_recs(m0.store.recs, commitments_of(sel), tx_id)
                    + split_recs(m0.km, tx_id, split_count, amount_per_split, output_count, change),
                tx_id,
            ),
            pending: m0.store.pending.push(
                PendingTxRecord { tx_id, timestamp: now_ms, short_term: false },
            ),
            ..m0.store
        },
        ..m0
    })
}

/// Assembling the coin-split contract from the facts the phases provide.
#[verifier::rlimit(100)]
#[verifier::spinoff_prover]
proof fn lemma_coin_split_witness_assemble(
    m0: ServiceModel,
    mend: ServiceModel,
    selm: Seq<RecModel>,
    outputs: Seq<UnblindedOutput>,
    out_cs: Seq<[u8; 32]>,
    spent_views: Seq<Seq<u8>>,
    tx: Transaction,
    tx_id: u64,
    fee: u64,
    utxo_total: u64,
    amount_per_split: u64,
    sc: int,
    oc: int,
    change_amount: u64,
    fee_per_gram: u64,
    lock_height: Option<u64>,
    now_ms: u64,
    require_change: bool,
)
    requires
        0 <= sc,
        oc == if require_change { sc + 1 } else { sc },
        amount_per_split * sc <= u64::MAX,
        selection_valid(
            m0.store.recs,
            selm,
            require_change,
            (amount_per_split * sc) as u64,
            fee_per_gram,
            sc,
            UTXOSelectionStrategy::MaturityThenSmallest,
        ),
        utxo_total == sum_all(selm),
        fee == fee_for(fee_per_gram, 1, selm.len() as int, oc),
        utxo_total >= fee + amount_per_split * sc,
        change_amount == utxo_total - fee - amount_per_split * sc,
        m0.km.index + oc <= u64::MAX,
        outputs.len() == oc,
        out_cs.len() == oc,
        forall|i: int|
            0 <= i < oc ==> {
                &&& (#[trigger] outputs[i]).value == (if i < sc { amount_per_split } else { change_amount })
                &&& outputs[i].spending_key@ == derived_key_of(
                    m0.km.master,
                    m0.km.branch,
                    (m0.km.index + 1 + i) as u64,
                )
                &&& outputs[i].features.coinbase == false
                &&& outputs[i].features.maturity == 0
            },
        forall|i: int|
            0 <= i < oc ==> (#[trigger] out_cs[i])@ == commit_of(
                outputs[i].spending_key@,
                outputs[i].value,
            ),
        spent_views.len() == selm.len(),
        forall|j: int| 0 <= j < selm.len() ==> #[trigger] spent_views[j] == selm[j].commitment,
        tx.fee == fee,
        tx.lock_height == (match lock_height { Some(h) => h, None => 0 }),
        tx.inputs@.len() == selm.len(),
        forall|i: int| 0 <= i < selm.len() ==> (#[trigger] tx.inputs@[i]).commitment@ == selm[i].commitment,
        tx.outputs@.len() == oc,
        forall|i: int| 0 <= i < oc ==> (#[trigger] tx.outputs@[i]).commitment == out_cs[i],
        mend.km == advanced_by(m0.km, oc),
        mend.store.key_state == Some(advanced_by(m0.km, oc)),
        mend.store.recs == crate::store::confirm_enc_recs(
            crate::store::mark_encumbered_recs(m0.store.recs, spent_views, tx_id)
                + crate::store::incoming_recs(outputs, out_cs, tx_id),
            tx_id,
        ),
        mend.store.pending == m0.store.pending.push(
            PendingTxRecord { tx_id, timestamp: now_ms, short_term: false },
        ),
        mend.base_node_key == m0.base_node_key,
        mend.queries == m0.queries,
        mend.timeout_ms == m0.timeout_ms,
    ensures
        coin_split_witness(
            m0,
            tx_id,
            tx,
            fee,
            utxo_total,
            amount_per_split,
            sc,
            fee_per_gram,
            lock_height,
            now_ms,
            mend,
            selm,
            require_change,
        ),
{
    reveal(coin_split_witness);
    let inc = crate::store::incoming_recs(outputs, out_cs, tx_id);
    let spl = split_recs(m0.km, tx_id, sc, amount_per_split, oc, change_amount);
    assert forall|i: int| 0 <= i < oc implies inc[i] == spl[i] by {
        assert(inc[i] == incoming_rec(outputs[i], out_cs[i]@, tx_id));
    }
    assert(inc =~= spl);
    assert(spent_views =~= commitments_of(selm));
    assert forall|i: int| 0 <= i < oc implies (#[trigger] tx.outputs@[i]).commitment@ == split_rec(
        m0.km,
        tx_id,
        i,
        if i < sc { amount_per_split } else { change_amount },
    ).commitment by {
        assert(out_cs[i]@ == commit_of(outputs[i].spending_key@, outputs[i].value));
    }
    assert(mend =~= (ServiceModel {
        km: advanced_by(m0.km, oc),
        store: StoreModel {
            key_state: Some(advanced_by(m0.km, oc)),
            recs: crate::store::confirm_enc_recs(
                crate::store::mark_encumbered_recs(m0.store.recs, commitments_of(selm), tx_id)
                    + split_recs(m0.km, tx_id, sc, amount_per_split, oc, change_amount),
                tx_id,
            ),
            pending: m0.store.pending.push(
                PendingTxRecord { tx_id, timestamp: now_ms, short_term: false },
            ),
            ..m0.store
        },
        ..m0
    }));
}

/// A successful coin split is witnessed by some selection.
pub open spec fn coin_split_ok(
    m0: ServiceModel,
    tx_id: u64,
    tx: Transaction,
    fee: u64,
    utxo_total: u64,
    amount_per_split: u64,
    split_count: int,
    fee_per_gram: u64,
    lock_height: Option<u64>,
    now_ms: u64,
    m1: ServiceModel,
) -> bool {
    exists|sel: Seq<RecModel>, require_change: bool|
        coin_split_witness(
            m0,
            tx_id,
            tx,
            fee,
            utxo_total,
            amount_per_split,
            split_count,
            fee_per_gram,
            lock_height,
            now_ms,
            m1,
            sel,
            require_change,
        )
}

/// A successful preparation is witnessed by some selection.
pub open spec fn prepare_ok(
    m0: ServiceModel,
    stp: SenderTransactionProtocol,
    amount: u64,
    fee_per_gram: u64,
    lock_height: Option<u64>,
    message: Seq<char>,
    now_ms: u64,
    m1: ServiceModel,
) -> bool {
    exists|sel: Seq<RecModel>|
        prepare_witness(m0, stp, amount, fee_per_gram, lock_height, message, now_ms, m1, sel)
}

/// An API request to the output manager.
pub enum OutputManagerRequest {
    AddOutput(UnblindedOutput),
    GetBalance,
    GetRecipientKey(u64, MicroTari),
    GetCoinbaseKey(u64, MicroTari, u64),
    PrepareToSendTransaction(MicroTari, MicroTari, Option<u64>, String),
    ConfirmPendingTransaction(u64),
    ConfirmTransaction(u64, Vec<TransactionInput>, Vec<TransactionOutput>),
    CancelTransaction(u64),
    TimeoutTransactions(u64),
    GetPendingTransactions,
    GetSpentOutputs,
    GetUnspentOutputs,
    GetInvalidOutputs,
    GetSeedWords,
    SetBaseNodePublicKey([u8; 32]),
    SyncWithBaseNode,
    CreateCoinSplit(MicroTari, usize, MicroTari, Option<u64>),
}

/// The reply to an API request.
pub enum OutputManagerResponse {
    OutputAdded,
    Balance(Balance),
    RecipientKeyGenerated([u8; 32]),
    TransactionToSend(SenderTransactionProtocol),
    PendingTransactionConfirmed,
    TransactionConfirmed,
    TransactionCancelled,
    TransactionsTimedOut,
    PendingTransactions(Vec<PendingTransactionOutputs>),
    SpentOutputs(Vec<UnblindedOutput>),
    UnspentOutputs(Vec<UnblindedOutput>),
    InvalidOutputs(Vec<UnblindedOutput>),
    SeedWords(Vec<String>),
    BaseNodePublicKeySet,
    StartedBaseNodeSync(u64),
    Transaction(u64, Transaction, MicroTari, MicroTari),
}

/// Each request is answered with the response variant that belongs to it.
pub open spec fn response_matches(request: OutputManagerRequest, resp: OutputManagerResponse) -> bool {
    match request {
        OutputManagerRequest::AddOutput(_) => resp is OutputAdded,
        OutputManagerRequest::GetBalance => resp is Balance,
        OutputManagerRequest::GetRecipientKey(_, _) => resp is RecipientKeyGenerated,
        OutputManagerRequest::GetCoinbaseKey(_, _, _) => resp is RecipientKeyGenerated,
        OutputManagerRequest::PrepareToSendTransaction(_, _, _, _) => resp is TransactionToSend,
        OutputManagerRequest::ConfirmPendingTransaction(_) => resp is PendingTransactionConfirmed,
        OutputManagerRequest::ConfirmTransaction(_, _, _) => resp is TransactionConfirmed,
        OutputManagerRequest::CancelTransaction(_) => resp is TransactionCancelled,
        OutputManagerRequest::TimeoutTransactions(_) => resp is TransactionsTimedOut,
        OutputManagerRequest::GetPendingTransactions => resp is PendingTransactions,
        OutputManagerRequest::GetSpentOutputs => resp is SpentOutputs,
        OutputManagerRequest::GetUnspentOutputs => resp is UnspentOutputs,
        OutputManagerRequest::GetInvalidOutputs => resp is InvalidOutputs,
        OutputManagerRequest::GetSeedWords => resp is SeedWords,
        OutputManagerRequest::SetBaseNodePublicKey(_) => resp is BaseNodePublicKeySet,
        OutputManagerRequest::SyncWithBaseNode => resp is StartedBaseNodeSync,
        OutputManagerRequest::CreateCoinSplit(_, _, _, _) => resp is Transaction,
    }
}

/// Inserting an in-flight query: a query with the same key is replaced,
/// otherwise the query is appended.
pub open spec fn upsert_query(queries: Seq<QueryModel>, q: QueryModel) -> Seq<QueryModel> {
    if queries_contain(queries, q.key) {
        queries.map_values(
            |e: QueryModel|
                if e.key == q.key {
                    q
                } else {
                    e
                },
        )
    } else {
        queries.push(q)
    }
}

/// Removing the in-flight query with the given key.
pub open spec fn remove_query(queries: Seq<QueryModel>, key: u64) -> Seq<QueryModel>
    decreases queries.len(),
{
    if queries.len() == 0 {
        Seq::empty()
    } else if queries.last().key == key {
        remove_query(queries.drop_last(), key)
    } else {
        remove_query(queries.drop_last(), key).push(queries.last())
    }
}

/// Removing a query by its position removes it by its key, when keys are
/// distinct.
pub proof fn lemma_remove_query_at(queries: Seq<QueryModel>, key: u64, i: int)
    requires
        queries_distinct(queries),
        0 <= i < queries.len(),
        queries[i].key == key,
    ensures
        remove_query(queries, key) =~= queries.remove(i),
    decreases queries.len(),
{
    if queries.len() > 0 {
        let prev = queries.drop_last();
        if i == queries.len() - 1 {
            assert(queries.remove(i) =~= prev);
            assert forall|j: int| 0 <= j < prev.len() implies (#[trigger] prev[j]).key != key by {
                assert(queries[j].key != queries[i].key);
            }
            lemma_remove_query_absent(prev, key);
        } else {
            assert(queries_distinct(prev));
            assert(prev[i].key == key);
            lemma_remove_query_at(prev, key, i);
            assert(queries.last().key != key);
            assert(remove_query(queries, key) =~= prev.remove(i).push(queries.last()));
            assert(queries.remove(i) =~= prev.remove(i).push(queries.last()));
        }
    }
}

/// Removing an absent key changes nothing.
pub proof fn lemma_remove_query_absent(queries: Seq<QueryModel>, key: u64)
    requires
        forall|j: int| 0 <= j < queries.len() ==> (#[trigger] queries[j]).key != key,
    ensures
        remove_query(queries, key) =~= queries,
    decreases queries.len(),
{
    if queries.len() > 0 {
        lemma_remove_query_absent(queries.drop_last(), key);
    }
}

/// Membership in the query list after a removal.
pub proof fn lemma_remove_query_contains(queries: Seq<QueryModel>, key: u64)
    ensures
        forall|t: u64|
            #[trigger] queries_contain(remove_query(queries, key), t) <==> (queries_contain(
                queries,
                t,
            ) && t != key),
        queries_distinct(queries) ==> queries_distinct(remove_query(queries, key)),
    decreases queries.len(),
{
    if queries.len() > 0 {
        let prev = queries.drop_last();
        let removed = remove_query(queries, key);
        lemma_remove_query_contains(prev, key);
        assert forall|t: u64| #[trigger] queries_contain(removed, t) implies (queries_contain(
            queries,
            t,
        ) && t != key) by {
            let i = choose|i: int| 0 <= i < removed.len() && (#[trigger] removed[i]).key == t;
            if i < remove_query(prev, key).len() {
                assert(queries_contain(remove_query(prev, key), t));
                let j = choose|j: int| 0 <= j < prev.len() && (#[trigger] prev[j]).key == t;
                assert(queries[j].key == t);
            } else {
                assert(queries[queries.len() - 1].key == t);
            }
        }
        assert forall|t: u64| (queries_contain(queries, t) && t != key) implies #[trigger] queries_contain(
            removed,
            t,
        ) by {
            let i = choose|i: int| 0 <= i < queries.len() && (#[trigger] queries[i]).key == t;
            if i < queries.len() - 1 {
                assert(prev[i].key == t);
                assert(queries_contain(remove_query(prev, key), t));
                let j = choose|j: int|
                    0 <= j < remove_query(prev, key).len() && (#[trigger] remove_query(
                        prev,
                        key,
                    )[j]).key == t;
                assert(removed[j].key == t);
            } else {
                assert(queries.last().key == t);
                assert(removed.last().key == t);
            }
        }
        if queries_distinct(queries) {
            assert(queries_distinct(prev));
            if queries.last().key == key {
            } else {
                let rp = remove_query(prev, key);
                assert forall|a: int, b: int|
                    0 <= a < b < removed.len() implies (#[trigger] removed[a]).key != (
                #[trigger] removed[b]).key by {
                    if b < rp.len() {
                        assert(queries_distinct(rp));
                    } else {
                        assert(removed[b] == queries.last());
                        if removed[a].key == queries.last().key {
                            assert(queries_contain(rp, removed[a].key));
                            let w = choose|w: int|
                                0 <= w < prev.len() && (#[trigger] prev[w]).key == removed[a].key;
                            assert(queries[w].key == queries[queries.len() - 1].key);
                        }
                    }
                }
            }
        }
    }
}

/// The hashes carried by a base node response: one per well-formed output;
/// malformed outputs are dropped.
pub open spec fn response_hashes(outs: Seq<RemoteOutput>) -> Seq<Seq<u8>>
    decreases outs.len(),
{
    if outs.len() == 0 {
        Seq::empty()
    } else if outs.last().commitment@.len() == 32 {
        response_hashes(outs.drop_last()).push(
            blake256_of(
                out_hash_material(
                    outs.last().features.coinbase,
                    outs.last().features.maturity,
                    outs.last().commitment@,
                ),
            ),
        )
    } else {
        response_hashes(outs.drop_last())
    }
}

/// A commitment marked for invalidation: it belongs to an unspent record
/// that was queried but not returned.
pub open spec fn target_ok(
    c: Seq<u8>,
    fl: Seq<RecModel>,
    queried: Seq<Seq<u8>>,
    returned: Seq<Seq<u8>>,
) -> bool {
    exists|w: int|
        0 <= w < fl.len() && should_invalidate(#[trigger] fl[w], queried, returned) && fl[w].commitment
            == c
}

/// An unspent output is invalidated when it was queried but the base node
/// did not return it.
pub open spec fn should_invalidate(r: RecModel, queried: Seq<Seq<u8>>, returned: Seq<Seq<u8>>) -> bool {
    r.status == OutputStatus::Unspent && queried.contains(rec_hash(r)) && !returned.contains(
        rec_hash(r),
    )
}

pub open spec fn step_response(r: RecModel, queried: Seq<Seq<u8>>, returned: Seq<Seq<u8>>) -> RecModel {
    if should_invalidate(r, queried, returned) {
        RecModel { status: OutputStatus::Invalid, ..r }
    } else {
        r
    }
}

/// The effect of one reconciled base node response on the records.
pub open spec fn response_recs(
    recs: Seq<RecModel>,
    queried: Seq<Seq<u8>>,
    returned: Seq<Seq<u8>>,
) -> Seq<RecModel> {
    recs.map_values(|r: RecModel| step_response(r, queried, returned))
}

/// What a successful sync query promises: the outbound request goes to the
/// configured base node, carries the hash of every unspent output, and is
/// tracked under its fresh request key, replacing any query that already
/// used that key.
pub open spec fn sync_request_ok(m0: ServiceModel, req: OutboundSyncRequest, m1: ServiceModel) -> bool {
    &&& m0.base_node_key == Some(req.destination@)
    &&& req.timeout_ms == m0.timeout_ms
    &&& req.hashes@.len() == filter_status(m0.store.recs, OutputStatus::Unspent).len()
    &&& (forall|i: int|
        0 <= i < req.hashes@.len() ==> (#[trigger] req.hashes@[i])@ == rec_hash(
            filter_status(m0.store.recs, OutputStatus::Unspent)[i],
        ))
    &&& m1 == (ServiceModel {
        queries: upsert_query(
            m0.queries,
            QueryModel {
                key: req.request_key,
                hashes: req.hashes@.map_values(|h: [u8; 32]| h@),
            },
        ),
        ..m0
    })
}

/// The output manager service.
pub struct OutputManagerService {
    config: OutputManagerServiceConfig,
    key_manager: KeyManager,
    db: OutputStore,
    base_node_public_key: Option<[u8; 32]>,
    pending_utxo_query_keys: Vec<PendingUtxoQuery>,
}

impl View for OutputManagerService {
    type V = ServiceModel;

    closed spec fn view(&self) -> ServiceModel {
        ServiceModel {
            store: self.db@,
            km: self.key_manager@,
            base_node_key: match self.base_node_public_key {
                Some(pk) => Some(pk@),
                None => None,
            },
            queries: self.pending_utxo_query_keys@.map_values(|q: PendingUtxoQuery| q@),
            timeout_ms: self.config.base_node_query_timeout_ms,
        }
    }
}

/// What serving each request variant owes: the success condition, the reply
/// payload, and the state change of the dispatched handler.
pub open spec fn dispatch_ok(
    request: OutputManagerRequest,
    now_ms: u64,
    m0: ServiceModel,
    m1: ServiceModel,
    res: Result<OutputManagerResponse, OutputManagerError>,
    outbound: Option<OutboundSyncRequest>,
) -> bool {
    match request {
        OutputManagerRequest::AddOutput(uo) => {
            &&& outbound is None
            &&& (res is Ok <==> (canonical_scalar(uo.spending_key@) && !commitment_known(
                m0.store.recs,
                commit_of(uo.spending_key@, uo.value),
            ) && sum_all(m0.store.recs) + uo.value <= u64::MAX))
            &&& (res is Ok ==> m1 == (ServiceModel {
                store: StoreModel {
                    recs: m0.store.recs.push(
                        crate::store::unspent_rec(uo, commit_of(uo.spending_key@, uo.value)),
                    ),
                    ..m0.store
                },
                ..m0
            }))
            &&& (res is Err ==> m1 == m0)
        },
        OutputManagerRequest::GetBalance => {
            &&& outbound is None
            &&& m1 == m0
            &&& res matches Ok(resp)
            &&& (res matches Ok(resp) ==> match resp {
                OutputManagerResponse::Balance(b) => {
                    &&& b.available_balance == sum_status(m0.store.recs, OutputStatus::Unspent)
                    &&& b.pending_incoming_balance == sum_status(
                        m0.store.recs,
                        OutputStatus::PendingIncoming,
                    )
                    &&& b.pending_outgoing_balance == sum_status(
                        m0.store.recs,
                        OutputStatus::ShortTermEncumbered,
                    ) + sum_status(m0.store.recs, OutputStatus::Encumbered)
                },
                _ => false,
            })
        },
        OutputManagerRequest::GetRecipientKey(tx_id, amount) => {
            &&& outbound is None
            &&& (res is Ok <==> (m0.km.index < u64::MAX && !pending_contains(
                m0.store.pending,
                tx_id,
            ) && !commitment_known(m0.store.recs, commit_of(next_key_of(m0.km), amount))
                && sum_all(m0.store.recs) + amount <= u64::MAX))
            &&& (res is Ok ==> m1 == (ServiceModel {
                km: advanced(m0.km),
                store: StoreModel {
                    key_state: Some(advanced(m0.km)),
                    recs: m0.store.recs.push(
                        RecModel {
                            value: amount,
                            key: next_key_of(m0.km),
                            coinbase: false,
                            maturity: 0,
                            commitment: commit_of(next_key_of(m0.km), amount),
                            status: OutputStatus::PendingIncoming,
                            tx_id: Some(tx_id),
                        },
                    ),
                    pending: m0.store.pending.push(
                        PendingTxRecord { tx_id, timestamp: now_ms, short_term: false },
                    ),
                    ..m0.store
                },
                ..m0
            }))
        },
        OutputManagerRequest::GetCoinbaseKey(tx_id, amount, maturity_height) => {
            &&& outbound is None
            &&& (res is Ok <==> (m0.km.index < u64::MAX && !pending_contains(
                m0.store.pending,
                tx_id,
            ) && !commitment_known(m0.store.recs, commit_of(next_key_of(m0.km), amount))
                && sum_all(m0.store.recs) + amount <= u64::MAX))
            &&& (res is Ok ==> m1.km == advanced(m0.km) && m1.store.pending == m0.store.pending.push(
                PendingTxRecord { tx_id, timestamp: now_ms, short_term: true },
            ))
        },
        OutputManagerRequest::PrepareToSendTransaction(amount, fee_per_gram, lock_height, message) => {
            &&& outbound is None
            &&& (res matches Ok(resp) ==> match resp {
                OutputManagerResponse::TransactionToSend(stp) => prepare_ok(
                    m0,
                    stp,
                    amount,
                    fee_per_gram,
                    lock_height,
                    message@,
                    now_ms,
                    m1,
                ),
                _ => false,
            })
            &&& (res == Err::<OutputManagerResponse, OutputManagerError>(
                OutputManagerError::NotEnoughFunds,
            ) <==> cannot_cover(
                m0.store.recs,
                amount,
                fee_per_gram,
                1,
                UTXOSelectionStrategy::MaturityThenSmallest,
            ))
            &&& (res == Err::<OutputManagerResponse, OutputManagerError>(
                OutputManagerError::KeyManagerError,
            ) <==> (!cannot_cover(
                m0.store.recs,
                amount,
                fee_per_gram,
                1,
                UTXOSelectionStrategy::MaturityThenSmallest,
            ) && selection_needs_change(
                m0.store.recs,
                amount,
                fee_per_gram,
                1,
                UTXOSelectionStrategy::MaturityThenSmallest,
            ) && m0.km.index == u64::MAX))
            &&& (res == Err::<OutputManagerResponse, OutputManagerError>(
                OutputManagerError::StorageError,
            ) ==> sum_all(m0.store.recs) + prepare_change_value(m0.store.recs, amount, fee_per_gram)
                > u64::MAX)
            &&& (res == Err::<OutputManagerResponse, OutputManagerError>(
                OutputManagerError::ConflictingEncumberance,
            ) ==> (m0.store.pending.len() > 0 || commitment_known(
                m0.store.recs,
                commit_of(
                    next_key_of(m0.km),
                    prepare_change_value(m0.store.recs, amount, fee_per_gram) as u64,
                ),
            )))
        },
        OutputManagerRequest::ConfirmPendingTransaction(tx_id) => {
            &&& outbound is None
            &&& (res is Ok <==> pending_contains(m0.store.pending, tx_id))
            &&& (res is Ok ==> m1 == (ServiceModel {
                store: StoreModel {
                    recs: confirm_enc_recs(m0.store.recs, tx_id),
                    pending: clear_short_term_flag(m0.store.pending, tx_id),
                    ..m0.store
                },
                ..m0
            }))
            &&& (res is Err ==> m1 == m0)
        },
        OutputManagerRequest::ConfirmTransaction(tx_id, inputs, outputs) => {
            &&& outbound is None
            &&& (res is Ok <==> (pending_contains(m0.store.pending, tx_id) && tx_matches(
                m0.store.recs,
                tx_id,
                inputs@,
                outputs@,
            )))
            &&& (res is Ok ==> m1 == (ServiceModel {
                store: StoreModel {
                    recs: confirm_tx_recs(m0.store.recs, tx_id),
                    pending: remove_pending(m0.store.pending, tx_id),
                    ..m0.store
                },
                ..m0
            }))
            &&& (res is Err ==> m1 == m0)
        },
        OutputManagerRequest::CancelTransaction(tx_id) => {
            &&& outbound is None
            &&& (res is Ok <==> pending_contains(m0.store.pending, tx_id))
            &&& (res is Ok ==> m1 == (ServiceModel {
                store: StoreModel {
                    recs: cancel_recs(m0.store.recs, tx_id),
                    pending: remove_pending(m0.store.pending, tx_id),
                    ..m0.store
                },
                ..m0
            }))
            &&& (res is Err ==> m1 == m0)
        },
        OutputManagerRequest::TimeoutTransactions(period_ms) => {
            &&& outbound is None
            &&& res is Ok
            &&& m1 == (ServiceModel {
                store: StoreModel {
                    recs: cancel_all_recs(
                        m0.store.recs,
                        select_txs(
                            m0.store.pending,
                            |q: PendingTxRecord| now_ms - q.timestamp > period_ms,
                        ),
                    ),
                    pending: remove_many_pending(
                        m0.store.pending,
                        select_txs(
                            m0.store.pending,
                            |q: PendingTxRecord| now_ms - q.timestamp > period_ms,
                        ),
                    ),
                    ..m0.store
                },
                ..m0
            })
        },
        OutputManagerRequest::GetPendingTransactions => {
            &&& outbound is None
            &&& m1 == m0
            &&& res matches Ok(resp)
            &&& (res matches Ok(resp) ==> match resp {
                OutputManagerResponse::PendingTransactions(v) => v@.len()
                    == m0.store.pending.len(),
                _ => false,
            })
        },
        OutputManagerRequest::GetSpentOutputs => {
            &&& outbound is None
            &&& m1 == m0
            &&& res matches Ok(resp)
            &&& (res matches Ok(resp) ==> match resp {
                OutputManagerResponse::SpentOutputs(v) => outs_match(
                    v@,
                    filter_status(m0.store.recs, OutputStatus::Spent),
                ),
                _ => false,
            })
        },
        OutputManagerRequest::GetUnspentOutputs => {
            &&& outbound is None
            &&& m1 == m0
            &&& res matches Ok(resp)
            &&& (res matches Ok(resp) ==> match resp {
                OutputManagerResponse::UnspentOutputs(v) => v@.len() == filter_status(
                    m0.store.recs,
                    OutputStatus::Unspent,
                ).len(),
                _ => false,
            })
        },
        OutputManagerRequest::GetInvalidOutputs => {
            &&& outbound is None
            &&& m1 == m0
            &&& res matches Ok(resp)
            &&& (res matches Ok(resp) ==> match resp {
                OutputManagerResponse::InvalidOutputs(v) => outs_match(
                    v@,
                    filter_status(m0.store.recs, OutputStatus::Invalid),
                ),
                _ => false,
            })
        },
        OutputManagerRequest::GetSeedWords => {
            &&& outbound is None
            &&& m1 == m0
            &&& res matches Ok(resp)
            &&& (res matches Ok(resp) ==> match resp {
                OutputManagerResponse::SeedWords(words) => words@.len() == 64,
                _ => false,
            })
        },
        OutputManagerRequest::SetBaseNodePublicKey(pk) => {
            &&& res is Ok
            &&& m1.base_node_key == Some(pk@)
            &&& (m0.base_node_key is Some ==> outbound is None && m1 == (ServiceModel {
                base_node_key: Some(pk@),
                ..m0
            }))
            &&& (m0.base_node_key is None ==> (outbound matches Some(req) && sync_request_ok(
                (ServiceModel { base_node_key: Some(pk@), ..m0 }),
                req,
                m1,
            )))
        },
        OutputManagerRequest::SyncWithBaseNode => {
            &&& (res is Ok <==> m0.base_node_key is Some)
            &&& (res is Ok ==> (outbound matches Some(req) && sync_request_ok(m0, req, m1)))
            &&& (res is Err ==> outbound is None && m1 == m0)
        },
        OutputManagerRequest::CreateCoinSplit(amount_per_split, split_count, fee_per_gram, lock_height) => {
            &&& outbound is None
            &&& (res matches Ok(resp) ==> match resp {
                OutputManagerResponse::Transaction(tx_id, tx, f, total) => coin_split_ok(
                    m0,
                    tx_id,
                    tx,
                    f,
                    total,
                    amount_per_split,
                    split_count as int,
                    fee_per_gram,
                    lock_height,
                    now_ms,
                    m1,
                ),
                _ => false,
            })
            &&& (res == Err::<OutputManagerResponse, OutputManagerError>(
                OutputManagerError::NotEnoughFunds,
            ) <==> coin_split_cannot_fund(
                m0.store.recs,
                amount_per_split,
                split_count as int,
                fee_per_gram,
            ))
            &&& (res == Err::<OutputManagerResponse, OutputManagerError>(
                OutputManagerError::KeyManagerError,
            ) <==> (!coin_split_cannot_fund(
                m0.store.recs,
                amount_per_split,
                split_count as int,
                fee_per_gram,
            ) && m0.km.index + coin_split_output_count(
                m0.store.recs,
                amount_per_split,
                split_count as int,
                fee_per_gram,
            ) > u64::MAX))
            &&& (res is Err ==> m1.store.recs == m0.store.recs && m1.store.pending
                == m0.store.pending)
        },
    }
}

impl OutputManagerService {
    /// Well-formedness; established by `new` and preserved by every handler.
    pub open spec fn wf(&self) -> bool {
        svc_wf(self@)
    }

    /// Start the service against a store: adopt the persisted key manager
    /// state or create a fresh one, and collapse the short-term encumberances
    /// left over from negotiations that never completed.
    pub fn new(config: OutputManagerServiceConfig, db: OutputStore) -> (r: Result<
        OutputManagerService,
        OutputManagerError,
    >)
        requires
            db.wf(),
        ensures
            match r {
                Ok(s) => {
                    &&& s.wf()
                    &&& (db@.key_state matches Some(k) ==> s@.km == k)
                    &&& (db@.key_state is None ==> s@.km.index == 0 && s@.km.branch
                        == Seq::<u8>::empty())
                    &&& s@.store.recs == cancel_all_recs(
                        db@.recs,
                        select_txs(db@.pending, |q: PendingTxRecord| q.short_term),
                    )
                    &&& s@.store.pending == remove_many_pending(
                        db@.pending,
                        select_txs(db@.pending, |q: PendingTxRecord| q.short_term),
                    )
                    &&& s@.base_node_key is None
                    &&& s@.queries.len() == 0
                    &&& s@.timeout_ms == config.base_node_query_timeout_ms
                },
                Err(_) => false,
            },
    {
        let mut db = db;
        let key_manager: KeyManager = match db.get_key_manager_state() {
            Some(state) => {
                let master = state.master_seed;
                let mut branch: Vec<u8> = Vec::new();
                let mut i: usize = 0;
                while i < state.branch_seed.len()
                    invariant
                        i <= state.branch_seed.len(),
                        branch@ == state.branch_seed@.take(i as int),
                    decreases state.branch_seed.len() - i,
                {
                    branch.push(state.branch_seed[i]);
                    proof {
                        assert(branch@ =~= state.branch_seed@.take(i as int + 1));
                    }
                    i = i + 1;
                }
                proof {
                    assert(state.branch_seed@.take(state.branch_seed@.len() as int)
                        =~= state.branch_seed@);
                }
                KeyManager::from(master, branch, state.primary_key_index)
            },
            None => {
                let wide = random_bytes_64();
                let master = scalar_from_wide_bytes(&wide);
                let km = KeyManager::from(master, Vec::new(), 0);
                db.set_key_manager_state(
                    KeyManagerState {
                        master_seed: master,
                        branch_seed: Vec::new(),
                        primary_key_index: 0,
                    },
                );
                km
            },
        };
        match db.clear_short_term_encumberances() {
            Ok(()) => {},
            Err(_) => {
                proof {
                    assert(false);
                }
            },
        }
        let s = OutputManagerService {
            config,
            key_manager,
            db,
            base_node_public_key: None,
            pending_utxo_query_keys: Vec::new(),
        };
        proof {
            assert(s@.queries =~= Seq::<QueryModel>::empty());
        }
        Ok(s)
    }

    /// Add an unblinded output to the unspent pool.
    pub fn add_output(&mut self, output: UnblindedOutput) -> (r: Result<(), OutputManagerError>)
        requires
            old(self).wf(),
        ensures
            final(self).wf(),
            old(self)@.km.index <= final(self)@.km.index,
            r matches Ok(()) ==> {
                &&& canonical_scalar(output.spending_key@)
                &&& final(self)@ == (ServiceModel {
                    store: StoreModel {
                        recs: old(self)@.store.recs.push(
                            crate::store::unspent_rec(
                                output,
                                commit_of(output.spending_key@, output.value),
                            ),
                        ),
                        ..old(self)@.store
                    },
                    ..old(self)@
                })
            },
            r is Ok <==> (canonical_scalar(output.spending_key@) && !commitment_known(
                old(self)@.store.recs,
                commit_of(output.spending_key@, output.value),
            ) && sum_all(old(self)@.store.recs) + output.value <= u64::MAX),
            r == Err::<(), OutputManagerError>(OutputManagerError::ConversionError)
                <==> !canonical_scalar(output.spending_key@),
            r matches Err(e) ==> final(self)@ == old(self)@,
            canonical_scalar(output.spending_key@) ==> (r
                == Err::<(), OutputManagerError>(OutputManagerError::DuplicateOutput)
                <==> commitment_known(
                old(self)@.store.recs,
                commit_of(output.spending_key@, output.value),
            )),
            canonical_scalar(output.spending_key@) ==> (r
                == Err::<(), OutputManagerError>(OutputManagerError::StorageError)
                <==> (!commitment_known(
                old(self)@.store.recs,
                commit_of(output.spending_key@, output.value),
            ) && sum_all(old(self)@.store.recs) + output.value > u64::MAX)),
    {
        let c = match pedersen_commit(&output.spending_key, output.value) {
            None => {
                return Err(OutputManagerError::ConversionError);
            },
            Some(c) => c,
        };
        let r = self.db.add_unspent_output(output, c);
        proof {
            if r is Ok {
                assert(final(self)@ =~= (ServiceModel {
                    store: StoreModel {
                        recs: old(self)@.store.recs.push(
                            crate::store::unspent_rec(
                                output,
                                commit_of(output.spending_key@, output.value),
                            ),
                        ),
                        ..old(self)@.store
                    },
                    ..old(self)@
                }));
            }
        }
        r
    }

    /// The wallet's balance.
    pub fn get_balance(&self) -> (r: Result<Balance, OutputManagerError>)
        requires
            self.wf(),
        ensures
            match r {
                Ok(b) => {
                    &&& b.available_balance == sum_status(self@.store.recs, OutputStatus::Unspent)
                    &&& b.pending_incoming_balance == sum_status(
                        self@.store.recs,
                        OutputStatus::PendingIncoming,
                    )
                    &&& b.pending_outgoing_balance == sum_status(
                        self@.store.recs,
                        OutputStatus::ShortTermEncumbered,
                    ) + sum_status(self@.store.recs, OutputStatus::Encumbered)
                },
                Err(_) => false,
            },
    {
        Ok(self.db.get_balance())
    }

    /// Promote the short-term encumberance of a transaction.
    pub fn confirm_encumberance(&mut self, tx_id: u64) -> (r: Result<(), OutputManagerError>)
        requires
            old(self).wf(),
        ensures
            final(self).wf(),
            old(self)@.km.index <= final(self)@.km.index,
            match r {
                Ok(()) => {
                    &&& pending_contains(old(self)@.store.pending, tx_id)
                    &&& final(self)@ == (ServiceModel {
                        store: StoreModel {
                            recs: confirm_enc_recs(old(self)@.store.recs, tx_id),
                            pending: clear_short_term_flag(old(self)@.store.pending, tx_id),
                            ..old(self)@.store
                        },
                        ..old(self)@
                    })
                },
                Err(e) => {
                    &&& e == OutputManagerError::UnknownTransaction
                    &&& !pending_contains(old(self)@.store.pending, tx_id)
                    &&& final(self)@ == old(self)@
                },
            },
    {
        let r = self.db.confirm_encumbered_outputs(tx_id);
        proof {
            if r is Ok {
                assert(final(self)@ =~= (ServiceModel {
                    store: StoreModel {
                        recs: confirm_enc_recs(old(self)@.store.recs, tx_id),
                        pending: clear_short_term_flag(old(self)@.store.pending, tx_id),
                        ..old(self)@.store
                    },
                    ..old(self)@
                }));
            }
        }
        r
    }

    /// Cancel a pending transaction, returning its encumbered outputs to the
    /// unspent pool.
    pub fn cancel_transaction(&mut self, tx_id: u64) -> (r: Result<(), OutputManagerError>)
        requires
            old(self).wf(),
        ensures
            final(self).wf(),
            old(self)@.km.index <= final(self)@.km.index,
            match r {
                Ok(()) => {
                    &&& pending_contains(old(self)@.store.pending, tx_id)
                    &&& final(self)@ == (ServiceModel {
                        store: StoreModel {
                            recs: cancel_recs(old(self)@.store.recs, tx_id),
                            pending: remove_pending(old(self)@.store.pending, tx_id),
                            ..old(self)@.store
                        },
                        ..old(self)@
                    })
                },
                Err(e) => {
                    &&& e == OutputManagerError::UnknownTransaction
                    &&& !pending_contains(old(self)@.store.pending, tx_id)
                    &&& final(self)@ == old(self)@
                },
            },
    {
        let r = self.db.cancel_pending_transaction_outputs(tx_id);
        proof {
            if r is Ok {
                assert(final(self)@ =~= (ServiceModel {
                    store: StoreModel {
                        recs: cancel_recs(old(self)@.store.recs, tx_id),
                        pending: remove_pending(old(self)@.store.pending, tx_id),
                        ..old(self)@.store
                    },
                    ..old(self)@
                }));
            }
        }
        r
    }

    /// Cancel every pending transaction older than `period_ms`, judged
    /// against the supplied current time.
    pub fn timeout_pending_transactions(&mut self, period_ms: u64, now_ms: u64) -> (r: Result<
        (),
        OutputManagerError,
    >)
        requires
            old(self).wf(),
        ensures
            final(self).wf(),
            old(self)@.km.index <= final(self)@.km.index,
            r is Ok,
            final(self)@ == (ServiceModel {
                store: StoreModel {
                    recs: cancel_all_recs(
                        old(self)@.store.recs,
                        select_txs(
                            old(self)@.store.pending,
                            |q: PendingTxRecord| now_ms - q.timestamp > period_ms,
                        ),
                    ),
                    pending: remove_many_pending(
                        old(self)@.store.pending,
                        select_txs(
                            old(self)@.store.pending,
                            |q: PendingTxRecord| now_ms - q.timestamp > period_ms,
                        ),
                    ),
                    ..old(self)@.store
                },
                ..old(self)@
            }),
    {
        let r = self.db.timeout_pending_transaction_outputs(period_ms, now_ms);
        proof {
            assert(final(self)@ =~= (ServiceModel {
                store: StoreModel {
                    recs: cancel_all_recs(
                        old(self)@.store.recs,
                        select_txs(
                            old(self)@.store.pending,
                            |q: PendingTxRecord| now_ms - q.timestamp > period_ms,
                        ),
                    ),
                    pending: remove_many_pending(
                        old(self)@.store.pending,
                        select_txs(
                            old(self)@.store.pending,
                            |q: PendingTxRecord| now_ms - q.timestamp > period_ms,
                        ),
                    ),
                    ..old(self)@.store
                },
                ..old(self)@
            }));
        }
        r
    }

    /// Issue a fresh key for an expected incoming output: advance the
    /// issuance counter (persisting it first), record the output as pending
    /// incoming, and promote the pending record out of its short-term state.
    pub fn get_recipient_spending_key(&mut self, tx_id: u64, amount: MicroTari, now_ms: u64) -> (r:
        Result<[u8; 32], OutputManagerError>)
        requires
            old(self).wf(),
        ensures
            final(self).wf(),
            old(self)@.km.index <= final(self)@.km.index,
            r is Ok <==> (old(self)@.km.index < u64::MAX && !pending_contains(
                old(self)@.store.pending,
                tx_id,
            ) && !commitment_known(
                old(self)@.store.recs,
                commit_of(next_key_of(old(self)@.km), amount),
            ) && sum_all(old(self)@.store.recs) + amount <= u64::MAX),
            r matches Ok(k) ==> {
                &&& k@ == next_key_of(old(self)@.km)
                &&& final(self)@ == (ServiceModel {
                    km: advanced(old(self)@.km),
                    store: StoreModel {
                        key_state: Some(advanced(old(self)@.km)),
                        recs: old(self)@.store.recs.push(
                            incoming_rec(
                                UnblindedOutput {
                                    value: amount,
                                    spending_key: k,
                                    features: OutputFeatures { coinbase: false, maturity: 0 },
                                },
                                commit_of(next_key_of(old(self)@.km), amount),
                                tx_id,
                            ),
                        ),
                        pending: old(self)@.store.pending.push(
                            PendingTxRecord { tx_id, timestamp: now_ms, short_term: false },
                        ),
                        ..old(self)@.store
                    },
                    ..old(self)@
                })
            },
            r == Err::<[u8; 32], OutputManagerError>(OutputManagerError::KeyManagerError)
                <==> old(self)@.km.index == u64::MAX,
            r matches Err(e) ==> (e == OutputManagerError::KeyManagerError ==> final(self)@ == old(
                self,
            )@),
            r matches Err(e) ==> (e != OutputManagerError::KeyManagerError ==> (e
                == OutputManagerError::ConflictingEncumberance || e
                == OutputManagerError::StorageError) && final(self)@ == (ServiceModel {
                km: advanced(old(self)@.km),
                store: StoreModel {
                    key_state: Some(advanced(old(self)@.km)),
                    ..old(self)@.store
                },
                ..old(self)@
            })),
    {
        let key = match self.key_manager.next_key() {
            Err(e) => {
                return Err(e);
            },
            Ok(k) => k,
        };
        match self.db.increment_key_index() {
            Ok(()) => {},
            Err(_) => {
                proof {
                    assert(false);
                }
            },
        }
        let c = match pedersen_commit(&key, amount) {
            Some(c) => c,
            None => {
                proof {
                    assert(false);
                }
                return Err(OutputManagerError::ConversionError);
            },
        };
        let output = UnblindedOutput {
            value: amount,
            spending_key: key,
            features: OutputFeatures { coinbase: false, maturity: 0 },
        };
        let ghost mid = self@;
        match self.db.accept_incoming_pending_transaction(tx_id, output, c, now_ms) {
            Ok(()) => {},
            Err(e) => {
                proof {
                    assert(final(self)@ =~= (ServiceModel {
                        km: advanced(old(self)@.km),
                        store: StoreModel {
                            key_state: Some(advanced(old(self)@.km)),
                            ..old(self)@.store
                        },
                        ..old(self)@
                    }));
                }
                return Err(e);
            },
        }
        let ghost pushed = self@;
        match self.confirm_encumberance(tx_id) {
            Ok(()) => {},
            Err(_) => {
                proof {
                    assert(pending_contains(
                        pushed.store.pending,
                        tx_id,
                    )) by {
                        assert(pushed.store.pending[pushed.store.pending.len() - 1].tx_id == tx_id);
                    }
                    assert(false);
                }
            },
        }
        proof {
            let orecs = mid.store.recs;
            let rec = incoming_rec(output, commit_of(next_key_of(old(self)@.km), amount), tx_id);
            let recs1 = orecs.push(rec);
            assert forall|j: int| 0 <= j < recs1.len() implies crate::store::step_confirm_enc(
                #[trigger] recs1[j],
                tx_id,
            ) == recs1[j] by {
                if j < orecs.len() {
                    if recs1[j].tx_id == Some(tx_id) {
                        assert(pending_contains(mid.store.pending, tx_id));
                    }
                }
            }
            assert(confirm_enc_recs(recs1, tx_id) =~= recs1);
            let pend1 = mid.store.pending.push(
                PendingTxRecord { tx_id, timestamp: now_ms, short_term: true },
            );
            assert forall|j: int| 0 <= j < pend1.len() implies clear_short_term_flag(
                pend1,
                tx_id,
            )[j] == (if j < mid.store.pending.len() {
                mid.store.pending[j]
            } else {
                PendingTxRecord { tx_id, timestamp: now_ms, short_term: false }
            }) by {
                if j < mid.store.pending.len() {
                    if pend1[j].tx_id == tx_id {
                        assert(pending_contains(mid.store.pending, tx_id));
                    }
                }
            }
            assert(clear_short_term_flag(pend1, tx_id) =~= mid.store.pending.push(
                PendingTxRecord { tx_id, timestamp: now_ms, short_term: false },
            ));
            assert(final(self)@ =~= (ServiceModel {
                km: advanced(old(self)@.km),
                store: StoreModel {
                    key_state: Some(advanced(old(self)@.km)),
                    recs: recs1,
                    pending: mid.store.pending.push(
                        PendingTxRecord { tx_id, timestamp: now_ms, short_term: false },
                    ),
                    ..old(self)@.store
                },
                ..old(self)@
            }));
        }
        Ok(key)
    }

    /// Issue a fresh key for a coinbase output that matures at the given
    /// height. The encumberance stays short-term.
    pub fn get_coinbase_spending_key(
        &mut self,
        tx_id: u64,
        amount: MicroTari,
        maturity_height: u64,
        now_ms: u64,
    ) -> (r: Result<[u8; 32], OutputManagerError>)
        requires
            old(self).wf(),
        ensures
            final(self).wf(),
            old(self)@.km.index <= final(self)@.km.index,
            r is Ok <==> (old(self)@.km.index < u64::MAX && !pending_contains(
                old(self)@.store.pending,
                tx_id,
            ) && !commitment_known(
                old(self)@.store.recs,
                commit_of(next_key_of(old(self)@.km), amount),
            ) && sum_all(old(self)@.store.recs) + amount <= u64::MAX),
            r matches Ok(k) ==> {
                &&& k@ == next_key_of(old(self)@.km)
                &&& final(self)@ == (ServiceModel {
                    km: advanced(old(self)@.km),
                    store: StoreModel {
                        key_state: Some(advanced(old(self)@.km)),
                        recs: old(self)@.store.recs.push(
                            incoming_rec(
                                UnblindedOutput {
                                    value: amount,
                                    spending_key: k,
                                    features: OutputFeatures {
                                        coinbase: true,
                                        maturity: maturity_height,
                                    },
                                },
                                commit_of(next_key_of(old(self)@.km), amount),
                                tx_id,
                            ),
                        ),
                        pending: old(self)@.store.pending.push(
                            PendingTxRecord { tx_id, timestamp: now_ms, short_term: true },
                        ),
                        ..old(self)@.store
                    },
                    ..old(self)@
                })
            },
            r == Err::<[u8; 32], OutputManagerError>(OutputManagerError::KeyManagerError)
                <==> old(self)@.km.index == u64::MAX,
            r matches Err(e) ==> (e == OutputManagerError::KeyManagerError ==> final(self)@ == old(
                self,
            )@),
            r matches Err(e) ==> (e != OutputManagerError::KeyManagerError ==> (e
                == OutputManagerError::ConflictingEncumberance || e
                == OutputManagerError::StorageError) && final(self)@ == (ServiceModel {
                km: advanced(old(self)@.km),
                store: StoreModel {
                    key_state: Some(advanced(old(self)@.km)),
                    ..old(self)@.store
                },
                ..old(self)@
            })),
    {
        let key = match self.key_manager.next_key() {
            Err(e) => {
                return Err(e);
            },
            Ok(k) => k,
        };
        match self.db.increment_key_index() {
            Ok(()) => {},
            Err(_) => {
                proof {
                    assert(false);
                }
            },
        }
        let c = match pedersen_commit(&key, amount) {
            Some(c) => c,
            None => {
                proof {
                    assert(false);
                }
                return Err(OutputManagerError::ConversionError);
            },
        };
        let output = UnblindedOutput {
            value: amount,
            spending_key: key,
            features: OutputFeatures { coinbase: true, maturity: maturity_height },
        };
        match self.db.accept_incoming_pending_transaction(tx_id, output, c, now_ms) {
            Ok(()) => {},
            Err(e) => {
                proof {
                    assert(final(self)@ =~= (ServiceModel {
                        km: advanced(old(self)@.km),
                        store: StoreModel {
                            key_state: Some(advanced(old(self)@.km)),
                            ..old(self)@.store
                        },
                        ..old(self)@
                    }));
                }
                return Err(e);
            },
        }
        proof {
            assert(final(self)@ =~= (ServiceModel {
                km: advanced(old(self)@.km),
                store: StoreModel {
                    key_state: Some(advanced(old(self)@.km)),
                    recs: old(self)@.store.recs.push(
                        incoming_rec(
                            output,
                            commit_of(next_key_of(old(self)@.km), amount),
                            tx_id,
                        ),
                    ),
                    pending: old(self)@.store.pending.push(
                        PendingTxRecord { tx_id, timestamp: now_ms, short_term: true },
                    ),
                    ..old(self)@.store
                },
                ..old(self)@
            }));
        }
        Ok(key)
    }

    /// Confirm the reception of the single expected output of a transaction,
    /// identified by its commitment.
    pub fn confirm_received_transaction_output(
        &mut self,
        tx_id: u64,
        received_output: &TransactionOutput,
    ) -> (r: Result<(), OutputManagerError>)
        requires
            old(self).wf(),
        ensures
            final(self).wf(),
            old(self)@.km.index <= final(self)@.km.index,
            r is Ok <==> (pending_contains(old(self)@.store.pending, tx_id) && filter_tx_incoming(
                old(self)@.store.recs,
                tx_id,
            ).len() == 1 && filter_tx_incoming(old(self)@.store.recs, tx_id)[0].commitment
                == received_output.commitment@),
            r matches Ok(()) ==> final(self)@ == (ServiceModel {
                store: StoreModel {
                    recs: confirm_tx_recs(old(self)@.store.recs, tx_id),
                    pending: remove_pending(old(self)@.store.pending, tx_id),
                    ..old(self)@.store
                },
                ..old(self)@
            }),
            r is Err ==> final(self)@ == old(self)@,
            r == Err::<(), OutputManagerError>(OutputManagerError::UnknownTransaction)
                <==> !pending_contains(old(self)@.store.pending, tx_id),
            r == Err::<(), OutputManagerError>(OutputManagerError::IncompleteTransaction)
                <==> (pending_contains(old(self)@.store.pending, tx_id) && !(filter_tx_incoming(
                old(self)@.store.recs,
                tx_id,
            ).len() == 1 && filter_tx_incoming(old(self)@.store.recs, tx_id)[0].commitment
                == received_output.commitment@)),
    {
        if !self.db.contains_pending(tx_id) {
            return Err(OutputManagerError::UnknownTransaction);
        }
        let incoming = self.db.fetch_tx_incoming_records(tx_id);
        if incoming.len() != 1 {
            return Err(OutputManagerError::IncompleteTransaction);
        }
        proof {
            assert(incoming@[0]@ == filter_tx_incoming(self@.store.recs, tx_id)[0]);
        }
        if !bytes32_eq(&incoming[0].commitment, &received_output.commitment) {
            return Err(OutputManagerError::IncompleteTransaction);
        }
        match self.db.confirm_pending_transaction_outputs(tx_id) {
            Ok(()) => {},
            Err(_) => {
                proof {
                    assert(false);
                }
            },
        }
        proof {
            assert(final(self)@ =~= (ServiceModel {
                store: StoreModel {
                    recs: confirm_tx_recs(old(self)@.store.recs, tx_id),
                    pending: remove_pending(old(self)@.store.pending, tx_id),
                    ..old(self)@.store
                },
                ..old(self)@
            }));
        }
        Ok(())
    }

    /// Confirm a transaction seen on chain: every output the wallet expected
    /// to spend must appear among the transaction's inputs, and every output
    /// it expected to receive among the transaction's outputs, all by
    /// commitment. On a mismatch the pending record is preserved for retry or
    /// explicit cancellation.
    pub fn confirm_transaction(
        &mut self,
        tx_id: u64,
        inputs: &Vec<TransactionInput>,
        outputs: &Vec<TransactionOutput>,
    ) -> (r: Result<(), OutputManagerError>)
        requires
            old(self).wf(),
        ensures
            final(self).wf(),
            old(self)@.km.index <= final(self)@.km.index,
            r is Ok <==> (pending_contains(old(self)@.store.pending, tx_id) && tx_matches(
                old(self)@.store.recs,
                tx_id,
                inputs@,
                outputs@,
            )),
            r matches Ok(()) ==> final(self)@ == (ServiceModel {
                store: StoreModel {
                    recs: confirm_tx_recs(old(self)@.store.recs, tx_id),
                    pending: remove_pending(old(self)@.store.pending, tx_id),
                    ..old(self)@.store
                },
                ..old(self)@
            }),
            r is Err ==> final(self)@ == old(self)@,
            r == Err::<(), OutputManagerError>(OutputManagerError::UnknownTransaction)
                <==> !pending_contains(old(self)@.store.pending, tx_id),
            r == Err::<(), OutputManagerError>(OutputManagerError::IncompleteTransaction)
                <==> (pending_contains(old(self)@.store.pending, tx_id) && !tx_matches(
                old(self)@.store.recs,
                tx_id,
                inputs@,
                outputs@,
            )),
    {
        if !self.db.contains_pending(tx_id) {
            return Err(OutputManagerError::UnknownTransaction);
        }
        let spent = self.db.fetch_tx_outbound_records(tx_id);
        let received = self.db.fetch_tx_incoming_records(tx_id);
        let ghost sp = filter_tx_outbound(self@.store.recs, tx_id);
        let ghost rc = filter_tx_incoming(self@.store.recs, tx_id);
        let mut i: usize = 0;
        while i < spent.len()
            invariant
                old(self).wf(),
                self@ == old(self)@,
                i <= spent.len(),
                models(spent@) == sp,
                sp == filter_tx_outbound(self@.store.recs, tx_id),
                spent@.len() == sp.len(),
                pending_contains(old(self)@.store.pending, tx_id),
                forall|j: int| 0 <= j < i ==> commitment_in_inputs(#[trigger] sp[j].commitment, inputs@),
            decreases spent.len() - i,
        {
            if !Self::commitment_among_inputs(inputs, &spent[i].commitment) {
                proof {
                    assert(spent@[i as int]@ == sp[i as int]);
                    assert(!commitment_in_inputs(sp[i as int].commitment, inputs@));
                }
                return Err(OutputManagerError::IncompleteTransaction);
            }
            proof {
                assert(spent@[i as int]@ == sp[i as int]);
            }
            i = i + 1;
        }
        let mut k: usize = 0;
        while k < received.len()
            invariant
                old(self).wf(),
                self@ == old(self)@,
                k <= received.len(),
                models(received@) == rc,
                rc == filter_tx_incoming(self@.store.recs, tx_id),
                received@.len() == rc.len(),
                forall|j: int| 0 <= j < i ==> commitment_in_inputs(#[trigger] sp[j].commitment, inputs@),
                models(spent@) == sp,
                sp == filter_tx_outbound(self@.store.recs, tx_id),
                i == spent@.len(),
                spent@.len() == sp.len(),
                pending_contains(old(self)@.store.pending, tx_id),
                forall|j: int|
                    0 <= j < k ==> commitment_in_outputs(#[trigger] rc[j].commitment, outputs@),
            decreases received.len() - k,
        {
            if !Self::commitment_among_outputs(outputs, &received[k].commitment) {
                proof {
                    assert(received@[k as int]@ == rc[k as int]);
                    assert(!commitment_in_outputs(rc[k as int].commitment, outputs@));
                }
                return Err(OutputManagerError::IncompleteTransaction);
            }
            proof {
                assert(received@[k as int]@ == rc[k as int]);
            }
            k = k + 1;
        }
        match self.db.confirm_pending_transaction_outputs(tx_id) {
            Ok(()) => {},
            Err(_) => {
                proof {
                    assert(false);
                }
            },
        }
        proof {
            assert(final(self)@ =~= (ServiceModel {
                store: StoreModel {
                    recs: confirm_tx_recs(old(self)@.store.recs, tx_id),
                    pending: remove_pending(old(self)@.store.pending, tx_id),
                    ..old(self)@.store
                },
                ..old(self)@
            }));
        }
        Ok(())
    }

    /// Whether a commitment appears among the given transaction inputs.
    fn commitment_among_inputs(inputs: &Vec<TransactionInput>, c: &[u8; 32]) -> (r: bool)
        ensures
            r == commitment_in_inputs(c@, inputs@),
    {
        let mut i: usize = 0;
        while i < inputs.len()
            invariant
                i <= inputs.len(),
                forall|j: int| 0 <= j < i ==> (#[trigger] inputs@[j]).commitment@ != c@,
            decreases inputs.len() - i,
        {
            if bytes32_eq(&inputs[i].commitment, c) {
                assert(inputs@[i as int].commitment@ == c@);
                return true;
            }
            i = i + 1;
        }
        proof {
            if commitment_in_inputs(c@, inputs@) {
                let w = choose|w: int|
                    0 <= w < inputs@.len() && (#[trigger] inputs@[w]).commitment@ == c@;
                assert(false);
            }
        }
        false
    }

    /// Whether a commitment appears among the given transaction outputs.
    fn commitment_among_outputs(outputs: &Vec<TransactionOutput>, c: &[u8; 32]) -> (r: bool)
        ensures
            r == commitment_in_outputs(c@, outputs@),
    {
        let mut i: usize = 0;
        while i < outputs.len()
            invariant
                i <= outputs.len(),
                forall|j: int| 0 <= j < i ==> (#[trigger] outputs@[j]).commitment@ != c@,
            decreases outputs.len() - i,
        {
            if bytes32_eq(&outputs[i].commitment, c) {
                assert(outputs@[i as int].commitment@ == c@);
                return true;
            }
            i = i + 1;
        }
        proof {
            if commitment_in_outputs(c@, outputs@) {
                let w = choose|w: int|
                    0 <= w < outputs@.len() && (#[trigger] outputs@[w]).commitment@ == c@;
                assert(false);
            }
        }
        false
    }

    /// The outputs held in the given partition.
    fn records_to_outputs(records: &Vec<OutputRecord>) -> (r: Vec<UnblindedOutput>)
        ensures
            outs_match(r@, models(records@)),
    {
        let mut out: Vec<UnblindedOutput> = Vec::new();
        let mut i: usize = 0;
        while i < records.len()
            invariant
                i <= records.len(),
                out@.len() == i,
                forall|j: int| 0 <= j < i ==> out_matches(#[trigger] out@[j], models(records@)[j]),
            decreases records.len() - i,
        {
            out.push(records[i].output);
            proof {
                assert(out@[i as int] == records@[i as int].output);
                assert(models(records@)[i as int] == records@[i as int]@);
            }
            i = i + 1;
        }
        out
    }

    /// The spent outputs.
    pub fn fetch_spent_outputs(&self) -> (r: Result<Vec<UnblindedOutput>, OutputManagerError>)
        ensures
            match r {
                Ok(v) => outs_match(v@, filter_status(self@.store.recs, OutputStatus::Spent)),
                Err(_) => false,
            },
    {
        let records = self.db.fetch_records_with_status(OutputStatus::Spent);
        Ok(Self::records_to_outputs(&records))
    }

    /// The invalid outputs.
    pub fn fetch_invalid_outputs(&self) -> (r: Result<Vec<UnblindedOutput>, OutputManagerError>)
        ensures
            match r {
                Ok(v) => outs_match(v@, filter_status(self@.store.recs, OutputStatus::Invalid)),
                Err(_) => false,
            },
    {
        let records = self.db.fetch_records_with_status(OutputStatus::Invalid);
        Ok(Self::records_to_outputs(&records))
    }

    /// The unspent outputs, smallest value first.
    pub fn fetch_unspent_outputs(&self) -> (r: Result<Vec<UnblindedOutput>, OutputManagerError>)
        ensures
            match r {
                Ok(v) => {
                    &&& v@.len() == filter_status(self@.store.recs, OutputStatus::Unspent).len()
                    &&& forall|i: int, j: int|
                        0 <= i < j < v@.len() ==> (#[trigger] v@[i]).value <= (
                        #[trigger] v@[j]).value
                    &&& exists|s: Seq<RecModel>|
                        #[trigger] s.to_multiset() == filter_status(
                            self@.store.recs,
                            OutputStatus::Unspent,
                        ).to_multiset() && outs_match(v@, s)
                },
                Err(_) => false,
            },
    {
        let records = self.db.fetch_records_with_status(OutputStatus::Unspent);
        let sorted = sort_records(&records, false);
        let ghost ms = models(sorted@);
        let out = Self::records_to_outputs(&sorted);
        proof {
            assert(ms.to_multiset() == filter_status(
                self@.store.recs,
                OutputStatus::Unspent,
            ).to_multiset() && outs_match(out@, ms));
            models(sorted@).to_multiset_ensures();
            models(records@).to_multiset_ensures();
            assert forall|i: int, j: int| 0 <= i < j < out@.len() implies (#[trigger] out@[i]).value
                <= (#[trigger] out@[j]).value by {
                assert(out_matches(out@[i], ms[i]));
                assert(out_matches(out@[j], ms[j]));
                assert(sort_key(sorted@[i]@, false) <= sort_key(sorted@[j]@, false));
            }
        }
        Ok(out)
    }

    /// The pending transactions, with the outputs they would spend and
    /// deliver.
    pub fn fetch_pending_transaction_outputs(&self) -> (r: Result<
        Vec<PendingTransactionOutputs>,
        OutputManagerError,
    >)
        ensures
            match r {
                Ok(v) => {
                    &&& v@.len() == self@.store.pending.len()
                    &&& forall|i: int|
                        0 <= i < v@.len() ==> {
                            &&& (#[trigger] v@[i]).tx_id == self@.store.pending[i].tx_id
                            &&& v@[i].timestamp == self@.store.pending[i].timestamp
                            &&& outs_match(
                                v@[i].outputs_to_be_spent@,
                                filter_tx_outbound(self@.store.recs, self@.store.pending[i].tx_id),
                            )
                            &&& outs_match(
                                v@[i].outputs_to_be_received@,
                                filter_tx_incoming(self@.store.recs, self@.store.pending[i].tx_id),
                            )
                        }
                },
                Err(_) => false,
            },
    {
        let pending = self.db.pending_list();
        let mut out: Vec<PendingTransactionOutputs> = Vec::new();
        let mut i: usize = 0;
        while i < pending.len()
            invariant
                i <= pending.len(),
                pending@ == self@.store.pending,
                pending@.len() == self@.store.pending.len(),
                out@.len() == i,
                forall|j: int|
                    0 <= j < i ==> {
                        &&& (#[trigger] out@[j]).tx_id == self@.store.pending[j].tx_id
                        &&& out@[j].timestamp == self@.store.pending[j].timestamp
                        &&& outs_match(
                            out@[j].outputs_to_be_spent@,
                            filter_tx_outbound(self@.store.recs, self@.store.pending[j].tx_id),
                        )
                        &&& outs_match(
                            out@[j].outputs_to_be_received@,
                            filter_tx_incoming(self@.store.recs, self@.store.pending[j].tx_id),
                        )
                    },
            decreases pending.len() - i,
        {
            let p = pending[i];
            let spent_records = self.db.fetch_tx_outbound_records(p.tx_id);
            let received_records = self.db.fetch_tx_incoming_records(p.tx_id);
            let entry = PendingTransactionOutputs {
                tx_id: p.tx_id,
                outputs_to_be_spent: Self::records_to_outputs(&spent_records),
                outputs_to_be_received: Self::records_to_outputs(&received_records),
                timestamp: p.timestamp,
            };
            out.push(entry);
            i = i + 1;
        }
        Ok(out)
    }

    /// Choose which unspent outputs fulfil a transaction of `amount` with
    /// `output_count` planned outputs: accumulate outputs, smallest first
    /// under the strategy's order, until either the running total hits
    /// `amount` plus the no-change fee exactly, or covers `amount` plus the
    /// fee of one extra change output.
    #[verifier::rlimit(100)]
    #[verifier::spinoff_prover]
    pub fn select_utxos(
        &self,
        amount: MicroTari,
        fee_per_gram: MicroTari,
        output_count: usize,
        strategy: UTXOSelectionStrategy,
    ) -> (r: Result<(Vec<OutputRecord>, bool), OutputManagerError>)
        requires
            self.wf(),
            output_count < usize::MAX,
        ensures
            r is Err <==> cannot_cover(
                self@.store.recs,
                amount,
                fee_per_gram,
                output_count as int,
                strategy,
            ),
            match r {
                Ok(sel) => {
                    &&& selection_valid(
                        self@.store.recs,
                        models(sel.0@),
                        sel.1,
                        amount,
                        fee_per_gram,
                        output_count as int,
                        strategy,
                    )
                    &&& models(sel.0@).len() == selection_first_stop(
                        self@.store.recs,
                        amount,
                        fee_per_gram,
                        output_count as int,
                        strategy,
                    )
                    &&& sel.1 == selection_needs_change(
                        self@.store.recs,
                        amount,
                        fee_per_gram,
                        output_count as int,
                        strategy,
                    )
                    &&& sum_all(models(sel.0@)) == crate::selection::key_vals_sum(
                        sorted_unspent_keys(self@.store.recs, strategy).take(
                            models(sel.0@).len() as int,
                        ),
                    )
                },
                Err(e) => e == OutputManagerError::NotEnoughFunds && insufficient_funds(
                    self@.store.recs,
                    amount,
                    fee_per_gram,
                    output_count as int,
                ),
            },
    {
        let records = self.db.fetch_records_with_status(OutputStatus::Unspent);
        let by_mat = match strategy {
            UTXOSelectionStrategy::Smallest => false,
            UTXOSelectionStrategy::MaturityThenSmallest => true,
        };
        let sorted = sort_records(&records, by_mat);
        let ghost recs = self@.store.recs;
        let ghost cs = models(sorted@);
        proof {
            crate::selection::lemma_sorted_unspent_props(recs, cs);
            crate::store::lemma_sum_filter_status(recs, OutputStatus::Unspent);
        }
        let mut utxos: Vec<OutputRecord> = Vec::new();
        let mut total: u64 = 0;
        let mut require_change = false;
        let mut stopped = false;
        let mut i: usize = 0;
        proof {
            assert(cs.take(0) =~= Seq::<RecModel>::empty());
        }
        while i < sorted.len() && !stopped
            invariant
                self.wf(),
                recs == self@.store.recs,
                cs == models(sorted@),
                sorted@.len() == cs.len(),
                cs.len() == filter_status(recs, OutputStatus::Unspent).len(),
                cs.to_multiset() == filter_status(recs, OutputStatus::Unspent).to_multiset(),
                by_mat == by_maturity_strategy(strategy),
                i <= sorted.len(),
                output_count < usize::MAX,
                models(utxos@) == cs.take(i as int),
                utxos@.len() == i,
                total == sum_all(cs.take(i as int)),
                sum_all(cs) == sum_status(recs, OutputStatus::Unspent),
                sum_status(recs, OutputStatus::Unspent) <= sum_all(recs),
                forall|a: int|
                    0 <= a < cs.len() ==> (#[trigger] cs[a]).status == OutputStatus::Unspent
                        && rec_member(recs, cs[a]),
                forall|a: int, b: int|
                    0 <= a < b < cs.len() ==> (#[trigger] cs[a]).commitment != (
                    #[trigger] cs[b]).commitment,
                forall|a: int, b: int|
                    0 <= a < b < cs.len() ==> sort_key(#[trigger] sorted@[a]@, by_mat) <= sort_key(
                        #[trigger] sorted@[b]@,
                        by_mat,
                    ),
                by_mat == by_maturity_strategy(strategy),
                !stopped ==> forall|k: int|
                    1 <= k <= i ==> !sel_stop(cs, k, amount, fee_per_gram, output_count as int),
                !stopped ==> require_change == false,
                stopped ==> 1 <= i && sel_stop(cs, i as int, amount, fee_per_gram,
                output_count as int) && (forall|k: int|
                    1 <= k < i ==> !sel_stop(cs, k, amount, fee_per_gram, output_count as int))
                    && require_change == (!stop_no_change(
                    cs,
                    i as int,
                    amount,
                    fee_per_gram,
                    output_count as int,
                ) && stop_with_change(cs, i as int, amount, fee_per_gram, output_count as int)),
            decreases sorted.len() - i,
        {
            let rec = sorted[i];
            proof {
                crate::store::lemma_sum_take_succ(cs, i as int);
                crate::store::lemma_sums_nonneg(cs.take(i as int));
                crate::store::lemma_sum_all_prefix(cs, i as int + 1);
            }
            total = total + rec.output.value;
            utxos.push(rec);
            proof {
                assert(models(utxos@) =~= cs.take(i as int + 1));
            }
            i = i + 1;
            let fee_nc = Fee::calculate_checked(fee_per_gram, 1, i, output_count);
            let target_nc: Option<u64> = match fee_nc {
                Some(f) => amount.checked_add(f),
                None => None,
            };
            let mut hit_nc = false;
            match target_nc {
                Some(t) => {
                    if total == t {
                        hit_nc = true;
                    }
                },
                None => {},
            }
            proof {
                assert(hit_nc == stop_no_change(cs, i as int, amount, fee_per_gram,
                output_count as int));
            }
            if hit_nc {
                stopped = true;
            } else {
                let fee_wc = Fee::calculate_checked(fee_per_gram, 1, i, output_count + 1);
                let target_wc: Option<u64> = match fee_wc {
                    Some(f) => amount.checked_add(f),
                    None => None,
                };
                let mut hit_wc = false;
                match target_wc {
                    Some(t) => {
                        if total >= t {
                            hit_wc = true;
                        }
                    },
                    None => {},
                }
                proof {
                    assert(hit_wc == stop_with_change(cs, i as int, amount, fee_per_gram,
                    output_count as int));
                }
                if hit_wc {
                    require_change = true;
                    stopped = true;
                }
            }
        }
        if stopped {
            proof {
                let sel = models(utxos@);
                assert(sel == cs.take(i as int));
                assert(sel.take(sel.len() as int) =~= cs.take(i as int));
                assert forall|k: int|
                    1 <= k < sel.len() implies !sel_stop(
                    sel,
                    k,
                    amount,
                    fee_per_gram,
                    output_count as int,
                ) by {
                    assert(sel.take(k) =~= cs.take(k));
                    assert(!sel_stop(cs, k, amount, fee_per_gram, output_count as int));
                }
                assert forall|a: int, b: int|
                    0 <= a < sel.len() && 0 <= b < recs.len() && (#[trigger] recs[b]).status
                    == OutputStatus::Unspent && !sel_has_commitment(sel, recs[b].commitment) implies sort_key(
                    #[trigger] sel[a],
                    by_maturity_strategy(strategy),
                ) <= sort_key(recs[b], by_maturity_strategy(strategy)) by {
                    crate::store::lemma_filter_status_elems(recs, OutputStatus::Unspent);
                    assert(filter_status(recs, OutputStatus::Unspent).contains(recs[b]));
                    cs.to_multiset_ensures();
                    filter_status(recs, OutputStatus::Unspent).to_multiset_ensures();
                    assert(filter_status(recs, OutputStatus::Unspent).to_multiset().count(recs[b])
                        > 0);
                    assert(cs.to_multiset().count(recs[b]) > 0);
                    assert(cs.contains(recs[b]));
                    let w = choose|w: int| 0 <= w < cs.len() && cs[w] == recs[b];
                    if w < i {
                        assert(sel[w].commitment == recs[b].commitment);
                        assert(false);
                    }
                    assert(sorted@[a]@ == sel[a]);
                    assert(sorted@[w]@ == cs[w]);
                }
                assert(sum_all(sel) <= sum_status(recs, OutputStatus::Unspent)) by {
                    crate::store::lemma_sum_all_prefix(cs, i as int);
                }
            }
            proof {
                let ks = sorted_unspent_keys(recs, strategy);
                assert forall|a: int, b: int|
                    0 <= a < b < cs.len() implies sort_key(
                    #[trigger] cs[a],
                    by_maturity_strategy(strategy),
                ) <= sort_key(#[trigger] cs[b], by_maturity_strategy(strategy)) by {
                    assert(cs[a] == sorted@[a]@);
                    assert(cs[b] == sorted@[b]@);
                }
                lemma_selection_bridge(recs, cs, strategy);
                assert forall|k: int|
                    1 <= k <= cs.len() implies (keys_stop(
                    ks,
                    k,
                    amount,
                    fee_per_gram,
                    output_count as int,
                ) == sel_stop(cs, k, amount, fee_per_gram, output_count as int)) && (
                keys_stop_no_change(ks, k, amount, fee_per_gram, output_count as int)
                    == stop_no_change(cs, k, amount, fee_per_gram, output_count as int)) by {
                    assert(crate::selection::key_vals_sum(ks.take(k)) == sum_all(cs.take(k)));
                }
            }
            proof {
                let ks = sorted_unspent_keys(recs, strategy);
                assert(keys_stop(ks, i as int, amount, fee_per_gram, output_count as int));
                assert forall|j: int|
                    1 <= j < i as int implies !keys_stop(
                    ks,
                    j,
                    amount,
                    fee_per_gram,
                    output_count as int,
                ) by {
                    assert(!sel_stop(cs, j, amount, fee_per_gram, output_count as int));
                }
                lemma_first_stop_is(ks, i as int, amount, fee_per_gram, output_count as int);
                assert(selection_first_stop(recs, amount, fee_per_gram, output_count as int,
                strategy) == i as int);
                assert(require_change == selection_needs_change(
                    recs,
                    amount,
                    fee_per_gram,
                    output_count as int,
                    strategy,
                ));
                assert(!cannot_cover(recs, amount, fee_per_gram, output_count as int, strategy));
                assert(sum_all(models(utxos@)) == crate::selection::key_vals_sum(
                    ks.take(i as int),
                ));
            }
            return Ok((utxos, require_change));
        }
            proof {
                let ks = sorted_unspent_keys(recs, strategy);
                assert forall|a: int, b: int|
                    0 <= a < b < cs.len() implies sort_key(
                    #[trigger] cs[a],
                    by_maturity_strategy(strategy),
                ) <= sort_key(#[trigger] cs[b], by_maturity_strategy(strategy)) by {
                    assert(cs[a] == sorted@[a]@);
                    assert(cs[b] == sorted@[b]@);
                }
                lemma_selection_bridge(recs, cs, strategy);
                assert forall|k: int|
                    1 <= k <= cs.len() implies (keys_stop(
                    ks,
                    k,
                    amount,
                    fee_per_gram,
                    output_count as int,
                ) == sel_stop(cs, k, amount, fee_per_gram, output_count as int)) && (
                keys_stop_no_change(ks, k, amount, fee_per_gram, output_count as int)
                    == stop_no_change(cs, k, amount, fee_per_gram, output_count as int)) by {
                    assert(crate::selection::key_vals_sum(ks.take(k)) == sum_all(cs.take(k)));
                }
            }
        if utxos.len() == 0 {
            proof {
                let ks = sorted_unspent_keys(recs, strategy);
                assert(ks.len() == 0);
                assert(selection_first_stop(recs, amount, fee_per_gram, output_count as int,
                strategy) == 0);
                assert(!selection_needs_change(recs, amount, fee_per_gram, output_count as int,
                strategy));
                assert(ks.take(0) =~= Seq::<int>::empty());
                assert(crate::selection::key_vals_sum(ks.take(0)) == 0);
                assert(models(utxos@) =~= Seq::<RecModel>::empty());
            }
            if amount == 0 {
                return Ok((utxos, false));
            }
            return Err(OutputManagerError::NotEnoughFunds);
        }
        proof {
            assert(cs.take(cs.len() as int) =~= cs);
            assert(!sel_stop(cs, cs.len() as int, amount, fee_per_gram, output_count as int));
            let ks = sorted_unspent_keys(recs, strategy);
            assert forall|k: int|
                1 <= k <= ks.len() implies !keys_stop(
                ks,
                k,
                amount,
                fee_per_gram,
                output_count as int,
            ) by {
                assert(!sel_stop(cs, k, amount, fee_per_gram, output_count as int));
            }
            assert(cannot_cover(recs, amount, fee_per_gram, output_count as int, strategy));
        }
        Err(OutputManagerError::NotEnoughFunds)
    }

    /// Sum of the values of a list of records.
    fn total_of(records: &Vec<OutputRecord>) -> (r: u64)
        requires
            sum_all(models(records@)) <= u64::MAX,
        ensures
            r == sum_all(models(records@)),
    {
        let ghost ms = models(records@);
        let mut t: u64 = 0;
        let mut i: usize = 0;
        proof {
            assert(ms.take(0) =~= Seq::<RecModel>::empty());
        }
        while i < records.len()
            invariant
                i <= records.len(),
                ms == models(records@),
                ms.len() == records.len(),
                sum_all(ms) <= u64::MAX,
                t == sum_all(ms.take(i as int)),
            decreases records.len() - i,
        {
            proof {
                crate::store::lemma_sum_take_succ(ms, i as int);
                crate::store::lemma_sums_nonneg(ms.take(i as int));
                crate::store::lemma_sum_all_prefix(ms, i as int + 1);
            }
            t = t + records[i].output.value;
            i = i + 1;
        }
        proof {
            assert(ms.take(ms.len() as int) =~= ms);
        }
        t
    }

    /// Prepare a sender transaction draft for the amount and fee rate: select
    /// inputs maturity-first, decide whether a change output is needed,
    /// derive a fresh change key if so, and encumber everything against the
    /// new transaction id.
    #[verifier::rlimit(100)]
    #[verifier::spinoff_prover]
    pub fn prepare_transaction_to_send(
        &mut self,
        amount: MicroTari,
        fee_per_gram: MicroTari,
        lock_height: Option<u64>,
        message: String,
        now_ms: u64,
    ) -> (r: Result<SenderTransactionProtocol, OutputManagerError>)
        requires
            old(self).wf(),
        ensures
            final(self).wf(),
            old(self)@.km.index <= final(self)@.km.index,
            r == Err::<SenderTransactionProtocol, OutputManagerError>(
                OutputManagerError::NotEnoughFunds,
            ) <==> cannot_cover(
                old(self)@.store.recs,
                amount,
                fee_per_gram,
                1,
                UTXOSelectionStrategy::MaturityThenSmallest,
            ),
            r == Err::<SenderTransactionProtocol, OutputManagerError>(
                OutputManagerError::NotEnoughFunds,
            ) ==> insufficient_funds(old(self)@.store.recs, amount, fee_per_gram, 1),
            r == Err::<SenderTransactionProtocol, OutputManagerError>(
                OutputManagerError::KeyManagerError,
            ) <==> (!cannot_cover(
                old(self)@.store.recs,
                amount,
                fee_per_gram,
                1,
                UTXOSelectionStrategy::MaturityThenSmallest,
            ) && selection_needs_change(
                old(self)@.store.recs,
                amount,
                fee_per_gram,
                1,
                UTXOSelectionStrategy::MaturityThenSmallest,
            ) && old(self)@.km.index == u64::MAX),
            r == Err::<SenderTransactionProtocol, OutputManagerError>(
                OutputManagerError::StorageError,
            ) ==> (selection_needs_change(
                old(self)@.store.recs,
                amount,
                fee_per_gram,
                1,
                UTXOSelectionStrategy::MaturityThenSmallest,
            ) && sum_all(old(self)@.store.recs) + prepare_change_value(
                old(self)@.store.recs,
                amount,
                fee_per_gram,
            ) > u64::MAX),
            r == Err::<SenderTransactionProtocol, OutputManagerError>(
                OutputManagerError::ConflictingEncumberance,
            ) ==> (old(self)@.store.pending.len() > 0 || commitment_known(
                old(self)@.store.recs,
                commit_of(
                    next_key_of(old(self)@.km),
                    prepare_change_value(old(self)@.store.recs, amount, fee_per_gram) as u64,
                ),
            )),
            r matches Ok(stp) ==> prepare_ok(
                old(self)@,
                stp,
                amount,
                fee_per_gram,
                lock_height,
                message@,
                now_ms,
                final(self)@,
            ),
            r matches Err(e) ==> {
                &&& (e == OutputManagerError::NotEnoughFunds || e
                    == OutputManagerError::KeyManagerError || e
                    == OutputManagerError::ConflictingEncumberance || e
                    == OutputManagerError::StorageError)
                &&& (e == OutputManagerError::NotEnoughFunds || e
                    == OutputManagerError::KeyManagerError ==> final(self)@ == old(self)@)
                &&& (e == OutputManagerError::KeyManagerError ==> old(self)@.km.index == u64::MAX)
                &&& (final(self)@ == old(self)@ || final(self)@ == (ServiceModel {
                    km: advanced(old(self)@.km),
                    store: StoreModel {
                        key_state: Some(advanced(old(self)@.km)),
                        ..old(self)@.store
                    },
                    ..old(self)@
                }))
            },
    {
        let sel_res = self.select_utxos(
            amount,
            fee_per_gram,
            1,
            UTXOSelectionStrategy::MaturityThenSmallest,
        );
        let (sel, require_change) = match sel_res {
            Ok(s) => s,
            Err(e) => {
                return Err(e);
            },
        };
        let ghost selm = models(sel@);
        proof {
            crate::store::lemma_sum_filter_status(old(self)@.store.recs, OutputStatus::Unspent);
        }
        let total = Self::total_of(&sel);
        let n = sel.len();
        let fee_nc_opt = Fee::calculate_checked(fee_per_gram, 1, n, 1);
        let needs_change = match fee_nc_opt {
            Some(f) => match amount.checked_add(f) {
                Some(t) => total > t,
                None => false,
            },
            None => false,
        };
        proof {
            assert(needs_change == (sum_all(selm) > amount + fee_for(
                fee_per_gram,
                1,
                n as int,
                1,
            )));
            if n > 0 {
                crate::selection::lemma_fee_mono(fee_per_gram, 1, n as int, 1, 2);
                assert(selm.take(n as int) =~= selm);
                if needs_change {
                    // the stop rule that fired must have been the with-change one
                    assert(!stop_no_change(selm, n as int, amount, fee_per_gram, 1));
                    assert(stop_with_change(selm, n as int, amount, fee_per_gram, 1));
                } else {
                    // conversely, if change was not needed the no-change rule fired
                    if !stop_no_change(selm, n as int, amount, fee_per_gram, 1)
                        && stop_with_change(selm, n as int, amount, fee_per_gram, 1) {
                        assert(sum_all(selm) > amount + fee_for(fee_per_gram, 1, n as int, 1));
                    }
                }
            }
            if n == 0 {
                assert(selm.take(0) =~= Seq::<RecModel>::empty());
                crate::selection::lemma_fee_nonneg(fee_per_gram, 1, 0, 1);
            }
            assert(needs_change == require_change);
            assert(needs_change == selection_needs_change(
                old(self)@.store.recs,
                amount,
                fee_per_gram,
                1,
                UTXOSelectionStrategy::MaturityThenSmallest,
            ));
        }
        let mut change_key: Option<[u8; 32]> = None;
        let mut fee: u64 = 0;
        let mut change_value: u64 = 0;
        if needs_change {
            proof {
                assert(n > 0) by {
                    if n == 0 {
                        assert(selm.take(0) =~= Seq::<RecModel>::empty());
                    }
                }
                assert(stop_with_change(selm, n as int, amount, fee_per_gram, 1));
                assert(selm.take(n as int) =~= selm);
            }
            let key = match self.key_manager.next_key() {
                Ok(k) => k,
                Err(e) => {
                    proof {
                        assert(e == OutputManagerError::KeyManagerError);
                        assert(old(self)@.km.index == u64::MAX);
                    }
                    return Err(e);
                },
            };
            match self.db.increment_key_index() {
                Ok(()) => {},
                Err(_) => {
                    proof {
                        assert(false);
                    }
                },
            }
            let f = match Fee::calculate_checked(fee_per_gram, 1, n, 2) {
                Some(f) => f,
                None => {
                    proof {
                        crate::store::lemma_sums_nonneg(selm);
                        assert(false);
                    }
                    0
                },
            };
            fee = f;
            change_value = total - amount - f;
            change_key = Some(key);
        } else {
            fee = Fee::calculate(fee_per_gram, 1, n, 1);
        }
        let tx_id = random_u64();
        let wide_a = random_bytes_64();
        let offset = scalar_from_wide_bytes(&wide_a);
        let wide_b = random_bytes_64();
        let nonce = scalar_from_wide_bytes(&wide_b);
        let mut spent_cs: Vec<[u8; 32]> = Vec::new();
        let mut i: usize = 0;
        while i < sel.len()
            invariant
                i <= sel.len(),
                selm == models(sel@),
                selm.len() == sel@.len(),
                spent_cs@.len() == i,
                forall|j: int| 0 <= j < i ==> (#[trigger] spent_cs@[j])@ == selm[j].commitment,
            decreases sel.len() - i,
        {
            spent_cs.push(sel[i].commitment);
            i = i + 1;
        }
        let mut change_outs: Vec<UnblindedOutput> = Vec::new();
        let mut change_cs: Vec<[u8; 32]> = Vec::new();
        let mut change_output: Option<UnblindedOutput> = None;
        match change_key {
            Some(key) => {
                let o = UnblindedOutput {
                    value: change_value,
                    spending_key: key,
                    features: OutputFeatures { coinbase: false, maturity: 0 },
                };
                let cc = match pedersen_commit(&key, change_value) {
                    Some(c) => c,
                    None => {
                        proof {
                            assert(false);
                        }
                        [0u8; 32]
                    },
                };
                change_outs.push(o);
                change_cs.push(cc);
                change_output = Some(o);
            },
            None => {},
        }
        let ghost mid = self@;
        let ghost chval = prepare_change_value(old(self)@.store.recs, amount, fee_per_gram);
        proof {
            if needs_change {
                assert(selm.len() as int == selection_first_stop(
                    old(self)@.store.recs,
                    amount,
                    fee_per_gram,
                    1,
                    UTXOSelectionStrategy::MaturityThenSmallest,
                ));
                assert(change_value as int == chval);
            }
        }
        let enc = self.db.encumber_outputs(tx_id, &spent_cs, &change_outs, &change_cs, now_ms);
        match enc {
            Err(e) => {
                proof {
                    assert(bytes_views(spent_cs@) =~= commitments_of(selm));
                    assert(mid.store.recs == old(self)@.store.recs);
                    if e == OutputManagerError::StorageError {
                        if !needs_change {
                            assert(change_outs@ =~= Seq::<UnblindedOutput>::empty());
                            assert(crate::store::sum_outputs(change_outs@) == 0);
                            assert(false);
                        }
                        assert(change_outs@.drop_last() =~= Seq::<UnblindedOutput>::empty());
                        assert(crate::store::sum_outputs(change_outs@.drop_last()) == 0);
                        assert(crate::store::sum_outputs(change_outs@) == change_value);
                    }
                    if e == OutputManagerError::ConflictingEncumberance {
                        assert forall|a: int, b: int|
                            0 <= a < b < spent_cs@.len() implies #[trigger] bytes_views(
                            spent_cs@,
                        )[a] != #[trigger] bytes_views(spent_cs@)[b] by {
                            assert(bytes_views(spent_cs@)[a] == selm[a].commitment);
                            assert(bytes_views(spent_cs@)[b] == selm[b].commitment);
                        }
                        if crate::store::pending_contains(mid.store.pending, tx_id) {
                        }
                        if exists|w: int|
                            0 <= w < change_cs@.len() && commitment_known(
                                mid.store.recs,
                                #[trigger] bytes_views(change_cs@)[w],
                            ) {
                            let w = choose|w: int|
                                0 <= w < change_cs@.len() && commitment_known(
                                    mid.store.recs,
                                    #[trigger] bytes_views(change_cs@)[w],
                                );
                            assert(w == 0);
                            assert(bytes_views(change_cs@)[0] == commit_of(
                                next_key_of(old(self)@.km),
                                chval as u64,
                            ));
                        }
                        if exists|w: int|
                            0 <= w < mid.store.pending.len() && (
                            #[trigger] mid.store.pending[w]).tx_id == tx_id {
                            assert(old(self)@.store.pending.len() > 0);
                        }
                    }
                    if e == OutputManagerError::MissingOutput {
                        let w = choose|w: int|
                            0 <= w < spent_cs@.len() && !crate::store::unspent_known(
                                mid.store.recs,
                                #[trigger] bytes_views(spent_cs@)[w],
                            );
                        assert(rec_member(old(self)@.store.recs, selm[w]));
                        let j = choose|j: int|
                            0 <= j < old(self)@.store.recs.len() && old(self)@.store.recs[j]
                                == selm[w];
                        assert(mid.store.recs[j].commitment == selm[w].commitment);
                        assert(mid.store.recs[j].status == OutputStatus::Unspent);
                        assert(false);
                    }
                    if needs_change {
                        assert(final(self)@ =~= (ServiceModel {
                            km: advanced(old(self)@.km),
                            store: StoreModel {
                                key_state: Some(advanced(old(self)@.km)),
                                ..old(self)@.store
                            },
                            ..old(self)@
                        }));
                    } else {
                        assert(final(self)@ =~= old(self)@);
                    }
                }
                Err(e)
            },
            Ok(()) => {
                let inputs = Self::records_to_outputs(&sel);
                let lh = match lock_height {
                    Some(h) => h,
                    None => 0,
                };
                let stp = SenderTransactionProtocol {
                    tx_id,
                    amount,
                    fee,
                    lock_height: lh,
                    message,
                    inputs,
                    change_output,
                    offset,
                    nonce,
                    amount_to_self: change_value,
                };
                proof {
                    assert(bytes_views(spent_cs@) =~= commitments_of(selm));
                    let marked = crate::store::mark_encumbered_recs(
                        mid.store.recs,
                        commitments_of(selm),
                        tx_id,
                    );
                    if needs_change {
                        let ch = change_output->Some_0;
                        assert(crate::store::incoming_recs(change_outs@, change_cs@, tx_id)
                            =~= seq![
                            incoming_rec(ch, commit_of(ch.spending_key@, ch.value), tx_id),
                        ]);
                        assert(prepare_witness(
                            old(self)@,
                            stp,
                            amount,
                            fee_per_gram,
                            lock_height,
                            message@,
                            now_ms,
                            final(self)@,
                            selm,
                        )) by {
                            assert(final(self)@.store.recs == marked + seq![
                                incoming_rec(ch, commit_of(ch.spending_key@, ch.value), tx_id),
                            ]);
                            assert(final(self)@ =~= (ServiceModel {
                                km: advanced(old(self)@.km),
                                store: StoreModel {
                                    key_state: Some(advanced(old(self)@.km)),
                                    recs: marked + seq![
                                        incoming_rec(
                                            ch,
                                            commit_of(ch.spending_key@, ch.value),
                                            tx_id,
                                        ),
                                    ],
                                    pending: old(self)@.store.pending.push(
                                        PendingTxRecord {
                                            tx_id,
                                            timestamp: now_ms,
                                            short_term: true,
                                        },
                                    ),
                                    ..old(self)@.store
                                },
                                ..old(self)@
                            }));
                        }
                    } else {
                        assert(crate::store::incoming_recs(change_outs@, change_cs@, tx_id)
                            =~= Seq::<RecModel>::empty());
                        assert(marked + Seq::<RecModel>::empty() =~= marked);
                        assert(prepare_witness(
                            old(self)@,
                            stp,
                            amount,
                            fee_per_gram,
                            lock_height,
                            message@,
                            now_ms,
                            final(self)@,
                            selm,
                        )) by {
                            assert(final(self)@ =~= (ServiceModel {
                                store: StoreModel {
                                    recs: marked,
                                    pending: old(self)@.store.pending.push(
                                        PendingTxRecord {
                                            tx_id,
                                            timestamp: now_ms,
                                            short_term: true,
                                        },
                                    ),
                                    ..old(self)@.store
                                },
                                ..old(self)@
                            }));
                        }
                    }
                }
                Ok(stp)
            },
        }
    }

    /// Encumber the selected outputs and expected incoming outputs against a
    /// new transaction and immediately promote the encumberance out of its
    /// short-term state.
    #[verifier::rlimit(100)]
    #[verifier::spinoff_prover]
    fn encumber_and_confirm(
        &mut self,
        tx_id: u64,
        spent_cs: &Vec<[u8; 32]>,
        outputs: &Vec<UnblindedOutput>,
        out_cs: &Vec<[u8; 32]>,
        now_ms: u64,
    ) -> (r: Result<(), OutputManagerError>)
        requires
            old(self).wf(),
            outputs@.len() == out_cs@.len(),
        ensures
            final(self).wf(),
            old(self)@.km.index <= final(self)@.km.index,
            match r {
                Ok(()) => final(self)@ == (ServiceModel {
                    store: StoreModel {
                        recs: crate::store::confirm_enc_recs(
                            crate::store::mark_encumbered_recs(
                                old(self)@.store.recs,
                                bytes_views(spent_cs@),
                                tx_id,
                            ) + crate::store::incoming_recs(outputs@, out_cs@, tx_id),
                            tx_id,
                        ),
                        pending: old(self)@.store.pending.push(
                            PendingTxRecord { tx_id, timestamp: now_ms, short_term: false },
                        ),
                        ..old(self)@.store
                    },
                    ..old(self)@
                }),
                Err(e) => {
                    &&& final(self)@ == old(self)@
                    &&& (e == OutputManagerError::ConflictingEncumberance || e
                        == OutputManagerError::MissingOutput || e
                        == OutputManagerError::StorageError)
                    &&& (e == OutputManagerError::MissingOutput ==> exists|w: int|
                        0 <= w < spent_cs@.len() && !crate::store::unspent_known(
                            old(self)@.store.recs,
                            #[trigger] bytes_views(spent_cs@)[w],
                        ))
                    &&& (e == OutputManagerError::StorageError ==> sum_all(old(self)@.store.recs)
                        + crate::store::sum_outputs(outputs@) > u64::MAX)
                    &&& (e == OutputManagerError::ConflictingEncumberance ==> ({
                        ||| pending_contains(old(self)@.store.pending, tx_id)
                        ||| exists|i: int, j: int|
                            0 <= i < j < spent_cs@.len() && #[trigger] bytes_views(spent_cs@)[i]
                                == #[trigger] bytes_views(spent_cs@)[j]
                        ||| exists|i: int|
                            0 <= i < out_cs@.len() && commitment_known(
                                old(self)@.store.recs,
                                #[trigger] bytes_views(out_cs@)[i],
                            )
                        ||| exists|i: int, j: int|
                            0 <= i < j < out_cs@.len() && #[trigger] bytes_views(out_cs@)[i]
                                == #[trigger] bytes_views(out_cs@)[j]
                    }))
                },
            },
    {
        match self.db.encumber_outputs(tx_id, spent_cs, outputs, out_cs, now_ms) {
            Err(e) => {
                return Err(e);
            },
            Ok(()) => {},
        }
        let ghost pushed = self@;
        match self.confirm_encumberance(tx_id) {
            Ok(()) => {},
            Err(_) => {
                proof {
                    assert(pending_contains(pushed.store.pending, tx_id)) by {
                        assert(pushed.store.pending[pushed.store.pending.len() - 1].tx_id == tx_id);
                    }
                    assert(false);
                }
            },
        }
        proof {
            let pend1 = old(self)@.store.pending.push(
                PendingTxRecord { tx_id, timestamp: now_ms, short_term: true },
            );
            assert forall|j: int| 0 <= j < pend1.len() implies clear_short_term_flag(
                pend1,
                tx_id,
            )[j] == (if j < old(self)@.store.pending.len() {
                old(self)@.store.pending[j]
            } else {
                PendingTxRecord { tx_id, timestamp: now_ms, short_term: false }
            }) by {
                if j < old(self)@.store.pending.len() {
                    if pend1[j].tx_id == tx_id {
                        assert(pending_contains(old(self)@.store.pending, tx_id));
                    }
                }
            }
            assert(clear_short_term_flag(pend1, tx_id) =~= old(self)@.store.pending.push(
                PendingTxRecord { tx_id, timestamp: now_ms, short_term: false },
            ));
            assert(final(self)@ =~= (ServiceModel {
                store: StoreModel {
                    recs: crate::store::confirm_enc_recs(
                        crate::store::mark_encumbered_recs(
                            old(self)@.store.recs,
                            bytes_views(spent_cs@),
                            tx_id,
                        ) + crate::store::incoming_recs(outputs@, out_cs@, tx_id),
                        tx_id,
                    ),
                    pending: old(self)@.store.pending.push(
                        PendingTxRecord { tx_id, timestamp: now_ms, short_term: false },
                    ),
                    ..old(self)@.store
                },
                ..old(self)@
            }));
        }
        Ok(())
    }

    /// Chain-level inputs spending the given records.
    fn inputs_from_records(records: &Vec<OutputRecord>) -> (r: Vec<TransactionInput>)
        ensures
            r@.len() == records@.len(),
            forall|i: int|
                0 <= i < records@.len() ==> (#[trigger] r@[i]).commitment@ == models(
                    records@,
                )[i].commitment,
    {
        let mut out: Vec<TransactionInput> = Vec::new();
        let mut a: usize = 0;
        while a < records.len()
            invariant
                a <= records.len(),
                out@.len() == a,
                forall|j: int|
                    0 <= j < a ==> (#[trigger] out@[j]).commitment@ == models(
                        records@,
                    )[j].commitment,
            decreases records.len() - a,
        {
            out.push(
                TransactionInput {
                    features: records[a].output.features,
                    commitment: records[a].commitment,
                },
            );
            proof {
                assert(out@[a as int].commitment@ == models(records@)[a as int].commitment);
            }
            a = a + 1;
        }
        out
    }

    /// Chain-level outputs for the given commitments, with plain features.
    fn outputs_from_commitments(cs: &Vec<[u8; 32]>) -> (r: Vec<TransactionOutput>)
        ensures
            r@.len() == cs@.len(),
            forall|i: int| 0 <= i < cs@.len() ==> (#[trigger] r@[i]).commitment == cs@[i],
    {
        let mut out: Vec<TransactionOutput> = Vec::new();
        let mut b: usize = 0;
        while b < cs.len()
            invariant
                b <= cs.len(),
                out@.len() == b,
                forall|j: int| 0 <= j < b ==> (#[trigger] out@[j]).commitment == cs@[j],
            decreases cs.len() - b,
        {
            out.push(
                TransactionOutput {
                    features: OutputFeatures { coinbase: false, maturity: 0 },
                    commitment: cs[b],
                },
            );
            b = b + 1;
        }
        out
    }

    /// Derive one fresh output per planned split output: `split_count`
    /// outputs of `amount_per_split` and, beyond those, outputs of
    /// `change_amount`. Each output consumes one issuance.
    #[verifier::rlimit(100)]
    #[verifier::spinoff_prover]
    fn derive_split_outputs(
        &mut self,
        split_count: usize,
        output_count: usize,
        amount_per_split: u64,
        change_amount: u64,
    ) -> (r: Result<(Vec<UnblindedOutput>, Vec<[u8; 32]>), OutputManagerError>)
        requires
            old(self).wf(),
            split_count <= output_count,
            output_count < usize::MAX,
        ensures
            final(self).wf(),
            old(self)@.km.index <= final(self)@.km.index,
            match r {
                Ok(oc) => {
                    &&& old(self)@.km.index + output_count <= u64::MAX
                    &&& final(self)@ == (ServiceModel {
                        km: advanced_by(old(self)@.km, output_count as int),
                        store: StoreModel {
                            key_state: Some(advanced_by(old(self)@.km, output_count as int)),
                            ..old(self)@.store
                        },
                        ..old(self)@
                    })
                    &&& oc.0@.len() == output_count
                    &&& oc.1@.len() == output_count
                    &&& forall|i: int|
                        0 <= i < output_count ==> {
                            &&& (#[trigger] oc.0@[i]).value == (if i < split_count {
                                amount_per_split
                            } else {
                                change_amount
                            })
                            &&& oc.0@[i].spending_key@ == derived_key_of(
                                old(self)@.km.master,
                                old(self)@.km.branch,
                                (old(self)@.km.index + 1 + i) as u64,
                            )
                            &&& oc.0@[i].features.coinbase == false
                            &&& oc.0@[i].features.maturity == 0
                        }
                    &&& forall|i: int|
                        0 <= i < output_count ==> (#[trigger] oc.1@[i])@ == commit_of(
                            oc.0@[i].spending_key@,
                            oc.0@[i].value,
                        )
                    &&& crate::store::sum_outputs(oc.0@) == split_values_sum(
                        split_count as int,
                        amount_per_split as int,
                        change_amount as int,
                        output_count as int,
                    )
                },
                Err(e) => {
                    &&& e == OutputManagerError::KeyManagerError
                    &&& old(self)@.km.index + output_count > u64::MAX
                    &&& exists|j: int|
                        0 <= j <= output_count && old(self)@.km.index + j <= u64::MAX && final(self)@
                            == (ServiceModel {
                            km: #[trigger] advanced_by(old(self)@.km, j),
                            store: StoreModel {
                                key_state: Some(advanced_by(old(self)@.km, j)),
                                ..old(self)@.store
                            },
                            ..old(self)@
                        })
                },
            },
    {
        let ghost km0 = old(self)@.km;
        proof {
            assert(old(self)@ =~= (ServiceModel {
                km: advanced_by(km0, 0),
                store: StoreModel { key_state: Some(advanced_by(km0, 0)), ..old(self)@.store },
                ..old(self)@
            }));
        }
        let mut outputs: Vec<UnblindedOutput> = Vec::new();
        let mut out_cs: Vec<[u8; 32]> = Vec::new();
        let mut k: usize = 0;
        while k < output_count
            invariant
                self.wf(),
                k <= output_count,
                output_count < usize::MAX,
                km0 == old(self)@.km,
                km0.index + k <= u64::MAX,
                self@.km == advanced_by(km0, k as int),
                self@.store.key_state == Some(advanced_by(km0, k as int)),
                self@.store.recs == old(self)@.store.recs,
                self@.store.pending == old(self)@.store.pending,
                self@.base_node_key == old(self)@.base_node_key,
                self@.queries == old(self)@.queries,
                self@.timeout_ms == old(self)@.timeout_ms,
                outputs@.len() == k,
                out_cs@.len() == k,
                crate::store::sum_outputs(outputs@) == split_values_sum(
                    split_count as int,
                    amount_per_split as int,
                    change_amount as int,
                    k as int,
                ),
                forall|i: int|
                    0 <= i < k ==> {
                        &&& (#[trigger] outputs@[i]).value == (if i < split_count {
                            amount_per_split
                        } else {
                            change_amount
                        })
                        &&& outputs@[i].spending_key@ == derived_key_of(
                            km0.master,
                            km0.branch,
                            (km0.index + 1 + i) as u64,
                        )
                        &&& outputs@[i].features.coinbase == false
                        &&& outputs@[i].features.maturity == 0
                    },
                forall|i: int|
                    0 <= i < k ==> (#[trigger] out_cs@[i])@ == commit_of(
                        outputs@[i].spending_key@,
                        outputs@[i].value,
                    ),
            decreases output_count - k,
        {
            let value = if k < split_count {
                amount_per_split
            } else {
                change_amount
            };
            let key = match self.key_manager.next_key() {
                Ok(kk) => kk,
                Err(e) => {
                    proof {
                        assert(km0.index + k == u64::MAX);
                        assert(km0.index + output_count > u64::MAX);
                        assert(final(self)@ =~= (ServiceModel {
                            km: advanced_by(km0, k as int),
                            store: StoreModel {
                                key_state: Some(advanced_by(km0, k as int)),
                                ..old(self)@.store
                            },
                            ..old(self)@
                        }));
                    }
                    return Err(e);
                },
            };
            match self.db.increment_key_index() {
                Ok(()) => {},
                Err(_) => {
                    proof {
                        assert(false);
                    }
                },
            }
            let c = match pedersen_commit(&key, value) {
                Some(c) => c,
                None => {
                    proof {
                        assert(false);
                    }
                    [0u8; 32]
                },
            };
            let ghost outs_before = outputs@;
            outputs.push(
                UnblindedOutput {
                    value,
                    spending_key: key,
                    features: OutputFeatures { coinbase: false, maturity: 0 },
                },
            );
            out_cs.push(c);
            proof {
                assert(outputs@.drop_last() =~= outs_before);
                assert(km0.index + k < u64::MAX);
                assert(outputs@[k as int].value == value);
                assert(outputs@[k as int].spending_key@ == key@);
                assert(outputs@[k as int].spending_key@ == derived_key_of(
                    km0.master,
                    km0.branch,
                    (km0.index + 1 + k) as u64,
                ));
                assert(out_cs@[k as int]@ == commit_of(
                    outputs@[k as int].spending_key@,
                    outputs@[k as int].value,
                ));
            }
            k = k + 1;
            proof {
                assert(self@.km =~= advanced_by(km0, k as int));
            }
        }
        proof {
            assert(final(self)@ =~= (ServiceModel {
                km: advanced_by(km0, output_count as int),
                store: StoreModel {
                    key_state: Some(advanced_by(km0, output_count as int)),
                    ..old(self)@.store
                },
                ..old(self)@
            }));
        }
        Ok((outputs, out_cs))
    }

    /// Select the inputs for a coin split and settle its arithmetic: the
    /// fee, the total drawn from the wallet, and the residual change.
    #[verifier::rlimit(100)]
    #[verifier::spinoff_prover]
    fn plan_coin_split(
        &self,
        amount_per_split: MicroTari,
        split_count: usize,
        fee_per_gram: MicroTari,
    ) -> (r: Result<(Vec<OutputRecord>, bool, u64, u64, u64), OutputManagerError>)
        requires
            self.wf(),
            split_count < usize::MAX - 1,
        ensures
            r is Err <==> ({
                ||| amount_per_split * split_count > u64::MAX
                ||| cannot_cover(
                    self@.store.recs,
                    (amount_per_split * split_count) as u64,
                    fee_per_gram,
                    split_count as int,
                    UTXOSelectionStrategy::MaturityThenSmallest,
                )
                ||| (sorted_unspent_keys(
                    self@.store.recs,
                    UTXOSelectionStrategy::MaturityThenSmallest,
                ).len() == 0 && fee_for(fee_per_gram, 1, 0, split_count as int) != 0)
            }),
            r matches Err(e) ==> e == OutputManagerError::NotEnoughFunds,
            match r {
                Ok(p) => {
                    &&& amount_per_split * split_count <= u64::MAX
                    &&& selection_valid(
                        self@.store.recs,
                        models(p.0@),
                        p.1,
                        (amount_per_split * split_count) as u64,
                        fee_per_gram,
                        split_count as int,
                        UTXOSelectionStrategy::MaturityThenSmallest,
                    )
                    &&& p.1 == coin_split_needs_change(
                        self@.store.recs,
                        amount_per_split,
                        split_count as int,
                        fee_per_gram,
                    )
                    &&& models(p.0@).len() == selection_first_stop(
                        self@.store.recs,
                        (amount_per_split * split_count) as u64,
                        fee_per_gram,
                        split_count as int,
                        UTXOSelectionStrategy::MaturityThenSmallest,
                    )
                    &&& p.2 == sum_all(models(p.0@))
                    &&& p.2 == crate::selection::key_vals_sum(
                        sorted_unspent_keys(
                            self@.store.recs,
                            UTXOSelectionStrategy::MaturityThenSmallest,
                        ).take(models(p.0@).len() as int),
                    )
                    &&& p.3 == fee_for(
                        fee_per_gram,
                        1,
                        p.0@.len() as int,
                        if p.1 {
                            split_count + 1
                        } else {
                            split_count as int
                        },
                    )
                    &&& p.2 >= p.3 + amount_per_split * split_count
                    &&& p.4 == p.2 - p.3 - amount_per_split * split_count
                    &&& p.4 == coin_split_change(
                        self@.store.recs,
                        amount_per_split,
                        split_count as int,
                        fee_per_gram,
                    )
                },
                Err(_) => true,
            },
    {
        let ghost recs = self@.store.recs;
        let ghost mts = UTXOSelectionStrategy::MaturityThenSmallest;
        let total_split = match amount_per_split.checked_mul(split_count as u64) {
            Some(t) => t,
            None => {
                return Err(OutputManagerError::NotEnoughFunds);
            },
        };
        let sel_res = self.select_utxos(
            total_split,
            fee_per_gram,
            split_count,
            UTXOSelectionStrategy::MaturityThenSmallest,
        );
        let (sel, require_change) = match sel_res {
            Ok(s) => s,
            Err(e) => {
                return Err(e);
            },
        };
        let ghost selm = models(sel@);
        let ghost ks = sorted_unspent_keys(recs, mts);
        proof {
            crate::store::lemma_sum_filter_status(recs, OutputStatus::Unspent);
            lemma_sorted_keys_len(recs, mts);
        }
        let utxo_total = Self::total_of(&sel);
        let n = sel.len();
        let output_count = if require_change {
            split_count + 1
        } else {
            split_count
        };
        proof {
            assert(selm.take(n as int) =~= selm);
            if n == 0 {
                assert(selm.take(0) =~= Seq::<RecModel>::empty());
                assert(ks.len() == 0);
            }
        }
        let fee = match Fee::calculate_checked(fee_per_gram, 1, n, output_count) {
            Some(f) => f,
            None => {
                proof {
                    if n > 0 {
                        if require_change {
                            assert(stop_with_change(selm, n as int, total_split, fee_per_gram,
                            split_count as int));
                        } else {
                            assert(stop_no_change(selm, n as int, total_split, fee_per_gram,
                            split_count as int));
                        }
                        assert(false);
                    }
                    assert(fee_for(fee_per_gram, 1, 0, split_count as int) > u64::MAX);
                }
                return Err(OutputManagerError::NotEnoughFunds);
            },
        };
        let rem = match utxo_total.checked_sub(fee) {
            Some(x) => x,
            None => {
                proof {
                    if n > 0 {
                        if require_change {
                            assert(stop_with_change(selm, n as int, total_split, fee_per_gram,
                            split_count as int));
                        } else {
                            assert(stop_no_change(selm, n as int, total_split, fee_per_gram,
                            split_count as int));
                        }
                        assert(false);
                    }
                    assert(utxo_total == 0);
                    assert(fee_for(fee_per_gram, 1, 0, split_count as int) != 0);
                }
                return Err(OutputManagerError::NotEnoughFunds);
            },
        };
        let change_amount = match rem.checked_sub(total_split) {
            Some(c) => c,
            None => {
                proof {
                    if n > 0 {
                        if require_change {
                            assert(stop_with_change(selm, n as int, total_split, fee_per_gram,
                            split_count as int));
                        } else {
                            assert(stop_no_change(selm, n as int, total_split, fee_per_gram,
                            split_count as int));
                        }
                    }
                    assert(false);
                }
                return Err(OutputManagerError::NotEnoughFunds);
            },
        };
        proof {
            if n > 0 {
                if require_change {
                    assert(stop_with_change(selm, n as int, total_split, fee_per_gram,
                    split_count as int));
                } else {
                    assert(stop_no_change(selm, n as int, total_split, fee_per_gram,
                    split_count as int));
                }
            } else {
                assert(fee_for(fee_per_gram, 1, 0, split_count as int) == fee);
                assert(fee == 0);
            }
        }
        Ok((sel, require_change, utxo_total, fee, change_amount))
    }

    /// Split the wallet's funds into `split_count` outputs of
    /// `amount_per_split` each (plus residual change), deriving a fresh key
    /// for every new output. The transaction is assembled in place, so the
    /// outputs skip the short-term state.
    #[verifier::rlimit(100)]
    #[verifier::spinoff_prover]
    pub fn create_coin_split(
        &mut self,
        amount_per_split: MicroTari,
        split_count: usize,
        fee_per_gram: MicroTari,
        lock_height: Option<u64>,
        now_ms: u64,
    ) -> (r: Result<(u64, Transaction, MicroTari, MicroTari), OutputManagerError>)
        requires
            old(self).wf(),
        ensures
            final(self).wf(),
            old(self)@.km.index <= final(self)@.km.index,
            r matches Ok(t) ==> coin_split_ok(
                old(self)@,
                t.0,
                t.1,
                t.2,
                t.3,
                amount_per_split,
                split_count as int,
                fee_per_gram,
                lock_height,
                now_ms,
                final(self)@,
            ),
            r == Err::<(u64, Transaction, MicroTari, MicroTari), OutputManagerError>(
                OutputManagerError::NotEnoughFunds,
            ) <==> coin_split_cannot_fund(
                old(self)@.store.recs,
                amount_per_split,
                split_count as int,
                fee_per_gram,
            ),
            r == Err::<(u64, Transaction, MicroTari, MicroTari), OutputManagerError>(
                OutputManagerError::KeyManagerError,
            ) <==> (!coin_split_cannot_fund(
                old(self)@.store.recs,
                amount_per_split,
                split_count as int,
                fee_per_gram,
            ) && old(self)@.km.index + coin_split_output_count(
                old(self)@.store.recs,
                amount_per_split,
                split_count as int,
                fee_per_gram,
            ) > u64::MAX),
            r == Err::<(u64, Transaction, MicroTari, MicroTari), OutputManagerError>(
                OutputManagerError::StorageError,
            ) ==> sum_all(old(self)@.store.recs) + split_values_sum(
                split_count as int,
                amount_per_split as int,
                coin_split_change(
                    old(self)@.store.recs,
                    amount_per_split,
                    split_count as int,
                    fee_per_gram,
                ),
                coin_split_output_count(
                    old(self)@.store.recs,
                    amount_per_split,
                    split_count as int,
                    fee_per_gram,
                ),
            ) > u64::MAX,
            r == Err::<(u64, Transaction, MicroTari, MicroTari), OutputManagerError>(
                OutputManagerError::ConflictingEncumberance,
            ) ==> ({
                let oc = coin_split_output_count(
                    old(self)@.store.recs,
                    amount_per_split,
                    split_count as int,
                    fee_per_gram,
                );
                let chg = coin_split_change(
                    old(self)@.store.recs,
                    amount_per_split,
                    split_count as int,
                    fee_per_gram,
                );
                ||| old(self)@.store.pending.len() > 0
                ||| exists|i: int|
                    0 <= i < oc && commitment_known(
                        old(self)@.store.recs,
                        #[trigger] split_commitment(
                            old(self)@.km,
                            amount_per_split,
                            split_count as int,
                            chg,
                            i,
                        ),
                    )
                ||| exists|i: int, j: int|
                    0 <= i < j < oc && #[trigger] split_commitment(
                        old(self)@.km,
                        amount_per_split,
                        split_count as int,
                        chg,
                        i,
                    ) == #[trigger] split_commitment(
                        old(self)@.km,
                        amount_per_split,
                        split_count as int,
                        chg,
                        j,
                    )
            }),
            r matches Err(e) ==> {
                &&& (e == OutputManagerError::NotEnoughFunds || e
                    == OutputManagerError::KeyManagerError || e
                    == OutputManagerError::ConflictingEncumberance || e
                    == OutputManagerError::StorageError)
                &&& final(self)@.store.recs == old(self)@.store.recs
                &&& final(self)@.store.pending == old(self)@.store.pending
                &&& final(self)@.base_node_key == old(self)@.base_node_key
                &&& final(self)@.queries == old(self)@.queries
                &&& final(self)@.timeout_ms == old(self)@.timeout_ms
                &&& final(self)@.km.master == old(self)@.km.master
                &&& final(self)@.km.branch == old(self)@.km.branch
                &&& old(self)@.km.index <= final(self)@.km.index <= old(self)@.km.index
                    + split_count + 1
                &&& final(self)@.store.key_state == Some(final(self)@.km)
            },
    {
        if split_count >= usize::MAX - 1 {
            return Err(OutputManagerError::NotEnoughFunds);
        }
        let plan = match self.plan_coin_split(amount_per_split, split_count, fee_per_gram) {
            Ok(p) => p,
            Err(e) => {
                proof {
                    assert(coin_split_cannot_fund(
                        old(self)@.store.recs,
                        amount_per_split,
                        split_count as int,
                        fee_per_gram,
                    ));
                }
                return Err(e);
            },
        };
        let (sel, require_change, utxo_total, fee, change_amount) = plan;
        let ghost selm = models(sel@);
        let output_count = if require_change {
            split_count + 1
        } else {
            split_count
        };
        let ghost km0 = old(self)@.km;
        proof {
            assert(!coin_split_cannot_fund(
                old(self)@.store.recs,
                amount_per_split,
                split_count as int,
                fee_per_gram,
            ));
            assert(output_count as int == coin_split_output_count(
                old(self)@.store.recs,
                amount_per_split,
                split_count as int,
                fee_per_gram,
            ));
            assert(change_amount as int == coin_split_change(
                old(self)@.store.recs,
                amount_per_split,
                split_count as int,
                fee_per_gram,
            ));
        }
        let (outputs, out_cs) = match self.derive_split_outputs(
            split_count,
            output_count,
            amount_per_split,
            change_amount,
        ) {
            Ok(oc) => oc,
            Err(e) => {
                proof {
                    let j = choose|j: int|
                        0 <= j <= output_count && old(self)@.km.index + j <= u64::MAX && final(self)@
                            == (ServiceModel {
                            km: #[trigger] advanced_by(old(self)@.km, j),
                            store: StoreModel {
                                key_state: Some(advanced_by(old(self)@.km, j)),
                                ..old(self)@.store
                            },
                            ..old(self)@
                        });
                    assert(final(self)@.km == advanced_by(old(self)@.km, j));
                }
                return Err(e);
            },
        };
        let tx_id = random_u64();
        let wide = random_bytes_64();
        let offset = scalar_from_wide_bytes(&wide);
        let mut spent_cs: Vec<[u8; 32]> = Vec::new();
        let mut i: usize = 0;
        while i < sel.len()
            invariant
                i <= sel.len(),
                selm == models(sel@),
                selm.len() == sel@.len(),
                spent_cs@.len() == i,
                forall|j: int| 0 <= j < i ==> (#[trigger] spent_cs@[j])@ == selm[j].commitment,
            decreases sel.len() - i,
        {
            spent_cs.push(sel[i].commitment);
            i = i + 1;
        }
        let ghost mid = self@;
        match self.encumber_and_confirm(tx_id, &spent_cs, &outputs, &out_cs, now_ms) {
            Err(e) => {
                proof {
                    assert(bytes_views(spent_cs@) =~= commitments_of(selm));
                    assert(mid.store.recs == old(self)@.store.recs);
                    let ghost chg = coin_split_change(
                        old(self)@.store.recs,
                        amount_per_split,
                        split_count as int,
                        fee_per_gram,
                    );
                    let ghost ocs = coin_split_output_count(
                        old(self)@.store.recs,
                        amount_per_split,
                        split_count as int,
                        fee_per_gram,
                    );
                    if e == OutputManagerError::StorageError {
                        assert(crate::store::sum_outputs(outputs@) == split_values_sum(
                            split_count as int,
                            amount_per_split as int,
                            chg,
                            ocs,
                        ));
                    }
                    if e == OutputManagerError::ConflictingEncumberance {
                        assert forall|a: int, b: int|
                            0 <= a < b < spent_cs@.len() implies #[trigger] bytes_views(
                            spent_cs@,
                        )[a] != #[trigger] bytes_views(spent_cs@)[b] by {
                            assert(bytes_views(spent_cs@)[a] == selm[a].commitment);
                            assert(bytes_views(spent_cs@)[b] == selm[b].commitment);
                        }
                        if exists|w: int|
                            0 <= w < mid.store.pending.len() && (
                            #[trigger] mid.store.pending[w]).tx_id == tx_id {
                            assert(old(self)@.store.pending.len() > 0);
                        }
                        if exists|w: int|
                            0 <= w < out_cs@.len() && commitment_known(
                                mid.store.recs,
                                #[trigger] bytes_views(out_cs@)[w],
                            ) {
                            let w = choose|w: int|
                                0 <= w < out_cs@.len() && commitment_known(
                                    mid.store.recs,
                                    #[trigger] bytes_views(out_cs@)[w],
                                );
                            assert(bytes_views(out_cs@)[w] == split_commitment(
                                old(self)@.km,
                                amount_per_split,
                                split_count as int,
                                chg,
                                w,
                            ));
                        }
                        if exists|a: int, b: int|
                            0 <= a < b < out_cs@.len() && #[trigger] bytes_views(out_cs@)[a]
                                == #[trigger] bytes_views(out_cs@)[b] {
                            let (a, b) = choose|a: int, b: int|
                                0 <= a < b < out_cs@.len() && #[trigger] bytes_views(out_cs@)[a]
                                    == #[trigger] bytes_views(out_cs@)[b];
                            assert(bytes_views(out_cs@)[a] == split_commitment(
                                old(self)@.km,
                                amount_per_split,
                                split_count as int,
                                chg,
                                a,
                            ));
                            assert(bytes_views(out_cs@)[b] == split_commitment(
                                old(self)@.km,
                                amount_per_split,
                                split_count as int,
                                chg,
                                b,
                            ));
                        }
                    }
                    if e == OutputManagerError::MissingOutput {
                        let w = choose|w: int|
                            0 <= w < spent_cs@.len() && !crate::store::unspent_known(
                                mid.store.recs,
                                #[trigger] bytes_views(spent_cs@)[w],
                            );
                        assert(rec_member(old(self)@.store.recs, selm[w]));
                        let j = choose|j: int|
                            0 <= j < old(self)@.store.recs.len() && old(self)@.store.recs[j]
                                == selm[w];
                        assert(mid.store.recs[j].commitment == selm[w].commitment);
                        assert(mid.store.recs[j].status == OutputStatus::Unspent);
                        assert(false);
                    }
                }
                return Err(e);
            },
            Ok(()) => {},
        }
        let tins = Self::inputs_from_records(&sel);
        let touts = Self::outputs_from_commitments(&out_cs);
        let lh = match lock_height {
            Some(h) => h,
            None => 0,
        };
        let tx = Transaction { inputs: tins, outputs: touts, fee, lock_height: lh, offset };
        proof {
            assert(bytes_views(spent_cs@).len() == selm.len());
            assert forall|j: int| 0 <= j < selm.len() implies #[trigger] bytes_views(
                spent_cs@,
            )[j] == selm[j].commitment by {
                assert(spent_cs@[j]@ == selm[j].commitment);
            }
            assert forall|i: int|
                0 <= i < output_count as int implies {
                &&& (#[trigger] outputs@[i]).value == (if i < split_count as int {
                    amount_per_split
                } else {
                    change_amount
                })
                &&& outputs@[i].spending_key@ == derived_key_of(
                    old(self)@.km.master,
                    old(self)@.km.branch,
                    (old(self)@.km.index + 1 + i) as u64,
                )
                &&& outputs@[i].features.coinbase == false
                &&& outputs@[i].features.maturity == 0
            } by {
                assert(km0 == old(self)@.km);
            }
            lemma_coin_split_witness_assemble(
                old(self)@,
                final(self)@,
                selm,
                outputs@,
                out_cs@,
                bytes_views(spent_cs@),
                tx,
                tx_id,
                fee,
                utxo_total,
                amount_per_split,
                split_count as int,
                output_count as int,
                change_amount,
                fee_per_gram,
                lock_height,
                now_ms,
                require_change,
            );
        }
        Ok((tx_id, tx, fee, utxo_total))
    }

    /// Whether a 32-byte value occurs in a list.
    fn list_has(cs: &Vec<[u8; 32]>, c: &[u8; 32]) -> (r: bool)
        ensures
            r == bytes_views(cs@).contains(c@),
    {
        let mut i: usize = 0;
        while i < cs.len()
            invariant
                i <= cs.len(),
                forall|j: int| 0 <= j < i ==> bytes_views(cs@)[j] != c@,
            decreases cs.len() - i,
        {
            if bytes32_eq(&cs[i], c) {
                assert(bytes_views(cs@)[i as int] == c@);
                return true;
            }
            i = i + 1;
        }
        proof {
            if bytes_views(cs@).contains(c@) {
                let w = choose|w: int|
                    0 <= w < bytes_views(cs@).len() && bytes_views(cs@)[w] == c@;
                assert(false);
            }
        }
        false
    }

    /// The index of the in-flight query with the given key.
    fn find_query(&self, key: u64) -> (r: Option<usize>)
        ensures
            match r {
                Some(i) => i < self@.queries.len() && self@.queries[i as int].key == key,
                None => !queries_contain(self@.queries, key),
            },
    {
        let mut i: usize = 0;
        while i < self.pending_utxo_query_keys.len()
            invariant
                i <= self.pending_utxo_query_keys.len(),
                forall|j: int| 0 <= j < i ==> (#[trigger] self@.queries[j]).key != key,
            decreases self.pending_utxo_query_keys.len() - i,
        {
            if self.pending_utxo_query_keys[i].request_key == key {
                proof {
                    assert(self@.queries[i as int].key == key);
                }
                return Some(i);
            }
            i = i + 1;
        }
        proof {
            if queries_contain(self@.queries, key) {
                let w = choose|w: int|
                    0 <= w < self@.queries.len() && (#[trigger] self@.queries[w]).key == key;
                assert(false);
            }
        }
        None
    }

    /// Remove the in-flight query at the given index.
    fn remove_query_at(&mut self, i: usize)
        requires
            old(self).wf(),
            i < old(self)@.queries.len(),
            old(self)@.queries[i as int].key == old(self)@.queries[i as int].key,
        ensures
            final(self).wf(),
            old(self)@.km.index <= final(self)@.km.index,
            final(self)@ == (ServiceModel {
                queries: remove_query(old(self)@.queries, old(self)@.queries[i as int].key),
                ..old(self)@
            }),
    {
        let ghost qs = self@.queries;
        let ghost key = self@.queries[i as int].key;
        let _ = self.pending_utxo_query_keys.remove(i);
        proof {
            assert(final(self)@.queries =~= qs.remove(i as int));
            lemma_remove_query_at(qs, key, i as int);
            assert(final(self)@ =~= (ServiceModel {
                queries: remove_query(qs, key),
                ..old(self)@
            }));
            lemma_remove_query_contains(qs, key);
        }
    }

    /// Send a status query for every unspent output to the base node: hash
    /// each unspent output's chain form, pick a fresh request key, track the
    /// query under it, and hand the outbound request (with its timeout) to
    /// the event loop.
    pub fn query_unspent_outputs_status(&mut self) -> (r: Result<
        OutboundSyncRequest,
        OutputManagerError,
    >)
        requires
            old(self).wf(),
        ensures
            final(self).wf(),
            old(self)@.km.index <= final(self)@.km.index,
            r is Err <==> old(self)@.base_node_key is None,
            r matches Err(e) ==> e == OutputManagerError::NoBaseNodeKeysProvided && final(self)@
                == old(self)@,
            r matches Ok(req) ==> sync_request_ok(old(self)@, req, final(self)@),
    {
        let pk = match self.base_node_public_key {
            Some(pk) => pk,
            None => {
                return Err(OutputManagerError::NoBaseNodeKeysProvided);
            },
        };
        let records = self.db.fetch_records_with_status(OutputStatus::Unspent);
        let ghost fl = filter_status(self@.store.recs, OutputStatus::Unspent);
        let mut hashes: Vec<[u8; 32]> = Vec::new();
        let mut qh: Vec<[u8; 32]> = Vec::new();
        let mut i: usize = 0;
        while i < records.len()
            invariant
                self@ == old(self)@,
                i <= records.len(),
                models(records@) == fl,
                records@.len() == fl.len(),
                hashes@.len() == i,
                qh@ == hashes@,
                forall|j: int| 0 <= j < i ==> (#[trigger] hashes@[j])@ == rec_hash(fl[j]),
            decreases records.len() - i,
        {
            let h = output_hash(&records[i].output.features, &records[i].commitment);
            proof {
                assert(records@[i as int]@ == fl[i as int]);
            }
            hashes.push(h);
            qh.push(h);
            i = i + 1;
        }
        let request_key = random_u64();
        let q = PendingUtxoQuery { request_key, hashes: qh };
        let ghost qs = self@.queries;
        let found = self.find_query(request_key);
        match found {
            Some(idx) => {
                self.pending_utxo_query_keys[idx] = q;
                proof {
                    assert(queries_contain(qs, request_key));
                    assert(final(self)@.queries =~= upsert_query(
                        qs,
                        QueryModel {
                            key: request_key,
                            hashes: hashes@.map_values(|h: [u8; 32]| h@),
                        },
                    ));
                }
            },
            None => {
                self.pending_utxo_query_keys.push(q);
                proof {
                    assert(final(self)@.queries =~= upsert_query(
                        qs,
                        QueryModel {
                            key: request_key,
                            hashes: hashes@.map_values(|h: [u8; 32]| h@),
                        },
                    ));
                }
            },
        }
        let req = OutboundSyncRequest {
            destination: pk,
            request_key,
            hashes,
            timeout_ms: self.config.base_node_query_timeout_ms,
        };
        proof {
            assert(final(self)@ =~= (ServiceModel {
                queries: upsert_query(
                    qs,
                    QueryModel {
                        key: req.request_key,
                        hashes: req.hashes@.map_values(|h: [u8; 32]| h@),
                    },
                ),
                ..old(self)@
            }));
            let nq = final(self)@.queries;
            assert forall|a: int, b: int|
                0 <= a < b < nq.len() implies (#[trigger] nq[a]).key != (#[trigger] nq[b]).key by {
                if queries_contain(qs, request_key) {
                } else {
                    if nq[b].key == request_key && b < qs.len() {
                        assert(queries_contain(qs, request_key));
                    }
                }
            }
        }
        Ok(req)
    }

    /// Set the base node to check output status against. The first
    /// assignment triggers an immediate status query.
    pub fn set_base_node_public_key(&mut self, base_node_public_key: [u8; 32]) -> (r: Result<
        Option<OutboundSyncRequest>,
        OutputManagerError,
    >)
        requires
            old(self).wf(),
        ensures
            final(self).wf(),
            old(self)@.km.index <= final(self)@.km.index,
            r is Ok,
            final(self)@.base_node_key == Some(base_node_public_key@),
            old(self)@.base_node_key is Some ==> (r matches Ok(o) && o is None && final(self)@
                == (ServiceModel { base_node_key: Some(base_node_public_key@), ..old(self)@ })),
            old(self)@.base_node_key is None ==> (r matches Ok(o) ==> (o matches Some(req)
                && sync_request_ok(
                (ServiceModel { base_node_key: Some(base_node_public_key@), ..old(self)@ }),
                req,
                final(self)@,
            ))),
    {
        let startup_query = self.base_node_public_key.is_none();
        self.base_node_public_key = Some(base_node_public_key);
        proof {
            assert(self@ =~= (ServiceModel {
                base_node_key: Some(base_node_public_key@),
                ..old(self)@
            }));
        }
        if startup_query {
            match self.query_unspent_outputs_status() {
                Ok(req) => Ok(Some(req)),
                Err(e) => {
                    proof {
                        assert(false);
                    }
                    Err(e)
                },
            }
        } else {
            Ok(None)
        }
    }

    /// Handle the timeout of a pending status query: if the query is still
    /// in flight, drop it, start a fresh one, and report the timeout; a
    /// query that was already reconciled is a no-op.
    pub fn handle_utxo_query_timeout(&mut self, query_key: u64) -> (r: Result<
        (Option<OutboundSyncRequest>, Vec<OutputManagerEvent>),
        OutputManagerError,
    >)
        requires
            old(self).wf(),
        ensures
            final(self).wf(),
            old(self)@.km.index <= final(self)@.km.index,
            r is Ok,
            !queries_contain(old(self)@.queries, query_key) ==> (r matches Ok(t) && t.0 is None
                && t.1@ == Seq::<OutputManagerEvent>::empty() && final(self)@ == old(self)@),
            queries_contain(old(self)@.queries, query_key) ==> (r matches Ok(t) && (t.0 matches Some(
                req,
            ) && sync_request_ok(
                (ServiceModel { queries: remove_query(old(self)@.queries, query_key), ..old(self)@ }),
                req,
                final(self)@,
            )) && t.1@ == seq![OutputManagerEvent::BaseNodeSyncRequestTimedOut(query_key)]),
    {
        let idx = match self.find_query(query_key) {
            None => {
                let events: Vec<OutputManagerEvent> = Vec::new();
                proof {
                    assert(events@ =~= Seq::<OutputManagerEvent>::empty());
                }
                return Ok((None, events));
            },
            Some(i) => i,
        };
        self.remove_query_at(idx);
        let req = match self.query_unspent_outputs_status() {
            Ok(req) => req,
            Err(e) => {
                proof {
                    assert(old(self)@.queries[idx as int].key == query_key);
                    assert(false);
                }
                return Err(e);
            },
        };
        let mut events: Vec<OutputManagerEvent> = Vec::new();
        events.push(OutputManagerEvent::BaseNodeSyncRequestTimedOut(query_key));
        proof {
            assert(events@ =~= seq![OutputManagerEvent::BaseNodeSyncRequestTimedOut(query_key)]);
        }
        Ok((Some(req), events))
    }

    /// Compute the chain-level hash of an output whose commitment arrived as
    /// plain bytes.
    fn output_hash_vec(features: &OutputFeatures, commitment: &Vec<u8>) -> (r: [u8; 32])
        requires
            commitment@.len() == 32,
        ensures
            r@ == blake256_of(
                out_hash_material(features.coinbase, features.maturity, commitment@),
            ),
    {
        let mut data: Vec<u8> = Vec::new();
        if features.coinbase {
            data.push(1u8);
        } else {
            data.push(0u8);
        }
        push_u64_le(&mut data, features.maturity);
        let mut i: usize = 0;
        while i < commitment.len()
            invariant
                i <= commitment.len(),
                commitment@.len() == 32,
                data@ == seq![if features.coinbase { 1u8 } else { 0u8 }] + u64_le_bytes(
                    features.maturity,
                ) + commitment@.take(i as int),
            decreases commitment.len() - i,
        {
            data.push(commitment[i]);
            proof {
                assert(data@ =~= seq![if features.coinbase { 1u8 } else { 0u8 }] + u64_le_bytes(
                    features.maturity,
                ) + commitment@.take(i as int + 1));
            }
            i = i + 1;
        }
        proof {
            assert(commitment@.take(32) =~= commitment@);
            assert(data@ =~= out_hash_material(features.coinbase, features.maturity, commitment@));
        }
        blake2b_256(data.as_slice())
    }

    /// The commitments of the unspent records that were queried but not
    /// returned by the base node.
    #[verifier::rlimit(100)]
    #[verifier::spinoff_prover]
    fn collect_invalid_targets(
        unspent: &Vec<OutputRecord>,
        queried: &Vec<[u8; 32]>,
        returned: &Vec<[u8; 32]>,
    ) -> (r: Vec<[u8; 32]>)
        ensures
            forall|j: int|
                0 <= j < r@.len() ==> target_ok(
                    (#[trigger] r@[j])@,
                    models(unspent@),
                    bytes_views(queried@),
                    bytes_views(returned@),
                ),
            forall|w: int|
                0 <= w < models(unspent@).len() && should_invalidate(
                    #[trigger] models(unspent@)[w],
                    bytes_views(queried@),
                    bytes_views(returned@),
                ) ==> bytes_views(r@).contains(models(unspent@)[w].commitment),
    {
        let ghost fl = models(unspent@);
        let ghost qv = bytes_views(queried@);
        let ghost rv = bytes_views(returned@);
        let mut targets: Vec<[u8; 32]> = Vec::new();
        let mut u: usize = 0;
        while u < unspent.len()
            invariant
                u <= unspent.len(),
                fl == models(unspent@),
                qv == bytes_views(queried@),
                rv == bytes_views(returned@),
                unspent@.len() == fl.len(),
                forall|j: int|
                    0 <= j < targets@.len() ==> target_ok((#[trigger] targets@[j])@, fl, qv, rv),
                forall|w: int|
                    0 <= w < u && should_invalidate(#[trigger] fl[w], qv, rv) ==> bytes_views(
                        targets@,
                    ).contains(fl[w].commitment),
            decreases unspent.len() - u,
        {
            let rec = unspent[u];
            let h = output_hash(&rec.output.features, &rec.commitment);
            proof {
                assert(unspent@[u as int]@ == fl[u as int]);
                assert(h@ == rec_hash(fl[u as int]));
            }
            if rec.status == OutputStatus::Unspent && Self::list_has(&queried, &h) && !Self::list_has(
                &returned,
                &h,
            ) {
                let ghost before = targets@;
                targets.push(rec.commitment);
                proof {
                    assert(should_invalidate(fl[u as int], qv, rv));
                    assert(bytes_views(targets@)[targets@.len() - 1] == fl[u as int].commitment);
                    assert forall|w: int|
                        0 <= w < u + 1 && should_invalidate(#[trigger] fl[w], qv, rv) implies bytes_views(
                        targets@,
                    ).contains(fl[w].commitment) by {
                        if w < u {
                            let x = choose|x: int|
                                0 <= x < bytes_views(before).len() && bytes_views(before)[x]
                                    == fl[w].commitment;
                            assert(bytes_views(targets@)[x] == fl[w].commitment);
                        }
                    }
                }
            } else {
                proof {
                    assert(!should_invalidate(fl[u as int], qv, rv));
                }
            }
            u = u + 1;
        }
        targets
    }

    /// Reconcile an inbound base node response: for a tracked request key,
    /// every unspent output that was queried but not returned is moved to
    /// the invalid partition. Unknown response variants and untracked keys
    /// are silently dropped; malformed outputs in the response are skipped
    /// while the rest are processed.
    #[verifier::rlimit(100)]
    #[verifier::spinoff_prover]
    pub fn handle_base_node_response(&mut self, response: &BaseNodeServiceResponse) -> (r: Result<
        Vec<OutputManagerEvent>,
        OutputManagerError,
    >)
        requires
            old(self).wf(),
        ensures
            final(self).wf(),
            old(self)@.km.index <= final(self)@.km.index,
            r is Ok,
            response.outputs is None ==> (r matches Ok(evs) && evs@
                == Seq::<OutputManagerEvent>::empty() && final(self)@ == old(self)@),
            response.outputs is Some && !queries_contain(old(self)@.queries, response.request_key)
                ==> (r matches Ok(evs) && evs@ == Seq::<OutputManagerEvent>::empty() && final(self)@
                == old(self)@),
            response.outputs matches Some(outs) ==> queries_contain(
                old(self)@.queries,
                response.request_key,
            ) ==> (r matches Ok(evs) && evs@ == seq![
                OutputManagerEvent::ReceiveBaseNodeResponse(response.request_key),
            ] && exists|qi: int|
                0 <= qi < old(self)@.queries.len() && (#[trigger] old(self)@.queries[qi]).key
                    == response.request_key && final(self)@ == (ServiceModel {
                    store: StoreModel {
                        recs: response_recs(
                            old(self)@.store.recs,
                            old(self)@.queries[qi].hashes,
                            response_hashes(outs@),
                        ),
                        ..old(self)@.store
                    },
                    queries: remove_query(old(self)@.queries, response.request_key),
                    ..old(self)@
                })),
    {
        let outs = match &response.outputs {
            None => {
                let events: Vec<OutputManagerEvent> = Vec::new();
                proof {
                    assert(events@ =~= Seq::<OutputManagerEvent>::empty());
                }
                return Ok(events);
            },
            Some(o) => o,
        };
        let qi = match self.find_query(response.request_key) {
            None => {
                let events: Vec<OutputManagerEvent> = Vec::new();
                proof {
                    assert(events@ =~= Seq::<OutputManagerEvent>::empty());
                }
                return Ok(events);
            },
            Some(i) => i,
        };
        let ghost qi_g = qi as int;
        let ghost qv = old(self)@.queries[qi as int].hashes;
        // take a copy of the queried hashes, then drop the query
        let mut queried: Vec<[u8; 32]> = Vec::new();
        let mut c: usize = 0;
        while c < self.pending_utxo_query_keys[qi].hashes.len()
            invariant
                self@ == old(self)@,
                qi < self@.queries.len(),
                qv == self@.queries[qi as int].hashes,
                c <= self.pending_utxo_query_keys@[qi as int].hashes@.len(),
                self.pending_utxo_query_keys@[qi as int].hashes@.len() == qv.len(),
                queried@.len() == c,
                forall|j: int| 0 <= j < c ==> (#[trigger] queried@[j])@ == qv[j],
            decreases self.pending_utxo_query_keys@[qi as int].hashes@.len() - c,
        {
            let h = self.pending_utxo_query_keys[qi].hashes[c];
            queried.push(h);
            proof {
                assert(self@.queries[qi as int].hashes[c as int]
                    == self.pending_utxo_query_keys@[qi as int].hashes@[c as int]@);
            }
            c = c + 1;
        }
        proof {
            assert(bytes_views(queried@) =~= qv);
        }
        self.remove_query_at(qi);
        // hash the well-formed outputs of the response
        let mut returned: Vec<[u8; 32]> = Vec::new();
        let mut k: usize = 0;
        proof {
            assert(response_hashes(outs@.take(0)) =~= Seq::<Seq<u8>>::empty());
            assert(bytes_views(returned@) =~= response_hashes(outs@.take(0)));
        }
        while k < outs.len()
            invariant
                k <= outs.len(),
                bytes_views(returned@) == response_hashes(outs@.take(k as int)),
            decreases outs.len() - k,
        {
            proof {
                assert(outs@.take(k as int + 1).drop_last() =~= outs@.take(k as int));
                assert(outs@.take(k as int + 1).last() == outs@[k as int]);
            }
            if outs[k].commitment.len() == 32 {
                let h = Self::output_hash_vec(&outs[k].features, &outs[k].commitment);
                let ghost before = bytes_views(returned@);
                returned.push(h);
                proof {
                    assert(bytes_views(returned@) =~= before.push(h@));
                    assert(bytes_views(returned@) =~= response_hashes(outs@.take(k as int + 1)));
                }
            } else {
                proof {
                    assert(bytes_views(returned@) =~= response_hashes(outs@.take(k as int + 1)));
                }
            }
            k = k + 1;
        }
        proof {
            assert(outs@.take(outs@.len() as int) =~= outs@);
        }
        let ghost rv = response_hashes(outs@);
        // invalidate the unspent outputs that were queried but not returned
        let ghost mrecs = old(self)@.store.recs;
        let unspent = self.db.fetch_records_with_status(OutputStatus::Unspent);
        let ghost fl = filter_status(mrecs, OutputStatus::Unspent);
        let targets = Self::collect_invalid_targets(&unspent, &queried, &returned);
        self.db.invalidate_matching(&targets);
        let mut events: Vec<OutputManagerEvent> = Vec::new();
        events.push(OutputManagerEvent::ReceiveBaseNodeResponse(response.request_key));
        proof {
            crate::store::lemma_filter_status_elems(mrecs, OutputStatus::Unspent);
            assert(models(unspent@) == fl);
            let tv = bytes_views(targets@);
            let f_many = |r: RecModel| crate::store::step_invalidate_many(r, tv);
            let f_resp = |r: RecModel| step_response(r, qv, rv);
            assert forall|a: int| 0 <= a < mrecs.len() implies f_many(#[trigger] mrecs[a]) == f_resp(
                mrecs[a],
            ) by {
                let rr = mrecs[a];
                if rr.status == OutputStatus::Unspent {
                    if tv.contains(rr.commitment) {
                        // the target came from some unspent record; distinct
                        // commitments make it this one
                        let j = choose|j: int| 0 <= j < tv.len() && tv[j] == rr.commitment;
                        assert(target_ok(targets@[j]@, fl, qv, rv));
                        let w = choose|w: int|
                            0 <= w < fl.len() && should_invalidate(#[trigger] fl[w], qv, rv)
                                && fl[w].commitment == tv[j];
                        let b = choose|b: int| 0 <= b < mrecs.len() && fl[w] == mrecs[b];
                        if b != a {
                            assert(mrecs[b].commitment == mrecs[a].commitment);
                            assert(crate::store::recs_distinct(mrecs));
                            if b < a {
                                assert(mrecs[b].commitment != mrecs[a].commitment);
                            } else {
                                assert(mrecs[a].commitment != mrecs[b].commitment);
                            }
                            assert(false);
                        }
                        assert(should_invalidate(rr, qv, rv));
                    }
                    if should_invalidate(rr, qv, rv) && !tv.contains(rr.commitment) {
                        assert(fl.contains(rr));
                        let w = choose|w: int| 0 <= w < fl.len() && fl[w] == rr;
                        assert(bytes_views(targets@).contains(fl[w].commitment));
                        assert(false);
                    }
                }
            }
            assert(crate::store::invalidate_many_recs(mrecs, tv) =~= response_recs(mrecs, qv, rv));
            assert(final(self)@ =~= (ServiceModel {
                store: StoreModel { recs: response_recs(mrecs, qv, rv), ..old(self)@.store },
                queries: remove_query(old(self)@.queries, response.request_key),
                ..old(self)@
            }));
            assert(events@ =~= seq![
                OutputManagerEvent::ReceiveBaseNodeResponse(response.request_key),
            ]);
            assert(old(self)@.queries[qi_g].key == response.request_key);
        }
        Ok(events)
    }

    /// Serve one API request: dispatch to the matching handler and wrap its
    /// result. The outbound sync request, if the handler produced one, is
    /// returned for the event loop to send. The issuance counter never
    /// decreases, and every request yields exactly one reply.
    #[verifier::rlimit(100)]
    #[verifier::spinoff_prover]
    pub fn handle_request(&mut self, request: OutputManagerRequest, now_ms: u64) -> (r: (
        Result<OutputManagerResponse, OutputManagerError>,
        Option<OutboundSyncRequest>,
    ))
        requires
            old(self).wf(),
        ensures
            final(self).wf(),
            old(self)@.km.index <= final(self)@.km.index,
            old(self)@.km.index <= final(self)@.km.index,
            r.0 matches Ok(resp) ==> response_matches(request, resp),
    {
        match request {
            OutputManagerRequest::AddOutput(uo) => {
                let res = self.add_output(uo);
                (
                    match res {
                        Ok(()) => Ok(OutputManagerResponse::OutputAdded),
                        Err(e) => Err(e),
                    },
                    None,
                )
            },
            OutputManagerRequest::GetBalance => {
                let res = self.get_balance();
                (
                    match res {
                        Ok(b) => Ok(OutputManagerResponse::Balance(b)),
                        Err(e) => Err(e),
                    },
                    None,
                )
            },
            OutputManagerRequest::GetRecipientKey(tx_id, amount) => {
                let res = self.get_recipient_spending_key(tx_id, amount, now_ms);
                (
                    match res {
                        Ok(k) => Ok(OutputManagerResponse::RecipientKeyGenerated(k)),
                        Err(e) => Err(e),
                    },
                    None,
                )
            },
            OutputManagerRequest::GetCoinbaseKey(tx_id, amount, maturity_height) => {
                let res = self.get_coinbase_spending_key(tx_id, amount, maturity_height, now_ms);
                (
                    match res {
                        Ok(k) => Ok(OutputManagerResponse::RecipientKeyGenerated(k)),
                        Err(e) => Err(e),
                    },
                    None,
                )
            },
            OutputManagerRequest::PrepareToSendTransaction(amount, fee_per_gram, lock_height, message) => {
                let res = self.prepare_transaction_to_send(
                    amount,
                    fee_per_gram,
                    lock_height,
                    message,
                    now_ms,
                );
                (
                    match res {
                        Ok(stp) => Ok(OutputManagerResponse::TransactionToSend(stp)),
                        Err(e) => Err(e),
                    },
                    None,
                )
            },
            OutputManagerRequest::ConfirmPendingTransaction(tx_id) => {
                let res = self.confirm_encumberance(tx_id);
                (
                    match res {
                        Ok(()) => Ok(OutputManagerResponse::PendingTransactionConfirmed),
                        Err(e) => Err(e),
                    },
                    None,
                )
            },
            OutputManagerRequest::ConfirmTransaction(tx_id, inputs, outputs) => {
                let res = self.confirm_transaction(tx_id, &inputs, &outputs);
                (
                    match res {
                        Ok(()) => Ok(OutputManagerResponse::TransactionConfirmed),
                        Err(e) => Err(e),
                    },
                    None,
                )
            },
            OutputManagerRequest::CancelTransaction(tx_id) => {
                let res = self.cancel_transaction(tx_id);
                (
                    match res {
                        Ok(()) => Ok(OutputManagerResponse::TransactionCancelled),
                        Err(e) => Err(e),
                    },
                    None,
                )
            },
            OutputManagerRequest::TimeoutTransactions(period_ms) => {
                let res = self.timeout_pending_transactions(period_ms, now_ms);
                (
                    match res {
                        Ok(()) => Ok(OutputManagerResponse::TransactionsTimedOut),
                        Err(e) => Err(e),
                    },
                    None,
                )
            },
            OutputManagerRequest::GetPendingTransactions => {
                let res = self.fetch_pending_transaction_outputs();
                (
                    match res {
                        Ok(v) => Ok(OutputManagerResponse::PendingTransactions(v)),
                        Err(e) => Err(e),
                    },
                    None,
                )
            },
            OutputManagerRequest::GetSpentOutputs => {
                let res = self.fetch_spent_outputs();
                (
                    match res {
                        Ok(v) => Ok(OutputManagerResponse::SpentOutputs(v)),
                        Err(e) => Err(e),
                    },
                    None,
                )
            },
            OutputManagerRequest::GetUnspentOutputs => {
                let res = self.fetch_unspent_outputs();
                (
                    match res {
                        Ok(v) => Ok(OutputManagerResponse::UnspentOutputs(v)),
                        Err(e) => Err(e),
                    },
                    None,
                )
            },
            OutputManagerRequest::GetInvalidOutputs => {
                let res = self.fetch_invalid_outputs();
                (
                    match res {
                        Ok(v) => Ok(OutputManagerResponse::InvalidOutputs(v)),
                        Err(e) => Err(e),
                    },
                    None,
                )
            },
            OutputManagerRequest::GetSeedWords => {
                let res = self.get_seed_words();
                (
                    match res {
                        Ok(v) => Ok(OutputManagerResponse::SeedWords(v)),
                        Err(e) => Err(e),
                    },
                    None,
                )
            },
            OutputManagerRequest::SetBaseNodePublicKey(pk) => {
                let res = self.set_base_node_public_key(pk);
                match res {
                    Ok(outbound) => (Ok(OutputManagerResponse::BaseNodePublicKeySet), outbound),
                    Err(e) => (Err(e), None),
                }
            },
            OutputManagerRequest::SyncWithBaseNode => {
                let res = self.query_unspent_outputs_status();
                match res {
                    Ok(req) => {
                        let key = req.request_key;
                        (Ok(OutputManagerResponse::StartedBaseNodeSync(key)), Some(req))
                    },
                    Err(e) => (Err(e), None),
                }
            },
            OutputManagerRequest::CreateCoinSplit(amount_per_split, split_count, fee_per_gram, lock_height) => {
                let res = self.create_coin_split(
                    amount_per_split,
                    split_count,
                    fee_per_gram,
                    lock_height,
                    now_ms,
                );
                (
                    match res {
                        Ok(t) => Ok(OutputManagerResponse::Transaction(t.0, t.1, t.2, t.3)),
                        Err(e) => Err(e),
                    },
                    None,
                )
            },
        }
    }

    /// The backup phrase of the master seed.
    pub fn get_seed_words(&self) -> (r: Result<Vec<String>, OutputManagerError>)
        ensures
            match r {
                Ok(words) => {
                    &&& words@.len() == 64
                    &&& forall|i: int|
                        0 <= i < 64 ==> (#[trigger] words@[i])@ == seed_word_for(
                            seed_nibble(self@.km.master, i),
                        )
                },
                Err(_) => false,
            },
    {
        Ok(seed_words_of_master(&self.key_manager.master_seed))
    }
}

} // verus!
