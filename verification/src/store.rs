//! The wallet's output store: every output known to the wallet lives in
//! exactly one lifecycle partition, pending transactions group encumbered
//! outputs, and the key manager state is persisted alongside them.

use vstd::prelude::*;

use crate::error::OutputManagerError;
use crate::types::UnblindedOutput;
use crate::types::bytes32_eq;

verus! {

/// Lifecycle partition of an output. Every output the wallet knows is in
/// exactly one of these states.
#[derive(Clone, Copy, Debug, PartialEq, Eq, Structural)]
pub enum OutputStatus {
    /// Spendable, subject to maturity.
    Unspent,
    /// Reserved during transaction negotiation.
    ShortTermEncumbered,
    /// Committed to a pending transaction awaiting on-chain confirmation.
    Encumbered,
    /// Observed spent on chain.
    Spent,
    /// Expected to be received (receiver side or change).
    PendingIncoming,
    /// No longer recognized by the base node.
    Invalid,
}

/// One classified output held by the store, together with the commitment that
/// identifies it and the pending transaction it is tied to, if any.
#[derive(Clone, Copy, Debug)]
pub struct OutputRecord {
    pub output: UnblindedOutput,
    pub commitment: [u8; 32],
    pub status: OutputStatus,
    pub tx_id: Option<u64>,
}

/// A pending transaction: groups the outputs carrying its `tx_id`. The record
/// is short-term until the encumberance is confirmed.
#[derive(Clone, Copy, Debug, PartialEq, Eq, Structural)]
pub struct PendingTxRecord {
    pub tx_id: u64,
    pub timestamp: u64,
    pub short_term: bool,
}

/// The persisted key manager state: seed material and the issuance counter.
pub struct KeyManagerState {
    pub master_seed: [u8; 32],
    pub branch_seed: Vec<u8>,
    pub primary_key_index: u64,
}

/// Mathematical model of one stored output record.
#[verifier::ext_equal]
pub ghost struct RecModel {
    pub value: u64,
    pub key: Seq<u8>,
    pub coinbase: bool,
    pub maturity: u64,
    pub commitment: Seq<u8>,
    pub status: OutputStatus,
    pub tx_id: Option<u64>,
}

/// Mathematical model of the key manager state.
#[verifier::ext_equal]
pub ghost struct KmModel {
    pub master: Seq<u8>,
    pub branch: Seq<u8>,
    pub index: u64,
}

/// Mathematical model of the whole store.
#[verifier::ext_equal]
pub ghost struct StoreModel {
    pub recs: Seq<RecModel>,
    pub pending: Seq<PendingTxRecord>,
    pub key_state: Option<KmModel>,
}

impl View for OutputRecord {
    type V = RecModel;

    open spec fn view(&self) -> RecModel {
        RecModel {
            value: self.output.value,
            key: self.output.spending_key@,
            coinbase: self.output.features.coinbase,
            maturity: self.output.features.maturity,
            commitment: self.commitment@,
            status: self.status,
            tx_id: self.tx_id,
        }
    }
}

impl View for KeyManagerState {
    type V = KmModel;

    open spec fn view(&self) -> KmModel {
        KmModel { master: self.master_seed@, branch: self.branch_seed@, index: self.primary_key_index }
    }
}

/// The models of a sequence of records.
pub open spec fn models(records: Seq<OutputRecord>) -> Seq<RecModel> {
    records.map_values(|r: OutputRecord| r@)
}

/// Statuses that tie an output to a pending transaction.
pub open spec fn status_has_tx(st: OutputStatus) -> bool {
    st == OutputStatus::ShortTermEncumbered || st == OutputStatus::Encumbered || st
        == OutputStatus::PendingIncoming
}

/// Statuses counted as pending outgoing funds.
pub open spec fn outbound_status(st: OutputStatus) -> bool {
    st == OutputStatus::ShortTermEncumbered || st == OutputStatus::Encumbered
}

/// Statuses of outputs that still count towards the wallet's funds.
pub open spec fn active_status(st: OutputStatus) -> bool {
    st != OutputStatus::Spent && st != OutputStatus::Invalid
}

/// Sum of the values of all records.
pub open spec fn sum_all(recs: Seq<RecModel>) -> int
    decreases recs.len(),
{
    if recs.len() == 0 {
        0
    } else {
        sum_all(recs.drop_last()) + recs.last().value
    }
}

/// Sum of the values of the records in the given partition.
pub open spec fn sum_status(recs: Seq<RecModel>, st: OutputStatus) -> int
    decreases recs.len(),
{
    if recs.len() == 0 {
        0
    } else {
        sum_status(recs.drop_last(), st) + if recs.last().status == st {
            recs.last().value as int
        } else {
            0
        }
    }
}

/// Sum of the values of the records that are neither spent nor invalid.
pub open spec fn sum_active(recs: Seq<RecModel>) -> int
    decreases recs.len(),
{
    if recs.len() == 0 {
        0
    } else {
        sum_active(recs.drop_last()) + if active_status(recs.last().status) {
            recs.last().value as int
        } else {
            0
        }
    }
}

/// Well-formedness of one record: key and commitment lengths, and the status
/// carries a transaction id exactly when the lifecycle requires one.
pub open spec fn rec_wf(r: RecModel) -> bool {
    &&& r.key.len() == 32
    &&& r.commitment.len() == 32
    &&& (status_has_tx(r.status) <==> r.tx_id is Some)
}

/// No two records share a commitment: partitions are disjoint by construction
/// and no output is tracked twice.
pub open spec fn recs_distinct(recs: Seq<RecModel>) -> bool {
    forall|i: int, j: int|
        0 <= i < j < recs.len() ==> (#[trigger] recs[i]).commitment != (#[trigger] recs[j]).commitment
}

/// No two pending records share a transaction id.
pub open spec fn pending_distinct(pending: Seq<PendingTxRecord>) -> bool {
    forall|i: int, j: int|
        0 <= i < j < pending.len() ==> (#[trigger] pending[i]).tx_id != (#[trigger] pending[j]).tx_id
}

/// Whether a pending record exists for the transaction id.
pub open spec fn pending_contains(pending: Seq<PendingTxRecord>, tx_id: u64) -> bool {
    exists|i: int| 0 <= i < pending.len() && (#[trigger] pending[i]).tx_id == tx_id
}

/// Whether some record carries the given commitment.
pub open spec fn commitment_known(recs: Seq<RecModel>, c: Seq<u8>) -> bool {
    exists|i: int| 0 <= i < recs.len() && (#[trigger] recs[i]).commitment == c
}

/// Well-formedness of the whole store model.
pub open spec fn store_wf(m: StoreModel) -> bool {
    &&& forall|i: int| 0 <= i < m.recs.len() ==> rec_wf(#[trigger] m.recs[i])
    &&& recs_distinct(m.recs)
    &&& pending_distinct(m.pending)
    &&& forall|i: int|
        0 <= i < m.recs.len() ==> ((#[trigger] m.recs[i]).tx_id matches Some(t) ==> pending_contains(
            m.pending,
            t,
        ))
    &&& sum_all(m.recs) <= u64::MAX
}

/// The model of a freshly inserted unspent record.
pub open spec fn unspent_rec(o: UnblindedOutput, c: Seq<u8>) -> RecModel {
    RecModel {
        value: o.value,
        key: o.spending_key@,
        coinbase: o.features.coinbase,
        maturity: o.features.maturity,
        commitment: c,
        status: OutputStatus::Unspent,
        tx_id: None,
    }
}

// ------------------------------------------------------------------
// Lemmas about sums.
// ------------------------------------------------------------------

/// Extending a prefix by one record grows each sum by that record's share.
pub proof fn lemma_sum_take_succ(recs: Seq<RecModel>, i: int)
    requires
        0 <= i < recs.len(),
    ensures
        sum_all(recs.take(i + 1)) == sum_all(recs.take(i)) + recs[i].value,
        sum_active(recs.take(i + 1)) == sum_active(recs.take(i)) + if active_status(recs[i].status) {
            recs[i].value as int
        } else {
            0
        },
        forall|st: OutputStatus|
            sum_status(recs.take(i + 1), st) == sum_status(recs.take(i), st) + if recs[i].status == st {
                recs[i].value as int
            } else {
                0
            },
{
    assert(recs.take(i + 1).drop_last() =~= recs.take(i));
    assert(recs.take(i + 1).last() == recs[i]);
}

/// Every partial sum is non-negative.
pub proof fn lemma_sums_nonneg(recs: Seq<RecModel>)
    ensures
        0 <= sum_all(recs),
        0 <= sum_active(recs),
        forall|st: OutputStatus| 0 <= #[trigger] sum_status(recs, st),
    decreases recs.len(),
{
    if recs.len() > 0 {
        lemma_sums_nonneg(recs.drop_last());
        assert forall|st: OutputStatus| 0 <= #[trigger] sum_status(recs, st) by {
            assert(0 <= sum_status(recs.drop_last(), st));
        }
    }
}

/// A prefix never sums to more than the whole.
pub proof fn lemma_sum_all_prefix(recs: Seq<RecModel>, i: int)
    requires
        0 <= i <= recs.len(),
    ensures
        sum_all(recs.take(i)) <= sum_all(recs),
    decreases recs.len() - i,
{
    if i == recs.len() {
        assert(recs.take(i) =~= recs);
    } else {
        lemma_sum_take_succ(recs, i);
        lemma_sum_all_prefix(recs, i + 1);
    }
}

/// A prefix of a list of outputs never sums to more than the whole list.
pub proof fn lemma_sum_outputs_prefix(outs: Seq<UnblindedOutput>, i: int)
    requires
        0 <= i <= outs.len(),
    ensures
        sum_outputs(outs.take(i)) <= sum_outputs(outs),
    decreases outs.len() - i,
{
    if i == outs.len() {
        assert(outs.take(i) =~= outs);
    } else {
        assert(outs.take(i + 1).drop_last() =~= outs.take(i));
        assert(outs.take(i + 1).last() == outs[i]);
        lemma_sum_outputs_prefix(outs, i + 1);
    }
}

/// The balance identity: available funds plus pending incoming plus pending
/// outgoing equal the total value of all outputs that are neither spent nor
/// invalid.
pub proof fn lemma_balance_identity(recs: Seq<RecModel>)
    ensures
        sum_status(recs, OutputStatus::Unspent) + sum_status(recs, OutputStatus::PendingIncoming)
            + sum_status(recs, OutputStatus::ShortTermEncumbered) + sum_status(
            recs,
            OutputStatus::Encumbered,
        ) == sum_active(recs),
    decreases recs.len(),
{
    if recs.len() > 0 {
        lemma_balance_identity(recs.drop_last());
    }
}

/// The active funds never exceed the total value held by the store.
pub proof fn lemma_active_le_all(recs: Seq<RecModel>)
    ensures
        sum_active(recs) <= sum_all(recs),
    decreases recs.len(),
{
    if recs.len() > 0 {
        lemma_active_le_all(recs.drop_last());
    }
}

// ------------------------------------------------------------------
// Transition functions: what each store operation does to the model.
// ------------------------------------------------------------------

/// Promoting a short-term encumberance: records of the transaction move from
/// short-term encumbered to encumbered.
pub open spec fn step_confirm_enc(r: RecModel, tx_id: u64) -> RecModel {
    if r.tx_id == Some(tx_id) && r.status == OutputStatus::ShortTermEncumbered {
        RecModel { status: OutputStatus::Encumbered, ..r }
    } else {
        r
    }
}

pub open spec fn confirm_enc_recs(recs: Seq<RecModel>, tx_id: u64) -> Seq<RecModel> {
    recs.map_values(|r: RecModel| step_confirm_enc(r, tx_id))
}

/// Promoting a short-term encumberance also clears the pending record's
/// short-term flag.
pub open spec fn clear_short_term_flag(pending: Seq<PendingTxRecord>, tx_id: u64) -> Seq<
    PendingTxRecord,
> {
    pending.map_values(
        |q: PendingTxRecord|
            if q.tx_id == tx_id {
                PendingTxRecord { short_term: false, ..q }
            } else {
                q
            },
    )
}

/// Confirming a transaction on chain: its spent outputs become spent, its
/// expected incoming outputs become unspent, and the transaction link is
/// dropped.
pub open spec fn step_confirm_tx(r: RecModel, tx_id: u64) -> RecModel {
    if r.tx_id == Some(tx_id) {
        if r.status == OutputStatus::PendingIncoming {
            RecModel { status: OutputStatus::Unspent, tx_id: None, ..r }
        } else if outbound_status(r.status) {
            RecModel { status: OutputStatus::Spent, tx_id: None, ..r }
        } else {
            r
        }
    } else {
        r
    }
}

pub open spec fn confirm_tx_recs(recs: Seq<RecModel>, tx_id: u64) -> Seq<RecModel> {
    recs.map_values(|r: RecModel| step_confirm_tx(r, tx_id))
}

/// Cancelling a transaction: its spent outputs return to unspent, its
/// expected incoming outputs are deleted.
pub open spec fn cancel_step(r: RecModel, tx_id: u64) -> Seq<RecModel> {
    if r.tx_id == Some(tx_id) {
        if r.status == OutputStatus::PendingIncoming {
            Seq::empty()
        } else if outbound_status(r.status) {
            seq![RecModel { status: OutputStatus::Unspent, tx_id: None, ..r }]
        } else {
            seq![r]
        }
    } else {
        seq![r]
    }
}

pub open spec fn cancel_recs(recs: Seq<RecModel>, tx_id: u64) -> Seq<RecModel>
    decreases recs.len(),
{
    if recs.len() == 0 {
        Seq::empty()
    } else {
        cancel_recs(recs.drop_last(), tx_id) + cancel_step(recs.last(), tx_id)
    }
}

/// Removing a pending record by transaction id.
pub open spec fn remove_pending(pending: Seq<PendingTxRecord>, tx_id: u64) -> Seq<PendingTxRecord>
    decreases pending.len(),
{
    if pending.len() == 0 {
        Seq::empty()
    } else if pending.last().tx_id == tx_id {
        remove_pending(pending.drop_last(), tx_id)
    } else {
        remove_pending(pending.drop_last(), tx_id).push(pending.last())
    }
}

/// Invalidating one output: from unspent to invalid, identified by its
/// commitment.
pub open spec fn step_invalidate(r: RecModel, c: Seq<u8>) -> RecModel {
    if r.commitment == c && r.status == OutputStatus::Unspent {
        RecModel { status: OutputStatus::Invalid, ..r }
    } else {
        r
    }
}

pub open spec fn invalidate_recs(recs: Seq<RecModel>, c: Seq<u8>) -> Seq<RecModel> {
    recs.map_values(|r: RecModel| step_invalidate(r, c))
}

/// Invalidating every unspent output whose commitment is among the targets.
pub open spec fn step_invalidate_many(r: RecModel, cs: Seq<Seq<u8>>) -> RecModel {
    if r.status == OutputStatus::Unspent && cs.contains(r.commitment) {
        RecModel { status: OutputStatus::Invalid, ..r }
    } else {
        r
    }
}

pub open spec fn invalidate_many_recs(recs: Seq<RecModel>, cs: Seq<Seq<u8>>) -> Seq<RecModel> {
    recs.map_values(|r: RecModel| step_invalidate_many(r, cs))
}

// ------------------------------------------------------------------
// Lemmas about the transition functions.
// ------------------------------------------------------------------

/// An element-wise transition that keeps values, commitments and key bytes
/// preserves the sums and the store invariants that depend on them.
pub proof fn lemma_sum_all_map(recs: Seq<RecModel>, f: spec_fn(RecModel) -> RecModel)
    requires
        forall|r: RecModel| (#[trigger] f(r)).value == r.value,
    ensures
        sum_all(recs.map_values(f)) == sum_all(recs),
    decreases recs.len(),
{
    if recs.len() > 0 {
        assert(recs.map_values(f).drop_last() =~= recs.drop_last().map_values(f));
        lemma_sum_all_map(recs.drop_last(), f);
    }
}

/// What the cancel transition guarantees: every surviving record keeps its
/// commitment, key and value from some original record; records of other
/// transactions survive unchanged; sums do not grow; distinctness survives.
pub proof fn lemma_cancel_props(recs: Seq<RecModel>, tx_id: u64)
    requires
        forall|i: int| 0 <= i < recs.len() ==> rec_wf(#[trigger] recs[i]),
    ensures
        forall|i: int|
            0 <= i < cancel_recs(recs, tx_id).len() ==> (#[trigger] cancel_recs(recs, tx_id)[i]).tx_id
                != Some(tx_id),
        sum_all(cancel_recs(recs, tx_id)) <= sum_all(recs),
        forall|c: Seq<u8>|
            #[trigger] commitment_known(cancel_recs(recs, tx_id), c) ==> commitment_known(recs, c),
        forall|i: int|
            0 <= i < cancel_recs(recs, tx_id).len() ==> exists|j: int|
                0 <= j < recs.len() && #[trigger] cancel_recs(recs, tx_id)[i] == step_cancel_surviving(
                    recs[j],
                    tx_id,
                ),
        recs_distinct(recs) ==> recs_distinct(cancel_recs(recs, tx_id)),
    decreases recs.len(),
{
    lemma_sums_nonneg(recs);
    if recs.len() > 0 {
        let prev = recs.drop_last();
        let tail = cancel_step(recs.last(), tx_id);
        let whole = cancel_recs(recs, tx_id);
        lemma_cancel_props(prev, tx_id);
        lemma_sums_nonneg(cancel_recs(prev, tx_id));
        lemma_sums_nonneg(tail);
        lemma_sum_all_concat(cancel_recs(prev, tx_id), tail);
        if tail.len() > 0 {
            assert(tail.drop_last() =~= Seq::<RecModel>::empty());
            assert(sum_all(tail.drop_last()) == 0);
            assert(sum_all(tail) == tail.last().value);
        }
        assert(sum_all(tail) <= recs.last().value);
        assert forall|i: int| 0 <= i < whole.len() implies exists|j: int|
            0 <= j < recs.len() && #[trigger] whole[i] == step_cancel_surviving(recs[j], tx_id) by {
            if i < cancel_recs(prev, tx_id).len() {
                let j = choose|j: int|
                    0 <= j < prev.len() && cancel_recs(prev, tx_id)[i] == step_cancel_surviving(
                        prev[j],
                        tx_id,
                    );
                assert(whole[i] == step_cancel_surviving(recs[j], tx_id));
            } else {
                assert(whole[i] == step_cancel_surviving(recs[recs.len() - 1], tx_id));
            }
        }
        assert forall|c: Seq<u8>| #[trigger] commitment_known(whole, c) implies commitment_known(
            recs,
            c,
        ) by {
            let i = choose|i: int| 0 <= i < whole.len() && whole[i].commitment == c;
            let j = choose|j: int|
                0 <= j < recs.len() && whole[i] == step_cancel_surviving(recs[j], tx_id);
            assert(recs[j].commitment == c);
        }
        if recs_distinct(recs) {
            assert forall|i: int, j: int|
                0 <= i < j < whole.len() implies (#[trigger] whole[i]).commitment != (
            #[trigger] whole[j]).commitment by {
                let a = choose|a: int|
                    0 <= a < recs.len() && whole[i] == step_cancel_surviving(recs[a], tx_id);
                let b = choose|b: int|
                    0 <= b < recs.len() && whole[j] == step_cancel_surviving(recs[b], tx_id);
                if j < cancel_recs(prev, tx_id).len() {
                    assert(recs_distinct(prev));
                } else {
                    // the last element's commitment is not among the survivors of the prefix
                    if whole[i].commitment == whole[j].commitment {
                        assert(commitment_known(cancel_recs(prev, tx_id), recs.last().commitment));
                        let k = choose|k: int|
                            0 <= k < prev.len() && #[trigger] prev[k].commitment == recs.last().commitment;
                        assert(recs[k].commitment == recs[recs.len() - 1].commitment);
                    }
                }
            }
        }
    }
}

/// What a record that survives cancellation looks like.
pub open spec fn step_cancel_surviving(r: RecModel, tx_id: u64) -> RecModel {
    if r.tx_id == Some(tx_id) && outbound_status(r.status) {
        RecModel { status: OutputStatus::Unspent, tx_id: None, ..r }
    } else {
        r
    }
}

/// Sums distribute over concatenation.
pub proof fn lemma_sum_all_concat(a: Seq<RecModel>, b: Seq<RecModel>)
    ensures
        sum_all(a + b) == sum_all(a) + sum_all(b),
    decreases b.len(),
{
    if b.len() == 0 {
        assert(a + b =~= a);
    } else {
        assert((a + b).drop_last() =~= a + b.drop_last());
        lemma_sum_all_concat(a, b.drop_last());
    }
}

/// Membership in the pending list after a removal.
pub proof fn lemma_remove_pending_contains(pending: Seq<PendingTxRecord>, tx_id: u64)
    ensures
        forall|t: u64|
            #[trigger] pending_contains(remove_pending(pending, tx_id), t) <==> (pending_contains(
                pending,
                t,
            ) && t != tx_id),
        pending_distinct(pending) ==> pending_distinct(remove_pending(pending, tx_id)),
        remove_pending(pending, tx_id).len() <= pending.len(),
    decreases pending.len(),
{
    if pending.len() > 0 {
        let prev = pending.drop_last();
        let removed = remove_pending(pending, tx_id);
        lemma_remove_pending_contains(prev, tx_id);
        assert forall|t: u64| #[trigger] pending_contains(removed, t) implies (pending_contains(
            pending,
            t,
        ) && t != tx_id) by {
            let i = choose|i: int| 0 <= i < removed.len() && removed[i].tx_id == t;
            if i < remove_pending(prev, tx_id).len() {
                assert(pending_contains(remove_pending(prev, tx_id), t));
                let j = choose|j: int| 0 <= j < prev.len() && prev[j].tx_id == t;
                assert(pending[j].tx_id == t);
            } else {
                assert(pending[pending.len() - 1].tx_id == t);
            }
        }
        assert forall|t: u64| (pending_contains(pending, t) && t != tx_id) implies #[trigger] pending_contains(
            removed,
            t,
        ) by {
            let i = choose|i: int| 0 <= i < pending.len() && pending[i].tx_id == t;
            if i < pending.len() - 1 {
                assert(prev[i].tx_id == t);
                assert(pending_contains(remove_pending(prev, tx_id), t));
                let j = choose|j: int|
                    0 <= j < remove_pending(prev, tx_id).len() && remove_pending(prev, tx_id)[j].tx_id
                        == t;
                if pending.last().tx_id == tx_id {
                    assert(removed[j].tx_id == t);
                } else {
                    assert(removed[j].tx_id == t);
                }
            } else {
                assert(pending.last().tx_id == t);
                assert(removed.last().tx_id == t);
            }
        }
        if pending_distinct(pending) {
            assert(pending_distinct(prev));
            if pending.last().tx_id == tx_id {
            } else {
                let rp = remove_pending(prev, tx_id);
                assert forall|i: int, j: int|
                    0 <= i < j < removed.len() implies (#[trigger] removed[i]).tx_id != (
                #[trigger] removed[j]).tx_id by {
                    if j < rp.len() {
                        assert(pending_distinct(rp));
                    } else {
                        assert(removed[j] == pending.last());
                        if removed[i].tx_id == pending.last().tx_id {
                            assert(pending_contains(rp, removed[i].tx_id));
                            let k = choose|k: int|
                                0 <= k < prev.len() && #[trigger] prev[k].tx_id == removed[i].tx_id;
                            assert(pending[k].tx_id == pending[pending.len() - 1].tx_id);
                        }
                    }
                }
            }
        }
    }
}

/// One partition's sum equals the sum over its filtered records, and never
/// exceeds the sum over all records.
pub proof fn lemma_sum_filter_status(recs: Seq<RecModel>, st: OutputStatus)
    ensures
        sum_all(filter_status(recs, st)) == sum_status(recs, st),
        sum_status(recs, st) <= sum_all(recs),
    decreases recs.len(),
{
    if recs.len() > 0 {
        lemma_sum_filter_status(recs.drop_last(), st);
        lemma_sums_nonneg(recs.drop_last());
        if recs.last().status == st {
            let f = filter_status(recs, st);
            assert(f.drop_last() =~= filter_status(recs.drop_last(), st));
            assert(f.last() == recs.last());
        }
    }
}

/// Every record of a partition's filter is a record of the store with that
/// status, and the filter inherits the store's distinct commitments.
pub proof fn lemma_filter_status_elems(recs: Seq<RecModel>, st: OutputStatus)
    ensures
        forall|i: int|
            0 <= i < filter_status(recs, st).len() ==> (#[trigger] filter_status(recs, st)[i]).status
                == st && exists|j: int|
                0 <= j < recs.len() && filter_status(recs, st)[i] == recs[j],
        recs_distinct(recs) ==> forall|i: int, j: int|
            0 <= i < j < filter_status(recs, st).len() ==> (#[trigger] filter_status(
                recs,
                st,
            )[i]).commitment != (#[trigger] filter_status(recs, st)[j]).commitment,
        forall|j: int|
            0 <= j < recs.len() && (#[trigger] recs[j]).status == st ==> filter_status(
                recs,
                st,
            ).contains(recs[j]),
    decreases recs.len(),
{
    if recs.len() > 0 {
        let prev = recs.drop_last();
        let f = filter_status(recs, st);
        let pf = filter_status(prev, st);
        lemma_filter_status_elems(prev, st);
        assert forall|j: int|
            0 <= j < recs.len() && (#[trigger] recs[j]).status == st implies f.contains(
            recs[j],
        ) by {
            if j < recs.len() - 1 {
                assert(prev[j] == recs[j]);
                assert(pf.contains(recs[j]));
                let w = choose|w: int| 0 <= w < pf.len() && pf[w] == recs[j];
                assert(f[w] == recs[j]);
            } else {
                assert(f.last() == recs[j]);
            }
        }
        assert forall|i: int|
            0 <= i < f.len() implies (#[trigger] f[i]).status == st && exists|j: int|
            0 <= j < recs.len() && f[i] == recs[j] by {
            if i < pf.len() {
                let j = choose|j: int| 0 <= j < prev.len() && pf[i] == prev[j];
                assert(f[i] == recs[j]);
            } else {
                assert(f[i] == recs[recs.len() - 1]);
            }
        }
        if recs_distinct(recs) {
            assert(recs_distinct(prev));
            assert forall|i: int, j: int|
                0 <= i < j < f.len() implies (#[trigger] f[i]).commitment != (
            #[trigger] f[j]).commitment by {
                if j < pf.len() {
                } else if recs.last().status == st {
                    assert(f[j] == recs.last());
                    let a = choose|a: int| 0 <= a < prev.len() && pf[i] == prev[a];
                    assert(recs[a].commitment != recs[recs.len() - 1].commitment);
                }
            }
        }
    }
}

/// Removing one record lowers the sum by its value.
pub proof fn lemma_sum_all_remove(recs: Seq<RecModel>, i: int)
    requires
        0 <= i < recs.len(),
    ensures
        sum_all(recs.remove(i)) == sum_all(recs) - recs[i].value,
    decreases recs.len(),
{
    if i == recs.len() - 1 {
        assert(recs.remove(i) =~= recs.drop_last());
    } else {
        assert(recs.remove(i).drop_last() =~= recs.drop_last().remove(i));
        assert(recs.remove(i).last() == recs.last());
        lemma_sum_all_remove(recs.drop_last(), i);
    }
}

// ------------------------------------------------------------------
// Encumbering and bulk cancellation.
// ------------------------------------------------------------------

/// The commitments of a list of 32-byte values.
pub open spec fn bytes_views(cs: Seq<[u8; 32]>) -> Seq<Seq<u8>> {
    cs.map_values(|a: [u8; 32]| a@)
}

/// Encumbering marks a spent output: unspent and selected, it becomes
/// short-term encumbered and tied to the transaction.
pub open spec fn step_mark_encumbered(r: RecModel, cs: Seq<Seq<u8>>, tx_id: u64) -> RecModel {
    if cs.contains(r.commitment) && r.status == OutputStatus::Unspent {
        RecModel { status: OutputStatus::ShortTermEncumbered, tx_id: Some(tx_id), ..r }
    } else {
        r
    }
}

pub open spec fn mark_encumbered_recs(recs: Seq<RecModel>, cs: Seq<Seq<u8>>, tx_id: u64) -> Seq<
    RecModel,
> {
    recs.map_values(|r: RecModel| step_mark_encumbered(r, cs, tx_id))
}

/// The model of an expected incoming output of a pending transaction.
pub open spec fn incoming_rec(o: UnblindedOutput, c: Seq<u8>, tx_id: u64) -> RecModel {
    RecModel {
        value: o.value,
        key: o.spending_key@,
        coinbase: o.features.coinbase,
        maturity: o.features.maturity,
        commitment: c,
        status: OutputStatus::PendingIncoming,
        tx_id: Some(tx_id),
    }
}

pub open spec fn incoming_recs(outs: Seq<UnblindedOutput>, cs: Seq<[u8; 32]>, tx_id: u64) -> Seq<
    RecModel,
> {
    Seq::new(outs.len(), |i: int| incoming_rec(outs[i], cs[i]@, tx_id))
}

/// Sum of the values of a list of outputs.
pub open spec fn sum_outputs(outs: Seq<UnblindedOutput>) -> int
    decreases outs.len(),
{
    if outs.len() == 0 {
        0
    } else {
        sum_outputs(outs.drop_last()) + outs.last().value
    }
}

/// The conditions under which `encumber_outputs` succeeds.
pub open spec fn encumber_ok(
    m: StoreModel,
    tx_id: u64,
    spent: Seq<Seq<u8>>,
    change: Seq<UnblindedOutput>,
    change_cs: Seq<Seq<u8>>,
) -> bool {
    &&& !pending_contains(m.pending, tx_id)
    &&& forall|i: int| 0 <= i < spent.len() ==> unspent_known(m.recs, #[trigger] spent[i])
    &&& forall|i: int, j: int| 0 <= i < j < spent.len() ==> spent[i] != spent[j]
    &&& forall|i: int| 0 <= i < change_cs.len() ==> !commitment_known(m.recs, #[trigger] change_cs[i])
    &&& forall|i: int, j: int| 0 <= i < j < change_cs.len() ==> change_cs[i] != change_cs[j]
    &&& sum_all(m.recs) + sum_outputs(change) <= u64::MAX
}

/// The full effect of `encumber_outputs` on the model.
pub open spec fn encumber_model(
    m: StoreModel,
    tx_id: u64,
    spent: Seq<Seq<u8>>,
    change: Seq<UnblindedOutput>,
    change_cs: Seq<[u8; 32]>,
    timestamp: u64,
) -> StoreModel {
    StoreModel {
        recs: mark_encumbered_recs(m.recs, spent, tx_id) + incoming_recs(change, change_cs, tx_id),
        pending: m.pending.push(PendingTxRecord { tx_id, timestamp, short_term: true }),
        ..m
    }
}

/// The incoming records of a pending transaction sum to the values of its
/// outputs.
pub proof fn lemma_sum_incoming(outs: Seq<UnblindedOutput>, cs: Seq<[u8; 32]>, tx_id: u64)
    requires
        outs.len() == cs.len(),
    ensures
        sum_all(incoming_recs(outs, cs, tx_id)) == sum_outputs(outs),
    decreases outs.len(),
{
    if outs.len() > 0 {
        assert(incoming_recs(outs, cs, tx_id).drop_last() =~= incoming_recs(
            outs.drop_last(),
            cs.drop_last(),
            tx_id,
        ));
        lemma_sum_incoming(outs.drop_last(), cs.drop_last(), tx_id);
    }
}

/// Transaction ids of the pending records selected by a predicate.
pub open spec fn select_txs(
    pending: Seq<PendingTxRecord>,
    pred: spec_fn(PendingTxRecord) -> bool,
) -> Seq<u64>
    decreases pending.len(),
{
    if pending.len() == 0 {
        Seq::empty()
    } else if pred(pending.last()) {
        select_txs(pending.drop_last(), pred).push(pending.last().tx_id)
    } else {
        select_txs(pending.drop_last(), pred)
    }
}

/// Each selected id belongs to a pending record matching the predicate; with
/// distinct pending ids the selection is itself free of duplicates, and every
/// matching record is selected.
pub proof fn lemma_select_txs_props(
    pending: Seq<PendingTxRecord>,
    pred: spec_fn(PendingTxRecord) -> bool,
)
    ensures
        forall|i: int|
            0 <= i < select_txs(pending, pred).len() ==> pending_contains(
                pending,
                #[trigger] select_txs(pending, pred)[i],
            ),
        pending_distinct(pending) ==> forall|i: int, j: int|
            0 <= i < j < select_txs(pending, pred).len() ==> select_txs(pending, pred)[i]
                != select_txs(pending, pred)[j],
        forall|k: int|
            0 <= k < pending.len() && pred(#[trigger] pending[k]) ==> select_txs(
                pending,
                pred,
            ).contains(pending[k].tx_id),
    decreases pending.len(),
{
    if pending.len() > 0 {
        let prev = pending.drop_last();
        let sel = select_txs(pending, pred);
        let psel = select_txs(prev, pred);
        lemma_select_txs_props(prev, pred);
        assert forall|i: int| 0 <= i < sel.len() implies pending_contains(
            pending,
            #[trigger] sel[i],
        ) by {
            if i < psel.len() {
                assert(pending_contains(prev, psel[i]));
                let j = choose|j: int| 0 <= j < prev.len() && prev[j].tx_id == psel[i];
                assert(pending[j].tx_id == sel[i]);
            } else {
                assert(pending[pending.len() - 1].tx_id == sel[i]);
            }
        }
        if pending_distinct(pending) {
            assert(pending_distinct(prev));
            assert forall|i: int, j: int| 0 <= i < j < sel.len() implies sel[i] != sel[j] by {
                if j < psel.len() {
                } else if pred(pending.last()) {
                    assert(sel[j] == pending.last().tx_id);
                    if sel[i] == sel[j] {
                        assert(pending_contains(prev, sel[i]));
                        let k = choose|k: int| 0 <= k < prev.len() && prev[k].tx_id == sel[i];
                        assert(pending[k].tx_id == pending[pending.len() - 1].tx_id);
                    }
                }
            }
        }
        assert forall|k: int|
            0 <= k < pending.len() && pred(#[trigger] pending[k]) implies sel.contains(
            pending[k].tx_id,
        ) by {
            if k < pending.len() - 1 {
                assert(prev[k] == pending[k]);
                assert(psel.contains(pending[k].tx_id));
                let w = choose|w: int| 0 <= w < psel.len() && psel[w] == pending[k].tx_id;
                if pred(pending.last()) {
                    assert(sel[w] == pending[k].tx_id);
                } else {
                    assert(sel[w] == pending[k].tx_id);
                }
            } else {
                assert(sel.last() == pending[k].tx_id);
            }
        }
    }
}

/// Cancelling a list of transactions, first to last.
pub open spec fn cancel_all_recs(recs: Seq<RecModel>, txs: Seq<u64>) -> Seq<RecModel>
    decreases txs.len(),
{
    if txs.len() == 0 {
        recs
    } else {
        cancel_recs(cancel_all_recs(recs, txs.drop_last()), txs.last())
    }
}

/// Removing a list of pending records, first to last.
pub open spec fn remove_many_pending(pending: Seq<PendingTxRecord>, txs: Seq<u64>) -> Seq<
    PendingTxRecord,
>
    decreases txs.len(),
{
    if txs.len() == 0 {
        pending
    } else {
        remove_pending(remove_many_pending(pending, txs.drop_last()), txs.last())
    }
}

// ------------------------------------------------------------------
// The store itself.
// ------------------------------------------------------------------

/// In-memory output store with atomic state transitions. All mutating
/// operations either apply their full effect or leave the store unchanged.
pub struct OutputStore {
    records: Vec<OutputRecord>,
    pending: Vec<PendingTxRecord>,
    key_state: Option<KeyManagerState>,
}

impl View for OutputStore {
    type V = StoreModel;

    closed spec fn view(&self) -> StoreModel {
        StoreModel {
            recs: models(self.records@),
            pending: self.pending@,
            key_state: match self.key_state {
                Some(ref k) => Some(k@),
                None => None,
            },
        }
    }
}

impl OutputStore {
    /// Well-formedness of the store; established by `new` and preserved by
    /// every operation.
    pub open spec fn wf(&self) -> bool {
        store_wf(self@)
    }

    /// An empty store.
    pub fn new() -> (r: OutputStore)
        ensures
            r.wf(),
            r@.recs == Seq::<RecModel>::empty(),
            r@.pending == Seq::<PendingTxRecord>::empty(),
            r@.key_state is None,
    {
        let r = OutputStore { records: Vec::new(), pending: Vec::new(), key_state: None };
        proof {
            assert(r@.recs =~= Seq::<RecModel>::empty());
            assert(r@.pending =~= Seq::<PendingTxRecord>::empty());
        }
        r
    }

    /// Whether the key manager state has been persisted.
    pub fn has_key_manager_state(&self) -> (r: bool)
        ensures
            r == (self@.key_state is Some),
    {
        self.key_state.is_some()
    }

    /// Read the persisted key manager state, if any.
    pub fn get_key_manager_state(&self) -> (r: Option<&KeyManagerState>)
        ensures
            match r {
                Some(k) => self@.key_state == Some(k@),
                None => self@.key_state is None,
            },
    {
        match &self.key_state {
            Some(k) => Some(k),
            None => None,
        }
    }

    /// Upsert the key manager state.
    pub fn set_key_manager_state(&mut self, state: KeyManagerState)
        requires
            old(self).wf(),
        ensures
            final(self).wf(),
            final(self)@ == (StoreModel { key_state: Some(state@), ..old(self)@ }),
    {
        self.key_state = Some(state);
        proof {
            assert(final(self)@ =~= (StoreModel { key_state: Some(state@), ..old(self)@ }));
        }
    }

    /// Atomically increment the persisted key index. Fails with a storage
    /// error when no state is persisted or the counter would overflow.
    pub fn increment_key_index(&mut self) -> (r: Result<(), OutputManagerError>)
        requires
            old(self).wf(),
        ensures
            final(self).wf(),
            match r {
                Ok(()) => {
                    &&& old(self)@.key_state matches Some(k)
                    &&& k.index < u64::MAX
                    &&& final(self)@ == (StoreModel {
                        key_state: Some(KmModel { index: (k.index + 1) as u64, ..k }),
                        ..old(self)@
                    })
                },
                Err(e) => {
                    &&& e == OutputManagerError::StorageError
                    &&& final(self)@ == old(self)@
                    &&& (old(self)@.key_state is None || (old(self)@.key_state matches Some(k)
                        && k.index == u64::MAX))
                },
            },
    {
        match &mut self.key_state {
            None => Err(OutputManagerError::StorageError),
            Some(k) => {
                if k.primary_key_index == u64::MAX {
                    Err(OutputManagerError::StorageError)
                } else {
                    k.primary_key_index = k.primary_key_index + 1;
                    proof {
                        let km = old(self)@.key_state->Some_0;
                        assert(final(self)@ =~= (StoreModel {
                            key_state: Some(KmModel { index: (km.index + 1) as u64, ..km }),
                            ..old(self)@
                        }));
                    }
                    Ok(())
                }
            },
        }
    }

    /// Find the record holding the given commitment.
    fn find_commitment(&self, c: &[u8; 32]) -> (r: Option<usize>)
        ensures
            match r {
                Some(i) => i < self@.recs.len() && self@.recs[i as int].commitment == c@,
                None => !commitment_known(self@.recs, c@),
            },
    {
        let ghost m = self@.recs;
        let mut i: usize = 0;
        while i < self.records.len()
            invariant
                i <= self.records.len(),
                m == self@.recs,
                m.len() == self.records.len(),
                forall|j: int| 0 <= j < i ==> (#[trigger] m[j]).commitment != c@,
            decreases self.records.len() - i,
        {
            if bytes32_eq(&self.records[i].commitment, c) {
                assert(m[i as int].commitment == c@);
                return Some(i);
            }
            i = i + 1;
        }
        None
    }

    /// Whether a pending record exists for the transaction id.
    pub fn contains_pending(&self, tx_id: u64) -> (r: bool)
        ensures
            r == pending_contains(self@.pending, tx_id),
    {
        let mut i: usize = 0;
        while i < self.pending.len()
            invariant
                i <= self.pending.len(),
                forall|j: int| 0 <= j < i ==> (#[trigger] self@.pending[j]).tx_id != tx_id,
            decreases self.pending.len() - i,
        {
            if self.pending[i].tx_id == tx_id {
                return true;
            }
            i = i + 1;
        }
        false
    }

    /// Total value held by the store, across all partitions.
    fn total_value(&self) -> (r: u64)
        requires
            self.wf(),
        ensures
            r == sum_all(self@.recs),
    {
        let ghost m = self@.recs;
        let mut t: u64 = 0;
        let mut i: usize = 0;
        proof {
            assert(m.take(0) =~= Seq::<RecModel>::empty());
        }
        while i < self.records.len()
            invariant
                self.wf(),
                i <= self.records.len(),
                m == self@.recs,
                m.len() == self.records.len(),
                t == sum_all(m.take(i as int)),
            decreases self.records.len() - i,
        {
            proof {
                lemma_sum_take_succ(m, i as int);
                lemma_sums_nonneg(m.take(i as int));
                lemma_sum_all_prefix(m, i as int + 1);
            }
            t = t + self.records[i].output.value;
            i = i + 1;
        }
        proof {
            assert(m.take(m.len() as int) =~= m);
        }
        t
    }

    /// Insert a new output into the unspent partition. Duplicates by
    /// commitment are rejected, as is an output whose value would push the
    /// store's total over the representable maximum.
    pub fn add_unspent_output(&mut self, output: UnblindedOutput, commitment: [u8; 32]) -> (r:
        Result<(), OutputManagerError>)
        requires
            old(self).wf(),
        ensures
            final(self).wf(),
            r is Ok <==> (!commitment_known(old(self)@.recs, commitment@) && sum_all(
                old(self)@.recs,
            ) + output.value <= u64::MAX),
            match r {
                Ok(()) => {
                    &&& !commitment_known(old(self)@.recs, commitment@)
                    &&& sum_all(old(self)@.recs) + output.value <= u64::MAX
                    &&& final(self)@ == (StoreModel {
                        recs: old(self)@.recs.push(unspent_rec(output, commitment@)),
                        ..old(self)@
                    })
                },
                Err(e) => {
                    &&& final(self)@ == old(self)@
                    &&& (e == OutputManagerError::DuplicateOutput || e
                        == OutputManagerError::StorageError)
                    &&& (e == OutputManagerError::DuplicateOutput <==> commitment_known(
                        old(self)@.recs,
                        commitment@,
                    ))
                    &&& (e == OutputManagerError::StorageError <==> (!commitment_known(
                        old(self)@.recs,
                        commitment@,
                    ) && sum_all(old(self)@.recs) + output.value > u64::MAX))
                },
            },
    {
        if self.find_commitment(&commitment).is_some() {
            return Err(OutputManagerError::DuplicateOutput);
        }
        let total = self.total_value();
        if output.value > u64::MAX - total {
            return Err(OutputManagerError::StorageError);
        }
        proof {
            lemma_sums_nonneg(self@.recs);
        }
        let rec = OutputRecord {
            output,
            commitment,
            status: OutputStatus::Unspent,
            tx_id: None,
        };
        self.records.push(rec);
        proof {
            let orecs = old(self)@.recs;
            let nrec = unspent_rec(output, commitment@);
            assert(rec@ == nrec);
            assert(final(self)@.recs =~= orecs.push(nrec));
            assert(final(self)@ =~= (StoreModel { recs: orecs.push(nrec), ..old(self)@ }));
            // The new sequence is well formed: the new record's sum extends the old.
            assert(orecs.push(nrec).drop_last() =~= orecs);
            assert(sum_all(orecs.push(nrec)) == sum_all(orecs) + output.value);
            assert forall|i: int, j: int|
                0 <= i < j < final(self)@.recs.len() implies (#[trigger] final(self)@.recs[i]).commitment
                != (#[trigger] final(self)@.recs[j]).commitment by {
                if j < orecs.len() {
                } else {
                    assert(final(self)@.recs[j] == nrec);
                    assert(!commitment_known(orecs, commitment@));
                }
            }
        }
        Ok(())
    }

    /// Whether a commitment occurs in a list of commitments.
    fn commitment_in_list(cs: &Vec<[u8; 32]>, c: &[u8; 32]) -> (r: bool)
        ensures
            r == bytes_views(cs@).contains(c@),
    {
        let mut i: usize = 0;
        while i < cs.len()
            invariant
                i <= cs.len(),
                forall|j: int| 0 <= j < i ==> bytes_views(cs@)[j] != c@,
            decreases cs.len() - i,
        {
            if bytes32_eq(&cs[i], c) {
                assert(bytes_views(cs@)[i as int] == c@);
                return true;
            }
            i = i + 1;
        }
        proof {
            if bytes_views(cs@).contains(c@) {
                let w = choose|w: int|
                    0 <= w < bytes_views(cs@).len() && bytes_views(cs@)[w] == c@;
                assert(false);
            }
        }
        false
    }

    /// Atomically move the selected unspent outputs into short-term
    /// encumberance, record the expected change outputs as pending incoming,
    /// and create the pending transaction record. On any failure the store is
    /// left unchanged.
    pub fn encumber_outputs(
        &mut self,
        tx_id: u64,
        spent_commitments: &Vec<[u8; 32]>,
        change: &Vec<UnblindedOutput>,
        change_commitments: &Vec<[u8; 32]>,
        timestamp: u64,
    ) -> (r: Result<(), OutputManagerError>)
        requires
            old(self).wf(),
            change.len() == change_commitments.len(),
        ensures
            final(self).wf(),
            r is Ok <==> encumber_ok(
                old(self)@,
                tx_id,
                bytes_views(spent_commitments@),
                change@,
                bytes_views(change_commitments@),
            ),
            r matches Ok(()) ==> final(self)@ == encumber_model(
                old(self)@,
                tx_id,
                bytes_views(spent_commitments@),
                change@,
                change_commitments@,
                timestamp,
            ),
            r is Err ==> final(self)@ == old(self)@,
            r matches Err(e) ==> (e == OutputManagerError::ConflictingEncumberance || e
                == OutputManagerError::MissingOutput || e == OutputManagerError::StorageError),
            r == Err::<(), OutputManagerError>(OutputManagerError::MissingOutput) ==> exists|i: int|
                0 <= i < spent_commitments@.len() && !unspent_known(
                    old(self)@.recs,
                    #[trigger] bytes_views(spent_commitments@)[i],
                ),
            r == Err::<(), OutputManagerError>(OutputManagerError::StorageError) ==> sum_all(
                old(self)@.recs,
            ) + sum_outputs(change@) > u64::MAX,
            r == Err::<(), OutputManagerError>(OutputManagerError::ConflictingEncumberance) ==> ({
                ||| pending_contains(old(self)@.pending, tx_id)
                ||| exists|i: int, j: int|
                    0 <= i < j < spent_commitments@.len() && #[trigger] bytes_views(
                        spent_commitments@,
                    )[i] == #[trigger] bytes_views(spent_commitments@)[j]
                ||| exists|i: int|
                    0 <= i < change_commitments@.len() && commitment_known(
                        old(self)@.recs,
                        #[trigger] bytes_views(change_commitments@)[i],
                    )
                ||| exists|i: int, j: int|
                    0 <= i < j < change_commitments@.len() && #[trigger] bytes_views(
                        change_commitments@,
                    )[i] == #[trigger] bytes_views(change_commitments@)[j]
            }),
    {
        let ghost m = self@;
        let ghost spentv = bytes_views(spent_commitments@);
        let ghost chv = bytes_views(change_commitments@);
        if self.contains_pending(tx_id) {
            return Err(OutputManagerError::ConflictingEncumberance);
        }
        // Phase one: check everything without mutating.
        let mut i: usize = 0;
        while i < spent_commitments.len()
            invariant
                old(self).wf(),
                self@ == m,
                i <= spent_commitments.len(),
                spentv == bytes_views(spent_commitments@),
                spentv.len() == spent_commitments.len(),
                forall|j: int| 0 <= j < i ==> unspent_known(m.recs, #[trigger] spentv[j]),
                forall|j: int, k: int| 0 <= j < k < i ==> spentv[j] != spentv[k],
            decreases spent_commitments.len() - i,
        {
            let idx = match self.find_commitment(&spent_commitments[i]) {
                None => {
                    proof {
                        assert(spentv[i as int] == spent_commitments@[i as int]@);
                        if unspent_known(m.recs, spentv[i as int]) {
                            let w = choose|w: int|
                                0 <= w < m.recs.len() && m.recs[w].commitment == spentv[i as int]
                                    && m.recs[w].status == OutputStatus::Unspent;
                            assert(commitment_known(m.recs, spentv[i as int]));
                        }
                    }
                    return Err(OutputManagerError::MissingOutput);
                },
                Some(idx) => idx,
            };
            if self.records[idx].status != OutputStatus::Unspent {
                proof {
                    assert forall|w: int|
                        0 <= w < m.recs.len() implies !((#[trigger] m.recs[w]).commitment
                        == spentv[i as int] && m.recs[w].status == OutputStatus::Unspent) by {
                        if m.recs[w].commitment == spentv[i as int] && w != idx {
                            assert(m.recs[idx as int].commitment == m.recs[w].commitment);
                        }
                    }
                }
                return Err(OutputManagerError::MissingOutput);
            }
            let mut j: usize = 0;
            while j < i
                invariant
                    old(self).wf(),
                    self@ == m,
                    j <= i,
                    i < spent_commitments.len(),
                    spentv == bytes_views(spent_commitments@),
                    spentv.len() == spent_commitments.len(),
                    forall|k: int| 0 <= k < j ==> spentv[k] != spentv[i as int],
                decreases i - j,
            {
                if bytes32_eq(&spent_commitments[j], &spent_commitments[i]) {
                    assert(spentv[j as int] == spentv[i as int]);
                    return Err(OutputManagerError::ConflictingEncumberance);
                }
                j = j + 1;
            }
            assert(unspent_known(m.recs, spentv[i as int])) by {
                assert(m.recs[idx as int].commitment == spentv[i as int]);
            }
            i = i + 1;
        }
        let mut csum: u64 = 0;
        let mut b: usize = 0;
        proof {
            assert(change@.take(0) =~= Seq::<UnblindedOutput>::empty());
        }
        while b < change.len()
            invariant
                old(self).wf(),
                self@ == m,
                b <= change.len(),
                change.len() == change_commitments.len(),
                chv == bytes_views(change_commitments@),
                chv.len() == change_commitments.len(),
                csum == sum_outputs(change@.take(b as int)),
                forall|j: int| 0 <= j < b ==> !commitment_known(m.recs, #[trigger] chv[j]),
                forall|j: int, k: int| 0 <= j < k < b ==> chv[j] != chv[k],
            decreases change.len() - b,
        {
            proof {
                assert(change@.take(b as int + 1).drop_last() =~= change@.take(b as int));
                assert(change@.take(b as int + 1).last() == change@[b as int]);
            }
            match self.find_commitment(&change_commitments[b]) {
                Some(idx) => {
                    proof {
                        assert(m.recs[idx as int].commitment == chv[b as int]);
                        assert(commitment_known(m.recs, chv[b as int]));
                    }
                    return Err(OutputManagerError::ConflictingEncumberance);
                },
                None => {},
            }
            let mut j: usize = 0;
            while j < b
                invariant
                    old(self).wf(),
                    self@ == m,
                    j <= b,
                    b < change_commitments.len(),
                    chv == bytes_views(change_commitments@),
                    chv.len() == change_commitments.len(),
                    forall|k: int| 0 <= k < j ==> chv[k] != chv[b as int],
                decreases b - j,
            {
                if bytes32_eq(&change_commitments[j], &change_commitments[b]) {
                    assert(chv[j as int] == chv[b as int]);
                    return Err(OutputManagerError::ConflictingEncumberance);
                }
                j = j + 1;
            }
            if change[b].value > u64::MAX - csum {
                proof {
                    lemma_sum_outputs_prefix(change@, b as int + 1);
                    lemma_sums_nonneg(m.recs);
                }
                return Err(OutputManagerError::StorageError);
            }
            csum = csum + change[b].value;
            b = b + 1;
        }
        proof {
            assert(change@.take(change@.len() as int) =~= change@);
        }
        let total = self.total_value();
        if csum > u64::MAX - total {
            return Err(OutputManagerError::StorageError);
        }
        // Phase two: apply the transition.
        let mut new_records: Vec<OutputRecord> = Vec::new();
        let mut a: usize = 0;
        while a < self.records.len()
            invariant
                self@ == m,
                a <= self.records.len(),
                m.recs.len() == self.records.len(),
                spentv == bytes_views(spent_commitments@),
                new_records@.len() == a,
                forall|j: int|
                    0 <= j < a ==> (#[trigger] new_records@[j])@ == step_mark_encumbered(
                        m.recs[j],
                        spentv,
                        tx_id,
                    ),
            decreases self.records.len() - a,
        {
            let mut rec = self.records[a];
            if rec.status == OutputStatus::Unspent && Self::commitment_in_list(
                spent_commitments,
                &rec.commitment,
            ) {
                rec.status = OutputStatus::ShortTermEncumbered;
                rec.tx_id = Some(tx_id);
            }
            new_records.push(rec);
            a = a + 1;
        }
        self.records = new_records;
        let ghost marked = mark_encumbered_recs(m.recs, spentv, tx_id);
        proof {
            assert(models(self.records@) =~= marked);
            assert(incoming_recs(change@.take(0), change_commitments@.take(0), tx_id)
                =~= Seq::<RecModel>::empty());
            assert(marked + Seq::<RecModel>::empty() =~= marked);
        }
        let mut c: usize = 0;
        while c < change.len()
            invariant
                c <= change.len(),
                change.len() == change_commitments.len(),
                models(self.records@) == marked + incoming_recs(
                    change@.take(c as int),
                    change_commitments@.take(c as int),
                    tx_id,
                ),
                self.pending@ == m.pending,
                self@.key_state == m.key_state,
            decreases change.len() - c,
        {
            let rec = OutputRecord {
                output: change[c],
                commitment: change_commitments[c],
                status: OutputStatus::PendingIncoming,
                tx_id: Some(tx_id),
            };
            let ghost before = models(self.records@);
            self.records.push(rec);
            proof {
                assert(models(self.records@) =~= before.push(rec@));
                assert(before.push(rec@) =~= marked + incoming_recs(
                    change@.take(c as int + 1),
                    change_commitments@.take(c as int + 1),
                    tx_id,
                ));
            }
            c = c + 1;
        }
        self.pending.push(PendingTxRecord { tx_id, timestamp, short_term: true });
        proof {
            assert(change@.take(change@.len() as int) =~= change@);
            assert(change_commitments@.take(change_commitments@.len() as int)
                =~= change_commitments@);
            let inc = incoming_recs(change@, change_commitments@, tx_id);
            let nr = final(self)@.recs;
            assert(nr == marked + inc);
            assert(final(self)@ =~= encumber_model(
                m,
                tx_id,
                spentv,
                change@,
                change_commitments@,
                timestamp,
            ));
            let f = |r: RecModel| step_mark_encumbered(r, spentv, tx_id);
            assert(marked =~= m.recs.map_values(f));
            lemma_sum_all_map(m.recs, f);
            lemma_sum_all_concat(marked, inc);
            lemma_sum_incoming(change@, change_commitments@, tx_id);
            assert forall|x: int| 0 <= x < nr.len() implies rec_wf(#[trigger] nr[x]) by {
                if x < marked.len() {
                    assert(rec_wf(m.recs[x]));
                } else {
                    assert(nr[x] == incoming_rec(
                        change@[x - marked.len()],
                        change_commitments@[x - marked.len()]@,
                        tx_id,
                    ));
                }
            }
            assert forall|x: int, y: int|
                0 <= x < y < nr.len() implies (#[trigger] nr[x]).commitment != (
            #[trigger] nr[y]).commitment by {
                if y < marked.len() {
                    assert(m.recs[x].commitment != m.recs[y].commitment);
                } else if x < marked.len() {
                    assert(nr[x].commitment == m.recs[x].commitment);
                    assert(nr[y].commitment == chv[y - marked.len()]);
                    if nr[x].commitment == nr[y].commitment {
                        assert(commitment_known(m.recs, chv[y - marked.len()]));
                    }
                } else {
                    assert(nr[x].commitment == chv[x - marked.len()]);
                    assert(nr[y].commitment == chv[y - marked.len()]);
                }
            }
            let np = final(self)@.pending;
            assert forall|x: int, y: int|
                0 <= x < y < np.len() implies (#[trigger] np[x]).tx_id != (#[trigger] np[y]).tx_id by {
                if y < m.pending.len() {
                } else {
                    if np[x].tx_id == tx_id {
                        assert(pending_contains(m.pending, tx_id));
                    }
                }
            }
            assert forall|x: int|
                0 <= x < nr.len() implies ((#[trigger] nr[x]).tx_id matches Some(t)
                ==> pending_contains(np, t)) by {
                if nr[x].tx_id is Some {
                    let t = nr[x].tx_id->Some_0;
                    if x < marked.len() && nr[x] == m.recs[x] {
                        assert(pending_contains(m.pending, t));
                        let w = choose|w: int| 0 <= w < m.pending.len() && m.pending[w].tx_id == t;
                        assert(np[w].tx_id == t);
                    } else {
                        assert(t == tx_id);
                        assert(np[np.len() - 1].tx_id == tx_id);
                    }
                }
            }
            assert(sum_all(nr) == sum_all(m.recs) + sum_outputs(change@));
        }
        Ok(())
    }

    /// Record an expected incoming output for a transaction: the output goes
    /// to the pending incoming partition and a short-term pending transaction
    /// record is created.
    pub fn accept_incoming_pending_transaction(
        &mut self,
        tx_id: u64,
        output: UnblindedOutput,
        commitment: [u8; 32],
        timestamp: u64,
    ) -> (r: Result<(), OutputManagerError>)
        requires
            old(self).wf(),
        ensures
            final(self).wf(),
            r is Ok <==> (!pending_contains(old(self)@.pending, tx_id) && !commitment_known(
                old(self)@.recs,
                commitment@,
            ) && sum_all(old(self)@.recs) + output.value <= u64::MAX),
            r matches Ok(()) ==> final(self)@ == (StoreModel {
                recs: old(self)@.recs.push(incoming_rec(output, commitment@, tx_id)),
                pending: old(self)@.pending.push(
                    PendingTxRecord { tx_id, timestamp, short_term: true },
                ),
                ..old(self)@
            }),
            r is Err ==> final(self)@ == old(self)@,
            r matches Err(e) ==> (e == OutputManagerError::ConflictingEncumberance || e
                == OutputManagerError::StorageError),
    {
        let spent: Vec<[u8; 32]> = Vec::new();
        proof {
            assert(bytes_views(spent@).len() == 0);
        }
        let mut ch: Vec<UnblindedOutput> = Vec::new();
        ch.push(output);
        let mut chc: Vec<[u8; 32]> = Vec::new();
        chc.push(commitment);
        let ghost m = self@;
        let r = self.encumber_outputs(tx_id, &spent, &ch, &chc, timestamp);
        proof {
            let spentv = bytes_views(spent@);
            let chvs = bytes_views(chc@);
            assert(spentv =~= Seq::<Seq<u8>>::empty());
            assert(chvs.len() == 1 && chvs[0] == commitment@);
            assert(ch@.drop_last() =~= Seq::<UnblindedOutput>::empty());
            assert(sum_outputs(ch@.drop_last()) == 0);
            assert(sum_outputs(ch@) == output.value);
            if r is Ok {
                let f = |r: RecModel| step_mark_encumbered(r, spentv, tx_id);
                assert forall|j: int| 0 <= j < m.recs.len() implies f(#[trigger] m.recs[j])
                    == m.recs[j] by {
                    if spentv.contains(m.recs[j].commitment) {
                        let w = choose|w: int|
                            0 <= w < spentv.len() && spentv[w] == m.recs[j].commitment;
                        assert(false);
                    }
                }
                assert(mark_encumbered_recs(m.recs, spentv, tx_id) =~= m.recs);
                assert(incoming_recs(ch@, chc@, tx_id) =~= seq![
                    incoming_rec(output, commitment@, tx_id),
                ]);
                assert(m.recs + seq![incoming_rec(output, commitment@, tx_id)] =~= m.recs.push(
                    incoming_rec(output, commitment@, tx_id),
                ));
                assert(final(self)@ =~= (StoreModel {
                    recs: m.recs.push(incoming_rec(output, commitment@, tx_id)),
                    pending: m.pending.push(PendingTxRecord { tx_id, timestamp, short_term: true }),
                    ..m
                }));
            }
        }
        match r {
            Ok(()) => Ok(()),
            Err(e) => Err(e),
        }
    }

    /// Promote the short-term encumberance of a pending transaction to a full
    /// encumberance. Unknown transaction ids are rejected; promoting twice is
    /// harmless.
    pub fn confirm_encumbered_outputs(&mut self, tx_id: u64) -> (r: Result<
        (),
        OutputManagerError,
    >)
        requires
            old(self).wf(),
        ensures
            final(self).wf(),
            match r {
                Ok(()) => {
                    &&& pending_contains(old(self)@.pending, tx_id)
                    &&& final(self)@ == (StoreModel {
                        recs: confirm_enc_recs(old(self)@.recs, tx_id),
                        pending: clear_short_term_flag(old(self)@.pending, tx_id),
                        ..old(self)@
                    })
                },
                Err(e) => {
                    &&& e == OutputManagerError::UnknownTransaction
                    &&& !pending_contains(old(self)@.pending, tx_id)
                    &&& final(self)@ == old(self)@
                },
            },
    {
        if !self.contains_pending(tx_id) {
            return Err(OutputManagerError::UnknownTransaction);
        }
        let ghost m = self@;
        let mut new_records: Vec<OutputRecord> = Vec::new();
        let mut i: usize = 0;
        while i < self.records.len()
            invariant
                i <= self.records.len(),
                self@ == m,
                m.recs.len() == self.records.len(),
                new_records@.len() == i,
                forall|j: int|
                    0 <= j < i ==> (#[trigger] new_records@[j])@ == step_confirm_enc(
                        m.recs[j],
                        tx_id,
                    ),
            decreases self.records.len() - i,
        {
            let mut rec = self.records[i];
            let is_tx = match rec.tx_id {
                Some(t) => t == tx_id,
                None => false,
            };
            if is_tx && rec.status == OutputStatus::ShortTermEncumbered {
                rec.status = OutputStatus::Encumbered;
            }
            new_records.push(rec);
            i = i + 1;
        }
        self.records = new_records;
        let mut new_pending: Vec<PendingTxRecord> = Vec::new();
        let mut k: usize = 0;
        while k < self.pending.len()
            invariant
                k <= self.pending.len(),
                self.pending@ == m.pending,
                new_pending@.len() == k,
                forall|j: int|
                    0 <= j < k ==> #[trigger] new_pending@[j] == (if m.pending[j].tx_id == tx_id {
                        PendingTxRecord { short_term: false, ..m.pending[j] }
                    } else {
                        m.pending[j]
                    }),
            decreases self.pending.len() - k,
        {
            let mut p = self.pending[k];
            if p.tx_id == tx_id {
                p.short_term = false;
            }
            new_pending.push(p);
            k = k + 1;
        }
        self.pending = new_pending;
        proof {
            let f = |r: RecModel| step_confirm_enc(r, tx_id);
            assert(final(self)@.recs =~= m.recs.map_values(f));
            assert(final(self)@.pending =~= clear_short_term_flag(m.pending, tx_id));
            assert(final(self)@ =~= (StoreModel {
                recs: confirm_enc_recs(m.recs, tx_id),
                pending: clear_short_term_flag(m.pending, tx_id),
                ..m
            }));
            lemma_sum_all_map(m.recs, f);
            let nr = final(self)@.recs;
            assert forall|a: int| 0 <= a < nr.len() implies rec_wf(#[trigger] nr[a]) by {
                assert(rec_wf(m.recs[a]));
            }
            assert forall|a: int|
                0 <= a < nr.len() implies ((#[trigger] nr[a]).tx_id matches Some(t)
                ==> pending_contains(final(self)@.pending, t)) by {
                if nr[a].tx_id is Some {
                    let t = nr[a].tx_id->Some_0;
                    assert(m.recs[a].tx_id == Some(t));
                    assert(pending_contains(m.pending, t));
                    let w = choose|w: int| 0 <= w < m.pending.len() && m.pending[w].tx_id == t;
                    assert(final(self)@.pending[w].tx_id == t);
                }
            }
        }
        Ok(())
    }

    /// Confirm a pending transaction seen on chain: its spent outputs become
    /// spent, its expected incoming outputs become unspent, and the pending
    /// record is deleted.
    pub fn confirm_pending_transaction_outputs(&mut self, tx_id: u64) -> (r: Result<
        (),
        OutputManagerError,
    >)
        requires
            old(self).wf(),
        ensures
            final(self).wf(),
            match r {
                Ok(()) => {
                    &&& pending_contains(old(self)@.pending, tx_id)
                    &&& final(self)@ == (StoreModel {
                        recs: confirm_tx_recs(old(self)@.recs, tx_id),
                        pending: remove_pending(old(self)@.pending, tx_id),
                        ..old(self)@
                    })
                },
                Err(e) => {
                    &&& e == OutputManagerError::UnknownTransaction
                    &&& !pending_contains(old(self)@.pending, tx_id)
                    &&& final(self)@ == old(self)@
                },
            },
    {
        if !self.contains_pending(tx_id) {
            return Err(OutputManagerError::UnknownTransaction);
        }
        let ghost m = self@;
        let mut new_records: Vec<OutputRecord> = Vec::new();
        let mut i: usize = 0;
        while i < self.records.len()
            invariant
                i <= self.records.len(),
                self@ == m,
                m.recs.len() == self.records.len(),
                new_records@.len() == i,
                forall|j: int|
                    0 <= j < i ==> (#[trigger] new_records@[j])@ == step_confirm_tx(
                        m.recs[j],
                        tx_id,
                    ),
            decreases self.records.len() - i,
        {
            let mut rec = self.records[i];
            let is_tx = match rec.tx_id {
                Some(t) => t == tx_id,
                None => false,
            };
            if is_tx && rec.status == OutputStatus::PendingIncoming {
                rec.status = OutputStatus::Unspent;
                rec.tx_id = None;
            } else if is_tx && (rec.status == OutputStatus::ShortTermEncumbered || rec.status
                == OutputStatus::Encumbered) {
                rec.status = OutputStatus::Spent;
                rec.tx_id = None;
            }
            new_records.push(rec);
            i = i + 1;
        }
        self.records = new_records;
        self.remove_pending_record(tx_id);
        proof {
            let f = |r: RecModel| step_confirm_tx(r, tx_id);
            assert(final(self)@.recs =~= m.recs.map_values(f));
            assert(final(self)@ =~= (StoreModel {
                recs: confirm_tx_recs(m.recs, tx_id),
                pending: remove_pending(m.pending, tx_id),
                ..m
            }));
            lemma_sum_all_map(m.recs, f);
            lemma_remove_pending_contains(m.pending, tx_id);
            let nr = final(self)@.recs;
            assert forall|a: int| 0 <= a < nr.len() implies rec_wf(#[trigger] nr[a]) by {
                assert(rec_wf(m.recs[a]));
            }
            assert forall|a: int|
                0 <= a < nr.len() implies ((#[trigger] nr[a]).tx_id matches Some(t)
                ==> pending_contains(final(self)@.pending, t)) by {
                if nr[a].tx_id is Some {
                    let t = nr[a].tx_id->Some_0;
                    assert(rec_wf(m.recs[a]));
                    assert(m.recs[a].tx_id == Some(t));
                    assert(t != tx_id);
                    assert(pending_contains(m.pending, t));
                }
            }
        }
        Ok(())
    }

    /// Cancel a pending transaction: its spent outputs return to the unspent
    /// pool, its expected incoming outputs are deleted, and the pending record
    /// is removed.
    pub fn cancel_pending_transaction_outputs(&mut self, tx_id: u64) -> (r: Result<
        (),
        OutputManagerError,
    >)
        requires
            old(self).wf(),
        ensures
            final(self).wf(),
            match r {
                Ok(()) => {
                    &&& pending_contains(old(self)@.pending, tx_id)
                    &&& final(self)@ == (StoreModel {
                        recs: cancel_recs(old(self)@.recs, tx_id),
                        pending: remove_pending(old(self)@.pending, tx_id),
                        ..old(self)@
                    })
                },
                Err(e) => {
                    &&& e == OutputManagerError::UnknownTransaction
                    &&& !pending_contains(old(self)@.pending, tx_id)
                    &&& final(self)@ == old(self)@
                },
            },
    {
        if !self.contains_pending(tx_id) {
            return Err(OutputManagerError::UnknownTransaction);
        }
        let ghost m = self@;
        let mut new_records: Vec<OutputRecord> = Vec::new();
        let mut i: usize = 0;
        proof {
            assert(m.recs.take(0) =~= Seq::<RecModel>::empty());
        }
        while i < self.records.len()
            invariant
                i <= self.records.len(),
                self@ == m,
                m.recs.len() == self.records.len(),
                models(new_records@) == cancel_recs(m.recs.take(i as int), tx_id),
            decreases self.records.len() - i,
        {
            proof {
                assert(m.recs.take(i as int + 1).drop_last() =~= m.recs.take(i as int));
                assert(m.recs.take(i as int + 1).last() == m.recs[i as int]);
            }
            let mut rec = self.records[i];
            let is_tx = match rec.tx_id {
                Some(t) => t == tx_id,
                None => false,
            };
            if is_tx && rec.status == OutputStatus::PendingIncoming {
                // dropped
                proof {
                    assert(models(new_records@) + cancel_step(m.recs[i as int], tx_id) =~= models(
                        new_records@,
                    ));
                }
            } else if is_tx && (rec.status == OutputStatus::ShortTermEncumbered || rec.status
                == OutputStatus::Encumbered) {
                rec.status = OutputStatus::Unspent;
                rec.tx_id = None;
                let ghost before = models(new_records@);
                new_records.push(rec);
                proof {
                    assert(models(new_records@) =~= before + cancel_step(m.recs[i as int], tx_id));
                }
            } else {
                let ghost before = models(new_records@);
                new_records.push(rec);
                proof {
                    assert(models(new_records@) =~= before + cancel_step(m.recs[i as int], tx_id));
                }
            }
            i = i + 1;
        }
        self.records = new_records;
        self.remove_pending_record(tx_id);
        proof {
            assert(m.recs.take(m.recs.len() as int) =~= m.recs);
            assert(final(self)@ =~= (StoreModel {
                recs: cancel_recs(m.recs, tx_id),
                pending: remove_pending(m.pending, tx_id),
                ..m
            }));
            lemma_cancel_props(m.recs, tx_id);
            lemma_remove_pending_contains(m.pending, tx_id);
            let nr = final(self)@.recs;
            assert forall|a: int| 0 <= a < nr.len() implies rec_wf(#[trigger] nr[a]) by {
                let j = choose|j: int|
                    0 <= j < m.recs.len() && nr[a] == step_cancel_surviving(m.recs[j], tx_id);
                assert(rec_wf(m.recs[j]));
            }
            assert forall|a: int|
                0 <= a < nr.len() implies ((#[trigger] nr[a]).tx_id matches Some(t)
                ==> pending_contains(final(self)@.pending, t)) by {
                if nr[a].tx_id is Some {
                    let t = nr[a].tx_id->Some_0;
                    let j = choose|j: int|
                        0 <= j < m.recs.len() && nr[a] == step_cancel_surviving(m.recs[j], tx_id);
                    assert(rec_wf(m.recs[j]));
                    assert(m.recs[j].tx_id == Some(t));
                    assert(t != tx_id);
                    assert(pending_contains(m.pending, t));
                }
            }
        }
        Ok(())
    }

    /// Move every unspent output whose commitment is among the targets to
    /// the invalid partition.
    pub fn invalidate_matching(&mut self, targets: &Vec<[u8; 32]>)
        requires
            old(self).wf(),
        ensures
            final(self).wf(),
            final(self)@ == (StoreModel {
                recs: invalidate_many_recs(old(self)@.recs, bytes_views(targets@)),
                ..old(self)@
            }),
    {
        let ghost m = self@;
        let ghost tv = bytes_views(targets@);
        let mut new_records: Vec<OutputRecord> = Vec::new();
        let mut i: usize = 0;
        while i < self.records.len()
            invariant
                self@ == m,
                i <= self.records.len(),
                m.recs.len() == self.records.len(),
                tv == bytes_views(targets@),
                new_records@.len() == i,
                forall|j: int|
                    0 <= j < i ==> (#[trigger] new_records@[j])@ == step_invalidate_many(
                        m.recs[j],
                        tv,
                    ),
            decreases self.records.len() - i,
        {
            let mut rec = self.records[i];
            if rec.status == OutputStatus::Unspent && Self::commitment_in_list(
                targets,
                &rec.commitment,
            ) {
                rec.status = OutputStatus::Invalid;
            }
            new_records.push(rec);
            i = i + 1;
        }
        self.records = new_records;
        proof {
            let f = |r: RecModel| step_invalidate_many(r, tv);
            assert(final(self)@.recs =~= m.recs.map_values(f));
            assert(final(self)@ =~= (StoreModel {
                recs: invalidate_many_recs(m.recs, tv),
                ..m
            }));
            lemma_sum_all_map(m.recs, f);
            let nr = final(self)@.recs;
            assert forall|a: int| 0 <= a < nr.len() implies rec_wf(#[trigger] nr[a]) by {
                assert(rec_wf(m.recs[a]));
            }
            assert forall|a: int|
                0 <= a < nr.len() implies ((#[trigger] nr[a]).tx_id matches Some(t)
                ==> pending_contains(final(self)@.pending, t)) by {
                if nr[a].tx_id is Some {
                    assert(m.recs[a].tx_id == nr[a].tx_id);
                }
            }
        }
    }

    /// Remove the pending record carrying the transaction id, if any.
    fn remove_pending_record(&mut self, tx_id: u64)
        ensures
            final(self)@ == (StoreModel {
                pending: remove_pending(old(self)@.pending, tx_id),
                ..old(self)@
            }),
    {
        let ghost m = self@;
        let mut new_pending: Vec<PendingTxRecord> = Vec::new();
        let mut k: usize = 0;
        proof {
            assert(m.pending.take(0) =~= Seq::<PendingTxRecord>::empty());
        }
        while k < self.pending.len()
            invariant
                k <= self.pending.len(),
                self@ == m,
                m.pending.len() == self.pending.len(),
                new_pending@ == remove_pending(m.pending.take(k as int), tx_id),
            decreases self.pending.len() - k,
        {
            proof {
                assert(m.pending.take(k as int + 1).drop_last() =~= m.pending.take(k as int));
                assert(m.pending.take(k as int + 1).last() == m.pending[k as int]);
            }
            let p = self.pending[k];
            if p.tx_id != tx_id {
                new_pending.push(p);
            }
            k = k + 1;
        }
        self.pending = new_pending;
        proof {
            assert(m.pending.take(m.pending.len() as int) =~= m.pending);
            assert(final(self)@ =~= (StoreModel {
                pending: remove_pending(m.pending, tx_id),
                ..m
            }));
        }
    }

    /// Move one output, identified by its commitment, from the unspent
    /// partition to the invalid partition.
    pub fn invalidate_output(&mut self, commitment: &[u8; 32]) -> (r: Result<
        (),
        OutputManagerError,
    >)
        requires
            old(self).wf(),
        ensures
            final(self).wf(),
            match r {
                Ok(()) => {
                    &&& unspent_known(old(self)@.recs, commitment@)
                    &&& final(self)@ == (StoreModel {
                        recs: invalidate_recs(old(self)@.recs, commitment@),
                        ..old(self)@
                    })
                },
                Err(e) => {
                    &&& e == OutputManagerError::MissingOutput
                    &&& !unspent_known(old(self)@.recs, commitment@)
                    &&& final(self)@ == old(self)@
                },
            },
    {
        let ghost m = self@;
        let idx_opt = self.find_commitment(commitment);
        let idx = match idx_opt {
            None => {
                proof {
                    assert(!unspent_known(m.recs, commitment@));
                }
                return Err(OutputManagerError::MissingOutput);
            },
            Some(i) => i,
        };
        let rec = self.records[idx];
        if rec.status != OutputStatus::Unspent {
            proof {
                assert forall|i: int|
                    0 <= i < m.recs.len() implies !((#[trigger] m.recs[i]).commitment == commitment@
                    && m.recs[i].status == OutputStatus::Unspent) by {
                    if m.recs[i].commitment == commitment@ && i != idx {
                        assert(m.recs[idx as int].commitment == m.recs[i].commitment);
                    }
                }
            }
            return Err(OutputManagerError::MissingOutput);
        }
        let mut updated = rec;
        updated.status = OutputStatus::Invalid;
        self.records[idx] = updated;
        proof {
            let f = |r: RecModel| step_invalidate(r, commitment@);
            assert forall|j: int| 0 <= j < m.recs.len() implies final(self)@.recs[j] == f(
                m.recs[j],
            ) by {
                if j != idx {
                    assert(m.recs[idx as int].commitment == commitment@);
                    if m.recs[j].commitment == commitment@ {
                        assert(false);
                    }
                }
            }
            assert(final(self)@.recs =~= m.recs.map_values(f));
            assert(final(self)@ =~= (StoreModel {
                recs: invalidate_recs(m.recs, commitment@),
                ..m
            }));
            lemma_sum_all_map(m.recs, f);
            let nr = final(self)@.recs;
            assert forall|a: int| 0 <= a < nr.len() implies rec_wf(#[trigger] nr[a]) by {
                assert(rec_wf(m.recs[a]));
            }
            assert forall|a: int|
                0 <= a < nr.len() implies ((#[trigger] nr[a]).tx_id matches Some(t)
                ==> pending_contains(final(self)@.pending, t)) by {
                if nr[a].tx_id is Some {
                    assert(m.recs[a].tx_id == nr[a].tx_id);
                }
            }
        }
        Ok(())
    }

    /// Cancel each transaction in the list, first to last. Every id must name
    /// a pending record and the ids must be distinct.
    fn cancel_list(&mut self, txs: &Vec<u64>)
        requires
            old(self).wf(),
            forall|i: int|
                0 <= i < txs@.len() ==> pending_contains(old(self)@.pending, #[trigger] txs@[i]),
            forall|i: int, j: int| 0 <= i < j < txs@.len() ==> txs@[i] != txs@[j],
        ensures
            final(self).wf(),
            final(self)@ == (StoreModel {
                recs: cancel_all_recs(old(self)@.recs, txs@),
                pending: remove_many_pending(old(self)@.pending, txs@),
                ..old(self)@
            }),
    {
        let ghost m = self@;
        let mut i: usize = 0;
        proof {
            assert(txs@.take(0) =~= Seq::<u64>::empty());
            assert(self@ =~= (StoreModel {
                recs: cancel_all_recs(m.recs, txs@.take(0)),
                pending: remove_many_pending(m.pending, txs@.take(0)),
                ..m
            }));
        }
        while i < txs.len()
            invariant
                self.wf(),
                i <= txs.len(),
                self@ == (StoreModel {
                    recs: cancel_all_recs(m.recs, txs@.take(i as int)),
                    pending: remove_many_pending(m.pending, txs@.take(i as int)),
                    ..m
                }),
                forall|j: int, k: int| 0 <= j < k < txs@.len() ==> txs@[j] != txs@[k],
                forall|j: int|
                    i <= j < txs@.len() ==> pending_contains(self@.pending, #[trigger] txs@[j]),
            decreases txs.len() - i,
        {
            proof {
                assert(txs@.take(i as int + 1).drop_last() =~= txs@.take(i as int));
                assert(txs@.take(i as int + 1).last() == txs@[i as int]);
            }
            let ghost pend_before = self@.pending;
            let r = self.cancel_pending_transaction_outputs(txs[i]);
            match r {
                Ok(()) => {},
                Err(_) => {
                    proof {
                        assert(false);
                    }
                },
            }
            proof {
                lemma_remove_pending_contains(pend_before, txs@[i as int]);
                assert(self@ =~= (StoreModel {
                    recs: cancel_all_recs(m.recs, txs@.take(i as int + 1)),
                    pending: remove_many_pending(m.pending, txs@.take(i as int + 1)),
                    ..m
                }));
            }
            i = i + 1;
        }
        proof {
            assert(txs@.take(txs@.len() as int) =~= txs@);
        }
    }

    /// Cancel every pending transaction older than the given period, judged
    /// against the supplied current time (both in milliseconds).
    pub fn timeout_pending_transaction_outputs(&mut self, period: u64, now: u64) -> (r: Result<
        (),
        OutputManagerError,
    >)
        requires
            old(self).wf(),
        ensures
            final(self).wf(),
            r is Ok,
            final(self)@ == (StoreModel {
                recs: cancel_all_recs(
                    old(self)@.recs,
                    select_txs(old(self)@.pending, |q: PendingTxRecord| now - q.timestamp > period),
                ),
                pending: remove_many_pending(
                    old(self)@.pending,
                    select_txs(old(self)@.pending, |q: PendingTxRecord| now - q.timestamp > period),
                ),
                ..old(self)@
            }),
    {
        let ghost pred = |q: PendingTxRecord| now - q.timestamp > period;
        let mut expired: Vec<u64> = Vec::new();
        let mut k: usize = 0;
        proof {
            assert(self@.pending.take(0) =~= Seq::<PendingTxRecord>::empty());
        }
        while k < self.pending.len()
            invariant
                old(self).wf(),
                self@ == old(self)@,
                k <= self.pending.len(),
                expired@ == select_txs(self@.pending.take(k as int), pred),
                pred == (|q: PendingTxRecord| now - q.timestamp > period),
            decreases self.pending.len() - k,
        {
            proof {
                assert(self@.pending.take(k as int + 1).drop_last() =~= self@.pending.take(
                    k as int,
                ));
                assert(self@.pending.take(k as int + 1).last() == self@.pending[k as int]);
            }
            let p = self.pending[k];
            if p.timestamp <= now && now - p.timestamp > period {
                expired.push(p.tx_id);
                assert(pred(self@.pending[k as int]));
            } else {
                assert(!pred(self@.pending[k as int]));
            }
            k = k + 1;
        }
        proof {
            assert(self@.pending.take(self@.pending.len() as int) =~= self@.pending);
            lemma_select_txs_props(self@.pending, pred);
        }
        self.cancel_list(&expired);
        Ok(())
    }

    /// Cancel every pending transaction still in short-term state. Called at
    /// startup to collapse negotiations that never completed.
    pub fn clear_short_term_encumberances(&mut self) -> (r: Result<(), OutputManagerError>)
        requires
            old(self).wf(),
        ensures
            final(self).wf(),
            r is Ok,
            final(self)@ == (StoreModel {
                recs: cancel_all_recs(
                    old(self)@.recs,
                    select_txs(old(self)@.pending, |q: PendingTxRecord| q.short_term),
                ),
                pending: remove_many_pending(
                    old(self)@.pending,
                    select_txs(old(self)@.pending, |q: PendingTxRecord| q.short_term),
                ),
                ..old(self)@
            }),
    {
        let ghost pred = |q: PendingTxRecord| q.short_term;
        let mut chosen: Vec<u64> = Vec::new();
        let mut k: usize = 0;
        proof {
            assert(self@.pending.take(0) =~= Seq::<PendingTxRecord>::empty());
        }
        while k < self.pending.len()
            invariant
                old(self).wf(),
                self@ == old(self)@,
                k <= self.pending.len(),
                chosen@ == select_txs(self@.pending.take(k as int), pred),
                pred == (|q: PendingTxRecord| q.short_term),
            decreases self.pending.len() - k,
        {
            proof {
                assert(self@.pending.take(k as int + 1).drop_last() =~= self@.pending.take(
                    k as int,
                ));
                assert(self@.pending.take(k as int + 1).last() == self@.pending[k as int]);
            }
            let p = self.pending[k];
            if p.short_term {
                chosen.push(p.tx_id);
                assert(pred(self@.pending[k as int]));
            } else {
                assert(!pred(self@.pending[k as int]));
            }
            k = k + 1;
        }
        proof {
            assert(self@.pending.take(self@.pending.len() as int) =~= self@.pending);
            lemma_select_txs_props(self@.pending, pred);
        }
        self.cancel_list(&chosen);
        Ok(())
    }

    /// The wallet's balance, derived from the partitions.
    pub fn get_balance(&self) -> (r: crate::types::Balance)
        requires
            self.wf(),
        ensures
            r.available_balance == sum_status(self@.recs, OutputStatus::Unspent),
            r.pending_incoming_balance == sum_status(self@.recs, OutputStatus::PendingIncoming),
            r.pending_outgoing_balance == sum_status(self@.recs, OutputStatus::ShortTermEncumbered)
                + sum_status(self@.recs, OutputStatus::Encumbered),
    {
        let ghost m = self@.recs;
        let mut av: u64 = 0;
        let mut pi: u64 = 0;
        let mut po: u64 = 0;
        let mut i: usize = 0;
        proof {
            assert(m.take(0) =~= Seq::<RecModel>::empty());
        }
        while i < self.records.len()
            invariant
                self.wf(),
                i <= self.records.len(),
                m == self@.recs,
                m.len() == self.records.len(),
                av == sum_status(m.take(i as int), OutputStatus::Unspent),
                pi == sum_status(m.take(i as int), OutputStatus::PendingIncoming),
                po == sum_status(m.take(i as int), OutputStatus::ShortTermEncumbered) + sum_status(
                    m.take(i as int),
                    OutputStatus::Encumbered,
                ),
            decreases self.records.len() - i,
        {
            proof {
                lemma_sum_take_succ(m, i as int);
                lemma_balance_identity(m.take(i as int + 1));
                lemma_sums_nonneg(m.take(i as int + 1));
                lemma_active_le_all(m.take(i as int + 1));
                lemma_sum_all_prefix(m, i as int + 1);
                lemma_balance_identity(m.take(i as int));
                lemma_sums_nonneg(m.take(i as int));
            }
            let rec = self.records[i];
            if rec.status == OutputStatus::Unspent {
                av = av + rec.output.value;
            } else if rec.status == OutputStatus::PendingIncoming {
                pi = pi + rec.output.value;
            } else if rec.status == OutputStatus::ShortTermEncumbered || rec.status
                == OutputStatus::Encumbered {
                po = po + rec.output.value;
            }
            i = i + 1;
        }
        proof {
            assert(m.take(m.len() as int) =~= m);
        }
        crate::types::Balance {
            available_balance: av,
            pending_incoming_balance: pi,
            pending_outgoing_balance: po,
        }
    }

    /// The records of one partition, in store order.
    pub fn fetch_records_with_status(&self, status: OutputStatus) -> (r: Vec<OutputRecord>)
        ensures
            models(r@) == filter_status(self@.recs, status),
    {
        let ghost m = self@.recs;
        let mut out: Vec<OutputRecord> = Vec::new();
        let mut i: usize = 0;
        proof {
            assert(m.take(0) =~= Seq::<RecModel>::empty());
            assert(models(out@) =~= filter_status(m.take(0), status));
        }
        while i < self.records.len()
            invariant
                i <= self.records.len(),
                m == self@.recs,
                m.len() == self.records.len(),
                models(out@) == filter_status(m.take(i as int), status),
            decreases self.records.len() - i,
        {
            proof {
                assert(m.take(i as int + 1).drop_last() =~= m.take(i as int));
                assert(m.take(i as int + 1).last() == m[i as int]);
            }
            let rec = self.records[i];
            if rec.status == status {
                let ghost before = models(out@);
                out.push(rec);
                proof {
                    assert(models(out@) =~= before.push(rec@));
                    assert(before.push(rec@) =~= filter_status(m.take(i as int + 1), status));
                }
            } else {
                proof {
                    assert(models(out@) =~= filter_status(m.take(i as int + 1), status));
                }
            }
            i = i + 1;
        }
        proof {
            assert(m.take(m.len() as int) =~= m);
        }
        out
    }

    /// The records tied to a transaction that are encumbered to be spent.
    pub fn fetch_tx_outbound_records(&self, tx_id: u64) -> (r: Vec<OutputRecord>)
        ensures
            models(r@) == filter_tx_outbound(self@.recs, tx_id),
    {
        let ghost m = self@.recs;
        let mut out: Vec<OutputRecord> = Vec::new();
        let mut i: usize = 0;
        proof {
            assert(m.take(0) =~= Seq::<RecModel>::empty());
            assert(models(out@) =~= filter_tx_outbound(m.take(0), tx_id));
        }
        while i < self.records.len()
            invariant
                i <= self.records.len(),
                m == self@.recs,
                m.len() == self.records.len(),
                models(out@) == filter_tx_outbound(m.take(i as int), tx_id),
            decreases self.records.len() - i,
        {
            proof {
                assert(m.take(i as int + 1).drop_last() =~= m.take(i as int));
                assert(m.take(i as int + 1).last() == m[i as int]);
            }
            let rec = self.records[i];
            let is_tx = match rec.tx_id {
                Some(t) => t == tx_id,
                None => false,
            };
            if is_tx && (rec.status == OutputStatus::ShortTermEncumbered || rec.status
                == OutputStatus::Encumbered) {
                let ghost before = models(out@);
                out.push(rec);
                proof {
                    assert(models(out@) =~= before.push(rec@));
                    assert(before.push(rec@) =~= filter_tx_outbound(m.take(i as int + 1), tx_id));
                }
            } else {
                proof {
                    assert(models(out@) =~= filter_tx_outbound(m.take(i as int + 1), tx_id));
                }
            }
            i = i + 1;
        }
        proof {
            assert(m.take(m.len() as int) =~= m);
        }
        out
    }

    /// The records tied to a transaction that are expected to be received.
    pub fn fetch_tx_incoming_records(&self, tx_id: u64) -> (r: Vec<OutputRecord>)
        ensures
            models(r@) == filter_tx_incoming(self@.recs, tx_id),
    {
        let ghost m = self@.recs;
        let mut out: Vec<OutputRecord> = Vec::new();
        let mut i: usize = 0;
        proof {
            assert(m.take(0) =~= Seq::<RecModel>::empty());
            assert(models(out@) =~= filter_tx_incoming(m.take(0), tx_id));
        }
        while i < self.records.len()
            invariant
                i <= self.records.len(),
                m == self@.recs,
                m.len() == self.records.len(),
                models(out@) == filter_tx_incoming(m.take(i as int), tx_id),
            decreases self.records.len() - i,
        {
            proof {
                assert(m.take(i as int + 1).drop_last() =~= m.take(i as int));
                assert(m.take(i as int + 1).last() == m[i as int]);
            }
            let rec = self.records[i];
            let is_tx = match rec.tx_id {
                Some(t) => t == tx_id,
                None => false,
            };
            if is_tx && rec.status == OutputStatus::PendingIncoming {
                let ghost before = models(out@);
                out.push(rec);
                proof {
                    assert(models(out@) =~= before.push(rec@));
                    assert(before.push(rec@) =~= filter_tx_incoming(m.take(i as int + 1), tx_id));
                }
            } else {
                proof {
                    assert(models(out@) =~= filter_tx_incoming(m.take(i as int + 1), tx_id));
                }
            }
            i = i + 1;
        }
        proof {
            assert(m.take(m.len() as int) =~= m);
        }
        out
    }

    /// The pending record for a transaction id, if any.
    pub fn pending_record(&self, tx_id: u64) -> (r: Option<PendingTxRecord>)
        ensures
            match r {
                Some(p) => p.tx_id == tx_id && self@.pending.contains(p),
                None => !pending_contains(self@.pending, tx_id),
            },
    {
        let mut i: usize = 0;
        while i < self.pending.len()
            invariant
                i <= self.pending.len(),
                forall|j: int| 0 <= j < i ==> (#[trigger] self@.pending[j]).tx_id != tx_id,
            decreases self.pending.len() - i,
        {
            if self.pending[i].tx_id == tx_id {
                let p = self.pending[i];
                assert(self@.pending[i as int] == p);
                return Some(p);
            }
            i = i + 1;
        }
        None
    }

    /// All pending transaction records, in store order.
    pub fn pending_list(&self) -> (r: Vec<PendingTxRecord>)
        ensures
            r@ == self@.pending,
    {
        let mut out: Vec<PendingTxRecord> = Vec::new();
        let mut i: usize = 0;
        while i < self.pending.len()
            invariant
                i <= self.pending.len(),
                out@ =~= self@.pending.take(i as int),
            decreases self.pending.len() - i,
        {
            out.push(self.pending[i]);
            i = i + 1;
        }
        proof {
            assert(self@.pending.take(self@.pending.len() as int) =~= self@.pending);
        }
        out
    }
}

/// The records of one partition, in order.
pub open spec fn filter_status(recs: Seq<RecModel>, status: OutputStatus) -> Seq<RecModel>
    decreases recs.len(),
{
    if recs.len() == 0 {
        Seq::empty()
    } else if recs.last().status == status {
        filter_status(recs.drop_last(), status).push(recs.last())
    } else {
        filter_status(recs.drop_last(), status)
    }
}

/// The records encumbered to be spent by a transaction, in order.
pub open spec fn filter_tx_outbound(recs: Seq<RecModel>, tx_id: u64) -> Seq<RecModel>
    decreases recs.len(),
{
    if recs.len() == 0 {
        Seq::empty()
    } else if recs.last().tx_id == Some(tx_id) && outbound_status(recs.last().status) {
        filter_tx_outbound(recs.drop_last(), tx_id).push(recs.last())
    } else {
        filter_tx_outbound(recs.drop_last(), tx_id)
    }
}

/// The records a transaction is expected to deliver to the wallet, in order.
pub open spec fn filter_tx_incoming(recs: Seq<RecModel>, tx_id: u64) -> Seq<RecModel>
    decreases recs.len(),
{
    if recs.len() == 0 {
        Seq::empty()
    } else if recs.last().tx_id == Some(tx_id) && recs.last().status
        == OutputStatus::PendingIncoming {
        filter_tx_incoming(recs.drop_last(), tx_id).push(recs.last())
    } else {
        filter_tx_incoming(recs.drop_last(), tx_id)
    }
}

/// Whether some record holds the commitment in the unspent partition.
pub open spec fn unspent_known(recs: Seq<RecModel>, c: Seq<u8>) -> bool {
    exists|i: int|
        0 <= i < recs.len() && (#[trigger] recs[i]).commitment == c && recs[i].status
            == OutputStatus::Unspent
}

} // verus!
