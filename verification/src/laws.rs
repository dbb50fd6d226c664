//! Laws of the output lifecycle, stated over the store model and proved once
//! and for all: the partitions cover every output exactly once, encumbering
//! then cancelling restores the store, promoting an encumberance twice is
//! harmless, and a confirmed transaction is consumed.

use vstd::prelude::*;

use crate::selection::fee_for;
use crate::service::UTXOSelectionStrategy;
use crate::service::selection_valid;
use crate::service::stop_no_change;
use crate::service::stop_with_change;
use crate::store::OutputStatus;
use crate::store::PendingTxRecord;
use crate::store::RecModel;
use crate::store::cancel_recs;
use crate::store::cancel_step;
use crate::store::clear_short_term_flag;
use crate::store::confirm_enc_recs;
use crate::store::filter_status;
use crate::store::incoming_recs;
use crate::store::mark_encumbered_recs;
use crate::store::pending_contains;
use crate::store::rec_wf;
use crate::store::remove_pending;
use crate::store::step_confirm_enc;
use crate::store::step_mark_encumbered;
use crate::store::sum_all;
use crate::store::StoreModel;
use crate::store::store_wf;
use crate::types::UnblindedOutput;

verus! {

/// Every output lies in exactly one partition: the six lifecycle partitions
/// are pairwise disjoint and together cover the whole output universe, so
/// their sizes sum to the number of records.
pub proof fn lemma_partitions_cover(recs: Seq<RecModel>)
    ensures
        filter_status(recs, OutputStatus::Unspent).len() + filter_status(
            recs,
            OutputStatus::ShortTermEncumbered,
        ).len() + filter_status(recs, OutputStatus::Encumbered).len() + filter_status(
            recs,
            OutputStatus::Spent,
        ).len() + filter_status(recs, OutputStatus::PendingIncoming).len() + filter_status(
            recs,
            OutputStatus::Invalid,
        ).len() == recs.len(),
    decreases recs.len(),
{
    if recs.len() > 0 {
        lemma_partitions_cover(recs.drop_last());
    }
}

/// Removing an absent pending transaction changes nothing.
pub proof fn lemma_remove_pending_absent(pending: Seq<PendingTxRecord>, tx_id: u64)
    requires
        !pending_contains(pending, tx_id),
    ensures
        remove_pending(pending, tx_id) =~= pending,
    decreases pending.len(),
{
    if pending.len() > 0 {
        assert forall|j: int|
            0 <= j < pending.drop_last().len() implies (#[trigger] pending.drop_last()[j]).tx_id
            != tx_id by {
            assert(pending[j].tx_id != tx_id);
        }
        assert(pending.last().tx_id != tx_id) by {
            if pending.last().tx_id == tx_id {
                assert(pending[pending.len() - 1].tx_id == tx_id);
            }
        }
        lemma_remove_pending_absent(pending.drop_last(), tx_id);
    }
}

/// Cancellation distributes over concatenation.
pub proof fn lemma_cancel_concat(a: Seq<RecModel>, b: Seq<RecModel>, tx_id: u64)
    ensures
        cancel_recs(a + b, tx_id) =~= cancel_recs(a, tx_id) + cancel_recs(b, tx_id),
    decreases b.len(),
{
    if b.len() == 0 {
        assert(a + b =~= a);
        assert(cancel_recs(b, tx_id) =~= Seq::<RecModel>::empty());
        assert(cancel_recs(a, tx_id) + cancel_recs(b, tx_id) =~= cancel_recs(a, tx_id));
    } else {
        assert((a + b).drop_last() =~= a + b.drop_last());
        assert((a + b).last() == b.last());
        lemma_cancel_concat(a, b.drop_last(), tx_id);
        assert(cancel_recs(a + b, tx_id) =~= cancel_recs(a, tx_id) + (cancel_recs(
            b.drop_last(),
            tx_id,
        ) + cancel_step(b.last(), tx_id)));
    }
}

/// Cancelling deletes all of a transaction's expected incoming records.
pub proof fn lemma_cancel_incoming(
    outs: Seq<UnblindedOutput>,
    cs: Seq<[u8; 32]>,
    tx_id: u64,
)
    requires
        outs.len() == cs.len(),
    ensures
        cancel_recs(incoming_recs(outs, cs, tx_id), tx_id) =~= Seq::<RecModel>::empty(),
    decreases outs.len(),
{
    if outs.len() > 0 {
        assert(incoming_recs(outs, cs, tx_id).drop_last() =~= incoming_recs(
            outs.drop_last(),
            cs.drop_last(),
            tx_id,
        ));
        lemma_cancel_incoming(outs.drop_last(), cs.drop_last(), tx_id);
        assert(cancel_step(incoming_recs(outs, cs, tx_id).last(), tx_id) =~= Seq::<
            RecModel,
        >::empty());
    }
}

/// Cancelling returns every freshly marked record to its old self: where no
/// record carried the transaction before, cancellation inverts the marking.
pub proof fn lemma_cancel_marked(recs: Seq<RecModel>, spent: Seq<Seq<u8>>, tx_id: u64)
    requires
        forall|i: int| 0 <= i < recs.len() ==> rec_wf(#[trigger] recs[i]),
        forall|i: int| 0 <= i < recs.len() ==> (#[trigger] recs[i]).tx_id != Some(tx_id),
    ensures
        cancel_recs(mark_encumbered_recs(recs, spent, tx_id), tx_id) =~= recs,
    decreases recs.len(),
{
    if recs.len() > 0 {
        let prev = recs.drop_last();
        let marked = mark_encumbered_recs(recs, spent, tx_id);
        assert(marked.drop_last() =~= mark_encumbered_recs(prev, spent, tx_id));
        assert(marked.last() == step_mark_encumbered(recs.last(), spent, tx_id));
        assert forall|i: int| 0 <= i < prev.len() implies rec_wf(#[trigger] prev[i])
            && prev[i].tx_id != Some(tx_id) by {
            assert(recs[i] == prev[i]);
        }
        lemma_cancel_marked(prev, spent, tx_id);
        let last = recs.last();
        assert(rec_wf(recs[recs.len() - 1]) && recs[recs.len() - 1].tx_id != Some(tx_id));
        if last.status == OutputStatus::Unspent && spent.contains(last.commitment) {
            assert(cancel_step(marked.last(), tx_id) =~= seq![last]);
        } else {
            assert(cancel_step(marked.last(), tx_id) =~= seq![last]);
        }
        assert(cancel_recs(marked, tx_id) =~= prev + seq![last]);
        assert(prev + seq![last] =~= recs);
    }
}

/// Encumbering a transaction and then cancelling it restores the exact
/// pre-encumberance store: the records and the pending transactions are as
/// they were.
pub proof fn lemma_encumber_cancel_roundtrip(
    m: StoreModel,
    tx_id: u64,
    spent: Seq<Seq<u8>>,
    change: Seq<UnblindedOutput>,
    change_cs: Seq<[u8; 32]>,
    timestamp: u64,
)
    requires
        store_wf(m),
        !pending_contains(m.pending, tx_id),
        change.len() == change_cs.len(),
    ensures
        cancel_recs(
            mark_encumbered_recs(m.recs, spent, tx_id) + incoming_recs(change, change_cs, tx_id),
            tx_id,
        ) =~= m.recs,
        remove_pending(
            m.pending.push(PendingTxRecord { tx_id, timestamp, short_term: true }),
            tx_id,
        ) =~= m.pending,
{
    let marked = mark_encumbered_recs(m.recs, spent, tx_id);
    let inc = incoming_recs(change, change_cs, tx_id);
    lemma_cancel_concat(marked, inc, tx_id);
    lemma_cancel_incoming(change, change_cs, tx_id);
    assert forall|i: int| 0 <= i < m.recs.len() implies (#[trigger] m.recs[i]).tx_id != Some(
        tx_id,
    ) by {
        if m.recs[i].tx_id == Some(tx_id) {
            assert(pending_contains(m.pending, tx_id));
        }
    }
    lemma_cancel_marked(m.recs, spent, tx_id);
    assert(cancel_recs(marked + inc, tx_id) =~= m.recs + Seq::<RecModel>::empty());
    assert(m.recs + Seq::<RecModel>::empty() =~= m.recs);
    let pushed = m.pending.push(PendingTxRecord { tx_id, timestamp, short_term: true });
    assert(pushed.drop_last() =~= m.pending);
    lemma_remove_pending_absent(m.pending, tx_id);
}

/// Promoting an encumberance is idempotent: a second promotion of the same
/// transaction changes neither the records nor the pending list.
pub proof fn lemma_confirm_encumberance_idempotent(
    recs: Seq<RecModel>,
    pending: Seq<PendingTxRecord>,
    tx_id: u64,
)
    ensures
        confirm_enc_recs(confirm_enc_recs(recs, tx_id), tx_id) =~= confirm_enc_recs(recs, tx_id),
        clear_short_term_flag(clear_short_term_flag(pending, tx_id), tx_id)
            =~= clear_short_term_flag(pending, tx_id),
{
    let once = confirm_enc_recs(recs, tx_id);
    assert forall|i: int| 0 <= i < once.len() implies step_confirm_enc(#[trigger] once[i], tx_id)
        == once[i] by {
        assert(once[i] == step_confirm_enc(recs[i], tx_id));
    }
    assert(confirm_enc_recs(once, tx_id) =~= once);
    let ponce = clear_short_term_flag(pending, tx_id);
    assert(clear_short_term_flag(ponce, tx_id) =~= ponce);
}

/// A confirmed transaction is consumed: its pending record is gone, so a
/// second confirmation of the same transaction finds nothing.
pub proof fn lemma_confirmed_transaction_is_consumed(
    pending: Seq<PendingTxRecord>,
    tx_id: u64,
)
    ensures
        !pending_contains(remove_pending(pending, tx_id), tx_id),
{
    crate::store::lemma_remove_pending_contains(pending, tx_id);
}

/// When the first covering prefix of the ascending unspent pool hits the
/// amount plus the no-change fee exactly, selection cannot fail and reports
/// that no change output is required.
pub proof fn lemma_exact_prefix_selects_no_change(
    recs: Seq<RecModel>,
    amount: u64,
    fee_per_gram: u64,
    output_count: int,
    strategy: UTXOSelectionStrategy,
)
    requires
        crate::service::selection_first_stop(recs, amount, fee_per_gram, output_count, strategy)
            >= 1,
        crate::service::keys_stop_no_change(
            crate::service::sorted_unspent_keys(recs, strategy),
            crate::service::selection_first_stop(
                recs,
                amount,
                fee_per_gram,
                output_count,
                strategy,
            ),
            amount,
            fee_per_gram,
            output_count,
        ),
    ensures
        !crate::service::cannot_cover(recs, amount, fee_per_gram, output_count, strategy),
        !crate::service::selection_needs_change(recs, amount, fee_per_gram, output_count, strategy),
{
    let ks = crate::service::sorted_unspent_keys(recs, strategy);
    crate::service::lemma_first_stop_sound(ks, 1, amount, fee_per_gram, output_count);
}

/// When the available funds cover the amount plus the no-change fee exactly,
/// the selection reports that no change output is required.
pub proof fn lemma_select_exact_no_change(
    recs: Seq<RecModel>,
    sel: Seq<RecModel>,
    require_change: bool,
    amount: u64,
    fee_per_gram: u64,
    output_count: int,
    strategy: UTXOSelectionStrategy,
)
    requires
        selection_valid(recs, sel, require_change, amount, fee_per_gram, output_count, strategy),
        sel.len() > 0,
        sum_all(sel) == amount + fee_for(fee_per_gram, 1, sel.len() as int, output_count),
    ensures
        require_change == false,
{
    assert(sel.take(sel.len() as int) =~= sel);
    assert(stop_no_change(sel, sel.len() as int, amount, fee_per_gram, output_count));
}

/// Selecting for a zero amount: the selection is empty only when there is
/// nothing to spend, and a non-empty selection without change covers the
/// no-change fee exactly.
pub proof fn lemma_select_zero_amount(
    recs: Seq<RecModel>,
    sel: Seq<RecModel>,
    require_change: bool,
    fee_per_gram: u64,
    output_count: int,
    strategy: UTXOSelectionStrategy,
)
    requires
        selection_valid(recs, sel, require_change, 0, fee_per_gram, output_count, strategy),
    ensures
        sel.len() == 0 ==> filter_status(recs, OutputStatus::Unspent).len() == 0
            && require_change == false,
        sel.len() > 0 && !require_change ==> sum_all(sel) == fee_for(
            fee_per_gram,
            1,
            sel.len() as int,
            output_count,
        ),
{
    if sel.len() > 0 && !require_change {
        assert(sel.take(sel.len() as int) =~= sel);
        if !stop_no_change(sel, sel.len() as int, 0, fee_per_gram, output_count) {
            assert(stop_with_change(sel, sel.len() as int, 0, fee_per_gram, output_count));
            assert(require_change);
        }
    }
}

} // verus!
