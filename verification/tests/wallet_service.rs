use output_manager::error::OutputManagerError;
use output_manager::key_manager::KeyManager;
use output_manager::selection::Fee;
use output_manager::service::BaseNodeServiceResponse;
use output_manager::service::OutputManagerEvent;
use output_manager::service::OutputManagerRequest;
use output_manager::service::OutputManagerResponse;
use output_manager::service::OutputManagerService;
use output_manager::service::OutputManagerServiceConfig;
use output_manager::service::RemoteOutput;
use output_manager::service::UTXOSelectionStrategy;
use output_manager::store::OutputStore;
use output_manager::store::KeyManagerState;
use output_manager::types::OutputFeatures;
use output_manager::types::UnblindedOutput;
use output_manager::wrappers::pedersen_commit;
use output_manager::wrappers::random_u64;
use output_manager::wrappers::scalar_from_wide_bytes;

fn config() -> OutputManagerServiceConfig {
    OutputManagerServiceConfig { base_node_query_timeout_ms: 30_000 }
}

fn key(tag: u8) -> [u8; 32] {
    let mut k = [0u8; 32];
    k[0] = tag;
    k[1] = 0x5e;
    k
}

fn service() -> OutputManagerService {
    OutputManagerService::new(config(), OutputStore::new()).unwrap()
}

fn unspent(value: u64, tag: u8) -> UnblindedOutput {
    UnblindedOutput::new(value, key(tag), OutputFeatures::default_features())
}

#[test]
fn fee_formula_exact() {
    // weight = 1 kernel * 10 + 1 input * 5 + 1 output * 13 = 28
    assert_eq!(Fee::calculate(10, 1, 1, 1), 280);
    // with a change output: weight = 10 + 5 + 26 = 41
    assert_eq!(Fee::calculate(10, 1, 1, 2), 410);
    assert_eq!(Fee::calculate(0, 1, 5, 7), 0);
}

#[test]
fn fee_saturates() {
    assert_eq!(Fee::calculate(u64::MAX, 1, 1_000, 1_000), u64::MAX);
    assert_eq!(Fee::calculate_checked(u64::MAX, 1, 1_000, 1_000), None);
}

#[test]
fn add_output_and_balance() {
    let mut s = service();
    s.add_output(unspent(1_000, 1)).unwrap();
    s.add_output(unspent(2_500, 2)).unwrap();
    let b = s.get_balance().unwrap();
    assert_eq!(b.available_balance, 3_500);
    assert_eq!(b.pending_incoming_balance, 0);
    assert_eq!(b.pending_outgoing_balance, 0);
}

#[test]
fn add_duplicate_output_rejected() {
    let mut s = service();
    s.add_output(unspent(1_000, 1)).unwrap();
    let r = s.add_output(unspent(1_000, 1));
    assert_eq!(r, Err(OutputManagerError::DuplicateOutput));
}

#[test]
fn add_output_with_invalid_key_rejected() {
    let mut s = service();
    let bad = UnblindedOutput::new(5, [0xffu8; 32], OutputFeatures::default_features());
    assert_eq!(s.add_output(bad), Err(OutputManagerError::ConversionError));
}

#[test]
fn spend_from_single_utxo_with_change() {
    let mut s = service();
    s.add_output(unspent(1_000, 1)).unwrap();
    let stp = s
        .prepare_transaction_to_send(400, 10, None, "x".to_string(), 1_000)
        .unwrap();
    assert_eq!(stp.inputs.len(), 1);
    assert_eq!(stp.amount, 400);
    assert_eq!(stp.fee, 410);
    let change = stp.change_output.expect("change output expected");
    assert_eq!(change.value, 1_000 - 400 - 410);
    assert_eq!(stp.amount_to_self, change.value);
    let b = s.get_balance().unwrap();
    assert_eq!(b.available_balance, 0);
    assert_eq!(b.pending_outgoing_balance, 1_000);
    assert_eq!(b.pending_incoming_balance, change.value);
    let pending = s.fetch_pending_transaction_outputs().unwrap();
    assert_eq!(pending.len(), 1);
    assert_eq!(pending[0].outputs_to_be_spent.len(), 1);
    assert_eq!(pending[0].outputs_to_be_received.len(), 1);
}

#[test]
fn insufficient_funds() {
    let mut s = service();
    s.add_output(unspent(100, 1)).unwrap();
    let r = s.prepare_transaction_to_send(500, 10, None, "x".to_string(), 1_000);
    assert!(matches!(r, Err(OutputManagerError::NotEnoughFunds)));
    let b = s.get_balance().unwrap();
    assert_eq!(b.available_balance, 100);
    assert_eq!(b.pending_outgoing_balance, 0);
    assert!(s.fetch_pending_transaction_outputs().unwrap().is_empty());
}

#[test]
fn coin_split_three_way() {
    let mut s = service();
    s.add_output(unspent(10_000, 1)).unwrap();
    let (tx_id, tx, fee, utxo_total) = s.create_coin_split(1_000, 3, 5, None, 1_000).unwrap();
    // weight = 10 + 5 + 4 * 13 = 67; fee = 5 * 67
    assert_eq!(fee, 335);
    assert_eq!(utxo_total, 10_000);
    assert_eq!(tx.fee, 335);
    assert_eq!(tx.inputs.len(), 1);
    assert_eq!(tx.outputs.len(), 4);
    let b = s.get_balance().unwrap();
    assert_eq!(b.pending_outgoing_balance, 10_000);
    assert_eq!(b.pending_incoming_balance, 3 * 1_000 + (10_000 - 335 - 3_000));
    // the encumberance was promoted in place: confirming it again is harmless
    s.confirm_encumberance(tx_id).unwrap();
}

#[test]
fn invalidation_on_sync() {
    let mut s = service();
    let o1 = unspent(700, 1);
    let o2 = unspent(900, 2);
    s.add_output(o1).unwrap();
    s.add_output(o2).unwrap();
    let req = s.set_base_node_public_key(key(9)).unwrap().expect("first key set starts a query");
    assert_eq!(req.hashes.len(), 2);
    assert_eq!(req.timeout_ms, 30_000);
    // the base node reports only the first output
    let c1 = pedersen_commit(&o1.spending_key, o1.value).unwrap();
    let response = BaseNodeServiceResponse {
        request_key: req.request_key,
        outputs: Some(vec![RemoteOutput {
            features: OutputFeatures::default_features(),
            commitment: c1.to_vec(),
        }]),
    };
    let events = s.handle_base_node_response(&response).unwrap();
    assert_eq!(events, vec![OutputManagerEvent::ReceiveBaseNodeResponse(req.request_key)]);
    let invalid = s.fetch_invalid_outputs().unwrap();
    assert_eq!(invalid.len(), 1);
    assert_eq!(invalid[0].value, 900);
    let b = s.get_balance().unwrap();
    assert_eq!(b.available_balance, 700);
}

#[test]
fn malformed_response_output_is_skipped() {
    let mut s = service();
    let o1 = unspent(700, 1);
    s.add_output(o1).unwrap();
    let req = s.set_base_node_public_key(key(9)).unwrap().unwrap();
    let c1 = pedersen_commit(&o1.spending_key, o1.value).unwrap();
    let response = BaseNodeServiceResponse {
        request_key: req.request_key,
        outputs: Some(vec![
            RemoteOutput {
                features: OutputFeatures::default_features(),
                commitment: vec![1, 2, 3], // malformed: dropped
            },
            RemoteOutput {
                features: OutputFeatures::default_features(),
                commitment: c1.to_vec(),
            },
        ]),
    };
    s.handle_base_node_response(&response).unwrap();
    // the well-formed output was still processed, so nothing is invalidated
    assert!(s.fetch_invalid_outputs().unwrap().is_empty());
}

#[test]
fn response_with_unknown_key_is_ignored() {
    let mut s = service();
    s.add_output(unspent(700, 1)).unwrap();
    let req = s.set_base_node_public_key(key(9)).unwrap().unwrap();
    let response = BaseNodeServiceResponse {
        request_key: req.request_key.wrapping_add(1),
        outputs: Some(vec![]),
    };
    let events = s.handle_base_node_response(&response).unwrap();
    assert!(events.is_empty());
    assert!(s.fetch_invalid_outputs().unwrap().is_empty());
}

#[test]
fn query_timeout_retry() {
    let mut s = service();
    s.add_output(unspent(700, 1)).unwrap();
    let req = s.set_base_node_public_key(key(9)).unwrap().unwrap();
    let (retry, events) = s.handle_utxo_query_timeout(req.request_key).unwrap();
    let retry = retry.expect("a fresh query is started");
    assert_eq!(events, vec![OutputManagerEvent::BaseNodeSyncRequestTimedOut(req.request_key)]);
    assert_eq!(retry.hashes.len(), 1);
    // the old key was consumed: timing it out again is a no-op
    let (none, no_events) = s.handle_utxo_query_timeout(req.request_key).unwrap();
    assert!(none.is_none());
    assert!(no_events.is_empty());
}

#[test]
fn timeout_with_no_pending_queries_is_noop() {
    let mut s = service();
    let (none, events) = s.handle_utxo_query_timeout(42).unwrap();
    assert!(none.is_none());
    assert!(events.is_empty());
}

#[test]
fn sync_before_key_is_rejected() {
    let mut s = service();
    let r = s.query_unspent_outputs_status();
    assert!(matches!(r, Err(OutputManagerError::NoBaseNodeKeysProvided)));
}

#[test]
fn transaction_confirm_mismatch_preserves_pending() {
    let mut s = service();
    let seed = unspent(1_000, 1);
    s.add_output(seed).unwrap();
    let stp = s
        .prepare_transaction_to_send(400, 10, None, "x".to_string(), 1_000)
        .unwrap();
    // tampered input commitment
    let bogus = output_manager::types::TransactionInput {
        features: OutputFeatures::default_features(),
        commitment: pedersen_commit(&key(7), 1).unwrap(),
    };
    let r = s.confirm_transaction(stp.tx_id, &vec![bogus], &vec![]);
    assert_eq!(r, Err(OutputManagerError::IncompleteTransaction));
    assert_eq!(s.fetch_pending_transaction_outputs().unwrap().len(), 1);
    // cancelling restores the unspent pool
    s.cancel_transaction(stp.tx_id).unwrap();
    let b = s.get_balance().unwrap();
    assert_eq!(b.available_balance, 1_000);
    assert_eq!(b.pending_outgoing_balance, 0);
    assert_eq!(b.pending_incoming_balance, 0);
}

#[test]
fn confirm_transaction_consumes_pending_record() {
    let mut s = service();
    let seed = unspent(1_000, 1);
    s.add_output(seed).unwrap();
    let stp = s
        .prepare_transaction_to_send(400, 10, None, "x".to_string(), 1_000)
        .unwrap();
    let spent_in = output_manager::types::TransactionInput {
        features: OutputFeatures::default_features(),
        commitment: pedersen_commit(&seed.spending_key, seed.value).unwrap(),
    };
    let change = stp.change_output.unwrap();
    let change_out = output_manager::types::TransactionOutput {
        features: OutputFeatures::default_features(),
        commitment: pedersen_commit(&change.spending_key, change.value).unwrap(),
    };
    s.confirm_transaction(stp.tx_id, &vec![spent_in.clone()], &vec![change_out.clone()]).unwrap();
    let b = s.get_balance().unwrap();
    assert_eq!(b.available_balance, change.value);
    assert_eq!(b.pending_outgoing_balance, 0);
    assert_eq!(s.fetch_spent_outputs().unwrap().len(), 1);
    // the record is deleted: a second confirmation finds nothing
    let again = s.confirm_transaction(stp.tx_id, &vec![spent_in], &vec![change_out]);
    assert_eq!(again, Err(OutputManagerError::UnknownTransaction));
}

#[test]
fn recipient_key_is_deterministic_and_promotes() {
    let mut store = OutputStore::new();
    let master = scalar_from_wide_bytes(&[7u8; 64]);
    store.set_key_manager_state(KeyManagerState {
        master_seed: master,
        branch_seed: Vec::new(),
        primary_key_index: 7,
    });
    let mut s = OutputManagerService::new(config(), store).unwrap();
    let k = s.get_recipient_spending_key(55, 1_234, 1_000).unwrap();
    // the issued key is the derivation of (master, branch, 8)
    let km = KeyManager::from(master, Vec::new(), 7);
    assert_eq!(k, km.derive_key(8));
    let b = s.get_balance().unwrap();
    assert_eq!(b.pending_incoming_balance, 1_234);
    // already promoted out of the short-term state: a restart keeps it
    let pending = s.fetch_pending_transaction_outputs().unwrap();
    assert_eq!(pending.len(), 1);
    assert_eq!(pending[0].tx_id, 55);
    // promoting again is idempotent
    s.confirm_encumberance(55).unwrap();
    s.confirm_encumberance(55).unwrap();
    assert_eq!(s.fetch_pending_transaction_outputs().unwrap().len(), 1);
}

#[test]
fn coinbase_key_stays_short_term() {
    let mut s = service();
    let _k = s.get_coinbase_spending_key(77, 5_000, 120, 1_000).unwrap();
    let b = s.get_balance().unwrap();
    assert_eq!(b.pending_incoming_balance, 5_000);
    let pending = s.fetch_pending_transaction_outputs().unwrap();
    assert_eq!(pending.len(), 1);
    assert_eq!(pending[0].outputs_to_be_received[0].features.coinbase, true);
    assert_eq!(pending[0].outputs_to_be_received[0].features.maturity, 120);
}

#[test]
fn restart_clears_short_term_and_keeps_index() {
    let mut store = OutputStore::new();
    let master = scalar_from_wide_bytes(&[9u8; 64]);
    store.set_key_manager_state(KeyManagerState {
        master_seed: master,
        branch_seed: Vec::new(),
        primary_key_index: 3,
    });
    // a short-term encumberance left over from an unfinished negotiation
    let o = unspent(640, 4);
    let c = pedersen_commit(&o.spending_key, o.value).unwrap();
    store.add_unspent_output(o, c).unwrap();
    store
        .encumber_outputs(11, &vec![c], &Vec::new(), &Vec::new(), 500)
        .unwrap();
    let mut s = OutputManagerService::new(config(), store).unwrap();
    // the encumberance was collapsed at startup
    assert!(s.fetch_pending_transaction_outputs().unwrap().is_empty());
    assert_eq!(s.get_balance().unwrap().available_balance, 640);
    // and the issuance counter was preserved: the next key is number 4
    let k = s.get_recipient_spending_key(1, 10, 0).unwrap();
    let km = KeyManager::from(master, Vec::new(), 3);
    assert_eq!(k, km.derive_key(4));
}

#[test]
fn encumber_then_cancel_restores_store() {
    let mut store = OutputStore::new();
    let o = unspent(500, 6);
    let c = pedersen_commit(&o.spending_key, o.value).unwrap();
    store.add_unspent_output(o, c).unwrap();
    let ch = unspent(90, 7);
    let cc = pedersen_commit(&ch.spending_key, ch.value).unwrap();
    store.encumber_outputs(21, &vec![c], &vec![ch], &vec![cc], 500).unwrap();
    let b = store.get_balance();
    assert_eq!(b.available_balance, 0);
    assert_eq!(b.pending_outgoing_balance, 500);
    assert_eq!(b.pending_incoming_balance, 90);
    store.cancel_pending_transaction_outputs(21).unwrap();
    let b = store.get_balance();
    assert_eq!(b.available_balance, 500);
    assert_eq!(b.pending_outgoing_balance, 0);
    assert_eq!(b.pending_incoming_balance, 0);
    assert!(!store.contains_pending(21));
}

#[test]
fn transaction_timeout_cancels_old_pending() {
    let mut s = service();
    s.add_output(unspent(1_000, 1)).unwrap();
    let _stp = s
        .prepare_transaction_to_send(400, 10, None, "x".to_string(), 1_000)
        .unwrap();
    // period 600 ms, judged at t = 2_000: the record from t = 1_000 is young
    s.timeout_pending_transactions(2_000, 2_500).unwrap();
    assert_eq!(s.fetch_pending_transaction_outputs().unwrap().len(), 1);
    // judged much later, it is cancelled
    s.timeout_pending_transactions(2_000, 10_000).unwrap();
    assert!(s.fetch_pending_transaction_outputs().unwrap().is_empty());
    assert_eq!(s.get_balance().unwrap().available_balance, 1_000);
}

#[test]
fn select_exact_no_change() {
    let mut s = service();
    // 400 + fee(1 input, 1 output) = 400 + 280 = 680
    s.add_output(unspent(680, 1)).unwrap();
    let (sel, require_change) = s
        .select_utxos(400, 10, 1, UTXOSelectionStrategy::MaturityThenSmallest)
        .unwrap();
    assert_eq!(sel.len(), 1);
    assert!(!require_change);
}

#[test]
fn select_zero_amount() {
    let s = service();
    // no unspent outputs at all: a zero amount succeeds with nothing selected
    let (sel, require_change) = s
        .select_utxos(0, 10, 1, UTXOSelectionStrategy::Smallest)
        .unwrap();
    assert!(sel.is_empty());
    assert!(!require_change);
    // with funds present, a zero amount immediately selects one output and
    // requires change
    let mut s = service();
    s.add_output(unspent(50, 1)).unwrap();
    let (sel, require_change) = s.select_utxos(0, 0, 1, UTXOSelectionStrategy::Smallest).unwrap();
    assert_eq!(sel.len(), 1);
    assert!(require_change);
}

#[test]
fn selection_prefers_low_maturity_then_small_value() {
    let mut s = service();
    let mut mature = UnblindedOutput::new(50, key(1), OutputFeatures::default_features());
    mature.features.maturity = 500;
    s.add_output(mature).unwrap();
    s.add_output(unspent(2_000, 2)).unwrap();
    let (sel, _) = s
        .select_utxos(100, 0, 1, UTXOSelectionStrategy::MaturityThenSmallest)
        .unwrap();
    // the zero-maturity output is taken first even though it is larger
    assert_eq!(sel[0].output.value, 2_000);
}

#[test]
fn unspent_outputs_are_sorted_by_value() {
    let mut s = service();
    s.add_output(unspent(900, 1)).unwrap();
    s.add_output(unspent(100, 2)).unwrap();
    s.add_output(unspent(400, 3)).unwrap();
    let v = s.fetch_unspent_outputs().unwrap();
    let values: Vec<u64> = v.iter().map(|o| o.value).collect();
    assert_eq!(values, vec![100, 400, 900]);
}

#[test]
fn balance_accounts_for_active_outputs() {
    let mut s = service();
    s.add_output(unspent(1_000, 1)).unwrap();
    s.add_output(unspent(300, 2)).unwrap();
    let _ = s
        .prepare_transaction_to_send(100, 0, None, String::new(), 1_000)
        .unwrap();
    let b = s.get_balance().unwrap();
    let unspent_sum: u64 = s.fetch_unspent_outputs().unwrap().iter().map(|o| o.value).sum();
    let spent_sum: u64 = s.fetch_spent_outputs().unwrap().iter().map(|o| o.value).sum();
    let invalid_sum: u64 = s.fetch_invalid_outputs().unwrap().iter().map(|o| o.value).sum();
    assert_eq!(unspent_sum, b.available_balance);
    assert_eq!(spent_sum, 0);
    assert_eq!(invalid_sum, 0);
    // every non-spent, non-invalid value is accounted for in the balance
    let pending = s.fetch_pending_transaction_outputs().unwrap();
    let pending_spent: u64 = pending
        .iter()
        .flat_map(|p| p.outputs_to_be_spent.iter())
        .map(|o| o.value)
        .sum();
    let pending_received: u64 = pending
        .iter()
        .flat_map(|p| p.outputs_to_be_received.iter())
        .map(|o| o.value)
        .sum();
    assert_eq!(b.pending_outgoing_balance, pending_spent);
    assert_eq!(b.pending_incoming_balance, pending_received);
}

#[test]
fn seed_words_encode_master_seed() {
    let mut store = OutputStore::new();
    let mut master = [0u8; 32];
    master[0] = 0x12;
    store.set_key_manager_state(KeyManagerState {
        master_seed: master,
        branch_seed: Vec::new(),
        primary_key_index: 0,
    });
    let s = OutputManagerService::new(config(), store).unwrap();
    let words = s.get_seed_words().unwrap();
    assert_eq!(words.len(), 64);
    assert_eq!(words[0], "bear");
    assert_eq!(words[1], "cloud");
    assert_eq!(words[2], "acid");
}

#[test]
fn handle_request_dispatch() {
    let mut s = service();
    let (r, outbound) = s.handle_request(OutputManagerRequest::AddOutput(unspent(800, 1)), 10);
    assert!(matches!(r, Ok(OutputManagerResponse::OutputAdded)));
    assert!(outbound.is_none());
    let (r, _) = s.handle_request(OutputManagerRequest::GetBalance, 10);
    match r.unwrap() {
        OutputManagerResponse::Balance(b) => assert_eq!(b.available_balance, 800),
        _ => panic!("wrong response variant"),
    }
    let (r, outbound) = s.handle_request(OutputManagerRequest::SetBaseNodePublicKey(key(9)), 10);
    assert!(matches!(r, Ok(OutputManagerResponse::BaseNodePublicKeySet)));
    assert!(outbound.is_some());
    let (r, outbound) = s.handle_request(OutputManagerRequest::SyncWithBaseNode, 10);
    match r.unwrap() {
        OutputManagerResponse::StartedBaseNodeSync(k) => {
            assert_eq!(k, outbound.unwrap().request_key)
        },
        _ => panic!("wrong response variant"),
    }
}

#[test]
fn add_output_rejects_value_overflow() {
    let mut s = service();
    s.add_output(unspent(u64::MAX, 1)).unwrap();
    // a second output would push the store's total past the representable
    // maximum: the store rejects it and is left unchanged
    let r = s.add_output(unspent(1, 2));
    assert_eq!(r, Err(OutputManagerError::StorageError));
    assert_eq!(s.get_balance().unwrap().available_balance, u64::MAX);
}

#[test]
fn coin_split_rejects_overflowing_target() {
    let mut s = service();
    s.add_output(unspent(10_000, 1)).unwrap();
    // amount_per_split * split_count exceeds u64: unfundable by definition
    let r = s.create_coin_split(u64::MAX, 3, 5, None, 1_000);
    assert!(matches!(r, Err(OutputManagerError::NotEnoughFunds)));
    assert_eq!(s.get_balance().unwrap().available_balance, 10_000);
}

#[test]
fn wrappers_do_not_echo_their_input() {
    let o = unspent(10, 1);
    let c = pedersen_commit(&o.spending_key, o.value).unwrap();
    assert_ne!(c, o.spending_key);
    let wide = [3u8; 64];
    let k = scalar_from_wide_bytes(&wide);
    assert_ne!(&k[..], &wide[..32]);
    let a = random_u64();
    let b = random_u64();
    // two draws from the OS entropy source virtually never collide
    assert_ne!(a, b);
}
