//! Tests of the stores, the secondary index, and the export routines.

use ubt_exex::bitmap::{iter_bitmap_subindices, set_bit, test_bit};
use ubt_exex::codec::StorageEntry;
use ubt_exex::delta::get_state_delta;
use ubt_exex::error::UbtError;
use ubt_exex::export::{export_contract_state, export_full_state};
use ubt_exex::index_export::{export_full_state_from_index, index_export_keys};
use ubt_exex::key_index::KeyIndex;
use ubt_exex::rpc::{u64_from_be_bytes, ExportStateParams, GetStateDeltaParams, UbtRpc};
use ubt_exex::store::UbtStore;
use ubt_exex::types::{Stem, StemNode, TreeKey};

fn stem_of(first: u8) -> Stem {
    let mut bytes = vec![0u8; 31];
    bytes[0] = first;
    Stem::new(bytes)
}

fn value_of(byte: u8) -> Vec<u8> {
    vec![byte; 32]
}

fn address_of(byte: u8) -> Vec<u8> {
    vec![byte; 20]
}

fn entries_of(state_bytes: &[u8]) -> Vec<StorageEntry> {
    assert_eq!((state_bytes.len() - 64) % 84, 0);
    let mut out = Vec::new();
    let mut at = 64;
    while at < state_bytes.len() {
        let chunk = state_bytes[at..at + 84].to_vec();
        out.push(StorageEntry::from_bytes(&chunk).unwrap());
        at += 84;
    }
    out
}

#[test]
fn store_point_lookups_see_the_batch() {
    // insert stem 0x01.. with sub-indices {0: A, 5: B}
    let mut store = UbtStore::new();
    let mut node = StemNode::new();
    node.set_value(0, value_of(0xaa));
    node.set_value(5, value_of(0xbb));
    store.batch_update_stems(vec![(stem_of(0x01), node)]);

    let a = store.load_value(&TreeKey::new(stem_of(0x01), 0));
    assert_eq!(a.unwrap(), &value_of(0xaa));
    let b = store.load_value(&TreeKey::new(stem_of(0x01), 5));
    assert_eq!(b.unwrap(), &value_of(0xbb));
    assert!(store.load_value(&TreeKey::new(stem_of(0x01), 1)).is_none());
    assert!(store.load_value(&TreeKey::new(stem_of(0x02), 0)).is_none());
}

#[test]
fn later_batch_entries_override_earlier_ones() {
    let mut store = UbtStore::new();
    let mut first = StemNode::new();
    first.set_value(3, value_of(0x01));
    let mut second = StemNode::new();
    second.set_value(4, value_of(0x02));
    store.batch_update_stems(vec![(stem_of(0x07), first), (stem_of(0x07), second)]);

    assert!(store.load_value(&TreeKey::new(stem_of(0x07), 3)).is_none());
    let v = store.load_value(&TreeKey::new(stem_of(0x07), 4));
    assert_eq!(v.unwrap(), &value_of(0x02));
}

#[test]
fn index_batch_application_is_idempotent() {
    let mut index = KeyIndex::new();
    let batch = vec![
        (stem_of(0x01), 0u8, address_of(0x11)),
        (stem_of(0x01), 5u8, address_of(0x11)),
        (stem_of(0x02), 7u8, address_of(0x22)),
    ];
    let first = index.apply_updates(&batch).unwrap();
    assert_eq!(first, 2);
    let bitmaps_after_first: Vec<Vec<u8>> = index
        .stem_records()
        .iter()
        .map(|(_, rec)| rec.bitmap.clone())
        .collect();

    let second = index.apply_updates(&batch).unwrap();
    assert_eq!(second, 0, "the second application sees no new stem");
    let bitmaps_after_second: Vec<Vec<u8>> = index
        .stem_records()
        .iter()
        .map(|(_, rec)| rec.bitmap.clone())
        .collect();
    assert_eq!(bitmaps_after_first, bitmaps_after_second);
}

#[test]
fn empty_index_batch_is_a_no_op() {
    let mut index = KeyIndex::new();
    assert_eq!(index.apply_updates(&Vec::new()).unwrap(), 0);
    assert_eq!(index.stem_records().len(), 0);
}

#[test]
fn address_conflicts_fail_identically_in_either_order() {
    let mut index = KeyIndex::new();
    let one_way = index.apply_updates(&vec![
        (stem_of(0x01), 0u8, address_of(0x11)),
        (stem_of(0x01), 1u8, address_of(0x22)),
    ]);
    assert_eq!(one_way.unwrap_err(), UbtError::AddressMismatch);

    let mut index2 = KeyIndex::new();
    let other_way = index2.apply_updates(&vec![
        (stem_of(0x01), 1u8, address_of(0x22)),
        (stem_of(0x01), 0u8, address_of(0x11)),
    ]);
    assert_eq!(other_way.unwrap_err(), UbtError::AddressMismatch);
}

#[test]
fn address_conflicts_fail_across_batches_too() {
    let mut index = KeyIndex::new();
    index
        .apply_updates(&vec![(stem_of(0x01), 0u8, address_of(0x11))])
        .unwrap();
    let crossed = index.apply_updates(&vec![(stem_of(0x01), 1u8, address_of(0x22))]);
    assert_eq!(crossed.unwrap_err(), UbtError::AddressMismatch);
    // the index is untouched on failure
    assert_eq!(index.stem_records().len(), 1);
    assert_eq!(index.stem_records()[0].1.address, address_of(0x11));
}

#[test]
fn single_stem_bitmap_decodes_back_to_its_subindices() {
    // a single stem whose bitmap has bits {0, 5} set
    let mut index = KeyIndex::new();
    index
        .apply_updates(&vec![
            (stem_of(0x01), 0u8, address_of(0x11)),
            (stem_of(0x01), 5u8, address_of(0x11)),
        ])
        .unwrap();
    let records = index.stem_records();
    assert_eq!(records.len(), 1);
    let subs = iter_bitmap_subindices(&records[0].1.bitmap);
    assert_eq!(subs, vec![0u8, 5u8]);
}

#[test]
fn bitmap_bits_set_and_test() {
    let mut bitmap = vec![0u8; 32];
    set_bit(&mut bitmap, 0);
    set_bit(&mut bitmap, 9);
    set_bit(&mut bitmap, 255);
    assert!(test_bit(&bitmap, 0));
    assert!(test_bit(&bitmap, 9));
    assert!(test_bit(&bitmap, 255));
    assert!(!test_bit(&bitmap, 1));
    assert_eq!(bitmap[0], 0b0000_0001);
    assert_eq!(bitmap[1], 0b0000_0010);
    assert_eq!(bitmap[31], 0b1000_0000);
}

#[test]
fn full_export_of_one_value_is_148_and_47_bytes() {
    let mut store = UbtStore::new();
    let mut node = StemNode::new();
    node.set_value(0, value_of(0xcc));
    store.batch_update_stems(vec![(stem_of(0x01), node)]);
    store.save_stem_address(stem_of(0x01), address_of(0x11));
    store.save_head(10, value_of(0xab), value_of(0xcd), 1);

    let bundle = export_full_state(&store, 1).unwrap();
    assert_eq!(bundle.state_bytes.len(), 64 + 84);
    assert_eq!(bundle.stem_index_bytes.len(), 8 + 39);
    assert_eq!(bundle.result.entry_count, 1);
    assert_eq!(bundle.result.stem_count, 1);
    assert_eq!(bundle.result.state_file, "state.bin");
    assert_eq!(bundle.result.stem_index_file, "stem-index.bin");
}

#[test]
fn full_export_entries_are_sorted_and_contiguous() {
    let mut store = UbtStore::new();
    // insert stems out of order, each with sub-indices out of order
    for (first, subs) in [(0x09u8, vec![7u8, 2]), (0x03, vec![5, 0, 9]), (0x05, vec![1])] {
        let mut node = StemNode::new();
        for s in subs {
            node.set_value(s, value_of(s + 1));
        }
        store.batch_update_stems(vec![(stem_of(first), node)]);
        store.save_stem_address(stem_of(first), address_of(first));
    }
    store.save_head(10, value_of(0xab), value_of(0xcd), 3);

    let bundle = export_full_state(&store, 1).unwrap();
    let entries = entries_of(&bundle.state_bytes);
    assert_eq!(entries.len(), 6);
    for pair in entries.windows(2) {
        assert!(pair[0].tree_index < pair[1].tree_index, "tree_index strictly increasing");
    }
    // each stem's entries contiguous: stems change at most once per stem
    let stems: Vec<Vec<u8>> = entries.iter().map(|e| e.tree_index[..31].to_vec()).collect();
    let mut seen: Vec<Vec<u8>> = Vec::new();
    for st in stems {
        if seen.last() != Some(&st) {
            assert!(!seen.contains(&st), "a stem's entries are contiguous");
            seen.push(st);
        }
    }
    assert_eq!(seen.len(), 3);
}

#[test]
fn export_without_head_or_address_fails() {
    let store = UbtStore::new();
    assert_eq!(export_full_state(&store, 1).unwrap_err(), UbtError::NoCanonicalState);

    let mut store = UbtStore::new();
    let mut node = StemNode::new();
    node.set_value(0, value_of(0x01));
    store.batch_update_stems(vec![(stem_of(0x01), node)]);
    store.save_head(1, value_of(0), value_of(0), 1);
    assert_eq!(
        export_full_state(&store, 1).unwrap_err(),
        UbtError::MissingAddresses { count: 1 }
    );
}

#[test]
fn contract_export_filters_by_address() {
    let mut store = UbtStore::new();
    for (first, addr) in [(0x01u8, 0x11u8), (0x02, 0x22)] {
        let mut node = StemNode::new();
        node.set_value(0, value_of(first));
        store.batch_update_stems(vec![(stem_of(first), node)]);
        store.save_stem_address(stem_of(first), address_of(addr));
    }
    store.save_head(5, value_of(0), value_of(0), 2);

    let bundle = export_contract_state(&store, &address_of(0x22), 7).unwrap();
    assert_eq!(bundle.result.entry_count, 1);
    let entries = entries_of(&bundle.state_bytes);
    assert_eq!(entries[0].address, address_of(0x22));
    assert_eq!(entries[0].tree_index[..31], stem_of(0x02).as_bytes()[..]);
}

#[test]
fn delta_window_boundary_is_enforced() {
    // delta_retention = 10 and head at block 1000: from_block 989 is outside
    // the window, 990 is the last block inside it
    let mut store = UbtStore::new();
    store.save_head(1000, value_of(0), value_of(0), 0);

    let rejected = get_state_delta(&store, 989, 1000, 1, 10);
    assert_eq!(
        rejected.unwrap_err(),
        UbtError::RangeBeforeRetention { from_block: 989, min_block: 990 }
    );

    let accepted = get_state_delta(&store, 990, 1000, 1, 10).unwrap();
    assert_eq!(accepted.result.entry_count, 0);
    assert_eq!(accepted.result.head_block, 1000);
    assert_eq!(accepted.result.delta_file, "delta-990-1000.bin");
    assert_eq!(accepted.delta_bytes.len(), 64);
}

#[test]
fn delta_range_validation_rejects_bad_ranges() {
    let mut store = UbtStore::new();
    store.save_head(100, value_of(0), value_of(0), 0);
    assert_eq!(
        get_state_delta(&store, 7, 3, 1, 50).unwrap_err(),
        UbtError::InvalidRange { from_block: 7, to_block: 3 }
    );
    assert_eq!(
        get_state_delta(&store, 90, 101, 1, 50).unwrap_err(),
        UbtError::RangeAheadOfHead { to_block: 101, head: 100 }
    );
    assert_eq!(
        get_state_delta(&UbtStore::new(), 0, 0, 1, 50).unwrap_err(),
        UbtError::NoCanonicalState
    );
}

#[test]
fn delta_export_resolves_touched_keys_to_current_values() {
    let mut store = UbtStore::new();
    let mut node = StemNode::new();
    node.set_value(2, value_of(0x77));
    store.batch_update_stems(vec![(stem_of(0x01), node)]);
    store.save_stem_address(stem_of(0x01), address_of(0x11));
    store.save_head(12, value_of(0), value_of(0), 1);
    // block 11 touched (stem, 2) twice across blocks and (stem, 3) once;
    // (stem, 3) holds no value any more
    store.record_block_deltas(10, vec![(stem_of(0x01), 2u8, value_of(0x00))]);
    store.record_block_deltas(11, vec![
        (stem_of(0x01), 3u8, value_of(0x09)),
        (stem_of(0x01), 2u8, value_of(0x08)),
    ]);

    let bundle = get_state_delta(&store, 10, 12, 1, 100).unwrap();
    assert_eq!(bundle.result.entry_count, 2, "touched keys are deduplicated");
    let entries = entries_of(&bundle.delta_bytes);
    assert_eq!(entries[0].tree_index[31], 2);
    assert_eq!(entries[0].value, value_of(0x77), "current value, not the pre-image");
    assert_eq!(entries[1].tree_index[31], 3);
    assert_eq!(entries[1].value, vec![0u8; 32], "absent leaves export as zero");
}

#[test]
fn index_sourced_export_lays_out_resolved_values() {
    let mut index = KeyIndex::new();
    index
        .apply_updates(&vec![
            (stem_of(0x01), 0u8, address_of(0x11)),
            (stem_of(0x01), 5u8, address_of(0x11)),
            (stem_of(0x02), 1u8, address_of(0x22)),
        ])
        .unwrap();
    index.save_head(9, value_of(0xab), value_of(0xcd), 2);

    let keys = index_export_keys(&index, None);
    assert_eq!(keys.len(), 3);
    let values = vec![Some(value_of(0x01)), None, Some(value_of(0x03))];
    let head = index.load_head().unwrap();
    let bundle = export_full_state_from_index(&head, 7, &keys, &values).unwrap();
    assert_eq!(bundle.result.entry_count, 3);
    assert_eq!(bundle.result.stem_count, 2);
    assert_eq!(bundle.stem_index_bytes.len(), 8 + 2 * 39);
    let entries = entries_of(&bundle.state_bytes);
    assert_eq!(entries[0].value, value_of(0x01));
    assert_eq!(entries[1].value, vec![0u8; 32], "a bit with no engine value is zero");
    assert_eq!(entries[2].value, value_of(0x03));
    assert_eq!(entries[2].address, address_of(0x22));

    // the index claims stems exist, so an export with nothing resolved fails
    let empty = export_full_state_from_index(&head, 7, &Vec::new(), &Vec::new());
    assert_eq!(empty.unwrap_err(), UbtError::EmptyIndexWithStems);

    // a resolved value of the wrong width is rejected
    let bad = export_full_state_from_index(
        &head,
        7,
        &keys,
        &vec![Some(vec![0u8; 5]), None, None],
    );
    assert_eq!(bad.unwrap_err(), UbtError::InvalidValueLength);
}

#[test]
fn service_checks_the_engine_head_before_exporting() {
    let store = UbtStore::new();
    let mut index = KeyIndex::new();
    index
        .apply_updates(&vec![(stem_of(0x01), 0u8, address_of(0x11))])
        .unwrap();
    index.save_head(9, value_of(0xab), value_of(0xcd), 1);
    let rpc = UbtRpc::new(store, index, 11155111, 256);

    let marker_nine = vec![0u8, 0, 0, 0, 0, 0, 0, 9];
    assert_eq!(u64_from_be_bytes(&marker_nine), 9);
    assert!(rpc.ensure_heads_synced(&Some(marker_nine.clone())).is_ok());
    assert_eq!(
        rpc.ensure_heads_synced(&Some(vec![0u8, 0, 0, 0, 0, 0, 0, 8])).unwrap_err(),
        UbtError::HeadMismatch { engine_head: 8, index_head: 9 }
    );
    assert_eq!(
        rpc.ensure_heads_synced(&Some(vec![1u8, 2, 3])).unwrap_err(),
        UbtError::InvalidEngineHead
    );
    assert_eq!(
        rpc.ensure_heads_synced(&None).unwrap_err(),
        UbtError::HeadMismatch { engine_head: 0, index_head: 9 }
    );
    let headless = UbtRpc::new(UbtStore::new(), KeyIndex::new(), 1, 256);
    assert_eq!(
        headless.ensure_heads_synced(&None).unwrap_err(),
        UbtError::MissingIndexHead
    );

    let keys = index_export_keys(&rpc.key_index, None);
    let values = vec![Some(value_of(0x42))];
    let params = ExportStateParams { output_path: String::new(), chain_id: None };
    let bundle = rpc
        .export_state(&params, &Some(marker_nine), &keys, &values)
        .unwrap();
    assert_eq!(bundle.result.block_number, 9);
    assert_eq!(bundle.result.entry_count, 1);
    let header_chain_id =
        u64::from_le_bytes(bundle.state_bytes[24..32].try_into().unwrap());
    assert_eq!(header_chain_id, 11155111, "the default chain id fills in");
}

#[test]
fn service_reports_the_index_head() {
    let store = UbtStore::new();
    let mut index = KeyIndex::new();
    index.save_head(42, value_of(0xab), value_of(0xcd), 3);
    let rpc = UbtRpc::new(store, index, 1, 256);
    let root = rpc.get_root().unwrap();
    assert_eq!(root.block_number, 42);
    assert_eq!(root.block_hash, value_of(0xab));
    assert_eq!(root.root, value_of(0xcd));
    assert_eq!(root.stem_count, 3);

    let empty_rpc = UbtRpc::new(UbtStore::new(), KeyIndex::new(), 1, 256);
    assert_eq!(empty_rpc.get_root().unwrap_err(), UbtError::NoCanonicalState);
}

#[test]
fn revert_restores_preimages_and_is_idempotent() {
    let mut store = UbtStore::new();
    // block 11 overwrote (S, 0): it held 0x01 before, holds 0x02 now
    let mut node = StemNode::new();
    node.set_value(0, value_of(0x02));
    store.batch_update_stems(vec![(stem_of(0x01), node)]);
    store.record_block_deltas(11, vec![(stem_of(0x01), 0u8, value_of(0x01))]);
    store.save_head(11, value_of(0), value_of(0), 1);

    store.revert_to(10);
    let v = store.load_value(&TreeKey::new(stem_of(0x01), 0));
    assert_eq!(v.unwrap(), &value_of(0x01), "the pre-image is restored");

    store.revert_to(10);
    let v = store.load_value(&TreeKey::new(stem_of(0x01), 0));
    assert_eq!(v.unwrap(), &value_of(0x01), "a second replay changes nothing");

    // the lowest block in range wins: block 10 recorded the older pre-image
    store.record_block_deltas(10, vec![(stem_of(0x01), 0u8, value_of(0x00))]);
    store.revert_to(9);
    let v = store.load_value(&TreeKey::new(stem_of(0x01), 0));
    assert_eq!(v.unwrap(), &value_of(0x00));
}

#[test]
fn metrics_track_progress() {
    let mut m = ubt_exex::metrics::UbtMetrics::new();
    ubt_exex::metrics::record_block_processed(&mut m, 7, 100, 3);
    assert_eq!(m.blocks_processed, 1);
    assert_eq!(m.last_block_number, 7);
    assert_eq!(m.entries_last_block, 100);
    assert_eq!(m.stems_total, 3);
    ubt_exex::metrics::record_dirty_stems(&mut m, 5);
    assert_eq!(m.dirty_stems, 5);
    ubt_exex::metrics::record_revert(&mut m, 2, 9);
    assert_eq!(m.reverts, 1);
    assert_eq!(m.blocks_reverted_last, 2);
    assert_eq!(m.entries_reverted_last, 9);
}

#[test]
fn config_defaults_match_the_documented_values() {
    let config = ubt_exex::config::UbtConfig::default();
    assert!(config.data_dir.is_none());
    assert_eq!(config.flush_interval, 1);
    assert_eq!(config.delta_retention, 256);
    assert!(!config.disabled);
}

#[test]
fn config_selection_rules_prefer_explicit_settings() {
    let mut config = ubt_exex::config::UbtConfig::default();
    assert_eq!(config.get_data_dir(None), ".");
    assert_eq!(config.get_data_dir(Some("/from-env".to_string())), "/from-env");
    config.data_dir = Some("/explicit".to_string());
    assert_eq!(config.get_data_dir(Some("/from-env".to_string())), "/explicit");

    let mut config = ubt_exex::config::UbtConfig::default();
    assert_eq!(config.get_flush_interval(None), 1);
    assert_eq!(config.get_flush_interval(Some(16)), 16);
    config.flush_interval = 4;
    assert_eq!(config.get_flush_interval(Some(16)), 4, "an explicit setting beats the environment");
}

#[test]
fn delta_errors_name_the_missing_address_count() {
    let mut store = UbtStore::new();
    store.save_head(12, value_of(0), value_of(0), 0);
    // three touched keys over two stems, none with an address mapping
    store.record_block_deltas(11, vec![
        (stem_of(0x01), 0u8, value_of(0x01)),
        (stem_of(0x01), 7u8, value_of(0x02)),
        (stem_of(0x02), 3u8, value_of(0x03)),
    ]);
    let err = get_state_delta(&store, 10, 12, 1, 100).unwrap_err();
    assert_eq!(err, UbtError::MissingAddresses { count: 3 });

    // mapping one stem leaves two touched keys missing
    store.save_stem_address(stem_of(0x01), address_of(0x11));
    let err = get_state_delta(&store, 10, 12, 1, 100).unwrap_err();
    assert_eq!(err, UbtError::MissingAddresses { count: 1 });
}

#[test]
fn service_delta_carries_the_export_through() {
    let mut store = UbtStore::new();
    let mut node = StemNode::new();
    node.set_value(2, value_of(0x44));
    store.batch_update_stems(vec![(stem_of(0x01), node)]);
    store.save_stem_address(stem_of(0x01), address_of(0x11));
    store.save_head(9, value_of(0xab), value_of(0xcd), 1);
    store.record_block_deltas(9, vec![(stem_of(0x01), 2u8, value_of(0x00))]);

    let mut index = KeyIndex::new();
    index.save_head(9, value_of(0xab), value_of(0xcd), 1);
    let rpc = UbtRpc::new(store, index, 7, 256);

    let params = GetStateDeltaParams {
        from_block: 8,
        to_block: 9,
        output_path: String::new(),
        chain_id: None,
    };
    let marker_nine = vec![0u8, 0, 0, 0, 0, 0, 0, 9];
    let bundle = rpc.get_state_delta(&params, &Some(marker_nine)).unwrap();
    assert_eq!(bundle.result.from_block, 8);
    assert_eq!(bundle.result.to_block, 9);
    assert_eq!(bundle.result.head_block, 9);
    assert_eq!(bundle.result.entry_count, 1);
    assert_eq!(bundle.result.delta_file, "delta-8-9.bin");
    let entries = entries_of(&bundle.delta_bytes);
    assert_eq!(entries.len(), 1);
    assert_eq!(entries[0].value, value_of(0x44));
    let header_chain_id = u64::from_le_bytes(bundle.delta_bytes[24..32].try_into().unwrap());
    assert_eq!(header_chain_id, 7, "the default chain id fills in");
}
