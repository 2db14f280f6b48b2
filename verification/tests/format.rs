//! Tests of the fixed byte layouts: headers, entries, stem index records,
//! packed index values, and the file names exports use.

use ubt_exex::codec::{
    stem_index_record_bytes, tree_index_from_key, StateHeader, StorageEntry, STATE_ENTRY_SIZE,
    STATE_HEADER_SIZE, STEM_INDEX_ENTRY_SIZE,
};
use ubt_exex::key_index::{pack_head, pack_value, split_value, unpack_head};
use ubt_exex::names::{
    contract_file_name, contract_stem_index_file_name, delta_file_name, state_file_name,
    stem_index_file_name, u64_to_decimal,
};
use ubt_exex::types::Stem;

#[test]
fn test_state_header_roundtrip() {
    let header = StateHeader::new(1000, 20_000_000, 1, vec![0xab; 32]);
    let bytes = header.to_bytes();

    assert_eq!(&bytes[0..4], b"PIR2");
    assert_eq!(bytes.len(), STATE_HEADER_SIZE);
}

#[test]
fn test_storage_entry_roundtrip() {
    let entry = StorageEntry {
        address: vec![0x42; 20],
        tree_index: vec![0x01; 32],
        value: vec![0xff; 32],
    };
    let bytes = entry.to_bytes();

    assert_eq!(bytes.len(), STATE_ENTRY_SIZE);
    assert_eq!(&bytes[0..20], &[0x42; 20]);
    assert_eq!(&bytes[20..52], &[0x01; 32]);
    assert_eq!(&bytes[52..84], &[0xff; 32]);
}

#[test]
fn test_tree_index_from_key() {
    let stem = Stem::new(vec![0xaa; 31]);
    let subindex = 42u8;

    let tree_index = tree_index_from_key(&stem, subindex);

    assert_eq!(&tree_index[..31], &[0xaa; 31]);
    assert_eq!(tree_index[31], 42);
}

#[test]
fn test_inspire_core_format_compatibility() {
    let header = StateHeader::new(100, 20_000_000, 11155111, vec![0xab; 32]);
    let bytes = header.to_bytes();

    assert_eq!(&bytes[0..4], b"PIR2", "Magic must be PIR2");
    assert_eq!(
        u16::from_le_bytes([bytes[4], bytes[5]]),
        1,
        "Version must be 1"
    );
    assert_eq!(
        u16::from_le_bytes([bytes[6], bytes[7]]),
        84,
        "Entry size must be 84"
    );
    assert_eq!(
        u64::from_le_bytes(bytes[8..16].try_into().unwrap()),
        100,
        "Entry count"
    );
    assert_eq!(
        u64::from_le_bytes(bytes[16..24].try_into().unwrap()),
        20_000_000,
        "Block number"
    );
    assert_eq!(
        u64::from_le_bytes(bytes[24..32].try_into().unwrap()),
        11155111,
        "Chain ID (Sepolia)"
    );
    assert_eq!(&bytes[32..64], &[0xab; 32], "Block hash");
}

#[test]
fn test_storage_entry_inspire_core_layout() {
    let entry = StorageEntry {
        address: vec![0x42; 20],
        tree_index: vec![0x01; 32],
        value: vec![0xff; 32],
    };
    let bytes = entry.to_bytes();

    assert_eq!(&bytes[0..20], &[0x42; 20], "Address at offset 0");
    assert_eq!(&bytes[20..52], &[0x01; 32], "tree_index at offset 20");
    assert_eq!(&bytes[52..84], &[0xff; 32], "Value at offset 52");
}

#[test]
fn test_stem_index_format() {
    let stem = Stem::new(vec![0xbb; 31]);
    let offset: u64 = 12345;

    let entry_bytes = stem_index_record_bytes(&stem, offset);

    assert_eq!(entry_bytes.len(), STEM_INDEX_ENTRY_SIZE);
    assert_eq!(&entry_bytes[0..31], &[0xbb; 31], "Stem at offset 0");
    assert_eq!(
        u64::from_le_bytes(entry_bytes[31..39].try_into().unwrap()),
        12345,
        "Offset at byte 31"
    );
}

#[test]
fn header_decodes_back_to_its_fields() {
    let mut hash = vec![0u8; 32];
    hash[0] = 0x11;
    hash[31] = 0xfe;
    let header = StateHeader::new(7, u64::MAX, 0, hash.clone());
    let bytes = header.to_bytes();
    let decoded = StateHeader::from_bytes(&bytes).expect("a 64-byte header decodes");
    assert_eq!(decoded.magic, b"PIR2".to_vec());
    assert_eq!(decoded.version, 1);
    assert_eq!(decoded.entry_size, 84);
    assert_eq!(decoded.entry_count, 7);
    assert_eq!(decoded.block_number, u64::MAX);
    assert_eq!(decoded.chain_id, 0);
    assert_eq!(decoded.block_hash, hash);
    assert!(StateHeader::from_bytes(&vec![0u8; 63]).is_none());
}

#[test]
fn header_boundary_patterns_roundtrip() {
    for hash_byte in [0x00u8, 0xff] {
        let header = StateHeader::new(u64::MAX, 0, u64::MAX, vec![hash_byte; 32]);
        let decoded = StateHeader::from_bytes(&header.to_bytes()).unwrap();
        assert_eq!(decoded.entry_count, u64::MAX);
        assert_eq!(decoded.block_number, 0);
        assert_eq!(decoded.chain_id, u64::MAX);
        assert_eq!(decoded.block_hash, vec![hash_byte; 32]);
    }
}

#[test]
fn entry_decodes_back_to_its_fields() {
    let entry = StorageEntry {
        address: (0..20).collect(),
        tree_index: (0..32).collect(),
        value: (32..64).collect(),
    };
    let decoded = StorageEntry::from_bytes(&entry.to_bytes()).expect("an 84-byte entry decodes");
    assert_eq!(decoded.address, entry.address);
    assert_eq!(decoded.tree_index, entry.tree_index);
    assert_eq!(decoded.value, entry.value);
    assert!(StorageEntry::from_bytes(&vec![0u8; 83]).is_none());
}

#[test]
fn packed_stem_record_splits_back() {
    let address: Vec<u8> = (100..120).collect();
    let bitmap: Vec<u8> = (0..32).collect();
    let packed = pack_value(&address, &bitmap);
    assert_eq!(packed.len(), 52);
    let record = split_value(&packed);
    assert_eq!(record.address, address);
    assert_eq!(record.bitmap, bitmap);
}

#[test]
fn packed_head_record_unpacks_back() {
    let packed = pack_head(123456789, &vec![0xaa; 32], &vec![0xbb; 32], 42);
    assert_eq!(packed.len(), 80);
    let head = unpack_head(&packed);
    assert_eq!(head.block_number, 123456789);
    assert_eq!(head.block_hash, vec![0xaa; 32]);
    assert_eq!(head.root, vec![0xbb; 32]);
    assert_eq!(head.stem_count, 42);
}

#[test]
fn decimal_rendering_is_exact() {
    assert_eq!(u64_to_decimal(0), "0");
    assert_eq!(u64_to_decimal(9), "9");
    assert_eq!(u64_to_decimal(10), "10");
    assert_eq!(u64_to_decimal(12345), "12345");
    assert_eq!(u64_to_decimal(u64::MAX), "18446744073709551615");
}

#[test]
fn export_file_names_are_exact() {
    assert_eq!(state_file_name(), "state.bin");
    assert_eq!(stem_index_file_name(), "stem-index.bin");
    assert_eq!(delta_file_name(7, 9), "delta-7-9.bin");
    assert_eq!(delta_file_name(1000, 20_000_000), "delta-1000-20000000.bin");
}

#[test]
fn contract_file_names_use_the_checksummed_address() {
    // the canonical checksummed rendering of this address has mixed case
    let address_bytes: [u8; 20] = [
        0xd8, 0xda, 0x6b, 0xf2, 0x69, 0x64, 0xaf, 0x9d, 0x7e, 0xed, 0x9e, 0x03, 0xe5, 0x34, 0x15,
        0xd3, 0x7a, 0xa9, 0x60, 0x45,
    ];
    let address = address_bytes.to_vec();
    let expected = alloy_primitives::Address::from(address_bytes).to_checksum(None);
    assert_eq!(expected, "0xd8dA6BF26964aF9D7eEd9e03E53415D37aA96045");
    assert_eq!(contract_file_name(&address), format!("contract-{}.bin", expected));
    assert_eq!(
        contract_stem_index_file_name(&address),
        format!("contract-{}-stem-index.bin", expected)
    );
}
