use kale_miner::encoding::{build_prefix, build_suffix, BlockData};

fn reference_buffer(index: u64, nonce: u64) -> Vec<u8> {
    let mut v = vec![0, 0, 0, 5];
    v.extend_from_slice(&index.to_be_bytes());
    v.extend_from_slice(&[0, 0, 0, 14, 0, 0, 0, 4]);
    v.extend_from_slice(b"KALE");
    v.extend_from_slice(&[0, 0, 0, 13, 0, 0, 0, 32]);
    v.extend_from_slice(&[0u8; 32]);
    v.extend_from_slice(&[0, 0, 0, 5]);
    v.extend_from_slice(&nonce.to_be_bytes());
    v.extend_from_slice(&[0, 0, 0, 18, 0, 0, 0, 0, 0, 0, 0, 0]);
    v.extend_from_slice(&[0u8; 32]);
    v
}

fn read_u32(b: &[u8], at: usize) -> u32 {
    u32::from_be_bytes([b[at], b[at + 1], b[at + 2], b[at + 3]])
}

#[test]
fn template_matches_hand_computed_buffer() {
    let block = BlockData::new(1360, "KALE", &[0u8; 32], &[0u8; 32]);
    assert_eq!(block.combined_data, reference_buffer(1360, 0));
    assert_eq!(block.combined_data.len(), 120);
    assert_eq!(block.nonce_position, 68);
    assert_eq!(&block.combined_data[8..12], &[0, 0, 5, 80]);
}

#[test]
fn tags_reparse_to_the_original_fields() {
    let prev: Vec<u8> = (0..32u8).collect();
    let mut prev_hash = [0u8; 32];
    prev_hash.copy_from_slice(&prev);
    let block = BlockData::new(1360, "KALE", &prev_hash, &[7u8; 32]);
    let b = &block.combined_data;
    assert_eq!(read_u32(b, 0), 5);
    let mut idx = [0u8; 8];
    idx.copy_from_slice(&b[4..12]);
    assert_eq!(u64::from_be_bytes(idx), 1360);
    assert_eq!(read_u32(b, 12), 14);
    let len = read_u32(b, 16) as usize;
    assert_eq!(len, 4);
    assert_eq!(&b[20..20 + len], b"KALE");
    assert_eq!(read_u32(b, 20 + len), 13);
    assert_eq!(read_u32(b, 24 + len), 32);
    assert_eq!(&b[28 + len..60 + len], &prev_hash[..]);
    assert_eq!(read_u32(b, 60 + len), 5);
    assert_eq!(block.nonce_position, 64 + len);
    assert_eq!(read_u32(b, 72 + len), 18);
    assert_eq!(&b[84 + len..], &[7u8; 32][..]);
}

#[test]
fn message_length_tag_follows_the_message() {
    let block = BlockData::new(2, "HELLO", &[0u8; 32], &[0u8; 32]);
    assert_eq!(&block.combined_data[16..20], &[0, 0, 0, 5]);
    assert_eq!(&block.combined_data[20..25], b"HELLO");
    assert_eq!(block.nonce_position, 69);
    assert_eq!(block.combined_data.len(), 121);
}

#[test]
fn prefix_and_suffix_surround_the_slot() {
    let prefix = build_prefix(1360, "KALE", &[0u8; 32]);
    let suffix = build_suffix(&[0u8; 32]);
    let full = reference_buffer(1360, 0);
    assert_eq!(prefix, full[..68].to_vec());
    assert_eq!(suffix, full[76..].to_vec());
    assert_eq!(suffix.len(), 44);
}

#[test]
fn set_nonce_writes_big_endian_into_the_slot_only() {
    let mut block = BlockData::new(1360, "KALE", &[0u8; 32], &[0u8; 32]);
    block.set_nonce(0x0102_0304_0506_0708);
    assert_eq!(block.combined_data, reference_buffer(1360, 0x0102_0304_0506_0708));
    block.set_nonce(u64::MAX);
    assert_eq!(block.combined_data, reference_buffer(1360, u64::MAX));
}
