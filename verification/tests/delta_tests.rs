use ardiex::delta::{apply_delta, calculate_block_hashes, create_delta, delta_size};
use ardiex::delta_codec::{load_delta, save_delta};
use ardiex::hashing::sha256_hex;

#[test]
fn calculate_block_hashes_is_deterministic() {
    let content = b"abcdefg".to_vec();
    let first = calculate_block_hashes(&content);
    let second = calculate_block_hashes(&content);
    assert_eq!(first.len(), 1);
    assert_eq!(first, second);
}

#[test]
fn create_delta_has_no_changed_blocks_when_files_are_equal() {
    let content = b"same-content".to_vec();
    let delta = create_delta(&content, &content);
    assert_eq!(delta.total_blocks, 1);
    assert_eq!(delta.changed_blocks.len(), 0);
    assert_eq!(delta.new_file_size, content.len() as u64);
}

#[test]
fn create_delta_marks_changed_block_when_content_differs() {
    let old_content = b"aaaa".to_vec();
    let new_content = b"bbbb".to_vec();
    let delta = create_delta(&old_content, &new_content);
    assert_eq!(delta.total_blocks, 1);
    assert_eq!(delta.changed_blocks.len(), 1);
    assert_eq!(delta.changed_blocks[0].data, new_content);
}

#[test]
fn create_delta_with_missing_original_includes_all_new_blocks() {
    let new_content = vec![1u8; 5000];
    let empty: Vec<u8> = Vec::new();
    let delta = create_delta(&empty, &new_content);
    assert_eq!(delta.total_blocks, 2);
    assert_eq!(delta.changed_blocks.len(), 2);
    assert_eq!(delta.new_file_size, 5000);
}

#[test]
fn apply_delta_reconstructs_new_file_from_original() {
    let old_content = b"old-content-1234".to_vec();
    let new_content = b"new-content-9876".to_vec();
    let delta = create_delta(&old_content, &new_content);
    let restored = apply_delta(&old_content, &delta);
    assert_eq!(restored, new_content);
}

#[test]
fn apply_delta_without_original_creates_file() {
    let new_content = b"brand-new-content".to_vec();
    let empty: Vec<u8> = Vec::new();
    let delta = create_delta(&empty, &new_content);
    let restored = apply_delta(&empty, &delta);
    assert_eq!(restored, new_content);
}

#[test]
fn apply_delta_round_trip_across_block_boundaries() {
    let mut old_content = vec![9u8; 10000];
    old_content[0] = 1;
    let mut new_content = vec![9u8; 9000];
    new_content[4096] = 3;
    new_content[8999] = 4;
    let delta = create_delta(&old_content, &new_content);
    let restored = apply_delta(&old_content, &delta);
    assert_eq!(restored, new_content);
}

#[test]
fn save_and_load_delta_roundtrip() {
    let old_content = b"abc".to_vec();
    let new_content = b"abd".to_vec();
    let delta = create_delta(&old_content, &new_content);
    let buf = save_delta(&delta);
    let loaded = load_delta(&buf).expect("saved delta must load");
    assert_eq!(loaded.original_file_hash, delta.original_file_hash);
    assert_eq!(loaded.block_size, delta.block_size);
    assert_eq!(loaded.total_blocks, delta.total_blocks);
    assert_eq!(loaded.new_file_size, delta.new_file_size);
    assert_eq!(loaded.changed_blocks.len(), delta.changed_blocks.len());
    assert_eq!(loaded.changed_blocks[0].index, delta.changed_blocks[0].index);
    assert_eq!(loaded.changed_blocks[0].hash, delta.changed_blocks[0].hash);
    assert_eq!(loaded.changed_blocks[0].data, delta.changed_blocks[0].data);
}

#[test]
fn load_delta_fails_on_garbage() {
    let err = load_delta(&b"{invalid json".to_vec());
    assert!(err.is_err());
}

#[test]
fn load_delta_fails_on_truncated_record() {
    let old_content = b"abc".to_vec();
    let new_content = b"abd".to_vec();
    let delta = create_delta(&old_content, &new_content);
    let mut buf = save_delta(&delta);
    buf.pop();
    assert!(load_delta(&buf).is_err());
}

#[test]
fn load_delta_fails_on_trailing_bytes() {
    let old_content = b"abc".to_vec();
    let new_content = b"abd".to_vec();
    let delta = create_delta(&old_content, &new_content);
    let mut buf = save_delta(&delta);
    buf.push(0);
    assert!(load_delta(&buf).is_err());
}

#[test]
fn delta_size_sums_changed_block_bytes() {
    let old_content = vec![0u8; 4096];
    let new_content = vec![1u8; 5000];
    let delta = create_delta(&old_content, &new_content);
    assert_eq!(delta_size(&delta), 5000);
}

#[test]
fn sha256_hex_matches_known_vector() {
    let empty: Vec<u8> = Vec::new();
    assert_eq!(
        sha256_hex(&empty),
        "e3b0c44298fc1c149afbf4c8996fb92427ae41e4649b934ca495991b7852b855"
    );
    let abc = b"abc".to_vec();
    assert_eq!(
        sha256_hex(&abc),
        "ba7816bf8f01cfea414140de5dae2223b00361a396177a9cb410ff61f20015ad"
    );
}
