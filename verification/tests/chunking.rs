use private_vault::chunker::{chunk_bytes, to_metadata, DEFAULT_CHUNK_SIZE};
use private_vault::files::{
    assemble_file, build_manifest, content_disposition, default_file_name, file_status,
    manifest_matches_path, missing_chunks_for_file, new_upload,
};
use private_vault::hashing::{content_hash, hex_encode, verify_chunk};

fn blake3_hex(data: &[u8]) -> String {
    blake3::hash(data).to_hex().to_string()
}

#[test]
fn content_hash_of_empty_input_is_the_blake3_test_vector() {
    assert_eq!(
        content_hash(b""),
        "af1349b9f5f9a1a6a0404dea36dcc9499bcb25c9adc112b7cc9a93cae41f3262"
    );
}

#[test]
fn content_hash_matches_blake3_hex() {
    let data = b"hello vault";
    assert_eq!(content_hash(data), blake3_hex(data));
    assert_eq!(content_hash(data).len(), 64);
    assert_ne!(content_hash(b"a"), content_hash(b"b"));
}

#[test]
fn hex_encode_is_lowercase_high_nibble_first() {
    assert_eq!(hex_encode(&[0x00, 0xab, 0xff, 0x10]), "00abff10");
    assert_eq!(hex_encode(&[]), "");
}

#[test]
fn verify_chunk_accepts_only_matching_data() {
    let data = b"some chunk";
    let hash = blake3_hex(data);
    assert!(verify_chunk(&hash, data));
    assert!(!verify_chunk(&hash, b"other chunk"));
    assert!(!verify_chunk(&hash.to_uppercase(), data));
    assert!(!verify_chunk("", data));
}

#[test]
fn chunk_bytes_cuts_fixed_size_pieces() {
    let data: Vec<u8> = (0u8..10).collect();
    let chunks = chunk_bytes(&data, 4);
    assert_eq!(chunks.len(), 3);
    assert_eq!(chunks[0].data, vec![0, 1, 2, 3]);
    assert_eq!(chunks[1].data, vec![4, 5, 6, 7]);
    assert_eq!(chunks[2].data, vec![8, 9]);
    for (i, c) in chunks.iter().enumerate() {
        assert_eq!(c.index, i as i64);
        assert_eq!(c.size, c.data.len() as i64);
        assert_eq!(c.hash, blake3_hex(&c.data));
    }
}

#[test]
fn chunk_bytes_of_empty_data_is_empty() {
    assert!(chunk_bytes(&[], 4).is_empty());
}

#[test]
fn chunk_bytes_exact_multiple_has_no_short_tail() {
    let data = vec![7u8; 8];
    let chunks = chunk_bytes(&data, 4);
    assert_eq!(chunks.len(), 2);
    assert_eq!(chunks[1].size, 4);
}

#[test]
fn chunk_bytes_larger_size_gives_one_chunk() {
    let data = vec![1u8, 2, 3];
    let chunks = chunk_bytes(&data, DEFAULT_CHUNK_SIZE);
    assert_eq!(chunks.len(), 1);
    assert_eq!(chunks[0].data, data);
}

#[test]
fn to_metadata_copies_index_hash_and_size() {
    let chunks = chunk_bytes(b"abcdefg", 3);
    let meta = to_metadata(&chunks);
    assert_eq!(meta.len(), 3);
    for (m, c) in meta.iter().zip(chunks.iter()) {
        assert_eq!(m.index, c.index);
        assert_eq!(m.hash, c.hash);
        assert_eq!(m.size, c.size);
    }
}

#[test]
fn build_manifest_describes_the_file() {
    let data = vec![5u8; DEFAULT_CHUNK_SIZE + 10];
    let (manifest, chunks) = build_manifest("id-1".to_string(), "f.bin".to_string(), &data);
    assert_eq!(manifest.file_id, "id-1");
    assert_eq!(manifest.file_name, "f.bin");
    assert_eq!(manifest.size, (DEFAULT_CHUNK_SIZE + 10) as i64);
    assert_eq!(manifest.chunks.len(), 2);
    assert_eq!(chunks.len(), 2);
    assert_eq!(manifest.chunks[1].size, 10);
    assert_eq!(manifest.replication_factor, 1);
    assert!(manifest.target_peers.is_empty());
    assert!(manifest.content_type.is_none());
}

#[test]
fn new_upload_draws_a_version_4_id_and_names_the_file() {
    let (manifest, _) = new_upload(None, b"data");
    let id: Vec<char> = manifest.file_id.chars().collect();
    assert_eq!(id.len(), 36);
    assert_eq!(id[8], '-');
    assert_eq!(id[13], '-');
    assert_eq!(id[14], '4');
    assert!("89ab".contains(id[19]));
    assert_eq!(manifest.file_name, "uploaded-file");
    assert_eq!(default_file_name(), "uploaded-file");
    let (named, _) = new_upload(Some("notes.txt".to_string()), b"data");
    assert_eq!(named.file_name, "notes.txt");
    assert_ne!(named.file_id, manifest.file_id);
}

#[test]
fn download_returns_upload() {
    let data: Vec<u8> = (0..2_500_000u32).map(|i| (i % 251) as u8).collect();
    let (manifest, chunks) = build_manifest("id".to_string(), "big".to_string(), &data);
    let store: std::collections::HashMap<String, Vec<u8>> =
        chunks.iter().map(|c| (c.hash.clone(), c.data.clone())).collect();
    let pieces: Vec<Vec<u8>> = manifest.chunks.iter().map(|m| store[&m.hash].clone()).collect();
    let file = assemble_file(manifest.file_name.clone(), &pieces);
    assert_eq!(file.file_name, "big");
    assert_eq!(file.bytes, data);
}

#[test]
fn assemble_file_of_no_pieces_is_empty() {
    let file = assemble_file("empty".to_string(), &vec![]);
    assert!(file.bytes.is_empty());
}

#[test]
fn missing_chunks_follow_manifest_order() {
    let (manifest, _) = build_manifest("id".to_string(), "n".to_string(), &vec![1u8; 3 * DEFAULT_CHUNK_SIZE]);
    let missing = missing_chunks_for_file(&manifest, &vec![true, false, false]);
    assert_eq!(missing.len(), 2);
    assert_eq!(missing[0].index, 1);
    assert_eq!(missing[1].index, 2);
}

#[test]
fn file_status_without_manifest() {
    let status = file_status("x".to_string(), None, &vec![]);
    assert_eq!(status.file_id, "x");
    assert!(!status.has_manifest);
    assert!(!status.complete);
    assert!(status.missing_chunks.is_empty());
}

#[test]
fn file_status_complete_and_incomplete() {
    let (manifest, _) = build_manifest("id".to_string(), "n".to_string(), b"abc");
    let complete = file_status("id".to_string(), Some(&manifest), &vec![true]);
    assert!(complete.has_manifest);
    assert!(complete.complete);
    let incomplete = file_status("id".to_string(), Some(&manifest), &vec![false]);
    assert!(incomplete.has_manifest);
    assert!(!incomplete.complete);
    assert_eq!(incomplete.missing_chunks.len(), 1);
    assert_eq!(incomplete.missing_chunks[0].hash, manifest.chunks[0].hash);
}

#[test]
fn content_disposition_names_the_file() {
    assert_eq!(content_disposition("a b.txt"), "attachment; filename=\"a b.txt\"");
}

#[test]
fn manifest_must_carry_the_path_id() {
    let (manifest, _) = build_manifest("abc".to_string(), "n".to_string(), b"x");
    assert!(manifest_matches_path("abc", &manifest));
    assert!(!manifest_matches_path("abd", &manifest));
}
