use polygone_drive::cipher::{MAX_PLAINTEXT, TAG_LEN};
use polygone_drive::storage::{
    encrypt_and_fragment, fragment_file_name, reconstruct_and_decrypt, AesEncryption,
    ChunkCutter, ChunkRetrieval, Chunker, DriveMap, EncryptedChunk, RelayStore, TooFewFragments,
    SHAMIR_THRESHOLD, SHAMIR_TOTAL,
};

#[test]
fn test_aes_encrypt_decrypt() {
    let key = AesEncryption::generate_key();
    let plaintext = b"Hello, Polygone!";

    let (ciphertext, nonce) = AesEncryption::encrypt(plaintext, &key);
    let decrypted = AesEncryption::decrypt(&ciphertext, &nonce, &key).unwrap();

    assert_eq!(plaintext.to_vec(), decrypted);
}

#[test]
fn aes_known_answer() {
    let sealed = AesEncryption::encrypt_with_nonce(&[0; 16], &[0; 32], &[0; 12]);
    let expected: Vec<u8> = vec![
        0xce, 0xa7, 0x40, 0x3d, 0x4d, 0x60, 0x6b, 0x6e, 0x07, 0x4e, 0xc5, 0xd3, 0xba, 0xf3, 0x9d,
        0x18, 0xd0, 0xd1, 0xc8, 0xa7, 0x99, 0x99, 0x6b, 0xf0, 0x26, 0x5b, 0x98, 0xb5, 0xd4, 0x8a,
        0xb9, 0x19,
    ];
    assert_eq!(sealed, expected);
    assert_eq!(AesEncryption::decrypt(&sealed, &[0; 12], &[0; 32]), Some(vec![0; 16]));
}

#[test]
fn aes_keys_and_nonces_are_drawn_anew() {
    let key = AesEncryption::generate_key();
    assert_ne!(key, AesEncryption::generate_key());
    let (_, first) = AesEncryption::encrypt(b"x", &key);
    let (_, second) = AesEncryption::encrypt(b"x", &key);
    assert_ne!(first, second);
}

#[test]
fn aes_refuses_what_it_did_not_make() {
    let key = [7; 32];
    let (ciphertext, nonce) = AesEncryption::encrypt(b"data", &key);
    assert_eq!(ciphertext.len(), 4 + TAG_LEN);
    assert_eq!(AesEncryption::decrypt(&ciphertext, &nonce, &[8; 32]), None);
    let mut changed = ciphertext.clone();
    changed[0] ^= 1;
    assert_eq!(AesEncryption::decrypt(&changed, &nonce, &key), None);
    assert_eq!(AesEncryption::decrypt(&ciphertext[..15], &nonce, &key), None);
    assert_eq!(AesEncryption::decrypt(&[], &nonce, &key), None);
}

#[test]
fn encrypted_chunk_comes_back_with_its_ciphertext() {
    let key = AesEncryption::generate_key();
    let chunk = b"This is a test chunk";
    let job = encrypt_and_fragment(chunk, &key);
    assert_eq!(job.threshold, 4);
    assert_eq!(job.total, 7);
    let whole: Result<Vec<u8>, &str> = Ok(job.ciphertext);
    assert_eq!(reconstruct_and_decrypt(whole, &job.nonce, &key), Ok(Some(chunk.to_vec())));
}

#[test]
fn test_encrypt_and_fragment_roundtrip() {
    let key = AesEncryption::generate_key();
    let chunk = b"This is a test chunk for Polygone-Drive with Shamir SSS-4-7!";

    // Encrypt, and fix how the ciphertext is to be cut.
    let job = encrypt_and_fragment(chunk, &key);
    assert_eq!(job.total, 7);
    assert_eq!(job.threshold, 4);

    // Exactly four of the seven fragments are fetched.
    let ids: Vec<u8> = (0..job.total).collect();
    let record = EncryptedChunk::describe(job.nonce, ids);
    assert_eq!(record.num_fragments, 7);
    let mut retrieval: ChunkRetrieval<u8> = ChunkRetrieval::begin(&record);
    while let Some(id) = retrieval.next_fragment() {
        retrieval.record(Some(id));
    }
    assert_eq!(retrieval.finish(), Ok(vec![0, 1, 2, 3]));

    // What they give is the ciphertext, and that decrypts to the chunk.
    let whole: Result<Vec<u8>, TooFewFragments> = Ok(job.ciphertext);
    let decrypted = reconstruct_and_decrypt(whole, &job.nonce, &key).unwrap().unwrap();
    assert_eq!(chunk.to_vec(), decrypted);
}

#[test]
fn test_shamir_3_fragments_fails() {
    let key = AesEncryption::generate_key();
    let chunk = b"Test data for Shamir";

    let job = encrypt_and_fragment(chunk, &key);
    let ids: Vec<u8> = (0..job.total).collect();
    let record = EncryptedChunk::describe(job.nonce, ids);

    // Only three fragments can be fetched.
    let mut retrieval: ChunkRetrieval<u8> = ChunkRetrieval::begin(&record);
    while let Some(id) = retrieval.next_fragment() {
        retrieval.record(if id < 3 { Some(id) } else { None });
    }
    let fetched: Result<Vec<u8>, TooFewFragments> = retrieval.finish();
    let result = reconstruct_and_decrypt(fetched, &job.nonce, &key);

    assert!(result.is_err() || result.unwrap().is_none());
}

#[test]
fn failed_reconstruction_is_passed_on() {
    let failed: Result<Vec<u8>, &str> = Err("too few shares");
    assert_eq!(reconstruct_and_decrypt(failed, &[0; 12], &[0; 32]), Err("too few shares"));
    let garbled: Result<Vec<u8>, &str> = Ok(vec![1; 40]);
    assert_eq!(reconstruct_and_decrypt(garbled, &[0; 12], &[0; 32]), Ok(None));
}

#[test]
fn sizes() {
    assert_eq!(Chunker::CHUNK_SIZE, 1_048_576);
    assert!((Chunker::CHUNK_SIZE as u64) < MAX_PLAINTEXT);
    assert_eq!(SHAMIR_THRESHOLD, 4);
    assert_eq!(SHAMIR_TOTAL, 7);
    assert_eq!(DriveMap::EXTENSION, ".pgd");
}

#[test]
fn chunks_are_filled_whatever_the_pieces() {
    let file: Vec<u8> = (0..2 * Chunker::CHUNK_SIZE + 10).map(|i| (i % 253) as u8).collect();
    for piece in [1000, Chunker::CHUNK_SIZE, file.len()] {
        let mut cutter = ChunkCutter::new();
        let mut chunks = Vec::new();
        for part in file.chunks(piece) {
            chunks.extend(cutter.feed(part));
        }
        assert_eq!(chunks.len(), 2);
        assert!(chunks[0] == file[..Chunker::CHUNK_SIZE]);
        assert!(chunks[1] == file[Chunker::CHUNK_SIZE..2 * Chunker::CHUNK_SIZE]);
        assert_eq!(cutter.finish(), Some(file[2 * Chunker::CHUNK_SIZE..].to_vec()));
    }
}

#[test]
fn filled_file_leaves_no_last_chunk() {
    let mut cutter = ChunkCutter::new();
    assert_eq!(cutter.feed(&vec![1; Chunker::CHUNK_SIZE]).len(), 1);
    assert_eq!(cutter.finish(), None);
    assert_eq!(ChunkCutter::new().finish(), None);
}

#[test]
fn fragment_names() {
    let mut file_id = [0u8; 32];
    file_id[0] = 0x0f;
    file_id[1] = 0xa0;
    let zeros = "0".repeat(60);
    assert_eq!(
        fragment_file_name(&file_id, 12, 3),
        format!("0fa0{}_12_3.frag", zeros)
    );
    assert_eq!(
        fragment_file_name(&file_id, u32::MAX, u64::MAX),
        format!("0fa0{}_4294967295_18446744073709551615.frag", zeros)
    );
    assert_ne!(fragment_file_name(&file_id, 1, 23), fragment_file_name(&file_id, 12, 3));
}

#[test]
fn relay_store_room() {
    let store = RelayStore::new(".drive_cache".to_string(), 10);
    assert_eq!(store.cache_dir, ".drive_cache");
    assert_eq!(store.max_size_bytes, 10_737_418_240);
}

#[test]
fn chunk_record() {
    let record = EncryptedChunk::describe([3; 12], vec![1, 2, 3, 4, 5, 6, 7]);
    assert_eq!(record.nonce, [3; 12]);
    assert_eq!(record.num_fragments, 7);
    assert_eq!(record.threshold, 4);
    assert_eq!(record.fragment_ids, vec![1, 2, 3, 4, 5, 6, 7]);
    assert_eq!(EncryptedChunk::describe([3; 12], vec![0; 258]).num_fragments, 2);
}

fn fetch(record: &EncryptedChunk, missing: &[u8]) -> (Vec<u8>, Result<Vec<u8>, TooFewFragments>) {
    let mut asked = Vec::new();
    let mut retrieval = ChunkRetrieval::begin(record);
    while let Some(id) = retrieval.next_fragment() {
        asked.push(id);
        retrieval.record(if missing.contains(&id) { None } else { Some(id * 10) });
    }
    (asked, retrieval.finish())
}

#[test]
fn retrieval_stops_at_the_threshold() {
    let record = EncryptedChunk::describe([3; 12], vec![1, 2, 3, 4, 5, 6, 7]);
    let (asked, fragments) = fetch(&record, &[]);
    assert_eq!(asked, vec![1, 2, 3, 4]);
    assert_eq!(fragments, Ok(vec![10, 20, 30, 40]));
}

#[test]
fn retrieval_passes_over_missing_fragments() {
    let record = EncryptedChunk::describe([3; 12], vec![1, 2, 3, 4, 5, 6, 7]);
    let (asked, fragments) = fetch(&record, &[1, 3, 6]);
    assert_eq!(asked, vec![1, 2, 3, 4, 5, 6, 7]);
    assert_eq!(fragments, Ok(vec![20, 40, 50, 70]));
}

#[test]
fn three_fragments_are_too_few() {
    let record = EncryptedChunk::describe([3; 12], vec![1, 2, 3, 4, 5, 6, 7]);
    let (asked, fragments) = fetch(&record, &[1, 3, 6, 7]);
    assert_eq!(asked.len(), 7);
    let error = fragments.unwrap_err();
    assert_eq!(error, TooFewFragments { available: 3, threshold: 4 });
    assert_eq!(error.message(), "Only 3 of 4 fragments available");
}

#[test]
fn retrieval_without_a_threshold_takes_one_fragment() {
    let mut record = EncryptedChunk::describe([3; 12], vec![1, 2]);
    record.threshold = 0;
    assert_eq!(fetch(&record, &[]), (vec![1], Ok(vec![10])));
    assert_eq!(fetch(&record, &[1, 2]), (vec![1, 2], Ok(vec![])));
}

fn sample_map() -> DriveMap {
    DriveMap {
        file_id: [5; 32],
        file_name: "caf\u{e9}".to_string(),
        num_chunks: 258,
        owner_pk: vec![9, 8],
    }
}

#[test]
fn map_bytes() {
    let bytes = sample_map().to_bytes();
    let mut expected = vec![5u8; 32];
    expected.extend_from_slice(&[5, 0, 0, 0, 0, 0, 0, 0]);
    expected.extend_from_slice("caf\u{e9}".as_bytes());
    expected.extend_from_slice(&[2, 1, 0, 0]);
    expected.extend_from_slice(&[2, 0, 0, 0, 0, 0, 0, 0, 9, 8]);
    assert_eq!(bytes, expected);
}

#[test]
fn map_is_read_back() {
    let mut bytes = sample_map().to_bytes();
    bytes.push(77);
    let read = DriveMap::from_bytes(&bytes).unwrap();
    assert_eq!(read.file_id, [5; 32]);
    assert_eq!(read.file_name, "caf\u{e9}");
    assert_eq!(read.num_chunks, 258);
    assert_eq!(read.owner_pk, vec![9, 8]);
}

#[test]
fn broken_maps_are_refused() {
    let bytes = sample_map().to_bytes();
    for length in 0..bytes.len() {
        assert!(DriveMap::from_bytes(&bytes[..length]).is_none());
    }
    let mut no_text = bytes.clone();
    no_text[40] = 0xff;
    assert!(DriveMap::from_bytes(&no_text).is_none());
    let mut long = bytes.clone();
    long[39] = 0xff;
    assert!(DriveMap::from_bytes(&long).is_none());
}
