use polygone_drive::network::{fetch_requests, ChunkResponse, RelayAction};
use polygone_drive::storage::{
    encrypt_and_fragment, reconstruct_and_decrypt, AesEncryption, ChunkCutter, ChunkRetrieval,
    EncryptedChunk, TooFewFragments,
};
use polygone_drive::transfer::{
    file_identity, map_path, recovered_path, upload_fragment_path, upload_fragment_paths,
    DownloadProgress, FragmentGather, NodeResolution, Reassembly, UploadProgress,
};

#[test]
fn identity_is_the_blake3_hash() {
    let id = file_identity(b"abc");
    let expected: [u8; 32] = [
        0x64, 0x37, 0xb3, 0xac, 0x38, 0x46, 0x51, 0x33, 0xff, 0xb6, 0x3b, 0x75, 0x27, 0x3a, 0x8d,
        0xb5, 0x48, 0xc5, 0x58, 0x46, 0x5d, 0x79, 0xdb, 0x03, 0xfd, 0x35, 0x9c, 0x6c, 0xd5, 0xbd,
        0x9d, 0x85,
    ];
    assert_eq!(id, expected);
    assert_eq!(id, file_identity(b"abc"));
    assert_ne!(id, file_identity(b"abd"));
}

#[test]
fn upload_numbers_chunks_from_zero() {
    let mut progress = UploadProgress::new();
    assert_eq!(progress.next_chunk(1_048_576), 0);
    assert_eq!(progress.next_chunk(10), 1);
    assert_eq!(progress.bytes, 1_048_586);
    let map = progress.map([1; 32], "dir/file.pdf", vec![2]);
    assert_eq!(map.file_id, [1; 32]);
    assert_eq!(map.file_name, "dir/file.pdf");
    assert_eq!(map.num_chunks, 2);
    assert_eq!(map.owner_pk, vec![2]);
}

#[test]
fn paths() {
    let hex = "01".repeat(32);
    assert_eq!(
        upload_fragment_path(&[1; 32], 2, 7),
        format!(".drive_cache/{}_2_7.frag", hex)
    );
    assert_eq!(map_path("myfile.pdf"), "myfile.pdf.pgd");
    assert_eq!(recovered_path(None, "a.txt"), "recovered_a.txt");
    assert_eq!(recovered_path(Some("out".to_string()), "a.txt"), "out");
}

#[test]
fn nodes_are_resolved() {
    let mut resolution: NodeResolution<u32> =
        NodeResolution::begin(vec![vec![1, 1], vec![2, 2]]);
    assert_eq!(resolution.peer(&[1, 1]), None);
    assert!(!resolution.record(&[9, 9], 90));
    assert!(!resolution.record(&[2, 2], 20));
    assert_eq!(resolution.peer(&[2, 2]), Some(&20));
    assert!(resolution.record(&[1, 1], 10));
    assert_eq!(resolution.peer(&[1, 1]), Some(&10));
    assert_eq!(resolution.peer(&[9, 9]), None);
}

#[test]
fn download_asks_for_the_uploaded_fragments() {
    let file_id = [7; 32];
    let mut upload = UploadProgress::new();
    let mut kept = Vec::new();
    for length in [1_048_576, 1_048_576, 3] {
        let chunk = upload.next_chunk(length);
        kept.extend(upload_fragment_paths(&file_id, chunk, 7));
    }
    assert_eq!(kept[12], upload_fragment_path(&file_id, 1, 5));
    let mut download = DownloadProgress::begin(&upload.map(file_id, "f", vec![]));
    let mut asked = Vec::new();
    while let Some(chunk) = download.next_chunk() {
        for request in fetch_requests(file_id, chunk, 7) {
            match request.into_action() {
                RelayAction::Retrieve { name } => asked.push(format!(".drive_cache/{}", name)),
                RelayAction::Store { .. } => panic!("a fetch stores nothing"),
            }
        }
    }
    assert_eq!(kept.len(), 21);
    assert_eq!(kept, asked);
    assert_eq!(download.next_chunk(), None);
}

#[test]
fn file_comes_back_from_its_chunks() {
    let file: Vec<u8> = (0..1_048_576usize + 5).map(|i| (i % 251) as u8).collect();
    let mut cutter = ChunkCutter::new();
    let mut chunks = cutter.feed(&file);
    chunks.extend(cutter.finish());
    let mut download = Reassembly::new();
    for chunk in &chunks {
        let key = AesEncryption::generate_key();
        let job = encrypt_and_fragment(chunk, &key);
        let record = EncryptedChunk::describe(job.nonce, (0..job.total).collect());
        let mut retrieval: ChunkRetrieval<u8> = ChunkRetrieval::begin(&record);
        while let Some(id) = retrieval.next_fragment() {
            // Every other fragment can be fetched.
            retrieval.record(if id % 2 == 0 { Some(id) } else { None });
        }
        // What four fragments give is the ciphertext.
        let given: Result<Vec<u8>, TooFewFragments> =
            retrieval.finish().map(|fragments| {
                assert_eq!(fragments, vec![0, 2, 4, 6]);
                job.ciphertext.clone()
            });
        let back = reconstruct_and_decrypt(given, &job.nonce, &key).unwrap().unwrap();
        download.push_chunk(&back);
    }
    assert!(download.into_bytes() == file);
}

#[test]
fn file_without_chunks_asks_for_none() {
    let map = UploadProgress::new().map([0; 32], "empty", vec![]);
    assert_eq!(DownloadProgress::begin(&map).next_chunk(), None);
}

#[test]
fn node_named_twice_takes_two_records() {
    let mut resolution: NodeResolution<u32> = NodeResolution::begin(vec![vec![1], vec![1]]);
    assert!(!resolution.record(&[1], 10));
    assert!(resolution.record(&[1], 11));
    assert_eq!(resolution.peer(&[1]), Some(&11));
}

#[test]
fn search_for_no_nodes_ends_with_any_record() {
    let mut resolution: NodeResolution<u32> = NodeResolution::begin(vec![]);
    assert!(resolution.record(&[1], 10));
    assert_eq!(resolution.peer(&[1]), None);
}

#[test]
fn repeated_records_leave_no_node_out() {
    let mut resolution: NodeResolution<u32> =
        NodeResolution::begin(vec![vec![1, 1], vec![2, 2]]);
    assert!(!resolution.record(&[1, 1], 10));
    assert!(!resolution.record(&[1, 1], 11));
    assert_eq!(resolution.peer(&[1, 1]), Some(&11));
    assert_eq!(resolution.peer(&[2, 2]), None);
    assert!(resolution.record(&[2, 2], 20));
}

#[test]
fn fragments_are_gathered() {
    let mut gather = FragmentGather::begin(2);
    assert!(gather.is_waiting());
    gather.offer(ChunkResponse { success: true, payload: vec![1] });
    gather.offer(ChunkResponse { success: false, payload: vec![2] });
    assert!(gather.is_waiting());
    gather.offer(ChunkResponse { success: true, payload: vec![3] });
    assert!(!gather.is_waiting());
    assert_eq!(gather.into_fragments(), vec![vec![1], vec![3]]);
}

#[test]
fn file_is_put_together() {
    let mut file = Reassembly::new();
    file.push_chunk(&[1, 2]);
    file.push_chunk(&[]);
    file.push_chunk(&[3]);
    assert_eq!(file.into_bytes(), vec![1, 2, 3]);
}
