use polygone_drive::drive_map::DriveMap;
use polygone_drive::links::{EphemeralLink, LinkManager, LinkType};
use polygone_drive::share::write_token;

const ZEROS: &str = "00000000-0000-4000-8000-000000000000";

fn link(ttl_seconds: u64, max_downloads: u32) -> EphemeralLink {
    EphemeralLink::new_at(vec![9, 8, 7], ttl_seconds, max_downloads, 1000)
}

#[test]
fn new_link_is_unused() {
    let made = EphemeralLink::new(vec![1, 2], 60, 3).unwrap();
    assert_eq!(made.map_data, vec![1, 2]);
    assert_eq!(made.ttl_seconds, 60);
    assert_eq!(made.max_downloads, 3);
    assert_eq!(made.downloads, 0);
    assert!(made.created_at > 1_600_000_000);
    assert_eq!(made.is_expired(), Ok(false));
    let left = made.time_remaining().unwrap();
    assert!(left == 60 || left == 59 || left == 58);
}

#[test]
fn time_limit_ends_after_its_last_second() {
    let timed = link(10, 0);
    assert!(!timed.is_expired_at(999));
    assert!(!timed.is_expired_at(1010));
    assert!(timed.is_expired_at(1011));
    assert!(!link(0, 0).is_expired_at(u64::MAX));
}

#[test]
fn time_limit_past_the_end_of_the_clock_is_never_reached() {
    let timed = link(u64::MAX, 0);
    assert!(!timed.is_expired_at(u64::MAX));
    assert_eq!(timed.time_remaining_at(u64::MAX), 1000);
}

#[test]
fn old_link_has_expired_by_the_clock() {
    let timed = link(10, 0);
    assert_eq!(timed.is_expired(), Ok(true));
    assert_eq!(timed.time_remaining(), Ok(0));
}

#[test]
fn download_limit_is_reached() {
    let mut limited = link(0, 2);
    assert_eq!(limited.downloads_remaining(), 2);
    limited.record_download();
    assert!(!limited.is_expired_at(5));
    assert_eq!(limited.downloads_remaining(), 1);
    limited.record_download();
    assert!(limited.is_expired_at(5));
    assert_eq!(limited.downloads_remaining(), 0);
    limited.record_download();
    assert_eq!(limited.downloads_remaining(), 0);
    assert_eq!(limited.downloads, 3);
}

#[test]
fn remaining_without_limits() {
    let free = link(0, 0);
    assert_eq!(free.time_remaining_at(12345), u64::MAX);
    assert_eq!(free.downloads_remaining(), u32::MAX);
}

#[test]
fn time_remaining_counts_down() {
    let timed = link(10, 0);
    assert_eq!(timed.time_remaining_at(990), 10);
    assert_eq!(timed.time_remaining_at(1004), 6);
    assert_eq!(timed.time_remaining_at(1010), 0);
    assert_eq!(timed.time_remaining_at(2000), 0);
}

#[test]
fn link_types_from_flags() {
    assert!(matches!(LinkType::from_flags(0, 0), LinkType::Permanent));
    assert!(matches!(LinkType::from_flags(5, 0), LinkType::EphemeralTime { ttl_seconds: 5 }));
    assert!(matches!(LinkType::from_flags(0, 6), LinkType::EphemeralUsage { max_downloads: 6 }));
    assert!(matches!(
        LinkType::from_flags(5, 6),
        LinkType::EphemeralBoth { ttl_seconds: 5, max_downloads: 6 }
    ));
}

#[test]
fn created_link_gives_its_data_until_used_up() {
    let mut manager = LinkManager::new();
    let usage = LinkType::EphemeralUsage { max_downloads: 2 };
    let token = manager.create_link("id".to_string(), vec![4, 5, 6], usage).unwrap();
    assert_eq!(manager.validate_link(&token), Ok(Some(vec![4, 5, 6])));
    assert_eq!(manager.validate_link(&token), Ok(Some(vec![4, 5, 6])));
    assert_eq!(manager.validate_link(&token), Ok(None));
}

#[test]
fn created_tokens_encode_a_fresh_key() {
    let mut manager = LinkManager::default();
    let time = LinkType::EphemeralTime { ttl_seconds: 3600 };
    let first = manager.create_link("id".to_string(), vec![1], time.clone()).unwrap();
    let second = manager.create_link("id".to_string(), vec![2], time).unwrap();
    assert_ne!(first, second);
    assert_eq!(first.len(), 54);
    let key = polygone_drive::base64url::decode_base64(&first).unwrap();
    assert_eq!(&key[..4], b"eph_");
    assert_eq!(key.len(), 40);
    for (i, byte) in key[4..].iter().enumerate() {
        if i == 8 || i == 13 || i == 18 || i == 23 {
            assert_eq!(*byte, b'-');
        } else {
            assert!(byte.is_ascii_digit() || (b'a'..=b'f').contains(byte));
        }
    }
    assert_eq!(key[4 + 14], b'4');
    assert_eq!(manager.validate_link(&first), Ok(Some(vec![1])));
    assert_eq!(manager.validate_link(&second), Ok(Some(vec![2])));
}

#[test]
fn link_times_out() {
    let mut manager = LinkManager::new();
    let time = LinkType::EphemeralTime { ttl_seconds: 10 };
    let token = manager.create_link_with(vec![4], time, 100, ZEROS);
    assert_eq!(token, "ZXBoXzAwMDAwMDAwLTAwMDAtNDAwMC04MDAwLTAwMDAwMDAwMDAwMA");
    assert_eq!(manager.validate_link_at(&token, 110), Some(vec![4]));
    assert_eq!(manager.validate_link_at(&token, 111), None);
    assert_eq!(manager.validate_link(&token), Ok(None));
}

#[test]
fn link_under_both_limits() {
    let mut manager = LinkManager::new();
    let both = LinkType::EphemeralBoth { ttl_seconds: 10, max_downloads: 1 };
    let token = manager.create_link_with(vec![4], both, 100, ZEROS);
    assert_eq!(manager.validate_link_at(&token, 105), Some(vec![4]));
    assert_eq!(manager.validate_link_at(&token, 105), None);
}

#[test]
fn later_link_under_the_same_key_replaces_the_earlier() {
    let mut manager = LinkManager::new();
    let usage = LinkType::EphemeralUsage { max_downloads: 1 };
    let first = manager.create_link_with(vec![1], usage.clone(), 100, ZEROS);
    let second = manager.create_link_with(vec![2], usage, 100, ZEROS);
    assert_eq!(first, second);
    assert_eq!(manager.validate_link_at(&first, 100), Some(vec![2]));
    assert_eq!(manager.validate_link_at(&first, 100), None);
}

#[test]
fn cleanup_forgets_expired_links_only() {
    let mut manager = LinkManager::new();
    let short = LinkType::EphemeralTime { ttl_seconds: 10 };
    let long = LinkType::EphemeralTime { ttl_seconds: 1000 };
    let a = manager.create_link_with(vec![1], short, 100, "0a1b2c3d-4e5f-4678-9abc-def012345678");
    let b = manager.create_link_with(vec![2], long.clone(), 100, "ffffffff-ffff-4fff-bfff-ffffffffffff");
    let c = manager.create_link_with(vec![3], long, 100, "12345678-9012-4345-a678-901234567890");
    manager.cleanup_expired_at(200);
    assert_eq!(manager.validate_link_at(&a, 105), None);
    assert_eq!(manager.validate_link_at(&b, 200), Some(vec![2]));
    assert_eq!(manager.validate_link_at(&c, 200), Some(vec![3]));
    assert_eq!(manager.cleanup_expired(), Ok(()));
    assert_eq!(manager.validate_link_at(&b, 200), None);
}

#[test]
fn permanent_link_gives_its_data() {
    let mut manager = LinkManager::new();
    let token = manager.create_link("id".to_string(), vec![1, 2, 3], LinkType::Permanent).unwrap();
    assert_eq!(manager.validate_link(&token), Ok(Some(vec![1, 2, 3])));
    assert_eq!(manager.validate_link(&token), Ok(Some(vec![1, 2, 3])));
}

#[test]
fn other_tokens_are_refused() {
    let mut manager = LinkManager::new();
    assert_eq!(manager.validate_link("not base64!"), Ok(None));
    // Written like a key, but not encoded.
    assert_eq!(manager.validate_link("eph_abcd"), Ok(None));
    // The key of no link.
    let unknown = write_token(b"eph_0a1b2c3d-4e5f-4678-9abc-def012345678");
    assert_eq!(manager.validate_link(&unknown), Ok(None));
    // Bytes whose token begins as a key does.
    let token = write_token(b"\x7a\x98\x7f");
    assert_eq!(token, "eph_");
    assert_eq!(manager.validate_link(&token), Ok(None));
}

#[test]
fn permanent_data_that_is_nearly_a_key_comes_back() {
    let mut manager = LinkManager::new();
    let nearly: [&[u8]; 8] = [
        b"",
        b"eph_",
        b"eph_unknown",
        b"eph_\xff",
        // One character short, and one too many.
        b"eph_00000000-0000-4000-8000-00000000000",
        b"eph_00000000-0000-4000-8000-0000000000000",
        // Another version, another variant.
        b"eph_00000000-0000-1000-8000-000000000000",
        b"eph_00000000-0000-4000-c000-000000000000",
    ];
    for data in nearly {
        let token =
            manager.create_link("id".to_string(), data.to_vec(), LinkType::Permanent).unwrap();
        assert_eq!(manager.validate_link(&token), Ok(Some(data.to_vec())));
    }
    let upper = b"eph_0000000A-0000-4000-8000-000000000000".to_vec();
    let token = write_token(&upper);
    assert_eq!(manager.validate_link(&token), Ok(Some(upper)));
    let unhyphened = b"eph_00000000_0000-4000-8000-000000000000".to_vec();
    let token = write_token(&unhyphened);
    assert_eq!(manager.validate_link(&token), Ok(Some(unhyphened)));
}

#[test]
fn permanent_link_to_a_map_comes_back() {
    let mut file_id = [0u8; 32];
    file_id[..4].copy_from_slice(b"eph_");
    let map = DriveMap {
        file_id,
        file_name: "a.txt".to_string(),
        num_chunks: 3,
        owner_pk: vec![1, 2],
    };
    let bytes = map.to_bytes();
    let mut manager = LinkManager::new();
    let token = manager.create_link("id".to_string(), bytes.clone(), LinkType::Permanent).unwrap();
    assert_eq!(manager.validate_link(&token), Ok(Some(bytes)));
}

#[test]
fn counters_have_room() {
    let mut manager = LinkManager::new();
    assert!(manager.is_countable("not base64!"));
    let time = LinkType::EphemeralTime { ttl_seconds: 10 };
    let token = manager.create_link_with(vec![4], time, 100, ZEROS);
    assert_eq!(manager.validate_link_at(&token, 101), Some(vec![4]));
    assert!(manager.is_countable(&token));
    assert!(manager.is_countable(&write_token(b"permanent")));
}

#[test]
fn cleanup_of_no_links_does_nothing() {
    let mut manager = LinkManager::new();
    assert_eq!(manager.cleanup_expired(), Ok(()));
    let time = LinkType::EphemeralTime { ttl_seconds: 10 };
    let token = manager.create_link_with(vec![4], time, 100, ZEROS);
    assert_eq!(manager.validate_link_at(&token, 101), Some(vec![4]));
}
