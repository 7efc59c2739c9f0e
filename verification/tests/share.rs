use polygone_drive::links::EphemeralLink;
use polygone_drive::share::{
    open_link, open_link_at, read_token, share, share_address, share_at, token_lines, write_token,
    Payload, Shared,
};

fn map_bytes_of(payload: Option<Payload>) -> Option<Vec<u8>> {
    match payload {
        Some(Payload::MapBytes(bytes)) => Some(bytes),
        _ => None,
    }
}

#[test]
fn token_carries_a_map() {
    let token = write_token(&[1, 2, 3]);
    assert_eq!(map_bytes_of(read_token(&token)), Some(vec![1, 2, 3]));
    let address = share_address(&token);
    assert_eq!(address, "poly://AQID");
    assert_eq!(map_bytes_of(read_token(&address)), Some(vec![1, 2, 3]));
}

#[test]
fn token_carries_a_link() {
    let text = b"{\"map_data\":[1,2]}".to_vec();
    match read_token(&write_token(&text)) {
        Some(Payload::LinkText(bytes)) => assert_eq!(bytes, text),
        _ => panic!("not read as a link"),
    }
    let other = b"{\"map_date\":[1,2]}".to_vec();
    assert_eq!(map_bytes_of(read_token(&write_token(&other))), Some(other));
}

#[test]
fn broken_token_is_refused() {
    assert!(read_token("poly://a").is_none());
    assert!(read_token("poly:/AQID").is_none());
    assert!(read_token("AQ ID").is_none());
}

#[test]
fn permanent_share_is_the_map() {
    match share(vec![1, 2], false, 3600, 10) {
        Ok(Shared::MapBytes(bytes)) => assert_eq!(bytes, vec![1, 2]),
        _ => panic!("not shared as it is"),
    }
}

#[test]
fn ephemeral_share_is_a_link() {
    match share_at(vec![1, 2], true, 3600, 10, 77) {
        Shared::Link(link) => {
            assert_eq!(link.map_data, vec![1, 2]);
            assert_eq!(link.created_at, 77);
            assert_eq!(link.ttl_seconds, 3600);
            assert_eq!(link.max_downloads, 10);
            assert_eq!(link.downloads, 0);
        }
        Shared::MapBytes(_) => panic!("not shared as a link"),
    }
    match share(vec![1, 2], true, 3600, 10) {
        Ok(Shared::Link(link)) => assert_eq!(open_link(link), Ok(Some(vec![1, 2]))),
        _ => panic!("not shared as a link"),
    }
}

#[test]
fn expired_link_is_not_opened() {
    let link = EphemeralLink::new_at(vec![1, 2], 10, 0, 100);
    assert_eq!(open_link_at(link.clone(), 110), Some(vec![1, 2]));
    assert_eq!(open_link_at(link.clone(), 111), None);
    assert_eq!(open_link(link), Ok(None));
}

#[test]
fn token_in_two_lines() {
    let long = "x".repeat(40) + "yz";
    assert_eq!(token_lines(&long), ("x".repeat(40), Some("yz".to_string())));
    let short = "x".repeat(40);
    assert_eq!(token_lines(&short), (short.clone(), None));
}
