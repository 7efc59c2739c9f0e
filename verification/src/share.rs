//! The tokens by which a map is handed on, and what they carry.

use crate::base64url::{
    base64_bytes, base64_fits, base64_round_trip, base64_text, base64_text_is_ascii, decode_base64,
    encode_base64,
};
use crate::clock::{clock_shows, unix_now, ClockError};
use crate::drive_map::{map_round_trip, read_map, MapModel};
use crate::links::{EphemeralLink, LinkModel};
use crate::text::{bytes_start_with, contents, text_starts_with};
use vstd::prelude::*;
use vstd::utf8::{encode_utf8, is_ascii_chars};

verus! {

/// What is to be written into a token.
pub enum Shared {
    /// The bytes of a map.
    MapBytes(Vec<u8>),
    /// A link around the bytes of a map.
    Link(EphemeralLink),
}

/// What a token carries.
pub enum Payload {
    /// The bytes of a map.
    MapBytes(Vec<u8>),
    /// The JSON text of a link.
    LinkText(Vec<u8>),
}

impl Payload {
    /// The bytes carried.
    pub open spec fn bytes(self) -> Seq<u8> {
        match self {
            Payload::MapBytes(bytes) => bytes@,
            Payload::LinkText(bytes) => bytes@,
        }
    }
}

/// How the JSON text of a link begins.
pub open spec fn is_link_text(bytes: Seq<u8>) -> bool {
    encode_utf8("{\"map_data\""@).is_prefix_of(bytes)
}

/// The token without the scheme that it may be written with.
pub open spec fn bare_token(text: Seq<char>) -> Seq<char> {
    if "poly://"@.is_prefix_of(text) {
        text.skip("poly://"@.len() as int)
    } else {
        text
    }
}

/// The bytes that a token or its address carries, and whether they are the text of a link.
pub open spec fn carried(text: Seq<char>) -> Option<(Seq<u8>, bool)> {
    match base64_bytes(bare_token(text)) {
        Some(bytes) => Some((bytes, is_link_text(bytes))),
        None => None,
    }
}

/// What to share at the time `now`: the map as it is, or an ephemeral link around it.
pub fn share_at(
    map_bytes: Vec<u8>,
    ephemeral: bool,
    ttl_seconds: u64,
    max_downloads: u32,
    now: u64,
) -> (shared: Shared)
    ensures
        match shared {
            Shared::MapBytes(bytes) => !ephemeral && bytes == map_bytes,
            Shared::Link(link) => {
                &&& ephemeral
                &&& link.map_data == map_bytes
                &&& link.created_at == now
                &&& link.ttl_seconds == ttl_seconds
                &&& link.max_downloads == max_downloads
                &&& link.downloads == 0
                &&& link@ == LinkModel::fresh(
                    map_bytes@,
                    now as nat,
                    ttl_seconds as nat,
                    max_downloads as nat,
                )
            },
        },
{
    if ephemeral {
        Shared::Link(EphemeralLink::new_at(map_bytes, ttl_seconds, max_downloads, now))
    } else {
        Shared::MapBytes(map_bytes)
    }
}

/// What to share at the time that the clock shows. The clock is asked only for an
/// ephemeral link.
pub fn share(map_bytes: Vec<u8>, ephemeral: bool, ttl_seconds: u64, max_downloads: u32) -> (shared:
    Result<Shared, ClockError>)
    ensures
        !ephemeral ==> shared == Ok::<_, ClockError>(Shared::MapBytes(map_bytes)),
        ephemeral ==> match shared {
            Ok(Shared::Link(link)) => {
                &&& clock_shows(Ok(link.created_at))
                &&& link.map_data == map_bytes
                &&& link.ttl_seconds == ttl_seconds
                &&& link.max_downloads == max_downloads
                &&& link.downloads == 0
                &&& link@ == LinkModel::fresh(
                    map_bytes@,
                    link@.created_at,
                    ttl_seconds as nat,
                    max_downloads as nat,
                )
            },
            Ok(Shared::MapBytes(_)) => false,
            Err(error) => clock_shows(Err(error)),
        },
{
    if !ephemeral {
        return Ok(Shared::MapBytes(map_bytes));
    }
    match unix_now() {
        Ok(now) => Ok(share_at(map_bytes, ephemeral, ttl_seconds, max_downloads, now)),
        Err(error) => Err(error),
    }
}

/// The token that carries `payload`.
pub fn write_token(payload: &[u8]) -> (token: String)
    requires
        base64_fits(payload@.len()),
    ensures
        token@ == base64_text(payload@),
        is_ascii_chars(token@),
{
    proof {
        base64_text_is_ascii(payload@);
    }
    encode_base64(payload)
}

/// The address by which a token is handed on.
pub fn share_address(token: &str) -> (address: String)
    ensures
        address@ == "poly://"@ + token@,
{
    let mut address: String = "poly://".to_owned();
    address.append(token);
    address
}

/// The token in two lines: the first forty characters, and the rest if there is any.
pub fn token_lines(token: &str) -> (lines: (String, Option<String>))
    requires
        is_ascii_chars(token@),
        token@.len() >= 40,
    ensures
        lines.0@ == token@.take(40),
        match lines.1 {
            Some(rest) => token@.len() > 40 && rest@ == token@.skip(40),
            None => token@.len() == 40,
        },
{
    let length: usize = token.unicode_len();
    let first = token.substring_ascii(0, 40).to_owned();
    assert(token@.subrange(0, 40) =~= token@.take(40));
    if length > 40 {
        let rest = token.substring_ascii(40, length).to_owned();
        assert(token@.subrange(40, length as int) =~= token@.skip(40));
        (first, Some(rest))
    } else {
        (first, None)
    }
}

/// No token begins as an address does.
proof fn lemma_token_is_no_address(payload: Seq<u8>)
    ensures
        !"poly://"@.is_prefix_of(base64_text(payload)),
{
    reveal_strlit("poly://");
    let token = base64_text(payload);
    if "poly://"@.is_prefix_of(token) {
        assert(token[4] == token.subrange(0, 7)[4]);
        assert(token[4] == ':');
        assert(token[4] == crate::base64url::base64_symbol(crate::base64url::sextet(payload, 4)));
    }
}

/// What an address leads to, and what is no address.
proof fn lemma_addresses(text: Seq<char>)
    ensures
        "poly://"@.is_prefix_of(text) ==> text == "poly://"@ + text.skip("poly://"@.len() as int),
        forall|bytes: Seq<u8>|
            "poly://"@.is_prefix_of(text) ==> text != #[trigger] base64_text(bytes),
        forall|bytes: Seq<u8>|
            text == "poly://"@ + #[trigger] base64_text(bytes) ==> "poly://"@.is_prefix_of(text)
                && text.skip("poly://"@.len() as int) == base64_text(bytes),
{
    let n = "poly://"@.len() as int;
    if "poly://"@.is_prefix_of(text) {
        assert(text.subrange(0, n) =~= "poly://"@);
        assert(text =~= "poly://"@ + text.skip(n));
    }
    assert forall|bytes: Seq<u8>| "poly://"@.is_prefix_of(text) implies text
        != #[trigger] base64_text(bytes) by {
        lemma_token_is_no_address(bytes);
    }
    assert forall|bytes: Seq<u8>| text == "poly://"@ + #[trigger] base64_text(bytes) implies
        "poly://"@.is_prefix_of(text) && text.skip(n) == base64_text(bytes) by {
        assert(text.subrange(0, n) =~= "poly://"@);
        assert(text.skip(n) =~= base64_text(bytes));
    }
}

/// What `text`, a token or its address, carries; `None` where it is no token.
pub fn read_token(text: &str) -> (payload: Option<Payload>)
    ensures
        match payload {
            Some(payload) => carried(text@) == Some((payload.bytes(), payload is LinkText)),
            None => carried(text@) is None,
        },
        match payload {
            Some(Payload::LinkText(bytes)) => {
                &&& text@ == base64_text(bytes@) || text@ == "poly://"@ + base64_text(bytes@)
                &&& encode_utf8("{\"map_data\""@).is_prefix_of(bytes@)
            },
            Some(Payload::MapBytes(bytes)) => {
                &&& text@ == base64_text(bytes@) || text@ == "poly://"@ + base64_text(bytes@)
                &&& !encode_utf8("{\"map_data\""@).is_prefix_of(bytes@)
            },
            None => forall|bytes: Seq<u8>|
                {
                    &&& text@ != #[trigger] base64_text(bytes)
                    &&& text@ != "poly://"@ + base64_text(bytes)
                },
        },
{
    proof {
        lemma_addresses(text@);
    }
    let decoded = if text_starts_with(text, "poly://") {
        let scheme: usize = "poly://".unicode_len();
        let length: usize = text.unicode_len();
        assert(text@.subrange(scheme as int, length as int) =~= text@.skip(scheme as int));
        decode_base64(text.substring_char(scheme, length))
    } else {
        decode_base64(text)
    };
    match decoded {
        Some(bytes) => if bytes_start_with(bytes.as_slice(), "{\"map_data\"".as_bytes()) {
            Some(Payload::LinkText(bytes))
        } else {
            Some(Payload::MapBytes(bytes))
        },
        None => None,
    }
}

/// The map that a link carries, unless the link has expired at the time `now`.
pub fn open_link_at(link: EphemeralLink, now: u64) -> (map_bytes: Option<Vec<u8>>)
    ensures
        match map_bytes {
            Some(bytes) => !link@.expired(now as nat) && bytes == link.map_data,
            None => link@.expired(now as nat),
        },
        match map_bytes {
            Some(bytes) => {
                &&& bytes == link.map_data
                &&& link.ttl_seconds == 0 || now <= link.created_at + link.ttl_seconds
                &&& link.max_downloads == 0 || link.downloads < link.max_downloads
            },
            None => {
                ||| link.ttl_seconds > 0 && now > link.created_at + link.ttl_seconds
                ||| link.max_downloads > 0 && link.downloads >= link.max_downloads
            },
        },
{
    if link.is_expired_at(now) {
        None
    } else {
        Some(link.map_data)
    }
}

/// The map that a link carries, unless the link has expired at the time that the clock
/// shows.
pub fn open_link(link: EphemeralLink) -> (map_bytes: Result<Option<Vec<u8>>, ClockError>)
    ensures
        match map_bytes {
            Ok(map_bytes) => exists|now: u64| #[trigger]
                clock_shows(Ok(now)) && contents(map_bytes) == (if link@.expired(now as nat) {
                    None
                } else {
                    Some(link@.map_data)
                }) && match map_bytes {
                    Some(bytes) => {
                        &&& bytes == link.map_data
                        &&& link.ttl_seconds == 0 || now <= link.created_at + link.ttl_seconds
                        &&& link.max_downloads == 0 || link.downloads < link.max_downloads
                    },
                    None => {
                        ||| link.ttl_seconds > 0 && now > link.created_at + link.ttl_seconds
                        ||| link.max_downloads > 0 && link.downloads >= link.max_downloads
                    },
                },
            Err(error) => clock_shows(Err(error)),
        },
{
    match unix_now() {
        Ok(now) => {
            assert(clock_shows(Ok(now)));
            Ok(open_link_at(link, now))
        },
        Err(error) => Err(error),
    }
}

/// A token is read as the bytes that it was written from, bare or as an address.
pub proof fn token_round_trip(payload: Seq<u8>)
    ensures
        carried(base64_text(payload)) == Some((payload, is_link_text(payload))),
        carried("poly://"@ + base64_text(payload)) == Some((payload, is_link_text(payload))),
{
    reveal_strlit("poly://");
    base64_round_trip(payload);
    let token = base64_text(payload);
    let address = "poly://"@ + token;
    assert("poly://"@ =~= address.subrange(0, 7));
    assert(address.skip(7) =~= token);
    lemma_token_is_no_address(payload);
}

/// The texts that carry bytes are their token and its address. No other text carries
/// anything.
pub proof fn tokens_and_addresses_carry_bytes(text: Seq<char>)
    ensures
        match carried(text) {
            Some((bytes, link)) => text == base64_text(bytes) || text == "poly://"@ + base64_text(
                bytes,
            ),
            None => forall|bytes: Seq<u8>|
                {
                    &&& text != #[trigger] base64_text(bytes)
                    &&& text != "poly://"@ + base64_text(bytes)
                },
        },
{
    lemma_addresses(text);
}

/// Whatever is written into a token, however long it is, is read as the text of a link if it
/// begins as one does, and as a map if it does not; from the address too.
pub proof fn link_text_is_told_from_a_map(payload: Seq<u8>, rest: Seq<u8>)
    ensures
        ({
            let link = encode_utf8("{\"map_data\""@) + rest;
            &&& carried(base64_text(link)) == Some((link, true))
            &&& carried("poly://"@ + base64_text(link)) == Some((link, true))
        }),
        !encode_utf8("{\"map_data\""@).is_prefix_of(payload) ==> {
            &&& carried(base64_text(payload)) == Some((payload, false))
            &&& carried("poly://"@ + base64_text(payload)) == Some((payload, false))
        },
{
    let start = encode_utf8("{\"map_data\""@);
    let link = start + rest;
    assert(start =~= link.subrange(0, start.len() as int));
    token_round_trip(link);
    token_round_trip(payload);
}

/// A map that is shared as it is comes back from its token and from its address. A map
/// whose bytes begin as the text of a link does is left out.
pub proof fn shared_map_comes_back(map: MapModel)
    requires
        map.valid(),
        !encode_utf8("{\"map_data\""@).is_prefix_of(map.layout()),
    ensures
        ({
            let token = base64_text(map.layout());
            &&& carried(token) == Some((map.layout(), false))
            &&& carried("poly://"@ + token) == Some((map.layout(), false))
            &&& read_map(map.layout()) == Some(map)
        }),
{
    token_round_trip(map.layout());
    map_round_trip(map, Seq::empty());
    assert(map.layout() + Seq::<u8>::empty() =~= map.layout());
}

} // verus!
