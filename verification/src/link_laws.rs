//! What holds of share links as a whole.

use crate::base64url::{
    base64_bytes, base64_first_bytes, base64_round_trip, base64_symbol, base64_text,
};
use crate::drive_map::{layout_length, MapModel};
use crate::links::{
    countable, ephemeral_key, ephemeral_key_is_key, is_ephemeral, is_ephemeral_key, is_uuid_text,
    key_length, key_token, named_key, names_link, unexpired, validation, EphemeralLink, LinkModel,
    LinkType,
};
use vstd::prelude::*;
use vstd::utf8::{decode_utf8, encode_utf8, valid_utf8};

verus! {

/// The token of a registered link names the key that the link is registered under.
pub proof fn token_names_its_key(uuid: Seq<char>)
    requires
        is_uuid_text(uuid),
    ensures
        named_key(key_token(ephemeral_key(uuid))) == Some(ephemeral_key(uuid)),
{
    let key = ephemeral_key(uuid);
    let bytes = encode_utf8(key);
    base64_round_trip(bytes);
    vstd::utf8::encode_utf8_valid_utf8(key);
    vstd::utf8::encode_utf8_decode_utf8(key);
    ephemeral_key_is_key(uuid);
}

/// Different keys have different tokens.
pub proof fn tokens_are_distinct(a: Seq<char>, b: Seq<char>)
    requires
        key_token(a) == key_token(b),
    ensures
        a == b,
{
    base64_round_trip(encode_utf8(a));
    base64_round_trip(encode_utf8(b));
    vstd::utf8::encode_utf8_decode_utf8(a);
    vstd::utf8::encode_utf8_decode_utf8(b);
}

/// A link gives the bytes that it was made with, and counts the download, as long as it
/// has not expired.
pub proof fn created_link_gives_its_data(
    links: Map<Seq<char>, LinkModel>,
    uuid: Seq<char>,
    link: LinkModel,
    now: nat,
)
    requires
        is_uuid_text(uuid),
        !link.expired(now),
    ensures
        ({
            let key = ephemeral_key(uuid);
            validation(links.insert(key, link), key_token(key), now) == (
                Some(link.map_data),
                links.insert(key, link.downloaded()),
            )
        }),
{
    let key = ephemeral_key(uuid);
    let with_link = links.insert(key, link);
    token_names_its_key(uuid);
    assert(with_link.insert(key, link.downloaded()) =~= links.insert(key, link.downloaded()));
}

/// The token of a link that has expired, or that is not registered, is refused, and
/// nothing is counted.
pub proof fn expired_or_unknown_link_is_refused(
    links: Map<Seq<char>, LinkModel>,
    token: Seq<char>,
    now: nat,
)
    requires
        named_key(token) matches Some(key) && (links.contains_key(key) ==> links[key].expired(now)),
    ensures
        validation(links, token, now) == (None::<Seq<u8>>, links),
{
}

/// Once a link has expired, it stays so: later, and whatever is counted.
pub proof fn expiry_is_final(link: LinkModel, now: nat, later: nat)
    requires
        link.expired(now),
        now <= later,
    ensures
        link.expired(later),
        link.downloaded().expired(later),
{
}

/// The links after a token was presented at each of `times` in turn.
pub open spec fn presented(
    links: Map<Seq<char>, LinkModel>,
    token: Seq<char>,
    times: Seq<nat>,
) -> Map<Seq<char>, LinkModel>
    decreases times.len(),
{
    if times.len() == 0 {
        links
    } else {
        validation(presented(links, token, times.drop_last()), token, times.last()).1
    }
}

/// A link with a download limit gives its bytes exactly that often: after the token was
/// presented `times.len()` times before the time limit, it is good once more if and only
/// if the download limit lies above that number.
pub proof fn download_limit_is_kept(
    links: Map<Seq<char>, LinkModel>,
    uuid: Seq<char>,
    link: LinkModel,
    times: Seq<nat>,
    now: nat,
)
    requires
        is_uuid_text(uuid),
        link.max_downloads > 0,
        link.downloads == 0,
        forall|i: int| 0 <= i < times.len() ==> !link.timed_out(#[trigger] times[i]),
        !link.timed_out(now),
    ensures
        ({
            let key = ephemeral_key(uuid);
            let after = presented(links.insert(key, link), key_token(key), times);
            &&& after.contains_key(key)
            &&& validation(after, key_token(key), now).0 == if times.len() < link.max_downloads {
                Some(link.map_data)
            } else {
                None
            }
        }),
{
    lemma_downloads_counted(links, uuid, link, times);
    token_names_its_key(uuid);
}

proof fn lemma_downloads_counted(
    links: Map<Seq<char>, LinkModel>,
    uuid: Seq<char>,
    link: LinkModel,
    times: Seq<nat>,
)
    requires
        is_uuid_text(uuid),
        link.max_downloads > 0,
        link.downloads == 0,
        forall|i: int| 0 <= i < times.len() ==> !link.timed_out(#[trigger] times[i]),
    ensures
        ({
            let key = ephemeral_key(uuid);
            let after = presented(links.insert(key, link), key_token(key), times);
            &&& after.contains_key(key)
            &&& after[key] == LinkModel {
                downloads: if times.len() < link.max_downloads {
                    times.len()
                } else {
                    link.max_downloads
                },
                ..link
            }
        }),
    decreases times.len(),
{
    if times.len() > 0 {
        assert forall|i: int| 0 <= i < times.drop_last().len() implies !link.timed_out(
            #[trigger] times.drop_last()[i],
        ) by {
            assert(times.drop_last()[i] == times[i]);
        }
        assert(!link.timed_out(times[times.len() - 1]));
        lemma_downloads_counted(links, uuid, link, times.drop_last());
        token_names_its_key(uuid);
    }
}

/// Forgetting the links that have expired changes no later answer.
pub proof fn cleanup_changes_no_answer(
    links: Map<Seq<char>, LinkModel>,
    token: Seq<char>,
    now: nat,
    later: nat,
)
    requires
        now <= later,
    ensures
        validation(unexpired(links, now), token, later).0 == validation(links, token, later).0,
        unexpired(validation(unexpired(links, now), token, later).1, later) == unexpired(
            validation(links, token, later).1,
            later,
        ),
{
    let cleaned = unexpired(links, now);
    assert forall|key: Seq<char>| links.contains_key(key) && !links[key].expired(
        later,
    ) implies !links[key].expired(now) by {
        if links[key].expired(now) {
            expiry_is_final(links[key], now, later);
        }
    }
    assert(unexpired(cleaned, later) =~= unexpired(links, later));
    if names_link(links, token) {
        let key = named_key(token).unwrap();
        if links[key].expired(now) {
            expiry_is_final(links[key], now, later);
        } else {
            let link = links[key].downloaded();
            assert(unexpired(cleaned.insert(key, link), later) =~= unexpired(
                links.insert(key, link),
                later,
            ));
        }
    }
}

/// A token changes no link but the one that it names.
pub proof fn other_links_are_untouched(
    links: Map<Seq<char>, LinkModel>,
    token: Seq<char>,
    now: nat,
    key: Seq<char>,
)
    requires
        named_key(token) != Some(key),
    ensures
        ({
            let after = validation(links, token, now).1;
            &&& after.contains_key(key) == links.contains_key(key)
            &&& links.contains_key(key) ==> after[key] == links[key]
        }),
{
}

/// The token of a permanent link gives the shared bytes back at any time and changes no
/// link. Bytes that are the key of a link, or whose token begins as a key does, are left
/// out: such a token speaks of an ephemeral link.
pub proof fn permanent_link_gives_its_data(
    links: Map<Seq<char>, LinkModel>,
    data: Seq<u8>,
    now: nat,
)
    requires
        !is_ephemeral(base64_text(data), data),
    ensures
        validation(links, base64_text(data), now) == (Some(data), links),
{
    base64_round_trip(data);
}

/// The bytes of a map are longer than any key, so that the token of a permanent link to a
/// map gives the map back, unless the token begins as a key does.
pub proof fn permanent_link_gives_its_map(
    links: Map<Seq<char>, LinkModel>,
    map: MapModel,
    now: nat,
)
    requires
        map.valid(),
        !"eph_"@.is_prefix_of(base64_text(map.layout())),
    ensures
        validation(links, base64_text(map.layout()), now) == (Some(map.layout()), links),
{
    let bytes = map.layout();
    if valid_utf8(bytes) && is_ephemeral_key(decode_utf8(bytes)) {
        let key = decode_utf8(bytes);
        key_length(key);
        vstd::utf8::decode_utf8_encode_utf8(bytes);
        layout_length(map);
    }
    permanent_link_gives_its_data(links, bytes, now);
}

/// A token that is itself written like a key is always refused: the bytes that it
/// carries are no text.
pub proof fn unencoded_key_is_refused(
    links: Map<Seq<char>, LinkModel>,
    token: Seq<char>,
    now: nat,
)
    requires
        "eph_"@.is_prefix_of(token),
    ensures
        validation(links, token, now) == (None::<Seq<u8>>, links),
{
    if let Some(bytes) = base64_bytes(token) {
        assert(base64_text(bytes) == token);
        lemma_key_like_token_is_no_text(token, bytes);
    }
}

proof fn lemma_key_like_token_is_no_text(token: Seq<char>, bytes: Seq<u8>)
    requires
        "eph_"@.is_prefix_of(token),
        base64_text(bytes) == token,
    ensures
        !valid_utf8(bytes),
{
    reveal_strlit("eph_");
    let v = seq![30int, 41, 33, 63];
    assert forall|i: int| 0 <= i < 4 implies base64_text(bytes)[i] == base64_symbol(
        #[trigger] v[i],
    ) by {
        assert(token[i] == token.subrange(0, 4)[i]);
    }
    base64_first_bytes(bytes, v);
    assert(bytes[0] == 0x7a && bytes[1] == 0x98);
    let rest = vstd::utf8::pop_first_scalar(bytes);
    assert(vstd::utf8::is_leading_byte_width_1(0x7au8)) by (bit_vector);
    assert(rest[0] == 0x98);
    assert(!vstd::utf8::is_leading_byte_width_1(0x98u8)) by (bit_vector);
    assert(!vstd::utf8::is_leading_byte_width_2(0x98u8)) by (bit_vector);
    assert(!vstd::utf8::is_leading_byte_width_3(0x98u8)) by (bit_vector);
    assert(!vstd::utf8::is_leading_byte_width_4(0x98u8)) by (bit_vector);
    assert(!valid_utf8(rest));
    assert(!valid_utf8(bytes));
}

/// The time left reaches zero when the time limit does, one second before the link times
/// out; a link that has timed out has no time left.
pub proof fn time_left_agrees_with_expiry(link: LinkModel, now: nat)
    requires
        link.ttl_seconds > 0,
    ensures
        link.time_left(now) == 0 <==> now >= link.created_at + link.ttl_seconds,
        link.timed_out(now) ==> link.time_left(now) == 0,
{
}

/// A link with a download limit is used up exactly when no downloads are left, and each
/// download takes one away.
pub proof fn downloads_left_agrees_with_expiry(link: LinkModel)
    requires
        link.max_downloads > 0,
    ensures
        link.used_up() <==> link.downloads_left() == 0,
        !link.used_up() ==> link.downloaded().downloads_left() == link.downloads_left() - 1,
{
}

/// Registering a link and forgetting expired ones leave room to count downloads.
pub proof fn counters_keep_their_room(
    links: Map<Seq<char>, LinkModel>,
    token: Seq<char>,
    key: Seq<char>,
    link: LinkModel,
    now: nat,
)
    requires
        countable(links, token),
        link.downloads == 0,
    ensures
        countable(links.insert(key, link), token),
        countable(unexpired(links, now), token),
{
}

/// A link is seen as what its fields hold.
pub proof fn link_is_seen_as_its_fields(link: EphemeralLink)
    ensures
        link@.map_data == link.map_data@,
        link@.created_at == link.created_at,
        link@.ttl_seconds == link.ttl_seconds,
        link@.max_downloads == link.max_downloads,
        link@.downloads == link.downloads,
{
}

/// A link that nobody has used has been used no times, and is otherwise what it was made
/// with.
pub proof fn fresh_link_is_unused(data: Seq<u8>, created_at: nat, ttl: nat, limit: nat)
    ensures
        ({
            let link = LinkModel::fresh(data, created_at, ttl, limit);
            &&& link.map_data == data
            &&& link.created_at == created_at
            &&& link.ttl_seconds == ttl
            &&& link.max_downloads == limit
            &&& link.downloads == 0
        }),
{
}

/// A download adds one to the count and changes nothing else.
pub proof fn download_counts_one(link: LinkModel)
    ensures
        link.downloaded().downloads == link.downloads + 1,
        link.downloaded().map_data == link.map_data,
        link.downloaded().created_at == link.created_at,
        link.downloaded().ttl_seconds == link.ttl_seconds,
        link.downloaded().max_downloads == link.max_downloads,
{
}

/// A time limit ends a link whatever the other limit is and however often the link was
/// used, and not before: the last second is the one that the time limit leads to.
pub proof fn time_limit_ends_every_link(link: LinkModel, now: nat)
    requires
        link.ttl_seconds > 0,
    ensures
        now > link.created_at + link.ttl_seconds ==> link.expired(now),
        now <= link.created_at + link.ttl_seconds && link.downloads < link.max_downloads
            ==> !link.expired(now),
        now <= link.created_at + link.ttl_seconds && link.max_downloads == 0 ==> !link.expired(now),
{
}

/// A download limit ends a link whatever the time is and whatever the other limit is, and
/// not before the limit is reached.
pub proof fn download_limit_ends_every_link(link: LinkModel, now: nat)
    requires
        link.max_downloads > 0,
    ensures
        link.downloads >= link.max_downloads ==> link.expired(now),
        link.downloads < link.max_downloads && link.ttl_seconds == 0 ==> !link.expired(now),
        link.downloads < link.max_downloads && now <= link.created_at + link.ttl_seconds
            ==> !link.expired(now),
{
}

/// A link without limits never ends.
pub proof fn link_without_limits_never_ends(link: LinkModel, now: nat)
    requires
        link.ttl_seconds == 0,
        link.max_downloads == 0,
    ensures
        !link.expired(now),
{
}

/// The time left and the time gone by make the time limit, as long as the one lasts; a
/// clock behind the link's beginning takes nothing away.
pub proof fn time_left_and_time_gone_make_the_limit(link: LinkModel, now: nat)
    ensures
        link.ttl_seconds == 0 ==> link.time_left(now) == u64::MAX,
        link.ttl_seconds > 0 && now < link.created_at ==> link.time_left(now) == link.ttl_seconds,
        link.ttl_seconds > 0 && link.created_at <= now <= link.created_at + link.ttl_seconds
            ==> link.time_left(now) + (now - link.created_at) == link.ttl_seconds,
        link.ttl_seconds > 0 && now > link.created_at + link.ttl_seconds ==> link.time_left(now)
            == 0,
{
}

/// The downloads left and those counted make the download limit, up to the limit.
pub proof fn downloads_left_and_counted_make_the_limit(link: LinkModel)
    ensures
        link.max_downloads == 0 ==> link.downloads_left() == u32::MAX,
        0 < link.max_downloads && link.downloads <= link.max_downloads ==> link.downloads_left()
            + link.downloads == link.max_downloads,
        0 < link.max_downloads < link.downloads ==> link.downloads_left() == 0,
{
}

/// A type of link has the limits that it names, and no others.
pub proof fn link_type_has_the_limits_it_names(ttl_seconds: u64, max_downloads: u32)
    ensures
        LinkType::Permanent.ttl() == 0,
        LinkType::Permanent.limit() == 0,
        (LinkType::EphemeralTime { ttl_seconds }).ttl() == ttl_seconds,
        (LinkType::EphemeralTime { ttl_seconds }).limit() == 0,
        (LinkType::EphemeralUsage { max_downloads }).ttl() == 0,
        (LinkType::EphemeralUsage { max_downloads }).limit() == max_downloads,
        (LinkType::EphemeralBoth { ttl_seconds, max_downloads }).ttl() == ttl_seconds,
        (LinkType::EphemeralBoth { ttl_seconds, max_downloads }).limit() == max_downloads,
{
}

/// The texts of random UUIDs: thirty-six characters, hyphens at four places and lower-case
/// hexadecimal digits at all others, a four as the mark of the version and one of four
/// digits as the mark of the variant.
pub proof fn uuid_texts(text: Seq<char>)
    requires
        text.len() == 36,
    ensures
        is_uuid_text(text) <==> {
            &&& forall|i: int|
                0 <= i < 36 ==> (#[trigger] text[i] == '-' <==> seq![8int, 13, 18, 23].contains(i))
            &&& forall|i: int|
                0 <= i < 36 ==> "0123456789abcdef-"@.contains(#[trigger] text[i])
            &&& text[14] == '4'
            &&& "89ab"@.contains(text[19])
        },
{
    reveal_strlit("0123456789abcdef-");
    reveal_strlit("89ab");
    let digits = "0123456789abcdef-"@;
    let marks = "89ab"@;
    let hyphens = seq![8int, 13, 18, 23];
    assert(hyphens[0] == 8 && hyphens[1] == 13 && hyphens[2] == 18 && hyphens[3] == 23);
    assert(marks[0] == '8' && marks[1] == '9' && marks[2] == 'a' && marks[3] == 'b');
    assert forall|c: char| #[trigger] digits.contains(c) <==> ('0' <= c <= '9') || ('a' <= c
        <= 'f') || c == '-' by {
        if '0' <= c <= '9' {
            assert(digits[c as int - '0' as int] == c);
        } else if 'a' <= c <= 'f' {
            assert(digits[c as int - 'a' as int + 10] == c);
        } else if c == '-' {
            assert(digits[16] == c);
        }
    }
}

/// A text of another length is no UUID.
pub proof fn uuid_texts_have_one_length(text: Seq<char>)
    ensures
        is_uuid_text(text) ==> text.len() == 36,
{
}

/// What the token of a link gives, whatever else is registered: the link's bytes, with one
/// download counted, if the link is registered, its time is not over and its downloads are
/// not used up; else nothing.
pub proof fn link_token_gives_the_link(
    links: Map<Seq<char>, LinkModel>,
    uuid: Seq<char>,
    now: nat,
)
    requires
        is_uuid_text(uuid),
    ensures
        ({
            let key = "eph_"@ + uuid;
            let link = links[key];
            let answer = validation(links, base64_text(encode_utf8(key)), now);
            let live = {
                &&& links.contains_key(key)
                &&& link.ttl_seconds == 0 || now <= link.created_at + link.ttl_seconds
                &&& link.max_downloads == 0 || link.downloads < link.max_downloads
            };
            &&& live ==> answer.0 == Some(link.map_data)
            &&& live ==> answer.1 == links.insert(
                key,
                (LinkModel {
                    map_data: link.map_data,
                    created_at: link.created_at,
                    ttl_seconds: link.ttl_seconds,
                    max_downloads: link.max_downloads,
                    downloads: link.downloads + 1,
                }),
            )
            &&& !live ==> answer == (None::<Seq<u8>>, links)
        }),
{
    token_names_its_key(uuid);
    base64_round_trip(encode_utf8("eph_"@ + uuid));
}

/// A token that carries bytes gives them and changes nothing, unless it begins as a key does
/// or the bytes are the key of some link, registered or not.
pub proof fn data_token_gives_the_data(
    links: Map<Seq<char>, LinkModel>,
    data: Seq<u8>,
    now: nat,
)
    requires
        !"eph_"@.is_prefix_of(base64_text(data)),
        forall|uuid: Seq<char>|
            is_uuid_text(uuid) ==> data != #[trigger] encode_utf8("eph_"@ + uuid),
    ensures
        validation(links, base64_text(data), now) == (Some(data), links),
{
    base64_round_trip(data);
    if valid_utf8(data) && is_ephemeral_key(decode_utf8(data)) {
        let key = decode_utf8(data);
        let n = "eph_"@.len() as int;
        let uuid = key.skip(n);
        assert(key.subrange(0, n) =~= "eph_"@);
        assert(key =~= "eph_"@ + uuid);
        vstd::utf8::decode_utf8_encode_utf8(data);
        assert(data == encode_utf8("eph_"@ + uuid));
    }
}

/// A text that is no token gives nothing and changes nothing.
pub proof fn other_text_gives_nothing(
    links: Map<Seq<char>, LinkModel>,
    text: Seq<char>,
    now: nat,
)
    requires
        forall|bytes: Seq<u8>| #[trigger] base64_text(bytes) != text,
    ensures
        validation(links, text, now) == (None::<Seq<u8>>, links),
{
}

/// A token names a link exactly where it is written from the key of a registered link.
pub proof fn token_names_only_registered_links(links: Map<Seq<char>, LinkModel>, token: Seq<char>)
    ensures
        names_link(links, token) <==> exists|uuid: Seq<char>|
            {
                &&& #[trigger] is_uuid_text(uuid)
                &&& token == base64_text(encode_utf8("eph_"@ + uuid))
                &&& links.contains_key("eph_"@ + uuid)
            },
{
    if names_link(links, token) {
        let bytes = base64_bytes(token).unwrap();
        let key = decode_utf8(bytes);
        assert(base64_text(bytes) == token);
        if "eph_"@.is_prefix_of(token) {
            lemma_key_like_token_is_no_text(token, bytes);
        }
        let n = "eph_"@.len() as int;
        let uuid = key.skip(n);
        assert(key.subrange(0, n) =~= "eph_"@);
        assert(key =~= "eph_"@ + uuid);
        vstd::utf8::decode_utf8_encode_utf8(bytes);
        assert(is_uuid_text(uuid));
    }
    assert forall|uuid: Seq<char>| #[trigger]
        is_uuid_text(uuid) && token == base64_text(encode_utf8("eph_"@ + uuid))
            && links.contains_key("eph_"@ + uuid) implies names_link(links, token) by {
        token_names_its_key(uuid);
    }
}

/// Cleaning up keeps exactly the links whose time is not over and whose downloads are not
/// used up, each as it was.
pub proof fn cleanup_keeps_the_links_in_force(
    links: Map<Seq<char>, LinkModel>,
    now: nat,
    key: Seq<char>,
)
    ensures
        unexpired(links, now).contains_key(key) <==> {
            &&& links.contains_key(key)
            &&& links[key].ttl_seconds == 0 || now <= links[key].created_at
                + links[key].ttl_seconds
            &&& links[key].max_downloads == 0 || links[key].downloads < links[key].max_downloads
        },
        unexpired(links, now).contains_key(key) ==> unexpired(links, now)[key] == links[key],
{
}

/// Only a registered link without a download limit, whose counter is full, cannot be counted
/// once more.
pub proof fn only_full_counters_cannot_count(
    links: Map<Seq<char>, LinkModel>,
    uuid: Seq<char>,
    token: Seq<char>,
)
    requires
        is_uuid_text(uuid),
    ensures
        !names_link(links, token) ==> countable(links, token),
        ({
            let key = "eph_"@ + uuid;
            countable(links, base64_text(encode_utf8(key))) <==> !(links.contains_key(key)
                && links[key].max_downloads == 0 && links[key].downloads >= u32::MAX)
        }),
{
    token_names_its_key(uuid);
}

} // verus!
