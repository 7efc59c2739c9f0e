//! Share links: permanent ones, and ones that expire after a time or after a number of
//! downloads.
//!
//! A permanent link carries the shared bytes in its token. An ephemeral link's token
//! names an entry of a [`LinkManager`], which holds the bytes and the limits.

use crate::base64url::{base64_bytes, base64_fits, base64_text, decode_base64, encode_base64};
use crate::clock::{clock_shows, unix_now, ClockError};
use crate::text::{contents, text_starts_with};
use vstd::prelude::*;
use vstd::utf8::{decode_utf8, encode_utf8, valid_utf8};

verus! {

/// What a share link holds.
pub struct LinkModel {
    pub map_data: Seq<u8>,
    pub created_at: nat,
    pub ttl_seconds: nat,
    pub max_downloads: nat,
    pub downloads: nat,
}

impl LinkModel {
    /// A link that nobody has used yet.
    pub open spec fn fresh(
        map_data: Seq<u8>,
        created_at: nat,
        ttl_seconds: nat,
        max_downloads: nat,
    ) -> LinkModel {
        LinkModel { map_data, created_at, ttl_seconds, max_downloads, downloads: 0 }
    }

    /// Whether the time limit, if there is one, lies before `now`.
    pub open spec fn timed_out(self, now: nat) -> bool {
        self.ttl_seconds > 0 && now > self.created_at + self.ttl_seconds
    }

    /// Whether the download limit, if there is one, is reached.
    pub open spec fn used_up(self) -> bool {
        self.max_downloads > 0 && self.downloads >= self.max_downloads
    }

    pub open spec fn expired(self, now: nat) -> bool {
        self.timed_out(now) || self.used_up()
    }

    /// The link after one more download.
    pub open spec fn downloaded(self) -> LinkModel {
        LinkModel { downloads: self.downloads + 1, ..self }
    }

    /// The seconds left of the time limit at `now`; the largest `u64` where there is none.
    pub open spec fn time_left(self, now: nat) -> nat {
        let elapsed = if now >= self.created_at {
            now - self.created_at
        } else {
            0
        };
        if self.ttl_seconds == 0 {
            u64::MAX as nat
        } else if elapsed <= self.ttl_seconds {
            (self.ttl_seconds - elapsed) as nat
        } else {
            0
        }
    }

    /// The downloads left of the download limit; the largest `u32` where there is none.
    pub open spec fn downloads_left(self) -> nat {
        if self.max_downloads == 0 {
            u32::MAX as nat
        } else if self.downloads <= self.max_downloads {
            (self.max_downloads - self.downloads) as nat
        } else {
            0
        }
    }
}

/// A link that can expire. A limit of zero is no limit.
#[derive(Debug, Clone)]
pub struct EphemeralLink {
    pub map_data: Vec<u8>,
    pub created_at: u64,
    pub ttl_seconds: u64,
    pub max_downloads: u32,
    pub downloads: u32,
}

impl View for EphemeralLink {
    type V = LinkModel;

    open spec fn view(&self) -> LinkModel {
        LinkModel {
            map_data: self.map_data@,
            created_at: self.created_at as nat,
            ttl_seconds: self.ttl_seconds as nat,
            max_downloads: self.max_downloads as nat,
            downloads: self.downloads as nat,
        }
    }
}

impl EphemeralLink {
    /// A link made at the time `now`.
    pub fn new_at(map_data: Vec<u8>, ttl_seconds: u64, max_downloads: u32, now: u64) -> (link: Self)
        ensures
            link.map_data == map_data,
            link.created_at == now,
            link.ttl_seconds == ttl_seconds,
            link.max_downloads == max_downloads,
            link.downloads == 0,
            link@ == LinkModel::fresh(
                map_data@,
                now as nat,
                ttl_seconds as nat,
                max_downloads as nat,
            ),
    {
        EphemeralLink { map_data, created_at: now, ttl_seconds, max_downloads, downloads: 0 }
    }

    /// A link made at the time that the clock shows.
    pub fn new(map_data: Vec<u8>, ttl_seconds: u64, max_downloads: u32) -> (link: Result<
        Self,
        ClockError,
    >)
        ensures
            match link {
                Ok(link) => {
                    &&& clock_shows(Ok(link.created_at))
                    &&& link.map_data == map_data
                    &&& link.ttl_seconds == ttl_seconds
                    &&& link.max_downloads == max_downloads
                    &&& link.downloads == 0
                    &&& link@ == LinkModel::fresh(
                        map_data@,
                        link@.created_at,
                        ttl_seconds as nat,
                        max_downloads as nat,
                    )
                },
                Err(error) => clock_shows(Err(error)),
            },
    {
        match unix_now() {
            Ok(now) => Ok(Self::new_at(map_data, ttl_seconds, max_downloads, now)),
            Err(error) => Err(error),
        }
    }

    /// Whether the link is past one of its limits at the time `now`.
    pub fn is_expired_at(&self, now: u64) -> (expired: bool)
        ensures
            expired == self@.expired(now as nat),
            expired <==> {
                ||| self.ttl_seconds > 0 && now > self.created_at + self.ttl_seconds
                ||| self.max_downloads > 0 && self.downloads >= self.max_downloads
            },
    {
        if self.ttl_seconds > 0 && now > self.created_at && now - self.created_at
            > self.ttl_seconds {
            return true;
        }
        if self.max_downloads > 0 && self.downloads >= self.max_downloads {
            return true;
        }
        false
    }

    /// Whether the link is past one of its limits at the time that the clock shows.
    pub fn is_expired(&self) -> (expired: Result<bool, ClockError>)
        ensures
            match expired {
                Ok(expired) => exists|now: u64| #[trigger]
                    clock_shows(Ok(now)) && expired == self@.expired(now as nat) && expired == ((
                    self.ttl_seconds > 0 && now > self.created_at + self.ttl_seconds) || (
                    self.max_downloads > 0 && self.downloads >= self.max_downloads)),
                Err(error) => clock_shows(Err(error)),
            },
    {
        match unix_now() {
            Ok(now) => Ok(self.is_expired_at(now)),
            Err(error) => Err(error),
        }
    }

    /// Counts one more download.
    pub fn record_download(&mut self)
        requires
            old(self).downloads < u32::MAX,
        ensures
            final(self)@ == old(self)@.downloaded(),
            final(self).downloads == old(self).downloads + 1,
            final(self).map_data == old(self).map_data,
            final(self).created_at == old(self).created_at,
            final(self).ttl_seconds == old(self).ttl_seconds,
            final(self).max_downloads == old(self).max_downloads,
    {
        self.downloads += 1;
    }

    /// The seconds left of the time limit at the time `now`.
    pub fn time_remaining_at(&self, now: u64) -> (seconds: u64)
        ensures
            seconds == self@.time_left(now as nat),
            self.ttl_seconds == 0 ==> seconds == u64::MAX,
            self.ttl_seconds > 0 && now <= self.created_at ==> seconds == self.ttl_seconds,
            self.ttl_seconds > 0 && self.created_at <= now <= self.created_at + self.ttl_seconds
                ==> seconds == self.created_at + self.ttl_seconds - now,
            self.ttl_seconds > 0 && now > self.created_at + self.ttl_seconds ==> seconds == 0,
    {
        if self.ttl_seconds == 0 {
            return u64::MAX;
        }
        let elapsed: u64 = now.saturating_sub(self.created_at);
        self.ttl_seconds.saturating_sub(elapsed)
    }

    /// The seconds left of the time limit at the time that the clock shows.
    pub fn time_remaining(&self) -> (seconds: Result<u64, ClockError>)
        ensures
            match seconds {
                Ok(seconds) => exists|now: u64|
                    {
                        &&& #[trigger] clock_shows(Ok(now))
                        &&& seconds == self@.time_left(now as nat)
                        &&& self.ttl_seconds == 0 ==> seconds == u64::MAX
                        &&& self.ttl_seconds > 0 && now <= self.created_at ==> seconds
                            == self.ttl_seconds
                        &&& self.ttl_seconds > 0 && self.created_at <= now <= self.created_at
                            + self.ttl_seconds ==> seconds == self.created_at + self.ttl_seconds
                            - now
                        &&& self.ttl_seconds > 0 && now > self.created_at + self.ttl_seconds
                            ==> seconds == 0
                    },
                Err(error) => clock_shows(Err(error)),
            },
    {
        match unix_now() {
            Ok(now) => Ok(self.time_remaining_at(now)),
            Err(error) => Err(error),
        }
    }

    /// The downloads left of the download limit.
    pub fn downloads_remaining(&self) -> (downloads: u32)
        ensures
            downloads == self@.downloads_left(),
            self.max_downloads == 0 ==> downloads == u32::MAX,
            0 < self.max_downloads <= self.downloads ==> downloads == 0,
            self.max_downloads > self.downloads ==> downloads == self.max_downloads
                - self.downloads,
    {
        if self.max_downloads == 0 {
            return u32::MAX;
        }
        self.max_downloads.saturating_sub(self.downloads)
    }
}

/// The limits that a link is shared under.
#[derive(Debug, Clone)]
pub enum LinkType {
    Permanent,
    EphemeralTime { ttl_seconds: u64 },
    EphemeralUsage { max_downloads: u32 },
    EphemeralBoth { ttl_seconds: u64, max_downloads: u32 },
}

impl LinkType {
    /// The time limit in seconds; zero where there is none.
    pub open spec fn ttl(self) -> nat {
        match self {
            LinkType::EphemeralTime { ttl_seconds } => ttl_seconds as nat,
            LinkType::EphemeralBoth { ttl_seconds, .. } => ttl_seconds as nat,
            _ => 0,
        }
    }

    /// The download limit; zero where there is none.
    pub open spec fn limit(self) -> nat {
        match self {
            LinkType::EphemeralUsage { max_downloads } => max_downloads as nat,
            LinkType::EphemeralBoth { max_downloads, .. } => max_downloads as nat,
            _ => 0,
        }
    }

    /// The type of a link under the limits given, of which zero means none.
    pub fn from_flags(ttl_seconds: u64, max_downloads: u32) -> (link_type: Self)
        ensures
            link_type.ttl() == ttl_seconds,
            link_type.limit() == max_downloads,
            link_type is Permanent <==> ttl_seconds == 0 && max_downloads == 0,
            link_type is EphemeralTime <==> ttl_seconds > 0 && max_downloads == 0,
            link_type is EphemeralUsage <==> ttl_seconds == 0 && max_downloads > 0,
            link_type is EphemeralBoth <==> ttl_seconds > 0 && max_downloads > 0,
            match link_type {
                LinkType::Permanent => ttl_seconds == 0 && max_downloads == 0,
                LinkType::EphemeralTime { ttl_seconds: ttl } => ttl == ttl_seconds && max_downloads
                    == 0,
                LinkType::EphemeralUsage { max_downloads: limit } => limit == max_downloads
                    && ttl_seconds == 0,
                LinkType::EphemeralBoth { ttl_seconds: ttl, max_downloads: limit } => ttl
                    == ttl_seconds && limit == max_downloads,
            },
    {
        match (ttl_seconds > 0, max_downloads > 0) {
            (true, true) => LinkType::EphemeralBoth { ttl_seconds, max_downloads },
            (true, false) => LinkType::EphemeralTime { ttl_seconds },
            (false, true) => LinkType::EphemeralUsage { max_downloads },
            (false, false) => LinkType::Permanent,
        }
    }
}

/// Whether `text` is written as a random UUID is: hexadecimal digits in lower case, in
/// groups of eight, four, four, four and twelve, with the marks of version four.
pub open spec fn is_uuid_text(text: Seq<char>) -> bool {
    &&& text.len() == 36
    &&& forall|i: int|
        0 <= i < 36 ==> if i == 8 || i == 13 || i == 18 || i == 23 {
            #[trigger] text[i] == '-'
        } else {
            ('0' <= text[i] <= '9') || ('a' <= text[i] <= 'f')
        }
    &&& text[14] == '4'
    &&& text[19] == '8' || text[19] == '9' || text[19] == 'a' || text[19] == 'b'
}

/// The key that an ephemeral link is registered under.
pub open spec fn ephemeral_key(uuid: Seq<char>) -> Seq<char> {
    "eph_"@ + uuid
}

/// Whether `text` is written as the key of an ephemeral link is.
pub open spec fn is_ephemeral_key(text: Seq<char>) -> bool {
    "eph_"@.is_prefix_of(text) && is_uuid_text(text.skip("eph_"@.len() as int))
}

/// The token that a link registered under `key` is shared by.
pub open spec fn key_token(key: Seq<char>) -> Seq<char> {
    base64_text(encode_utf8(key))
}

/// Whether a token, and the bytes that it carries, speak of an ephemeral link: the token
/// begins as a key does, or the bytes are a key.
pub open spec fn is_ephemeral(token: Seq<char>, bytes: Seq<u8>) -> bool {
    "eph_"@.is_prefix_of(token) || (valid_utf8(bytes) && is_ephemeral_key(decode_utf8(bytes)))
}

/// The key that a token names, if it speaks of an ephemeral link.
pub open spec fn named_key(token: Seq<char>) -> Option<Seq<char>> {
    match base64_bytes(token) {
        Some(bytes) => if is_ephemeral(token, bytes) && valid_utf8(bytes) {
            Some(decode_utf8(bytes))
        } else {
            None
        },
        None => None,
    }
}

/// Whether a token names one of `links`.
pub open spec fn names_link(links: Map<Seq<char>, LinkModel>, token: Seq<char>) -> bool {
    named_key(token) matches Some(key) && links.contains_key(key)
}

/// The bytes that a token gives at the time `now`, and the links afterwards. A token
/// that carries the shared bytes itself gives them; one that names a link gives the
/// link's bytes, and counts as a download, while the link has not expired.
pub open spec fn validation(
    links: Map<Seq<char>, LinkModel>,
    token: Seq<char>,
    now: nat,
) -> (Option<Seq<u8>>, Map<Seq<char>, LinkModel>) {
    match base64_bytes(token) {
        Some(bytes) => if !is_ephemeral(token, bytes) {
            (Some(bytes), links)
        } else if names_link(links, token) && !links[named_key(token).unwrap()].expired(now) {
            let key = named_key(token).unwrap();
            (Some(links[key].map_data), links.insert(key, links[key].downloaded()))
        } else {
            (None, links)
        },
        None => (None, links),
    }
}

/// The links that have not expired at the time `now`.
pub open spec fn unexpired(links: Map<Seq<char>, LinkModel>, now: nat) -> Map<
    Seq<char>,
    LinkModel,
> {
    links.restrict(Set::new(|key: Seq<char>| !links[key].expired(now)))
}

/// Whether one more download of the link that a token names, if it names one, can be
/// counted. Only a link without a download limit can reach the end of its counter.
pub open spec fn countable(links: Map<Seq<char>, LinkModel>, token: Seq<char>) -> bool {
    names_link(links, token) ==> ({
        let link = links[named_key(token).unwrap()];
        link.max_downloads == 0 ==> link.downloads < u32::MAX
    })
}

/// Calls `uuid::Uuid::new_v4` and writes the result with its `Display`; claims that the
/// text is that of a random UUID. Which one is left open: it rests on chance. The call
/// panics where the operating system has no random bytes to give.
#[verifier::external_body]
fn random_uuid() -> (text: String)
    ensures
        is_uuid_text(text@),
{
    uuid::Uuid::new_v4().to_string()
}

/// Whether `uuid` is the text of a random UUID that can be drawn.
pub closed spec fn uuid_drawn(uuid: Seq<char>) -> bool {
    exists|text: String| #[trigger] call_ensures(random_uuid, (), text) && text@ == uuid
}

/// The text of a UUID that was drawn came from the call that draws one.
proof fn drawn_uuid_came_from_the_generator(uuid: Seq<char>)
    requires
        uuid_drawn(uuid),
    ensures
        exists|text: String| #[trigger] call_ensures(random_uuid, (), text) && text@ == uuid,
{
}

/// Calls `String::from_utf8`, and claims that it accepts exactly the bytes that are valid
/// UTF-8 and reads the characters that they encode.
#[verifier::external_body]
fn read_utf8(bytes: Vec<u8>) -> (text: Option<String>)
    ensures
        match text {
            Some(text) => valid_utf8(bytes@) && text@ == decode_utf8(bytes@),
            None => !valid_utf8(bytes@),
        },
{
    String::from_utf8(bytes).ok()
}

/// Whether `c` is a hexadecimal digit in lower case.
fn is_hex_digit(c: char) -> (hex: bool)
    ensures
        hex == (('0' <= c <= '9') || ('a' <= c <= 'f')),
{
    ('0' <= c && c <= '9') || ('a' <= c && c <= 'f')
}

/// Whether `text` is written as the key of an ephemeral link is.
fn reads_as_key(text: &str) -> (key: bool)
    ensures
        key == is_ephemeral_key(text@),
{
    proof {
        reveal_strlit("eph_");
    }
    let length: usize = text.unicode_len();
    if length != 40 || !text_starts_with(text, "eph_") {
        return false;
    }
    let ghost uuid = text@.skip(4);
    let mut i: usize = 0;
    while i < 36
        invariant
            i <= 36,
            text@.len() == 40,
            uuid == text@.skip(4),
            forall|j: int|
                0 <= j < i ==> if j == 8 || j == 13 || j == 18 || j == 23 {
                    #[trigger] uuid[j] == '-'
                } else {
                    ('0' <= uuid[j] <= '9') || ('a' <= uuid[j] <= 'f')
                },
            "eph_"@.is_prefix_of(text@),
            "eph_"@.len() == 4,
        decreases 36 - i,
    {
        let c = text.get_char(i + 4);
        assert(uuid[i as int] == c);
        let fits = if i == 8 || i == 13 || i == 18 || i == 23 {
            c == '-'
        } else {
            is_hex_digit(c)
        };
        if !fits {
            return false;
        }
        i += 1;
    }
    let version = text.get_char(18);
    let variant = text.get_char(23);
    assert(uuid[14] == version && uuid[19] == variant);
    version == '4' && (variant == '8' || variant == '9' || variant == 'a' || variant == 'b')
}

/// A link and the key that it is registered under.
struct Entry {
    key: String,
    link: EphemeralLink,
}

/// Whether no key occurs twice.
spec fn distinct(entries: Seq<Entry>) -> bool {
    forall|i: int, j: int|
        0 <= i < j < entries.len() ==> #[trigger] entries[i].key@ != #[trigger] entries[j].key@
}

spec fn holds_at(entries: Seq<Entry>, key: Seq<char>, i: int) -> bool {
    0 <= i < entries.len() && entries[i].key@ == key
}

/// The links of `entries` by their keys.
spec fn registry(entries: Seq<Entry>) -> Map<Seq<char>, LinkModel> {
    Map::new(
        |key: Seq<char>| exists|i: int| holds_at(entries, key, i),
        |key: Seq<char>| entries[choose|i: int| holds_at(entries, key, i)].link@,
    )
}

proof fn lemma_registry_at(entries: Seq<Entry>, i: int)
    requires
        distinct(entries),
        0 <= i < entries.len(),
    ensures
        registry(entries).contains_key(entries[i].key@),
        registry(entries)[entries[i].key@] == entries[i].link@,
{
    let key = entries[i].key@;
    assert(holds_at(entries, key, i));
    let found = choose|j: int| holds_at(entries, key, j);
    assert(holds_at(entries, key, found));
    assert(found == i) by {
        if found < i {
            assert(entries[found].key@ != entries[i].key@);
        } else if i < found {
            assert(entries[i].key@ != entries[found].key@);
        }
    }
}

proof fn lemma_registry_push(entries: Seq<Entry>, entry: Entry)
    requires
        distinct(entries),
        !registry(entries).contains_key(entry.key@),
    ensures
        distinct(entries.push(entry)),
        registry(entries.push(entry)) == registry(entries).insert(entry.key@, entry.link@),
{
    let pushed = entries.push(entry);
    assert(distinct(pushed)) by {
        assert forall|i: int, j: int| 0 <= i < j < pushed.len() implies
            #[trigger] pushed[i].key@ != #[trigger] pushed[j].key@ by {
            lemma_registry_at(entries, i);
            if j < entries.len() {
                assert(entries[i].key@ != entries[j].key@);
            }
        }
    }
    let inserted = registry(entries).insert(entry.key@, entry.link@);
    assert forall|key: Seq<char>|
        {
            &&& #[trigger] registry(pushed).dom().contains(key) == inserted.dom().contains(key)
            &&& inserted.dom().contains(key) ==> registry(pushed)[key] == inserted[key]
        } by {
        if inserted.contains_key(key) {
            if key == entry.key@ {
                lemma_registry_at(pushed, entries.len() as int);
            } else {
                let i = choose|i: int| holds_at(entries, key, i);
                assert(holds_at(entries, key, i));
                assert(pushed[i] == entries[i]);
                lemma_registry_at(entries, i);
                lemma_registry_at(pushed, i);
            }
        }
        if registry(pushed).contains_key(key) {
            let i = choose|i: int| holds_at(pushed, key, i);
            assert(holds_at(pushed, key, i));
            if i < entries.len() {
                assert(holds_at(entries, key, i));
            }
        }
    }
    assert(registry(pushed).dom() =~= inserted.dom());
    assert(registry(pushed) =~= inserted);
}

proof fn lemma_registry_update(entries: Seq<Entry>, i: int, entry: Entry)
    requires
        distinct(entries),
        0 <= i < entries.len(),
        entry.key@ == entries[i].key@,
    ensures
        distinct(entries.update(i, entry)),
        registry(entries.update(i, entry)) == registry(entries).insert(entry.key@, entry.link@),
{
    let updated = entries.update(i, entry);
    assert forall|j: int| 0 <= j < updated.len() implies #[trigger] updated[j].key@
        == entries[j].key@ by {}
    assert(distinct(updated)) by {
        assert forall|j: int, k: int| 0 <= j < k < updated.len() implies
            #[trigger] updated[j].key@ != #[trigger] updated[k].key@ by {
            assert(entries[j].key@ != entries[k].key@);
        }
    }
    let inserted = registry(entries).insert(entry.key@, entry.link@);
    assert forall|key: Seq<char>|
        {
            &&& #[trigger] registry(updated).dom().contains(key) == inserted.dom().contains(key)
            &&& inserted.dom().contains(key) ==> registry(updated)[key] == inserted[key]
        } by {
        if inserted.contains_key(key) {
            if key == entry.key@ {
                lemma_registry_at(updated, i);
            } else {
                let j = choose|j: int| holds_at(entries, key, j);
                assert(holds_at(entries, key, j));
                lemma_registry_at(entries, j);
                lemma_registry_at(updated, j);
            }
        }
        if registry(updated).contains_key(key) {
            let j = choose|j: int| holds_at(updated, key, j);
            assert(holds_at(updated, key, j));
            assert(holds_at(entries, key, j));
        }
    }
    assert(registry(updated).dom() =~= inserted.dom());
    assert(registry(updated) =~= inserted);
}

/// Entry `i` of `kept` is entry `from[i]` of `entries`; every entry that has not expired
/// is kept.
proof fn lemma_registry_filter(entries: Seq<Entry>, kept: Seq<Entry>, from: Seq<int>, now: nat)
    requires
        distinct(entries),
        kept.len() == from.len(),
        forall|i: int|
            0 <= i < from.len() ==> 0 <= #[trigger] from[i] < entries.len() && kept[i]
                == entries[from[i]] && !kept[i].link@.expired(now),
        forall|i: int, j: int| 0 <= i < j < from.len() ==> from[j] < from[i],
        forall|i: int|
            0 <= i < entries.len() && !(#[trigger] entries[i]).link@.expired(now)
                ==> from.contains(i),
    ensures
        distinct(kept),
        registry(kept) == unexpired(registry(entries), now),
{
    assert(distinct(kept)) by {
        assert forall|i: int, j: int| 0 <= i < j < kept.len() implies #[trigger] kept[i].key@
            != #[trigger] kept[j].key@ by {
            assert(from[j] < from[i]);
            assert(entries[from[j]].key@ != entries[from[i]].key@);
        }
    }
    let wanted = unexpired(registry(entries), now);
    assert forall|key: Seq<char>|
        {
            &&& #[trigger] registry(kept).dom().contains(key) == wanted.dom().contains(key)
            &&& wanted.dom().contains(key) ==> registry(kept)[key] == wanted[key]
        } by {
        if wanted.dom().contains(key) {
            let i = choose|i: int| holds_at(entries, key, i);
            assert(holds_at(entries, key, i));
            lemma_registry_at(entries, i);
            assert(from.contains(i));
            let k = choose|k: int| 0 <= k < from.len() && from[k] == i;
            lemma_registry_at(kept, k);
        }
        if registry(kept).dom().contains(key) {
            let k = choose|k: int| holds_at(kept, key, k);
            assert(holds_at(kept, key, k));
            lemma_registry_at(entries, from[k]);
        }
    }
    assert(registry(kept).dom() =~= wanted.dom());
    assert(registry(kept) =~= wanted);
}

/// The key made from a UUID is written as a key is.
pub proof fn ephemeral_key_is_key(uuid: Seq<char>)
    requires
        is_uuid_text(uuid),
    ensures
        is_ephemeral_key(ephemeral_key(uuid)),
{
    let key = ephemeral_key(uuid);
    let n = "eph_"@.len() as int;
    assert("eph_"@ =~= key.subrange(0, n));
    assert(key.skip(n) =~= uuid);
}

/// A key takes forty bytes: one for each character.
pub proof fn key_length(key: Seq<char>)
    requires
        is_ephemeral_key(key),
    ensures
        encode_utf8(key).len() == 40,
{
    reveal_strlit("eph_");
    assert(vstd::utf8::is_ascii_chars(key)) by {
        assert forall|i: int| 0 <= i < key.len() implies '\0' <= #[trigger] key[i]
            <= '\u{7f}' by {
            if i >= 4 {
                assert(key[i] == key.skip(4)[i - 4]);
            } else {
                assert(key[i] == key.subrange(0, 4)[i]);
            }
        }
    }
    vstd::utf8::is_ascii_chars_encode_utf8(key);
}

/// What a token leads to before the clock is asked.
enum Located {
    /// The answer is settled.
    Answer(Option<Vec<u8>>),
    /// The token names the link at this position.
    Link(usize),
}

/// The ephemeral links in force, by their keys.
pub struct LinkManager {
    entries: Vec<Entry>,
}

impl View for LinkManager {
    type V = Map<Seq<char>, LinkModel>;

    closed spec fn view(&self) -> Map<Seq<char>, LinkModel> {
        registry(self.entries@)
    }
}

impl LinkManager {
    #[verifier::type_invariant]
    spec fn wf(self) -> bool {
        distinct(self.entries@)
    }

    /// A manager without links.
    pub fn new() -> (manager: Self)
        ensures
            manager@ == Map::<Seq<char>, LinkModel>::empty(),
    {
        let manager = LinkManager { entries: Vec::new() };
        assert(manager@ =~= Map::<Seq<char>, LinkModel>::empty());
        manager
    }

    /// The position of the link registered under `key`.
    fn position(&self, key: &String) -> (position: Option<usize>)
        ensures
            match position {
                Some(i) => holds_at(self.entries@, key@, i as int),
                None => !self@.contains_key(key@),
            },
    {
        let mut i: usize = 0;
        while i < self.entries.len()
            invariant
                i <= self.entries@.len(),
                forall|j: int| 0 <= j < i ==> !holds_at(self.entries@, key@, j),
            decreases self.entries@.len() - i,
        {
            if self.entries[i].key == *key {
                return Some(i);
            }
            i += 1;
        }
        None
    }

    /// Registers `link` under `key`, in place of any link that was there.
    fn register(&mut self, key: String, link: EphemeralLink)
        ensures
            final(self)@ == old(self)@.insert(key@, link@),
    {
        proof {
            use_type_invariant(&*self);
        }
        let position = self.position(&key);
        let mut entries: Vec<Entry> = Vec::new();
        std::mem::swap(&mut entries, &mut self.entries);
        let ghost before = entries@;
        let entry = Entry { key, link };
        match position {
            Some(i) => {
                proof {
                    lemma_registry_update(before, i as int, entry);
                }
                entries.set(i, entry);
            },
            None => {
                proof {
                    lemma_registry_push(before, entry);
                }
                entries.push(entry);
            },
        }
        self.entries = entries;
    }

    /// Shares `map_data` at the time `now`. A permanent link's token carries the data
    /// itself; any other link is registered under the key made from the random UUID
    /// `uuid`.
    pub fn create_link_with(
        &mut self,
        map_data: Vec<u8>,
        link_type: LinkType,
        now: u64,
        uuid: &str,
    ) -> (token: String)
        requires
            link_type is Permanent ==> base64_fits(map_data@.len()),
            !(link_type is Permanent) ==> is_uuid_text(uuid@),
        ensures
            link_type is Permanent ==> token@ == base64_text(map_data@) && final(self)@
                == old(self)@,
            !(link_type is Permanent) ==> token@ == key_token(ephemeral_key(uuid@)),
            !(link_type is Permanent) ==> token@ == base64_text(encode_utf8("eph_"@ + uuid@)),
            !(link_type is Permanent) ==> final(self)@ == old(self)@.insert(
                "eph_"@ + uuid@,
                (LinkModel {
                    map_data: map_data@,
                    created_at: now as nat,
                    ttl_seconds: match link_type {
                        LinkType::EphemeralTime { ttl_seconds } => ttl_seconds as nat,
                        LinkType::EphemeralBoth { ttl_seconds, .. } => ttl_seconds as nat,
                        _ => 0,
                    },
                    max_downloads: match link_type {
                        LinkType::EphemeralUsage { max_downloads } => max_downloads as nat,
                        LinkType::EphemeralBoth { max_downloads, .. } => max_downloads as nat,
                        _ => 0,
                    },
                    downloads: 0,
                }),
            ),
            !(link_type is Permanent) ==> final(self)@ == old(self)@.insert(
                ephemeral_key(uuid@),
                LinkModel::fresh(map_data@, now as nat, link_type.ttl(), link_type.limit()),
            ),
    {
        let link = match link_type {
            LinkType::Permanent => {
                return encode_base64(map_data.as_slice());
            },
            LinkType::EphemeralTime { ttl_seconds } => {
                EphemeralLink::new_at(map_data, ttl_seconds, 0, now)
            },
            LinkType::EphemeralUsage { max_downloads } => {
                EphemeralLink::new_at(map_data, 0, max_downloads, now)
            },
            LinkType::EphemeralBoth { ttl_seconds, max_downloads } => {
                EphemeralLink::new_at(map_data, ttl_seconds, max_downloads, now)
            },
        };
        let mut key: String = "eph_".to_owned();
        key.append(uuid);
        proof {
            ephemeral_key_is_key(uuid@);
            key_length(key@);
        }
        let token = encode_base64(key.as_str().as_bytes());
        self.register(key, link);
        token
    }

    /// Shares `map_data` and returns the token of the link. The link starts at the time
    /// that the clock shows, under a key that is drawn at random; `id` plays no part.
    pub fn create_link(&mut self, id: String, map_data: Vec<u8>, link_type: LinkType) -> (token:
        Result<String, ClockError>)
        requires
            link_type is Permanent ==> base64_fits(map_data@.len()),
        ensures
            link_type is Permanent ==> final(self)@ == old(self)@ && token.is_ok()
                && token.unwrap()@ == base64_text(map_data@),
            token matches Err(error) ==> clock_shows(Err(error)) && final(self)@ == old(self)@,
            !(link_type is Permanent) && token is Ok ==> exists|now: u64, uuid: Seq<char>|
                {
                    &&& #[trigger] clock_shows(Ok(now))
                    &&& #[trigger] uuid_drawn(uuid)
                    &&& is_uuid_text(uuid)
                    &&& token.unwrap()@ == key_token(ephemeral_key(uuid))
                    &&& token.unwrap()@ == base64_text(encode_utf8("eph_"@ + uuid))
                    &&& final(self)@ == old(self)@.insert(
                        ephemeral_key(uuid),
                        LinkModel::fresh(
                            map_data@,
                            now as nat,
                            link_type.ttl(),
                            link_type.limit(),
                        ),
                    )
                    &&& final(self)@ == old(self)@.insert(
                        "eph_"@ + uuid,
                        (LinkModel {
                            map_data: map_data@,
                            created_at: now as nat,
                            ttl_seconds: match link_type {
                                LinkType::EphemeralTime { ttl_seconds } => ttl_seconds as nat,
                                LinkType::EphemeralBoth { ttl_seconds, .. } => ttl_seconds as nat,
                                _ => 0,
                            },
                            max_downloads: match link_type {
                                LinkType::EphemeralUsage { max_downloads } => max_downloads as nat,
                                LinkType::EphemeralBoth { max_downloads, .. } => {
                                    max_downloads as nat
                                },
                                _ => 0,
                            },
                            downloads: 0,
                        }),
                    )
                },
    {
        if let LinkType::Permanent = link_type {
            return Ok(encode_base64(map_data.as_slice()));
        }
        let now: u64 = match unix_now() {
            Ok(now) => now,
            Err(error) => {
                return Err(error);
            },
        };
        let uuid = random_uuid();
        assert(call_ensures(random_uuid, (), uuid));
        assert(uuid_drawn(uuid@));
        Ok(self.create_link_with(map_data, link_type, now, uuid.as_str()))
    }

    /// Where `token` leads.
    fn locate(&self, token: &str) -> (located: Located)
        ensures
            match located {
                Located::Answer(data) => !names_link(self@, token@) && forall|now: nat|
                    (contents(data), self@) == #[trigger] validation(self@, token@, now),
                Located::Link(i) => names_link(self@, token@) && holds_at(
                    self.entries@,
                    named_key(token@).unwrap(),
                    i as int,
                ) && self.entries@[i as int].link@ == self@[named_key(token@).unwrap()],
            },
    {
        let bytes = match decode_base64(token) {
            Some(bytes) => bytes,
            None => {
                return Located::Answer(None);
            },
        };
        let copy = bytes.clone();
        assert(copy@ =~= bytes@);
        let text = read_utf8(copy);
        let ephemeral = text_starts_with(token, "eph_") || match &text {
            Some(key) => reads_as_key(key.as_str()),
            None => false,
        };
        if !ephemeral {
            return Located::Answer(Some(bytes));
        }
        match text {
            Some(key) => match self.position(&key) {
                Some(i) => {
                    proof {
                        use_type_invariant(self);
                        lemma_registry_at(self.entries@, i as int);
                    }
                    Located::Link(i)
                },
                None => Located::Answer(None),
            },
            None => Located::Answer(None),
        }
    }

    /// Downloads the link at position `i`, unless it has expired at the time `now`.
    fn download_at(&mut self, i: usize, now: u64) -> (data: Option<Vec<u8>>)
        requires
            i < old(self).entries@.len(),
            old(self).entries@[i as int].link@.expired(now as nat)
                || old(self).entries@[i as int].link.downloads < u32::MAX,
        ensures
            ({
                let key = old(self).entries@[i as int].key@;
                let link = old(self)@[key];
                if link.expired(now as nat) {
                    data is None && final(self)@ == old(self)@
                } else {
                    contents(data) == Some(link.map_data) && final(self)@ == old(self)@.insert(
                        key,
                        link.downloaded(),
                    )
                }
            }),
    {
        proof {
            use_type_invariant(&*self);
            lemma_registry_at(self.entries@, i as int);
        }
        if self.entries[i].link.is_expired_at(now) {
            return None;
        }
        let mut entries: Vec<Entry> = Vec::new();
        std::mem::swap(&mut entries, &mut self.entries);
        let ghost before = entries@;
        let entry = &mut entries[i];
        entry.link.record_download();
        let data = entry.link.map_data.clone();
        proof {
            assert(entries@ =~= before.update(i as int, entries@[i as int]));
            lemma_registry_update(before, i as int, entries@[i as int]);
        }
        assert(data@ =~= before[i as int].link.map_data@);
        self.entries = entries;
        Some(data)
    }

    /// The bytes that `token` gives at the time `now`.
    pub fn validate_link_at(&mut self, token: &str, now: u64) -> (data: Option<Vec<u8>>)
        requires
            names_link(old(self)@, token@) ==> ({
                let link = old(self)@[named_key(token@).unwrap()];
                link.expired(now as nat) || link.downloads < u32::MAX
            }),
        ensures
            (contents(data), final(self)@) == validation(old(self)@, token@, now as nat),
    {
        match self.locate(token) {
            Located::Answer(data) => data,
            Located::Link(i) => self.download_at(i, now),
        }
    }

    /// The bytes that `token` gives at the time that the clock shows. The clock is asked
    /// only where the token names a link.
    pub fn validate_link(&mut self, token: &str) -> (data: Result<Option<Vec<u8>>, ClockError>)
        requires
            countable(old(self)@, token@),
        ensures
            !names_link(old(self)@, token@) ==> data is Ok && forall|now: nat|
                (contents(data.unwrap()), final(self)@) == #[trigger] validation(
                    old(self)@,
                    token@,
                    now,
                ),
            names_link(old(self)@, token@) ==> match data {
                Ok(data) => exists|now: u64| #[trigger]
                    clock_shows(Ok(now)) && (contents(data), final(self)@) == validation(
                        old(self)@,
                        token@,
                        now as nat,
                    ),
                Err(error) => clock_shows(Err(error)) && final(self)@ == old(self)@,
            },
    {
        match self.locate(token) {
            Located::Answer(data) => Ok(data),
            Located::Link(i) => match unix_now() {
                Ok(now) => {
                    let data = self.download_at(i, now);
                    assert((contents(data), self@) == validation(old(self)@, token@, now as nat));
                    Ok(data)
                },
                Err(error) => Err(error),
            },
        }
    }

    /// Whether one more download of the link that `token` names, if it names one, can be
    /// counted.
    pub fn is_countable(&self, token: &str) -> (countable: bool)
        ensures
            countable == self::countable(self@, token@),
    {
        match self.locate(token) {
            Located::Answer(_) => true,
            Located::Link(i) => {
                let link = &self.entries[i].link;
                link.max_downloads > 0 || link.downloads < u32::MAX
            },
        }
    }

    /// Forgets the links that have expired at the time `now`.
    pub fn cleanup_expired_at(&mut self, now: u64)
        ensures
            final(self)@ == unexpired(old(self)@, now as nat),
            forall|key: Seq<char>| #[trigger]
                final(self)@.contains_key(key) <==> old(self)@.contains_key(key) && !({
                    let link = old(self)@[key];
                    ||| link.ttl_seconds > 0 && now > link.created_at + link.ttl_seconds
                    ||| link.max_downloads > 0 && link.downloads >= link.max_downloads
                }),
            forall|key: Seq<char>| #[trigger]
                final(self)@.contains_key(key) ==> final(self)@[key] == old(self)@[key],
    {
        proof {
            use_type_invariant(&*self);
        }
        let mut entries: Vec<Entry> = Vec::new();
        std::mem::swap(&mut entries, &mut self.entries);
        let ghost before = entries@;
        let mut kept: Vec<Entry> = Vec::new();
        let ghost mut from: Seq<int> = Seq::empty();
        assert(entries@ =~= before.take(before.len() as int));
        while entries.len() > 0
            invariant
                distinct(before),
                entries@ == before.take(entries@.len() as int),
                entries@.len() <= before.len(),
                kept@.len() == from.len(),
                forall|i: int|
                    0 <= i < from.len() ==> entries@.len() <= #[trigger] from[i] < before.len()
                        && kept@[i] == before[from[i]] && !kept@[i].link@.expired(now as nat),
                forall|i: int, j: int| 0 <= i < j < from.len() ==> from[j] < from[i],
                forall|i: int|
                    entries@.len() <= i < before.len() && !(#[trigger] before[i]).link@.expired(
                        now as nat,
                    ) ==> from.contains(i),
            decreases entries@.len(),
        {
            let ghost last = entries@.len() - 1;
            if let Some(entry) = entries.pop() {
                assert(entry == before[last]);
                assert(entries@ =~= before.take(last));
                let ghost old_from = from;
                if !entry.link.is_expired_at(now) {
                    kept.push(entry);
                    proof {
                        from = from.push(last);
                        assert(from[from.len() - 1] == last);
                    }
                }
                proof {
                    assert forall|i: int|
                        last <= i < before.len() && !(#[trigger] before[i]).link@.expired(
                            now as nat,
                        ) implies from.contains(i) by {
                        if i > last {
                            assert(old_from.contains(i));
                            let k = choose|k: int| 0 <= k < old_from.len() && old_from[k] == i;
                            assert(from[k] == i);
                        }
                    }
                }
            }
        }
        proof {
            lemma_registry_filter(before, kept@, from, now as nat);
        }
        self.entries = kept;
    }

    /// Forgets the links that have expired at the time that the clock shows. The clock is
    /// asked only where there are links.
    pub fn cleanup_expired(&mut self) -> (done: Result<(), ClockError>)
        ensures
            match done {
                Ok(_) => old(self)@ == Map::<Seq<char>, LinkModel>::empty() && final(self)@
                    == old(self)@ || exists|now: u64| #[trigger]
                    clock_shows(Ok(now)) && final(self)@ == unexpired(old(self)@, now as nat),
                Err(error) => old(self)@ != Map::<Seq<char>, LinkModel>::empty() && clock_shows(
                    Err(error),
                ) && final(self)@ == old(self)@,
            },
    {
        if self.entries.len() == 0 {
            assert(self@ =~= Map::<Seq<char>, LinkModel>::empty());
            return Ok(());
        }
        proof {
            use_type_invariant(&*self);
            lemma_registry_at(self.entries@, 0);
        }
        match unix_now() {
            Ok(now) => {
                self.cleanup_expired_at(now);
                Ok(())
            },
            Err(error) => Err(error),
        }
    }
}

impl Default for LinkManager {
    fn default() -> (manager: Self)
        ensures
            manager@ == Map::<Seq<char>, LinkModel>::empty(),
    {
        Self::new()
    }
}

} // verus!
