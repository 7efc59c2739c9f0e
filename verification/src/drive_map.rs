//! The map of a stored file, and the bytes that it is written as.

use vstd::bytes::{
    lemma_auto_spec_u32_to_from_le_bytes, lemma_auto_spec_u64_to_from_le_bytes,
    spec_u32_from_le_bytes, spec_u32_to_le_bytes, spec_u64_from_le_bytes, spec_u64_to_le_bytes,
};
use vstd::prelude::*;
use vstd::utf8::{encode_utf8, encode_utf8_decode_utf8};

verus! {

/// What the map of a stored file says.
pub struct MapModel {
    pub file_id: Seq<u8>,
    pub file_name: Seq<char>,
    pub num_chunks: u32,
    pub owner_pk: Seq<u8>,
}

impl MapModel {
    /// Whether a map can say this: the file's identity is a hash of fixed length, and
    /// what has a length has one that can be written down.
    pub open spec fn valid(self) -> bool {
        &&& self.file_id.len() == 32
        &&& encode_utf8(self.file_name).len() <= u64::MAX
        &&& self.owner_pk.len() <= u64::MAX
    }

    /// The bytes of a map: the identity; the name behind its length; the number of
    /// chunks; the key behind its length. Numbers are little-endian, lengths take eight
    /// bytes.
    pub open spec fn layout(self) -> Seq<u8> {
        let name = encode_utf8(self.file_name);
        self.file_id + spec_u64_to_le_bytes(name.len() as u64) + name + spec_u32_to_le_bytes(
            self.num_chunks,
        ) + spec_u64_to_le_bytes(self.owner_pk.len() as u64) + self.owner_pk
    }
}

/// The map that `bytes` begin with, if they begin with one.
pub open spec fn read_map(bytes: Seq<u8>) -> Option<MapModel> {
    if exists|map: MapModel| map.valid() && #[trigger] map.layout().is_prefix_of(bytes) {
        Some(choose|map: MapModel| map.valid() && #[trigger] map.layout().is_prefix_of(bytes))
    } else {
        None
    }
}

/// The places of the fields in the bytes of a valid map.
proof fn lemma_layout_fields(map: MapModel, bytes: Seq<u8>)
    requires
        map.valid(),
        map.layout().is_prefix_of(bytes),
    ensures
        ({
            let name = encode_utf8(map.file_name);
            let n = name.len() as int;
            let k = map.owner_pk.len() as int;
            &&& 52 + n + k <= bytes.len()
            &&& bytes.subrange(0, 32) == map.file_id
            &&& bytes.subrange(32, 40) == spec_u64_to_le_bytes(n as u64)
            &&& bytes.subrange(40, 40 + n) == name
            &&& bytes.subrange(40 + n, 44 + n) == spec_u32_to_le_bytes(map.num_chunks)
            &&& bytes.subrange(44 + n, 52 + n) == spec_u64_to_le_bytes(k as u64)
            &&& bytes.subrange(52 + n, 52 + n + k) == map.owner_pk
        }),
{
    lemma_auto_spec_u64_to_from_le_bytes();
    lemma_auto_spec_u32_to_from_le_bytes();
    let name = encode_utf8(map.file_name);
    let n = name.len() as int;
    let k = map.owner_pk.len() as int;
    let layout = map.layout();
    assert(spec_u64_to_le_bytes(n as u64).len() == 8);
    assert(spec_u64_to_le_bytes(k as u64).len() == 8);
    assert(spec_u32_to_le_bytes(map.num_chunks).len() == 4);
    assert(layout.len() == 52 + n + k);
    assert forall|i: int| 0 <= i < layout.len() implies #[trigger] bytes[i] == layout[i] by {
        assert(bytes.subrange(0, layout.len() as int)[i] == bytes[i]);
    }
    assert(bytes.subrange(0, 32) =~= map.file_id);
    assert(bytes.subrange(32, 40) =~= spec_u64_to_le_bytes(n as u64));
    assert(bytes.subrange(40, 40 + n) =~= name);
    assert(bytes.subrange(40 + n, 44 + n) =~= spec_u32_to_le_bytes(map.num_chunks));
    assert(bytes.subrange(44 + n, 52 + n) =~= spec_u64_to_le_bytes(k as u64));
    assert(bytes.subrange(52 + n, 52 + n + k) =~= map.owner_pk);
}

/// Where the fields stand in the bytes of a map, and in any bytes that begin with them.
pub proof fn map_fields_stand_in_order(map: MapModel, bytes: Seq<u8>)
    requires
        map.file_id.len() == 32,
        encode_utf8(map.file_name).len() <= u64::MAX,
        map.owner_pk.len() <= u64::MAX,
        map.layout().is_prefix_of(bytes),
    ensures
        ({
            let name = encode_utf8(map.file_name);
            let n = name.len() as int;
            let k = map.owner_pk.len() as int;
            &&& 52 + n + k <= bytes.len()
            &&& bytes.subrange(0, 32) == map.file_id
            &&& bytes.subrange(32, 40) == spec_u64_to_le_bytes(n as u64)
            &&& bytes.subrange(40, 40 + n) == name
            &&& bytes.subrange(40 + n, 44 + n) == spec_u32_to_le_bytes(map.num_chunks)
            &&& bytes.subrange(44 + n, 52 + n) == spec_u64_to_le_bytes(k as u64)
            &&& bytes.subrange(52 + n, 52 + n + k) == map.owner_pk
        }),
{
    lemma_layout_fields(map, bytes);
}

/// The length of the bytes of a map: the fields of fixed length, the name and the key.
pub proof fn layout_length(map: MapModel)
    requires
        map.file_id.len() == 32,
    ensures
        map.layout().len() == 52 + encode_utf8(map.file_name).len() + map.owner_pk.len(),
{
    lemma_auto_spec_u64_to_from_le_bytes();
    lemma_auto_spec_u32_to_from_le_bytes();
    let name = encode_utf8(map.file_name);
    assert(spec_u64_to_le_bytes(name.len() as u64).len() == 8);
    assert(spec_u64_to_le_bytes(map.owner_pk.len() as u64).len() == 8);
    assert(spec_u32_to_le_bytes(map.num_chunks).len() == 4);
}

/// No bytes begin with two different maps.
pub proof fn map_is_unambiguous(a: MapModel, b: MapModel, bytes: Seq<u8>)
    requires
        a.valid(),
        b.valid(),
        a.layout().is_prefix_of(bytes),
        b.layout().is_prefix_of(bytes),
    ensures
        a == b,
{
    lemma_auto_spec_u64_to_from_le_bytes();
    lemma_auto_spec_u32_to_from_le_bytes();
    lemma_layout_fields(a, bytes);
    lemma_layout_fields(b, bytes);
    let a_len = encode_utf8(a.file_name).len() as u64;
    let b_len = encode_utf8(b.file_name).len() as u64;
    assert(spec_u64_to_le_bytes(a_len) == spec_u64_to_le_bytes(b_len));
    assert(spec_u64_from_le_bytes(spec_u64_to_le_bytes(a_len)) == a_len);
    assert(spec_u64_from_le_bytes(spec_u64_to_le_bytes(b_len)) == b_len);
    assert(a_len == b_len);
    encode_utf8_decode_utf8(a.file_name);
    encode_utf8_decode_utf8(b.file_name);
    assert(a.file_name == b.file_name);
    assert(spec_u32_from_le_bytes(spec_u32_to_le_bytes(a.num_chunks)) == a.num_chunks);
    assert(spec_u32_from_le_bytes(spec_u32_to_le_bytes(b.num_chunks)) == b.num_chunks);
    let a_key = a.owner_pk.len() as u64;
    let b_key = b.owner_pk.len() as u64;
    assert(spec_u64_from_le_bytes(spec_u64_to_le_bytes(a_key)) == a_key);
    assert(spec_u64_from_le_bytes(spec_u64_to_le_bytes(b_key)) == b_key);
    assert(a_key == b_key);
    assert(a.owner_pk == b.owner_pk);
}

/// What bytes in memory begin with can be a map.
proof fn lemma_prefix_is_valid(map: MapModel, bytes: Seq<u8>)
    requires
        map.file_id.len() == 32,
        map.layout().is_prefix_of(bytes),
        bytes.len() <= usize::MAX,
    ensures
        map.valid(),
{
    assert(encode_utf8(map.file_name).len() <= map.layout().len());
    assert(map.owner_pk.len() <= map.layout().len());
}

/// Reading the bytes of a map gives the map back, whatever follows them.
pub proof fn map_round_trip(map: MapModel, rest: Seq<u8>)
    requires
        map.file_id.len() == 32,
        encode_utf8(map.file_name).len() <= u64::MAX,
        map.owner_pk.len() <= u64::MAX,
    ensures
        read_map(map.layout() + rest) == Some(map),
{
    let bytes = map.layout() + rest;
    assert(map.layout().is_prefix_of(bytes));
    let read = choose|other: MapModel| other.valid() && #[trigger] other.layout().is_prefix_of(
        bytes,
    );
    assert(read.valid() && read.layout().is_prefix_of(bytes));
    map_is_unambiguous(read, map, bytes);
}

/// Where a stored file is found: the content of a `.pgd` file.
#[derive(Debug)]
pub struct DriveMap {
    /// The BLAKE3 hash of the file.
    pub file_id: [u8; 32],
    /// The name of the file.
    pub file_name: String,
    /// The number of chunks.
    pub num_chunks: u32,
    /// The bytes that identify the owner.
    pub owner_pk: Vec<u8>,
}

impl View for DriveMap {
    type V = MapModel;

    open spec fn view(&self) -> MapModel {
        MapModel {
            file_id: self.file_id@,
            file_name: self.file_name@,
            num_chunks: self.num_chunks,
            owner_pk: self.owner_pk@,
        }
    }
}

/// A map is seen as what its fields hold.
pub proof fn map_is_seen_as_its_fields(map: DriveMap)
    ensures
        map@.file_id == map.file_id@,
        map@.file_name == map.file_name@,
        map@.num_chunks == map.num_chunks,
        map@.owner_pk == map.owner_pk@,
{
}

/// Bytes are read as a map only where they begin with the bytes of that map.
pub proof fn map_is_read_from_its_bytes(bytes: Seq<u8>)
    ensures
        match read_map(bytes) {
            Some(map) => map.file_id.len() == 32 && map.layout().is_prefix_of(bytes),
            None => forall|map: MapModel|
                map.file_id.len() == 32 && encode_utf8(map.file_name).len() <= u64::MAX
                    && map.owner_pk.len() <= u64::MAX ==> !(#[trigger] map.layout()).is_prefix_of(
                    bytes,
                ),
        },
{
}

/// Calls `bincode::serialize` on the four fields of a map. Claims that it writes them one
/// after the other, numbers in little-endian order, and the name and the key behind
/// their lengths; and that it never fails.
#[verifier::external_body]
fn serialize_fields(
    file_id: &[u8; 32],
    file_name: &str,
    num_chunks: u32,
    owner_pk: &[u8],
) -> (bytes: Option<Vec<u8>>)
    requires
        encode_utf8(file_name@).len() + owner_pk@.len() + 52 <= isize::MAX,
    ensures
        bytes.is_some(),
        bytes.unwrap()@ == (MapModel {
            file_id: file_id@,
            file_name: file_name@,
            num_chunks,
            owner_pk: owner_pk@,
        }).layout(),
{
    bincode::serialize(&(file_id, file_name, num_chunks, owner_pk)).ok()
}

/// Calls `bincode::deserialize` for the four fields of a map. Claims that it succeeds
/// where the bytes begin with the fields of some map, as `bincode::serialize` writes
/// them, and reads those fields; what follows them is ignored.
#[verifier::external_body]
fn deserialize_fields(bytes: &[u8]) -> (fields: Option<([u8; 32], String, u32, Vec<u8>)>)
    ensures
        match fields {
            Some((file_id, file_name, num_chunks, owner_pk)) => (MapModel {
                file_id: file_id@,
                file_name: file_name@,
                num_chunks,
                owner_pk: owner_pk@,
            }).layout().is_prefix_of(bytes@),
            None => forall|map: MapModel|
                map.valid() ==> !(#[trigger] map.layout()).is_prefix_of(bytes@),
        },
{
    bincode::deserialize(bytes).ok()
}

impl DriveMap {
    /// The ending of the names of map files.
    pub const EXTENSION: &'static str = ".pgd";

    /// The bytes of the map.
    pub fn to_bytes(&self) -> (bytes: Vec<u8>)
        requires
            encode_utf8(self.file_name@).len() + self.owner_pk@.len() + 52 <= isize::MAX,
        ensures
            bytes@ == self@.layout(),
    {
        serialize_fields(
            &self.file_id,
            self.file_name.as_str(),
            self.num_chunks,
            self.owner_pk.as_slice(),
        ).unwrap()
    }

    /// The map that `bytes` begin with, if they begin with one.
    pub fn from_bytes(bytes: &[u8]) -> (map: Option<DriveMap>)
        ensures
            match map {
                Some(map) => read_map(bytes@) == Some(map@),
                None => read_map(bytes@) is None,
            },
            match map {
                Some(map) => map@.layout().is_prefix_of(bytes@),
                None => forall|map: MapModel|
                    map.file_id.len() == 32 && encode_utf8(map.file_name).len() <= u64::MAX
                        && map.owner_pk.len() <= u64::MAX ==> !(
                    #[trigger] map.layout()).is_prefix_of(bytes@),
            },
    {
        match deserialize_fields(bytes) {
            Some((file_id, file_name, num_chunks, owner_pk)) => {
                let map = DriveMap { file_id, file_name, num_chunks, owner_pk };
                proof {
                    assert(bytes@.len() == bytes.len());
                    lemma_prefix_is_valid(map@, bytes@);
                    assert(map@.layout() + bytes@.skip(map@.layout().len() as int) =~= bytes@);
                    map_round_trip(map@, bytes@.skip(map@.layout().len() as int));
                }
                Some(map)
            },
            None => None,
        }
    }
}

} // verus!
