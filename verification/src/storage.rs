//! Chunks of files: how they are encrypted, cut into fragments, named on disk and put
//! together again.

use crate::cipher::{aes256gcm_open, aes256gcm_seal, nonce_drawn, sealable, TAG_LEN};
use crate::text::{
    contents, decimal, decimal_injective, decimal_is_digits, encode_hex, hex_text,
    hex_text_injective, push_decimal,
};
use vstd::prelude::*;

pub use crate::cipher::AesEncryption;
pub use crate::drive_map::DriveMap;

verus! {

/// The number of fragments that give a chunk back.
pub const SHAMIR_THRESHOLD: u8 = 4;

/// The number of fragments that a chunk is cut into.
pub const SHAMIR_TOTAL: u8 = 7;

/// How files are cut into chunks.
pub struct Chunker;

impl Chunker {
    /// The size of a chunk in bytes: one mebibyte.
    pub const CHUNK_SIZE: usize = 1024 * 1024;
}

/// Bytes that come in pieces.
pub open spec fn views(pieces: Seq<Vec<u8>>) -> Seq<Seq<u8>> {
    Seq::new(pieces.len(), |i: int| pieces[i]@)
}

/// Where chunk `i` of a file of `len` bytes begins; past the last chunk, where the file ends.
pub open spec fn chunk_start(i: int, len: nat) -> int {
    if i * 0x10_0000 <= len {
        i * 0x10_0000
    } else {
        len as int
    }
}

/// The chunks of a file: as many of one mebibyte as can be filled, and one more for what is
/// left over.
pub open spec fn chunks_of(file: Seq<u8>) -> Seq<Seq<u8>> {
    Seq::new(
        (file.len() + 0xf_ffff) / 0x10_0000,
        |i: int| file.subrange(chunk_start(i, file.len()), chunk_start(i + 1, file.len())),
    )
}

/// The chunks of a file that can be filled.
pub open spec fn full_chunks(file: Seq<u8>) -> Seq<Seq<u8>> {
    chunks_of(file).take(file.len() as int / 0x10_0000)
}

/// A file as it is cut into chunks, whatever pieces it is read in.
pub struct ChunkCutter {
    pending: Vec<u8>,
    fed: Ghost<Seq<u8>>,
}

impl ChunkCutter {
    #[verifier::type_invariant]
    spec fn wf(self) -> bool {
        self.pending@ == self.fed@.skip(self.fed@.len() as int / 0x10_0000 * 0x10_0000)
    }

    /// What was read of the file so far.
    pub closed spec fn read(self) -> Seq<u8> {
        self.fed@
    }

    /// A file of which nothing was read yet.
    pub fn new() -> (cutter: Self)
        ensures
            cutter.read() == Seq::<u8>::empty(),
    {
        assert(Seq::<u8>::empty().skip(0) =~= Seq::empty());
        ChunkCutter { pending: Vec::new(), fed: Ghost(Seq::empty()) }
    }

    /// Takes the next piece that was read, and returns the chunks that it fills.
    pub fn feed(&mut self, piece: &[u8]) -> (chunks: Vec<Vec<u8>>)
        ensures
            final(self).read() == old(self).read() + piece@,
            views(chunks@) == full_chunks(final(self).read()).skip(
                full_chunks(old(self).read()).len() as int,
            ),
            old(self).read().len() / 0x10_0000 + chunks@.len() == final(self).read().len()
                / 0x10_0000,
            forall|i: int|
                0 <= i < chunks@.len() ==> (#[trigger] chunks@[i])@ == final(self).read().subrange(
                    (old(self).read().len() / 0x10_0000 + i) * 0x10_0000,
                    (old(self).read().len() / 0x10_0000 + i + 1) * 0x10_0000,
                ),
    {
        proof {
            use_type_invariant(&*self);
        }
        let mut before = Self::new();
        std::mem::swap(&mut before, self);
        let ChunkCutter { pending, fed } = before;
        let mut pending = pending;
        pending.extend_from_slice(piece);
        let ghost read = fed@ + piece@;
        let ghost first = fed@.len() as int / 0x10_0000;
        assert(pending@ =~= read.skip(first * 0x10_0000));
        let mut chunks: Vec<Vec<u8>> = Vec::new();
        while pending.len() >= Chunker::CHUNK_SIZE
            invariant
                0 <= first,
                (first + chunks@.len()) * 0x10_0000 <= read.len(),
                pending@ == read.skip((first + chunks@.len()) * 0x10_0000),
                forall|i: int|
                    0 <= i < chunks@.len() ==> (#[trigger] chunks@[i])@ == read.subrange(
                        (first + i) * 0x10_0000,
                        (first + i + 1) * 0x10_0000,
                    ),
            decreases pending@.len(),
        {
            let ghost n = first + chunks@.len();
            let rest = pending.split_off(Chunker::CHUNK_SIZE);
            assert(pending@ =~= read.subrange(n * 0x10_0000, (n + 1) * 0x10_0000));
            assert(rest@ =~= read.skip((n + 1) * 0x10_0000));
            chunks.push(pending);
            pending = rest;
        }
        assert(read.len() as int / 0x10_0000 == first + chunks@.len());
        assert(views(chunks@) =~= full_chunks(read).skip(full_chunks(fed@).len() as int));
        *self = ChunkCutter { pending, fed: Ghost(read) };
        chunks
    }

    /// The last chunk, where the file leaves something for one.
    pub fn finish(self) -> (last: Option<Vec<u8>>)
        ensures
            chunks_of(self.read()) == match contents(last) {
                Some(last) => full_chunks(self.read()).push(last),
                None => full_chunks(self.read()),
            },
            match last {
                Some(last) => {
                    &&& self.read().len() % 0x10_0000 > 0
                    &&& last@ == self.read().skip(
                        self.read().len() as int / 0x10_0000 * 0x10_0000,
                    )
                },
                None => self.read().len() % 0x10_0000 == 0,
            },
    {
        proof {
            use_type_invariant(&self);
        }
        if self.pending.len() == 0 {
            assert(chunks_of(self.read()) =~= full_chunks(self.read()));
            None
        } else {
            assert(chunks_of(self.read()) =~= full_chunks(self.read()).push(self.pending@));
            Some(self.pending)
        }
    }
}

/// What is needed to fetch and decrypt the fragments of a chunk.
#[derive(Debug)]
pub struct EncryptedChunk {
    /// The nonce that the chunk was encrypted under.
    pub nonce: [u8; 12],
    /// The number of fragments.
    pub num_fragments: u8,
    /// The number of fragments that give the chunk back.
    pub threshold: u8,
    /// The numbers of the fragments.
    pub fragment_ids: Vec<u8>,
}

impl EncryptedChunk {
    /// The record of a chunk that was encrypted under `nonce` and cut into the fragments
    /// numbered `fragment_ids`. The count keeps its lowest eight bits.
    pub fn describe(nonce: [u8; 12], fragment_ids: Vec<u8>) -> (chunk: EncryptedChunk)
        ensures
            chunk.nonce == nonce,
            chunk.num_fragments == fragment_ids@.len() % 256,
            chunk.threshold == SHAMIR_THRESHOLD,
            chunk.fragment_ids == fragment_ids,
    {
        let count: usize = fragment_ids.len();
        assert(count as u8 == count % 256) by (bit_vector);
        EncryptedChunk {
            nonce,
            num_fragments: #[verifier::truncate] (count as u8),
            threshold: SHAMIR_THRESHOLD,
            fragment_ids,
        }
    }
}

/// An encrypted chunk, ready to be cut into `total` fragments, any `threshold` of which
/// give it back.
pub struct FragmentJob {
    pub ciphertext: Vec<u8>,
    pub nonce: [u8; 12],
    pub threshold: u8,
    pub total: u8,
}

/// Whether `ciphertext` is `chunk` as encrypted under `key` and `nonce`.
pub open spec fn encrypts(
    key: Seq<u8>,
    nonce: Seq<u8>,
    ciphertext: Seq<u8>,
    chunk: Seq<u8>,
) -> bool {
    &&& ciphertext == aes256gcm_seal(key, nonce, chunk)
    &&& ciphertext.len() == chunk.len() + TAG_LEN
    &&& aes256gcm_open(key, nonce, ciphertext) == Some(chunk)
}

/// Encrypts a chunk under a random nonce and fixes how it is to be cut.
pub fn encrypt_and_fragment(chunk: &[u8], encryption_key: &[u8; 32]) -> (job: FragmentJob)
    requires
        sealable(chunk@.len()),
    ensures
        nonce_drawn(job.nonce),
        encrypts(encryption_key@, job.nonce@, job.ciphertext@, chunk@),
        job.ciphertext@ == aes256gcm_seal(encryption_key@, job.nonce@, chunk@),
        job.ciphertext@.len() == chunk@.len() + TAG_LEN,
        aes256gcm_open(encryption_key@, job.nonce@, job.ciphertext@) == Some(chunk@),
        job.threshold == SHAMIR_THRESHOLD,
        job.total == SHAMIR_TOTAL,
{
    let (ciphertext, nonce) = AesEncryption::encrypt(chunk, encryption_key);
    FragmentJob { ciphertext, nonce, threshold: SHAMIR_THRESHOLD, total: SHAMIR_TOTAL }
}

/// What the reassembled ciphertext, or the failure to reassemble it, gives.
pub open spec fn recovered<E>(
    key: Seq<u8>,
    nonce: Seq<u8>,
    reconstructed: Result<Seq<u8>, E>,
) -> Result<Option<Seq<u8>>, E> {
    match reconstructed {
        Ok(ciphertext) => Ok(aes256gcm_open(key, nonce, ciphertext)),
        Err(error) => Err(error),
    }
}

/// Decrypts a chunk whose ciphertext was put together from its fragments; `None` where
/// the ciphertext was not made under `nonce` and `encryption_key`.
pub fn reconstruct_and_decrypt<E>(
    reconstructed: Result<Vec<u8>, E>,
    nonce: &[u8; 12],
    encryption_key: &[u8; 32],
) -> (chunk: Result<Option<Vec<u8>>, E>)
    ensures
        match (chunk, reconstructed) {
            (Ok(chunk), Ok(ciphertext)) => Ok::<_, E>(contents(chunk)) == recovered::<E>(
                encryption_key@,
                nonce@,
                Ok(ciphertext@),
            ),
            (Err(error), Err(cause)) => error == cause,
            _ => false,
        },
        match (chunk, reconstructed) {
            (Ok(Some(chunk)), Ok(ciphertext)) => aes256gcm_open(
                encryption_key@,
                nonce@,
                ciphertext@,
            ) == Some(chunk@),
            (Ok(None), Ok(ciphertext)) => aes256gcm_open(
                encryption_key@,
                nonce@,
                ciphertext@,
            ) is None,
            (Err(error), Err(cause)) => error == cause,
            _ => false,
        },
{
    match reconstructed {
        Ok(ciphertext) => Ok(AesEncryption::decrypt(ciphertext.as_slice(), nonce, encryption_key)),
        Err(error) => Err(error),
    }
}

/// A ciphertext is made and read under the key and the nonce that are given, and under no
/// others: it is what AES-256-GCM makes of the chunk under them, and what is recovered
/// under a key and a nonce is what AES-256-GCM reads under them.
pub proof fn key_and_nonce_are_those_given<E>(
    key: Seq<u8>,
    nonce: Seq<u8>,
    ciphertext: Seq<u8>,
    chunk: Seq<u8>,
    error: E,
)
    ensures
        encrypts(key, nonce, ciphertext, chunk) ==> {
            &&& ciphertext == aes256gcm_seal(key, nonce, chunk)
            &&& aes256gcm_open(key, nonce, ciphertext) == Some(chunk)
        },
        recovered::<E>(key, nonce, Ok(ciphertext)) == Ok::<_, E>(
            aes256gcm_open(key, nonce, ciphertext),
        ),
        recovered::<E>(key, nonce, Err(error)) == Err::<Option<Seq<u8>>, E>(error),
{
}

/// A chunk comes back once its ciphertext does.
pub proof fn chunk_round_trip<E>(
    key: Seq<u8>,
    nonce: Seq<u8>,
    ciphertext: Seq<u8>,
    chunk: Seq<u8>,
)
    requires
        encrypts(key, nonce, ciphertext, chunk),
    ensures
        recovered::<E>(key, nonce, Ok(ciphertext)) == Ok::<_, E>(Some(chunk)),
{
}

/// The label of a fragment: the hash of its file, the number of the chunk and the number
/// of the fragment.
pub open spec fn fragment_label(file_id: Seq<u8>, chunk: nat, fragment: nat) -> Seq<char> {
    hex_text(file_id) + "_"@ + decimal(chunk) + "_"@ + decimal(fragment)
}

/// The name of the file that a relay keeps a fragment in.
pub open spec fn fragment_name(file_id: Seq<u8>, chunk: nat, fragment: nat) -> Seq<char> {
    fragment_label(file_id, chunk, fragment) + ".frag"@
}

/// Writes the label of a fragment.
fn write_fragment_label(file_id: &[u8; 32], chunk: u32, fragment: u64) -> (label: String)
    ensures
        label@ == fragment_label(file_id@, chunk as nat, fragment as nat),
{
    let mut label = encode_hex(file_id);
    label.append("_");
    push_decimal(&mut label, chunk as u64);
    label.append("_");
    push_decimal(&mut label, fragment);
    label
}

/// The name of the file that a relay keeps a fragment in.
pub fn fragment_file_name(file_id: &[u8; 32], chunk_idx: u32, fragment_idx: u64) -> (name: String)
    ensures
        name@ == fragment_name(file_id@, chunk_idx as nat, fragment_idx as nat),
        name@ == hex_text(file_id@) + "_"@ + decimal(chunk_idx as nat) + "_"@ + decimal(
            fragment_idx as nat,
        ) + ".frag"@,
{
    let mut name = write_fragment_label(file_id, chunk_idx, fragment_idx);
    name.append(".frag");
    name
}

/// Texts that agree up to an underscore that neither `a` nor `b` holds.
proof fn lemma_split_at_underscore(a: Seq<char>, x: Seq<char>, b: Seq<char>, y: Seq<char>)
    requires
        a + "_"@ + x == b + "_"@ + y,
        forall|i: int| 0 <= i < a.len() ==> #[trigger] a[i] != '_',
        forall|i: int| 0 <= i < b.len() ==> #[trigger] b[i] != '_',
    ensures
        a == b,
        x == y,
{
    reveal_strlit("_");
    let left = a + "_"@ + x;
    let right = b + "_"@ + y;
    assert(left[a.len() as int] == '_');
    assert(right[b.len() as int] == '_');
    if a.len() < b.len() {
        assert(right[a.len() as int] == b[a.len() as int]);
    } else if b.len() < a.len() {
        assert(left[b.len() as int] == a[b.len() as int]);
    }
    assert(a =~= left.take(a.len() as int));
    assert(b =~= right.take(b.len() as int));
    assert(x =~= left.skip(a.len() as int + 1));
    assert(y =~= right.skip(b.len() as int + 1));
}

proof fn lemma_decimal_has_no_underscore(n: nat)
    ensures
        forall|i: int| 0 <= i < decimal(n).len() ==> #[trigger] decimal(n)[i] != '_',
{
    decimal_is_digits(n);
}

/// Fragments with the same label are the same fragment of the same chunk of the same file.
pub proof fn fragment_labels_are_distinct(
    file_a: Seq<u8>,
    chunk_a: nat,
    fragment_a: nat,
    file_b: Seq<u8>,
    chunk_b: nat,
    fragment_b: nat,
)
    requires
        file_a.len() == file_b.len(),
        fragment_label(file_a, chunk_a, fragment_a) == fragment_label(file_b, chunk_b, fragment_b),
    ensures
        file_a == file_b,
        chunk_a == chunk_b,
        fragment_a == fragment_b,
{
    let label = fragment_label(file_a, chunk_a, fragment_a);
    let n = hex_text(file_a).len() as int;
    assert(n == hex_text(file_b).len());
    assert(label.take(n) =~= hex_text(file_a));
    assert(label.take(n) =~= hex_text(file_b));
    hex_text_injective(file_a, file_b);
    reveal_strlit("_");
    assert(label.skip(n + 1) =~= decimal(chunk_a) + "_"@ + decimal(fragment_a));
    assert(label.skip(n + 1) =~= decimal(chunk_b) + "_"@ + decimal(fragment_b));
    lemma_decimal_has_no_underscore(chunk_a);
    lemma_decimal_has_no_underscore(chunk_b);
    lemma_split_at_underscore(
        decimal(chunk_a),
        decimal(fragment_a),
        decimal(chunk_b),
        decimal(fragment_b),
    );
    decimal_injective(chunk_a, chunk_b);
    decimal_injective(fragment_a, fragment_b);
}

/// No two fragments share a file: what is stored under one name is never overwritten by
/// another fragment, nor fetched in its place.
pub proof fn fragment_names_are_distinct(
    file_a: Seq<u8>,
    chunk_a: nat,
    fragment_a: nat,
    file_b: Seq<u8>,
    chunk_b: nat,
    fragment_b: nat,
)
    requires
        file_a.len() == file_b.len(),
        fragment_name(file_a, chunk_a, fragment_a) == fragment_name(file_b, chunk_b, fragment_b),
    ensures
        file_a == file_b,
        chunk_a == chunk_b,
        fragment_a == fragment_b,
{
    let name = fragment_name(file_a, chunk_a, fragment_a);
    let a = fragment_label(file_a, chunk_a, fragment_a);
    let b = fragment_label(file_b, chunk_b, fragment_b);
    assert(name.len() == a.len() + ".frag"@.len());
    assert(fragment_name(file_b, chunk_b, fragment_b).len() == b.len() + ".frag"@.len());
    assert(a =~= name.take(a.len() as int));
    assert(b =~= name.take(b.len() as int));
    fragment_labels_are_distinct(file_a, chunk_a, fragment_a, file_b, chunk_b, fragment_b);
}

/// The directory of a relay node and the room that it may take.
pub struct RelayStore {
    pub cache_dir: String,
    pub max_size_bytes: u64,
}

impl RelayStore {
    /// A store in the directory `cache_dir`, with room for `max_gb` gibibytes.
    pub fn new(cache_dir: String, max_gb: usize) -> (store: Self)
        requires
            max_gb * 0x4000_0000 <= u64::MAX,
        ensures
            store.cache_dir == cache_dir,
            store.max_size_bytes == max_gb * 0x4000_0000,
    {
        RelayStore { cache_dir, max_size_bytes: max_gb as u64 * 1024 * 1024 * 1024 }
    }
}

/// The fragments that were obtained, in order.
pub open spec fn obtained<F>(outcomes: Seq<Option<F>>) -> Seq<F>
    decreases outcomes.len(),
{
    if outcomes.len() == 0 {
        Seq::empty()
    } else {
        match outcomes.last() {
            Some(fragment) => obtained(outcomes.drop_last()).push(fragment),
            None => obtained(outcomes.drop_last()),
        }
    }
}

/// Every attempt that gave a fragment counts, whatever the other attempts gave, and no other
/// does: the fragments obtained are the outcomes that are fragments, in order.
pub proof fn fragments_held_are_those_obtained<F>(outcomes: Seq<Option<F>>)
    ensures
        obtained(outcomes).len() == outcomes.filter(|outcome: Option<F>| outcome is Some).len(),
        forall|i: int|
            0 <= i < obtained(outcomes).len() ==> Some(#[trigger] obtained(outcomes)[i])
                == outcomes.filter(|outcome: Option<F>| outcome is Some)[i],
    decreases outcomes.len(),
{
    reveal(Seq::filter);
    if outcomes.len() > 0 {
        fragments_held_are_those_obtained(outcomes.drop_last());
    }
}

/// One more attempt adds its fragment behind those before, if it gave one, whatever those
/// were.
pub proof fn later_fragment_is_held_too<F>(
    before: Seq<Option<F>>,
    fragment: F,
    after: Seq<Option<F>>,
)
    ensures
        obtained(before.push(Some(fragment))) == obtained(before).push(fragment),
        obtained(before.push(None)) == obtained(before),
        obtained(before + after) == obtained(before) + obtained(after),
    decreases after.len(),
{
    assert(before.push(Some(fragment)).drop_last() =~= before);
    assert(before.push(None).drop_last() =~= before);
    if after.len() == 0 {
        assert(before + after =~= before);
        assert(obtained(before) + obtained(after) =~= obtained(before));
    } else {
        later_fragment_is_held_too(before, fragment, after.drop_last());
        assert((before + after).drop_last() =~= before + after.drop_last());
        assert(obtained(before + after) =~= obtained(before) + obtained(after));
    }
}

/// The number of fragments at which fetching stops: the threshold, but no fewer than one.
pub open spec fn enough(threshold: u8) -> nat {
    if threshold == 0 {
        1
    } else {
        threshold as nat
    }
}

/// Fewer fragments could be fetched than a chunk needs.
#[derive(Debug, Clone, Copy, PartialEq, Eq, Structural)]
pub struct TooFewFragments {
    pub available: usize,
    pub threshold: u8,
}

impl TooFewFragments {
    /// The message to the user.
    pub fn message(&self) -> (message: String)
        ensures
            message@ == "Only "@ + decimal(self.available as nat) + " of "@ + decimal(
                self.threshold as nat,
            ) + " fragments available"@,
    {
        let mut message: String = "Only ".to_owned();
        push_decimal(&mut message, self.available as u64);
        message.append(" of ");
        push_decimal(&mut message, self.threshold as u64);
        message.append(" fragments available");
        message
    }
}

/// The fetching of a chunk's fragments, one after the other, until there are enough.
pub struct ChunkRetrieval<F> {
    fragment_ids: Vec<u8>,
    threshold: u8,
    asked: usize,
    fragments: Vec<F>,
    outcomes: Ghost<Seq<Option<F>>>,
}

impl<F> ChunkRetrieval<F> {
    #[verifier::type_invariant]
    spec fn wf(self) -> bool {
        &&& self.asked == self.outcomes@.len()
        &&& self.asked <= self.fragment_ids@.len()
        &&& self.fragments@ == obtained(self.outcomes@)
        &&& self.fragments@.len() <= enough(self.threshold)
    }

    /// The numbers of the fragments to fetch.
    pub closed spec fn ids(self) -> Seq<u8> {
        self.fragment_ids@
    }

    /// The number of fragments needed.
    pub closed spec fn needed(self) -> u8 {
        self.threshold
    }

    /// What the attempts have given so far: a fragment, or nothing.
    pub closed spec fn history(self) -> Seq<Option<F>> {
        self.outcomes@
    }

    /// Whether another fragment is to be fetched.
    pub open spec fn unfinished(self) -> bool {
        self.history().len() < self.ids().len() && obtained(self.history()).len() < enough(
            self.needed(),
        )
    }

    /// The start of fetching the fragments of `chunk`.
    pub fn begin(chunk: &EncryptedChunk) -> (retrieval: Self)
        ensures
            retrieval.ids() == chunk.fragment_ids@,
            retrieval.needed() == chunk.threshold,
            retrieval.history() == Seq::<Option<F>>::empty(),
    {
        let fragment_ids = chunk.fragment_ids.clone();
        assert(fragment_ids@ =~= chunk.fragment_ids@);
        ChunkRetrieval {
            fragment_ids,
            threshold: chunk.threshold,
            asked: 0,
            fragments: Vec::new(),
            outcomes: Ghost(Seq::empty()),
        }
    }

    /// The number of the fragment to fetch next, if another one is to be fetched.
    pub fn next_fragment(&self) -> (id: Option<u8>)
        ensures
            match id {
                Some(id) => self.unfinished() && id == self.ids()[self.history().len() as int],
                None => !self.unfinished(),
            },
            ({
                let held = self.history().filter(|outcome: Option<F>| outcome is Some).len();
                id is Some <==> {
                    &&& self.history().len() < self.ids().len()
                    &&& held == 0 || held < self.needed()
                }
            }),
    {
        proof {
            use_type_invariant(self);
        }
        proof {
            fragments_held_are_those_obtained(self.outcomes@);
        }
        let needed: usize = if self.threshold == 0 {
            1
        } else {
            self.threshold as usize
        };
        if self.asked < self.fragment_ids.len() && self.fragments.len() < needed {
            Some(self.fragment_ids[self.asked])
        } else {
            None
        }
    }

    /// Takes what the attempt to fetch the next fragment gave: the fragment, or nothing
    /// where it could not be read.
    pub fn record(&mut self, outcome: Option<F>)
        requires
            old(self).unfinished(),
        ensures
            final(self).ids() == old(self).ids(),
            final(self).needed() == old(self).needed(),
            final(self).history() == old(self).history().push(outcome),
    {
        proof {
            use_type_invariant(&*self);
        }
        let mut rest: ChunkRetrieval<F> = ChunkRetrieval {
            fragment_ids: Vec::new(),
            threshold: 0,
            asked: 0,
            fragments: Vec::new(),
            outcomes: Ghost(Seq::empty()),
        };
        std::mem::swap(&mut rest, self);
        let ChunkRetrieval { fragment_ids, threshold, asked, fragments, outcomes } = rest;
        let mut fragments = fragments;
        let ghost history = outcomes@.push(outcome);
        assert(history.drop_last() =~= outcomes@);
        assert(asked < fragment_ids.len());
        match outcome {
            Some(fragment) => {
                fragments.push(fragment);
            },
            None => {},
        }
        *self = ChunkRetrieval {
            fragment_ids,
            threshold,
            asked: asked + 1,
            fragments,
            outcomes: Ghost(history),
        };
    }

    /// The fragments obtained, if there are as many as the chunk needs.
    pub fn finish(self) -> (fragments: Result<Vec<F>, TooFewFragments>)
        ensures
            match fragments {
                Ok(fragments) => fragments@ == obtained(self.history()) && self.needed()
                    <= fragments@.len() <= enough(self.needed()),
                Err(error) => obtained(self.history()).len() < self.needed() && error.available
                    == obtained(self.history()).len() && error.threshold == self.needed(),
            },
            ({
                let held = self.history().filter(|outcome: Option<F>| outcome is Some);
                match fragments {
                    Ok(fragments) => {
                        &&& fragments@.len() == held.len() >= self.needed()
                        &&& forall|i: int|
                            0 <= i < held.len() ==> Some(#[trigger] fragments@[i]) == held[i]
                    },
                    Err(error) => {
                        &&& error.available == held.len() < self.needed()
                        &&& error.threshold == self.needed()
                    },
                }
            }),
    {
        proof {
            use_type_invariant(&self);
            fragments_held_are_those_obtained(self.outcomes@);
        }
        if self.fragments.len() < self.threshold as usize {
            return Err(
                TooFewFragments { available: self.fragments.len(), threshold: self.threshold },
            );
        }
        Ok(self.fragments)
    }
}

proof fn lemma_obtained_prefix<F>(outcomes: Seq<Option<F>>, n: int)
    requires
        0 <= n <= outcomes.len(),
    ensures
        obtained(outcomes.take(n)).is_prefix_of(obtained(outcomes)),
    decreases outcomes.len(),
{
    if n == outcomes.len() {
        assert(outcomes.take(n) =~= outcomes);
    } else {
        let shorter = outcomes.drop_last();
        assert(shorter.take(n) =~= outcomes.take(n));
        lemma_obtained_prefix(shorter, n);
        let head = obtained(outcomes.take(n));
        assert(head =~= obtained(shorter).subrange(0, head.len() as int));
        assert(head =~= obtained(outcomes).subrange(0, head.len() as int));
    }
}

/// Where fetching fragment `i` would give `available[i]`, a retrieval that has come to its
/// end succeeds if and only if as many fragments are available as the chunk needs, and
/// it holds the first ones of them.
pub proof fn retrieval_succeeds_when_enough_are_available<F>(
    retrieval: ChunkRetrieval<F>,
    available: Seq<Option<F>>,
)
    requires
        available.len() == retrieval.ids().len(),
        retrieval.history().is_prefix_of(available),
        !retrieval.unfinished(),
    ensures
        obtained(retrieval.history()).len() >= retrieval.needed() <==> obtained(available).len()
            >= retrieval.needed(),
        obtained(retrieval.history()).is_prefix_of(obtained(available)),
{
    let n = retrieval.history().len() as int;
    assert(available.take(n) =~= retrieval.history());
    lemma_obtained_prefix(available, n);
    if n == available.len() {
        assert(available.take(n) =~= available);
    }
}

/// Fetching stops at the threshold, and without one at the first fragment.
pub proof fn fetching_stops_at_the_threshold(threshold: u8)
    ensures
        threshold > 0 ==> enough(threshold) == threshold,
        enough(0) == 1,
{
}

/// Whether `taken` holds, in their places, some of the fragments that `shares` are.
pub open spec fn taken_from<F>(taken: Seq<Option<F>>, shares: Seq<F>) -> bool {
    &&& taken.len() <= shares.len()
    &&& forall|i: int| 0 <= i < taken.len() && taken[i] is Some ==> #[trigger] taken[i] == Some(
        shares[i],
    )
}

/// Whether `fragments` are the outcomes in `taken` that are fragments, in order.
pub open spec fn fragments_in<F>(taken: Seq<Option<F>>, fragments: Seq<F>) -> bool {
    let held = taken.filter(|outcome: Option<F>| outcome is Some);
    &&& fragments.len() == held.len()
    &&& forall|i: int| 0 <= i < held.len() ==> Some(#[trigger] fragments[i]) == held[i]
}

/// What secret sharing promises of the fragments `shares` of a ciphertext: any of them, as
/// long as they are no fewer than the threshold, give the ciphertext back.
pub open spec fn shares_of<F, E>(
    reconstruct: spec_fn(Seq<F>) -> Result<Seq<u8>, E>,
    shares: Seq<F>,
    ciphertext: Seq<u8>,
) -> bool {
    forall|taken: Seq<Option<F>>, fragments: Seq<F>|
        taken_from(taken, shares) && #[trigger] fragments_in(taken, fragments) && fragments.len()
            >= SHAMIR_THRESHOLD ==> reconstruct(fragments) == Ok::<_, E>(ciphertext)
}

/// A chunk that was stored: its bytes, what it was encrypted under and to, and the
/// fragments of that, with those that can still be fetched.
pub struct StoredChunk<F> {
    pub chunk: Seq<u8>,
    pub key: Seq<u8>,
    pub nonce: Seq<u8>,
    pub ciphertext: Seq<u8>,
    pub shares: Seq<F>,
    pub available: Seq<Option<F>>,
}

impl<F> StoredChunk<F> {
    /// Whether the chunk was encrypted and cut as it should be, and enough of its
    /// fragments can be fetched.
    pub open spec fn kept<E>(self, reconstruct: spec_fn(Seq<F>) -> Result<Seq<u8>, E>) -> bool {
        &&& encrypts(self.key, self.nonce, self.ciphertext, self.chunk)
        &&& shares_of(reconstruct, self.shares, self.ciphertext)
        &&& self.available.len() == self.shares.len()
        &&& taken_from(self.available, self.shares)
        &&& self.available.filter(|outcome: Option<F>| outcome is Some).len() >= SHAMIR_THRESHOLD
    }

    /// Whether `retrieval` fetched fragments of the chunk until it had enough of them, or
    /// there were no more.
    pub open spec fn fetched_by(self, retrieval: ChunkRetrieval<F>) -> bool {
        &&& retrieval.ids().len() == self.shares.len()
        &&& retrieval.needed() == SHAMIR_THRESHOLD
        &&& retrieval.history().is_prefix_of(self.available)
        &&& !retrieval.unfinished()
    }
}

/// A stored chunk comes back as long as enough of its fragments can be fetched, given that
/// secret sharing keeps its promise.
pub proof fn stored_chunk_comes_back<F, E>(
    reconstruct: spec_fn(Seq<F>) -> Result<Seq<u8>, E>,
    stored: StoredChunk<F>,
    retrieval: ChunkRetrieval<F>,
)
    requires
        stored.kept(reconstruct),
        stored.fetched_by(retrieval),
    ensures
        obtained(retrieval.history()).len() >= retrieval.needed(),
        recovered(stored.key, stored.nonce, reconstruct(obtained(retrieval.history()))) == Ok::<
            _,
            E,
        >(Some(stored.chunk)),
        forall|fragments: Seq<F>| #[trigger]
            fragments_in(retrieval.history(), fragments) ==> fragments.len() >= SHAMIR_THRESHOLD
                && reconstruct(fragments) == Ok::<_, E>(stored.ciphertext),
        aes256gcm_open(stored.key, stored.nonce, stored.ciphertext) == Some(stored.chunk),
{
    let history = retrieval.history();
    fragments_held_are_those_obtained(stored.available);
    fragments_held_are_those_obtained(history);
    assert(fragments_in(history, obtained(history)));
    retrieval_succeeds_when_enough_are_available(retrieval, stored.available);
    assert forall|i: int| 0 <= i < history.len() && history[i] is Some implies
        #[trigger] history[i] == Some(stored.shares[i]) by {
        assert(history[i] == stored.available.subrange(0, history.len() as int)[i]);
        assert(stored.available[i] is Some);
    }
    assert(taken_from(history, stored.shares));
    chunk_round_trip::<E>(stored.key, stored.nonce, stored.ciphertext, stored.chunk);
}

} // verus!
