//! The course of an upload and of a download.

use crate::drive_map::{DriveMap, MapModel};
use crate::network::{ChunkRequest, ChunkResponse};
use crate::storage::{
    chunk_start, chunks_of, fragment_file_name, fragment_name, fragment_names_are_distinct,
    obtained, recovered, stored_chunk_comes_back, ChunkRetrieval, Chunker, StoredChunk,
};
use crate::text::{bytes_equal, decimal, hex_text};
use vstd::prelude::*;

verus! {

/// The BLAKE3 hash of `data`.
pub uninterp spec fn blake3_digest(data: Seq<u8>) -> Seq<u8>;

/// Calls `blake3::hash`, and claims that the hash is a function of the data.
#[verifier::external_body]
fn blake3_hash(data: &[u8]) -> (hash: [u8; 32])
    ensures
        hash@ == blake3_digest(data@),
{
    *blake3::hash(data).as_bytes()
}

/// The identity of a file: the BLAKE3 hash of what it holds.
pub fn file_identity(file_bytes: &[u8]) -> (file_id: [u8; 32])
    ensures
        file_id@ == blake3_digest(file_bytes@),
{
    blake3_hash(file_bytes)
}

/// The chunks of a file that an upload has come to, and their bytes.
pub struct UploadProgress {
    pub chunks: u32,
    pub bytes: u64,
}

/// The first `n` numbers, from zero.
pub open spec fn numbers(n: nat) -> Seq<nat> {
    Seq::new(n, |i: int| i as nat)
}

impl UploadProgress {
    /// The numbers handed out so far.
    pub open spec fn handed_out(self) -> Seq<nat> {
        numbers(self.chunks as nat)
    }

    /// An upload that has not begun.
    pub fn new() -> (progress: Self)
        ensures
            progress.chunks == 0,
            progress.bytes == 0,
            progress.handed_out() == Seq::<nat>::empty(),
    {
        UploadProgress { chunks: 0, bytes: 0 }
    }

    /// Comes to the next chunk, of `length` bytes, and returns its number. Chunks are
    /// numbered from zero, as a download asks for them.
    pub fn next_chunk(&mut self, length: usize) -> (chunk: u32)
        requires
            old(self).chunks < u32::MAX,
            old(self).bytes + length <= u64::MAX,
        ensures
            chunk == old(self).chunks,
            final(self).chunks == old(self).chunks + 1,
            final(self).bytes == old(self).bytes + length,
            final(self).handed_out() == old(self).handed_out().push(chunk as nat),
    {
        let chunk: u32 = self.chunks;
        self.chunks += 1;
        self.bytes += length as u64;
        chunk
    }

    /// The map of the file, once all its chunks are uploaded.
    pub fn map(&self, file_id: [u8; 32], file_path: &str, owner_pk: Vec<u8>) -> (map: DriveMap)
        ensures
            map.file_id == file_id,
            map.file_name@ == file_path@,
            map.num_chunks == self.chunks,
            map.owner_pk == owner_pk,
    {
        DriveMap { file_id, file_name: file_path.to_owned(), num_chunks: self.chunks, owner_pk }
    }
}

/// The path that an upload keeps a fragment under: in the directory of the node's own
/// relay, under the name by which the relay serves it.
pub open spec fn upload_path(file_id: Seq<u8>, chunk: nat, fragment: nat) -> Seq<char> {
    ".drive_cache/"@ + fragment_name(file_id, chunk, fragment)
}

/// The path that an upload keeps a fragment under.
pub fn upload_fragment_path(file_id: &[u8; 32], chunk: u32, fragment: u64) -> (path: String)
    ensures
        path@ == upload_path(file_id@, chunk as nat, fragment as nat),
        path@ == ".drive_cache/"@ + (hex_text(file_id@) + "_"@ + decimal(chunk as nat) + "_"@
            + decimal(fragment as nat) + ".frag"@),
{
    let mut path: String = ".drive_cache/".to_owned();
    let name = fragment_file_name(file_id, chunk, fragment);
    path.append(name.as_str());
    path
}

/// The paths that an upload keeps the fragments of a chunk under. The fragments are numbered
/// from zero.
pub fn upload_fragment_paths(file_id: &[u8; 32], chunk: u32, fragments: usize) -> (paths: Vec<
    String,
>)
    ensures
        paths@.len() == fragments,
        forall|i: int|
            0 <= i < fragments ==> (#[trigger] paths@[i])@ == upload_path(
                file_id@,
                chunk as nat,
                i as nat,
            ),
        forall|i: int|
            0 <= i < fragments ==> (#[trigger] paths@[i])@ == ".drive_cache/"@ + (hex_text(file_id@)
                + "_"@ + decimal(chunk as nat) + "_"@ + decimal(i as nat) + ".frag"@),
{
    let mut paths: Vec<String> = Vec::new();
    let mut i: usize = 0;
    while i < fragments
        invariant
            i <= fragments,
            paths@.len() == i,
            forall|j: int|
                0 <= j < i ==> (#[trigger] paths@[j])@ == upload_path(
                    file_id@,
                    chunk as nat,
                    j as nat,
                ),
        decreases fragments - i,
    {
        paths.push(upload_fragment_path(file_id, chunk, i as u64));
        i += 1;
    }
    paths
}

proof fn lemma_in_directory(a: Seq<char>, b: Seq<char>)
    requires
        ".drive_cache/"@ + a == ".drive_cache/"@ + b,
    ensures
        a == b,
{
    let start = ".drive_cache/"@.len() as int;
    assert(a =~= (".drive_cache/"@ + a).skip(start));
    assert(b =~= (".drive_cache/"@ + b).skip(start));
}

/// The path of a fragment is named by the file's hash, the number of the chunk and the number
/// of the fragment, in this order.
pub proof fn paths_are_named_by_their_numbers(file_id: Seq<u8>, chunk: nat, fragment: nat)
    ensures
        upload_path(file_id, chunk, fragment) == ".drive_cache/"@ + (hex_text(file_id) + "_"@
            + decimal(chunk) + "_"@ + decimal(fragment) + ".frag"@),
{
}

/// No two fragments are kept under the same path.
pub proof fn upload_paths_are_distinct(
    file_a: Seq<u8>,
    chunk_a: nat,
    fragment_a: nat,
    file_b: Seq<u8>,
    chunk_b: nat,
    fragment_b: nat,
)
    requires
        file_a.len() == file_b.len(),
        upload_path(file_a, chunk_a, fragment_a) == upload_path(file_b, chunk_b, fragment_b),
    ensures
        file_a == file_b,
        chunk_a == chunk_b,
        fragment_a == fragment_b,
{
    lemma_in_directory(
        fragment_name(file_a, chunk_a, fragment_a),
        fragment_name(file_b, chunk_b, fragment_b),
    );
    fragment_names_are_distinct(file_a, chunk_a, fragment_a, file_b, chunk_b, fragment_b);
}

/// A request finds what was uploaded: it concerns the file that an upload keeps a fragment
/// in if and only if it speaks of that fragment.
pub proof fn request_finds_its_upload(
    request: ChunkRequest,
    file_id: Seq<u8>,
    chunk: nat,
    fragment: nat,
)
    requires
        file_id.len() == 32,
    ensures
        upload_path(file_id, chunk, fragment) == ".drive_cache/"@ + request.file() <==> {
            &&& request.file_id@ == file_id
            &&& request.chunk_index == chunk
            &&& request.fragment_index == fragment
        },
{
    if upload_path(file_id, chunk, fragment) == ".drive_cache/"@ + request.file() {
        lemma_in_directory(fragment_name(file_id, chunk, fragment), request.file());
        fragment_names_are_distinct(
            file_id,
            chunk,
            fragment,
            request.file_id@,
            request.chunk_index as nat,
            request.fragment_index as nat,
        );
    }
}

/// The chunks of a file that a download has asked for.
pub struct DownloadProgress {
    asked: u32,
    chunks: u32,
}

impl DownloadProgress {
    #[verifier::type_invariant]
    spec fn wf(self) -> bool {
        self.asked <= self.chunks
    }

    /// The number of chunks asked for.
    pub closed spec fn asked(self) -> nat {
        self.asked as nat
    }

    /// The number of chunks of the file.
    pub closed spec fn total(self) -> nat {
        self.chunks as nat
    }

    /// The numbers asked for so far.
    pub open spec fn asked_for(self) -> Seq<nat> {
        numbers(self.asked())
    }

    /// The start of the download of the file that `map` describes.
    pub fn begin(map: &DriveMap) -> (progress: Self)
        ensures
            progress.asked() == 0,
            progress.asked_for() == Seq::<nat>::empty(),
            progress.total() == map.num_chunks,
    {
        DownloadProgress { asked: 0, chunks: map.num_chunks }
    }

    /// The number of the chunk to ask for next, if one is left. Chunks are asked for in
    /// the order in which they were numbered on upload.
    pub fn next_chunk(&mut self) -> (chunk: Option<u32>)
        ensures
            final(self).total() == old(self).total(),
            match chunk {
                Some(chunk) => {
                    &&& chunk == old(self).asked()
                    &&& chunk < old(self).total()
                    &&& final(self).asked() == old(self).asked() + 1
                    &&& final(self).asked_for() == old(self).asked_for().push(chunk as nat)
                },
                None => {
                    &&& old(self).asked() == old(self).total()
                    &&& final(self).asked() == old(self).asked()
                },
            },
    {
        proof {
            use_type_invariant(&*self);
        }
        let chunk: u32 = self.asked;
        if chunk < self.chunks {
            self.asked = chunk + 1;
            Some(chunk)
        } else {
            None
        }
    }
}

/// The path of the map of an uploaded file.
pub fn map_path(file_path: &str) -> (path: String)
    ensures
        path@ == file_path@ + ".pgd"@,
{
    let mut path: String = file_path.to_owned();
    path.append(DriveMap::EXTENSION);
    path
}

/// The path that a download writes to: the one asked for, or one made from the name of
/// the file.
pub fn recovered_path(output: Option<String>, file_name: &str) -> (path: String)
    ensures
        path@ == match output {
            Some(output) => output@,
            None => "recovered_"@ + file_name@,
        },
{
    match output {
        Some(output) => output,
        None => {
            let mut path: String = "recovered_".to_owned();
            path.append(file_name);
            path
        },
    }
}

/// The first of `nodes` that is `node`; their number where none is.
pub open spec fn first_node(nodes: Seq<Vec<u8>>, node: Seq<u8>) -> int
    decreases nodes.len(),
{
    if nodes.len() == 0 || nodes[0]@ == node {
        0
    } else {
        1 + first_node(nodes.drop_first(), node)
    }
}

proof fn lemma_first_node(nodes: Seq<Vec<u8>>, node: Seq<u8>, i: int)
    requires
        0 <= i <= nodes.len(),
        forall|j: int| 0 <= j < i ==> (#[trigger] nodes[j])@ != node,
        i < nodes.len() ==> nodes[i]@ == node,
    ensures
        first_node(nodes, node) == i,
    decreases nodes.len(),
{
    if i > 0 {
        assert(nodes[0]@ != node);
        let rest = nodes.drop_first();
        assert forall|j: int| 0 <= j < i - 1 implies (#[trigger] rest[j])@ != node by {
            assert(rest[j] == nodes[j + 1]);
        }
        lemma_first_node(rest, node, i - 1);
    }
}

/// The first node that is `node` is looked up for it, and none where no node is.
pub proof fn first_node_is_the_first(nodes: Seq<Vec<u8>>, node: Seq<u8>)
    ensures
        0 <= first_node(nodes, node) <= nodes.len(),
        first_node(nodes, node) < nodes.len() ==> nodes[first_node(nodes, node)]@ == node,
        forall|j: int| 0 <= j < first_node(nodes, node) ==> (#[trigger] nodes[j])@ != node,
    decreases nodes.len(),
{
    if nodes.len() > 0 && nodes[0]@ != node {
        let rest = nodes.drop_first();
        first_node_is_the_first(rest, node);
        assert forall|j: int| 0 <= j < first_node(nodes, node) implies (#[trigger] nodes[j])@
            != node by {
            if j > 0 {
                assert(nodes[j] == rest[j - 1]);
            }
        }
    }
}

/// The search for the peers that stand for the nodes of a download.
pub struct NodeResolution<P> {
    nodes: Vec<Vec<u8>>,
    peers: Vec<Option<P>>,
    records: usize,
}

impl<P> NodeResolution<P> {
    #[verifier::type_invariant]
    spec fn wf(self) -> bool {
        self.peers@.len() == self.nodes@.len() && self.records <= self.nodes@.len()
    }

    /// The nodes to find.
    pub closed spec fn nodes(self) -> Seq<Vec<u8>> {
        self.nodes@
    }

    /// The peer found for each node, if one was.
    pub closed spec fn peers(self) -> Seq<Option<P>> {
        self.peers@
    }

    /// The number of records that spoke of one of the nodes, counted up to the number of
    /// nodes.
    pub closed spec fn found(self) -> nat {
        self.records as nat
    }

    /// Whether a peer was found for `node`.
    pub open spec fn resolved(self, node: Seq<u8>) -> bool {
        let i = first_node(self.nodes(), node);
        i < self.nodes().len() && self.peers()[i] is Some
    }

    /// Whether a peer was found for every node.
    pub open spec fn all_resolved(self) -> bool {
        forall|i: int| 0 <= i < self.nodes().len() ==> self.resolved((#[trigger] self.nodes()[i])@)
    }

    /// Whether the search is over: there were as many records as there are nodes, and
    /// none of the nodes is without a peer.
    pub open spec fn complete(self) -> bool {
        self.found() >= self.nodes().len() && self.all_resolved()
    }

    /// The start of the search.
    pub fn begin(nodes: Vec<Vec<u8>>) -> (resolution: Self)
        ensures
            resolution.nodes() == nodes@,
            resolution.found() == 0,
            resolution.peers() == Seq::new(nodes@.len(), |i: int| None::<P>),
    {
        let mut peers: Vec<Option<P>> = Vec::new();
        let mut i: usize = 0;
        while i < nodes.len()
            invariant
                i <= nodes@.len(),
                peers@ == Seq::new(i as nat, |j: int| None::<P>),
            decreases nodes@.len() - i,
        {
            peers.push(None);
            i += 1;
            assert(peers@ =~= Seq::new(i as nat, |j: int| None::<P>));
        }
        NodeResolution { nodes, peers, records: 0 }
    }

    /// The position of `node` among the nodes.
    fn position(&self, node: &[u8]) -> (position: usize)
        ensures
            position == first_node(self.nodes(), node@),
            position <= self.nodes@.len(),
    {
        let mut i: usize = 0;
        while i < self.nodes.len()
            invariant
                i <= self.nodes@.len(),
                forall|j: int| 0 <= j < i ==> (#[trigger] self.nodes@[j])@ != node@,
            decreases self.nodes@.len() - i,
        {
            if bytes_equal(self.nodes[i].as_slice(), node) {
                proof {
                    lemma_first_node(self.nodes@, node@, i as int);
                }
                return i;
            }
            i += 1;
        }
        proof {
            lemma_first_node(self.nodes@, node@, i as int);
        }
        i
    }

    /// Takes a record that says that `peer` stands for `node`, and tells whether the search
    /// is over. A later record for a node replaces an earlier one, and counts too.
    pub fn record(&mut self, node: &[u8], peer: P) -> (complete: bool)
        ensures
            final(self).nodes() == old(self).nodes(),
            ({
                let i = first_node(old(self).nodes(), node@);
                if i < old(self).nodes().len() {
                    &&& final(self).peers() == old(self).peers().update(i, Some(peer))
                    &&& final(self).found() == if old(self).found() < old(self).nodes().len() {
                        old(self).found() + 1
                    } else {
                        old(self).found()
                    }
                } else {
                    &&& final(self).peers() == old(self).peers()
                    &&& final(self).found() == old(self).found()
                }
            }),
            complete == final(self).complete(),
            // The first node that the record speaks of gets the peer; no other node does.
            forall|i: int|
                {
                    &&& 0 <= i < old(self).nodes().len()
                    &&& (#[trigger] old(self).nodes()[i])@ == node@
                    &&& forall|j: int| 0 <= j < i ==> (#[trigger] old(self).nodes()[j])@ != node@
                } ==> final(self).peers() == old(self).peers().update(i, Some(peer)),
            (forall|i: int|
                0 <= i < old(self).nodes().len() ==> (#[trigger] old(self).nodes()[i])@ != node@)
                ==> final(self).peers() == old(self).peers() && final(self).found() == old(
                self).found(),
            // The search goes on while there were fewer records than nodes, or some node has
            // no peer.
            complete <==> {
                &&& final(self).found() >= final(self).nodes().len()
                &&& forall|i: int|
                    {
                        &&& 0 <= i < final(self).nodes().len()
                        &&& forall|j: int|
                            0 <= j < i ==> (#[trigger] final(self).nodes()[j])@ != final(
                                self).nodes()[i]@
                    } ==> (#[trigger] final(self).peers()[i]) is Some
            },
    {
        proof {
            use_type_invariant(&*self);
        }
        let i: usize = self.position(node);
        if i < self.nodes.len() {
            let mut before: NodeResolution<P> = NodeResolution {
                nodes: Vec::new(),
                peers: Vec::new(),
                records: 0,
            };
            std::mem::swap(&mut before, self);
            let NodeResolution { nodes, peers, records } = before;
            let mut peers = peers;
            peers.set(i, Some(peer));
            let records: usize = if records < nodes.len() {
                records + 1
            } else {
                records
            };
            *self = NodeResolution { nodes, peers, records };
        }
        proof {
            use_type_invariant(&*self);
            let nodes = self.nodes();
            first_node_is_the_first(nodes, node@);
            assert forall|i: int|
                {
                    &&& 0 <= i < nodes.len()
                    &&& (#[trigger] nodes[i])@ == node@
                    &&& forall|j: int| 0 <= j < i ==> (#[trigger] nodes[j])@ != node@
                } implies first_node(nodes, node@) == i by {
                lemma_first_node(nodes, node@, i);
            }
            self.lemma_all_resolved();
        }
        self.records >= self.nodes.len() && self.is_resolved()
    }

    /// Every node has a peer exactly where the first node of each name has.
    proof fn lemma_all_resolved(self)
        ensures
            self.all_resolved() <==> forall|i: int|
                {
                    &&& 0 <= i < self.nodes().len()
                    &&& forall|j: int|
                        0 <= j < i ==> (#[trigger] self.nodes()[j])@ != self.nodes()[i]@
                } ==> (#[trigger] self.peers()[i]) is Some,
    {
        let nodes = self.nodes();
        let first = |i: int|
            {
                &&& 0 <= i < nodes.len()
                &&& forall|j: int| 0 <= j < i ==> (#[trigger] nodes[j])@ != nodes[i]@
            };
        if self.all_resolved() {
            assert forall|i: int| first(i) implies (#[trigger] self.peers()[i]) is Some by {
                lemma_first_node(nodes, nodes[i]@, i);
                assert(self.resolved(nodes[i]@));
            }
        }
        if forall|i: int| first(i) ==> (#[trigger] self.peers()[i]) is Some {
            assert forall|i: int| 0 <= i < nodes.len() implies self.resolved(
                (#[trigger] nodes[i])@,
            ) by {
                let node = nodes[i]@;
                first_node_is_the_first(nodes, node);
                let k = first_node(nodes, node);
                if k > i {
                    assert(nodes[i]@ != node);
                }
                assert(first(k));
                assert(self.peers()[k] is Some);
            }
        }
    }

    /// Whether a peer was found for every node.
    fn is_resolved(&self) -> (resolved: bool)
        ensures
            resolved == self.all_resolved(),
    {
        let mut i: usize = 0;
        while i < self.nodes.len()
            invariant
                i <= self.nodes@.len(),
                forall|j: int|
                    0 <= j < i ==> self.resolved((#[trigger] self.nodes()[j])@),
            decreases self.nodes@.len() - i,
        {
            assert(self.nodes()[i as int] == self.nodes@[i as int]);
            if self.peer(self.nodes[i].as_slice()).is_none() {
                return false;
            }
            i += 1;
        }
        true
    }

    /// The peer found for `node`, if one was.
    pub fn peer(&self, node: &[u8]) -> (peer: Option<&P>)
        ensures
            ({
                let i = first_node(self.nodes(), node@);
                match peer {
                    Some(peer) => self.resolved(node@) && self.peers()[i] == Some(*peer),
                    None => !self.resolved(node@),
                }
            }),
            match peer {
                Some(peer) => exists|i: int|
                    {
                        &&& 0 <= i < self.nodes().len()
                        &&& (#[trigger] self.nodes()[i])@ == node@
                        &&& forall|j: int| 0 <= j < i ==> (#[trigger] self.nodes()[j])@ != node@
                        &&& self.peers()[i] == Some(*peer)
                    },
                None => forall|i: int|
                    {
                        &&& 0 <= i < self.nodes().len()
                        &&& (#[trigger] self.nodes()[i])@ == node@
                        &&& forall|j: int| 0 <= j < i ==> (#[trigger] self.nodes()[j])@ != node@
                    } ==> self.peers()[i] is None,
            },
    {
        proof {
            use_type_invariant(self);
            let nodes = self.nodes();
            first_node_is_the_first(nodes, node@);
            assert forall|i: int|
                {
                    &&& 0 <= i < nodes.len()
                    &&& (#[trigger] nodes[i])@ == node@
                    &&& forall|j: int| 0 <= j < i ==> (#[trigger] nodes[j])@ != node@
                } implies first_node(nodes, node@) == i by {
                lemma_first_node(nodes, node@, i);
            }
        }
        let i: usize = self.position(node);
        if i < self.nodes.len() {
            match &self.peers[i] {
                Some(peer) => Some(peer),
                None => None,
            }
        } else {
            None
        }
    }
}

/// A search that is over has found a peer for every one of the nodes, and had as many records
/// as there are nodes; one that has not is not over.
pub proof fn search_ends_with_a_peer_for_every_node<P>(resolution: NodeResolution<P>, i: int)
    requires
        0 <= i < resolution.nodes().len(),
    ensures
        resolution.complete() ==> exists|j: int|
            {
                &&& 0 <= j <= i
                &&& (#[trigger] resolution.nodes()[j])@ == resolution.nodes()[i]@
                &&& resolution.peers()[j] is Some
            },
        resolution.complete() ==> resolution.found() >= resolution.nodes().len(),
        (forall|j: int|
            0 <= j <= i && (#[trigger] resolution.nodes()[j])@ == resolution.nodes()[i]@
                ==> resolution.peers()[j] is None) ==> !resolution.complete(),
        resolution.found() < resolution.nodes().len() ==> !resolution.complete(),
{
    let nodes = resolution.nodes();
    let node = nodes[i]@;
    first_node_is_the_first(nodes, node);
    let k = first_node(nodes, node);
    assert(k <= i) by {
        if k > i {
            assert(nodes[i]@ != node);
        }
    }
    if resolution.complete() {
        assert(resolution.resolved(nodes[i]@));
        assert(nodes[k]@ == node);
    }
}

/// The fragments of one chunk as they come in.
pub struct FragmentGather {
    threshold: usize,
    payloads: Vec<Vec<u8>>,
}

impl FragmentGather {
    /// The number of fragments waited for.
    pub closed spec fn needed(self) -> nat {
        self.threshold as nat
    }

    /// The fragments that came in, in order.
    pub closed spec fn gathered(self) -> Seq<Vec<u8>> {
        self.payloads@
    }

    /// The start of waiting for `threshold` fragments.
    pub fn begin(threshold: usize) -> (gather: Self)
        ensures
            gather.needed() == threshold,
            gather.gathered() == Seq::<Vec<u8>>::empty(),
    {
        FragmentGather { threshold, payloads: Vec::new() }
    }

    /// Whether more fragments are waited for.
    pub fn is_waiting(&self) -> (waiting: bool)
        ensures
            waiting == (self.gathered().len() < self.needed()),
    {
        self.payloads.len() < self.threshold
    }

    /// Takes a response: its payload, where the node had the fragment.
    pub fn offer(&mut self, response: ChunkResponse)
        ensures
            final(self).needed() == old(self).needed(),
            final(self).gathered() == if response.success {
                old(self).gathered().push(response.payload)
            } else {
                old(self).gathered()
            },
    {
        if response.success {
            self.payloads.push(response.payload);
        }
    }

    /// The fragments that came in.
    pub fn into_fragments(self) -> (payloads: Vec<Vec<u8>>)
        ensures
            payloads@ == self.gathered(),
    {
        self.payloads
    }
}

/// The concatenation of chunks.
pub open spec fn joined(chunks: Seq<Seq<u8>>) -> Seq<u8>
    decreases chunks.len(),
{
    if chunks.len() == 0 {
        Seq::empty()
    } else {
        joined(chunks.drop_last()) + chunks.last()
    }
}

/// Chunks are joined one after the other, none left out.
pub proof fn joined_is_one_after_the_other(chunks: Seq<Seq<u8>>)
    ensures
        joined(chunks) == chunks.flatten(),
{
    lemma_joined_backwards(chunks);
    chunks.lemma_flatten_and_flatten_alt_are_equivalent();
}

proof fn lemma_joined_backwards(chunks: Seq<Seq<u8>>)
    ensures
        joined(chunks) == chunks.flatten_alt(),
    decreases chunks.len(),
{
    if chunks.len() > 0 {
        lemma_joined_backwards(chunks.drop_last());
    }
}

/// A file as it is put together from its chunks.
pub struct Reassembly {
    bytes: Vec<u8>,
    chunks: Ghost<Seq<Seq<u8>>>,
}

impl Reassembly {
    #[verifier::type_invariant]
    spec fn wf(self) -> bool {
        self.bytes@ == joined(self.chunks@)
    }

    /// The chunks so far.
    pub closed spec fn chunks(self) -> Seq<Seq<u8>> {
        self.chunks@
    }

    /// A file of which no chunk is there yet.
    pub fn new() -> (file: Self)
        ensures
            file.chunks() == Seq::<Seq<u8>>::empty(),
    {
        Reassembly { bytes: Vec::new(), chunks: Ghost(Seq::empty()) }
    }

    /// Appends the next chunk.
    pub fn push_chunk(&mut self, chunk: &[u8])
        ensures
            final(self).chunks() == old(self).chunks().push(chunk@),
    {
        proof {
            use_type_invariant(&*self);
        }
        let mut before = Reassembly { bytes: Vec::new(), chunks: Ghost(Seq::empty()) };
        std::mem::swap(&mut before, self);
        let Reassembly { bytes, chunks } = before;
        let mut bytes = bytes;
        bytes.extend_from_slice(chunk);
        let ghost longer = chunks@.push(chunk@);
        proof {
            assert(longer.drop_last() =~= chunks@);
            assert(bytes@ =~= joined(longer));
        }
        *self = Reassembly { bytes, chunks: Ghost(longer) };
    }

    /// The file.
    pub fn into_bytes(self) -> (bytes: Vec<u8>)
        ensures
            bytes@ == joined(self.chunks()),
            bytes@ == self.chunks().flatten(),
    {
        proof {
            use_type_invariant(&self);
            joined_is_one_after_the_other(self.chunks@);
        }
        self.bytes
    }
}

proof fn lemma_joined_prefix(file: Seq<u8>, n: nat)
    requires
        n <= chunks_of(file).len(),
    ensures
        joined(chunks_of(file).take(n as int)) == file.take(chunk_start(n as int, file.len())),
    decreases n,
{
    let chunks = chunks_of(file);
    let head = chunks.take(n as int);
    if n > 0 {
        lemma_joined_prefix(file, (n - 1) as nat);
        assert(head.drop_last() =~= chunks.take(n - 1));
        assert(head.last() == chunks[n - 1]);
        assert(joined(head) =~= file.take(chunk_start(n as int, file.len())));
    } else {
        assert(joined(head) =~= file.take(0));
    }
}

/// The chunks of a file make the file; every chunk but the last is filled, and none is
/// empty.
pub proof fn chunks_make_the_file(file: Seq<u8>)
    ensures
        joined(chunks_of(file)) == file,
        chunks_of(file).flatten() == file,
        forall|i: int|
            0 <= i < chunks_of(file).len() - 1 ==> (#[trigger] chunks_of(file)[i]).len()
                == Chunker::CHUNK_SIZE,
        forall|i: int|
            0 <= i < chunks_of(file).len() ==> 0 < (#[trigger] chunks_of(file)[i]).len()
                <= Chunker::CHUNK_SIZE,
{
    let n = chunks_of(file).len();
    lemma_joined_prefix(file, n);
    joined_is_one_after_the_other(chunks_of(file));
    assert(chunks_of(file).take(n as int) =~= chunks_of(file));
    assert(file.take(file.len() as int) =~= file);
    assert(chunk_start(n as int, file.len()) == file.len());
}

/// A download asks, in turn, for exactly the numbers that the upload handed out.
pub proof fn download_asks_for_what_was_numbered(
    upload: UploadProgress,
    map: MapModel,
    download: DownloadProgress,
)
    requires
        map.num_chunks == upload.chunks,
        download.total() == map.num_chunks,
        download.asked() == download.total(),
    ensures
        download.asked_for() == upload.handed_out(),
{
}

/// The numbers handed out and those asked for are the numbers from zero, in order.
pub proof fn numbers_run_from_zero(upload: UploadProgress, download: DownloadProgress, i: int)
    ensures
        upload.handed_out().len() == upload.chunks,
        0 <= i < upload.chunks ==> upload.handed_out()[i] == i,
        download.asked_for().len() == download.asked(),
        0 <= i < download.asked() ==> download.asked_for()[i] == i,
{
}

/// Downloading undoes uploading. Where every chunk of a file is kept, so that enough of its
/// fragments can be fetched and secret sharing keeps its promise of them, fetching them
/// and putting together what they give makes the file again.
pub proof fn download_gives_the_file_back<F, E>(
    reconstruct: spec_fn(Seq<F>) -> Result<Seq<u8>, E>,
    file: Seq<u8>,
    stored: Seq<StoredChunk<F>>,
    retrievals: Seq<ChunkRetrieval<F>>,
    download: Reassembly,
)
    requires
        stored.len() == chunks_of(file).len(),
        forall|i: int|
            0 <= i < stored.len() ==> (#[trigger] stored[i]).chunk == chunks_of(file)[i]
                && stored[i].kept(reconstruct),
        retrievals.len() == stored.len(),
        forall|i: int|
            0 <= i < stored.len() ==> (#[trigger] stored[i]).fetched_by(retrievals[i]),
        download.chunks().len() == stored.len(),
        forall|i: int|
            0 <= i < stored.len() ==> recovered(
                stored[i].key,
                stored[i].nonce,
                reconstruct(obtained(retrievals[i].history())),
            ) == Ok::<_, E>(Some(#[trigger] download.chunks()[i])),
    ensures
        joined(download.chunks()) == file,
        download.chunks().flatten() == file,
{
    assert forall|i: int| 0 <= i < stored.len() implies #[trigger] download.chunks()[i]
        == chunks_of(file)[i] by {
        assert(stored[i].kept(reconstruct));
        stored_chunk_comes_back(reconstruct, stored[i], retrievals[i]);
    }
    assert(download.chunks() =~= chunks_of(file));
    chunks_make_the_file(file);
}

} // verus!
