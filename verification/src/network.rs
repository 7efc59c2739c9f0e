//! The messages between nodes, and how a relay answers them.

use crate::storage::{fragment_file_name, fragment_name};
use crate::text::{contents, decimal, hex_text, push_decimal};
use vstd::prelude::*;

verus! {

/// A request to store or to fetch one fragment of a chunk.
#[derive(Debug, Clone, PartialEq, Eq)]
pub struct ChunkRequest {
    pub file_id: [u8; 32],
    pub chunk_index: u32,
    pub fragment_index: u64,
    /// The fragment, where it is to be stored.
    pub data: Option<Vec<u8>>,
}

/// The answer to a [`ChunkRequest`].
#[derive(Debug, Clone, PartialEq, Eq)]
pub struct ChunkResponse {
    pub success: bool,
    pub payload: Vec<u8>,
}

/// What a relay has to do for a request, on the file named.
#[derive(Debug, Clone, PartialEq, Eq)]
pub enum RelayAction {
    Store { name: String, data: Vec<u8> },
    Retrieve { name: String },
}

impl RelayAction {
    /// The name of the file.
    pub open spec fn file(self) -> Seq<char> {
        match self {
            RelayAction::Store { name, .. } => name@,
            RelayAction::Retrieve { name } => name@,
        }
    }
}

impl ChunkRequest {
    /// The name of the file that the fragment is kept in.
    pub open spec fn file(self) -> Seq<char> {
        fragment_name(self.file_id@, self.chunk_index as nat, self.fragment_index as nat)
    }

    /// The request by which a download asks a node for the fragment of a chunk that the node
    /// keeps.
    pub fn fetch(file_id: [u8; 32], chunk_index: u32, fragment_index: u64) -> (request: Self)
        ensures
            request.file_id == file_id,
            request.chunk_index == chunk_index,
            request.fragment_index == fragment_index,
            request.data is None,
    {
        ChunkRequest { file_id, chunk_index, fragment_index, data: None }
    }

    /// What the relay that gets the request has to do.
    pub fn into_action(self) -> (action: RelayAction)
        ensures
            action.file() == self.file(),
            match self.data {
                Some(data) => action matches RelayAction::Store { data: stored, .. } && stored
                    == data,
                None => action is Retrieve,
            },
            ({
                let file = hex_text(self.file_id@) + "_"@ + decimal(self.chunk_index as nat) + "_"@
                    + decimal(self.fragment_index as nat) + ".frag"@;
                match action {
                    RelayAction::Store { name, data } => name@ == file && self.data == Some(data),
                    RelayAction::Retrieve { name } => name@ == file && self.data is None,
                }
            }),
    {
        let name = fragment_file_name(&self.file_id, self.chunk_index, self.fragment_index);
        match self.data {
            Some(data) => RelayAction::Store { name, data },
            None => RelayAction::Retrieve { name },
        }
    }
}

impl ChunkResponse {
    /// The answer to a request to store, whether or not the fragment could be written.
    pub fn stored() -> (response: Self)
        ensures
            response.success,
            response.payload@ == Seq::<u8>::empty(),
    {
        ChunkResponse { success: true, payload: Vec::new() }
    }

    /// The answer to a request to fetch: the fragment, if it could be read.
    pub fn retrieved(read: Option<Vec<u8>>) -> (response: Self)
        ensures
            response.success == read.is_some(),
            response.payload@ == match contents(read) {
                Some(data) => data,
                None => Seq::empty(),
            },
            match read {
                Some(data) => response.success && response.payload == data,
                None => !response.success && response.payload@.len() == 0,
            },
    {
        match read {
            Some(data) => ChunkResponse { success: true, payload: data },
            None => ChunkResponse { success: false, payload: Vec::new() },
        }
    }
}

/// The requests by which a download asks for a chunk: node `i` for fragment `i`.
pub fn fetch_requests(file_id: [u8; 32], chunk_index: u32, nodes: usize) -> (requests: Vec<
    ChunkRequest,
>)
    ensures
        requests@.len() == nodes,
        forall|i: int|
            0 <= i < nodes ==> {
                &&& (#[trigger] requests@[i]).file_id == file_id
                &&& requests@[i].chunk_index == chunk_index
                &&& requests@[i].fragment_index == i
                &&& requests@[i].data is None
            },
{
    let mut requests: Vec<ChunkRequest> = Vec::new();
    let mut i: usize = 0;
    while i < nodes
        invariant
            i <= nodes,
            requests@.len() == i,
            forall|j: int|
                0 <= j < i ==> {
                    &&& (#[trigger] requests@[j]).file_id == file_id
                    &&& requests@[j].chunk_index == chunk_index
                    &&& requests@[j].fragment_index == j
                    &&& requests@[j].data is None
                },
        decreases nodes - i,
    {
        requests.push(ChunkRequest::fetch(file_id, chunk_index, i as u64));
        i += 1;
    }
    requests
}

/// A relay keeps what it is sent under the name by which it is asked for it, and under no
/// other: two requests concern the same file if and only if they speak of the same
/// fragment.
pub proof fn requests_meet_in_one_file(a: ChunkRequest, b: ChunkRequest)
    ensures
        a.file() == b.file() <==> a.file_id@ == b.file_id@ && a.chunk_index == b.chunk_index
            && a.fragment_index == b.fragment_index,
{
    if a.file() == b.file() {
        crate::storage::fragment_names_are_distinct(
            a.file_id@,
            a.chunk_index as nat,
            a.fragment_index as nat,
            b.file_id@,
            b.chunk_index as nat,
            b.fragment_index as nat,
        );
    }
}

/// The file that a request concerns is named by the file's hash, the number of the chunk and
/// the number of the fragment, in this order, and so is the file of the action.
pub proof fn files_are_named_by_their_numbers(request: ChunkRequest, name: String, data: Vec<u8>)
    ensures
        request.file() == hex_text(request.file_id@) + "_"@ + decimal(request.chunk_index as nat)
            + "_"@ + decimal(request.fragment_index as nat) + ".frag"@,
        (RelayAction::Store { name, data }).file() == name@,
        (RelayAction::Retrieve { name }).file() == name@,
{
}

/// The line by which a node tells whether it takes computing tasks.
pub fn compute_status(enabled: bool, max_cpu_percent: u8) -> (status: String)
    ensures
        status@ == if enabled {
            "enabled (max "@ + decimal(max_cpu_percent as nat) + "%)"@
        } else {
            "disabled"@
        },
{
    if enabled {
        let mut status: String = "enabled (max ".to_owned();
        push_decimal(&mut status, max_cpu_percent as u64);
        status.append("%)");
        status
    } else {
        "disabled".to_owned()
    }
}

} // verus!
