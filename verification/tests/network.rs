use polygone_drive::network::{
    compute_status, fetch_requests, ChunkRequest, ChunkResponse, RelayAction,
};
use polygone_drive::storage::fragment_file_name;

#[test]
fn fetch_request() {
    let request = ChunkRequest::fetch([6; 32], 4, 3);
    assert_eq!(
        request,
        ChunkRequest { file_id: [6; 32], chunk_index: 4, fragment_index: 3, data: None }
    );
    let name = fragment_file_name(&[6; 32], 4, 3);
    assert_eq!(request.into_action(), RelayAction::Retrieve { name });
}

#[test]
fn store_request() {
    let request =
        ChunkRequest { file_id: [6; 32], chunk_index: 4, fragment_index: 300, data: Some(vec![1]) };
    let name = fragment_file_name(&[6; 32], 4, 300);
    assert_eq!(request.into_action(), RelayAction::Store { name, data: vec![1] });
}

#[test]
fn responses() {
    assert_eq!(ChunkResponse::stored(), ChunkResponse { success: true, payload: vec![] });
    assert_eq!(
        ChunkResponse::retrieved(Some(vec![1, 2])),
        ChunkResponse { success: true, payload: vec![1, 2] }
    );
    assert_eq!(ChunkResponse::retrieved(None), ChunkResponse { success: false, payload: vec![] });
}

#[test]
fn compute_line() {
    assert_eq!(compute_status(true, 50), "enabled (max 50%)");
    assert_eq!(compute_status(false, 50), "disabled");
}

#[test]
fn each_node_is_asked_for_its_fragment() {
    let requests = fetch_requests([6; 32], 4, 3);
    assert_eq!(requests.len(), 3);
    assert_eq!(requests[0], ChunkRequest::fetch([6; 32], 4, 0));
    assert_eq!(requests[2], ChunkRequest::fetch([6; 32], 4, 2));
    assert_eq!(fetch_requests([6; 32], 4, 0), vec![]);
}
