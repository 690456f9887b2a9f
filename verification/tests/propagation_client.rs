//! Downloads from a propagation node.

use lxmf_core::memory::MemoryStorage;
use lxmf_core::propagation_client::{
    decode_binary_array, get_request, list_request, purge_request, Download, DownloadAction,
    DownloadEvent, PropagationClient, PropagationClientState,
};
use lxmf_core::propagation_node::requests::GetRequestAction;
use lxmf_core::propagation_node::{PropagationNode, PropagationNodeConfig};
use rmpv::Value;

const NOW: i64 = 1_700_000_000_000_000;

fn encode(value: &Value) -> Vec<u8> {
    let mut out = Vec::new();
    rmpv::encode::write_value(&mut out, value).unwrap();
    out
}

fn binaries(list: &[Vec<u8>]) -> Value {
    Value::Array(list.iter().map(|b| Value::Binary(b.clone())).collect())
}

#[test]
fn binary_array_filters_invalid_ids() {
    let encoded = encode(&Value::Array(vec![
        Value::Binary(vec![1; 32]),
        Value::Binary(vec![2; 16]),
        Value::String("not binary".into()),
    ]));
    assert_eq!(decode_binary_array(&encoded, Some(32)).unwrap(), vec![vec![1; 32]]);
    assert!(decode_binary_array(&[0xC0], None).is_none());
}

#[test]
fn client_requires_runtime_and_node() {
    let mut client = PropagationClient::new(None, None);
    assert!(client.start_download(false, NOW).is_none());
    client.set_propagation_node([1; 16]);
    assert!(client.start_download(false, NOW).is_none());
}

#[test]
fn take_received_messages_drains_queue() {
    let mut client = PropagationClient::new(Some([1; 64]), Some([2; 32]));
    client.set_propagation_node([1; 16]);
    let mut download = client.start_download(true, NOW).unwrap();
    download.received = vec![vec![1], vec![2]];
    client.tick(Some((download, true)));
    assert_eq!(client.take_received_messages(), vec![vec![1], vec![2]]);
    assert_eq!(client.received_count(), 0);
}

#[test]
fn requests_have_the_shape_of_the_protocol() {
    assert_eq!(list_request(), encode(&Value::Array(vec![Value::Nil, Value::Nil])));
    let wants = vec![vec![1; 32]];
    let haves = vec![vec![2; 32]];
    assert_eq!(
        get_request(&wants, &haves, Some(0.5f64.to_bits())),
        encode(&Value::Array(vec![binaries(&wants), binaries(&haves), Value::F64(0.5)]))
    );
    assert_eq!(purge_request(&haves), encode(&Value::Array(vec![Value::Nil, binaries(&haves)])));
}

fn request_of(action: DownloadAction) -> Vec<u8> {
    match action {
        DownloadAction::Request(data) => data,
        other => panic!("expected a request, got {other:?}"),
    }
}

fn reply_of(node: &mut PropagationNode<MemoryStorage>, data: &[u8], client: &[u8; 16]) -> Vec<u8> {
    let action = node.handle_get_request(data, client);
    let fetched = match &action {
        GetRequestAction::ServeFiles(plan) => plan.reads.iter().map(|_| None).collect(),
        _ => Vec::new(),
    };
    action.into_response(&fetched, None)
}

#[test]
fn a_download_collects_what_the_node_holds_for_the_client() {
    let client_hash = [0xBB; 16];
    let mut node = PropagationNode::with_storage_backend(
        PropagationNodeConfig::default(),
        [0xAA; 16],
        MemoryStorage::new(),
    );
    let known = [client_hash.as_slice(), b"known"].concat();
    let fresh = [client_hash.as_slice(), b"fresh"].concat();
    let foreign = [[0xCC; 16].as_slice(), b"foreign"].concat();
    for data in [&known, &fresh, &foreign] {
        assert!(node.accept_propagated_blob(data, 0, NOW));
    }
    let known_id = rns_crypto::sha256::sha256(&known);

    let mut client = PropagationClient::new(Some([1; 64]), Some([2; 32]));
    client.set_propagation_node([0xAA; 16]);
    client.add_local_message(known_id);
    let mut download: Download = client.start_download(true, NOW).unwrap();

    let list = request_of(download.step(DownloadEvent::Connected));
    let listed = reply_of(&mut node, &list, &client_hash);
    let get = request_of(download.step(DownloadEvent::Reply(&listed)));
    let served = reply_of(&mut node, &get, &client_hash);
    let purge = request_of(download.step(DownloadEvent::Reply(&served)));
    let purged = reply_of(&mut node, &purge, &client_hash);
    assert!(matches!(download.step(DownloadEvent::Reply(&purged)), DownloadAction::Close));
    assert!(matches!(download.step(DownloadEvent::Closed), DownloadAction::Finish(true)));
    assert!(matches!(download.step(DownloadEvent::Failed), DownloadAction::Nothing));

    client.tick(Some((download, true)));
    assert_eq!(client.state, PropagationClientState::Idle);
    assert_eq!(client.take_received_messages(), vec![fresh]);
    assert_eq!(node.message_count(), 1);
    assert!(node.contains(&rns_crypto::sha256::sha256(&foreign)));
}

#[test]
fn a_failed_download_yields_nothing() {
    let mut client = PropagationClient::new(Some([1; 64]), Some([2; 32]));
    client.set_propagation_node([0xAA; 16]);
    let mut download = client.start_download(true, NOW).unwrap();
    assert!(matches!(download.step(DownloadEvent::Failed), DownloadAction::Finish(false)));
    client.tick(Some((download, false)));
    assert_eq!(client.state, PropagationClientState::Idle);
    assert_eq!(client.received_count(), 0);
}
