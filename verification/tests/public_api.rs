//! The names and shapes that an embedding program builds on.

use lxmf_core::constants::{DeliveryMethod, UnverifiedReason};
use lxmf_core::delivery_ratchet::DELIVERY_APP_NAME;
use lxmf_core::memory::MemoryStorage;
use lxmf_core::message::{LxMessage, MessageError};
use lxmf_core::propagation_client::{PropagationClient, PropagationClientState};
use lxmf_core::router::{LxmRouter, RouterConfig};
use lxmf_core::types::{MessageId, PropagationTransientId};

#[allow(dead_code)]
fn message_api(message: &mut LxMessage) -> Result<(), MessageError> {
    let _: &str = DELIVERY_APP_NAME;
    message.set_field(0x01, vec![1, 2, 3]);
    let _ = message.get_field(0x01);
    let _: Vec<u8> = message.pack_payload()?;
    message.compute_hash()?;
    let _: Option<MessageId> = message.message_id;
    let _: Option<PropagationTransientId> = message.transient_id;
    Ok(())
}

#[allow(dead_code)]
fn propagation_client_api(client: &mut PropagationClient) {
    let _: PropagationClientState = client.state;
    client.set_propagation_node([0; 16]);
    let _: bool = client.start_download(true, 0).is_some();
    let _: Vec<Vec<u8>> = client.take_received_messages();
}

#[allow(dead_code)]
fn router_api(router: &mut LxmRouter<MemoryStorage>, message: LxMessage) {
    router.send(message, 0, |_id: &[u8; 32], _cost: u8| None);
    let _ = router.stats();
    let _ = router.outbound_summaries(16);
    let _ = router.propagation_metadata_page(None, 16);
    let _ = router.control_status_at(0);
}

fn assert_public<T>() {}

#[test]
fn stable_types_remain_public() {
    assert_public::<LxMessage>();
    assert_public::<MessageError>();
    assert_public::<DeliveryMethod>();
    assert_public::<UnverifiedReason>();
    assert_public::<PropagationClient>();
    assert_public::<PropagationClientState>();
    assert_public::<LxmRouter<MemoryStorage>>();
    assert_public::<RouterConfig>();
}
