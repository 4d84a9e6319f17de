use dist::broadcast::{BroadcastNode, BroadcastTimer};
use dist::messages::InitPayload;
use dist::nodes::Outbound;

fn s(text: &str) -> String {
    text.to_string()
}

#[test]
fn init_replies_init_ok_with_matching_correlation() {
    let mut node = BroadcastNode::init();
    node.state.handle_init(s("n1"), vec![s("n1"), s("n2")], Some(1), s("c0"));
    assert_eq!(node.state.node_id, s("n1"));
    assert_eq!(node.state.nodes_ids, vec![s("n1"), s("n2")]);
    assert_eq!(node.state.tx_id, 2);
    let out = node.state.take_outbox();
    assert_eq!(out.len(), 1);
    let reply = &out[0];
    assert_eq!(reply.src, s("n1"));
    assert_eq!(reply.dst, s("c0"));
    assert_eq!(reply.body.id, Some(1));
    assert_eq!(reply.body.req_id, Some(1));
    assert!(matches!(reply.body.payload, Outbound::Init(InitPayload::InitOk)));
}

#[test]
fn init_twice_with_same_arguments_is_idempotent() {
    let mut once = BroadcastNode::init();
    once.state.handle_init(s("n1"), vec![s("n1"), s("n2")], Some(1), s("c0"));
    let mut twice = BroadcastNode::init();
    twice.state.handle_init(s("n1"), vec![s("n1"), s("n2")], Some(1), s("c0"));
    twice.state.handle_init(s("n1"), vec![s("n1"), s("n2")], Some(2), s("c0"));
    assert_eq!(once.state.node_id, twice.state.node_id);
    assert_eq!(once.state.nodes_ids, twice.state.nodes_ids);
    assert_eq!(once.state.tx_id, twice.state.tx_id);
}

#[test]
fn timer_queue_pops_earliest_expiry_first() {
    let mut node = BroadcastNode::init();
    node.state.queue_timer(BroadcastTimer { value: 5 }, 500);
    node.state.queue_timer(BroadcastTimer { value: 1 }, 100);
    node.state.queue_timer(BroadcastTimer { value: 3 }, 300);
    let first = node.state.pop_min_timer().unwrap();
    assert_eq!(first.expires_at, 100);
    assert_eq!(first.state.value, 1);
    let second = node.state.pop_min_timer().unwrap();
    assert_eq!(second.expires_at, 300);
    assert_eq!(second.state.value, 3);
    let third = node.state.pop_min_timer().unwrap();
    assert_eq!(third.expires_at, 500);
    assert_eq!(third.state.value, 5);
    assert!(node.state.pop_min_timer().is_none());
}

#[test]
fn transaction_ids_strictly_increase_and_are_never_reused() {
    let mut node = BroadcastNode::init();
    node.state.handle_init(s("n1"), vec![s("n1")], Some(1), s("c0"));
    node.state.write_message(Outbound::Init(InitPayload::InitOk), None, s("c0"));
    node.state.write_message(Outbound::Init(InitPayload::InitOk), None, s("c0"));
    let out = node.state.take_outbox();
    let ids: Vec<Option<usize>> = out.iter().map(|m| m.body.id).collect();
    assert_eq!(ids, vec![Some(1), Some(2), Some(3)]);
    assert_eq!(node.state.tx_id, 4);
}

#[test]
fn take_outbox_leaves_outbox_empty() {
    let mut node = BroadcastNode::init();
    node.state.handle_init(s("n1"), vec![s("n1")], Some(1), s("c0"));
    let out = node.state.take_outbox();
    assert_eq!(out.len(), 1);
    assert_eq!(node.state.take_outbox().len(), 0);
}
