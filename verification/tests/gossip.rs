use dist::broadcast::{BroadcastNode, BroadcastPayload, BroadcastTimer, RETRY_MS};
use dist::messages::{Body, Message};
use dist::nodes::{MessageType, Outbound};

fn s(text: &str) -> String {
    text.to_string()
}

fn envelope(src: &str, id: Option<usize>, payload: BroadcastPayload) -> MessageType<
    BroadcastPayload,
> {
    MessageType::Defined(Message {
        src: s(src),
        dst: s("n1"),
        body: Body { id, req_id: None, payload },
    })
}

fn three_node_a() -> BroadcastNode {
    let mut node = BroadcastNode::init();
    node.state.handle_init(s("n1"), vec![s("n1"), s("n2"), s("n3")], Some(1), s("c0"));
    node.state.take_outbox();
    node
}

#[test]
fn broadcast_stores_acks_and_gossips_to_every_peer() {
    let mut node = three_node_a();
    node.process_message(envelope("c1", Some(5), BroadcastPayload::Broadcast { msg: 7 }), 0);
    assert_eq!(node.messages, vec![7]);
    let out = node.state.take_outbox();
    assert_eq!(out.len(), 3);
    assert_eq!(out[0].dst, s("c1"));
    assert_eq!(out[0].body.req_id, Some(5));
    assert!(matches!(out[0].body.payload, Outbound::Proto(BroadcastPayload::BroadcastOk)));
    assert_eq!(out[1].dst, s("n2"));
    assert!(matches!(
        out[1].body.payload,
        Outbound::Proto(BroadcastPayload::Gossip { msg: 7 })
    ));
    assert_eq!(out[2].dst, s("n3"));
    assert!(matches!(
        out[2].body.payload,
        Outbound::Proto(BroadcastPayload::Gossip { msg: 7 })
    ));
    assert_eq!(node.pending.len(), 1);
    assert_eq!(node.pending[0].value, 7);
    assert_eq!(node.pending[0].peers, vec![s("n2"), s("n3")]);
    assert_eq!(node.state.queue.len(), 1);
    assert_eq!(node.state.queue[0].expires_at, RETRY_MS);
    assert_eq!(node.state.queue[0].state.value, 7);
}

#[test]
fn gossip_stores_value_and_acknowledges_sender() {
    let mut node = BroadcastNode::init();
    node.state.handle_init(s("n2"), vec![s("n1"), s("n2")], Some(1), s("c0"));
    node.state.take_outbox();
    node.process_message(envelope("n1", Some(9), BroadcastPayload::Gossip { msg: 7 }), 0);
    assert_eq!(node.messages, vec![7]);
    let out = node.state.take_outbox();
    assert_eq!(out.len(), 1);
    assert_eq!(out[0].dst, s("n1"));
    assert_eq!(out[0].body.req_id, Some(9));
    assert!(matches!(
        out[0].body.payload,
        Outbound::Proto(BroadcastPayload::GossipOk { msg: 7 })
    ));
    // no propagation is triggered by gossip itself
    assert!(node.pending.is_empty());
    assert!(node.state.queue.is_empty());
}

#[test]
fn acknowledgment_from_every_peer_ends_retransmission() {
    let mut node = three_node_a();
    node.process_message(envelope("c1", Some(5), BroadcastPayload::Broadcast { msg: 7 }), 0);
    node.state.take_outbox();
    node.process_message(envelope("n2", None, BroadcastPayload::GossipOk { msg: 7 }), 10);
    assert_eq!(node.pending.len(), 1);
    assert_eq!(node.pending[0].peers, vec![s("n3")]);
    node.process_message(envelope("n3", None, BroadcastPayload::GossipOk { msg: 7 }), 20);
    assert!(node.pending.is_empty());
    // the next retransmission timer for 7 is a no-op and is not rescheduled
    let timers_before = node.state.queue.len();
    node.handle_timer(BroadcastTimer { value: 7 }, 100);
    assert!(node.state.take_outbox().is_empty());
    assert_eq!(node.state.queue.len(), timers_before);
}

#[test]
fn duplicate_acknowledgment_is_ignored() {
    let mut node = three_node_a();
    node.process_message(envelope("c1", Some(5), BroadcastPayload::Broadcast { msg: 7 }), 0);
    node.state.take_outbox();
    node.process_message(envelope("n2", None, BroadcastPayload::GossipOk { msg: 7 }), 10);
    node.process_message(envelope("n2", None, BroadcastPayload::GossipOk { msg: 7 }), 11);
    assert_eq!(node.pending.len(), 1);
    assert_eq!(node.pending[0].peers, vec![s("n3")]);
    // an acknowledgment for a value never pending is ignored too
    node.process_message(envelope("n2", None, BroadcastPayload::GossipOk { msg: 99 }), 12);
    assert_eq!(node.pending.len(), 1);
}

#[test]
fn duplicate_broadcast_triggers_no_second_propagation() {
    let mut node = three_node_a();
    node.process_message(envelope("c1", Some(5), BroadcastPayload::Broadcast { msg: 7 }), 0);
    node.state.take_outbox();
    let pending_before = node.pending[0].peers.clone();
    node.process_message(envelope("c2", Some(6), BroadcastPayload::Broadcast { msg: 7 }), 1);
    assert_eq!(node.messages, vec![7]);
    let out = node.state.take_outbox();
    assert_eq!(out.len(), 1);
    assert!(matches!(out[0].body.payload, Outbound::Proto(BroadcastPayload::BroadcastOk)));
    assert_eq!(node.pending[0].peers, pending_before);
    assert_eq!(node.state.queue.len(), 1);
}

#[test]
fn duplicate_gossip_is_deduplicated_but_still_acknowledged() {
    let mut node = three_node_a();
    node.process_message(envelope("n2", Some(3), BroadcastPayload::Gossip { msg: 7 }), 0);
    node.process_message(envelope("n3", Some(4), BroadcastPayload::Gossip { msg: 7 }), 1);
    assert_eq!(node.messages, vec![7]);
    let out = node.state.take_outbox();
    assert_eq!(out.len(), 2);
    assert!(matches!(
        out[1].body.payload,
        Outbound::Proto(BroadcastPayload::GossipOk { msg: 7 })
    ));
}

#[test]
fn read_replies_with_a_copy_of_the_seen_set() {
    let mut node = three_node_a();
    node.process_message(envelope("c1", Some(1), BroadcastPayload::Broadcast { msg: 7 }), 0);
    node.process_message(envelope("c1", Some(2), BroadcastPayload::Broadcast { msg: 9 }), 0);
    node.state.take_outbox();
    node.process_message(envelope("c1", Some(3), BroadcastPayload::Read), 0);
    let out = node.state.take_outbox();
    assert_eq!(out.len(), 1);
    match &out[0].body.payload {
        Outbound::Proto(BroadcastPayload::ReadOk { messages }) => {
            assert_eq!(messages, &vec![7, 9]);
        },
        _ => panic!("expected read_ok"),
    }
    // the reply holds a copy: mutating the node later cannot race it
    assert_eq!(node.messages, vec![7, 9]);
}

#[test]
fn topology_is_accepted_and_unused() {
    let mut node = three_node_a();
    node.process_message(
        envelope(
            "c0",
            Some(4),
            BroadcastPayload::Topology { topology: vec![(s("n1"), vec![s("n2")])] },
        ),
        0,
    );
    let out = node.state.take_outbox();
    assert_eq!(out.len(), 1);
    assert!(matches!(out[0].body.payload, Outbound::Proto(BroadcastPayload::TopologyOk)));
}

#[test]
fn single_node_cluster_gossips_to_nobody() {
    let mut node = BroadcastNode::init();
    node.state.handle_init(s("n1"), vec![s("n1")], Some(1), s("c0"));
    node.state.take_outbox();
    node.process_message(envelope("c1", Some(2), BroadcastPayload::Broadcast { msg: 7 }), 0);
    assert_eq!(node.messages, vec![7]);
    let out = node.state.take_outbox();
    assert_eq!(out.len(), 1);
    assert!(node.pending.is_empty());
    assert!(node.state.queue.is_empty());
}

#[test]
fn timer_resends_to_unacknowledged_peers_and_reschedules() {
    let mut node = three_node_a();
    node.process_message(envelope("c1", Some(5), BroadcastPayload::Broadcast { msg: 7 }), 0);
    node.state.take_outbox();
    node.process_message(envelope("n2", None, BroadcastPayload::GossipOk { msg: 7 }), 50);
    node.handle_timer(BroadcastTimer { value: 7 }, 100);
    let out = node.state.take_outbox();
    assert_eq!(out.len(), 1);
    assert_eq!(out[0].dst, s("n3"));
    assert!(matches!(
        out[0].body.payload,
        Outbound::Proto(BroadcastPayload::Gossip { msg: 7 })
    ));
    let last = node.state.queue.last().unwrap();
    assert_eq!(last.expires_at, 100 + RETRY_MS);
    assert_eq!(last.state.value, 7);
}

#[test]
fn delivery_order_does_not_matter() {
    let mut forward = three_node_a();
    forward.process_message(envelope("n2", None, BroadcastPayload::Gossip { msg: 1 }), 0);
    forward.process_message(envelope("n3", None, BroadcastPayload::Gossip { msg: 2 }), 0);
    forward.process_message(envelope("c1", Some(1), BroadcastPayload::Broadcast { msg: 3 }), 0);
    let mut backward = three_node_a();
    backward.process_message(envelope("c1", Some(1), BroadcastPayload::Broadcast { msg: 3 }), 0);
    backward.process_message(envelope("n3", None, BroadcastPayload::Gossip { msg: 2 }), 0);
    backward.process_message(envelope("n2", None, BroadcastPayload::Gossip { msg: 1 }), 0);
    let mut seen_forward = forward.messages.clone();
    let mut seen_backward = backward.messages.clone();
    seen_forward.sort();
    seen_backward.sort();
    assert_eq!(seen_forward, seen_backward);
    assert_eq!(seen_forward, vec![1, 2, 3]);
}
