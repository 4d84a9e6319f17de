use dist::counter::{CounterError, CounterNode, CounterPayload, CounterTimer, REFRESH_MS};
use dist::messages::{Body, Message};
use dist::nodes::{MessageType, Outbound};
use dist::seqkv::SeqPayload;

fn s(text: &str) -> String {
    text.to_string()
}

fn client(src: &str, id: Option<usize>, payload: CounterPayload) -> MessageType<CounterPayload> {
    MessageType::Defined(Message {
        src: s(src),
        dst: s("n1"),
        body: Body { id, req_id: None, payload },
    })
}

fn store(payload: SeqPayload) -> MessageType<CounterPayload> {
    MessageType::Store(Message {
        src: s("seq-kv"),
        dst: s("n1"),
        body: Body { id: None, req_id: None, payload },
    })
}

fn first_node() -> CounterNode {
    let mut node = CounterNode::init(0);
    node.state.handle_init(s("n1"), vec![s("n1"), s("n2")], Some(1), s("c0"));
    node.state.take_outbox();
    node
}

fn expect_cas(m: &Message<Outbound<CounterPayload>>, from: u32, to: u32) {
    assert_eq!(m.dst, s("seq-kv"));
    match &m.body.payload {
        Outbound::Store(SeqPayload::Cas { key, from: f, to: t }) => {
            assert_eq!(key, &s("reddit"));
            assert_eq!(*f, from);
            assert_eq!(*t, to);
        },
        _ => panic!("expected cas"),
    }
}

#[test]
fn add_proposes_and_commit_acknowledges() {
    let mut node = first_node();
    node.process_message(client("c1", Some(7), CounterPayload::Add { delta: 3 })).unwrap();
    let out = node.state.take_outbox();
    assert_eq!(out.len(), 1);
    expect_cas(&out[0], 0, 3);
    node.process_message(store(SeqPayload::CasOk {})).unwrap();
    assert_eq!(node.current_state, 3);
    let out = node.state.take_outbox();
    assert_eq!(out.len(), 1);
    assert_eq!(out[0].dst, s("c1"));
    assert_eq!(out[0].body.req_id, Some(7));
    assert!(matches!(out[0].body.payload, Outbound::Proto(CounterPayload::AddOk {})));
    node.process_message(client("c1", Some(8), CounterPayload::Read {})).unwrap();
    let out = node.state.take_outbox();
    assert!(matches!(
        out[0].body.payload,
        Outbound::Proto(CounterPayload::ReadOk { value: 3 })
    ));
}

#[test]
fn cas_conflict_rereads_and_reproposes() {
    let mut node = first_node();
    node.process_message(client("c1", Some(7), CounterPayload::Add { delta: 2 })).unwrap();
    node.state.take_outbox();
    node.process_message(store(SeqPayload::Error { code: 22, text: s("precondition failed") }))
        .unwrap();
    let out = node.state.take_outbox();
    assert_eq!(out.len(), 1);
    assert_eq!(out[0].dst, s("seq-kv"));
    assert!(matches!(&out[0].body.payload, Outbound::Store(SeqPayload::Read { .. })));
    node.process_message(store(SeqPayload::ReadOk { value: 5 })).unwrap();
    assert_eq!(node.current_state, 5);
    let out = node.state.take_outbox();
    assert_eq!(out.len(), 1);
    expect_cas(&out[0], 5, 7);
}

#[test]
fn missing_key_is_initialized_by_the_first_node_only() {
    let mut node = first_node();
    node.process_message(client("c1", Some(7), CounterPayload::Add { delta: 1 })).unwrap();
    node.state.take_outbox();
    node.process_message(store(SeqPayload::Error { code: 20, text: s("key not found") }))
        .unwrap();
    let out = node.state.take_outbox();
    assert_eq!(out.len(), 1);
    match &out[0].body.payload {
        Outbound::Store(SeqPayload::Write { key, value }) => {
            assert_eq!(key, &s("reddit"));
            assert_eq!(*value, 0);
        },
        _ => panic!("expected write"),
    }
    node.process_message(store(SeqPayload::WriteOk {})).unwrap();
    let out = node.state.take_outbox();
    assert_eq!(out.len(), 1);
    expect_cas(&out[0], 0, 1);
}

#[test]
fn missing_key_makes_other_nodes_wait_and_retry() {
    let mut node = CounterNode::init(0);
    node.state.handle_init(s("n2"), vec![s("n1"), s("n2")], Some(1), s("c0"));
    node.state.take_outbox();
    node.process_message(client("c1", Some(7), CounterPayload::Add { delta: 1 })).unwrap();
    node.state.take_outbox();
    node.process_message(store(SeqPayload::Error { code: 20, text: s("key not found") }))
        .unwrap();
    assert!(node.state.take_outbox().is_empty());
    // the retry happens through the periodic background read
    node.handle_timer(CounterTimer {}, 500);
    let out = node.state.take_outbox();
    assert_eq!(out.len(), 1);
    assert!(matches!(&out[0].body.payload, Outbound::Store(SeqPayload::Read { .. })));
}

#[test]
fn unknown_store_code_is_an_error() {
    let mut node = first_node();
    node.process_message(client("c1", Some(7), CounterPayload::Add { delta: 1 })).unwrap();
    node.state.take_outbox();
    let r = node.process_message(store(SeqPayload::Error { code: 99, text: s("boom") }));
    assert!(matches!(r, Err(CounterError::UnknownStoreCode { code: 99 })));
}

#[test]
fn at_most_one_compare_and_swap_is_outstanding() {
    let mut node = first_node();
    node.process_message(client("c1", Some(1), CounterPayload::Add { delta: 1 })).unwrap();
    let out = node.state.take_outbox();
    assert_eq!(out.len(), 1);
    expect_cas(&out[0], 0, 1);
    // a second add during the flight only accumulates
    node.process_message(client("c2", Some(2), CounterPayload::Add { delta: 2 })).unwrap();
    assert!(node.state.take_outbox().is_empty());
    assert_eq!(node.add_ops, 3);
    assert_eq!(node.adders.len(), 2);
    // the commit acknowledges the covered waiter and proposes the rest
    node.process_message(store(SeqPayload::CasOk {})).unwrap();
    assert_eq!(node.current_state, 1);
    let out = node.state.take_outbox();
    assert_eq!(out.len(), 2);
    assert_eq!(out[0].dst, s("c1"));
    assert!(matches!(out[0].body.payload, Outbound::Proto(CounterPayload::AddOk {})));
    expect_cas(&out[1], 1, 3);
    node.process_message(store(SeqPayload::CasOk {})).unwrap();
    assert_eq!(node.current_state, 3);
    let out = node.state.take_outbox();
    assert_eq!(out.len(), 1);
    assert_eq!(out[0].dst, s("c2"));
    assert!(matches!(out[0].body.payload, Outbound::Proto(CounterPayload::AddOk {})));
}

#[test]
fn committed_value_never_decreases() {
    let mut node = first_node();
    let mut highest = node.current_state;
    node.process_message(client("c1", Some(1), CounterPayload::Add { delta: 4 })).unwrap();
    assert!(node.current_state >= highest);
    highest = node.current_state;
    node.process_message(store(SeqPayload::CasOk {})).unwrap();
    assert!(node.current_state >= highest);
    highest = node.current_state;
    // a store read while nothing is outstanding refreshes the value
    node.process_message(store(SeqPayload::ReadOk { value: 9 })).unwrap();
    assert!(node.current_state >= highest);
    assert_eq!(node.current_state, 9);
}

#[test]
fn stale_read_below_committed_is_ignored() {
    let mut node = first_node();
    node.process_message(client("c1", Some(1), CounterPayload::Add { delta: 5 })).unwrap();
    node.state.take_outbox();
    node.process_message(store(SeqPayload::CasOk {})).unwrap();
    node.state.take_outbox();
    assert_eq!(node.current_state, 5);
    // the reply to a read issued before the commit arrives late on the
    // unordered channel; it must not drag the committed value back down
    node.process_message(store(SeqPayload::ReadOk { value: 3 })).unwrap();
    assert_eq!(node.current_state, 5);
    assert!(node.state.take_outbox().is_empty());
}

#[test]
fn stale_read_during_flight_is_ignored() {
    let mut node = first_node();
    node.process_message(client("c1", Some(1), CounterPayload::Add { delta: 1 })).unwrap();
    node.state.take_outbox();
    node.process_message(store(SeqPayload::ReadOk { value: 0 })).unwrap();
    assert!(node.in_flight);
    assert!(node.state.take_outbox().is_empty());
    node.process_message(store(SeqPayload::CasOk {})).unwrap();
    assert_eq!(node.current_state, 1);
}

#[test]
fn client_read_is_stale_tolerant_and_proposes_nothing() {
    let mut node = first_node();
    node.process_message(client("c1", Some(1), CounterPayload::Add { delta: 5 })).unwrap();
    node.state.take_outbox();
    node.process_message(client("c2", Some(2), CounterPayload::Read {})).unwrap();
    let out = node.state.take_outbox();
    assert_eq!(out.len(), 1);
    assert!(matches!(
        out[0].body.payload,
        Outbound::Proto(CounterPayload::ReadOk { value: 0 })
    ));
}

#[test]
fn background_timer_reads_only_while_idle() {
    let mut node = first_node();
    node.handle_timer(CounterTimer {}, 500);
    let out = node.state.take_outbox();
    assert_eq!(out.len(), 1);
    assert!(matches!(&out[0].body.payload, Outbound::Store(SeqPayload::Read { .. })));
    let rescheduled = node.state.queue.last().unwrap();
    assert_eq!(rescheduled.expires_at, 500 + REFRESH_MS);
    node.process_message(client("c1", Some(1), CounterPayload::Add { delta: 1 })).unwrap();
    node.state.take_outbox();
    node.handle_timer(CounterTimer {}, 1000);
    assert!(node.state.take_outbox().is_empty());
    assert_eq!(node.state.queue.last().unwrap().expires_at, 1000 + REFRESH_MS);
}
