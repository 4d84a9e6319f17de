use dist::echo::{EchoPayload, EchoState};
use dist::id::{IdNode, IdPayload};
use dist::messages::{Body, Message};
use dist::nodes::{MessageType, Outbound};

fn s(text: &str) -> String {
    text.to_string()
}

#[test]
fn echo_replies_with_the_same_text() {
    let mut node = EchoState::init();
    let reply = node.process_message(Message {
        src: s("c1"),
        dst: s("n1"),
        body: Body { id: Some(1), req_id: None, payload: EchoPayload::Echo { echo: s("hello") } },
    });
    match reply {
        EchoPayload::EchoOk { echo } => assert_eq!(echo, s("hello")),
        _ => panic!("expected echo_ok"),
    }
}

#[test]
fn echo_handshake_replies_init_ok() {
    let mut node = EchoState::init();
    let reply = node.process_message(Message {
        src: s("c0"),
        dst: s("n1"),
        body: Body {
            id: Some(1),
            req_id: None,
            payload: EchoPayload::Init { node_id: s("n1"), node_ids: vec![s("n1")] },
        },
    });
    assert!(matches!(reply, EchoPayload::InitOk));
}

#[test]
fn generated_ids_are_unique_and_increasing() {
    let mut node = IdNode::init();
    node.state.handle_init(s("n1"), vec![s("n1")], Some(1), s("c0"));
    node.state.take_outbox();
    // pin the randomly seeded counter so the expected ids are exact and the
    // handler's id-space headroom is guaranteed
    node.current_id = 41;
    let start = node.current_id;
    node.process_message(MessageType::Defined(Message {
        src: s("c1"),
        dst: s("n1"),
        body: Body { id: Some(2), req_id: None, payload: IdPayload::Generate {} },
    }));
    node.process_message(MessageType::Defined(Message {
        src: s("c1"),
        dst: s("n1"),
        body: Body { id: Some(3), req_id: None, payload: IdPayload::Generate {} },
    }));
    let out = node.state.take_outbox();
    assert_eq!(out.len(), 2);
    let first = match out[0].body.payload {
        Outbound::Proto(IdPayload::GenerateOk { id }) => id,
        _ => panic!("expected generate_ok"),
    };
    let second = match out[1].body.payload {
        Outbound::Proto(IdPayload::GenerateOk { id }) => id,
        _ => panic!("expected generate_ok"),
    };
    assert_eq!(first, start);
    assert_eq!(second, start + 1);
    assert_ne!(first, second);
    assert_eq!(node.current_id, start + 2);
}
