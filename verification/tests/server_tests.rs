use coap_server::codec::{MessageType, Packet};
use coap_server::dispatch::{Action, Core, Event, RunState};
use coap_server::multicast::{all_coap_group, ip_is_multicast, join_decision, IpModel, JoinDecision};
use coap_server::observer::Peer;

fn peer(port: u16) -> Peer {
    Peer { ip_hi: 0, ip_lo: 0x7f000001, port, v6: false }
}

fn get_request(mtype: MessageType, mid: u16, token: Vec<u8>, path: &[u8]) -> Packet {
    Packet {
        version: 1,
        mtype,
        code: 1,
        message_id: mid,
        token,
        options: vec![(11, path.to_vec())],
        payload: vec![],
    }
}

fn put_request(mid: u16, token: Vec<u8>, path: &[u8], payload: &[u8]) -> Packet {
    Packet {
        version: 1,
        mtype: MessageType::Confirmable,
        code: 3,
        message_id: mid,
        token,
        options: vec![(11, path.to_vec())],
        payload: payload.to_vec(),
    }
}

/// The echo handler of the tests: it copies the first Uri-Path value into
/// the response payload.
fn echo_handler(core: &mut Core, req: coap_server::dispatch::Request) {
    let mut uri = Vec::new();
    for (num, v) in &req.packet.options {
        if *num == 11 {
            uri = v.clone();
            break;
        }
    }
    let response = Packet {
        version: 1,
        mtype: MessageType::Acknowledgement,
        code: 69,
        message_id: req.packet.message_id,
        token: req.packet.token.clone(),
        options: vec![],
        payload: uri,
    };
    core.step(Event::HandlerDone(Some(response), 0, 0));
}

fn echo_once(core: &mut Core, request: Packet, from: Peer) -> (Packet, Peer) {
    match core.step(Event::Inbound(request, from)) {
        Action::Deliver(req) => echo_handler(core, req),
        Action::Continue => panic!("request was not delivered to the handler"),
    }
    core.pop_outbound().expect("a response must be queued")
}

#[test]
fn test_echo_server() {
    let mut core = Core::new();
    let client = peer(40001);
    let request = get_request(
        MessageType::Confirmable,
        1,
        vec![0x51, 0x55, 0x77, 0xE8],
        b"test-echo",
    );
    let (reply, to) = echo_once(&mut core, request, client);
    assert_eq!(reply.payload, b"test-echo".to_vec());
    assert_eq!(reply.token, vec![0x51, 0x55, 0x77, 0xE8]);
    assert_eq!(to, client);
    assert!(core.pop_outbound().is_none());
}

#[test]
fn test_echo_server_no_token() {
    let mut core = Core::new();
    let client = peer(40002);
    let request = get_request(MessageType::Confirmable, 1, vec![], b"test-echo");
    let (reply, _) = echo_once(&mut core, request, client);
    assert_eq!(reply.payload, b"test-echo".to_vec());
    assert_eq!(reply.token, Vec::<u8>::new());
}

#[test]
fn test_update_resource() {
    let payload1 = b"data1".to_vec();
    let payload2 = b"data2".to_vec();
    let mut core = Core::new();
    let writer = peer(50001);
    let observer = peer(50002);

    // the writer puts data1 at /test; the handler acknowledges
    match core.step(Event::Inbound(put_request(10, vec![1], b"test", &payload1), writer)) {
        Action::Deliver(req) => echo_handler(&mut core, req),
        Action::Continue => panic!("unexpected step"),
    }
    let (_ack, _) = core.pop_outbound().expect("ack for the put");
    assert!(core.pop_outbound().is_none());

    // the observer registers and is told data1
    let mut register = get_request(MessageType::Confirmable, 2, vec![0x51, 0x55], b"test");
    register.options.insert(0, (6, vec![]));
    match core.step(Event::Inbound(register, observer)) {
        Action::Continue => {},
        Action::Deliver(_) => panic!("unexpected step"),
    }
    let (initial, to) = core.pop_outbound().expect("registration reply");
    assert_eq!(initial.payload, payload1);
    assert_eq!(to, observer);

    // a second put triggers a notification with data2
    match core.step(Event::Inbound(put_request(11, vec![2], b"test", &payload2), writer)) {
        Action::Deliver(req) => echo_handler(&mut core, req),
        Action::Continue => panic!("unexpected step"),
    }
    // the queue is first-in first-out: the put's ack leaves before the
    // notification that the same event enqueued
    let (ack2, ack_to) = core.pop_outbound().expect("ack for the second put");
    assert_eq!(ack_to, writer);
    assert_eq!(ack2.token, vec![2]);
    let (notif, notif_to) = core.pop_outbound().expect("notification");
    assert_eq!(notif_to, observer);
    assert_eq!(notif.payload, payload2);
    assert_eq!(notif.mtype, MessageType::Confirmable);
    assert_eq!(notif.token, vec![0x51, 0x55]);
    assert!(core.pop_outbound().is_none());
}

#[test]
fn test_server_all_coap_v4() {
    // the unicast path echoes as ever
    let mut core = Core::new();
    let client = peer(40003);
    let request = get_request(
        MessageType::Confirmable,
        1,
        vec![0x51, 0x55, 0x77, 0xE8],
        b"test-echo",
    );
    let (reply, _) = echo_once(&mut core, request, client);
    assert_eq!(reply.payload, b"test-echo".to_vec());

    // the All-CoAP group for an IPv4 socket, and the join it leads to
    let group = all_coap_group(false, 0x0);
    assert_eq!(group, IpModel::V4(224, 0, 1, 187));
    assert!(ip_is_multicast(&group));
    assert_eq!(join_decision(false, &group), JoinDecision::JoinV4);
    // a segment selects the IPv6 scope nibble; cross-family joins are no-ops
    let group6 = all_coap_group(true, 0x2);
    assert_eq!(group6, IpModel::V6(0xff02, 0, 0, 0, 0, 0, 0, 0xfd));
    assert_eq!(join_decision(false, &group6), JoinDecision::Skip);
    assert_eq!(join_decision(true, &group6), JoinDecision::JoinV6AtIfaceZero);

    // a non-confirmable request to the group port still echoes
    let mut core2 = Core::new();
    let request2 = get_request(
        MessageType::NonConfirmable,
        2,
        vec![0x51, 0x55, 0x77, 0xE8],
        b"test-echo",
    );
    let (reply2, _) = echo_once(&mut core2, request2, client);
    assert_eq!(reply2.payload, b"test-echo".to_vec());
}

#[test]
fn outbound_queue_is_first_in_first_out() {
    let mut core = Core::new();
    let a = peer(1);
    let b = peer(2);
    core.outbound = vec![
        (get_request(MessageType::Confirmable, 1, vec![], b"first"), a),
        (get_request(MessageType::Confirmable, 2, vec![], b"second"), b),
        (get_request(MessageType::Confirmable, 3, vec![], b"third"), a),
    ];
    assert_eq!(core.pop_outbound().unwrap().0.message_id, 1);
    assert_eq!(core.pop_outbound().unwrap().0.message_id, 2);
    assert_eq!(core.pop_outbound().unwrap().0.message_id, 3);
    assert!(core.pop_outbound().is_none());
}

#[test]
fn stop_drains_then_terminates() {
    let mut core = Core::new();
    let client = peer(60001);
    let request = get_request(MessageType::Confirmable, 1, vec![], b"test-echo");
    match core.step(Event::Inbound(request, client)) {
        Action::Deliver(req) => echo_handler(&mut core, req),
        Action::Continue => panic!("unexpected step"),
    }
    let _ = core.step(Event::Stop);
    assert_eq!(core.state, RunState::Draining);
    // the queued response still leaves before the loop ends
    let (reply, _) = core.pop_outbound().expect("queued response survives the stop");
    assert_eq!(reply.payload, b"test-echo".to_vec());
    assert!(core.pop_outbound().is_none());
    assert_eq!(core.state, RunState::Terminated);
}

#[test]
fn ack_and_rst_are_not_delivered_to_the_handler() {
    let mut core = Core::new();
    let client = peer(7001);
    let ack = Packet {
        version: 1,
        mtype: MessageType::Acknowledgement,
        code: 0,
        message_id: 99,
        token: vec![],
        options: vec![],
        payload: vec![],
    };
    match core.step(Event::Inbound(ack, client)) {
        Action::Continue => {},
        Action::Deliver(_) => panic!("a reply must not reach the handler"),
    }
}

#[test]
fn first_registration_reply_carries_observe() {
    let mut core = Core::new();
    let watcher = peer(8001);
    let mut register = get_request(MessageType::Confirmable, 5, vec![0xAA], b"fresh");
    register.options.insert(0, (6, vec![]));
    // the resource is unknown: the handler is invoked to produce the payload
    match core.step(Event::Inbound(register, watcher)) {
        Action::Deliver(req) => {
            assert_eq!(req.path, b"fresh".to_vec());
            let materialized = Packet {
                version: 1,
                mtype: MessageType::Acknowledgement,
                code: 69,
                message_id: 5,
                token: vec![0xAA],
                options: vec![],
                payload: b"first".to_vec(),
            };
            let _ = core.step(Event::HandlerDone(Some(materialized), 0, 0));
        },
        Action::Continue => panic!("first registration must reach the handler"),
    }
    // exactly one packet goes out: the 2.05 with Observe = 1 and the payload
    let (reply, to) = core.pop_outbound().expect("registration reply");
    assert_eq!(to, watcher);
    assert_eq!(reply.code, 69);
    assert_eq!(reply.mtype, MessageType::Acknowledgement);
    assert_eq!(reply.message_id, 5);
    assert_eq!(reply.token, vec![0xAA]);
    assert_eq!(reply.payload, b"first".to_vec());
    assert_eq!(reply.options, vec![(6, vec![1])]);
    assert!(core.pop_outbound().is_none());
    // a later write to the resource notifies with the next sequence number
    let notifs = core.registry.write_resource(&b"fresh".to_vec(), &b"second".to_vec(), 0, 0);
    assert_eq!(notifs.len(), 1);
    assert_eq!(notifs[0].0.payload, b"second".to_vec());
    assert_eq!(notifs[0].0.options, vec![(6, vec![2])]);
}
