use coap_server::codec::{MessageType, Packet};
use coap_server::observer::{
    FilterResult, Peer, Registry, ResourceEntry, Subscription,
};

fn peer(port: u16) -> Peer {
    Peer { ip_hi: 0, ip_lo: 0x7f000001, port, v6: false }
}

fn observe_request(value: Option<Vec<u8>>, token: Vec<u8>, mid: u16) -> Packet {
    let mut options: Vec<(u32, Vec<u8>)> = Vec::new();
    if let Some(v) = value {
        options.push((6, v));
    }
    options.push((11, b"test".to_vec()));
    Packet {
        version: 1,
        mtype: MessageType::Confirmable,
        code: 1,
        message_id: mid,
        token,
        options,
        payload: vec![],
    }
}

fn observe_opt(p: &Packet) -> Vec<u8> {
    for (num, v) in &p.options {
        if *num == 6 {
            return v.clone();
        }
    }
    panic!("no observe option");
}

#[test]
fn register_answers_from_stored_state() {
    let mut reg = Registry::new();
    let pr = peer(1111);
    let none = reg.write_resource(&b"test".to_vec(), &b"data1".to_vec(), 0, 0);
    assert!(none.is_empty());
    let req = observe_request(Some(vec![]), vec![1, 2, 3], 41);
    let (fr, replies) = reg.filter(&req, pr, 0);
    assert_eq!(fr, FilterResult::Consumed);
    assert_eq!(replies.len(), 1);
    let (reply, to) = &replies[0];
    assert_eq!(*to, pr);
    assert_eq!(reply.payload, b"data1".to_vec());
    assert_eq!(reply.token, vec![1, 2, 3]);
    assert_eq!(reply.message_id, 41);
    assert_eq!(reply.mtype, MessageType::Acknowledgement);
    assert_eq!(observe_opt(reply), vec![1]);
    assert_eq!(reg.subs.len(), 1);
}

#[test]
fn write_notifies_each_subscriber_with_increasing_sequence() {
    let mut reg = Registry::new();
    let pr = peer(1111);
    reg.write_resource(&b"test".to_vec(), &b"data1".to_vec(), 0, 0);
    reg.filter(&observe_request(Some(vec![]), vec![9], 1), pr, 0);
    let notifs = reg.write_resource(&b"test".to_vec(), &b"data2".to_vec(), 10, 0);
    assert_eq!(notifs.len(), 1);
    let (n1, to) = &notifs[0];
    assert_eq!(*to, pr);
    assert_eq!(n1.payload, b"data2".to_vec());
    assert_eq!(n1.mtype, MessageType::Confirmable);
    assert_eq!(observe_opt(n1), vec![2]);
    let notifs2 = reg.write_resource(&b"test".to_vec(), &b"data3".to_vec(), 20, 0);
    assert_eq!(observe_opt(&notifs2[0].0), vec![3]);
    assert_ne!(notifs2[0].0.message_id, n1.message_id);
}

#[test]
fn sequence_wraps_below_two_to_the_24() {
    let pr = peer(5);
    let tmpl = observe_request(None, vec![7], 0);
    let mut reg = Registry {
        subs: vec![Subscription {
            peer: pr,
            token: vec![7],
            resource: b"r".to_vec(),
            register_time: 0,
            next_seq: 0xFF_FFFF,
            unacked: None,
            template: tmpl,
        }],
        resources: vec![ResourceEntry {
            path: b"r".to_vec(),
            payload: vec![],
            subscribers: vec![(pr, vec![7])],
        }],
        next_mid: 1,
    };
    let n1 = reg.write_resource(&b"r".to_vec(), &b"a".to_vec(), 0, 0);
    assert_eq!(observe_opt(&n1[0].0), vec![0xFF, 0xFF, 0xFF]);
    // acknowledge so the next write is observed cleanly
    reg.on_reply(pr, n1[0].0.message_id, false);
    let n2 = reg.write_resource(&b"r".to_vec(), &b"b".to_vec(), 1, 0);
    assert_eq!(observe_opt(&n2[0].0), Vec::<u8>::new());
}

#[test]
fn register_then_deregister_leaves_registry_empty() {
    let mut reg = Registry::new();
    let pr = peer(1111);
    reg.write_resource(&b"test".to_vec(), &b"data1".to_vec(), 0, 0);
    reg.filter(&observe_request(Some(vec![]), vec![1, 2], 1), pr, 0);
    assert_eq!(reg.subs.len(), 1);
    let (fr, replies) = reg.filter(&observe_request(Some(vec![1]), vec![1, 2], 2), pr, 0);
    assert_eq!(fr, FilterResult::Consumed);
    assert!(replies.is_empty());
    assert_eq!(reg.subs.len(), 0);
    let notifs = reg.write_resource(&b"test".to_vec(), &b"data2".to_vec(), 10, 0);
    assert!(notifs.is_empty());
}

#[test]
fn retransmit_backoff_then_exhaustion_drops_subscriber() {
    let mut reg = Registry::new();
    let pr = peer(2222);
    reg.write_resource(&b"test".to_vec(), &b"data1".to_vec(), 0, 0);
    reg.filter(&observe_request(Some(vec![]), vec![5], 1), pr, 0);
    let notifs = reg.write_resource(&b"test".to_vec(), &b"data2".to_vec(), 0, 0);
    let mid = notifs[0].0.message_id;
    // deadline 2000, then doubling: 6000, 14000, 30000, 62000
    let mut now = 2000u64;
    for _ in 0..4 {
        let again = reg.tick(now);
        assert_eq!(again.len(), 1);
        assert_eq!(again[0].0.message_id, mid);
        assert_eq!(again[0].0.payload, b"data2".to_vec());
        now = 2 * now + 2000;
    }
    // the peer never answered: the fifth due tick destroys the subscription
    let none = reg.tick(now);
    assert!(none.is_empty());
    assert_eq!(reg.subs.len(), 0);
    let after = reg.write_resource(&b"test".to_vec(), &b"data3".to_vec(), now, 0);
    assert!(after.is_empty());
}

#[test]
fn ack_settles_retransmission_and_rst_deregisters() {
    let mut reg = Registry::new();
    let pr = peer(3333);
    reg.write_resource(&b"test".to_vec(), &b"data1".to_vec(), 0, 0);
    reg.filter(&observe_request(Some(vec![]), vec![5], 1), pr, 0);
    let notifs = reg.write_resource(&b"test".to_vec(), &b"data2".to_vec(), 0, 0);
    let mid = notifs[0].0.message_id;
    reg.on_reply(pr, mid, false);
    assert!(reg.tick(100000).is_empty());
    assert_eq!(reg.subs.len(), 1);
    assert_eq!(reg.next_deadline(), None);
    let notifs2 = reg.write_resource(&b"test".to_vec(), &b"data3".to_vec(), 0, 0);
    reg.on_reply(pr, notifs2[0].0.message_id, true);
    assert_eq!(reg.subs.len(), 0);
}

#[test]
fn next_deadline_is_earliest_pending() {
    let mut reg = Registry::new();
    let pr1 = peer(1);
    let pr2 = peer(2);
    reg.write_resource(&b"test".to_vec(), &b"data1".to_vec(), 0, 0);
    reg.filter(&observe_request(Some(vec![]), vec![1], 1), pr1, 0);
    reg.filter(&observe_request(Some(vec![]), vec![2], 2), pr2, 0);
    assert_eq!(reg.next_deadline(), None);
    reg.write_resource(&b"test".to_vec(), &b"data2".to_vec(), 100, 500);
    assert_eq!(reg.next_deadline(), Some(100 + 2000 + 500));
}

#[test]
fn observe_on_non_get_is_admitted() {
    let mut reg = Registry::new();
    let pr = peer(4444);
    let mut req = observe_request(Some(vec![]), vec![1], 1);
    req.code = 3;
    let (fr, replies) = reg.filter(&req, pr, 0);
    assert_eq!(fr, FilterResult::Admit);
    assert!(replies.is_empty());
    assert_eq!(reg.subs.len(), 0);
}

#[test]
fn first_registration_of_unknown_resource_is_admitted() {
    let mut reg = Registry::new();
    let pr = peer(5555);
    let (fr, replies) = reg.filter(&observe_request(Some(vec![]), vec![1], 1), pr, 0);
    assert_eq!(fr, FilterResult::Admit);
    assert!(replies.is_empty());
    assert_eq!(reg.subs.len(), 1);
    assert_eq!(reg.resources.len(), 1);
}
