use kad_dht::hashing::hash_to_key;
use kad_dht::key::{bucket_index, distance, Key};
use kad_dht::lookup::Mark;
use kad_dht::node::{Node, Refresh};
use kad_dht::protocol::{Message, Payload};
use kad_dht::routing::{Contact, Observation};
use kad_dht::{BUCKET_REFRESH_INTERVAL, KEY_EXPIRATION, REPLICATION_PARAM};

fn contact(name: &str, port: u16) -> Contact {
    Contact { id: hash_to_key(name.as_bytes()), host: [0u8; 16], port }
}

fn known(node: &Node) -> Vec<Contact> {
    let mut all = Vec::new();
    for i in 0..256 {
        all.extend(node.table.bucket(i));
    }
    all
}

#[test]
fn a_new_node_knows_its_bootstrap_peer_only() {
    let me = contact("me", 1);
    let peer = contact("peer", 2);
    let alone = Node::new(me, None, 0);
    assert!(known(&alone).is_empty());
    assert_eq!(alone.data, me);
    assert_eq!(alone.storage.len(), 0);
    let joined = Node::new(me, Some(peer), 0);
    assert_eq!(known(&joined), vec![peer]);
    let narcissus = Node::new(me, Some(me), 0);
    assert!(known(&narcissus).is_empty());
}

#[test]
fn ping_is_answered_by_pong_and_the_sender_is_observed() {
    let mut node = Node::new(contact("me", 1), None, 0);
    let peer = contact("peer", 2);
    let (reply, seen) = node.handle_request(peer, &Payload::Ping, 5);
    assert_eq!(reply, Some(Payload::Pong));
    assert_eq!(seen, Observation::Added);
    assert_eq!(known(&node), vec![peer]);
    let (_, again) = node.handle_request(peer, &Payload::Ping, 6);
    assert_eq!(again, Observation::Refreshed);
}

#[test]
fn store_keeps_the_record_and_find_value_returns_it() {
    let mut node = Node::new(contact("me", 1), None, 0);
    let peer = contact("peer", 2);
    let key = hash_to_key(b"alice");
    let store = Payload::Store { key, value: b"hello".to_vec() };
    assert_eq!(node.handle_request(peer, &store, 100).0, Some(Payload::StoreAck));
    let find = Payload::FindValue { key };
    assert_eq!(
        node.handle_request(peer, &find, 100 + KEY_EXPIRATION - 1).0,
        Some(Payload::FoundValue { value: b"hello".to_vec() })
    );
    assert_eq!(
        node.handle_request(peer, &find, 100 + KEY_EXPIRATION).0,
        Some(Payload::FoundContacts { contacts: vec![peer] })
    );
    assert_eq!(node.storage.len(), 0);
}

#[test]
fn find_node_returns_the_k_nearest_contacts() {
    let mut node = Node::new(contact("me", 1), None, 0);
    let mut peers = Vec::new();
    for n in 0..60 {
        let peer = contact(&format!("peer-{}", n), n);
        node.handle_request(peer, &Payload::Ping, 0);
        peers.push(peer);
    }
    let target = hash_to_key(b"target");
    let reply = node.handle_request(peers[0], &Payload::FindNode { target }, 0).0;
    let mut expected = known(&node);
    assert!(expected.len() > REPLICATION_PARAM);
    expected.sort_by_key(|c| distance(&c.id, &target).0);
    expected.truncate(REPLICATION_PARAM);
    assert_eq!(reply, Some(Payload::FindNodeReply { contacts: expected }));
}

#[test]
fn find_node_for_the_asker_returns_the_asker_first() {
    let mut node = Node::new(contact("me", 1), None, 0);
    node.handle_request(contact("peer", 2), &Payload::Ping, 0);
    let asker = contact("asker", 99);
    let reply = node.handle_request(asker, &Payload::FindNode { target: asker.id }, 0).0;
    assert_eq!(
        reply,
        Some(Payload::FindNodeReply { contacts: vec![asker, contact("peer", 2)] })
    );
}

#[test]
fn an_answer_gets_no_answer() {
    let mut node = Node::new(contact("me", 1), None, 0);
    let peer = contact("peer", 2);
    for payload in [
        Payload::Pong,
        Payload::StoreAck,
        Payload::FindNodeReply { contacts: vec![] },
        Payload::FoundValue { value: vec![1] },
        Payload::FoundContacts { contacts: vec![peer] },
    ] {
        assert_eq!(node.handle_request(peer, &payload, 0).0, None);
    }
    assert_eq!(known(&node), vec![peer]);
    assert_eq!(node.storage.len(), 0);
}

#[test]
fn a_lookup_request_names_the_target() {
    let node = Node::new(contact("me", 1), Some(contact("peer", 2)), 0);
    let target = hash_to_key(b"t");
    let find_node = node.begin_lookup(target, false);
    assert_eq!(
        node.lookup_request(&find_node),
        Message { sender: node.data.id, payload: Payload::FindNode { target } }
    );
    let find_value = node.begin_lookup(target, true);
    assert_eq!(
        node.lookup_request(&find_value),
        Message { sender: node.data.id, payload: Payload::FindValue { key: target } }
    );
    assert_eq!(find_value.candidates.len(), 1);
}

#[test]
fn a_response_is_observed_and_folded_into_the_lookup() {
    let peer = contact("peer", 2);
    let mut node = Node::new(contact("me", 1), Some(peer), 0);
    let mut lookup = node.begin_lookup(hash_to_key(b"t"), true);
    assert_eq!(lookup.next_round(), vec![peer]);
    let others = vec![contact("a", 3), contact("b", 4), node.data];
    let checks = node.fold_response(
        &mut lookup,
        peer,
        Payload::FoundContacts { contacts: others.clone() },
        9,
    );
    assert!(checks.is_empty());
    assert_eq!(known(&node).len(), 3);
    assert_eq!(lookup.candidates.len(), 3);
    assert!(lookup.candidates.iter().all(|c| c.contact.id != node.data.id));
    let replied: Vec<Contact> = lookup
        .candidates
        .iter()
        .filter(|c| c.mark == Mark::Replied)
        .map(|c| c.contact)
        .collect();
    assert_eq!(replied, vec![peer]);
    lookup.end_round();
    let asked = lookup.next_round();
    let checks = node.fold_response(&mut lookup, asked[0], Payload::FoundValue { value: vec![7] }, 9);
    assert!(checks.is_empty());
    assert!(lookup.finished);
    assert_eq!(lookup.value(), Some(vec![7]));
}

#[test]
fn a_node_keeps_a_record_where_it_is_among_the_nearest() {
    let key = Key([0xffu8; 32]);
    let mut near = Vec::new();
    for n in 0..REPLICATION_PARAM {
        let mut id = [0xffu8; 32];
        id[31] = 0xff - 2 - n as u8;
        near.push(Contact { id: Key(id), host: [0u8; 16], port: 2 });
    }
    let far = Contact { id: Key([0u8; 32]), host: [0u8; 16], port: 1 };
    let mut alone = Node::new(far, None, 0);
    assert!(alone.store_local(key, &vec![1], &vec![], 10));
    assert_eq!(alone.get_local(&key, 10), Some(vec![1]));
    let mut few = Node::new(far, None, 0);
    assert!(few.store_local(key, &vec![1], &near[..REPLICATION_PARAM - 1].to_vec(), 10));
    let mut crowded = Node::new(far, None, 0);
    assert!(!crowded.store_local(key, &vec![1], &near, 10));
    assert_eq!(crowded.get_local(&key, 10), None);
    let mut id = [0xffu8; 32];
    id[31] = 0xfe;
    let mut close = Node::new(Contact { id: Key(id), ..far }, None, 0);
    assert!(close.store_local(key, &vec![1], &near, 10));
    assert_eq!(close.get_local(&key, 10), Some(vec![1]));
}

#[test]
fn a_store_request_carries_the_record() {
    let node = Node::new(contact("me", 1), None, 0);
    let key = hash_to_key(b"k");
    assert_eq!(
        node.store_request(key, &vec![1, 2]),
        Message { sender: node.data.id, payload: Payload::Store { key, value: vec![1, 2] } }
    );
}

#[test]
fn sweep_drops_expired_records() {
    let mut node = Node::new(contact("me", 1), None, 0);
    node.store_local(hash_to_key(b"a"), &vec![1], &vec![], 0);
    node.store_local(hash_to_key(b"b"), &vec![2], &vec![], 10);
    node.sweep(KEY_EXPIRATION + 5);
    assert_eq!(node.storage.len(), 1);
}

#[test]
fn the_refresh_plan_has_a_target_for_each_stale_bucket() {
    let peer = contact("peer", 2);
    let mut node = Node::new(contact("me", 1), None, 0);
    let noise = hash_to_key(b"noise");
    assert!(node.refresh_plan(BUCKET_REFRESH_INTERVAL, &noise).is_empty());
    node.handle_request(peer, &Payload::Ping, 100);
    let fresh = bucket_index(&node.data.id, &peer.id).unwrap();
    let plan: Vec<Refresh> = node.refresh_plan(BUCKET_REFRESH_INTERVAL + 1, &noise);
    assert_eq!(plan.len(), 255);
    for refresh in &plan {
        assert_ne!(refresh.bucket, fresh);
        assert_eq!(bucket_index(&node.data.id, &refresh.target), Some(refresh.bucket));
    }
    assert!(plan.windows(2).all(|w| w[0].bucket < w[1].bucket));
}
