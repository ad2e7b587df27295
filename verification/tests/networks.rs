use kad_dht::hashing::{get_key, hash_to_key};
use kad_dht::key::{bucket_index, distance, Key};
use kad_dht::network::{
    create_network, find_node, get, get_node, get_node_id, get_value, insert_value, maintain, put,
    NodeMap, FIRST_PORT,
};
use kad_dht::routing::Contact;
use kad_dht::{BUCKET_REFRESH_INTERVAL, KEY_EXPIRATION, REPLICATION_PARAM};

fn ids(n: usize) -> Vec<Key> {
    (0..n).map(|i| hash_to_key(format!("node-{}", i).as_bytes())).collect()
}

fn network(n: usize) -> NodeMap {
    create_network(n, &ids(n), 0)
}

fn known(network: &NodeMap, index: usize) -> Vec<Contact> {
    let mut all = Vec::new();
    for i in 0..256 {
        all.extend(get_node(network, index).table.bucket(i));
    }
    all
}

fn holders(network: &mut NodeMap, key: &Key, now: u64) -> Vec<usize> {
    let mut found = Vec::new();
    for i in 0..network.len() {
        if network[i].storage.get(key, now).is_some() {
            found.push(i);
        }
    }
    found
}

#[test]
fn nine_nodes_put_at_node_five_get_at_node_one() {
    let mut network = network(9);
    insert_value(&mut network, 5, "alice", b"hello".to_vec(), 10);
    assert_eq!(get_value(&mut network, 1, "alice", 10), Some(b"hello".to_vec()));
}

#[test]
fn get_of_a_key_that_nobody_put_is_none() {
    let mut network = network(9);
    assert_eq!(get_value(&mut network, 3, "nonexistent", 10), None);
    let mut alone = create_network(1, &ids(1), 0);
    assert_eq!(get_value(&mut alone, 0, "nonexistent", 10), None);
}

#[test]
fn single_node_put_then_get_returns_the_value() {
    let mut network = network(1);
    insert_value(&mut network, 0, "alice", b"hello".to_vec(), 10);
    assert_eq!(get_value(&mut network, 0, "alice", 10), Some(b"hello".to_vec()));
    assert_eq!(holders(&mut network, &get_key("alice"), 10), vec![0]);
}

#[test]
fn every_node_of_a_small_network_gets_what_any_node_put() {
    let mut network = network(9);
    for from in 0..9 {
        let key = format!("key-{}", from);
        insert_value(&mut network, from, &key, vec![from as u8], 10);
        for at in 0..9 {
            assert_eq!(get_value(&mut network, at, &key, 11), Some(vec![from as u8]));
        }
    }
}

#[test]
fn a_record_is_gone_from_the_network_once_its_lifetime_has_passed() {
    let mut network = network(9);
    insert_value(&mut network, 5, "alice", b"hello".to_vec(), 100);
    assert_eq!(
        get_value(&mut network, 1, "alice", 100 + KEY_EXPIRATION - 1),
        Some(b"hello".to_vec())
    );
    let mut network = self::network(9);
    insert_value(&mut network, 5, "alice", b"hello".to_vec(), 100);
    assert_eq!(get_value(&mut network, 1, "alice", 100 + KEY_EXPIRATION), None);
    assert_eq!(get_value(&mut network, 5, "alice", 100 + KEY_EXPIRATION + 1), None);
}

#[test]
fn create_network_gives_each_node_its_identifier_and_port() {
    let ids = ids(9);
    let network = create_network(9, &ids, 0);
    assert_eq!(network.len(), 9);
    assert_eq!(FIRST_PORT, 8900);
    let mut loopback = [0u8; 16];
    loopback[15] = 1;
    for i in 0..9 {
        assert_eq!(get_node_id(&network, i), ids[i]);
        assert_eq!(
            get_node(&network, i).data,
            Contact { id: ids[i], host: loopback, port: 8900 + i as u16 }
        );
        assert_eq!(get_node(&network, i).storage.len(), 0);
    }
    assert!(create_network(0, &Vec::new(), 0).is_empty());
}

#[test]
fn joining_makes_the_nodes_known_to_each_other() {
    let network = network(9);
    for i in 0..9 {
        let known = known(&network, i);
        assert!(!known.is_empty());
        assert!(known.iter().all(|c| c.id != get_node_id(&network, i)));
    }
    assert_eq!(known(&network, 0).len(), 8);
    assert_eq!(known(&network, 8).len(), 8);
}

fn nearest_others(network: &NodeMap, from: usize, target: &Key) -> Vec<Contact> {
    let mut others: Vec<Contact> = (0..network.len())
        .filter(|i| *i != from)
        .map(|i| get_node(network, i).data)
        .collect();
    others.sort_by_key(|c| distance(&c.id, target).0);
    others.truncate(REPLICATION_PARAM);
    others
}

#[test]
fn find_node_returns_the_nearest_nodes_of_the_network() {
    for from in [0usize, 1, 5, 8] {
        let mut network = network(9);
        let target = hash_to_key(format!("target-{}", from).as_bytes());
        let near = find_node(&mut network, from, target, 5);
        assert_eq!(near, nearest_others(&network, from, &target));
    }
    let mut larger = network(40);
    let target = hash_to_key(b"target-0");
    let near = find_node(&mut larger, 0, target, 5);
    assert_eq!(near, nearest_others(&larger, 0, &target));
}

#[test]
fn a_lookup_ends_when_a_round_brings_no_nearer_node() {
    let mut network = network(9);
    let target = hash_to_key(b"target-3");
    let near = find_node(&mut network, 3, target, 5);
    let all = nearest_others(&network, 3, &target);
    assert_eq!(all.len(), 8);
    assert_eq!(near, all[..7].to_vec());
}

#[test]
fn a_record_goes_to_the_nearest_nodes() {
    let mut network = network(40);
    let key = hash_to_key(b"the key");
    put(&mut network, 7, key, &vec![1, 2, 3], 5);
    let near = nearest_others(&network, 7, &key);
    let mut expected: Vec<usize> = near.iter().map(|c| (c.port - FIRST_PORT) as usize).collect();
    let own = distance(&get_node_id(&network, 7), &key);
    if own.less_than(&distance(&near[REPLICATION_PARAM - 1].id, &key)) {
        expected.push(7);
    }
    expected.sort();
    assert_eq!(holders(&mut network, &key, 5), expected);
    let farthest = (0..40)
        .max_by_key(|i| distance(&get_node_id(&network, *i), &key).0)
        .unwrap();
    assert!(!expected.contains(&farthest));
    assert_eq!(get(&mut network, farthest, key, 6), Some(vec![1, 2, 3]));
}

#[test]
fn a_found_value_is_cached_at_the_nearest_node_without_it() {
    let mut network = network(40);
    let key = hash_to_key(b"the key");
    put(&mut network, 7, key, &vec![9], 5);
    let before = holders(&mut network, &key, 5);
    let reader = (0..40).find(|i| !before.contains(i)).unwrap();
    assert_eq!(get(&mut network, reader, key, 6), Some(vec![9]));
    let after = holders(&mut network, &key, 6);
    assert!(after.len() >= before.len());
    assert!(before.iter().all(|i| after.contains(i)));
}

#[test]
fn lookups_leave_no_identifier_twice_in_a_table() {
    let mut network = network(30);
    for n in 0..30 {
        let key = format!("key-{}", n);
        insert_value(&mut network, n, &key, vec![n as u8], 1);
        let reader = (n * 7 + 3) % 30;
        assert_eq!(get_value(&mut network, reader, &key, 2), Some(vec![n as u8]));
    }
    for i in 0..30 {
        let local = get_node_id(&network, i);
        let mut seen = Vec::new();
        for b in 0..256 {
            let bucket = get_node(&network, i).table.bucket(b);
            assert!(bucket.len() <= REPLICATION_PARAM);
            for c in bucket {
                assert_eq!(bucket_index(&local, &c.id), Some(b));
                assert!(!seen.contains(&c.id));
                seen.push(c.id);
            }
        }
    }
}

#[test]
fn a_peer_that_is_not_in_the_network_does_not_answer() {
    let mut network = network(3);
    let ghost = Contact { id: hash_to_key(b"ghost"), host: [0u8; 16], port: 1 };
    network[1].table.observe(ghost, 0);
    let near = find_node(&mut network, 1, ghost.id, 1);
    assert!(!near.contains(&ghost));
    assert_eq!(near.len(), 2);
}

#[test]
fn maintenance_refreshes_the_stale_buckets_and_drops_expired_records() {
    let mut network = network(9);
    insert_value(&mut network, 2, "alice", b"hello".to_vec(), 0);
    let noise = hash_to_key(b"noise");
    assert!(maintain(&mut network, 2, BUCKET_REFRESH_INTERVAL - 1, &noise).is_empty());
    assert_eq!(get_node(&network, 2).storage.len(), 1);
    let later = BUCKET_REFRESH_INTERVAL + KEY_EXPIRATION + 1;
    let plan = maintain(&mut network, 2, later, &noise);
    assert_eq!(plan.len(), 256);
    let local = get_node_id(&network, 2);
    for refresh in &plan {
        assert_eq!(bucket_index(&local, &refresh.target), Some(refresh.bucket));
        assert_eq!(get_node(&network, 2).table.touched_at(refresh.bucket), later);
    }
    assert_eq!(get_node(&network, 2).storage.len(), 0);
    assert!(maintain(&mut network, 2, later, &noise).is_empty());
    assert_eq!(known(&network, 2).len(), 8);
}
