use kad_dht::hashing::hash_to_key;
use kad_dht::key::{bucket_index, distance, key_in_bucket, Key};
use kad_dht::routing::{Check, Contact, Observation, RoutingTable};
use kad_dht::{BUCKET_REFRESH_INTERVAL, REPLICATION_PARAM};

fn contact(id: Key, port: u16) -> Contact {
    Contact { id, host: [0u8; 16], port }
}

fn named(name: &str) -> Contact {
    contact(hash_to_key(name.as_bytes()), 1)
}

fn in_bucket(local: &Key, index: usize, n: usize) -> Contact {
    let noise = hash_to_key(format!("noise-{}", n).as_bytes());
    contact(key_in_bucket(local, index, &noise), n as u16)
}

fn all_contacts(table: &RoutingTable) -> Vec<Contact> {
    let mut all = Vec::new();
    for i in 0..256 {
        all.extend(table.bucket(i));
    }
    all
}

#[test]
fn new_table_is_empty() {
    let local = hash_to_key(b"local");
    let table = RoutingTable::new(local, 7);
    assert_eq!(table.local(), local);
    assert!(all_contacts(&table).is_empty());
    assert_eq!(table.touched_at(0), 7);
    assert_eq!(table.touched_at(255), 7);
}

#[test]
fn observe_ignores_the_local_identifier() {
    let local = hash_to_key(b"local");
    let mut table = RoutingTable::new(local, 0);
    assert_eq!(table.observe(contact(local, 9), 1), Observation::Ignored);
    assert!(all_contacts(&table).is_empty());
}

#[test]
fn observe_adds_a_new_contact_to_its_bucket() {
    let local = hash_to_key(b"local");
    let mut table = RoutingTable::new(local, 0);
    let peer = named("peer");
    assert_eq!(table.observe(peer, 5), Observation::Added);
    let index = bucket_index(&local, &peer.id).unwrap();
    assert_eq!(table.bucket(index), vec![peer]);
    assert_eq!(table.touched_at(index), 5);
    assert_eq!(all_contacts(&table), vec![peer]);
}

#[test]
fn observe_moves_a_known_contact_to_the_front() {
    let local = Key([0u8; 32]);
    let mut table = RoutingTable::new(local, 0);
    let a = in_bucket(&local, 4, 1);
    let b = in_bucket(&local, 4, 2);
    let c = in_bucket(&local, 4, 3);
    assert_eq!(table.observe(a, 1), Observation::Added);
    assert_eq!(table.observe(b, 2), Observation::Added);
    assert_eq!(table.observe(c, 3), Observation::Added);
    assert_eq!(table.bucket(4), vec![c, b, a]);
    let moved = Contact { port: 4242, ..a };
    assert_eq!(table.observe(moved, 4), Observation::Refreshed);
    assert_eq!(table.bucket(4), vec![moved, c, b]);
    assert_eq!(table.touched_at(4), 4);
}

#[test]
fn a_bucket_never_holds_more_than_k_contacts() {
    let local = hash_to_key(b"local");
    let mut table = RoutingTable::new(local, 0);
    let mut seen = Vec::new();
    for n in 0..REPLICATION_PARAM {
        assert_eq!(table.observe(in_bucket(&local, 2, n), n as u64), Observation::Added);
        seen.push(in_bucket(&local, 2, n));
    }
    for n in REPLICATION_PARAM..REPLICATION_PARAM + 10 {
        let outcome = table.observe(in_bucket(&local, 2, n), 100);
        assert_eq!(outcome, Observation::Full(seen[0]));
    }
    assert_eq!(table.bucket(2).len(), REPLICATION_PARAM);
    assert_eq!(REPLICATION_PARAM, 20);
    assert_eq!(table.touched_at(2), (REPLICATION_PARAM - 1) as u64);
}

#[test]
fn a_full_bucket_keeps_a_stale_contact_that_is_alive() {
    let local = hash_to_key(b"local");
    let mut table = RoutingTable::new(local, 0);
    for n in 0..REPLICATION_PARAM {
        table.observe(in_bucket(&local, 1, n), 0);
    }
    let candidate = in_bucket(&local, 1, 99);
    let stale = match table.observe(candidate, 1) {
        Observation::Full(stale) => stale,
        other => panic!("expected a full bucket, got {:?}", other),
    };
    assert_eq!(stale, in_bucket(&local, 1, 0));
    table.settle(candidate, &stale.id, true, 2);
    let bucket = table.bucket(1);
    assert_eq!(bucket.len(), REPLICATION_PARAM);
    assert_eq!(bucket[0], stale);
    assert!(!bucket.contains(&candidate));
    assert_eq!(table.touched_at(1), 2);
}

#[test]
fn a_full_bucket_evicts_a_stale_contact_that_is_dead() {
    let local = hash_to_key(b"local");
    let mut table = RoutingTable::new(local, 0);
    for n in 0..REPLICATION_PARAM {
        table.observe(in_bucket(&local, 1, n), 0);
    }
    let candidate = in_bucket(&local, 1, 99);
    let stale = in_bucket(&local, 1, 0);
    assert_eq!(table.observe(candidate, 1), Observation::Full(stale));
    table.settle(candidate, &stale.id, false, 2);
    let bucket = table.bucket(1);
    assert_eq!(bucket.len(), REPLICATION_PARAM);
    assert_eq!(bucket[0], candidate);
    assert!(!bucket.contains(&stale));
    assert_eq!(bucket[REPLICATION_PARAM - 1], in_bucket(&local, 1, 1));
}

#[test]
fn settle_for_the_local_identifier_changes_nothing() {
    let local = hash_to_key(b"local");
    let mut table = RoutingTable::new(local, 0);
    let peer = named("peer");
    table.observe(peer, 0);
    table.settle(contact(local, 1), &peer.id, false, 5);
    assert_eq!(all_contacts(&table), vec![peer]);
}

#[test]
fn every_contact_is_in_the_bucket_of_its_distance_and_in_no_other() {
    let local = hash_to_key(b"local");
    let mut table = RoutingTable::new(local, 0);
    for n in 0..400 {
        table.observe(named(&format!("peer-{}", n % 300)), n as u64);
    }
    let mut ids = Vec::new();
    for i in 0..256 {
        let bucket = table.bucket(i);
        assert!(bucket.len() <= REPLICATION_PARAM);
        for c in bucket {
            assert_eq!(bucket_index(&local, &c.id), Some(i));
            assert!(!ids.contains(&c.id));
            ids.push(c.id);
        }
    }
    assert!(!ids.is_empty());
}

#[test]
fn closest_returns_the_nearest_contacts_nearest_first() {
    let local = hash_to_key(b"local");
    let mut table = RoutingTable::new(local, 0);
    for n in 0..200 {
        table.observe(named(&format!("peer-{}", n)), 0);
    }
    let target = hash_to_key(b"target");
    let mut expected = all_contacts(&table);
    expected.sort_by_key(|c| distance(&c.id, &target).0);
    assert!(expected.len() > 10);
    let near = table.closest(&target, 10);
    assert_eq!(near, expected[..10].to_vec());
    let everyone = table.closest(&target, 1000);
    assert_eq!(everyone, expected);
    assert!(table.closest(&target, 0).is_empty());
}

#[test]
fn closest_merges_contacts_of_several_buckets() {
    let local = Key([0u8; 32]);
    let mut table = RoutingTable::new(local, 0);
    let a = in_bucket(&local, 200, 1);
    let b = in_bucket(&local, 100, 2);
    let c = in_bucket(&local, 7, 3);
    table.observe(c, 0);
    table.observe(a, 0);
    table.observe(b, 0);
    assert_eq!(table.closest(&local, 2), vec![a, b]);
    assert_eq!(table.closest(&local, 3), vec![a, b, c]);
    assert_eq!(table.closest(&c.id, 1), vec![c]);
}

#[test]
fn observe_all_asks_for_a_check_where_a_bucket_is_full() {
    let local = hash_to_key(b"local");
    let mut table = RoutingTable::new(local, 0);
    let mut contacts = Vec::new();
    for n in 0..REPLICATION_PARAM + 1 {
        contacts.push(in_bucket(&local, 0, n));
    }
    contacts.push(contact(local, 1));
    let checks = table.observe_all(&contacts, 3);
    assert_eq!(
        checks,
        vec![Check { candidate: contacts[REPLICATION_PARAM], stale: contacts[0] }]
    );
    assert_eq!(all_contacts(&table).len(), REPLICATION_PARAM);
}

#[test]
fn random_key_in_bucket_belongs_to_the_bucket() {
    let local = hash_to_key(b"local");
    let table = RoutingTable::new(local, 0);
    let noise = hash_to_key(b"noise");
    for index in [0usize, 1, 7, 8, 9, 128, 254, 255] {
        let key = table.random_key_in_bucket(index, &noise);
        assert_eq!(bucket_index(&local, &key), Some(index));
    }
}

#[test]
fn stale_buckets_are_those_untouched_for_longer_than_the_interval() {
    let local = Key([0u8; 32]);
    let mut table = RoutingTable::new(local, 1000);
    assert!(table.stale_buckets(1000 + BUCKET_REFRESH_INTERVAL).is_empty());
    let all: Vec<usize> = (0..256).collect();
    assert_eq!(table.stale_buckets(1001 + BUCKET_REFRESH_INTERVAL), all);
    table.observe(in_bucket(&local, 5, 1), 2000);
    table.touch(9, 2000);
    let stale = table.stale_buckets(1001 + BUCKET_REFRESH_INTERVAL);
    assert_eq!(stale.len(), 254);
    assert!(!stale.contains(&5));
    assert!(!stale.contains(&9));
    assert!(table.stale_buckets(0).is_empty());
}
