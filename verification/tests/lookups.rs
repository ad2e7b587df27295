use kad_dht::hashing::hash_to_key;
use kad_dht::key::{distance, key_in_bucket, Key};
use kad_dht::lookup::{Candidate, Lookup, Mark};
use kad_dht::routing::{Contact, RoutingTable};
use kad_dht::{CONCURRENCY_PARAM, REPLICATION_PARAM, ROUTING_TABLE_SIZE};

fn contact(id: Key) -> Contact {
    Contact { id, host: [0u8; 16], port: 1 }
}

/// A contact at the distance `d` (below 256) from the all-zero target.
fn at(d: u8) -> Contact {
    let mut id = [0u8; 32];
    id[31] = d;
    contact(Key(id))
}

fn local() -> Key {
    Key([0xffu8; 32])
}

fn target() -> Key {
    Key([0u8; 32])
}

fn table_of(contacts: &[Contact]) -> RoutingTable {
    let mut table = RoutingTable::new(local(), 0);
    for c in contacts {
        table.observe(*c, 0);
    }
    table
}

fn marks(lookup: &Lookup) -> Vec<(u8, Mark)> {
    lookup.candidates.iter().map(|c| (c.contact.id.0[31], c.mark)).collect()
}

#[test]
fn start_seeds_the_candidates_from_the_table() {
    let table = table_of(&[at(9), at(3), at(5)]);
    let lookup = Lookup::start(&table, target(), false);
    assert_eq!(
        marks(&lookup),
        vec![(3, Mark::Unqueried), (5, Mark::Unqueried), (9, Mark::Unqueried)]
    );
    assert_eq!(lookup.closest_seen, Some(distance(&at(3).id, &target())));
    assert_eq!(lookup.rounds, 0);
    assert_eq!(lookup.found, None);
    assert!(!lookup.finished);
    assert!(!lookup.want_value);
    assert_eq!(lookup.local, local());
    assert_eq!(lookup.target, target());
}

#[test]
fn start_takes_no_more_than_k_candidates() {
    let mut table = RoutingTable::new(local(), 0);
    for n in 0..200 {
        table.observe(contact(hash_to_key(format!("peer-{}", n).as_bytes())), 0);
    }
    let lookup = Lookup::start(&table, hash_to_key(b"target"), true);
    assert_eq!(lookup.candidates.len(), REPLICATION_PARAM);
    assert!(lookup.want_value);
}

#[test]
fn a_lookup_without_candidates_ends_after_one_round() {
    let table = RoutingTable::new(local(), 0);
    let mut lookup = Lookup::start(&table, target(), false);
    assert_eq!(lookup.closest_seen, None);
    assert!(lookup.next_round().is_empty());
    assert!(lookup.end_round());
    assert!(lookup.finished);
    assert!(lookup.nearest().is_empty());
    assert_eq!(lookup.value(), None);
}

#[test]
fn a_round_asks_the_alpha_nearest_unqueried_candidates() {
    assert_eq!(CONCURRENCY_PARAM, 3);
    let table = table_of(&[at(1), at(2), at(3), at(4), at(5)]);
    let mut lookup = Lookup::start(&table, target(), false);
    assert_eq!(lookup.next_round(), vec![at(1), at(2), at(3)]);
    assert_eq!(lookup.rounds, 1);
    assert_eq!(
        marks(&lookup),
        vec![
            (1, Mark::Asked),
            (2, Mark::Asked),
            (3, Mark::Asked),
            (4, Mark::Unqueried),
            (5, Mark::Unqueried)
        ]
    );
}

#[test]
fn a_reply_marks_the_peer_and_merges_what_it_returned() {
    let table = table_of(&[at(10), at(20)]);
    let mut lookup = Lookup::start(&table, target(), false);
    lookup.next_round();
    lookup.fold_reply(&at(10).id, &vec![at(15), at(4), at(20), contact(local()), at(4)]);
    assert_eq!(
        marks(&lookup),
        vec![
            (4, Mark::Unqueried),
            (10, Mark::Replied),
            (15, Mark::Unqueried),
            (20, Mark::Asked)
        ]
    );
    lookup.fold_timeout(&at(20).id);
    assert_eq!(marks(&lookup)[3], (20, Mark::Failed));
}

#[test]
fn an_answer_that_is_not_awaited_is_discarded() {
    let table = table_of(&[at(1), at(2), at(3), at(4)]);
    let mut lookup = Lookup::start(&table, target(), true);
    lookup.next_round();
    let before = marks(&lookup);
    lookup.fold_reply(&at(4).id, &vec![at(9)]);
    lookup.fold_reply(&at(77).id, &vec![at(9)]);
    lookup.fold_value(&at(4).id, vec![1]);
    lookup.fold_timeout(&at(4).id);
    assert_eq!(marks(&lookup), before);
    assert_eq!(lookup.found, None);
    lookup.fold_timeout(&at(1).id);
    lookup.fold_reply(&at(1).id, &vec![at(9)]);
    assert_eq!(marks(&lookup)[0], (1, Mark::Failed));
    assert_eq!(lookup.candidates.len(), 4);
}

#[test]
fn the_lookup_goes_on_while_the_nearest_candidate_comes_nearer() {
    let table = table_of(&[at(100)]);
    let mut lookup = Lookup::start(&table, target(), false);
    assert_eq!(lookup.next_round(), vec![at(100)]);
    lookup.fold_reply(&at(100).id, &vec![at(50), at(120)]);
    assert!(!lookup.end_round());
    assert_eq!(lookup.closest_seen, Some(distance(&at(50).id, &target())));
    assert_eq!(lookup.next_round(), vec![at(50), at(120)]);
    lookup.fold_reply(&at(50).id, &vec![at(60), at(100)]);
    lookup.fold_reply(&at(120).id, &vec![at(50)]);
    assert!(lookup.end_round());
    assert!(lookup.finished);
    assert_eq!(lookup.rounds, 2);
    assert_eq!(lookup.nearest(), vec![at(50), at(60), at(100), at(120)]);
}

#[test]
fn a_round_of_timeouts_ends_the_lookup() {
    let table = table_of(&[at(1), at(2), at(3), at(4)]);
    let mut lookup = Lookup::start(&table, target(), false);
    let asked = lookup.next_round();
    assert_eq!(asked.len(), 3);
    lookup.fold_timeout(&at(1).id);
    assert!(lookup.end_round());
    assert_eq!(
        marks(&lookup),
        vec![(1, Mark::Failed), (2, Mark::Failed), (3, Mark::Failed), (4, Mark::Unqueried)]
    );
    assert_eq!(lookup.nearest(), vec![at(4)]);
    assert!(lookup.end_round());
}

#[test]
fn a_value_ends_the_lookup_at_once() {
    let table = table_of(&[at(1), at(2), at(3)]);
    let mut lookup = Lookup::start(&table, target(), true);
    lookup.next_round();
    lookup.fold_reply(&at(1).id, &vec![at(7)]);
    lookup.fold_value(&at(2).id, b"hello".to_vec());
    assert!(lookup.finished);
    assert_eq!(lookup.value(), Some(b"hello".to_vec()));
    lookup.fold_reply(&at(3).id, &vec![at(8)]);
    assert_eq!(
        marks(&lookup),
        vec![(1, Mark::Replied), (2, Mark::Holder), (3, Mark::Asked), (7, Mark::Unqueried)]
    );
    assert_eq!(lookup.cache_target(), Some(at(1)));
    assert!(lookup.end_round());
    assert_eq!(lookup.value(), Some(b"hello".to_vec()));
}

#[test]
fn without_a_peer_that_answered_there_is_no_cache_target() {
    let table = table_of(&[at(1)]);
    let mut lookup = Lookup::start(&table, target(), true);
    lookup.next_round();
    lookup.fold_value(&at(1).id, vec![1]);
    assert_eq!(lookup.cache_target(), None);
}

#[test]
fn nearest_returns_at_most_k_contacts() {
    let l = Key([0u8; 32]);
    let mut candidates = Vec::new();
    for n in 0..30u8 {
        candidates.push(Candidate { contact: at(n + 1), mark: Mark::Replied });
    }
    candidates[1].mark = Mark::Failed;
    let lookup = Lookup {
        local: key_in_bucket(&l, 0, &l),
        target: target(),
        want_value: false,
        candidates,
        closest_seen: None,
        rounds: 3,
        found: None,
        finished: true,
    };
    let near = lookup.nearest();
    assert_eq!(near.len(), REPLICATION_PARAM);
    assert_eq!(near[0], at(1));
    assert_eq!(near[1], at(3));
    assert_eq!(near[19], at(21));
}

#[test]
fn a_lookup_ends_when_as_many_rounds_were_begun_as_a_key_has_bits() {
    assert_eq!(ROUTING_TABLE_SIZE, 256);
    let mut lookup = Lookup {
        local: local(),
        target: target(),
        want_value: false,
        candidates: vec![
            Candidate { contact: at(1), mark: Mark::Replied },
            Candidate { contact: at(2), mark: Mark::Unqueried },
        ],
        closest_seen: Some(distance(&at(2).id, &target())),
        rounds: 255,
        found: None,
        finished: false,
    };
    assert_eq!(lookup.next_round(), vec![at(2)]);
    assert_eq!(lookup.rounds, 256);
    assert!(lookup.end_round());
    let mut earlier = Lookup {
        local: local(),
        target: target(),
        want_value: false,
        candidates: vec![Candidate { contact: at(1), mark: Mark::Replied }],
        closest_seen: Some(distance(&at(2).id, &target())),
        rounds: 255,
        found: None,
        finished: false,
    };
    assert!(!earlier.end_round());
}
