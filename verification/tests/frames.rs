use kad_dht::hashing::hash_to_key;
use kad_dht::key::Key;
use kad_dht::protocol::{decode, encode, FrameError, Message, Payload};
use kad_dht::routing::Contact;
use kad_dht::MESSAGE_LENGTH;

fn sender() -> Key {
    Key([7u8; 32])
}

fn peers(n: usize) -> Vec<Contact> {
    (0..n)
        .map(|i| Contact {
            id: hash_to_key(format!("peer-{}", i).as_bytes()),
            host: [i as u8; 16],
            port: 8900 + i as u16,
        })
        .collect()
}

fn round_trip(payload: Payload) {
    let message = Message { sender: sender(), payload };
    let frame = encode(&message).expect("the message fits a frame");
    assert!(frame.len() <= MESSAGE_LENGTH);
    assert_eq!(decode(&frame), Ok(message));
}

#[test]
fn every_kind_of_message_is_read_back() {
    round_trip(Payload::Ping);
    round_trip(Payload::Pong);
    round_trip(Payload::Store { key: hash_to_key(b"k"), value: b"hello".to_vec() });
    round_trip(Payload::Store { key: hash_to_key(b"k"), value: Vec::new() });
    round_trip(Payload::StoreAck);
    round_trip(Payload::FindNode { target: hash_to_key(b"t") });
    round_trip(Payload::FindNodeReply { contacts: peers(20) });
    round_trip(Payload::FindNodeReply { contacts: Vec::new() });
    round_trip(Payload::FindValue { key: hash_to_key(b"k") });
    round_trip(Payload::FoundValue { value: vec![0xaa; 300] });
    round_trip(Payload::FoundContacts { contacts: peers(3) });
}

#[test]
fn ping_is_kind_and_sender() {
    let frame = encode(&Message { sender: sender(), payload: Payload::Ping }).unwrap();
    let mut expected = vec![0u8];
    expected.extend_from_slice(&[7u8; 32]);
    assert_eq!(frame, expected);
}

#[test]
fn store_is_key_length_and_value() {
    let key = Key([9u8; 32]);
    let value = vec![1u8; 258];
    let frame = encode(&Message { sender: sender(), payload: Payload::Store { key, value } }).unwrap();
    let mut expected = vec![2u8];
    expected.extend_from_slice(&[7u8; 32]);
    expected.extend_from_slice(&[9u8; 32]);
    expected.extend_from_slice(&[1, 2]);
    expected.extend_from_slice(&[1u8; 258]);
    assert_eq!(frame, expected);
}

#[test]
fn contacts_are_fifty_bytes_each() {
    let contact = Contact { id: Key([3u8; 32]), host: [4u8; 16], port: 0x1234 };
    let message = Message {
        sender: sender(),
        payload: Payload::FoundContacts { contacts: vec![contact] },
    };
    let frame = encode(&message).unwrap();
    let mut expected = vec![7u8];
    expected.extend_from_slice(&[7u8; 32]);
    expected.extend_from_slice(&[0, 1]);
    expected.extend_from_slice(&[3u8; 32]);
    expected.extend_from_slice(&[4u8; 16]);
    expected.extend_from_slice(&[0x12, 0x34]);
    assert_eq!(frame, expected);
    let found = Message { sender: sender(), payload: Payload::FoundValue { value: vec![5] } };
    let mut expected = vec![7u8];
    expected.extend_from_slice(&[7u8; 32]);
    expected.extend_from_slice(&[1, 0, 1, 5]);
    assert_eq!(encode(&found).unwrap(), expected);
}

#[test]
fn a_frame_is_at_most_message_length_bytes() {
    assert_eq!(MESSAGE_LENGTH, 8196);
    let most = MESSAGE_LENGTH - 33 - 32 - 2;
    let fits = Message {
        sender: sender(),
        payload: Payload::Store { key: Key([0u8; 32]), value: vec![1u8; most] },
    };
    assert_eq!(encode(&fits).unwrap().len(), MESSAGE_LENGTH);
    assert_eq!(decode(&encode(&fits).unwrap()), Ok(fits));
    let too_long = Message {
        sender: sender(),
        payload: Payload::Store { key: Key([0u8; 32]), value: vec![1u8; most + 1] },
    };
    assert_eq!(encode(&too_long), Err(FrameError::TooLong));
    let huge = Message { sender: sender(), payload: Payload::FoundValue { value: vec![1u8; 70_000] } };
    assert_eq!(encode(&huge), Err(FrameError::TooLong));
    let crowd = Message { sender: sender(), payload: Payload::FindNodeReply { contacts: peers(164) } };
    assert_eq!(encode(&crowd), Err(FrameError::TooLong));
    let many = Message { sender: sender(), payload: Payload::FindNodeReply { contacts: peers(163) } };
    assert_eq!(encode(&many).unwrap().len(), 33 + 1 + 163 * 50);
    assert_eq!(decode(&vec![0u8; MESSAGE_LENGTH + 1]), Err(FrameError::TooLong));
}

#[test]
fn bytes_that_are_no_frame_are_malformed() {
    assert_eq!(decode(&[]), Err(FrameError::Malformed));
    assert_eq!(decode(&[0u8; 32]), Err(FrameError::Malformed));
    let ping = encode(&Message { sender: sender(), payload: Payload::Ping }).unwrap();
    let mut trailing = ping.clone();
    trailing.push(0);
    assert_eq!(decode(&trailing), Err(FrameError::Malformed));
    let mut unknown = ping.clone();
    unknown[0] = 8;
    assert_eq!(decode(&unknown), Err(FrameError::Malformed));
    let store = encode(&Message {
        sender: sender(),
        payload: Payload::Store { key: Key([1u8; 32]), value: vec![1, 2, 3] },
    })
    .unwrap();
    assert_eq!(decode(&store[..store.len() - 1]), Err(FrameError::Malformed));
    let mut wrong_length = store.clone();
    wrong_length[66] = 4;
    assert_eq!(decode(&wrong_length), Err(FrameError::Malformed));
    let reply = encode(&Message {
        sender: sender(),
        payload: Payload::FindNodeReply { contacts: peers(2) },
    })
    .unwrap();
    assert_eq!(decode(&reply[..reply.len() - 50]), Err(FrameError::Malformed));
    let mut flag = encode(&Message { sender: sender(), payload: Payload::FoundValue { value: vec![] } })
        .unwrap();
    flag[33] = 2;
    assert_eq!(decode(&flag), Err(FrameError::Malformed));
    let mut short_target = encode(&Message {
        sender: sender(),
        payload: Payload::FindNode { target: Key([1u8; 32]) },
    })
    .unwrap();
    short_target.pop();
    assert_eq!(decode(&short_target), Err(FrameError::Malformed));
}
