//! The messages that nodes exchange, and their wire format.
//!
//! A frame is one byte of kind, the 32 bytes of the sender's identifier,
//! and a payload that depends on the kind. Lengths are big-endian. A frame
//! is never longer than `MESSAGE_LENGTH` bytes.
//!
//! | kind | message         | payload                                      |
//! |------|-----------------|----------------------------------------------|
//! | 0    | PING            | none                                         |
//! | 1    | PONG            | none                                         |
//! | 2    | STORE           | key, length of the value (2 bytes), value    |
//! | 3    | STORE_ACK       | none                                         |
//! | 4    | FIND_NODE       | target                                       |
//! | 5    | FIND_NODE_REPLY | number of contacts (1 byte), contacts        |
//! | 6    | FIND_VALUE      | key                                          |
//! | 7    | FIND_VALUE_REPLY| 1, length (2 bytes), value; or 0, number of  |
//! |      |                 | contacts (1 byte), contacts                  |
//!
//! A contact is 50 bytes: identifier, host, port.

use vstd::prelude::*;
use vstd::slice::slice_subrange;
use crate::key::Key;
use crate::hashing::clone_into_array;
use crate::routing::{Contact, ContactView, contact_views};
use crate::MESSAGE_LENGTH;

verus! {

/// What a message asks or answers.
#[derive(Clone, Debug, PartialEq, Eq)]
pub enum Payload {
    Ping,
    Pong,
    Store { key: Key, value: Vec<u8> },
    StoreAck,
    FindNode { target: Key },
    FindNodeReply { contacts: Vec<Contact> },
    FindValue { key: Key },
    /// The answer to FIND_VALUE of a node that holds the record.
    FoundValue { value: Vec<u8> },
    /// The answer to FIND_VALUE of a node that does not hold the record.
    FoundContacts { contacts: Vec<Contact> },
}

/// A message between two nodes.
#[derive(Clone, Debug, PartialEq, Eq)]
pub struct Message {
    pub sender: Key,
    pub payload: Payload,
}

/// Why a frame was not made or not read.
#[derive(Clone, Copy, Debug, PartialEq, Eq)]
pub enum FrameError {
    /// The frame is longer than `MESSAGE_LENGTH` bytes.
    TooLong,
    /// The bytes are no frame.
    Malformed,
}

/// A payload as plain values.
pub enum PayloadView {
    Ping,
    Pong,
    Store { key: Seq<u8>, value: Seq<u8> },
    StoreAck,
    FindNode { target: Seq<u8> },
    FindNodeReply { contacts: Seq<ContactView> },
    FindValue { key: Seq<u8> },
    FoundValue { value: Seq<u8> },
    FoundContacts { contacts: Seq<ContactView> },
}

/// A message as plain values.
pub struct MessageView {
    pub sender: Seq<u8>,
    pub payload: PayloadView,
}

impl View for Payload {
    type V = PayloadView;

    open spec fn view(&self) -> PayloadView {
        match self {
            Payload::Ping => PayloadView::Ping,
            Payload::Pong => PayloadView::Pong,
            Payload::Store { key, value } => PayloadView::Store { key: key@, value: value@ },
            Payload::StoreAck => PayloadView::StoreAck,
            Payload::FindNode { target } => PayloadView::FindNode { target: target@ },
            Payload::FindNodeReply { contacts } => PayloadView::FindNodeReply {
                contacts: contact_views(contacts@),
            },
            Payload::FindValue { key } => PayloadView::FindValue { key: key@ },
            Payload::FoundValue { value } => PayloadView::FoundValue { value: value@ },
            Payload::FoundContacts { contacts } => PayloadView::FoundContacts {
                contacts: contact_views(contacts@),
            },
        }
    }
}

impl View for Message {
    type V = MessageView;

    open spec fn view(&self) -> MessageView {
        MessageView { sender: self.sender@, payload: self.payload@ }
    }
}

/// The two bytes of a 16-bit number, most significant first.
pub open spec fn u16_bytes(x: u16) -> Seq<u8> {
    seq![(x / 256) as u8, (x % 256) as u8]
}

/// The 16-bit number of two bytes, most significant first.
pub open spec fn u16_from(hi: u8, lo: u8) -> u16 {
    (hi * 256 + lo) as u16
}

/// The 50 bytes of a contact.
pub open spec fn contact_bytes(c: ContactView) -> Seq<u8> {
    c.id + c.host + u16_bytes(c.port)
}

/// The bytes of a list of contacts, one after the other.
pub open spec fn contacts_bytes(cs: Seq<ContactView>) -> Seq<u8>
    decreases cs.len(),
{
    if cs.len() == 0 {
        Seq::<u8>::empty()
    } else {
        contacts_bytes(cs.drop_last()) + contact_bytes(cs.last())
    }
}

/// A value with its length before it.
pub open spec fn value_bytes(value: Seq<u8>) -> Seq<u8> {
    u16_bytes(value.len() as u16) + value
}

/// A list of contacts with its length before it.
pub open spec fn contact_list_bytes(cs: Seq<ContactView>) -> Seq<u8> {
    seq![cs.len() as u8] + contacts_bytes(cs)
}

/// The kind byte of a payload.
pub open spec fn kind(p: PayloadView) -> u8 {
    match p {
        PayloadView::Ping => 0,
        PayloadView::Pong => 1,
        PayloadView::Store { .. } => 2,
        PayloadView::StoreAck => 3,
        PayloadView::FindNode { .. } => 4,
        PayloadView::FindNodeReply { .. } => 5,
        PayloadView::FindValue { .. } => 6,
        PayloadView::FoundValue { .. } => 7,
        PayloadView::FoundContacts { .. } => 7,
    }
}

/// The bytes of a payload, after kind and sender.
pub open spec fn payload_bytes(p: PayloadView) -> Seq<u8> {
    match p {
        PayloadView::Ping => Seq::<u8>::empty(),
        PayloadView::Pong => Seq::<u8>::empty(),
        PayloadView::Store { key, value } => key + value_bytes(value),
        PayloadView::StoreAck => Seq::<u8>::empty(),
        PayloadView::FindNode { target } => target,
        PayloadView::FindNodeReply { contacts } => contact_list_bytes(contacts),
        PayloadView::FindValue { key } => key,
        PayloadView::FoundValue { value } => seq![1u8] + value_bytes(value),
        PayloadView::FoundContacts { contacts } => seq![0u8] + contact_list_bytes(contacts),
    }
}

/// The frame of a message.
pub open spec fn spec_encode(m: MessageView) -> Seq<u8> {
    seq![kind(m.payload)] + m.sender + payload_bytes(m.payload)
}

/// Whether a contact has an identifier of 32 bytes and a host of 16.
pub open spec fn contact_shaped(c: ContactView) -> bool {
    c.id.len() == 32 && c.host.len() == 16
}

/// Whether every identifier of a message has 32 bytes and every host 16:
/// so it is with every `Message`.
pub open spec fn shaped(m: MessageView) -> bool {
    &&& m.sender.len() == 32
    &&& match m.payload {
        PayloadView::Store { key, value } => key.len() == 32,
        PayloadView::FindNode { target } => target.len() == 32,
        PayloadView::FindValue { key } => key.len() == 32,
        PayloadView::FindNodeReply { contacts } => forall|i: int|
            0 <= i < contacts.len() ==> contact_shaped(#[trigger] contacts[i]),
        PayloadView::FoundContacts { contacts } => forall|i: int|
            0 <= i < contacts.len() ==> contact_shaped(#[trigger] contacts[i]),
        _ => true,
    }
}

/// The contact that 50 bytes denote.
pub open spec fn parse_contact(b: Seq<u8>) -> ContactView {
    ContactView { id: b.subrange(0, 32), host: b.subrange(32, 48), port: u16_from(b[48], b[49]) }
}

/// The value that `b` denotes, if `b` is a length and as many bytes.
pub open spec fn parse_value(b: Seq<u8>) -> Option<Seq<u8>> {
    if b.len() >= 2 && b.len() == 2 + u16_from(b[0], b[1]) {
        Some(b.subrange(2, b.len() as int))
    } else {
        None
    }
}

/// The contacts that `b` denotes, if `b` is a count and as many contacts.
pub open spec fn parse_contact_list(b: Seq<u8>) -> Option<Seq<ContactView>> {
    if b.len() >= 1 && b.len() == 1 + 50 * b[0] {
        Some(Seq::new(b[0] as nat, |i: int| parse_contact(b.subrange(1 + 50 * i, 51 + 50 * i))))
    } else {
        None
    }
}

/// The payload that a kind byte and the bytes after the sender denote.
pub open spec fn parse_payload(tag: u8, b: Seq<u8>) -> Option<PayloadView> {
    if tag == 0 {
        if b.len() == 0 {
            Some(PayloadView::Ping)
        } else {
            None
        }
    } else if tag == 1 {
        if b.len() == 0 {
            Some(PayloadView::Pong)
        } else {
            None
        }
    } else if tag == 2 {
        if b.len() >= 32 {
            match parse_value(b.subrange(32, b.len() as int)) {
                Some(value) => Some(PayloadView::Store { key: b.subrange(0, 32), value }),
                None => None,
            }
        } else {
            None
        }
    } else if tag == 3 {
        if b.len() == 0 {
            Some(PayloadView::StoreAck)
        } else {
            None
        }
    } else if tag == 4 {
        if b.len() == 32 {
            Some(PayloadView::FindNode { target: b })
        } else {
            None
        }
    } else if tag == 5 {
        match parse_contact_list(b) {
            Some(contacts) => Some(PayloadView::FindNodeReply { contacts }),
            None => None,
        }
    } else if tag == 6 {
        if b.len() == 32 {
            Some(PayloadView::FindValue { key: b })
        } else {
            None
        }
    } else if tag == 7 {
        if b.len() >= 1 && b[0] == 1 {
            match parse_value(b.subrange(1, b.len() as int)) {
                Some(value) => Some(PayloadView::FoundValue { value }),
                None => None,
            }
        } else if b.len() >= 1 && b[0] == 0 {
            match parse_contact_list(b.subrange(1, b.len() as int)) {
                Some(contacts) => Some(PayloadView::FoundContacts { contacts }),
                None => None,
            }
        } else {
            None
        }
    } else {
        None
    }
}

/// The message that a frame denotes, if it is one.
pub open spec fn spec_decode(b: Seq<u8>) -> Option<MessageView> {
    if 33 <= b.len() <= MESSAGE_LENGTH {
        match parse_payload(b[0], b.subrange(33, b.len() as int)) {
            Some(payload) => Some(MessageView { sender: b.subrange(1, 33), payload }),
            None => None,
        }
    } else {
        None
    }
}

/// Two bytes make the number they were made from.
proof fn lemma_u16_round_trip(x: u16)
    ensures
        u16_bytes(x).len() == 2,
        u16_from(u16_bytes(x)[0], u16_bytes(x)[1]) == x,
{
}

/// The bytes of `n` contacts are `50 * n` bytes.
proof fn lemma_contacts_length(cs: Seq<ContactView>)
    requires
        forall|i: int| 0 <= i < cs.len() ==> contact_shaped(#[trigger] cs[i]),
    ensures
        contacts_bytes(cs).len() == 50 * cs.len(),
    decreases cs.len(),
{
    if cs.len() > 0 {
        assert forall|i: int| 0 <= i < cs.drop_last().len() implies contact_shaped(
            #[trigger] cs.drop_last()[i],
        ) by {
            assert(cs.drop_last()[i] == cs[i]);
        }
        lemma_contacts_length(cs.drop_last());
        assert(contact_shaped(cs[cs.len() - 1]));
    }
}

/// In the bytes of a list of contacts, contact `i` stands at `50 * i`.
proof fn lemma_contact_at(cs: Seq<ContactView>, i: int)
    requires
        forall|j: int| 0 <= j < cs.len() ==> contact_shaped(#[trigger] cs[j]),
        0 <= i < cs.len(),
    ensures
        contacts_bytes(cs).len() == 50 * cs.len(),
        contacts_bytes(cs).subrange(50 * i, 50 * i + 50) == contact_bytes(cs[i]),
    decreases cs.len(),
{
    lemma_contacts_length(cs);
    let front = cs.drop_last();
    assert forall|j: int| 0 <= j < front.len() implies contact_shaped(#[trigger] front[j]) by {
        assert(front[j] == cs[j]);
    }
    lemma_contacts_length(front);
    assert(contact_shaped(cs[cs.len() - 1]));
    if i == cs.len() - 1 {
        assert(contacts_bytes(cs).subrange(50 * i, 50 * i + 50) =~= contact_bytes(cs[i]));
    } else {
        lemma_contact_at(front, i);
        assert(front[i] == cs[i]);
        assert(contacts_bytes(cs).subrange(50 * i, 50 * i + 50) =~= contacts_bytes(front).subrange(
            50 * i,
            50 * i + 50,
        ));
    }
}

/// Parsing the bytes of a contact gives the contact.
proof fn lemma_contact_round_trip(c: ContactView)
    requires
        contact_shaped(c),
    ensures
        contact_bytes(c).len() == 50,
        parse_contact(contact_bytes(c)) == c,
{
    let b = contact_bytes(c);
    lemma_u16_round_trip(c.port);
    assert(b.subrange(0, 32) =~= c.id);
    assert(b.subrange(32, 48) =~= c.host);
    assert(b[48] == u16_bytes(c.port)[0]);
    assert(b[49] == u16_bytes(c.port)[1]);
}

/// Parsing the bytes of a value gives the value.
proof fn lemma_value_round_trip(value: Seq<u8>)
    requires
        value.len() <= 65535,
    ensures
        parse_value(value_bytes(value)) == Some(value),
{
    let b = value_bytes(value);
    lemma_u16_round_trip(value.len() as u16);
    assert(b[0] == u16_bytes(value.len() as u16)[0]);
    assert(b[1] == u16_bytes(value.len() as u16)[1]);
    assert(b.subrange(2, b.len() as int) =~= value);
}

/// Parsing the bytes of a list of contacts gives the list.
proof fn lemma_contact_list_round_trip(cs: Seq<ContactView>)
    requires
        cs.len() <= 255,
        forall|j: int| 0 <= j < cs.len() ==> contact_shaped(#[trigger] cs[j]),
    ensures
        parse_contact_list(contact_list_bytes(cs)) == Some(cs),
{
    let b = contact_list_bytes(cs);
    lemma_contacts_length(cs);
    assert(b[0] == cs.len() as u8);
    let parsed = Seq::new(
        b[0] as nat,
        |i: int| parse_contact(b.subrange(1 + 50 * i, 51 + 50 * i)),
    );
    assert forall|i: int| 0 <= i < cs.len() implies parsed[i] == cs[i] by {
        lemma_contact_at(cs, i);
        lemma_contact_round_trip(cs[i]);
        assert(b.subrange(1 + 50 * i, 51 + 50 * i) =~= contacts_bytes(cs).subrange(
            50 * i,
            50 * i + 50,
        ));
    }
    assert(parsed =~= cs);
}

/// A frame that was made from a message is read back as that message.
pub proof fn lemma_decode_encode(m: MessageView)
    requires
        shaped(m),
        spec_encode(m).len() <= MESSAGE_LENGTH,
    ensures
        spec_decode(spec_encode(m)) == Some(m),
{
    let b = spec_encode(m);
    let rest = b.subrange(33, b.len() as int);
    assert(b[0] == kind(m.payload));
    assert(b.subrange(1, 33) =~= m.sender);
    assert(rest =~= payload_bytes(m.payload));
    match m.payload {
        PayloadView::Store { key, value } => {
            assert(rest.subrange(0, 32) =~= key);
            assert(rest.subrange(32, rest.len() as int) =~= value_bytes(value));
            lemma_value_round_trip(value);
        },
        PayloadView::FindNodeReply { contacts } => {
            lemma_contacts_length(contacts);
            lemma_contact_list_round_trip(contacts);
        },
        PayloadView::FoundValue { value } => {
            assert(rest.subrange(1, rest.len() as int) =~= value_bytes(value));
            lemma_value_round_trip(value);
        },
        PayloadView::FoundContacts { contacts } => {
            lemma_contacts_length(contacts);
            assert(rest.subrange(1, rest.len() as int) =~= contact_list_bytes(contacts));
            lemma_contact_list_round_trip(contacts);
        },
        _ => {},
    }
}

/// The two bytes of the number that two bytes make are those bytes.
proof fn lemma_u16_bytes_of(hi: u8, lo: u8)
    ensures
        u16_bytes(u16_from(hi, lo)) == seq![hi, lo],
{
    assert(u16_bytes(u16_from(hi, lo)) =~= seq![hi, lo]);
}

/// The bytes of a contact that was parsed from 50 bytes are those bytes.
proof fn lemma_contact_canonical(b: Seq<u8>)
    requires
        b.len() == 50,
    ensures
        contact_shaped(parse_contact(b)),
        contact_bytes(parse_contact(b)) == b,
{
    lemma_u16_bytes_of(b[48], b[49]);
    assert(contact_bytes(parse_contact(b)) =~= b);
}

/// The bytes of a value that was parsed are the bytes it was parsed from.
proof fn lemma_value_canonical(b: Seq<u8>)
    requires
        parse_value(b) is Some,
    ensures
        value_bytes(parse_value(b).unwrap()) == b,
{
    lemma_u16_bytes_of(b[0], b[1]);
    assert(value_bytes(parse_value(b).unwrap()) =~= b);
}

/// The bytes of the first `k` contacts that a list of contacts parses to
/// are the first `50 * k` bytes after the count.
proof fn lemma_contacts_canonical(b: Seq<u8>, k: int)
    requires
        parse_contact_list(b) is Some,
        0 <= k <= b[0],
    ensures
        contacts_bytes(parse_contact_list(b).unwrap().take(k)) == b.subrange(1, 1 + 50 * k),
        forall|i: int|
            0 <= i < b[0] ==> contact_shaped(#[trigger] parse_contact_list(b).unwrap()[i]),
    decreases k,
{
    let cs = parse_contact_list(b).unwrap();
    assert forall|i: int| 0 <= i < b[0] implies contact_shaped(#[trigger] cs[i]) by {
        lemma_contact_canonical(b.subrange(1 + 50 * i, 51 + 50 * i));
    }
    if k == 0 {
        assert(contacts_bytes(cs.take(0)) =~= b.subrange(1, 1));
    } else {
        lemma_contacts_canonical(b, k - 1);
        lemma_contact_canonical(b.subrange(1 + 50 * (k - 1), 51 + 50 * (k - 1)));
        assert(cs.take(k).drop_last() =~= cs.take(k - 1));
        assert(cs.take(k).last() == cs[k - 1]);
        assert(contacts_bytes(cs.take(k)) =~= b.subrange(1, 1 + 50 * k));
    }
}

/// The bytes of a list of contacts that was parsed are the bytes it was
/// parsed from.
proof fn lemma_contact_list_canonical(b: Seq<u8>)
    requires
        parse_contact_list(b) is Some,
    ensures
        contact_list_bytes(parse_contact_list(b).unwrap()) == b,
        forall|i: int|
            0 <= i < parse_contact_list(b).unwrap().len() ==> contact_shaped(
                #[trigger] parse_contact_list(b).unwrap()[i],
            ),
{
    let cs = parse_contact_list(b).unwrap();
    lemma_contacts_canonical(b, b[0] as int);
    assert(cs.take(b[0] as int) =~= cs);
    assert(contact_list_bytes(cs) =~= b);
}

/// Bytes that are read as a message are the frame of that message: no
/// message has two frames.
pub proof fn lemma_encode_decode(b: Seq<u8>)
    requires
        spec_decode(b) is Some,
    ensures
        shaped(spec_decode(b).unwrap()),
        spec_encode(spec_decode(b).unwrap()) == b,
{
    let m = spec_decode(b).unwrap();
    let rest = b.subrange(33, b.len() as int);
    let tag = b[0];
    assert(parse_payload(tag, rest) == Some(m.payload));
    if tag == 2 {
        lemma_value_canonical(rest.subrange(32, rest.len() as int));
    } else if tag == 5 {
        lemma_contact_list_canonical(rest);
    } else if tag == 7 {
        if rest[0] == 1 {
            lemma_value_canonical(rest.subrange(1, rest.len() as int));
        } else {
            lemma_contact_list_canonical(rest.subrange(1, rest.len() as int));
        }
    }
    assert(spec_encode(m) =~= b);
}

/// Every message has identifiers of 32 bytes and hosts of 16.
pub proof fn lemma_message_shaped(m: Message)
    ensures
        shaped(m@),
{
    match m.payload {
        Payload::FindNodeReply { contacts } => {
            assert forall|i: int| 0 <= i < contact_views(contacts@).len() implies contact_shaped(
                #[trigger] contact_views(contacts@)[i],
            ) by {}
        },
        Payload::FoundContacts { contacts } => {
            assert forall|i: int| 0 <= i < contact_views(contacts@).len() implies contact_shaped(
                #[trigger] contact_views(contacts@)[i],
            ) by {}
        },
        _ => {},
    }
}

/// Appends `bytes` to `out`.
fn append(out: &mut Vec<u8>, bytes: &[u8])
    ensures
        final(out)@ == old(out)@ + bytes@,
{
    let mut i: usize = 0;
    while i < bytes.len()
        invariant
            i <= bytes.len(),
            out@ == old(out)@ + bytes@.take(i as int),
        decreases bytes.len() - i,
    {
        out.push(bytes[i]);
        assert(out@ =~= old(out)@ + bytes@.take(i + 1));
        i += 1;
    }
    assert(bytes@.take(bytes.len() as int) =~= bytes@);
}

/// Appends the two bytes of `x` to `out`.
fn append_u16(out: &mut Vec<u8>, x: u16)
    ensures
        final(out)@ == old(out)@ + u16_bytes(x),
{
    out.push((x / 256) as u8);
    out.push((x % 256) as u8);
    assert(out@ =~= old(out)@ + u16_bytes(x));
}

/// Appends a value with its length to `out`.
fn append_value(out: &mut Vec<u8>, value: &Vec<u8>)
    requires
        value@.len() <= 65535,
    ensures
        final(out)@ == old(out)@ + value_bytes(value@),
{
    append_u16(out, value.len() as u16);
    append(out, value.as_slice());
    assert(out@ =~= old(out)@ + value_bytes(value@));
}

/// Appends a list of contacts with its length to `out`.
fn append_contact_list(out: &mut Vec<u8>, contacts: &Vec<Contact>)
    requires
        contacts@.len() <= 255,
    ensures
        final(out)@ == old(out)@ + contact_list_bytes(contact_views(contacts@)),
{
    let ghost cs = contact_views(contacts@);
    out.push(contacts.len() as u8);
    let mut i: usize = 0;
    assert(cs.take(0) =~= Seq::<ContactView>::empty());
    assert(out@ =~= old(out)@ + seq![cs.len() as u8] + contacts_bytes(cs.take(0)));
    while i < contacts.len()
        invariant
            i <= contacts.len(),
            cs == contact_views(contacts@),
            out@ == old(out)@ + seq![cs.len() as u8] + contacts_bytes(cs.take(i as int)),
        decreases contacts.len() - i,
    {
        let ghost before = out@;
        let c = contacts[i];
        append(out, c.id.0.as_slice());
        append(out, c.host.as_slice());
        append_u16(out, c.port);
        proof {
            assert(cs.take(i + 1).drop_last() =~= cs.take(i as int));
            assert(cs.take(i + 1).last() == c@);
            assert(out@ =~= before + contact_bytes(c@));
            assert(out@ =~= old(out)@ + seq![cs.len() as u8] + contacts_bytes(cs.take(i + 1)));
        }
        i += 1;
    }
    assert(cs.take(cs.len() as int) =~= cs);
    assert(out@ =~= old(out)@ + contact_list_bytes(cs));
}

/// The length of the frame of `m`.
fn frame_length(m: &Message) -> (n: usize)
    requires
        match m.payload {
            Payload::Store { key, value } => value@.len() <= 65535,
            Payload::FoundValue { value } => value@.len() <= 65535,
            Payload::FindNodeReply { contacts } => contacts@.len() <= 255,
            Payload::FoundContacts { contacts } => contacts@.len() <= 255,
            _ => true,
        },
    ensures
        n == spec_encode(m@).len(),
{
    proof {
        lemma_message_shaped(*m);
    }
    match &m.payload {
        Payload::Ping => 33,
        Payload::Pong => 33,
        Payload::Store { key, value } => 33 + 32 + 2 + value.len(),
        Payload::StoreAck => 33,
        Payload::FindNode { target } => 33 + 32,
        Payload::FindNodeReply { contacts } => {
            proof {
                lemma_contacts_length(contact_views(contacts@));
            }
            33 + 1 + 50 * contacts.len()
        },
        Payload::FindValue { key } => 33 + 32,
        Payload::FoundValue { value } => 33 + 1 + 2 + value.len(),
        Payload::FoundContacts { contacts } => {
            proof {
                lemma_contacts_length(contact_views(contacts@));
            }
            33 + 1 + 1 + 50 * contacts.len()
        },
    }
}

/// Whether the variable part of a message is short enough for its length
/// field.
fn fits_fields(m: &Message) -> (fits: bool)
    ensures
        fits == match m.payload {
            Payload::Store { key, value } => value@.len() <= 65535,
            Payload::FoundValue { value } => value@.len() <= 65535,
            Payload::FindNodeReply { contacts } => contacts@.len() <= 255,
            Payload::FoundContacts { contacts } => contacts@.len() <= 255,
            _ => true,
        },
        !fits ==> spec_encode(m@).len() > MESSAGE_LENGTH,
{
    proof {
        lemma_message_shaped(*m);
    }
    match &m.payload {
        Payload::Store { key, value } => value.len() <= 65535,
        Payload::FoundValue { value } => value.len() <= 65535,
        Payload::FindNodeReply { contacts } => {
            proof {
                lemma_contacts_length(contact_views(contacts@));
            }
            contacts.len() <= 255
        },
        Payload::FoundContacts { contacts } => {
            proof {
                lemma_contacts_length(contact_views(contacts@));
            }
            contacts.len() <= 255
        },
        _ => true,
    }
}

/// The frame of a message, unless it would be longer than `MESSAGE_LENGTH`.
pub fn encode(m: &Message) -> (frame: Result<Vec<u8>, FrameError>)
    ensures
        match frame {
            Ok(bytes) => bytes@ == spec_encode(m@) && bytes@.len() <= MESSAGE_LENGTH,
            Err(e) => e == FrameError::TooLong && spec_encode(m@).len() > MESSAGE_LENGTH,
        },
{
    if !fits_fields(m) {
        return Err(FrameError::TooLong);
    }
    if frame_length(m) > MESSAGE_LENGTH {
        return Err(FrameError::TooLong);
    }
    let mut out: Vec<u8> = Vec::new();
    match &m.payload {
        Payload::Ping => {
            out.push(0);
            append(&mut out, m.sender.0.as_slice());
        },
        Payload::Pong => {
            out.push(1);
            append(&mut out, m.sender.0.as_slice());
        },
        Payload::Store { key, value } => {
            out.push(2);
            append(&mut out, m.sender.0.as_slice());
            append(&mut out, key.0.as_slice());
            append_value(&mut out, value);
        },
        Payload::StoreAck => {
            out.push(3);
            append(&mut out, m.sender.0.as_slice());
        },
        Payload::FindNode { target } => {
            out.push(4);
            append(&mut out, m.sender.0.as_slice());
            append(&mut out, target.0.as_slice());
        },
        Payload::FindNodeReply { contacts } => {
            out.push(5);
            append(&mut out, m.sender.0.as_slice());
            append_contact_list(&mut out, contacts);
        },
        Payload::FindValue { key } => {
            out.push(6);
            append(&mut out, m.sender.0.as_slice());
            append(&mut out, key.0.as_slice());
        },
        Payload::FoundValue { value } => {
            out.push(7);
            append(&mut out, m.sender.0.as_slice());
            out.push(1);
            append_value(&mut out, value);
        },
        Payload::FoundContacts { contacts } => {
            out.push(7);
            append(&mut out, m.sender.0.as_slice());
            out.push(0);
            append_contact_list(&mut out, contacts);
        },
    }
    assert(out@ =~= spec_encode(m@));
    Ok(out)
}

/// Copies a slice of 16 bytes into an array.
fn host_array(slice: &[u8]) -> (a: [u8; 16])
    requires
        slice@.len() == 16,
    ensures
        a@ == slice@,
{
    let mut a: [u8; 16] = [0u8; 16];
    let mut i: usize = 0;
    while i < 16
        invariant
            i <= 16,
            slice@.len() == 16,
            forall|j: int| 0 <= j < i ==> a@[j] == slice@[j],
        decreases 16 - i,
    {
        a[i] = slice[i];
        i += 1;
    }
    assert(a@ =~= slice@);
    a
}

fn read_u16(hi: u8, lo: u8) -> (x: u16)
    ensures
        x == u16_from(hi, lo),
{
    (hi as u16) * 256 + (lo as u16)
}

fn read_key(b: &[u8], at: usize) -> (key: Key)
    requires
        at + 32 <= b@.len(),
    ensures
        key@ == b@.subrange(at as int, at + 32),
{
    let n = b.len();
    assert(at + 32 <= n);
    Key(clone_into_array(slice_subrange(b, at, at + 32)))
}

fn read_contact(b: &[u8]) -> (c: Contact)
    requires
        b@.len() == 50,
    ensures
        c@ == parse_contact(b@),
{
    let id = read_key(b, 0);
    let host = host_array(slice_subrange(b, 32, 48));
    let port = read_u16(b[48], b[49]);
    Contact { id, host, port }
}

fn read_value(b: &[u8]) -> (value: Option<Vec<u8>>)
    ensures
        match value {
            Some(v) => parse_value(b@) == Some(v@),
            None => parse_value(b@) is None,
        },
{
    if b.len() < 2 {
        return None;
    }
    let n = read_u16(b[0], b[1]) as usize;
    if b.len() - 2 != n {
        return None;
    }
    let mut v: Vec<u8> = Vec::new();
    append(&mut v, slice_subrange(b, 2, b.len()));
    assert(v@ =~= b@.subrange(2, b@.len() as int));
    Some(v)
}

fn read_contact_list(b: &[u8]) -> (contacts: Option<Vec<Contact>>)
    ensures
        match contacts {
            Some(cs) => parse_contact_list(b@) == Some(contact_views(cs@)),
            None => parse_contact_list(b@) is None,
        },
{
    if b.len() < 1 {
        return None;
    }
    let n = b[0] as usize;
    if b.len() - 1 != 50 * n {
        return None;
    }
    let mut cs: Vec<Contact> = Vec::new();
    let mut i: usize = 0;
    while i < n
        invariant
            i <= n,
            n == b@[0],
            b@.len() == 1 + 50 * n,
            cs@.len() == i,
            forall|j: int|
                0 <= j < i ==> (#[trigger] cs@[j])@ == parse_contact(
                    b@.subrange(1 + 50 * j, 51 + 50 * j),
                ),
        decreases n - i,
    {
        let c = read_contact(slice_subrange(b, 1 + 50 * i, 51 + 50 * i));
        cs.push(c);
        i += 1;
    }
    proof {
        let parsed = Seq::new(
            b@[0] as nat,
            |i: int| parse_contact(b@.subrange(1 + 50 * i, 51 + 50 * i)),
        );
        assert(contact_views(cs@) =~= parsed);
    }
    Some(cs)
}

fn read_payload(tag: u8, b: &[u8]) -> (payload: Option<Payload>)
    ensures
        match payload {
            Some(p) => parse_payload(tag, b@) == Some(p@),
            None => parse_payload(tag, b@) is None,
        },
{
    if tag == 0 {
        if b.len() == 0 {
            Some(Payload::Ping)
        } else {
            None
        }
    } else if tag == 1 {
        if b.len() == 0 {
            Some(Payload::Pong)
        } else {
            None
        }
    } else if tag == 2 {
        if b.len() >= 32 {
            let key = read_key(b, 0);
            let value = read_value(slice_subrange(b, 32, b.len()));
            match value {
                Some(value) => Some(Payload::Store { key, value }),
                None => None,
            }
        } else {
            None
        }
    } else if tag == 3 {
        if b.len() == 0 {
            Some(Payload::StoreAck)
        } else {
            None
        }
    } else if tag == 4 {
        if b.len() == 32 {
            let target = read_key(b, 0);
            assert(b@.subrange(0, 32) =~= b@);
            Some(Payload::FindNode { target })
        } else {
            None
        }
    } else if tag == 5 {
        let contacts = read_contact_list(b);
        match contacts {
            Some(contacts) => Some(Payload::FindNodeReply { contacts }),
            None => None,
        }
    } else if tag == 6 {
        if b.len() == 32 {
            let key = read_key(b, 0);
            assert(b@.subrange(0, 32) =~= b@);
            Some(Payload::FindValue { key })
        } else {
            None
        }
    } else if tag == 7 {
        if b.len() >= 1 && b[0] == 1 {
            let value = read_value(slice_subrange(b, 1, b.len()));
            match value {
                Some(value) => Some(Payload::FoundValue { value }),
                None => None,
            }
        } else if b.len() >= 1 && b[0] == 0 {
            let contacts = read_contact_list(slice_subrange(b, 1, b.len()));
            match contacts {
                Some(contacts) => Some(Payload::FoundContacts { contacts }),
                None => None,
            }
        } else {
            None
        }
    } else {
        None
    }
}

/// Reads a frame. Bytes that are longer than `MESSAGE_LENGTH` are refused
/// as too long, other bytes that are no frame as malformed.
pub fn decode(bytes: &[u8]) -> (message: Result<Message, FrameError>)
    ensures
        match message {
            Ok(m) => spec_decode(bytes@) == Some(m@),
            Err(FrameError::TooLong) => bytes@.len() > MESSAGE_LENGTH,
            Err(FrameError::Malformed) => bytes@.len() <= MESSAGE_LENGTH && spec_decode(bytes@)
                is None,
        },
{
    if bytes.len() > MESSAGE_LENGTH {
        return Err(FrameError::TooLong);
    }
    if bytes.len() < 33 {
        return Err(FrameError::Malformed);
    }
    let sender = read_key(bytes, 1);
    let payload = read_payload(bytes[0], slice_subrange(bytes, 33, bytes.len()));
    match payload {
        Some(payload) => Ok(Message { sender, payload }),
        None => Err(FrameError::Malformed),
    }
}

} // verus!
