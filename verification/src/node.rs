//! A node: its own contact, its routing table and its records.
//!
//! The node decides; the caller carries. A request that arrives is handed
//! to `handle_request`, which says what to answer. A lookup is begun with
//! `begin_lookup` and driven by the caller, who sends what `lookup_request`
//! gives to the peers that the lookup names and hands each answer to
//! `fold_response`.

use vstd::prelude::*;
use crate::key::{Key, spec_distance, closer, xor_bytes, bucket_distance, spec_bucket_index};
use crate::routing::{Contact, RoutingTable, TableView, Observation, Check, spec_observe,
    observed_all, spec_closest, spec_settle, empty_table, is_stale};
use crate::storage::{Storage, Stored, spec_put, spec_get, live_part, copy_bytes};
use crate::protocol::{Message, Payload};
use crate::lookup::{Lookup, LookupView, lv_start, lv_reply, lv_value};
use crate::REPLICATION_PARAM;

verus! {

/// A node of the network.
pub struct Node {
    /// Under which identifier and where the node is reached.
    pub data: Contact,
    /// The peers that the node knows.
    pub table: RoutingTable,
    /// The records that the node keeps.
    pub storage: Storage,
}

/// A bucket to refresh and an identifier in its range to look up.
#[derive(Clone, Copy, Debug, PartialEq, Eq)]
pub struct Refresh {
    pub bucket: usize,
    pub target: Key,
}

/// Whether a node with the identifier `local` is among the
/// `REPLICATION_PARAM` nearest to `key`, given the nearest others in
/// ascending order of distance: there are fewer of them, or the node is
/// nearer than the farthest.
pub open spec fn among_closest(local: Seq<u8>, key: Seq<u8>, near: Seq<Contact>) -> bool {
    near.len() < REPLICATION_PARAM || spec_distance(local, key) < spec_distance(
        near.last().id@,
        key,
    )
}

/// A node as plain values.
pub struct NodeView {
    pub data: Contact,
    pub table: TableView,
    pub storage: Map<Seq<u8>, Stored>,
}

impl View for Node {
    type V = NodeView;

    open spec fn view(&self) -> NodeView {
        NodeView { data: self.data, table: self.table@, storage: self.storage@ }
    }
}

/// Whether `plan` is the refresh plan of the node `n` at `now`: it names
/// the buckets that were not touched for longer than
/// `BUCKET_REFRESH_INTERVAL`, each once and in ascending order, each with
/// the identifier of its range that `noise` gives.
pub open spec fn is_refresh_plan(n: NodeView, now: u64, noise: Seq<u8>, plan: Seq<Refresh>) -> bool {
    &&& forall|a: int, b: int|
        0 <= a < b < plan.len() ==> (#[trigger] plan[a]).bucket < (#[trigger] plan[b]).bucket
    &&& forall|a: int|
        0 <= a < plan.len() ==> {
            let r = #[trigger] plan[a];
            &&& r.bucket < 256
            &&& is_stale(n.table.touched[r.bucket as int], now)
            &&& r.target@ == xor_bytes(n.data.id@, bucket_distance(noise, r.bucket as int))
            &&& spec_bucket_index(n.data.id@, r.target@) == Some(r.bucket)
        }
    &&& forall|i: int|
        0 <= i < 256 && is_stale(#[trigger] n.table.touched[i], now) ==> exists|a: int|
            0 <= a < plan.len() && (#[trigger] plan[a]).bucket == i
}

/// A request as plain values.
pub enum RequestView {
    Ping,
    Store { key: Seq<u8>, value: Seq<u8> },
    FindNode { target: Seq<u8> },
    FindValue { key: Seq<u8> },
}

/// An answer as plain values.
pub enum ReplyView {
    Pong,
    StoreAck,
    /// The answer to FIND_NODE.
    Nodes(Seq<Contact>),
    /// The answer to FIND_VALUE of a node without the value.
    Contacts(Seq<Contact>),
    /// The answer to FIND_VALUE of a node with the value.
    Value(Seq<u8>),
}

/// The request that a payload is, if it is one.
pub open spec fn request_of(p: Payload) -> Option<RequestView> {
    match p {
        Payload::Ping => Some(RequestView::Ping),
        Payload::Store { key, value } => Some(RequestView::Store { key: key@, value: value@ }),
        Payload::FindNode { target } => Some(RequestView::FindNode { target: target@ }),
        Payload::FindValue { key } => Some(RequestView::FindValue { key: key@ }),
        _ => None,
    }
}

/// The answer that a payload is, if it is one.
pub open spec fn reply_of(p: Payload) -> Option<ReplyView> {
    match p {
        Payload::Pong => Some(ReplyView::Pong),
        Payload::StoreAck => Some(ReplyView::StoreAck),
        Payload::FindNodeReply { contacts } => Some(ReplyView::Nodes(contacts@)),
        Payload::FoundContacts { contacts } => Some(ReplyView::Contacts(contacts@)),
        Payload::FoundValue { value } => Some(ReplyView::Value(value@)),
        _ => None,
    }
}

/// The answer that an optional payload is.
pub open spec fn answer_of(p: Option<Payload>) -> Option<ReplyView> {
    match p {
        Some(p) => reply_of(p),
        None => None,
    }
}

/// The node, the answer and the outcome of the observation after
/// `handle_request`.
pub open spec fn nv_answer(n: NodeView, from: Contact, request: Option<RequestView>, now: u64) -> (
    NodeView,
    Option<ReplyView>,
    Observation,
) {
    let seen = spec_observe(n.table, from, now);
    let table = seen.0;
    match request {
        Some(RequestView::Ping) => (NodeView { table, ..n }, Some(ReplyView::Pong), seen.1),
        Some(RequestView::Store { key, value }) => (
            NodeView { table, storage: spec_put(n.storage, key, value, now), ..n },
            Some(ReplyView::StoreAck),
            seen.1,
        ),
        Some(RequestView::FindNode { target }) => (
            NodeView { table, ..n },
            Some(ReplyView::Nodes(spec_closest(table, target, REPLICATION_PARAM as nat))),
            seen.1,
        ),
        Some(RequestView::FindValue { key }) => (
            NodeView { table, storage: live_part(n.storage, now), ..n },
            Some(
                match spec_get(n.storage, key, now) {
                    Some(value) => ReplyView::Value(value),
                    None => ReplyView::Contacts(
                        spec_closest(table, key, REPLICATION_PARAM as nat),
                    ),
                },
            ),
            seen.1,
        ),
        None => (NodeView { table, ..n }, None, seen.1),
    }
}

/// The contacts that an answer carries.
pub open spec fn carried(reply: Option<ReplyView>) -> Seq<Contact> {
    match reply {
        Some(ReplyView::Nodes(contacts)) => contacts,
        Some(ReplyView::Contacts(contacts)) => contacts,
        _ => Seq::<Contact>::empty(),
    }
}

/// The node, the lookup and the liveness checks asked for after
/// `fold_response`.
pub open spec fn nv_fold(
    n: NodeView,
    l: LookupView,
    from: Contact,
    reply: Option<ReplyView>,
    now: u64,
) -> (NodeView, LookupView, Seq<Check>) {
    let all = seq![from] + carried(reply);
    let seen = observed_all(n.table, all, all.len() as int, now);
    (
        NodeView { table: seen.0, ..n },
        match reply {
            Some(ReplyView::Value(value)) => lv_value(l, from.id@, value),
            Some(ReplyView::Nodes(contacts)) => lv_reply(l, from.id@, contacts),
            Some(ReplyView::Contacts(contacts)) => lv_reply(l, from.id@, contacts),
            _ => l,
        },
        seen.1,
    )
}

impl Node {
    /// The invariant: table and storage are well formed, and the table is
    /// that of this node's identifier.
    pub open spec fn wf(&self) -> bool {
        &&& self.table.wf()
        &&& self.storage.wf()
        &&& self.table@.local == self.data.id@
    }

    /// A node that holds no record and knows at most the peer it is to
    /// join the network through.
    pub fn new(data: Contact, bootstrap: Option<Contact>, now: u64) -> (node: Node)
        ensures
            node.wf(),
            node.data == data,
            node.storage@ == Map::<Seq<u8>, Stored>::empty(),
            node.table@ == match bootstrap {
                Some(peer) => spec_observe(empty_table(data.id@, now), peer, now).0,
                None => empty_table(data.id@, now),
            },
    {
        let mut table = RoutingTable::new(data.id, now);
        match bootstrap {
            Some(peer) => {
                let _ = table.observe(peer, now);
            },
            None => {},
        }
        Node { data, table, storage: Storage::new() }
    }

    /// Answers a request of the peer `from`. The peer is observed first.
    /// PING is answered by PONG. STORE puts the record and is answered by
    /// STORE_ACK. FIND_NODE is answered by the `REPLICATION_PARAM` contacts
    /// nearest to the target. FIND_VALUE is answered by the value where the
    /// node holds it unexpired, and like FIND_NODE where it does not. A
    /// payload that is no request gets no answer.
    pub fn handle_request(&mut self, from: Contact, request: &Payload, now: u64) -> (answer: (
        Option<Payload>,
        Observation,
    ))
        requires
            old(self).wf(),
        ensures
            final(self).wf(),
            (final(self)@, answer_of(answer.0), answer.1) == nv_answer(
                old(self)@,
                from,
                request_of(*request),
                now,
            ),
            (answer.0 is Some) == (request_of(*request) is Some),
    {
        let seen = self.table.observe(from, now);
        let reply = match request {
            Payload::Ping => Some(Payload::Pong),
            Payload::Store { key, value } => {
                self.storage.put(*key, copy_bytes(value), now);
                Some(Payload::StoreAck)
            },
            Payload::FindNode { target } => {
                let contacts = self.table.closest(target, REPLICATION_PARAM);
                Some(Payload::FindNodeReply { contacts })
            },
            Payload::FindValue { key } => {
                let held = self.storage.get(key, now);
                match held {
                    Some(value) => Some(Payload::FoundValue { value }),
                    None => {
                        let contacts = self.table.closest(key, REPLICATION_PARAM);
                        Some(Payload::FoundContacts { contacts })
                    },
                }
            },
            _ => None,
        };
        (reply, seen)
    }

    /// Begins a lookup for `target` from what this node knows.
    pub fn begin_lookup(&self, target: Key, want_value: bool) -> (lookup: Lookup)
        requires
            self.wf(),
        ensures
            lookup.wf(),
            lookup@ == lv_start(self.table@, target@, want_value),
            lookup.target == target,
    {
        Lookup::start(&self.table, target, want_value)
    }

    /// The request that a lookup sends to each peer it asks: FIND_VALUE
    /// where a value is wanted, else FIND_NODE.
    pub fn lookup_request(&self, lookup: &Lookup) -> (request: Message)
        ensures
            request.sender == self.data.id,
            request.payload == if lookup.want_value {
                Payload::FindValue { key: lookup.target }
            } else {
                Payload::FindNode { target: lookup.target }
            },
    {
        let payload = if lookup.want_value {
            Payload::FindValue { key: lookup.target }
        } else {
            Payload::FindNode { target: lookup.target }
        };
        Message { sender: self.data.id, payload }
    }

    /// Folds the answer `reply` of the peer `from` into a lookup. The peer
    /// and then every contact that the answer carries are observed; the
    /// liveness checks that this asks for are handed out. A value ends the
    /// lookup, contacts become its candidates.
    pub fn fold_response(
        &mut self,
        lookup: &mut Lookup,
        from: Contact,
        reply: Payload,
        now: u64,
    ) -> (checks: Vec<Check>)
        requires
            old(self).wf(),
            old(lookup).wf(),
        ensures
            final(self).wf(),
            final(lookup).wf(),
            (final(self)@, final(lookup)@, checks@) == nv_fold(
                old(self)@,
                old(lookup)@,
                from,
                reply_of(reply),
                now,
            ),
            final(lookup).local == old(lookup).local,
            final(lookup).target == old(lookup).target,
    {
        let ghost t0 = self.table@;
        let ghost all = seq![from] + carried(reply_of(reply));
        let first = self.table.observe(from, now);
        let mut checks: Vec<Check> = Vec::new();
        match first {
            Observation::Full(stale) => {
                checks.push(Check { candidate: from, stale });
            },
            _ => {},
        }
        proof {
            assert(all[0] == from);
            assert(observed_all(t0, all, 0, now) == (t0, Seq::<Check>::empty()));
            assert((self.table@, checks@) == observed_all(t0, all, 1, now));
        }
        match reply {
            Payload::FoundValue { value } => {
                lookup.fold_value(&from.id, value);
            },
            Payload::FindNodeReply { contacts } => {
                let more = self.absorb(&contacts, now, Ghost(t0), Ghost(from), &mut checks);
                lookup.fold_reply(&from.id, &contacts);
            },
            Payload::FoundContacts { contacts } => {
                let more = self.absorb(&contacts, now, Ghost(t0), Ghost(from), &mut checks);
                lookup.fold_reply(&from.id, &contacts);
            },
            _ => {},
        }
        checks
    }

    /// Observes the contacts of an answer after its sender was observed.
    fn absorb(
        &mut self,
        contacts: &Vec<Contact>,
        now: u64,
        Ghost(t0): Ghost<TableView>,
        Ghost(from): Ghost<Contact>,
        checks: &mut Vec<Check>,
    )
        requires
            old(self).wf(),
            (old(self).table@, old(checks)@) == observed_all(
                t0,
                seq![from] + contacts@,
                1,
                now,
            ),
        ensures
            final(self).wf(),
            final(self).data == old(self).data,
            final(self).storage == old(self).storage,
            (final(self).table@, final(checks)@) == observed_all(
                t0,
                seq![from] + contacts@,
                1 + contacts@.len() as int,
                now,
            ),
    {
        let ghost all = seq![from] + contacts@;
        let mut i: usize = 0;
        while i < contacts.len()
            invariant
                i <= contacts@.len(),
                self.wf(),
                self.data == old(self).data,
                self.storage == old(self).storage,
                all == seq![from] + contacts@,
                (self.table@, checks@) == observed_all(t0, all, 1 + i, now),
            decreases contacts@.len() - i,
        {
            let c = contacts[i];
            assert(all[1 + i] == c);
            let seen = self.table.observe(c, now);
            match seen {
                Observation::Full(stale) => {
                    checks.push(Check { candidate: c, stale });
                },
                _ => {},
            }
            i += 1;
        }
    }

    /// Ends a liveness check: see `RoutingTable::settle`.
    pub fn settle(&mut self, check: Check, alive: bool, now: u64)
        requires
            old(self).wf(),
        ensures
            final(self).wf(),
            final(self).data == old(self).data,
            final(self).storage == old(self).storage,
            final(self).table@ == spec_settle(
                old(self).table@,
                check.candidate,
                check.stale.id@,
                alive,
                now,
            ),
    {
        self.table.settle(check.candidate, &check.stale.id, alive, now);
    }

    /// The last step of a put, after the lookup for `key` has returned the
    /// nearest peers `near`, nearest first: STORE goes to each of them, and
    /// the node keeps the record itself where it is among the
    /// `REPLICATION_PARAM` nearest. Returns whether it kept it.
    pub fn store_local(&mut self, key: Key, value: &Vec<u8>, near: &Vec<Contact>, now: u64) -> (kept:
        bool)
        requires
            old(self).wf(),
        ensures
            final(self).wf(),
            final(self).data == old(self).data,
            final(self).table == old(self).table,
            kept == among_closest(old(self).data.id@, key@, near@),
            final(self).storage@ == if kept {
                spec_put(old(self).storage@, key@, value@, now)
            } else {
                old(self).storage@
            },
    {
        let kept = near.len() < REPLICATION_PARAM || closer(
            &self.data.id,
            &near[near.len() - 1].id,
            &key,
        );
        if kept {
            self.storage.put(key, copy_bytes(value), now);
        }
        kept
    }

    /// The STORE request for a record.
    pub fn store_request(&self, key: Key, value: &Vec<u8>) -> (request: Message)
        ensures
            request.sender == self.data.id,
            request.payload matches Payload::Store { key: k, value: v } && k == key && v@
                == value@,
    {
        Message { sender: self.data.id, payload: Payload::Store { key, value: copy_bytes(value) } }
    }

    /// The first step of a get: the value that the node itself holds under
    /// `key`, unexpired. Where there is none, a lookup for the value
    /// follows.
    pub fn get_local(&mut self, key: &Key, now: u64) -> (value: Option<Vec<u8>>)
        requires
            old(self).wf(),
        ensures
            final(self).wf(),
            final(self).data == old(self).data,
            final(self).table == old(self).table,
            final(self).storage@ == live_part(old(self).storage@, now),
            match value {
                Some(v) => spec_get(old(self).storage@, key@, now) == Some(v@),
                None => spec_get(old(self).storage@, key@, now) is None,
            },
    {
        self.storage.get(key, now)
    }

    /// Removes the expired records.
    pub fn sweep(&mut self, now: u64)
        requires
            old(self).wf(),
        ensures
            final(self).wf(),
            final(self).data == old(self).data,
            final(self).table == old(self).table,
            final(self).storage@ == live_part(old(self).storage@, now),
    {
        self.storage.sweep_expired(now);
    }

    /// The lookups that refresh the table: for each bucket that was not
    /// touched for longer than `BUCKET_REFRESH_INTERVAL`, in ascending
    /// order, an identifier of its range, made from `noise`.
    pub fn refresh_plan(&self, now: u64, noise: &Key) -> (plan: Vec<Refresh>)
        requires
            self.wf(),
        ensures
            is_refresh_plan(self@, now, noise@, plan@),
    {
        let stale = self.table.stale_buckets(now);
        let mut plan: Vec<Refresh> = Vec::new();
        let mut i: usize = 0;
        while i < stale.len()
            invariant
                i <= stale@.len(),
                plan@.len() == i,
                self.wf(),
                forall|a: int| 0 <= a < stale@.len() ==> #[trigger] stale@[a] < 256,
                forall|a: int|
                    0 <= a < i ==> {
                        let r = #[trigger] plan@[a];
                        &&& r.bucket == stale@[a]
                        &&& r.target@ == xor_bytes(
                            self.data.id@,
                            bucket_distance(noise@, r.bucket as int),
                        )
                        &&& spec_bucket_index(self.data.id@, r.target@) == Some(r.bucket)
                    },
            decreases stale@.len() - i,
        {
            let bucket = stale[i];
            let target = self.table.random_key_in_bucket(bucket, noise);
            plan.push(Refresh { bucket, target });
            i += 1;
        }
        proof {
            assert forall|x: int|
                0 <= x < 256 && is_stale(
                    #[trigger] self.table@.touched[x],
                    now,
                ) implies exists|a: int|
                0 <= a < plan@.len() && (#[trigger] plan@[a]).bucket == x by {
                assert(stale@.contains(x as usize));
                let a = choose|a: int| 0 <= a < stale@.len() && stale@[a] == x as usize;
                assert(plan@[a].bucket == x);
            }
        }
        plan
    }
}

} // verus!
