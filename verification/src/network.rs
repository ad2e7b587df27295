//! A network of nodes in one memory.
//!
//! Here a request is a call: the node that is asked answers at once, and a
//! peer that no node of the network bears the identifier of never answers.
//! Every function says exactly what the network is afterwards, by a
//! function of the network before.

use vstd::prelude::*;
use vstd::string::StringSliceAdditionalSpecFns;
use crate::key::Key;
use crate::hashing::{get_key, blake3_digest};
use crate::routing::{Contact, TableView, Observation, Check, spec_observe, spec_settle,
    empty_table, is_closest, lemma_closest_unique, spec_closest};
use crate::storage::{Stored, spec_put, spec_get, live_part};
use crate::protocol::Payload;
use crate::lookup::{Lookup, LookupView, lv_start, lv_asks, lv_next_round, lv_end_round,
    lv_timeout, nearest_alive, first_replied};
use crate::REPLICATION_PARAM;
use crate::node::{Node, NodeView, Refresh, RequestView, ReplyView, request_of, answer_of,
    nv_answer, nv_fold, among_closest, is_refresh_plan};

verus! {

/// The nodes of a network, by their index.
pub type NodeMap = Vec<Node>;

/// The port of the first node; node `i` listens on `FIRST_PORT + i`.
pub const FIRST_PORT: u16 = 8900;

/// The most nodes that a network can have: one for each port from
/// `FIRST_PORT` on.
pub const MAX_NODES: usize = 56636;

/// The nodes as plain values.
pub open spec fn net_view(nodes: Seq<Node>) -> Seq<NodeView> {
    Seq::new(nodes.len(), |i: int| nodes[i]@)
}

/// Every node is well formed.
pub open spec fn net_wf(nodes: Seq<Node>) -> bool {
    forall|i: int| 0 <= i < nodes.len() ==> (#[trigger] nodes[i]).wf()
}

/// The index of the first among the first `n` nodes that bears the
/// identifier `id`.
pub open spec fn net_find(net: Seq<NodeView>, id: Seq<u8>, n: int) -> Option<int>
    decreases n,
{
    if n <= 0 {
        None
    } else {
        match net_find(net, id, n - 1) {
            Some(i) => Some(i),
            None => if net[n - 1].data.id@ == id {
                Some(n - 1)
            } else {
                None
            },
        }
    }
}

/// Whether a node of the network bears the identifier `id`: whether a ping
/// to it is answered.
pub open spec fn net_alive(net: Seq<NodeView>, id: Seq<u8>) -> bool {
    net_find(net, id, net.len() as int) is Some
}

/// The table after the first `n` liveness checks were made in the network
/// and settled.
pub open spec fn settled(t: TableView, checks: Seq<Check>, n: int, net: Seq<NodeView>, now: u64)
    -> TableView
    decreases n,
{
    if n <= 0 {
        t
    } else {
        spec_settle(
            settled(t, checks, n - 1, net, now),
            checks[n - 1].candidate,
            checks[n - 1].stale.id@,
            net_alive(net, checks[n - 1].stale.id@),
            now,
        )
    }
}

/// The network and the answer after the peer `from` sent `request` to the
/// node that bears the identifier `to`. Where the node's bucket for `from`
/// is full, the node makes the liveness check at once.
pub open spec fn net_rpc(
    net: Seq<NodeView>,
    from: Contact,
    to: Seq<u8>,
    request: Option<RequestView>,
    now: u64,
) -> (Seq<NodeView>, Option<ReplyView>) {
    match net_find(net, to, net.len() as int) {
        None => (net, None),
        Some(b) => {
            let answer = nv_answer(net[b], from, request, now);
            let node = match answer.2 {
                Observation::Full(stale) => NodeView {
                    table: spec_settle(
                        answer.0.table,
                        from,
                        stale.id@,
                        net_alive(net, stale.id@),
                        now,
                    ),
                    ..answer.0
                },
                _ => answer.0,
            };
            (net.update(b, node), answer.1)
        },
    }
}

/// The request that a lookup sends.
pub open spec fn lookup_request(l: LookupView) -> RequestView {
    if l.want_value {
        RequestView::FindValue { key: l.target }
    } else {
        RequestView::FindNode { target: l.target }
    }
}

/// The network and the lookup of node `a` after the lookup asked the peer
/// `to` and folded in what came back. A lookup that has ended asks nobody.
pub open spec fn net_ask(net: Seq<NodeView>, a: int, l: LookupView, to: Contact, now: u64) -> (
    Seq<NodeView>,
    LookupView,
) {
    if l.finished {
        (net, l)
    } else {
        let r = net_rpc(net, net[a].data, to.id@, Some(lookup_request(l)), now);
        match r.1 {
            None => (r.0, lv_timeout(l, to.id@)),
            Some(reply) => {
                let f = nv_fold(r.0[a], l, to, Some(reply), now);
                let node = NodeView {
                    table: settled(f.0.table, f.2, f.2.len() as int, r.0, now),
                    ..f.0
                };
                (r.0.update(a, node), f.1)
            },
        }
    }
}

/// The network and the lookup after the first `n` of `asks` were asked.
pub open spec fn net_round(
    net: Seq<NodeView>,
    a: int,
    l: LookupView,
    asks: Seq<Contact>,
    n: int,
    now: u64,
) -> (Seq<NodeView>, LookupView)
    decreases n,
{
    if n <= 0 {
        (net, l)
    } else {
        let before = net_round(net, a, l, asks, n - 1, now);
        net_ask(before.0, a, before.1, asks[n - 1], now)
    }
}

/// The network and the lookup after the lookup ran to its end, in at most
/// `fuel` rounds.
pub open spec fn net_rounds(net: Seq<NodeView>, a: int, l: LookupView, fuel: nat, now: u64) -> (
    Seq<NodeView>,
    LookupView,
)
    decreases fuel,
{
    if l.finished || fuel == 0 {
        (net, l)
    } else {
        let asks = lv_asks(l);
        let r = net_round(net, a, lv_next_round(l), asks, asks.len() as int, now);
        net_rounds(r.0, a, lv_end_round(r.1), (fuel - 1) as nat, now)
    }
}

/// The network and the lookup after node `a` looked `target` up.
pub open spec fn net_lookup(net: Seq<NodeView>, a: int, target: Seq<u8>, want_value: bool, now: u64)
    -> (Seq<NodeView>, LookupView) {
    net_rounds(net, a, lv_start(net[a].table, target, want_value), 256, now)
}

/// The network after `from` sent STORE to the first `n` of `near`.
pub open spec fn net_stored(
    net: Seq<NodeView>,
    from: Contact,
    near: Seq<Contact>,
    n: int,
    key: Seq<u8>,
    value: Seq<u8>,
    now: u64,
) -> Seq<NodeView>
    decreases n,
{
    if n <= 0 {
        net
    } else {
        net_rpc(
            net_stored(net, from, near, n - 1, key, value, now),
            from,
            near[n - 1].id@,
            Some(RequestView::Store { key, value }),
            now,
        ).0
    }
}

/// The network after node `a` put a record: the node looks the nearest
/// peers up, sends STORE to each, and keeps the record itself where it is
/// among the nearest.
pub open spec fn net_put(net: Seq<NodeView>, a: int, key: Seq<u8>, value: Seq<u8>, now: u64) -> Seq<
    NodeView,
> {
    let r = net_lookup(net, a, key, false, now);
    let near = nearest_alive(r.1.candidates);
    let stored = net_stored(r.0, net[a].data, near, near.len() as int, key, value, now);
    if among_closest(net[a].data.id@, key, near) {
        stored.update(
            a,
            NodeView { storage: spec_put(stored[a].storage, key, value, now), ..stored[a] },
        )
    } else {
        stored
    }
}

/// The network and the value after node `a` got a record: the node reads
/// its own store, and where that has no unexpired record it looks the
/// value up. A value that was found is cached at the nearest peer that
/// answered without it.
pub open spec fn net_get(net: Seq<NodeView>, a: int, key: Seq<u8>, now: u64) -> (
    Seq<NodeView>,
    Option<Seq<u8>>,
) {
    let swept = net.update(a, NodeView { storage: live_part(net[a].storage, now), ..net[a] });
    match spec_get(net[a].storage, key, now) {
        Some(value) => (swept, Some(value)),
        None => {
            let r = net_lookup(swept, a, key, true, now);
            match r.1.found {
                Some(value) => (
                    match first_replied(r.1.candidates, r.1.candidates.len() as int) {
                        Some(peer) => net_rpc(
                            r.0,
                            net[a].data,
                            peer.id@,
                            Some(RequestView::Store { key, value }),
                            now,
                        ).0,
                        None => r.0,
                    },
                    Some(value),
                ),
                None => (r.0, None),
            }
        },
    }
}

/// The network of the first `n` of the nodes `who`, each after its start:
/// the first knows nobody, every other knows the first and has looked its
/// own identifier up to make itself known.
pub open spec fn net_create(who: Seq<Contact>, n: int, now: u64) -> Seq<NodeView>
    decreases n,
{
    if n <= 0 {
        Seq::<NodeView>::empty()
    } else if n == 1 {
        seq![
            NodeView {
                data: who[0],
                table: empty_table(who[0].id@, now),
                storage: Map::<Seq<u8>, Stored>::empty(),
            },
        ]
    } else {
        let me = who[n - 1];
        let joined = net_create(who, n - 1, now).push(
            NodeView {
                data: me,
                table: spec_observe(empty_table(me.id@, now), who[0], now).0,
                storage: Map::<Seq<u8>, Stored>::empty(),
            },
        );
        net_lookup(joined, n - 1, me.id@, false, now).0
    }
}

/// The network after node `a` refreshed the first `n` buckets of `plan`:
/// for each it looks the target up and marks the bucket as touched.
pub open spec fn net_refreshed(net: Seq<NodeView>, a: int, plan: Seq<Refresh>, n: int, now: u64)
    -> Seq<NodeView>
    decreases n,
{
    if n <= 0 {
        net
    } else {
        let r = net_lookup(
            net_refreshed(net, a, plan, n - 1, now),
            a,
            plan[n - 1].target@,
            false,
            now,
        ).0;
        r.update(
            a,
            NodeView {
                table: TableView {
                    touched: r[a].table.touched.update(plan[n - 1].bucket as int, now),
                    ..r[a].table
                },
                ..r[a]
            },
        )
    }
}

/// The network after the maintenance of node `a`: the buckets of `plan`
/// are refreshed, then the node drops its expired records.
pub open spec fn net_maintained(net: Seq<NodeView>, a: int, plan: Seq<Refresh>, now: u64) -> Seq<
    NodeView,
> {
    let r = net_refreshed(net, a, plan, plan.len() as int, now);
    r.update(a, NodeView { storage: live_part(r[a].storage, now), ..r[a] })
}

/// Two networks whose nodes bear the same identifiers and addresses.
pub open spec fn same_nodes(x: Seq<NodeView>, y: Seq<NodeView>) -> bool {
    x.len() == y.len() && forall|i: int| 0 <= i < x.len() ==> (#[trigger] x[i]).data == y[i].data
}

proof fn lemma_find(net: Seq<NodeView>, id: Seq<u8>, n: int, m: int)
    requires
        0 <= n <= m <= net.len(),
    ensures
        net_find(net, id, n) matches Some(i) ==> 0 <= i < n && net[i].data.id@ == id && net_find(
            net,
            id,
            m,
        ) == Some(i),
    decreases m,
{
    if n > 0 {
        lemma_find(net, id, n - 1, n - 1);
    }
    if n < m {
        lemma_find(net, id, n, m - 1);
    }
}

proof fn lemma_find_same(x: Seq<NodeView>, y: Seq<NodeView>, id: Seq<u8>, n: int)
    requires
        same_nodes(x, y),
        0 <= n <= x.len(),
    ensures
        net_find(x, id, n) == net_find(y, id, n),
    decreases n,
{
    if n > 0 {
        lemma_find_same(x, y, id, n - 1);
        assert(x[n - 1].data == y[n - 1].data);
    }
}

proof fn lemma_rpc_same(
    net: Seq<NodeView>,
    from: Contact,
    to: Seq<u8>,
    request: Option<RequestView>,
    now: u64,
)
    ensures
        same_nodes(net, net_rpc(net, from, to, request, now).0),
{
    lemma_find(net, to, net.len() as int, net.len() as int);
}

/// The index of the first node that bears the identifier `id`.
fn find(nodes: &Vec<Node>, id: &Key) -> (at: Option<usize>)
    ensures
        match at {
            Some(i) => i < nodes@.len() && net_find(net_view(nodes@), id@, nodes@.len() as int)
                == Some(i as int),
            None => net_find(net_view(nodes@), id@, nodes@.len() as int) is None,
        },
{
    let mut i: usize = 0;
    while i < nodes.len()
        invariant
            i <= nodes@.len(),
            net_find(net_view(nodes@), id@, i as int) is None,
        decreases nodes@.len() - i,
    {
        if nodes[i].data.id.equals(id) {
            proof {
                lemma_find(net_view(nodes@), id@, i + 1, nodes@.len() as int);
            }
            return Some(i);
        }
        i += 1;
    }
    None
}

/// Hands `request` of the peer `from` to the node that bears the
/// identifier `to`, and returns its answer; none where there is no such
/// node.
fn rpc(nodes: &mut Vec<Node>, from: Contact, to: &Key, request: &Payload, now: u64) -> (reply:
    Option<Payload>)
    requires
        net_wf(old(nodes)@),
    ensures
        net_wf(final(nodes)@),
        final(nodes)@.len() == old(nodes)@.len(),
        same_nodes(net_view(old(nodes)@), net_view(final(nodes)@)),
        (net_view(final(nodes)@), answer_of(reply)) == net_rpc(
            net_view(old(nodes)@),
            from,
            to@,
            request_of(*request),
            now,
        ),
        request_of(*request) is Some ==> (reply is Some) == net_alive(net_view(old(nodes)@), to@),
{
    let ghost net = net_view(nodes@);
    let at = find(nodes, to);
    match at {
        None => None,
        Some(b) => {
            let ghost before = nodes@;
            let answer = nodes[b].handle_request(from, request, now);
            let ghost mid = nodes@;
            match answer.1 {
                Observation::Full(stale) => {
                    let alive = find(nodes, &stale.id);
                    proof {
                        assert(same_nodes(net, net_view(nodes@)));
                        lemma_find_same(net, net_view(nodes@), stale.id@, net.len() as int);
                    }
                    nodes[b].settle(Check { candidate: from, stale }, alive.is_some(), now);
                },
                _ => {},
            }
            proof {
                assert(net_view(nodes@) =~= net_rpc(net, from, to@, request_of(*request), now).0);
                assert forall|i: int| 0 <= i < nodes@.len() implies (#[trigger] nodes@[i]).wf() by {
                    if i != b {
                        assert(nodes@[i] == before[i]);
                    }
                }
            }
            answer.0
        },
    }
}

/// Makes the liveness checks that node `a` was asked for, and settles them.
fn settle_checks(nodes: &mut Vec<Node>, a: usize, checks: &Vec<Check>, now: u64)
    requires
        net_wf(old(nodes)@),
        a < old(nodes)@.len(),
    ensures
        net_wf(final(nodes)@),
        final(nodes)@.len() == old(nodes)@.len(),
        net_view(final(nodes)@) == net_view(old(nodes)@).update(
            a as int,
            NodeView {
                table: settled(
                    old(nodes)@[a as int].table@,
                    checks@,
                    checks@.len() as int,
                    net_view(old(nodes)@),
                    now,
                ),
                ..old(nodes)@[a as int]@
            },
        ),
{
    let ghost net = net_view(nodes@);
    let ghost start = nodes@;
    let mut i: usize = 0;
    assert(net_view(nodes@) =~= net.update(a as int, start[a as int]@));
    while i < checks.len()
        invariant
            i <= checks@.len(),
            a < nodes@.len(),
            nodes@.len() == start.len(),
            net == net_view(start),
            net_wf(nodes@),
            net_view(nodes@) == net.update(
                a as int,
                NodeView {
                    table: settled(start[a as int].table@, checks@, i as int, net, now),
                    ..start[a as int]@
                },
            ),
        decreases checks@.len() - i,
    {
        let check = checks[i];
        let alive = find(nodes, &check.stale.id);
        let ghost before = nodes@;
        proof {
            assert(same_nodes(net, net_view(nodes@))) by {
                assert forall|j: int| 0 <= j < net.len() implies (#[trigger] net[j]).data
                    == net_view(nodes@)[j].data by {
                    if j == a {
                    }
                }
            }
            lemma_find_same(net, net_view(nodes@), check.stale.id@, net.len() as int);
            assert(net_view(before)[a as int] == before[a as int]@);
        }
        nodes[a].settle(check, alive.is_some(), now);
        proof {
            assert(net_view(nodes@) =~= net.update(
                a as int,
                NodeView {
                    table: settled(start[a as int].table@, checks@, i + 1, net, now),
                    ..start[a as int]@
                },
            ));
            assert forall|j: int| 0 <= j < nodes@.len() implies (#[trigger] nodes@[j]).wf() by {
                if j != a {
                    assert(nodes@[j] == before[j]);
                }
            }
        }
        i += 1;
    }
}

/// Lets the lookup of node `a` ask the peer `to`, and folds in what comes
/// back.
fn ask(nodes: &mut Vec<Node>, a: usize, lookup: &mut Lookup, to: Contact, now: u64)
    requires
        net_wf(old(nodes)@),
        a < old(nodes)@.len(),
        old(lookup).wf(),
    ensures
        net_wf(final(nodes)@),
        final(nodes)@.len() == old(nodes)@.len(),
        final(lookup).wf(),
        final(lookup).rounds == old(lookup).rounds,
        (net_view(final(nodes)@), final(lookup)@) == net_ask(
            net_view(old(nodes)@),
            a as int,
            old(lookup)@,
            to,
            now,
        ),
{
    if lookup.finished {
        return ;
    }
    let ghost net = net_view(nodes@);
    let from = nodes[a].data;
    let request = nodes[a].lookup_request(lookup);
    assert(request_of(request.payload) == Some(lookup_request(lookup@)));
    let reply = rpc(nodes, from, &to.id, &request.payload, now);
    match reply {
        None => {
            lookup.fold_timeout(&to.id);
        },
        Some(payload) => {
            let ghost mid = nodes@;
            let ghost before = lookup@;
            let checks = nodes[a].fold_response(lookup, to, payload, now);
            proof {
                assert(net_view(mid)[a as int] == mid[a as int]@);
                assert forall|j: int| 0 <= j < nodes@.len() implies (#[trigger] nodes@[j]).wf() by {
                    if j != a {
                        assert(nodes@[j] == mid[j]);
                    }
                }
            }
            let ghost folded = nodes@;
            settle_checks(nodes, a, &checks, now);
            proof {
                let f = nv_fold(net_view(mid)[a as int], before, to, answer_of(reply), now);
                assert(net_view(folded) =~= net_view(mid).update(a as int, f.0));
                assert(same_nodes(net_view(mid), net_view(folded)));
                assert forall|n: int| 0 <= n <= checks@.len() implies settled(
                    f.0.table,
                    checks@,
                    n,
                    net_view(folded),
                    now,
                ) == settled(f.0.table, checks@, n, net_view(mid), now) by {
                    lemma_settled_same(f.0.table, checks@, n, net_view(folded), net_view(mid), now);
                }
                assert(net_view(nodes@) =~= net_ask(net, a as int, before, to, now).0);
            }
        },
    }
}

proof fn lemma_settled_same(
    t: TableView,
    checks: Seq<Check>,
    n: int,
    x: Seq<NodeView>,
    y: Seq<NodeView>,
    now: u64,
)
    requires
        same_nodes(x, y),
        0 <= n <= checks.len(),
    ensures
        settled(t, checks, n, x, now) == settled(t, checks, n, y, now),
    decreases n,
{
    if n > 0 {
        lemma_settled_same(t, checks, n - 1, x, y, now);
        lemma_find_same(x, y, checks[n - 1].stale.id@, x.len() as int);
    }
}

/// Runs a lookup of node `a` to its end.
fn run_lookup(nodes: &mut Vec<Node>, a: usize, target: Key, want_value: bool, now: u64) -> (lookup:
    Lookup)
    requires
        net_wf(old(nodes)@),
        a < old(nodes)@.len(),
    ensures
        net_wf(final(nodes)@),
        final(nodes)@.len() == old(nodes)@.len(),
        lookup.wf(),
        lookup.finished,
        (net_view(final(nodes)@), lookup@) == net_lookup(
            net_view(old(nodes)@),
            a as int,
            target@,
            want_value,
            now,
        ),
{
    let ghost net0 = net_view(nodes@);
    let mut lookup = nodes[a].begin_lookup(target, want_value);
    let ghost goal = net_lookup(net0, a as int, target@, want_value, now);
    while !lookup.finished
        invariant
            net_wf(nodes@),
            nodes@.len() == old(nodes)@.len(),
            a < nodes@.len(),
            lookup.wf(),
            !lookup.finished ==> lookup.rounds < 256,
            net_rounds(net_view(nodes@), a as int, lookup@, (256 - lookup.rounds) as nat, now)
                == goal,
        decreases 256 - lookup.rounds,
    {
        let ghost net1 = net_view(nodes@);
        let ghost l0 = lookup@;
        let asks = lookup.next_round();
        let mut i: usize = 0;
        while i < asks.len()
            invariant
                i <= asks@.len(),
                net_wf(nodes@),
                nodes@.len() == old(nodes)@.len(),
                a < nodes@.len(),
                lookup.wf(),
                lookup.rounds == l0.rounds + 1,
                (net_view(nodes@), lookup@) == net_round(
                    net1,
                    a as int,
                    lv_next_round(l0),
                    asks@,
                    i as int,
                    now,
                ),
            decreases asks@.len() - i,
        {
            ask(nodes, a, &mut lookup, asks[i], now);
            i += 1;
        }
        let _ = lookup.end_round();
    }
    lookup
}

/// Looks up the nodes nearest to `target`, from the node with the index
/// `index`: the `REPLICATION_PARAM` nearest peers that the lookup came to
/// know and that did not fail to answer, nearest first.
pub fn find_node(node_map: &mut NodeMap, index: usize, target: Key, now: u64) -> (near: Vec<
    Contact,
>)
    requires
        net_wf(old(node_map)@),
        index < old(node_map)@.len(),
    ensures
        net_wf(final(node_map)@),
        final(node_map)@.len() == old(node_map)@.len(),
        net_view(final(node_map)@) == net_lookup(
            net_view(old(node_map)@),
            index as int,
            target@,
            false,
            now,
        ).0,
        near@ == nearest_alive(
            net_lookup(net_view(old(node_map)@), index as int, target@, false, now).1.candidates,
        ),
{
    let lookup = run_lookup(node_map, index, target, false, now);
    lookup.nearest()
}

/// Sends STORE for a record from node `a` to each of `near`.
fn store_all(
    nodes: &mut Vec<Node>,
    from: Contact,
    near: &Vec<Contact>,
    key: Key,
    value: &Vec<u8>,
    now: u64,
)
    requires
        net_wf(old(nodes)@),
    ensures
        net_wf(final(nodes)@),
        final(nodes)@.len() == old(nodes)@.len(),
        same_nodes(net_view(old(nodes)@), net_view(final(nodes)@)),
        net_view(final(nodes)@) == net_stored(
            net_view(old(nodes)@),
            from,
            near@,
            near@.len() as int,
            key@,
            value@,
            now,
        ),
{
    let request = Payload::Store { key, value: crate::storage::copy_bytes(value) };
    let mut i: usize = 0;
    while i < near.len()
        invariant
            i <= near@.len(),
            net_wf(nodes@),
            nodes@.len() == old(nodes)@.len(),
            same_nodes(net_view(old(nodes)@), net_view(nodes@)),
            request_of(request) == Some(RequestView::Store { key: key@, value: value@ }),
            net_view(nodes@) == net_stored(
                net_view(old(nodes)@),
                from,
                near@,
                i as int,
                key@,
                value@,
                now,
            ),
        decreases near@.len() - i,
    {
        let _ = rpc(nodes, from, &near[i].id, &request, now);
        i += 1;
    }
}

/// Puts a record from node `a`.
pub fn put(nodes: &mut Vec<Node>, a: usize, key: Key, value: &Vec<u8>, now: u64)
    requires
        net_wf(old(nodes)@),
        a < old(nodes)@.len(),
    ensures
        net_wf(final(nodes)@),
        final(nodes)@.len() == old(nodes)@.len(),
        net_view(final(nodes)@) == net_put(net_view(old(nodes)@), a as int, key@, value@, now),
{
    let ghost net = net_view(nodes@);
    let from = nodes[a].data;
    let lookup = run_lookup(nodes, a, key, false, now);
    let near = lookup.nearest();
    let ghost looked = net_view(nodes@);
    store_all(nodes, from, &near, key, value, now);
    let ghost mid = nodes@;
    proof {
        lemma_lookup_same(net, a as int, key@, false, now);
        assert(net_view(mid)[a as int] == mid[a as int]@);
    }
    let _ = nodes[a].store_local(key, value, &near, now);
    proof {
        assert forall|j: int| 0 <= j < nodes@.len() implies (#[trigger] nodes@[j]).wf() by {
            if j != a {
                assert(nodes@[j] == mid[j]);
            }
        }
        assert(net_view(nodes@) =~= net_put(net, a as int, key@, value@, now));
    }
}

/// Gets a record at node `a`.
pub fn get(nodes: &mut Vec<Node>, a: usize, key: Key, now: u64) -> (value: Option<Vec<u8>>)
    requires
        net_wf(old(nodes)@),
        a < old(nodes)@.len(),
    ensures
        net_wf(final(nodes)@),
        final(nodes)@.len() == old(nodes)@.len(),
        net_view(final(nodes)@) == net_get(net_view(old(nodes)@), a as int, key@, now).0,
        match value {
            Some(v) => net_get(net_view(old(nodes)@), a as int, key@, now).1 == Some(v@),
            None => net_get(net_view(old(nodes)@), a as int, key@, now).1 is None,
        },
{
    let ghost net = net_view(nodes@);
    let ghost start = nodes@;
    let from = nodes[a].data;
    assert(net[a as int] == start[a as int]@);
    let local = nodes[a].get_local(&key, now);
    proof {
        assert forall|j: int| 0 <= j < nodes@.len() implies (#[trigger] nodes@[j]).wf() by {
            if j != a {
                assert(nodes@[j] == start[j]);
            }
        }
        assert(net_view(nodes@) =~= net.update(
            a as int,
            NodeView { storage: live_part(net[a as int].storage, now), ..net[a as int] },
        ));
    }
    match local {
        Some(v) => Some(v),
        None => {
            let lookup = run_lookup(nodes, a, key, true, now);
            let found = lookup.value();
            match found {
                Some(v) => {
                    let peer = lookup.cache_target();
                    match peer {
                        Some(peer) => {
                            let request = Payload::Store {
                                key,
                                value: crate::storage::copy_bytes(&v),
                            };
                            let _ = rpc(nodes, from, &peer.id, &request, now);
                        },
                        None => {},
                    }
                    Some(v)
                },
                None => None,
            }
        },
    }
}

proof fn lemma_ask_same(net: Seq<NodeView>, a: int, l: LookupView, to: Contact, now: u64)
    requires
        0 <= a < net.len(),
    ensures
        same_nodes(net, net_ask(net, a, l, to, now).0),
        net_ask(net, a, l, to, now).1.rounds == l.rounds,
{
    if !l.finished {
        lemma_rpc_same(net, net[a].data, to.id@, Some(lookup_request(l)), now);
        let r = net_rpc(net, net[a].data, to.id@, Some(lookup_request(l)), now);
        assert(r.0[a].data == net[a].data);
    }
}

proof fn lemma_round_same(
    net: Seq<NodeView>,
    a: int,
    l: LookupView,
    asks: Seq<Contact>,
    n: int,
    now: u64,
)
    requires
        0 <= a < net.len(),
        0 <= n <= asks.len(),
    ensures
        same_nodes(net, net_round(net, a, l, asks, n, now).0),
        net_round(net, a, l, asks, n, now).1.rounds == l.rounds,
    decreases n,
{
    if n > 0 {
        lemma_round_same(net, a, l, asks, n - 1, now);
        let before = net_round(net, a, l, asks, n - 1, now);
        lemma_ask_same(before.0, a, before.1, asks[n - 1], now);
    }
}

proof fn lemma_rounds_same(net: Seq<NodeView>, a: int, l: LookupView, fuel: nat, now: u64)
    requires
        0 <= a < net.len(),
    ensures
        same_nodes(net, net_rounds(net, a, l, fuel, now).0),
    decreases fuel,
{
    if !(l.finished || fuel == 0) {
        let asks = lv_asks(l);
        lemma_round_same(net, a, lv_next_round(l), asks, asks.len() as int, now);
        let r = net_round(net, a, lv_next_round(l), asks, asks.len() as int, now);
        lemma_rounds_same(r.0, a, lv_end_round(r.1), (fuel - 1) as nat, now);
    }
}

/// A lookup leaves every node its identifier and address.
pub proof fn lemma_lookup_same(net: Seq<NodeView>, a: int, target: Seq<u8>, want_value: bool, now: u64)
    requires
        0 <= a < net.len(),
    ensures
        same_nodes(net, net_lookup(net, a, target, want_value, now).0),
{
    lemma_rounds_same(net, a, lv_start(net[a].table, target, want_value), 256, now);
}

/// The address that every node of a network made here has: the loopback
/// address.
pub open spec fn localhost() -> [u8; 16] {
    [0u8, 0u8, 0u8, 0u8, 0u8, 0u8, 0u8, 0u8, 0u8, 0u8, 0u8, 0u8, 0u8, 0u8, 0u8, 1u8]
}

/// The contacts of the nodes that bear the identifiers `ids`: node `i` is
/// reached at the loopback address, port `FIRST_PORT + i`.
pub open spec fn contacts_for(ids: Seq<Key>) -> Seq<Contact> {
    Seq::new(
        ids.len(),
        |i: int| Contact { id: ids[i], host: localhost(), port: (FIRST_PORT + i) as u16 },
    )
}

proof fn lemma_create_same(who: Seq<Contact>, n: int, now: u64)
    requires
        0 <= n <= who.len(),
    ensures
        net_create(who, n, now).len() == n,
        forall|j: int| 0 <= j < n ==> (#[trigger] net_create(who, n, now)[j]).data == who[j],
    decreases n,
{
    if n > 1 {
        lemma_create_same(who, n - 1, now);
        let me = who[n - 1];
        let joined = net_create(who, n - 1, now).push(
            NodeView {
                data: me,
                table: spec_observe(empty_table(me.id@, now), who[0], now).0,
                storage: Map::<Seq<u8>, Stored>::empty(),
            },
        );
        lemma_lookup_same(joined, n - 1, me.id@, false, now);
        let after = net_lookup(joined, n - 1, me.id@, false, now).0;
        assert forall|j: int| 0 <= j < n implies (#[trigger] after[j]).data == who[j] by {
            assert(joined[j].data == after[j].data);
        }
    }
}

/// A network of `number_of_nodes` nodes, node `i` with the identifier
/// `ids[i]`. The first node starts alone. Every other node joins through
/// the first: it starts with the first as its one contact and looks its own
/// identifier up.
pub fn create_network(number_of_nodes: usize, ids: &Vec<Key>, now: u64) -> (node_map: NodeMap)
    requires
        number_of_nodes == ids@.len(),
        number_of_nodes <= MAX_NODES,
    ensures
        net_wf(node_map@),
        node_map@.len() == number_of_nodes,
        net_view(node_map@) == net_create(contacts_for(ids@), number_of_nodes as int, now),
{
    let ghost who = contacts_for(ids@);
    let mut nodes: Vec<Node> = Vec::new();
    let host: [u8; 16] = [0u8, 0u8, 0u8, 0u8, 0u8, 0u8, 0u8, 0u8, 0u8, 0u8, 0u8, 0u8, 0u8, 0u8, 0u8, 1u8];
    let mut i: usize = 0;
    assert(net_view(nodes@) =~= net_create(who, 0, now));
    while i < number_of_nodes
        invariant
            i <= number_of_nodes,
            number_of_nodes == ids@.len(),
            number_of_nodes <= MAX_NODES,
            who == contacts_for(ids@),
            host == localhost(),
            net_wf(nodes@),
            nodes@.len() == i,
            net_view(nodes@) == net_create(who, i as int, now),
        decreases number_of_nodes - i,
    {
        let data = Contact { id: ids[i], host, port: FIRST_PORT + (i as u16) };
        assert(data == who[i as int]);
        let ghost before = nodes@;
        proof {
            lemma_create_same(who, i as int, now);
        }
        if i == 0 {
            let node = Node::new(data, None, now);
            nodes.push(node);
            proof {
                assert(net_view(nodes@) =~= net_create(who, 1, now));
            }
        } else {
            let first = nodes[0].data;
            assert(first == who[0]) by {
                assert(net_view(before)[0].data == who[0]);
            }
            let node = Node::new(data, Some(first), now);
            nodes.push(node);
            proof {
                let joined = net_create(who, i as int, now).push(
                    NodeView {
                        data,
                        table: spec_observe(empty_table(data.id@, now), who[0], now).0,
                        storage: Map::<Seq<u8>, Stored>::empty(),
                    },
                );
                assert(net_view(nodes@) =~= joined);
                assert forall|j: int| 0 <= j < nodes@.len() implies (#[trigger] nodes@[j]).wf() by {
                    if j < i {
                        assert(nodes@[j] == before[j]);
                    }
                }
            }
            let _ = run_lookup(&mut nodes, i, data.id, false, now);
        }
        i += 1;
    }
    nodes
}

/// The node with the index `index`.
pub fn get_node(node_map: &NodeMap, index: usize) -> (node: &Node)
    requires
        index < node_map@.len(),
    ensures
        *node == node_map@[index as int],
{
    &node_map[index]
}

/// The identifier of the node with the index `index`.
pub fn get_node_id(node_map: &NodeMap, index: usize) -> (id: Key)
    requires
        index < node_map@.len(),
    ensures
        id == node_map@[index as int].data.id,
{
    node_map[index].data.id
}

/// Puts `value` under the storage key `key`, from the node with the index
/// `index`: the record goes under the BLAKE3 hash of the key to the nodes
/// nearest to that hash.
pub fn insert_value(node_map: &mut NodeMap, index: usize, key: &str, value: Vec<u8>, now: u64)
    requires
        net_wf(old(node_map)@),
        index < old(node_map)@.len(),
    ensures
        net_wf(final(node_map)@),
        final(node_map)@.len() == old(node_map)@.len(),
        net_view(final(node_map)@) == net_put(
            net_view(old(node_map)@),
            index as int,
            blake3_digest(key.spec_bytes()),
            value@,
            now,
        ),
{
    let id = get_key(key);
    put(node_map, index, id, &value, now);
}

/// The value that is kept under the storage key `key`, as the node with
/// the index `index` finds it: in its own store, or by a lookup for the
/// BLAKE3 hash of the key. None where it finds no unexpired record.
pub fn get_value(node_map: &mut NodeMap, index: usize, key: &str, now: u64) -> (value: Option<
    Vec<u8>,
>)
    requires
        net_wf(old(node_map)@),
        index < old(node_map)@.len(),
    ensures
        net_wf(final(node_map)@),
        final(node_map)@.len() == old(node_map)@.len(),
        net_view(final(node_map)@) == net_get(
            net_view(old(node_map)@),
            index as int,
            blake3_digest(key.spec_bytes()),
            now,
        ).0,
        match value {
            Some(v) => net_get(
                net_view(old(node_map)@),
                index as int,
                blake3_digest(key.spec_bytes()),
                now,
            ).1 == Some(v@),
            None => net_get(
                net_view(old(node_map)@),
                index as int,
                blake3_digest(key.spec_bytes()),
                now,
            ).1 is None,
        },
{
    let id = get_key(key);
    get(node_map, index, id, now)
}

proof fn lemma_stored_same(
    net: Seq<NodeView>,
    from: Contact,
    near: Seq<Contact>,
    n: int,
    key: Seq<u8>,
    value: Seq<u8>,
    now: u64,
)
    requires
        0 <= n <= near.len(),
    ensures
        same_nodes(net, net_stored(net, from, near, n, key, value, now)),
    decreases n,
{
    if n > 0 {
        lemma_stored_same(net, from, near, n - 1, key, value, now);
        lemma_rpc_same(
            net_stored(net, from, near, n - 1, key, value, now),
            from,
            near[n - 1].id@,
            Some(RequestView::Store { key, value }),
            now,
        );
    }
}

/// After STORE went to the first `n` of `near`, the node that `near[j]`
/// names holds the record, for every `j` below `n`.
proof fn lemma_stored_reaches(
    net: Seq<NodeView>,
    from: Contact,
    near: Seq<Contact>,
    n: int,
    key: Seq<u8>,
    value: Seq<u8>,
    now: u64,
    j: int,
)
    requires
        0 <= j < n <= near.len(),
        net_find(net, near[j].id@, net.len() as int) is Some,
    ensures
        ({
            let b = net_find(net, near[j].id@, net.len() as int).unwrap();
            let after = net_stored(net, from, near, n, key, value, now);
            0 <= b < after.len() && after[b].storage.contains_key(key) && after[b].storage[key] == (
            Stored { value, inserted_at: now })
        }),
    decreases n,
{
    let b = net_find(net, near[j].id@, net.len() as int).unwrap();
    let before = net_stored(net, from, near, n - 1, key, value, now);
    lemma_find(net, near[j].id@, net.len() as int, net.len() as int);
    lemma_stored_same(net, from, near, n - 1, key, value, now);
    lemma_find_same(net, before, near[n - 1].id@, net.len() as int);
    lemma_find(before, near[n - 1].id@, before.len() as int, before.len() as int);
    if j < n - 1 {
        lemma_stored_reaches(net, from, near, n - 1, key, value, now, j);
    }
}

/// A put reaches every node that the lookup returned: each of them holds
/// the record afterwards.
pub proof fn lemma_put_replicates(
    net: Seq<NodeView>,
    a: int,
    key: Seq<u8>,
    value: Seq<u8>,
    now: u64,
    j: int,
)
    requires
        0 <= a < net.len(),
        0 <= j < nearest_alive(net_lookup(net, a, key, false, now).1.candidates).len(),
        net_alive(net, nearest_alive(net_lookup(net, a, key, false, now).1.candidates)[j].id@),
    ensures
        ({
            let peer = nearest_alive(net_lookup(net, a, key, false, now).1.candidates)[j];
            let b = net_find(net, peer.id@, net.len() as int).unwrap();
            let after = net_put(net, a, key, value, now);
            0 <= b < after.len() && spec_get(after[b].storage, key, now) == Some(value)
        }),
{
    let r = net_lookup(net, a, key, false, now);
    let near = nearest_alive(r.1.candidates);
    lemma_lookup_same(net, a, key, false, now);
    lemma_find_same(net, r.0, near[j].id@, net.len() as int);
    lemma_stored_reaches(r.0, net[a].data, near, near.len() as int, key, value, now, j);
    lemma_stored_same(r.0, net[a].data, near, near.len() as int, key, value, now);
}

/// A node that puts a record and is itself among the nearest to its key
/// gets the record back at once.
pub proof fn lemma_put_then_get(net: Seq<NodeView>, a: int, key: Seq<u8>, value: Seq<u8>, now: u64)
    requires
        0 <= a < net.len(),
        among_closest(
            net[a].data.id@,
            key,
            nearest_alive(net_lookup(net, a, key, false, now).1.candidates),
        ),
    ensures
        net_get(net_put(net, a, key, value, now), a, key, now).1 == Some(value),
{
    let r = net_lookup(net, a, key, false, now);
    let near = nearest_alive(r.1.candidates);
    lemma_lookup_same(net, a, key, false, now);
    lemma_stored_same(r.0, net[a].data, near, near.len() as int, key, value, now);
    let after = net_put(net, a, key, value, now);
    assert(after[a].storage.contains_key(key));
}

/// On a network of one node that knows nobody, a record that was put is
/// got back at once.
pub proof fn lemma_single_node_round_trip(net: Seq<NodeView>, key: Seq<u8>, value: Seq<u8>, now: u64)
    requires
        net.len() == 1,
        forall|i: int| 0 <= i < net[0].table.buckets.len() ==> (#[trigger] net[0].table.buckets[i]).len() == 0,
    ensures
        net_get(net_put(net, 0, key, value, now), 0, key, now).1 == Some(value),
{
    let t = net[0].table;
    let none = Seq::<Contact>::empty();
    assert(is_closest(t, key, REPLICATION_PARAM as nat, none));
    lemma_closest_unique(t, key, REPLICATION_PARAM as nat, none, none);
    let near = spec_closest(t, key, REPLICATION_PARAM as nat);
    if near.len() > 0 {
        assert(crate::routing::table_holds(t, near[0]));
    }
    let l0 = lv_start(t, key, false);
    assert(l0.candidates =~= Seq::<crate::lookup::Candidate>::empty());
    let l1 = lv_next_round(l0);
    assert(l1.candidates =~= l0.candidates);
    let l2 = lv_end_round(l1);
    assert(l2.candidates =~= l0.candidates);
    assert(l2.finished);
    assert(lv_asks(l0) =~= none);
    assert(net_round(net, 0, l1, lv_asks(l0), 0, now) == (net, l1));
    assert(net_rounds(net, 0, l2, 255, now) == (net, l2));
    assert(net_rounds(net, 0, l0, 256, now) == (net, l2));
    assert(nearest_alive(l2.candidates) =~= none);
    lemma_put_then_get(net, 0, key, value, now);
}

/// The maintenance of the node with the index `index`: every bucket that
/// was not touched for longer than `BUCKET_REFRESH_INTERVAL` is refreshed
/// by a lookup for an identifier of its range, made from `noise`, and the
/// expired records are dropped. Returns the refresh plan that it followed.
pub fn maintain(node_map: &mut NodeMap, index: usize, now: u64, noise: &Key) -> (plan: Vec<Refresh>)
    requires
        net_wf(old(node_map)@),
        index < old(node_map)@.len(),
    ensures
        net_wf(final(node_map)@),
        final(node_map)@.len() == old(node_map)@.len(),
        is_refresh_plan(net_view(old(node_map)@)[index as int], now, noise@, plan@),
        net_view(final(node_map)@) == net_maintained(
            net_view(old(node_map)@),
            index as int,
            plan@,
            now,
        ),
{
    let ghost net = net_view(node_map@);
    let plan = node_map[index].refresh_plan(now, noise);
    let mut i: usize = 0;
    while i < plan.len()
        invariant
            i <= plan@.len(),
            net_wf(node_map@),
            node_map@.len() == old(node_map)@.len(),
            index < node_map@.len(),
            forall|a: int| 0 <= a < plan@.len() ==> (#[trigger] plan@[a]).bucket < 256,
            net_view(node_map@) == net_refreshed(net, index as int, plan@, i as int, now),
        decreases plan@.len() - i,
    {
        let refresh = plan[i];
        let _ = run_lookup(node_map, index, refresh.target, false, now);
        let ghost looked = node_map@;
        proof {
            assert(net_view(looked)[index as int] == looked[index as int]@);
        }
        node_map[index].table.touch(refresh.bucket, now);
        proof {
            assert forall|j: int| 0 <= j < node_map@.len() implies (#[trigger] node_map@[j]).wf() by {
                if j != index {
                    assert(node_map@[j] == looked[j]);
                }
            }
            assert(net_view(node_map@) =~= net_refreshed(net, index as int, plan@, i + 1, now));
        }
        i += 1;
    }
    let ghost refreshed = node_map@;
    proof {
        assert(net_view(refreshed)[index as int] == refreshed[index as int]@);
    }
    node_map[index].sweep(now);
    proof {
        assert forall|j: int| 0 <= j < node_map@.len() implies (#[trigger] node_map@[j]).wf() by {
            if j != index {
                assert(node_map@[j] == refreshed[j]);
            }
        }
        assert(net_view(node_map@) =~= net_maintained(net, index as int, plan@, now));
    }
    plan
}

} // verus!
