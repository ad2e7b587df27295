//! The routing table: the peers a node knows, in buckets by distance.
//!
//! Bucket `i` holds the contacts whose distance to the local identifier has
//! `i` leading zero bits. Within a bucket the most recently seen contact
//! comes first and the least recently seen last.

use vstd::prelude::*;
use crate::key::{Key, spec_bucket_index, spec_distance, bucket_index, closer, key_in_bucket,
    bucket_distance, xor_bytes, lemma_distance_injective};
use crate::{REPLICATION_PARAM, BUCKET_REFRESH_INTERVAL};

verus! {

/// A known peer: its identifier and where to reach it. The host is an IPv6
/// address, or an IPv4 address in its IPv6-mapped form.
#[derive(Clone, Copy, Debug, PartialEq, Eq, Hash)]
pub struct Contact {
    pub id: Key,
    pub host: [u8; 16],
    pub port: u16,
}

/// A contact as plain values: 32 bytes of identifier, 16 of host, the port.
pub struct ContactView {
    pub id: Seq<u8>,
    pub host: Seq<u8>,
    pub port: u16,
}

impl View for Contact {
    type V = ContactView;

    open spec fn view(&self) -> ContactView {
        ContactView { id: self.id@, host: self.host@, port: self.port }
    }
}

/// The contacts of a list as plain values.
pub open spec fn contact_views(cs: Seq<Contact>) -> Seq<ContactView> {
    Seq::new(cs.len(), |i: int| cs[i]@)
}

/// What a routing table holds.
pub struct TableView {
    /// The local identifier.
    pub local: Seq<u8>,
    /// The contacts of each bucket, most recently seen first.
    pub buckets: Seq<Seq<Contact>>,
    /// For each bucket the time, in seconds, at which it was last touched.
    pub touched: Seq<u64>,
}

/// What became of an observed contact.
#[derive(Clone, Copy, Debug, PartialEq, Eq)]
pub enum Observation {
    /// The contact bears the local identifier and was ignored.
    Ignored,
    /// The contact is new and its bucket had room.
    Added,
    /// The contact was known and is now the most recently seen of its bucket.
    Refreshed,
    /// The bucket is full and the table is unchanged. The contact given is
    /// the least recently seen of the bucket: whether it still answers
    /// decides, in `settle`, which of the two stays.
    Full(Contact),
}

/// Whether a bucket holds a contact with the identifier `id`.
pub open spec fn holds(b: Seq<Contact>, id: Seq<u8>) -> bool {
    exists|j: int| 0 <= j < b.len() && #[trigger] b[j].id@ == id
}

/// Where a bucket holds the contact with the identifier `id`.
pub open spec fn place(b: Seq<Contact>, id: Seq<u8>) -> int {
    choose|j: int| 0 <= j < b.len() && #[trigger] b[j].id@ == id
}

/// A bucket has at most `REPLICATION_PARAM` contacts, each belongs to it by
/// its distance to the local identifier, and no identifier occurs twice.
pub open spec fn bucket_ok(local: Seq<u8>, i: int, b: Seq<Contact>) -> bool {
    &&& b.len() <= REPLICATION_PARAM
    &&& forall|j: int| 0 <= j < b.len() ==> spec_bucket_index(local, #[trigger] b[j].id@) == Some(
        i as usize,
    )
    &&& forall|j: int, k: int| 0 <= j < k < b.len() ==> #[trigger] b[j].id@ != #[trigger] b[k].id@
}

/// The invariant of a routing table.
pub open spec fn table_wf(t: TableView) -> bool {
    &&& t.local.len() == 32
    &&& t.buckets.len() == 256
    &&& t.touched.len() == 256
    &&& forall|i: int| 0 <= i < 256 ==> bucket_ok(t.local, i, #[trigger] t.buckets[i])
}

/// The table of the node `local` that knows nobody, every bucket touched
/// at `now`.
pub open spec fn empty_table(local: Seq<u8>, now: u64) -> TableView {
    TableView {
        local,
        buckets: Seq::new(256, |i: int| Seq::<Contact>::empty()),
        touched: Seq::new(256, |i: int| now),
    }
}

/// A liveness check that `observe` asked for: `stale` is to be pinged, and
/// `settle` then decides between it and `candidate`.
#[derive(Clone, Copy, Debug, PartialEq, Eq)]
pub struct Check {
    pub candidate: Contact,
    pub stale: Contact,
}

/// The table after the first `n` of `cs` were observed one after the other,
/// and the liveness checks that this asked for.
pub open spec fn observed_all(t: TableView, cs: Seq<Contact>, n: int, now: u64) -> (
    TableView,
    Seq<Check>,
)
    decreases n,
{
    if n <= 0 {
        (t, Seq::<Check>::empty())
    } else {
        let before = observed_all(t, cs, n - 1, now);
        let step = spec_observe(before.0, cs[n - 1], now);
        (
            step.0,
            match step.1 {
                Observation::Full(stale) => before.1.push(Check { candidate: cs[n - 1], stale }),
                _ => before.1,
            },
        )
    }
}

/// The table with bucket `i` replaced and touched at `now`.
pub open spec fn with_bucket(t: TableView, i: int, b: Seq<Contact>, now: u64) -> TableView {
    TableView { local: t.local, buckets: t.buckets.update(i, b), touched: t.touched.update(i, now) }
}

/// A bucket after `c` was seen: `c` comes first, and an earlier entry with
/// its identifier is gone.
pub open spec fn seen_first(b: Seq<Contact>, c: Contact) -> Seq<Contact> {
    if holds(b, c.id@) {
        seq![c] + b.remove(place(b, c.id@))
    } else {
        seq![c] + b
    }
}

/// The table and the outcome after `observe`.
pub open spec fn spec_observe(t: TableView, c: Contact, now: u64) -> (TableView, Observation) {
    match spec_bucket_index(t.local, c.id@) {
        None => (t, Observation::Ignored),
        Some(i) => {
            let b = t.buckets[i as int];
            if holds(b, c.id@) {
                (with_bucket(t, i as int, seen_first(b, c), now), Observation::Refreshed)
            } else if b.len() < REPLICATION_PARAM {
                (with_bucket(t, i as int, seen_first(b, c), now), Observation::Added)
            } else {
                (t, Observation::Full(b.last()))
            }
        },
    }
}

/// The table after `settle`.
pub open spec fn spec_settle(t: TableView, candidate: Contact, stale: Seq<u8>, alive: bool, now: u64)
    -> TableView {
    match spec_bucket_index(t.local, candidate.id@) {
        None => t,
        Some(i) => {
            let b = t.buckets[i as int];
            if alive {
                if holds(b, stale) {
                    with_bucket(t, i as int, seen_first(b, b[place(b, stale)]), now)
                } else {
                    t
                }
            } else {
                let rest = if holds(b, stale) {
                    b.remove(place(b, stale))
                } else {
                    b
                };
                if holds(rest, candidate.id@) || rest.len() < REPLICATION_PARAM {
                    with_bucket(t, i as int, seen_first(rest, candidate), now)
                } else {
                    t
                }
            }
        },
    }
}

/// Whether the table holds the contact `c`.
pub open spec fn table_holds(t: TableView, c: Contact) -> bool {
    exists|i: int, j: int|
        0 <= i < t.buckets.len() && 0 <= j < t.buckets[i].len() && #[trigger] t.buckets[i][j] == c
}

/// Whether `c` is one of `r`.
pub open spec fn listed(r: Seq<Contact>, c: Contact) -> bool {
    exists|a: int| 0 <= a < r.len() && #[trigger] r[a] == c
}

/// Whether `r` is in strictly ascending order of distance to `target`.
pub open spec fn ascending(r: Seq<Contact>, target: Seq<u8>) -> bool {
    forall|a: int, b: int|
        0 <= a < b < r.len() ==> spec_distance(#[trigger] r[a].id@, target) < spec_distance(
            #[trigger] r[b].id@,
            target,
        )
}

/// Whether every contact of `r` is nearer to `target` than `c` is.
pub open spec fn all_nearer(r: Seq<Contact>, c: Contact, target: Seq<u8>) -> bool {
    forall|a: int|
        0 <= a < r.len() ==> spec_distance(#[trigger] r[a].id@, target) < spec_distance(
            c.id@,
            target,
        )
}

/// Whether `r` lists the `count` contacts of the table that are nearest to
/// `target`, or all of them where the table has fewer, nearest first.
pub open spec fn is_closest(t: TableView, target: Seq<u8>, count: nat, r: Seq<Contact>) -> bool {
    &&& r.len() <= count
    &&& ascending(r, target)
    &&& forall|a: int| 0 <= a < r.len() ==> table_holds(t, #[trigger] r[a])
    &&& forall|c: Contact| #[trigger]
        table_holds(t, c) ==> listed(r, c) || (r.len() == count && all_nearer(r, c, target))
}

/// The `count` contacts of the table that are nearest to `target`, nearest
/// first: the one list that `is_closest` admits.
pub open spec fn spec_closest(t: TableView, target: Seq<u8>, count: nat) -> Seq<Contact> {
    choose|r: Seq<Contact>| is_closest(t, target, count, r)
}

/// Whether a bucket that was last touched at `touched` is stale at `now`:
/// more than `BUCKET_REFRESH_INTERVAL` seconds have passed.
pub open spec fn is_stale(touched: u64, now: u64) -> bool {
    now - touched > BUCKET_REFRESH_INTERVAL
}

spec fn came_before(t: TableView, bi: int, ci: int, c: Contact) -> bool {
    exists|i: int, j: int|
        0 <= i < t.buckets.len() && 0 <= j < t.buckets[i].len() && (i < bi || (i == bi && j < ci))
            && #[trigger] t.buckets[i][j] == c
}

spec fn partial_closest(
    t: TableView,
    bi: int,
    ci: int,
    target: Seq<u8>,
    count: nat,
    r: Seq<Contact>,
) -> bool {
    &&& r.len() <= count
    &&& ascending(r, target)
    &&& forall|a: int| 0 <= a < r.len() ==> came_before(t, bi, ci, #[trigger] r[a])
    &&& forall|c: Contact| #[trigger]
        came_before(t, bi, ci, c) ==> listed(r, c) || (r.len() == count && all_nearer(r, c, target))
}

proof fn lemma_place(b: Seq<Contact>, j: int)
    requires
        0 <= j < b.len(),
        forall|x: int, y: int| 0 <= x < y < b.len() ==> #[trigger] b[x].id@ != #[trigger] b[y].id@,
    ensures
        holds(b, b[j].id@),
        place(b, b[j].id@) == j,
{
    let id = b[j].id@;
    assert(b[j].id@ == id);
    let p = place(b, id);
    assert(b[p].id@ == id);
    if p < j {
        assert(b[p].id@ != b[j].id@);
    } else if j < p {
        assert(b[j].id@ != b[p].id@);
    }
}

proof fn lemma_bucket_remove(local: Seq<u8>, i: int, b: Seq<Contact>, j: int)
    requires
        bucket_ok(local, i, b),
        0 <= j < b.len(),
    ensures
        bucket_ok(local, i, b.remove(j)),
        !holds(b.remove(j), b[j].id@),
        b.remove(j).len() == b.len() - 1,
{
    let after = b.remove(j);
    assert forall|x: int| 0 <= x < after.len() implies #[trigger] after[x] == b[if x < j {
        x
    } else {
        x + 1
    }] by {}
    assert forall|x: int, y: int| 0 <= x < y < after.len() implies #[trigger] after[x].id@
        != #[trigger] after[y].id@ by {
        let x0 = if x < j { x } else { x + 1 };
        let y0 = if y < j { y } else { y + 1 };
        assert(b[x0].id@ != b[y0].id@);
    }
    if holds(after, b[j].id@) {
        let x = place(after, b[j].id@);
        let x0 = if x < j { x } else { x + 1 };
        assert(after[x].id@ == b[j].id@);
        if x0 < j {
            assert(b[x0].id@ != b[j].id@);
        } else {
            assert(b[j].id@ != b[x0].id@);
        }
    }
}

proof fn lemma_bucket_front(local: Seq<u8>, i: int, b: Seq<Contact>, c: Contact)
    requires
        bucket_ok(local, i, b),
        b.len() < REPLICATION_PARAM,
        !holds(b, c.id@),
        spec_bucket_index(local, c.id@) == Some(i as usize),
    ensures
        bucket_ok(local, i, seq![c] + b),
        seq![c] + b == b.insert(0, c),
{
    let after = seq![c] + b;
    assert(after =~= b.insert(0, c));
    assert forall|x: int| 0 <= x < after.len() implies spec_bucket_index(
        local,
        #[trigger] after[x].id@,
    ) == Some(i as usize) by {
        if x > 0 {
            assert(after[x] == b[x - 1]);
        }
    }
    assert forall|x: int, y: int| 0 <= x < y < after.len() implies #[trigger] after[x].id@
        != #[trigger] after[y].id@ by {
        assert(after[y] == b[y - 1]);
        if x == 0 {
            assert(b[y - 1].id@ != c.id@);
        } else {
            assert(after[x] == b[x - 1]);
            assert(b[x - 1].id@ != b[y - 1].id@);
        }
    }
}

fn bucket_position(b: &Vec<Contact>, id: &Key) -> (at: Option<usize>)
    ensures
        match at {
            Some(j) => j < b@.len() && b@[j as int].id@ == id@,
            None => !holds(b@, id@),
        },
{
    let mut j: usize = 0;
    while j < b.len()
        invariant
            j <= b.len(),
            forall|x: int| 0 <= x < j ==> b@[x].id@ != id@,
        decreases b.len() - j,
    {
        if b[j].id.equals(id) {
            return Some(j);
        }
        j += 1;
    }
    None
}

/// Puts `c` into the sorted list `best` at its place by distance to
/// `target`, and drops the farthest where the list then exceeds `count`.
fn merge_one(best: &mut Vec<Contact>, c: Contact, target: &Key, count: usize)
    requires
        old(best)@.len() <= count,
        ascending(old(best)@, target@),
        forall|a: int|
            0 <= a < old(best)@.len() ==> spec_distance(#[trigger] old(best)@[a].id@, target@)
                != spec_distance(c.id@, target@),
    ensures
        final(best)@.len() <= count,
        final(best)@.len() == if old(best)@.len() < count {
            old(best)@.len() + 1
        } else {
            count as nat
        },
        ascending(final(best)@, target@),
        forall|a: int|
            0 <= a < final(best)@.len() ==> listed(old(best)@, #[trigger] final(best)@[a])
                || final(best)@[a] == c,
        forall|x: Contact| #[trigger]
            listed(old(best)@, x) ==> listed(final(best)@, x) || (final(best)@.len() == count
                && all_nearer(final(best)@, x, target@)),
        listed(final(best)@, c) || (final(best)@.len() == count && all_nearer(
            final(best)@,
            c,
            target@,
        )),
{
    let mut p: usize = 0;
    while p < best.len() && closer(&best[p].id, &c.id, target)
        invariant
            p <= best.len(),
            *best == *old(best),
            forall|a: int|
                0 <= a < p ==> spec_distance(#[trigger] best@[a].id@, target@) < spec_distance(
                    c.id@,
                    target@,
                ),
        decreases best.len() - p,
    {
        p += 1;
    }
    let ghost before = best@;
    best.insert(p, c);
    let ghost grown = best@;
    proof {
        assert(grown == before.insert(p as int, c));
        assert forall|a: int, b: int| 0 <= a < b < grown.len() implies spec_distance(
            #[trigger] grown[a].id@,
            target@,
        ) < spec_distance(#[trigger] grown[b].id@, target@) by {
            let a0 = if a < p { a } else { a - 1 };
            let b0 = if b < p { b } else { b - 1 };
            if a == p {
                assert(grown[b] == before[b0]);
                if p < before.len() {
                    assert(spec_distance(before[p as int].id@, target@) != spec_distance(
                        c.id@,
                        target@,
                    ));
                    if b0 > p {
                        assert(spec_distance(before[p as int].id@, target@) < spec_distance(
                            before[b0].id@,
                            target@,
                        ));
                    }
                }
            } else if b == p {
                assert(grown[a] == before[a0]);
            } else {
                assert(grown[a] == before[a0]);
                assert(grown[b] == before[b0]);
                assert(spec_distance(before[a0].id@, target@) < spec_distance(
                    before[b0].id@,
                    target@,
                ));
            }
        }
        assert(grown[p as int] == c);
        assert forall|x: Contact| listed(before, x) implies listed(grown, x) by {
            let a = choose|a: int| 0 <= a < before.len() && #[trigger] before[a] == x;
            let a1 = if a < p { a } else { a + 1 };
            assert(grown[a1] == x);
        }
        assert forall|a: int| 0 <= a < grown.len() implies listed(before, #[trigger] grown[a])
            || grown[a] == c by {
            if a != p {
                let a0 = if a < p { a } else { a - 1 };
                assert(before[a0] == grown[a]);
            }
        }
    }
    if best.len() > count {
        let dropped = best.pop();
        proof {
            let kept = best@;
            assert(kept =~= grown.drop_last());
            assert(kept.len() == count);
            assert forall|a: int| 0 <= a < kept.len() implies kept[a] == grown[a] by {}
            assert forall|x: Contact| listed(grown, x) implies listed(kept, x) || all_nearer(
                kept,
                x,
                target@,
            ) by {
                let a = choose|a: int| 0 <= a < grown.len() && #[trigger] grown[a] == x;
                if a < kept.len() {
                    assert(kept[a] == x);
                } else {
                    assert forall|e: int| 0 <= e < kept.len() implies spec_distance(
                        #[trigger] kept[e].id@,
                        target@,
                    ) < spec_distance(x.id@, target@) by {
                        assert(kept[e] == grown[e]);
                        assert(spec_distance(grown[e].id@, target@) < spec_distance(
                            grown[a].id@,
                            target@,
                        ));
                    }
                }
            }
            assert forall|a: int, b: int| 0 <= a < b < kept.len() implies spec_distance(
                #[trigger] kept[a].id@,
                target@,
            ) < spec_distance(#[trigger] kept[b].id@, target@) by {
                assert(spec_distance(grown[a].id@, target@) < spec_distance(
                    grown[b].id@,
                    target@,
                ));
            }
            assert forall|a: int| 0 <= a < kept.len() implies listed(before, #[trigger] kept[a])
                || kept[a] == c by {
                assert(kept[a] == grown[a]);
            }
        }
    }
}

/// The routing table of one node.
pub struct RoutingTable {
    local: Key,
    buckets: Vec<Vec<Contact>>,
    touched: Vec<u64>,
}

impl View for RoutingTable {
    type V = TableView;

    closed spec fn view(&self) -> TableView {
        TableView {
            local: self.local@,
            buckets: Seq::new(self.buckets@.len(), |i: int| self.buckets@[i]@),
            touched: self.touched@,
        }
    }
}

impl RoutingTable {
    /// The invariant: 256 buckets, none with more than `REPLICATION_PARAM`
    /// contacts, each contact in the bucket of its distance, no identifier
    /// twice.
    pub open spec fn wf(&self) -> bool {
        table_wf(self@)
    }

    /// An empty table for the node `local`, all buckets touched at `now`.
    pub fn new(local: Key, now: u64) -> (table: RoutingTable)
        ensures
            table.wf(),
            table@ == empty_table(local@, now),
    {
        let mut buckets: Vec<Vec<Contact>> = Vec::new();
        let mut touched: Vec<u64> = Vec::new();
        let mut i: usize = 0;
        while i < 256
            invariant
                i <= 256,
                buckets@.len() == i,
                touched@.len() == i,
                forall|j: int| 0 <= j < i ==> #[trigger] buckets@[j]@ == Seq::<Contact>::empty(),
                forall|j: int| 0 <= j < i ==> #[trigger] touched@[j] == now,
            decreases 256 - i,
        {
            buckets.push(Vec::new());
            touched.push(now);
            i += 1;
        }
        let table = RoutingTable { local, buckets, touched };
        proof {
            assert(table@.buckets =~= empty_table(local@, now).buckets);
            assert(table@.touched =~= empty_table(local@, now).touched);
        }
        table
    }

    /// The local identifier.
    pub fn local(&self) -> (id: Key)
        ensures
            id@ == self@.local,
    {
        self.local
    }

    /// The contacts of bucket `index`, most recently seen first.
    pub fn bucket(&self, index: usize) -> (contacts: Vec<Contact>)
        requires
            self.wf(),
            index < 256,
        ensures
            contacts@ == self@.buckets[index as int],
    {
        let mut contacts: Vec<Contact> = Vec::new();
        let mut j: usize = 0;
        while j < self.buckets[index].len()
            invariant
                index < self.buckets@.len(),
                j <= self.buckets@[index as int]@.len(),
                contacts@ == self.buckets@[index as int]@.take(j as int),
            decreases self.buckets@[index as int]@.len() - j,
        {
            contacts.push(self.buckets[index][j]);
            assert(contacts@ =~= self.buckets@[index as int]@.take(j + 1));
            j += 1;
        }
        assert(self.buckets@[index as int]@.take(j as int) =~= self.buckets@[index as int]@);
        contacts
    }

    /// The time at which bucket `index` was last touched.
    pub fn touched_at(&self, index: usize) -> (at: u64)
        requires
            self.wf(),
            index < 256,
        ensures
            at == self@.touched[index as int],
    {
        self.touched[index]
    }

    /// Replaces bucket `i` by `c` followed by the bucket without its entry
    /// at `at`, and touches it.
    fn put_front(&mut self, i: usize, at: Option<usize>, c: Contact, now: u64)
        requires
            old(self).wf(),
            i < 256,
            spec_bucket_index(old(self)@.local, c.id@) == Some(i),
            match at {
                Some(j) => j < old(self)@.buckets[i as int].len() && (old(self)@.buckets[i as int][j as int].id@
                    == c.id@ || !holds(old(self)@.buckets[i as int], c.id@)),
                None => !holds(old(self)@.buckets[i as int], c.id@) && old(self)@.buckets[i as int].len()
                    < REPLICATION_PARAM,
            },
        ensures
            final(self).wf(),
            final(self)@ == with_bucket(
                old(self)@,
                i as int,
                seq![c] + (match at {
                    Some(j) => old(self)@.buckets[i as int].remove(j as int),
                    None => old(self)@.buckets[i as int],
                }),
                now,
            ),
    {
        let ghost t = self@;
        let ghost b = t.buckets[i as int];
        assert(bucket_ok(t.local, i as int, t.buckets[i as int]));
        match at {
            Some(j) => {
                proof {
                    lemma_bucket_remove(t.local, i as int, b, j as int);
                    if b[j as int].id@ != c.id@ {
                        let rest = b.remove(j as int);
                        if holds(rest, c.id@) {
                            let x = place(rest, c.id@);
                            let x0 = if x < j { x } else { x + 1 };
                            assert(b[x0].id@ == c.id@);
                        }
                    }
                }
                self.buckets[i].remove(j);
            },
            None => {},
        }
        let ghost rest = self.buckets@[i as int]@;
        proof {
            lemma_bucket_front(t.local, i as int, rest, c);
        }
        self.buckets[i].insert(0, c);
        self.touched[i] = now;
        proof {
            let goal = with_bucket(t, i as int, seq![c] + rest, now);
            assert(self@.buckets =~= goal.buckets);
            assert(self@.touched =~= goal.touched);
            assert forall|x: int| 0 <= x < 256 implies bucket_ok(
                self@.local,
                x,
                #[trigger] self@.buckets[x],
            ) by {
                if x != i {
                    assert(self@.buckets[x] == t.buckets[x]);
                }
            }
        }
    }

    /// Records that `contact` was seen at `now`. A contact with the local
    /// identifier is ignored. A known contact moves to the front of its
    /// bucket, a new one is put there if the bucket has room. If the bucket
    /// is full the table stays as it is and the bucket's least recently
    /// seen contact is handed out for a liveness check, to be followed by
    /// `settle`.
    pub fn observe(&mut self, contact: Contact, now: u64) -> (seen: Observation)
        requires
            old(self).wf(),
        ensures
            final(self).wf(),
            (final(self)@, seen) == spec_observe(old(self)@, contact, now),
    {
        let index = bucket_index(&self.local, &contact.id);
        match index {
            None => Observation::Ignored,
            Some(i) => {
                let ghost b = self@.buckets[i as int];
                assert(bucket_ok(self@.local, i as int, self@.buckets[i as int]));
                let found = bucket_position(&self.buckets[i], &contact.id);
                match found {
                    Some(j) => {
                        proof {
                            lemma_place(b, j as int);
                        }
                        self.put_front(i, Some(j), contact, now);
                        Observation::Refreshed
                    },
                    None => {
                        if self.buckets[i].len() < REPLICATION_PARAM {
                            self.put_front(i, None, contact, now);
                            Observation::Added
                        } else {
                            let last = self.buckets[i].len() - 1;
                            let stale = self.buckets[i][last];
                            Observation::Full(stale)
                        }
                    },
                }
            },
        }
    }

    /// Observes every contact of a list, first to last, and hands out the
    /// liveness checks that this asks for.
    pub fn observe_all(&mut self, contacts: &Vec<Contact>, now: u64) -> (checks: Vec<Check>)
        requires
            old(self).wf(),
        ensures
            final(self).wf(),
            (final(self)@, checks@) == observed_all(
                old(self)@,
                contacts@,
                contacts@.len() as int,
                now,
            ),
    {
        let mut checks: Vec<Check> = Vec::new();
        let mut i: usize = 0;
        while i < contacts.len()
            invariant
                i <= contacts@.len(),
                self.wf(),
                (self@, checks@) == observed_all(old(self)@, contacts@, i as int, now),
            decreases contacts@.len() - i,
        {
            let c = contacts[i];
            let seen = self.observe(c, now);
            match seen {
                Observation::Full(stale) => {
                    checks.push(Check { candidate: c, stale });
                },
                _ => {},
            }
            i += 1;
        }
        checks
    }

    /// Ends a liveness check that `observe` asked for. `alive` says whether
    /// the contact with the identifier `stale` answered a ping. If it did,
    /// it becomes the most recently seen of its bucket and `candidate` is
    /// discarded. If it did not, it is evicted and `candidate` takes the
    /// front of the bucket.
    pub fn settle(&mut self, candidate: Contact, stale: &Key, alive: bool, now: u64)
        requires
            old(self).wf(),
        ensures
            final(self).wf(),
            final(self)@ == spec_settle(old(self)@, candidate, stale@, alive, now),
    {
        let index = bucket_index(&self.local, &candidate.id);
        match index {
            None => {},
            Some(i) => {
                let ghost t = self@;
                let ghost b = self@.buckets[i as int];
                assert(bucket_ok(self@.local, i as int, self@.buckets[i as int]));
                let found = bucket_position(&self.buckets[i], stale);
                if alive {
                    match found {
                        Some(j) => {
                            let survivor = self.buckets[i][j];
                            proof {
                                lemma_place(b, j as int);
                            }
                            self.put_front(i, Some(j), survivor, now);
                        },
                        None => {},
                    }
                } else {
                    let ghost rest = match found {
                        Some(j) => b.remove(j as int),
                        None => b,
                    };
                    match found {
                        Some(j) => {
                            proof {
                                lemma_place(b, j as int);
                                lemma_bucket_remove(t.local, i as int, b, j as int);
                            }
                            self.buckets[i].remove(j);
                        },
                        None => {},
                    }
                    proof {
                        assert(self@.buckets =~= t.buckets.update(i as int, rest));
                        assert forall|x: int| 0 <= x < 256 implies bucket_ok(
                            self@.local,
                            x,
                            #[trigger] self@.buckets[x],
                        ) by {
                            if x != i {
                                assert(self@.buckets[x] == t.buckets[x]);
                            }
                        }
                    }
                    let again = bucket_position(&self.buckets[i], &candidate.id);
                    match again {
                        Some(j) => {
                            proof {
                                lemma_place(rest, j as int);
                            }
                            self.put_front(i, Some(j), candidate, now);
                            proof {
                                assert(self@.buckets =~= t.buckets.update(
                                    i as int,
                                    seen_first(rest, candidate),
                                ));
                            }
                        },
                        None => {
                            if self.buckets[i].len() < REPLICATION_PARAM {
                                self.put_front(i, None, candidate, now);
                                proof {
                                    assert(self@.buckets =~= t.buckets.update(
                                        i as int,
                                        seen_first(rest, candidate),
                                    ));
                                }
                            } else {
                                proof {
                                    assert(rest == b);
                                    assert(self@.buckets =~= t.buckets);
                                }
                            }
                        },
                    }
                }
            },
        }
    }

    /// Up to `count` contacts from all buckets, in ascending order of their
    /// distance to `target`: the `count` nearest that the table holds.
    pub fn closest(&self, target: &Key, count: usize) -> (near: Vec<Contact>)
        requires
            self.wf(),
        ensures
            is_closest(self@, target@, count as nat, near@),
            near@ == spec_closest(self@, target@, count as nat),
    {
        let mut best: Vec<Contact> = Vec::new();
        let mut i: usize = 0;
        while i < 256
            invariant
                self.wf(),
                i <= 256,
                partial_closest(self@, i as int, 0, target@, count as nat, best@),
            decreases 256 - i,
        {
            let mut j: usize = 0;
            while j < self.buckets[i].len()
                invariant
                    self.wf(),
                    i < 256,
                    j <= self.buckets@[i as int]@.len(),
                    partial_closest(self@, i as int, j as int, target@, count as nat, best@),
                decreases self.buckets@[i as int]@.len() - j,
            {
                let c = self.buckets[i][j];
                let ghost before = best@;
                proof {
                    assert(self@.buckets[i as int][j as int] == c);
                    assert forall|a: int| 0 <= a < before.len() implies spec_distance(
                        #[trigger] before[a].id@,
                        target@,
                    ) != spec_distance(c.id@, target@) by {
                        self.lemma_apart(i as int, j as int, before[a]);
                        if spec_distance(before[a].id@, target@) == spec_distance(c.id@, target@) {
                            lemma_distance_injective(before[a].id@, c.id@, target@);
                        }
                    }
                }
                merge_one(&mut best, c, target, count);
                proof {
                    let t = self@;
                    let after = best@;
                    assert forall|a: int| 0 <= a < after.len() implies came_before(
                        t,
                        i as int,
                        j + 1,
                        #[trigger] after[a],
                    ) by {
                        if after[a] == c {
                            assert(t.buckets[i as int][j as int] == c);
                        } else {
                            let x = after[a];
                            assert(listed(before, x));
                            let a0 = choose|a0: int| 0 <= a0 < before.len() && #[trigger] before[a0] == x;
                            assert(came_before(t, i as int, j as int, before[a0]));
                            let (bi, ci) = choose|bi: int, ci: int|
                                0 <= bi < t.buckets.len() && 0 <= ci < t.buckets[bi].len() && (bi < i
                                    || (bi == i && ci < j)) && #[trigger] t.buckets[bi][ci] == x;
                            assert(t.buckets[bi][ci] == x);
                        }
                    }
                    assert forall|x: Contact| #[trigger]
                        came_before(t, i as int, j + 1, x) implies listed(after, x) || (after.len()
                        == count && all_nearer(after, x, target@)) by {
                        let (bi, ci) = choose|bi: int, ci: int|
                            0 <= bi < t.buckets.len() && 0 <= ci < t.buckets[bi].len() && (bi < i || (
                            bi == i && ci < j + 1)) && #[trigger] t.buckets[bi][ci] == x;
                        if bi == i && ci == j {
                            assert(x == c);
                        } else {
                            assert(t.buckets[bi][ci] == x);
                            assert(came_before(t, i as int, j as int, x));
                            if listed(before, x) {
                            } else {
                                assert(before.len() == count && all_nearer(before, x, target@));
                                assert(after.len() == count);
                                assert forall|e: int| 0 <= e < after.len() implies spec_distance(
                                    #[trigger] after[e].id@,
                                    target@,
                                ) < spec_distance(x.id@, target@) by {
                                    if after[e] == c {
                                        // `c` displaced a contact of `before`, so it is
                                        // nearer than the farthest of `before`
                                        self.lemma_displaced(before, after, c, x, target@, e);
                                    } else {
                                        let e0 = choose|e0: int|
                                            0 <= e0 < before.len() && #[trigger] before[e0] == after[e];
                                        assert(spec_distance(before[e0].id@, target@)
                                            < spec_distance(x.id@, target@));
                                    }
                                }
                            }
                        }
                    }
                }
                j += 1;
            }
            proof {
                let t = self@;
                assert forall|x: Contact|
                    came_before(t, i as int, j as int, x) == came_before(t, i + 1, 0, x) by {
                    if came_before(t, i as int, j as int, x) {
                        let (bi, ci) = choose|bi: int, ci: int|
                            0 <= bi < t.buckets.len() && 0 <= ci < t.buckets[bi].len() && (bi < i || (
                            bi == i && ci < j)) && #[trigger] t.buckets[bi][ci] == x;
                        assert(t.buckets[bi][ci] == x);
                    }
                    if came_before(t, i + 1, 0, x) {
                        let (bi, ci) = choose|bi: int, ci: int|
                            0 <= bi < t.buckets.len() && 0 <= ci < t.buckets[bi].len() && (bi < i + 1
                                || (bi == i + 1 && ci < 0)) && #[trigger] t.buckets[bi][ci] == x;
                        assert(t.buckets[bi][ci] == x);
                    }
                }
            }
            proof {
                let t = self@;
                assert forall|a: int| 0 <= a < best@.len() implies came_before(
                    t,
                    i + 1,
                    0,
                    #[trigger] best@[a],
                ) by {
                    assert(came_before(t, i as int, j as int, best@[a]));
                }
                assert forall|c: Contact| #[trigger]
                    came_before(t, i + 1, 0, c) implies listed(best@, c) || (best@.len() == count
                    && all_nearer(best@, c, target@)) by {
                    assert(came_before(t, i as int, j as int, c));
                }
                assert(partial_closest(t, i + 1, 0, target@, count as nat, best@));
            }
            i += 1;
        }
        proof {
            let t = self@;
            assert forall|x: Contact| table_holds(t, x) == came_before(t, 256, 0, x) by {
                if table_holds(t, x) {
                    let (bi, ci) = choose|bi: int, ci: int|
                        0 <= bi < t.buckets.len() && 0 <= ci < t.buckets[bi].len()
                            && #[trigger] t.buckets[bi][ci] == x;
                    assert(t.buckets[bi][ci] == x);
                }
                if came_before(t, 256, 0, x) {
                    let (bi, ci) = choose|bi: int, ci: int|
                        0 <= bi < t.buckets.len() && 0 <= ci < t.buckets[bi].len() && (bi < 256 || (bi
                            == 256 && ci < 0)) && #[trigger] t.buckets[bi][ci] == x;
                    assert(t.buckets[bi][ci] == x);
                }
            }
        }
        proof {
            lemma_closest_unique(
                self@,
                target@,
                count as nat,
                best@,
                spec_closest(self@, target@, count as nat),
            );
        }
        best
    }

    /// A contact that came before position (`bi`, `ci`) has another
    /// identifier than the contact at that position.
    proof fn lemma_apart(&self, bi: int, ci: int, x: Contact)
        requires
            self.wf(),
            0 <= bi < 256,
            0 <= ci < self@.buckets[bi].len(),
            came_before(self@, bi, ci, x),
        ensures
            x.id@ != self@.buckets[bi][ci].id@,
            x.id@.len() == 32,
            self@.buckets[bi][ci].id@.len() == 32,
    {
        let t = self@;
        let (i, j) = choose|i: int, j: int|
            0 <= i < t.buckets.len() && 0 <= j < t.buckets[i].len() && (i < bi || (i == bi && j < ci))
                && #[trigger] t.buckets[i][j] == x;
        assert(bucket_ok(t.local, i, t.buckets[i]));
        assert(bucket_ok(t.local, bi, t.buckets[bi]));
        assert(spec_bucket_index(t.local, t.buckets[i][j].id@) == Some(i as usize));
        assert(spec_bucket_index(t.local, t.buckets[bi][ci].id@) == Some(bi as usize));
        if i == bi {
            assert(t.buckets[i][j].id@ != t.buckets[i][ci].id@);
        }
    }

    proof fn lemma_displaced(
        &self,
        before: Seq<Contact>,
        after: Seq<Contact>,
        c: Contact,
        x: Contact,
        target: Seq<u8>,
        e: int,
    )
        requires
            0 <= e < after.len(),
            after[e] == c,
            after.len() == before.len(),
            ascending(after, target),
            ascending(before, target),
            all_nearer(before, x, target),
            !listed(before, c),
            forall|a: int|
                0 <= a < after.len() ==> listed(before, #[trigger] after[a]) || after[a] == c,
            forall|y: Contact| #[trigger]
                listed(before, y) ==> listed(after, y) || all_nearer(after, y, target),
        ensures
            spec_distance(c.id@, target) < spec_distance(x.id@, target),
    {
        // Some contact of `before` is missing from `after`: all of `after`,
        // and so `c`, are nearer than it, and it is nearer than `x`.
        if forall|a: int| 0 <= a < before.len() ==> listed(after, #[trigger] before[a]) {
            lemma_same_list(before, after, target);
            assert(before[e] == c);
            assert(listed(before, c));
        } else {
            let a = choose|a: int| 0 <= a < before.len() && !listed(after, #[trigger] before[a]);
            assert(listed(before, before[a]));
            assert(all_nearer(after, before[a], target));
            assert(spec_distance(after[e].id@, target) < spec_distance(before[a].id@, target));
            assert(spec_distance(before[a].id@, target) < spec_distance(x.id@, target));
        }
    }

    /// No contact of the table bears the local identifier.
    pub proof fn lemma_no_self(&self, c: Contact)
        requires
            self.wf(),
            table_holds(self@, c),
        ensures
            c.id@ != self@.local,
    {
        let t = self@;
        let (i, j) = choose|i: int, j: int|
            0 <= i < t.buckets.len() && 0 <= j < t.buckets[i].len() && #[trigger] t.buckets[i][j]
                == c;
        assert(bucket_ok(t.local, i, t.buckets[i]));
        assert(spec_bucket_index(t.local, t.buckets[i][j].id@) == Some(i as usize));
    }

    /// An identifier that belongs to bucket `index`; see `key_in_bucket`.
    /// With random `noise` it serves to refresh the bucket by a lookup.
    pub fn random_key_in_bucket(&self, index: usize, noise: &Key) -> (key: Key)
        requires
            index < 256,
        ensures
            key@ == xor_bytes(self@.local, bucket_distance(noise@, index as int)),
            spec_bucket_index(self@.local, key@) == Some(index),
    {
        key_in_bucket(&self.local, index, noise)
    }

    /// The buckets that were not touched for longer than
    /// `BUCKET_REFRESH_INTERVAL` seconds before `now`, in ascending order.
    pub fn stale_buckets(&self, now: u64) -> (stale: Vec<usize>)
        requires
            self.wf(),
        ensures
            forall|a: int, b: int| 0 <= a < b < stale@.len() ==> stale@[a] < stale@[b],
            forall|a: int|
                0 <= a < stale@.len() ==> #[trigger] stale@[a] < 256 && is_stale(
                    self@.touched[stale@[a] as int],
                    now,
                ),
            forall|i: int|
                0 <= i < 256 && is_stale(#[trigger] self@.touched[i], now) ==> stale@.contains(
                    i as usize,
                ),
    {
        let mut stale: Vec<usize> = Vec::new();
        let mut i: usize = 0;
        while i < 256
            invariant
                self.wf(),
                i <= 256,
                forall|a: int, b: int| 0 <= a < b < stale@.len() ==> stale@[a] < stale@[b],
                forall|a: int|
                    0 <= a < stale@.len() ==> #[trigger] stale@[a] < i && is_stale(
                        self@.touched[stale@[a] as int],
                        now,
                    ),
                forall|x: int|
                    0 <= x < i && is_stale(#[trigger] self@.touched[x], now) ==> stale@.contains(
                        x as usize,
                    ),
            decreases 256 - i,
        {
            let at = self.touched[i];
            if now > at && now - at > BUCKET_REFRESH_INTERVAL {
                let ghost before = stale@;
                stale.push(i);
                proof {
                    assert forall|x: int|
                        0 <= x < i + 1 && is_stale(
                            #[trigger] self@.touched[x],
                            now,
                        ) implies stale@.contains(x as usize) by {
                        if x < i {
                            assert(before.contains(x as usize));
                            let a = choose|a: int| 0 <= a < before.len() && before[a] == x as usize;
                            assert(stale@[a] == x as usize);
                        } else {
                            assert(stale@[before.len() as int] == i);
                        }
                    }
                }
            }
            i += 1;
        }
        stale
    }

    /// Marks bucket `index` as touched at `now`, as after a refresh.
    pub fn touch(&mut self, index: usize, now: u64)
        requires
            old(self).wf(),
            index < 256,
        ensures
            final(self).wf(),
            final(self)@ == (TableView {
                touched: old(self)@.touched.update(index as int, now),
                ..old(self)@
            }),
    {
        let ghost t = self@;
        self.touched[index] = now;
        proof {
            assert(self@.buckets =~= t.buckets);
        }
    }
}

/// A sorted list that keeps every contact of another sorted list of its own
/// length is that list.
proof fn lemma_same_list(before: Seq<Contact>, after: Seq<Contact>, target: Seq<u8>)
    requires
        after.len() == before.len(),
        ascending(after, target),
        ascending(before, target),
        forall|a: int| 0 <= a < before.len() ==> listed(after, #[trigger] before[a]),
    ensures
        forall|a: int| 0 <= a < before.len() ==> #[trigger] after[a] == before[a],
{
    assert forall|a: int| 0 <= a < before.len() implies #[trigger] after[a] == before[a] by {
        lemma_rank(before, after, target, a);
        lemma_rank_upper(before, after, target, a);
        assert(listed(after, before[a]));
        let q = choose|q: int| 0 <= q < after.len() && #[trigger] after[q] == before[a];
        assert(q == a);
    }
}

/// The contact at place `a` of `before` sits at place `a` or earlier in
/// `after`, where the two have one length.
proof fn lemma_rank_upper(before: Seq<Contact>, after: Seq<Contact>, target: Seq<u8>, a: int)
    requires
        0 <= a < before.len(),
        after.len() == before.len(),
        ascending(after, target),
        ascending(before, target),
        forall|x: int| 0 <= x < before.len() ==> listed(after, #[trigger] before[x]),
    ensures
        forall|q: int| 0 <= q < after.len() && #[trigger] after[q] == before[a] ==> q <= a,
    decreases before.len() - a,
{
    if a < before.len() - 1 {
        lemma_rank_upper(before, after, target, a + 1);
        assert(listed(after, before[a + 1]));
        let q1 = choose|q1: int| 0 <= q1 < after.len() && #[trigger] after[q1] == before[a + 1];
        assert forall|q: int| 0 <= q < after.len() && #[trigger] after[q] == before[a] implies q
            <= a by {
            assert(spec_distance(before[a].id@, target) < spec_distance(before[a + 1].id@, target));
            if q > q1 {
                assert(spec_distance(after[q1].id@, target) < spec_distance(
                    after[q].id@,
                    target,
                ));
            }
        }
    }
}

/// Of two lists that `is_closest` admits, the first holds every contact of
/// the second.
proof fn lemma_closest_covers(
    t: TableView,
    target: Seq<u8>,
    count: nat,
    r1: Seq<Contact>,
    r2: Seq<Contact>,
)
    requires
        is_closest(t, target, count, r1),
        is_closest(t, target, count, r2),
    ensures
        forall|a: int| 0 <= a < r2.len() ==> listed(r1, #[trigger] r2[a]),
{
    assert forall|a: int| 0 <= a < r2.len() implies listed(r1, #[trigger] r2[a]) by {
        let x = r2[a];
        assert(table_holds(t, x));
        if !listed(r1, x) {
            assert(r1.len() == count && all_nearer(r1, x, target));
            assert forall|b: int| 0 <= b < r1.len() implies listed(r2, #[trigger] r1[b]) by {
                assert(table_holds(t, r1[b]));
                if !listed(r2, r1[b]) {
                    assert(all_nearer(r2, r1[b], target));
                    assert(spec_distance(r2[a].id@, target) < spec_distance(r1[b].id@, target));
                    assert(spec_distance(r1[b].id@, target) < spec_distance(x.id@, target));
                }
            }
            lemma_rank(r1, r2, target, count - 1);
            let last = r1[count - 1];
            assert(listed(r2, r1[count - 1]));
            let q = choose|q: int| 0 <= q < r2.len() && #[trigger] r2[q] == last;
            assert(q >= count - 1);
            assert(spec_distance(r1[count - 1].id@, target) < spec_distance(x.id@, target));
            if a < q {
                assert(spec_distance(r2[a].id@, target) < spec_distance(r2[q].id@, target));
            }
        }
    }
}

/// `is_closest` admits one list only.
pub proof fn lemma_closest_unique(
    t: TableView,
    target: Seq<u8>,
    count: nat,
    r1: Seq<Contact>,
    r2: Seq<Contact>,
)
    requires
        is_closest(t, target, count, r1),
    ensures
        is_closest(t, target, count, spec_closest(t, target, count)),
        is_closest(t, target, count, r2) ==> r1 == r2,
{
    if is_closest(t, target, count, r2) {
        lemma_closest_covers(t, target, count, r1, r2);
        lemma_closest_covers(t, target, count, r2, r1);
        if r1.len() > 0 {
            lemma_rank(r1, r2, target, r1.len() - 1);
            assert(listed(r2, r1[r1.len() - 1]));
        }
        if r2.len() > 0 {
            lemma_rank(r2, r1, target, r2.len() - 1);
            assert(listed(r1, r2[r2.len() - 1]));
        }
        lemma_same_list(r1, r2, target);
        assert(r1 =~= r2);
    }
}

/// The contact at place `a` of `before` sits at place `a` or later in
/// `after`.
proof fn lemma_rank(before: Seq<Contact>, after: Seq<Contact>, target: Seq<u8>, a: int)
    requires
        0 <= a < before.len(),
        ascending(after, target),
        ascending(before, target),
        forall|x: int| 0 <= x < before.len() ==> listed(after, #[trigger] before[x]),
    ensures
        forall|q: int| 0 <= q < after.len() && #[trigger] after[q] == before[a] ==> q >= a,
    decreases a,
{
    if a > 0 {
        lemma_rank(before, after, target, a - 1);
        assert(listed(after, before[a - 1]));
        let q0 = choose|q0: int| 0 <= q0 < after.len() && #[trigger] after[q0] == before[a - 1];
        assert forall|q: int| 0 <= q < after.len() && #[trigger] after[q] == before[a] implies q
            >= a by {
            assert(spec_distance(before[a - 1].id@, target) < spec_distance(before[a].id@, target));
            if q <= q0 {
                if q < q0 {
                    assert(spec_distance(after[q].id@, target) < spec_distance(
                        after[q0].id@,
                        target,
                    ));
                }
            }
        }
    }
}

/// No identifier is held at two places of a well-formed table.
pub proof fn lemma_one_place(t: TableView, i: int, j: int, k: int, l: int)
    requires
        table_wf(t),
        0 <= i < 256,
        0 <= k < 256,
        0 <= j < t.buckets[i].len(),
        0 <= l < t.buckets[k].len(),
        t.buckets[i][j].id@ == t.buckets[k][l].id@,
    ensures
        i == k && j == l,
        t.buckets[i].len() <= REPLICATION_PARAM,
        spec_bucket_index(t.local, t.buckets[i][j].id@) == Some(i as usize),
        t.buckets[i][j].id@ != t.local,
{
    assert(bucket_ok(t.local, i, t.buckets[i]));
    assert(bucket_ok(t.local, k, t.buckets[k]));
    assert(spec_bucket_index(t.local, t.buckets[i][j].id@) == Some(i as usize));
    assert(spec_bucket_index(t.local, t.buckets[k][l].id@) == Some(k as usize));
    if j < l {
        assert(t.buckets[i][j].id@ != t.buckets[i][l].id@);
    } else if l < j {
        assert(t.buckets[i][l].id@ != t.buckets[i][j].id@);
    }
}

} // verus!
