//! The records that a node keeps, each with the time of its insertion.
//!
//! Time is a count of seconds that the caller reads from its clock and
//! hands in; the store never reads a clock itself.

use vstd::prelude::*;
use crate::key::Key;
use crate::KEY_EXPIRATION;

verus! {

/// A stored record.
pub struct Record {
    pub key: Key,
    pub value: Vec<u8>,
    pub inserted_at: u64,
}

/// What the store holds under one key: the value and the time, in seconds,
/// at which it was put.
pub struct Stored {
    pub value: Seq<u8>,
    pub inserted_at: u64,
}

/// A record is expired once `KEY_EXPIRATION` seconds have passed since its
/// insertion.
pub open spec fn expired(inserted_at: u64, now: u64) -> bool {
    now - inserted_at >= KEY_EXPIRATION
}

/// The records of `m` that are not expired at `now`.
pub open spec fn live_part(m: Map<Seq<u8>, Stored>, now: u64) -> Map<Seq<u8>, Stored> {
    Map::new(|k: Seq<u8>| m.contains_key(k) && !expired(m[k].inserted_at, now), |k: Seq<u8>| m[k])
}

/// The store after `put`.
pub open spec fn spec_put(m: Map<Seq<u8>, Stored>, key: Seq<u8>, value: Seq<u8>, now: u64) -> Map<
    Seq<u8>,
    Stored,
> {
    m.insert(key, Stored { value, inserted_at: now })
}

/// What `get` returns.
pub open spec fn spec_get(m: Map<Seq<u8>, Stored>, key: Seq<u8>, now: u64) -> Option<Seq<u8>> {
    if m.contains_key(key) && !expired(m[key].inserted_at, now) {
        Some(m[key].value)
    } else {
        None
    }
}

spec fn has_key(rs: Seq<Record>, k: Seq<u8>) -> bool {
    exists|i: int| 0 <= i < rs.len() && #[trigger] rs[i].key@ == k
}

spec fn index_of(rs: Seq<Record>, k: Seq<u8>) -> int {
    choose|i: int| 0 <= i < rs.len() && #[trigger] rs[i].key@ == k
}

spec fn distinct_keys(rs: Seq<Record>) -> bool {
    forall|i: int, j: int| 0 <= i < j < rs.len() ==> #[trigger] rs[i].key@ != #[trigger] rs[j].key@
}

spec fn stored(r: Record) -> Stored {
    Stored { value: r.value@, inserted_at: r.inserted_at }
}

spec fn records_view(rs: Seq<Record>) -> Map<Seq<u8>, Stored> {
    Map::new(|k: Seq<u8>| has_key(rs, k), |k: Seq<u8>| stored(rs[index_of(rs, k)]))
}

proof fn lemma_records_view(rs: Seq<Record>)
    requires
        distinct_keys(rs),
    ensures
        forall|i: int|
            0 <= i < rs.len() ==> records_view(rs).contains_key(#[trigger] rs[i].key@)
                && records_view(rs)[rs[i].key@] == stored(rs[i]),
        forall|k: Seq<u8>| #[trigger]
            records_view(rs).contains_key(k) ==> 0 <= index_of(rs, k) < rs.len() && rs[index_of(
                rs,
                k,
            )].key@ == k,
{
    assert forall|i: int| 0 <= i < rs.len() implies records_view(rs).contains_key(
        #[trigger] rs[i].key@,
    ) && records_view(rs)[rs[i].key@] == stored(rs[i]) by {
        let k = rs[i].key@;
        assert(has_key(rs, k));
        let j = index_of(rs, k);
        assert(rs[j].key@ == k);
        if j < i {
            assert(rs[j].key@ != rs[i].key@);
        } else if i < j {
            assert(rs[i].key@ != rs[j].key@);
        }
    }
}

proof fn lemma_view_push(rs: Seq<Record>, r: Record)
    requires
        distinct_keys(rs),
        !has_key(rs, r.key@),
    ensures
        distinct_keys(rs.push(r)),
        records_view(rs.push(r)) == records_view(rs).insert(r.key@, stored(r)),
{
    let after = rs.push(r);
    assert forall|i: int, j: int| 0 <= i < j < after.len() implies #[trigger] after[i].key@
        != #[trigger] after[j].key@ by {
        if j == rs.len() {
            assert(rs[i].key@ == after[i].key@);
        } else {
            assert(rs[i].key@ != rs[j].key@);
        }
    }
    lemma_records_view(rs);
    lemma_records_view(after);
    let expect = records_view(rs).insert(r.key@, stored(r));
    assert forall|k: Seq<u8>| records_view(after).contains_key(k) == expect.contains_key(k) by {
        if records_view(after).contains_key(k) {
            let i = index_of(after, k);
            if i < rs.len() {
                assert(rs[i].key@ == k);
            }
        }
        if expect.contains_key(k) {
            if k == r.key@ {
                assert(after[rs.len() as int].key@ == k);
            } else {
                let i = index_of(rs, k);
                assert(after[i].key@ == k);
            }
        }
    }
    assert forall|k: Seq<u8>| records_view(after).contains_key(k) implies records_view(after)[k]
        == expect[k] by {
        let i = index_of(after, k);
        assert(after[i].key@ == k);
        if i < rs.len() {
            assert(rs[i].key@ == k);
        }
    }
    assert(records_view(after) =~= expect);
}

proof fn lemma_view_remove(rs: Seq<Record>, at: int)
    requires
        distinct_keys(rs),
        0 <= at < rs.len(),
    ensures
        distinct_keys(rs.remove(at)),
        !has_key(rs.remove(at), rs[at].key@),
        records_view(rs.remove(at)) == records_view(rs).remove(rs[at].key@),
{
    let after = rs.remove(at);
    assert forall|i: int| 0 <= i < after.len() implies #[trigger] after[i] == rs[if i < at {
        i
    } else {
        i + 1
    }] by {}
    assert forall|i: int, j: int| 0 <= i < j < after.len() implies #[trigger] after[i].key@
        != #[trigger] after[j].key@ by {
        let i0 = if i < at { i } else { i + 1 };
        let j0 = if j < at { j } else { j + 1 };
        assert(rs[i0].key@ != rs[j0].key@);
    }
    assert(!has_key(after, rs[at].key@)) by {
        if has_key(after, rs[at].key@) {
            let i = index_of(after, rs[at].key@);
            let i0 = if i < at { i } else { i + 1 };
            assert(after[i].key@ == rs[at].key@);
            if i0 < at {
                assert(rs[i0].key@ != rs[at].key@);
            } else {
                assert(rs[at].key@ != rs[i0].key@);
            }
        }
    }
    lemma_records_view(rs);
    lemma_records_view(after);
    let expect = records_view(rs).remove(rs[at].key@);
    assert forall|k: Seq<u8>| records_view(after).contains_key(k) == expect.contains_key(k) by {
        if records_view(after).contains_key(k) {
            let i = index_of(after, k);
            let i0 = if i < at { i } else { i + 1 };
            assert(rs[i0].key@ == k);
        }
        if expect.contains_key(k) {
            let i = index_of(rs, k);
            assert(rs[i].key@ == k);
            let i1 = if i < at { i } else { i - 1 };
            assert(after[i1].key@ == k);
        }
    }
    assert forall|k: Seq<u8>| records_view(after).contains_key(k) implies records_view(after)[k]
        == expect[k] by {
        let i = index_of(after, k);
        let i0 = if i < at { i } else { i + 1 };
        assert(rs[i0].key@ == k);
    }
    assert(records_view(after) =~= expect);
}

/// A copy of a byte vector.
pub fn copy_bytes(bytes: &Vec<u8>) -> (copy: Vec<u8>)
    ensures
        copy@ == bytes@,
{
    let mut copy: Vec<u8> = Vec::new();
    let mut i: usize = 0;
    while i < bytes.len()
        invariant
            i <= bytes.len(),
            copy@ == bytes@.take(i as int),
        decreases bytes.len() - i,
    {
        copy.push(bytes[i]);
        assert(copy@ =~= bytes@.take(i + 1));
        i += 1;
    }
    assert(bytes@.take(bytes.len() as int) =~= bytes@);
    copy
}

/// The key-value table of one node.
pub struct Storage {
    records: Vec<Record>,
}

impl View for Storage {
    type V = Map<Seq<u8>, Stored>;

    closed spec fn view(&self) -> Map<Seq<u8>, Stored> {
        records_view(self.records@)
    }
}

impl Storage {
    /// No key is held twice.
    pub closed spec fn wf(&self) -> bool {
        distinct_keys(self.records@)
    }

    /// An empty store.
    pub fn new() -> (s: Storage)
        ensures
            s.wf(),
            s@ == Map::<Seq<u8>, Stored>::empty(),
    {
        let s = Storage { records: Vec::new() };
        assert(s@ =~= Map::<Seq<u8>, Stored>::empty());
        s
    }

    /// The number of records held, expired ones included.
    pub fn len(&self) -> (n: usize)
        requires
            self.wf(),
        ensures
            n == self@.dom().len(),
            self@.dom().finite(),
    {
        proof {
            lemma_domain_size(self.records@);
        }
        self.records.len()
    }

    fn position(&self, key: &Key) -> (at: Option<usize>)
        requires
            self.wf(),
        ensures
            match at {
                Some(i) => i < self.records@.len() && self.records@[i as int].key@ == key@,
                None => !has_key(self.records@, key@),
            },
    {
        let mut i: usize = 0;
        while i < self.records.len()
            invariant
                i <= self.records.len(),
                forall|j: int| 0 <= j < i ==> self.records@[j].key@ != key@,
            decreases self.records.len() - i,
        {
            if self.records[i].key.equals(key) {
                return Some(i);
            }
            i += 1;
        }
        None
    }

    /// Inserts a record, or overwrites the one held under `key`; either way
    /// the record's insertion time is `now`.
    pub fn put(&mut self, key: Key, value: Vec<u8>, now: u64)
        requires
            old(self).wf(),
        ensures
            final(self).wf(),
            final(self)@ == spec_put(old(self)@, key@, value@, now),
    {
        let found = self.position(&key);
        let ghost before = self.records@;
        match found {
            Some(i) => {
                proof {
                    lemma_view_remove(before, i as int);
                }
                self.records.remove(i);
            },
            None => {},
        }
        let ghost middle = self.records@;
        let record = Record { key, value, inserted_at: now };
        proof {
            lemma_view_push(middle, record);
            assert(records_view(before).remove(key@).insert(key@, stored(record)) =~= records_view(
                before,
            ).insert(key@, stored(record)));
            if found is None {
                lemma_records_view(before);
                assert(records_view(before).remove(key@) =~= records_view(before));
            }
        }
        self.records.push(record);
    }

    /// Removes every record that is expired at `now`.
    pub fn sweep_expired(&mut self, now: u64)
        requires
            old(self).wf(),
        ensures
            final(self).wf(),
            final(self)@ == live_part(old(self)@, now),
    {
        let mut i: usize = 0;
        while i < self.records.len()
            invariant
                self.wf(),
                i <= self.records.len(),
                forall|j: int| 0 <= j < i ==> !expired(self.records@[j].inserted_at, now),
                live_part(self@, now) == live_part(old(self)@, now),
            decreases self.records.len() - i,
        {
            let at = self.records[i].inserted_at;
            if now >= at && now - at >= KEY_EXPIRATION {
                let ghost before = self.records@;
                proof {
                    lemma_view_remove(before, i as int);
                    lemma_records_view(before);
                    assert(live_part(records_view(before).remove(before[i as int].key@), now)
                        =~= live_part(records_view(before), now));
                }
                self.records.remove(i);
            } else {
                i += 1;
            }
        }
        proof {
            lemma_records_view(self.records@);
            assert(live_part(self@, now) =~= self@);
        }
    }

    /// The value held under `key`, unless there is none or the record is
    /// expired at `now`. Expired records are purged on the way.
    pub fn get(&mut self, key: &Key, now: u64) -> (value: Option<Vec<u8>>)
        requires
            old(self).wf(),
        ensures
            final(self).wf(),
            final(self)@ == live_part(old(self)@, now),
            match value {
                Some(v) => spec_get(old(self)@, key@, now) == Some(v@),
                None => spec_get(old(self)@, key@, now) is None,
            },
    {
        self.sweep_expired(now);
        proof {
            lemma_records_view(self.records@);
        }
        let found = self.position(key);
        match found {
            Some(i) => {
                let value = copy_bytes(&self.records[i].value);
                proof {
                    let r = self.records@[i as int];
                    assert(self@.contains_key(r.key@) && self@[r.key@] == stored(r));
                    assert(live_part(old(self)@, now)[key@] == old(self)@[key@]);
                }
                Some(value)
            },
            None => {
                assert(!self@.contains_key(key@));
                None
            },
        }
    }
}

proof fn lemma_domain_size(rs: Seq<Record>)
    requires
        distinct_keys(rs),
    ensures
        records_view(rs).dom().finite(),
        records_view(rs).dom().len() == rs.len(),
    decreases rs.len(),
{
    if rs.len() == 0 {
        assert(records_view(rs).dom() =~= Set::<Seq<u8>>::empty());
    } else {
        let last = rs.len() - 1;
        lemma_view_remove(rs, last);
        lemma_domain_size(rs.remove(last));
        lemma_records_view(rs);
        assert(rs.remove(last) =~= rs.drop_last());
        assert(records_view(rs).dom() =~= records_view(rs.remove(last)).dom().insert(
            rs[last].key@,
        ));
    }
}

/// A record put at time `then` is read back at every later time before its
/// lifetime has passed, and is absent from then on.
pub proof fn lemma_record_lifetime(
    m: Map<Seq<u8>, Stored>,
    key: Seq<u8>,
    value: Seq<u8>,
    then: u64,
    now: u64,
)
    requires
        then <= now,
    ensures
        now < then + KEY_EXPIRATION ==> spec_get(spec_put(m, key, value, then), key, now) == Some(
            value,
        ),
        now >= then + KEY_EXPIRATION ==> spec_get(spec_put(m, key, value, then), key, now) is None,
{
}

} // verus!
