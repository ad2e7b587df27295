//! The iterative lookup, as a state machine.
//!
//! A lookup keeps the candidates it knows in ascending order of distance to
//! its target. The caller drives it in rounds: `next_round` names the peers
//! to ask, the caller asks them and folds each answer or timeout back in,
//! and `end_round` decides whether the search has converged.

use vstd::prelude::*;
use crate::key::{Key, spec_distance, distance, closer, lemma_distance_injective};
use crate::routing::{Contact, RoutingTable, TableView, ascending, spec_closest};
use crate::storage::copy_bytes;
use crate::{REPLICATION_PARAM, CONCURRENCY_PARAM, ROUTING_TABLE_SIZE};

verus! {

/// What a lookup knows of a candidate.
#[derive(Clone, Copy, Debug, PartialEq, Eq, Structural)]
pub enum Mark {
    /// Not asked yet.
    Unqueried,
    /// Asked in the current round, no answer yet.
    Asked,
    /// Answered with contacts.
    Replied,
    /// Did not answer in time.
    Failed,
    /// Answered with the value.
    Holder,
}

/// A peer that a lookup may ask.
#[derive(Clone, Copy, Debug, PartialEq, Eq)]
pub struct Candidate {
    pub contact: Contact,
    pub mark: Mark,
}

/// The state of one lookup.
pub struct Lookup {
    /// The identifier of the node that runs the lookup.
    pub local: Key,
    /// The identifier that is looked for.
    pub target: Key,
    /// Whether a value ends the lookup.
    pub want_value: bool,
    /// The candidates, nearest to the target first.
    pub candidates: Vec<Candidate>,
    /// The distance of the nearest candidate known when the current round
    /// began; none where no candidate was known.
    pub closest_seen: Option<Key>,
    /// The number of rounds begun.
    pub rounds: usize,
    /// The value, once a peer has answered with it.
    pub found: Option<Vec<u8>>,
    /// Whether the lookup has ended.
    pub finished: bool,
}

/// The distance of a candidate to the target.
pub open spec fn gap(c: Candidate, target: Seq<u8>) -> nat {
    spec_distance(c.contact.id@, target)
}

/// Whether the candidates are in strictly ascending order of distance.
pub open spec fn sorted(cs: Seq<Candidate>, target: Seq<u8>) -> bool {
    forall|a: int, b: int|
        0 <= a < b < cs.len() ==> gap(#[trigger] cs[a], target) < gap(#[trigger] cs[b], target)
}

/// Whether a candidate bears the identifier `id`.
pub open spec fn has_id(cs: Seq<Candidate>, id: Seq<u8>) -> bool {
    exists|i: int| 0 <= i < cs.len() && (#[trigger] cs[i]).contact.id@ == id
}

/// Whether the candidate with the identifier `id` was asked and has not
/// answered yet.
pub open spec fn awaited(cs: Seq<Candidate>, id: Seq<u8>) -> bool {
    exists|i: int|
        0 <= i < cs.len() && (#[trigger] cs[i]).contact.id@ == id && cs[i].mark == Mark::Asked
}

/// The number of unqueried candidates among the first `n`.
pub open spec fn unqueried_before(cs: Seq<Candidate>, n: int) -> nat
    decreases n,
{
    if n <= 0 {
        0
    } else {
        unqueried_before(cs, n - 1) + if cs[n - 1].mark == Mark::Unqueried {
            1nat
        } else {
            0nat
        }
    }
}

/// Whether candidate `i` is asked in the next round: it is unqueried and
/// fewer than `CONCURRENCY_PARAM` unqueried candidates are nearer.
pub open spec fn selected(cs: Seq<Candidate>, i: int) -> bool {
    cs[i].mark == Mark::Unqueried && unqueried_before(cs, i) < CONCURRENCY_PARAM
}

/// The contacts of the selected among the first `n` candidates, nearest
/// first.
pub open spec fn picked(cs: Seq<Candidate>, n: int) -> Seq<Contact>
    decreases n,
{
    if n <= 0 {
        Seq::<Contact>::empty()
    } else if selected(cs, n - 1) {
        picked(cs, n - 1).push(cs[n - 1].contact)
    } else {
        picked(cs, n - 1)
    }
}

/// The candidates after the selected ones were marked as asked.
pub open spec fn with_asked(cs: Seq<Candidate>) -> Seq<Candidate> {
    Seq::new(
        cs.len(),
        |i: int|
            if selected(cs, i) {
                Candidate { contact: cs[i].contact, mark: Mark::Asked }
            } else {
                cs[i]
            },
    )
}

/// The candidates with every candidate that bears `id` marked `mark`.
pub open spec fn with_mark(cs: Seq<Candidate>, id: Seq<u8>, mark: Mark) -> Seq<Candidate> {
    Seq::new(
        cs.len(),
        |i: int|
            if cs[i].contact.id@ == id {
                Candidate { contact: cs[i].contact, mark }
            } else {
                cs[i]
            },
    )
}

/// The candidates with every asked one marked as failed.
pub open spec fn with_timeouts(cs: Seq<Candidate>) -> Seq<Candidate> {
    Seq::new(
        cs.len(),
        |i: int|
            if cs[i].mark == Mark::Asked {
                Candidate { contact: cs[i].contact, mark: Mark::Failed }
            } else {
                cs[i]
            },
    )
}

/// The place of a new candidate at distance `d`: after the last candidate
/// that is nearer.
pub open spec fn rank(cs: Seq<Candidate>, d: nat, target: Seq<u8>) -> int
    decreases cs.len(),
{
    if cs.len() == 0 {
        0
    } else if gap(cs.last(), target) < d {
        cs.len() as int
    } else {
        rank(cs.drop_last(), d, target)
    }
}

/// The candidates after the contact `c` was learned: a contact that bears
/// the local identifier or that of a candidate changes nothing, another
/// becomes an unqueried candidate at its place by distance.
pub open spec fn merged(cs: Seq<Candidate>, c: Contact, local: Seq<u8>, target: Seq<u8>) -> Seq<
    Candidate,
> {
    if c.id@ == local || has_id(cs, c.id@) {
        cs
    } else {
        cs.insert(
            rank(cs, spec_distance(c.id@, target), target),
            Candidate { contact: c, mark: Mark::Unqueried },
        )
    }
}

/// The candidates after the first `n` of `learned` were merged in, one
/// after the other.
pub open spec fn merged_all(
    cs: Seq<Candidate>,
    learned: Seq<Contact>,
    n: int,
    local: Seq<u8>,
    target: Seq<u8>,
) -> Seq<Candidate>
    decreases n,
{
    if n <= 0 {
        cs
    } else {
        merged(merged_all(cs, learned, n - 1, local, target), learned[n - 1], local, target)
    }
}

/// The contacts of those among the first `n` candidates that did not fail.
pub open spec fn alive(cs: Seq<Candidate>, n: int) -> Seq<Contact>
    decreases n,
{
    if n <= 0 {
        Seq::<Contact>::empty()
    } else if cs[n - 1].mark == Mark::Failed {
        alive(cs, n - 1)
    } else {
        alive(cs, n - 1).push(cs[n - 1].contact)
    }
}

/// What a lookup without a value returns: the `REPLICATION_PARAM` nearest
/// candidates that did not fail, or all of them where there are fewer.
pub open spec fn nearest_alive(cs: Seq<Candidate>) -> Seq<Contact> {
    let all = alive(cs, cs.len() as int);
    if all.len() <= REPLICATION_PARAM {
        all
    } else {
        all.take(REPLICATION_PARAM as int)
    }
}

/// The candidate that a found value is cached at, among the first `n`: the
/// nearest that answered without the value.
pub open spec fn first_replied(cs: Seq<Candidate>, n: int) -> Option<Contact>
    decreases n,
{
    if n <= 0 {
        None
    } else {
        match first_replied(cs, n - 1) {
            Some(c) => Some(c),
            None => if cs[n - 1].mark == Mark::Replied {
                Some(cs[n - 1].contact)
            } else {
                None
            },
        }
    }
}

/// A lookup as plain values.
pub struct LookupView {
    pub local: Seq<u8>,
    pub target: Seq<u8>,
    pub want_value: bool,
    pub candidates: Seq<Candidate>,
    pub seen: Option<nat>,
    pub rounds: nat,
    pub found: Option<Seq<u8>>,
    pub finished: bool,
}

/// The contacts `near` as unqueried candidates.
pub open spec fn fresh(near: Seq<Contact>) -> Seq<Candidate> {
    Seq::new(near.len(), |i: int| Candidate { contact: near[i], mark: Mark::Unqueried })
}

/// The lookup that `start` begins.
pub open spec fn lv_start(t: TableView, target: Seq<u8>, want_value: bool) -> LookupView {
    let near = spec_closest(t, target, REPLICATION_PARAM as nat);
    LookupView {
        local: t.local,
        target,
        want_value,
        candidates: fresh(near),
        seen: if near.len() > 0 {
            Some(spec_distance(near[0].id@, target))
        } else {
            None
        },
        rounds: 0,
        found: None,
        finished: false,
    }
}

/// The peers that the next round asks.
pub open spec fn lv_asks(l: LookupView) -> Seq<Contact> {
    picked(l.candidates, l.candidates.len() as int)
}

/// The lookup after `next_round`.
pub open spec fn lv_next_round(l: LookupView) -> LookupView {
    LookupView { candidates: with_asked(l.candidates), rounds: l.rounds + 1, ..l }
}

/// Whether an answer or a timeout of the peer `from` is awaited.
pub open spec fn lv_awaits(l: LookupView, from: Seq<u8>) -> bool {
    !l.finished && awaited(l.candidates, from)
}

/// The lookup after `fold_reply`.
pub open spec fn lv_reply(l: LookupView, from: Seq<u8>, learned: Seq<Contact>) -> LookupView {
    if lv_awaits(l, from) {
        LookupView {
            candidates: merged_all(
                with_mark(l.candidates, from, Mark::Replied),
                learned,
                learned.len() as int,
                l.local,
                l.target,
            ),
            ..l
        }
    } else {
        l
    }
}

/// The lookup after `fold_value`.
pub open spec fn lv_value(l: LookupView, from: Seq<u8>, value: Seq<u8>) -> LookupView {
    if lv_awaits(l, from) {
        LookupView {
            candidates: with_mark(l.candidates, from, Mark::Holder),
            found: Some(value),
            finished: true,
            ..l
        }
    } else {
        l
    }
}

/// The lookup after `fold_timeout`.
pub open spec fn lv_timeout(l: LookupView, from: Seq<u8>) -> LookupView {
    if lv_awaits(l, from) {
        LookupView { candidates: with_mark(l.candidates, from, Mark::Failed), ..l }
    } else {
        l
    }
}

/// Whether `end_round` lets the lookup go on.
pub open spec fn lv_goes_on(l: LookupView) -> bool {
    &&& !l.finished
    &&& l.rounds < ROUTING_TABLE_SIZE
    &&& l.candidates.len() > 0
    &&& match l.seen {
        Some(d) => gap(l.candidates[0], l.target) < d,
        None => true,
    }
}

/// The lookup after `end_round`.
pub open spec fn lv_end_round(l: LookupView) -> LookupView {
    if l.finished {
        l
    } else if lv_goes_on(l) {
        LookupView {
            candidates: with_timeouts(l.candidates),
            seen: Some(gap(l.candidates[0], l.target)),
            ..l
        }
    } else {
        LookupView { candidates: with_timeouts(l.candidates), finished: true, ..l }
    }
}

impl View for Lookup {
    type V = LookupView;

    open spec fn view(&self) -> LookupView {
        LookupView {
            local: self.local@,
            target: self.target@,
            want_value: self.want_value,
            candidates: self.candidates@,
            seen: self.seen(),
            rounds: self.rounds as nat,
            found: self.found_value(),
            finished: self.finished,
        }
    }
}

proof fn lemma_alive_grows(cs: Seq<Candidate>, n: int, m: int)
    requires
        0 <= n <= m <= cs.len(),
    ensures
        alive(cs, n).len() <= alive(cs, m).len(),
        alive(cs, m).take(alive(cs, n).len() as int) == alive(cs, n),
        alive(cs, n).len() <= n,
    decreases m - n,
{
    if n < m {
        lemma_alive_grows(cs, n, m - 1);
        assert(alive(cs, m).take(alive(cs, n).len() as int) =~= alive(cs, m - 1).take(
            alive(cs, n).len() as int,
        ));
    } else {
        assert(alive(cs, m).take(alive(cs, n).len() as int) =~= alive(cs, n));
        lemma_alive_short(cs, n);
    }
}

/// Of sorted candidates, those that did not fail are in ascending order of
/// distance, and nearer than every candidate after the first `n`.
proof fn lemma_alive_ascending(cs: Seq<Candidate>, target: Seq<u8>, n: int)
    requires
        sorted(cs, target),
        0 <= n <= cs.len(),
    ensures
        ascending(alive(cs, n), target),
        forall|a: int, m: int|
            0 <= a < alive(cs, n).len() && n <= m < cs.len() ==> spec_distance(
                (#[trigger] alive(cs, n)[a]).id@,
                target,
            ) < gap(#[trigger] cs[m], target),
    decreases n,
{
    if n > 0 {
        lemma_alive_ascending(cs, target, n - 1);
        let before = alive(cs, n - 1);
        let now = alive(cs, n);
        assert forall|a: int, m: int| 0 <= a < now.len() && n <= m < cs.len() implies spec_distance(
            (#[trigger] now[a]).id@,
            target,
        ) < gap(#[trigger] cs[m], target) by {
            if a < before.len() {
                assert(now[a] == before[a]);
            } else {
                assert(gap(cs[n - 1], target) < gap(cs[m], target));
            }
        }
        assert forall|a: int, b: int| 0 <= a < b < now.len() implies spec_distance(
            #[trigger] now[a].id@,
            target,
        ) < spec_distance(#[trigger] now[b].id@, target) by {
            assert(now[a] == before[a]);
            if b < before.len() {
                assert(now[b] == before[b]);
            } else {
                assert(spec_distance(before[a].id@, target) < gap(cs[n - 1], target));
            }
        }
    }
}

proof fn lemma_alive_short(cs: Seq<Candidate>, n: int)
    requires
        0 <= n <= cs.len(),
    ensures
        alive(cs, n).len() <= n,
    decreases n,
{
    if n > 0 {
        lemma_alive_short(cs, n - 1);
    }
}

impl Lookup {
    /// The invariant: the candidates are in strictly ascending order of
    /// distance to the target, none bears the local identifier, and no more
    /// rounds were begun than an identifier has bits.
    pub open spec fn wf(&self) -> bool {
        &&& sorted(self.candidates@, self.target@)
        &&& !has_id(self.candidates@, self.local@)
        &&& self.rounds <= ROUTING_TABLE_SIZE
    }

    /// The value of `closest_seen`.
    pub open spec fn seen(&self) -> Option<nat> {
        match self.closest_seen {
            Some(d) => Some(d.value()),
            None => None,
        }
    }

    /// The value that was found.
    pub open spec fn found_value(&self) -> Option<Seq<u8>> {
        match self.found {
            Some(v) => Some(v@),
            None => None,
        }
    }

    /// Begins a lookup for `target`: the candidates are the
    /// `REPLICATION_PARAM` contacts of the table that are nearest to it, all
    /// unqueried.
    pub fn start(table: &RoutingTable, target: Key, want_value: bool) -> (lookup: Lookup)
        requires
            table.wf(),
        ensures
            lookup.wf(),
            lookup@ == lv_start(table@, target@, want_value),
            lookup.target == target,
    {
        let near = table.closest(&target, REPLICATION_PARAM);
        let mut candidates: Vec<Candidate> = Vec::new();
        let mut i: usize = 0;
        while i < near.len()
            invariant
                i <= near.len(),
                candidates@.len() == i,
                forall|j: int|
                    0 <= j < i ==> #[trigger] candidates@[j] == (Candidate {
                        contact: near@[j],
                        mark: Mark::Unqueried,
                    }),
            decreases near.len() - i,
        {
            candidates.push(Candidate { contact: near[i], mark: Mark::Unqueried });
            i += 1;
        }
        let closest_seen = if near.len() > 0 {
            Some(distance(&near[0].id, &target))
        } else {
            None
        };
        let local = table.local();
        proof {
            assert(candidates@ =~= fresh(near@));
            assert forall|a: int, b: int| 0 <= a < b < candidates@.len() implies gap(
                #[trigger] candidates@[a],
                target@,
            ) < gap(#[trigger] candidates@[b], target@) by {
                assert(candidates@[a].contact == near@[a]);
                assert(candidates@[b].contact == near@[b]);
                assert(spec_distance(near@[a].id@, target@) < spec_distance(near@[b].id@, target@));
            }
            if has_id(candidates@, local@) {
                let i = choose|i: int|
                    0 <= i < candidates@.len() && (#[trigger] candidates@[i]).contact.id@ == local@;
                assert(candidates@[i].contact == near@[i]);
                table.lemma_no_self(near@[i]);
            }
        }
        Lookup {
            local,
            target,
            want_value,
            candidates,
            closest_seen,
            rounds: 0,
            found: None,
            finished: false,
        }
    }

    /// Begins a round: the `CONCURRENCY_PARAM` nearest unqueried candidates,
    /// or all where there are fewer, are marked as asked and handed out,
    /// nearest first. The caller asks each of them and folds what comes
    /// back, then calls `end_round`.
    pub fn next_round(&mut self) -> (ask: Vec<Contact>)
        requires
            old(self).wf(),
            old(self).rounds < ROUTING_TABLE_SIZE,
        ensures
            final(self).wf(),
            final(self)@ == lv_next_round(old(self)@),
            ask@ == lv_asks(old(self)@),
            ask@.len() <= CONCURRENCY_PARAM,
            final(self).local == old(self).local,
            final(self).target == old(self).target,
    {
        let ghost before = self.candidates@;
        let mut ask: Vec<Contact> = Vec::new();
        let mut i: usize = 0;
        while i < self.candidates.len()
            invariant
                i <= self.candidates@.len(),
                self.candidates@.len() == before.len(),
                ask@ == picked(before, i as int),
                ask@.len() == if unqueried_before(before, i as int) < CONCURRENCY_PARAM {
                    unqueried_before(before, i as int)
                } else {
                    CONCURRENCY_PARAM as nat
                },
                forall|j: int| 0 <= j < i ==> #[trigger] self.candidates@[j] == with_asked(before)[j],
                forall|j: int| i <= j < before.len() ==> #[trigger] self.candidates@[j] == before[j],
                self.local == old(self).local,
                self.target == old(self).target,
                self.want_value == old(self).want_value,
                self.closest_seen == old(self).closest_seen,
                self.found == old(self).found,
                self.finished == old(self).finished,
                self.rounds == old(self).rounds,
            decreases self.candidates@.len() - i,
        {
            let c = self.candidates[i];
            if ask.len() < CONCURRENCY_PARAM {
                match c.mark {
                    Mark::Unqueried => {
                        ask.push(c.contact);
                        self.candidates[i] = Candidate { contact: c.contact, mark: Mark::Asked };
                    },
                    _ => {},
                }
            }
            i += 1;
        }
        self.rounds = self.rounds + 1;
        proof {
            assert(self.candidates@ =~= with_asked(before));
            lemma_marks_keep_order(before, self.candidates@, self.target@, self.local@);
        }
        ask
    }

    fn position(&self, id: &Key) -> (at: Option<usize>)
        ensures
            match at {
                Some(i) => i < self.candidates@.len() && self.candidates@[i as int].contact.id@
                    == id@,
                None => !has_id(self.candidates@, id@),
            },
    {
        let mut i: usize = 0;
        while i < self.candidates.len()
            invariant
                i <= self.candidates@.len(),
                forall|j: int| 0 <= j < i ==> (#[trigger] self.candidates@[j]).contact.id@ != id@,
            decreases self.candidates@.len() - i,
        {
            if self.candidates[i].contact.id.equals(id) {
                return Some(i);
            }
            i += 1;
        }
        None
    }

    /// Whether the candidate `id` was asked in this round and is still
    /// awaited; if so, marks it.
    fn settle_asked(&mut self, id: &Key, mark: Mark) -> (was_awaited: bool)
        requires
            old(self).wf(),
        ensures
            final(self).wf(),
            was_awaited == awaited(old(self).candidates@, id@),
            final(self).candidates@ == if was_awaited {
                with_mark(old(self).candidates@, id@, mark)
            } else {
                old(self).candidates@
            },
            final(self).rounds == old(self).rounds,
            final(self).local == old(self).local,
            final(self).target == old(self).target,
            final(self).want_value == old(self).want_value,
            final(self).closest_seen == old(self).closest_seen,
            final(self).found == old(self).found,
            final(self).finished == old(self).finished,
    {
        let ghost before = self.candidates@;
        let at = self.position(id);
        match at {
            Some(i) => {
                let c = self.candidates[i];
                proof {
                    lemma_one_id(before, self.target@, i as int);
                }
                match c.mark {
                    Mark::Asked => {
                        self.candidates[i] = Candidate { contact: c.contact, mark };
                        proof {
                            assert(self.candidates@ =~= with_mark(before, id@, mark));
                            lemma_marks_keep_order(
                                before,
                                self.candidates@,
                                self.target@,
                                self.local@,
                            );
                        }
                        true
                    },
                    _ => false,
                }
            },
            None => false,
        }
    }

    /// Merges one learned contact into the candidates.
    fn merge(&mut self, c: Contact)
        requires
            old(self).wf(),
        ensures
            final(self).wf(),
            final(self).candidates@ == merged(
                old(self).candidates@,
                c,
                old(self).local@,
                old(self).target@,
            ),
            final(self).rounds == old(self).rounds,
            final(self).local == old(self).local,
            final(self).target == old(self).target,
            final(self).want_value == old(self).want_value,
            final(self).closest_seen == old(self).closest_seen,
            final(self).found == old(self).found,
            final(self).finished == old(self).finished,
    {
        if c.id.equals(&self.local) {
            return ;
        }
        let known = self.position(&c.id);
        if known.is_some() {
            return ;
        }
        let ghost before = self.candidates@;
        let ghost d = spec_distance(c.id@, self.target@);
        let mut p: usize = self.candidates.len();
        assert(before.take(p as int) =~= before);
        while p > 0 && !closer(&self.candidates[p - 1].contact.id, &c.id, &self.target)
            invariant
                p <= self.candidates@.len(),
                self.candidates@ == before,
                d == spec_distance(c.id@, self.target@),
                rank(before, d, self.target@) == rank(before.take(p as int), d, self.target@),
                forall|j: int| p <= j < before.len() ==> !(gap(#[trigger] before[j], self.target@) < d),
                *self == *old(self),
            decreases p,
        {
            assert(before.take(p as int).drop_last() =~= before.take(p - 1));
            p -= 1;
        }
        let fresh = Candidate { contact: c, mark: Mark::Unqueried };
        self.candidates.insert(p, fresh);
        proof {
            let after = self.candidates@;
            let target = self.target@;
            assert(rank(before, d, target) == p) by {
                if p > 0 {
                    assert(before.take(p as int).last() == before[p - 1]);
                }
            }
            assert forall|a: int, b: int| 0 <= a < b < after.len() implies gap(
                #[trigger] after[a],
                target,
            ) < gap(#[trigger] after[b], target) by {
                let a0 = if a < p { a } else { a - 1 };
                let b0 = if b < p { b } else { b - 1 };
                if a == p {
                    assert(after[b] == before[b0]);
                    assert(!(gap(before[b0], target) < d));
                    if gap(before[b0], target) == d {
                        lemma_distance_injective(before[b0].contact.id@, c.id@, target);
                    }
                } else if b == p {
                    assert(after[a] == before[a0]);
                    if a0 < p - 1 {
                        assert(gap(before[a0], target) < gap(before[p - 1], target));
                    }
                } else {
                    assert(after[a] == before[a0]);
                    assert(after[b] == before[b0]);
                    assert(gap(before[a0], target) < gap(before[b0], target));
                }
            }
            if has_id(after, self.local@) {
                let i = choose|i: int|
                    0 <= i < after.len() && (#[trigger] after[i]).contact.id@ == self.local@;
                if i != p {
                    let i0 = if i < p { i } else { i - 1 };
                    assert(before[i0] == after[i]);
                }
            }
        }
    }

    /// Folds in the answer of `from` to FIND_NODE, or to FIND_VALUE where
    /// it does not hold the value: `from` is marked as having replied and
    /// the contacts it returned become candidates. An answer that is not
    /// awaited, because the lookup has ended or `from` was not asked or has
    /// timed out, is discarded.
    pub fn fold_reply(&mut self, from: &Key, learned: &Vec<Contact>)
        requires
            old(self).wf(),
        ensures
            final(self).wf(),
            final(self)@ == lv_reply(old(self)@, from@, learned@),
            final(self).local == old(self).local,
            final(self).target == old(self).target,
    {
        if self.finished {
            return ;
        }
        let was_awaited = self.settle_asked(from, Mark::Replied);
        if !was_awaited {
            return ;
        }
        let ghost marked = self.candidates@;
        let mut i: usize = 0;
        while i < learned.len()
            invariant
                i <= learned@.len(),
                self.wf(),
                self.candidates@ == merged_all(
                    marked,
                    learned@,
                    i as int,
                    old(self).local@,
                    old(self).target@,
                ),
                self.rounds == old(self).rounds,
                self.local == old(self).local,
                self.target == old(self).target,
                self.want_value == old(self).want_value,
                self.closest_seen == old(self).closest_seen,
                self.found == old(self).found,
                self.finished == old(self).finished,
            decreases learned@.len() - i,
        {
            self.merge(learned[i]);
            i += 1;
        }
    }

    /// Folds in the answer of `from` to FIND_VALUE that carries the value:
    /// the lookup ends at once. An answer that is not awaited is discarded.
    pub fn fold_value(&mut self, from: &Key, value: Vec<u8>)
        requires
            old(self).wf(),
        ensures
            final(self).wf(),
            final(self)@ == lv_value(old(self)@, from@, value@),
            final(self).local == old(self).local,
            final(self).target == old(self).target,
    {
        if self.finished {
            return ;
        }
        let was_awaited = self.settle_asked(from, Mark::Holder);
        if was_awaited {
            self.found = Some(value);
            self.finished = true;
        }
    }

    /// Folds in that `from` did not answer in time: it is marked as failed.
    /// A timeout that is not awaited is discarded.
    pub fn fold_timeout(&mut self, from: &Key)
        requires
            old(self).wf(),
        ensures
            final(self).wf(),
            final(self)@ == lv_timeout(old(self)@, from@),
            final(self).local == old(self).local,
            final(self).target == old(self).target,
    {
        if self.finished {
            return ;
        }
        let _ = self.settle_asked(from, Mark::Failed);
    }

    /// Ends a round. Candidates that were asked and have not answered
    /// count as failed. The lookup goes on if the nearest candidate is now
    /// nearer than `closest_seen` and fewer than `ROUTING_TABLE_SIZE` rounds
    /// were begun; `closest_seen` then becomes its distance. Otherwise the
    /// lookup has converged and ends. Returns whether the lookup has ended.
    pub fn end_round(&mut self) -> (ended: bool)
        requires
            old(self).wf(),
        ensures
            final(self).wf(),
            final(self)@ == lv_end_round(old(self)@),
            ended == final(self).finished,
            final(self).local == old(self).local,
            final(self).target == old(self).target,
    {
        if self.finished {
            return true;
        }
        let ghost before = self.candidates@;
        let mut i: usize = 0;
        while i < self.candidates.len()
            invariant
                i <= self.candidates@.len(),
                self.candidates@.len() == before.len(),
                forall|j: int|
                    0 <= j < i ==> #[trigger] self.candidates@[j] == with_timeouts(before)[j],
                forall|j: int| i <= j < before.len() ==> #[trigger] self.candidates@[j] == before[j],
                self.local == old(self).local,
                self.target == old(self).target,
                self.want_value == old(self).want_value,
                self.closest_seen == old(self).closest_seen,
                self.found == old(self).found,
                self.finished == old(self).finished,
                self.rounds == old(self).rounds,
            decreases self.candidates@.len() - i,
        {
            let c = self.candidates[i];
            match c.mark {
                Mark::Asked => {
                    self.candidates[i] = Candidate { contact: c.contact, mark: Mark::Failed };
                },
                _ => {},
            }
            i += 1;
        }
        proof {
            assert(self.candidates@ =~= with_timeouts(before));
            lemma_marks_keep_order(before, self.candidates@, self.target@, self.local@);
        }
        if self.candidates.len() > 0 && self.rounds < ROUTING_TABLE_SIZE {
            let nearest = distance(&self.candidates[0].contact.id, &self.target);
            let improved = match &self.closest_seen {
                Some(d) => nearest.less_than(d),
                None => true,
            };
            if improved {
                self.closest_seen = Some(nearest);
                return false;
            }
        }
        self.finished = true;
        true
    }

    /// What a lookup that found no value returns: the `REPLICATION_PARAM`
    /// nearest candidates that did not fail, nearest first.
    pub fn nearest(&self) -> (near: Vec<Contact>)
        requires
            self.wf(),
        ensures
            near@ == nearest_alive(self.candidates@),
            near@.len() <= REPLICATION_PARAM,
            ascending(near@, self.target@),
    {
        let mut near: Vec<Contact> = Vec::new();
        let mut i: usize = 0;
        while i < self.candidates.len() && near.len() < REPLICATION_PARAM
            invariant
                i <= self.candidates@.len(),
                near@ == alive(self.candidates@, i as int),
                near@.len() <= REPLICATION_PARAM,
            decreases self.candidates@.len() - i,
        {
            let c = self.candidates[i];
            match c.mark {
                Mark::Failed => {},
                _ => {
                    near.push(c.contact);
                },
            }
            i += 1;
        }
        proof {
            lemma_alive_grows(self.candidates@, i as int, self.candidates@.len() as int);
            lemma_alive_ascending(self.candidates@, self.target@, i as int);
        }
        near
    }

    /// The value that was found, if any.
    pub fn value(&self) -> (value: Option<Vec<u8>>)
        ensures
            match value {
                Some(v) => self.found_value() == Some(v@),
                None => self.found_value() is None,
            },
    {
        match &self.found {
            Some(v) => Some(copy_bytes(v)),
            None => None,
        }
    }

    /// Where a found value is cached: the nearest candidate that answered
    /// without it.
    pub fn cache_target(&self) -> (at: Option<Contact>)
        ensures
            at == first_replied(self.candidates@, self.candidates@.len() as int),
    {
        let mut i: usize = 0;
        while i < self.candidates.len()
            invariant
                i <= self.candidates@.len(),
                first_replied(self.candidates@, i as int) is None,
            decreases self.candidates@.len() - i,
        {
            let c = self.candidates[i];
            match c.mark {
                Mark::Replied => {
                    proof {
                        lemma_first_replied_stays(
                            self.candidates@,
                            i + 1,
                            self.candidates@.len() as int,
                        );
                    }
                    return Some(c.contact);
                },
                _ => {},
            }
            i += 1;
        }
        None
    }
}

/// Once a candidate that replied was met, later candidates do not change
/// which one is the first.
proof fn lemma_first_replied_stays(cs: Seq<Candidate>, n: int, m: int)
    requires
        0 <= n <= m <= cs.len(),
        first_replied(cs, n) is Some,
    ensures
        first_replied(cs, m) == first_replied(cs, n),
    decreases m - n,
{
    if n < m {
        lemma_first_replied_stays(cs, n, m - 1);
    }
}

/// Candidates that differ from sorted candidates in their marks alone are
/// sorted, and bear the same identifiers.
proof fn lemma_marks_keep_order(
    before: Seq<Candidate>,
    after: Seq<Candidate>,
    target: Seq<u8>,
    local: Seq<u8>,
)
    requires
        sorted(before, target),
        !has_id(before, local),
        after.len() == before.len(),
        forall|i: int| 0 <= i < before.len() ==> (#[trigger] after[i]).contact == before[i].contact,
    ensures
        sorted(after, target),
        !has_id(after, local),
{
    assert forall|a: int, b: int| 0 <= a < b < after.len() implies gap(#[trigger] after[a], target)
        < gap(#[trigger] after[b], target) by {
        assert(gap(before[a], target) < gap(before[b], target));
    }
    if has_id(after, local) {
        let i = choose|i: int| 0 <= i < after.len() && (#[trigger] after[i]).contact.id@ == local;
        assert(before[i].contact.id@ == local);
    }
}

/// Among sorted candidates an identifier occurs once.
proof fn lemma_one_id(cs: Seq<Candidate>, target: Seq<u8>, i: int)
    requires
        sorted(cs, target),
        0 <= i < cs.len(),
    ensures
        forall|j: int|
            0 <= j < cs.len() && (#[trigger] cs[j]).contact.id@ == cs[i].contact.id@ ==> j == i,
        awaited(cs, cs[i].contact.id@) == (cs[i].mark == Mark::Asked),
{
    assert forall|j: int|
        0 <= j < cs.len() && (#[trigger] cs[j]).contact.id@ == cs[i].contact.id@ implies j == i by {
        if j < i {
            assert(gap(cs[j], target) < gap(cs[i], target));
        } else if i < j {
            assert(gap(cs[i], target) < gap(cs[j], target));
        }
    }
}

/// A lookup never begins more rounds than an identifier has bits, and a
/// round that does not end it has brought the nearest candidate strictly
/// nearer to the target than `closest_seen` was.
pub proof fn lemma_lookup_converges(lookup: Lookup)
    requires
        lookup.wf(),
    ensures
        lookup.rounds <= ROUTING_TABLE_SIZE,
        !lv_end_round(lookup@).finished ==> {
            &&& lookup.rounds < ROUTING_TABLE_SIZE
            &&& lv_end_round(lookup@).rounds == lookup.rounds
            &&& lv_end_round(lookup@).seen == Some(gap(lookup.candidates@[0], lookup.target@))
            &&& match lookup.seen() {
                Some(d) => gap(lookup.candidates@[0], lookup.target@) < d,
                None => true,
            }
        },
{
}

} // verus!
