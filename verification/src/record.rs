//! Records of the distributed hash table: the local store and the rule
//! that decides between records that differ.

use crate::id::{be_value, PeerId};
use crate::seqs::{copy_bytes, lemma_filter_none, lemma_filter_step, same_bytes};
use vstd::prelude::*;

verus! {

/// A value stored under a key, with who published it and until when it
/// holds.
#[derive(Debug, PartialEq, Eq)]
pub struct Record {
    pub key: Vec<u8>,
    pub value: Vec<u8>,
    pub publisher: PeerId,
    pub expiry: u64,
}

/// A record as mathematical values.
pub struct RecordView {
    pub key: Seq<u8>,
    pub value: Seq<u8>,
    pub publisher: PeerId,
    pub expiry: u64,
}

impl View for Record {
    type V = RecordView;

    open spec fn view(&self) -> RecordView {
        RecordView {
            key: self.key@,
            value: self.value@,
            publisher: self.publisher,
            expiry: self.expiry,
        }
    }
}

impl Clone for Record {
    fn clone(&self) -> (copy: Record)
        ensures
            copy@ == self@,
    {
        Record {
            key: copy_bytes(self.key.as_slice()),
            value: copy_bytes(self.value.as_slice()),
            publisher: self.publisher,
            expiry: self.expiry,
        }
    }
}

/// Whether `a` wins over `b` where the two differ: the record that
/// holds longer does, and of two that hold equally long the one whose
/// publisher comes first in the order of identifiers.
pub open spec fn preferred(a: RecordView, b: RecordView) -> bool {
    a.expiry > b.expiry || (a.expiry == b.expiry && be_value(a.publisher.bytes@) < be_value(
        b.publisher.bytes@,
    ))
}

/// Whether a record answers a query for `key` at `now`: it is for that
/// key and still holds.
pub open spec fn usable(r: RecordView, key: Seq<u8>, now: u64) -> bool {
    r.key == key && r.expiry > now
}

/// Whether position `i` is the one chosen among the answers to a query
/// for `key` at `now`: its record is usable, no usable record is
/// preferred to it, and it is preferred to every usable record before it.
pub open spec fn is_choice(answers: Seq<RecordView>, key: Seq<u8>, now: u64, i: int) -> bool {
    &&& 0 <= i < answers.len()
    &&& usable(answers[i], key, now)
    &&& forall|j: int|
        0 <= j < answers.len() && usable(#[trigger] answers[j], key, now) ==> !preferred(
            answers[j],
            answers[i],
        )
    &&& forall|j: int|
        0 <= j < i && usable(#[trigger] answers[j], key, now) ==> preferred(answers[i], answers[j])
}

/// Whether some answer is usable.
pub open spec fn any_usable(answers: Seq<RecordView>, key: Seq<u8>, now: u64) -> bool {
    exists|j: int| 0 <= j < answers.len() && usable(#[trigger] answers[j], key, now)
}

/// The views of a sequence of records.
pub open spec fn record_views(records: Seq<Record>) -> Seq<RecordView> {
    Seq::new(records.len(), |i: int| records[i]@)
}

impl Record {
    /// Whether `self` wins over `other`.
    pub fn wins_over(&self, other: &Record) -> (r: bool)
        ensures
            r == preferred(self@, other@),
    {
        self.expiry > other.expiry || (self.expiry == other.expiry && self.publisher.precedes(
            &other.publisher,
        ))
    }

    /// Whether the record answers a query for `key` at `now`.
    pub fn answers(&self, key: &[u8], now: u64) -> (r: bool)
        ensures
            r == usable(self@, key@, now),
    {
        same_bytes(self.key.as_slice(), key) && self.expiry > now
    }
}

/// Chooses among the records that peers returned for `key`: the
/// position of the chosen one, or nothing if none is usable.
pub fn select_record(answers: &Vec<Record>, key: &[u8], now: u64) -> (chosen: Option<usize>)
    ensures
        chosen.is_some() == any_usable(record_views(answers@), key@, now),
        chosen.is_some() ==> is_choice(record_views(answers@), key@, now, chosen.unwrap() as int),
{
    let ghost views = record_views(answers@);
    let mut best: Option<usize> = None;
    let mut i: usize = 0;
    while i < answers.len()
        invariant
            i <= answers@.len(),
            views == record_views(answers@),
            best.is_some() == any_usable(views.take(i as int), key@, now),
            best.is_some() ==> best.unwrap() < i && is_choice(
                views.take(i as int),
                key@,
                now,
                best.unwrap() as int,
            ),
        decreases answers@.len() - i,
    {
        let ghost seen = views.take(i as int);
        let ghost next = views.take(i + 1);
        assert(next =~= seen.push(views[i as int]));
        assert(views[i as int] == answers@[i as int]@);
        let ghost before = best;
        if answers[i].answers(key, now) {
            match best {
                None => {
                    best = Some(i);
                },
                Some(b) => {
                    if answers[i].wins_over(&answers[b]) {
                        best = Some(i);
                    }
                },
            }
        }
        proof {
            if any_usable(seen, key@, now) {
                let j = choose|j: int| 0 <= j < seen.len() && usable(#[trigger] seen[j], key@, now);
                assert(usable(next[j], key@, now));
            }
            if any_usable(next, key@, now) && !usable(views[i as int], key@, now) {
                let j = choose|j: int| 0 <= j < next.len() && usable(#[trigger] next[j], key@, now);
                assert(usable(seen[j], key@, now));
            }
            if usable(views[i as int], key@, now) {
                assert(usable(next[i as int], key@, now));
            }
            if best.is_some() {
                let c = best.unwrap() as int;
                assert forall|j: int|
                    0 <= j < next.len() && usable(#[trigger] next[j], key@, now) implies !preferred(
                    next[j],
                    next[c],
                ) by {
                    if j < i {
                        assert(usable(seen[j], key@, now));
                        let b = before.unwrap() as int;
                        assert(!preferred(seen[j], seen[b]));
                    }
                }
                assert forall|j: int|
                    0 <= j < c && usable(#[trigger] next[j], key@, now) implies preferred(
                    next[c],
                    next[j],
                ) by {
                    assert(usable(seen[j], key@, now));
                    let b = before.unwrap() as int;
                    if c == i {
                        assert(!preferred(seen[j], seen[b]));
                        if j < b {
                            assert(preferred(seen[b], seen[j]));
                        }
                    }
                }
            }
        }
        i += 1;
    }
    assert(views.take(views.len() as int) =~= views);
    best
}

/// No two records are for the same key.
pub open spec fn distinct_keys(records: Seq<RecordView>) -> bool {
    forall|i: int, j: int|
        0 <= i < records.len() && 0 <= j < records.len() && i != j ==> (#[trigger] records[i]).key != (
        #[trigger] records[j]).key
}

/// Whether a record for `key` is among `records`.
pub open spec fn has_key(records: Seq<RecordView>, key: Seq<u8>) -> bool {
    exists|i: int| 0 <= i < records.len() && (#[trigger] records[i]).key == key
}

/// Position of the record for `key`.
pub open spec fn position_of_key(records: Seq<RecordView>, key: Seq<u8>) -> int {
    choose|i: int| 0 <= i < records.len() && (#[trigger] records[i]).key == key
}

/// What a store did with a record that was put.
#[derive(Clone, Copy, Debug, PartialEq, Eq, Structural)]
pub enum PutOutcome {
    /// The record no longer holds: it was not stored.
    Expired,
    /// The store holds a record for the key that wins over this one.
    Kept,
    /// The record took the place of the one held for its key.
    Replaced,
    /// The record is the first for its key.
    Stored,
}

/// What a store does with the record `r` put at `now`.
pub open spec fn put_outcome(records: Seq<RecordView>, r: RecordView, now: u64) -> PutOutcome {
    if r.expiry <= now {
        PutOutcome::Expired
    } else if has_key(records, r.key) {
        let held = records[position_of_key(records, r.key)];
        if held.expiry > now && preferred(held, r) {
            PutOutcome::Kept
        } else {
            PutOutcome::Replaced
        }
    } else {
        PutOutcome::Stored
    }
}

/// The records of a store after `r` was put at `now`.
pub open spec fn after_put(records: Seq<RecordView>, r: RecordView, now: u64) -> Seq<RecordView> {
    match put_outcome(records, r, now) {
        PutOutcome::Expired => records,
        PutOutcome::Kept => records,
        PutOutcome::Replaced => records.update(position_of_key(records, r.key), r),
        PutOutcome::Stored => records.push(r),
    }
}

/// The record that a store serves for `key` at `now`.
pub open spec fn lookup(records: Seq<RecordView>, key: Seq<u8>, now: u64) -> Option<RecordView> {
    if has_key(records, key) && records[position_of_key(records, key)].expiry > now {
        Some(records[position_of_key(records, key)])
    } else {
        None
    }
}

/// Holds of the records that still hold at `now`.
pub open spec fn holds_at(now: u64) -> spec_fn(RecordView) -> bool {
    |r: RecordView| r.expiry > now
}

/// A put leaves at most one record for each key.
pub proof fn lemma_put_keeps_distinct(records: Seq<RecordView>, r: RecordView, now: u64)
    requires
        distinct_keys(records),
    ensures
        distinct_keys(after_put(records, r, now)),
{
    let after = after_put(records, r, now);
    assert forall|i: int, j: int|
        0 <= i < after.len() && 0 <= j < after.len() && i != j implies (#[trigger] after[i]).key != (
    #[trigger] after[j]).key by {
        match put_outcome(records, r, now) {
            PutOutcome::Replaced => {
                assert(after[i].key == records[i].key);
                assert(after[j].key == records[j].key);
            },
            PutOutcome::Stored => {
                if i < records.len() {
                    assert(records[i].key == after[i].key);
                }
                if j < records.len() {
                    assert(records[j].key == after[j].key);
                }
            },
            _ => {},
        }
    }
}

/// A record that was put, and not turned away for one that wins over it,
/// is the one served for its key for as long as it holds.
pub proof fn lemma_put_then_get(records: Seq<RecordView>, r: RecordView, now: u64, later: u64)
    requires
        distinct_keys(records),
        put_outcome(records, r, now) == PutOutcome::Replaced || put_outcome(records, r, now)
            == PutOutcome::Stored,
        later < r.expiry,
    ensures
        lookup(after_put(records, r, now), r.key, later) == Some(r),
{
    let after = after_put(records, r, now);
    lemma_put_keeps_distinct(records, r, now);
    let at = if has_key(records, r.key) {
        position_of_key(records, r.key)
    } else {
        records.len() as int
    };
    assert(after[at].key == r.key);
    let p = position_of_key(after, r.key);
    assert(after[p].key == after[at].key);
}

/// A put for one key leaves what is served for every other key.
pub proof fn lemma_put_spares_others(
    records: Seq<RecordView>,
    r: RecordView,
    now: u64,
    key: Seq<u8>,
    later: u64,
)
    requires
        distinct_keys(records),
        key != r.key,
    ensures
        lookup(after_put(records, r, now), key, later) == lookup(records, key, later),
{
    let after = after_put(records, r, now);
    lemma_put_keeps_distinct(records, r, now);
    if has_key(records, key) {
        let i = position_of_key(records, key);
        assert(after[i] == records[i]);
        assert(after[i].key == key);
        let p = position_of_key(after, key);
        assert(after[p].key == after[i].key);
    }
    if has_key(after, key) {
        let p = position_of_key(after, key);
        assert(p < records.len());
        assert(records[p].key == key);
        let i = position_of_key(records, key);
        assert(records[i].key == records[p].key);
    }
}

/// The records that a node holds for others.
pub struct RecordStore {
    records: Vec<Record>,
}

impl View for RecordStore {
    type V = Seq<RecordView>;

    closed spec fn view(&self) -> Seq<RecordView> {
        record_views(self.records@)
    }
}

impl RecordStore {
    /// What holds of every store: it has one record for a key at most.
    pub open spec fn wf(&self) -> bool {
        distinct_keys(self@)
    }

    /// A store without records.
    pub fn new() -> (store: RecordStore)
        ensures
            store.wf(),
            store@ == Seq::<RecordView>::empty(),
    {
        let store = RecordStore { records: Vec::new() };
        assert(store@ =~= Seq::<RecordView>::empty());
        store
    }

    /// Number of records held.
    pub fn len(&self) -> (n: usize)
        ensures
            n == self@.len(),
    {
        self.records.len()
    }

    fn find(&self, key: &[u8]) -> (found: Option<usize>)
        requires
            self.wf(),
        ensures
            found.is_some() == has_key(self@, key@),
            found.is_some() ==> found.unwrap() < self@.len() && found.unwrap() == position_of_key(
                self@,
                key@,
            ),
    {
        let mut i: usize = 0;
        while i < self.records.len()
            invariant
                i <= self.records@.len(),
                self.wf(),
                forall|j: int| 0 <= j < i ==> (#[trigger] self@[j]).key != key@,
            decreases self.records@.len() - i,
        {
            if same_bytes(self.records[i].key.as_slice(), key) {
                proof {
                    assert(self@[i as int].key == key@);
                    let p = position_of_key(self@, key@);
                    assert(self@[p].key == self@[i as int].key);
                }
                return Some(i);
            }
            i += 1;
        }
        None
    }

    /// Puts a record into the store at `now`.
    pub fn put(&mut self, record: Record, now: u64) -> (outcome: PutOutcome)
        requires
            old(self).wf(),
        ensures
            final(self).wf(),
            outcome == put_outcome(old(self)@, record@, now),
            final(self)@ == after_put(old(self)@, record@, now),
    {
        proof {
            lemma_put_keeps_distinct(self@, record@, now);
        }
        if record.expiry <= now {
            return PutOutcome::Expired;
        }
        let ghost before = self@;
        match self.find(record.key.as_slice()) {
            Some(i) => {
                if self.records[i].expiry > now && self.records[i].wins_over(&record) {
                    PutOutcome::Kept
                } else {
                    let ghost r = record@;
                    self.records[i] = record;
                    assert(self@ =~= before.update(i as int, r));
                    PutOutcome::Replaced
                }
            },
            None => {
                let ghost r = record@;
                self.records.push(record);
                assert(self@ =~= before.push(r));
                PutOutcome::Stored
            },
        }
    }

    /// The record served for `key` at `now`.
    pub fn get(&self, key: &[u8], now: u64) -> (found: Option<&Record>)
        requires
            self.wf(),
        ensures
            match found {
                Some(r) => lookup(self@, key@, now) == Some(r@),
                None => lookup(self@, key@, now).is_none(),
            },
    {
        match self.find(key) {
            Some(i) => {
                if self.records[i].expiry > now {
                    Some(&self.records[i])
                } else {
                    None
                }
            },
            None => None,
        }
    }

    /// Removes the records that no longer hold at `now`; tells how many
    /// there were.
    pub fn sweep(&mut self, now: u64) -> (removed: usize)
        requires
            old(self).wf(),
        ensures
            final(self).wf(),
            final(self)@ == old(self)@.filter(holds_at(now)),
            removed == old(self)@.len() - final(self)@.len(),
    {
        let ghost before = self@;
        let ghost keep = holds_at(now);
        let mut kept: Vec<Record> = Vec::new();
        let mut rest: Vec<Record> = Vec::new();
        std::mem::swap(&mut rest, &mut self.records);
        let total = rest.len();
        proof {
            lemma_filter_none(before, keep);
            assert(record_views(kept@) =~= before.take(0).filter(keep));
        }
        while rest.len() > 0
            invariant
                total == before.len(),
                rest@.len() <= total,
                keep == holds_at(now),
                forall|j: int|
                    0 <= j < rest@.len() ==> (#[trigger] rest@[j])@ == before[total - rest@.len() + j],
                record_views(kept@) == before.take(total - rest@.len()).filter(keep),
                kept@.len() <= total - rest@.len(),
            decreases rest@.len(),
        {
            let ghost k = total - rest@.len();
            let record = rest.remove(0);
            proof {
                lemma_filter_step(before, keep, k);
                assert(record@ == before[k]);
            }
            if record.expiry > now {
                kept.push(record);
                assert(record_views(kept@) =~= before.take(k + 1).filter(keep));
            }
        }
        assert(before.take(total as int) =~= before);
        let removed = total - kept.len();
        self.records = kept;
        proof {
            lemma_filter_keeps_distinct(before, keep);
        }
        removed
    }
}

/// Filtering leaves at most one record for each key.
pub proof fn lemma_filter_keeps_distinct(
    records: Seq<RecordView>,
    keep: spec_fn(RecordView) -> bool,
)
    requires
        distinct_keys(records),
    ensures
        distinct_keys(records.filter(keep)),
        forall|i: int|
            0 <= i < records.filter(keep).len() ==> records.contains(
                #[trigger] records.filter(keep)[i],
            ),
    decreases records.len(),
{
    reveal(Seq::filter);
    if records.len() > 0 {
        let front = records.drop_last();
        let last = records.last();
        lemma_filter_keeps_distinct(front, keep);
        let f = front.filter(keep);
        let g = records.filter(keep);
        assert forall|i: int| 0 <= i < g.len() implies records.contains(#[trigger] g[i]) by {
            if i < f.len() {
                assert(front.contains(f[i]));
                let k = choose|k: int| 0 <= k < front.len() && front[k] == f[i];
                assert(records[k] == g[i]);
            } else {
                assert(records[records.len() - 1] == g[i]);
            }
        }
        assert forall|i: int, j: int| 0 <= i < g.len() && 0 <= j < g.len() && i != j implies (
        #[trigger] g[i]).key != (#[trigger] g[j]).key by {
            if i < f.len() && j < f.len() {
                assert(f[i].key != f[j].key);
            } else {
                let a = if i < f.len() { i } else { j };
                assert(front.contains(f[a]));
                let k = choose|k: int| 0 <= k < front.len() && front[k] == f[a];
                assert(records[k].key != records[records.len() - 1].key);
            }
        }
    }
}

} // verus!
