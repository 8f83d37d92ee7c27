//! Operations of the distributed hash table that are under way: each
//! walks towards the peers closest to a key, asking a few at a time, and
//! ends when it has what it was started for or its deadline has passed.

use crate::closest::{ascending, closest_among, k_closest, lemma_ascending_distinct};
use crate::id::{distance, find_peer, PeerId};
use crate::peers::{append_peers, copy_peers, not_among, other_than, peers_not_among,
    peers_other_than};
use crate::record::{after_put, any_usable, distinct_keys, is_choice, lemma_put_then_get, lookup,
    preferred, put_outcome, record_views, select_record, usable, PutOutcome, Record, RecordView};
use crate::seqs::{drop_value, lemma_drop_value, lemma_filter_facts, lemma_filter_none,
    lemma_filter_step, lemma_index_of, lemma_push_fresh, same_bytes};
use vstd::prelude::*;

verus! {

/// What an operation is after.
#[derive(Clone, Copy, Debug, PartialEq, Eq, Structural)]
pub enum QueryKind {
    /// The peers closest to the target.
    FindNode,
    /// The value stored under the key.
    GetValue,
    /// Storing a value under the key at the peers closest to it.
    PutValue,
}

/// Why an operation failed.
#[derive(Clone, Copy, Debug, PartialEq, Eq, Structural)]
pub enum QueryError {
    /// Fewer peers than the quorum acknowledged the value in time.
    QuorumNotMet,
    /// No peer returned a value for the key.
    NotFound,
    /// The deadline passed.
    Timeout,
}

/// How far an operation has come.
#[derive(Clone, Copy, Debug, PartialEq, Eq, Structural)]
pub enum Stage {
    /// It is finding the peers closest to the target.
    Lookup,
    /// It has asked those peers to store the value and counts their
    /// acknowledgments.
    Store,
    /// It has ended.
    Done,
}

/// How an operation ended.
#[derive(Debug, PartialEq, Eq)]
pub enum Outcome {
    /// The closest peers found, nearest first.
    Peers(Vec<PeerId>),
    /// The record chosen among those returned.
    Found(Record),
    /// The number of peers that acknowledged the value.
    Stored(usize),
    Failed(QueryError),
}

/// An outcome as mathematical values.
pub enum OutcomeView {
    Peers(Seq<PeerId>),
    Found(RecordView),
    Stored(nat),
    Failed(QueryError),
}

impl View for Outcome {
    type V = OutcomeView;

    open spec fn view(&self) -> OutcomeView {
        match self {
            Outcome::Peers(peers) => OutcomeView::Peers(peers@),
            Outcome::Found(record) => OutcomeView::Found(record@),
            Outcome::Stored(n) => OutcomeView::Stored(*n as nat),
            Outcome::Failed(e) => OutcomeView::Failed(*e),
        }
    }
}

/// What is to be done next for an operation.
#[derive(Debug, PartialEq, Eq)]
pub enum Step {
    /// Ask these peers for the peers closest to the target and, for a get,
    /// for the value.
    Ask(Vec<PeerId>),
    /// Ask these peers to store the value.
    Store(Vec<PeerId>),
    /// Nothing until an answer comes or time passes.
    Wait,
    /// The operation has ended, as told.
    Done(Outcome),
    /// The operation had ended before.
    Closed,
}

/// A step as mathematical values.
pub enum StepView {
    Ask(Seq<PeerId>),
    Store(Seq<PeerId>),
    Wait,
    Done(OutcomeView),
    Closed,
}

impl View for Step {
    type V = StepView;

    open spec fn view(&self) -> StepView {
        match self {
            Step::Ask(peers) => StepView::Ask(peers@),
            Step::Store(peers) => StepView::Store(peers@),
            Step::Wait => StepView::Wait,
            Step::Done(outcome) => StepView::Done(outcome@),
            Step::Closed => StepView::Closed,
        }
    }
}

/// Holds of the records that answer a query for `key` at `now`.
pub open spec fn usable_at(key: Seq<u8>, now: u64) -> spec_fn(RecordView) -> bool {
    |r: RecordView| usable(r, key, now)
}

/// The record chosen among `answers` for `key` at `now`, if any is
/// usable.
pub open spec fn chosen(answers: Seq<RecordView>, key: Seq<u8>, now: u64) -> Option<RecordView> {
    if any_usable(answers, key, now) {
        Some(answers[choose|i: int| is_choice(answers, key, now, i)])
    } else {
        None
    }
}

/// Only one position is the chosen one.
pub proof fn lemma_choice_unique(answers: Seq<RecordView>, key: Seq<u8>, now: u64, i: int, j: int)
    requires
        is_choice(answers, key, now, i),
        is_choice(answers, key, now, j),
    ensures
        i == j,
{
    // the later of two chosen positions would have to win over the
    // earlier, which no usable record does
    assert(usable(answers[i], key, now) && usable(answers[j], key, now));
}

/// The first position at which a sequence holds a value that it holds.
pub proof fn lemma_first_position<A>(s: Seq<A>, a: A) -> (i: int)
    requires
        s.contains(a),
    ensures
        0 <= i < s.len(),
        s[i] == a,
        forall|j: int| 0 <= j < i ==> s[j] != a,
    decreases s.len(),
{
    let front = s.drop_last();
    if front.contains(a) {
        let i = lemma_first_position(front, a);
        assert(s[i] == front[i]);
        assert forall|j: int| 0 <= j < i implies s[j] != a by {
            assert(s[j] == front[j]);
        }
        i
    } else {
        let k = choose|k: int| 0 <= k < s.len() && s[k] == a;
        if k < front.len() {
            assert(front[k] == a);
        }
        assert forall|j: int| 0 <= j < s.len() - 1 implies s[j] != a by {
            if s[j] == a {
                assert(front[j] == a);
            }
        }
        s.len() - 1
    }
}

/// Where one of the answers is usable and wins over every usable answer
/// that differs from it, that answer is the one chosen.
pub proof fn lemma_chosen_is_best(answers: Seq<RecordView>, key: Seq<u8>, now: u64, r: RecordView)
    requires
        answers.contains(r),
        usable(r, key, now),
        forall|j: int|
            0 <= j < answers.len() && usable(#[trigger] answers[j], key, now) ==> answers[j] == r
                || preferred(r, answers[j]),
    ensures
        chosen(answers, key, now) == Some(r),
{
    let i = lemma_first_position(answers, r);
    assert(usable(answers[i], key, now));
    assert(is_choice(answers, key, now, i));
    let c = choose|c: int| is_choice(answers, key, now, c);
    lemma_choice_unique(answers, key, now, i, c);
}

/// A record that a peer stored and serves is what a later get returns,
/// as long as the record holds, that peer is among those that answer,
/// and no answer is usable that wins over the record.
pub proof fn lemma_get_after_put(
    store: Seq<RecordView>,
    r: RecordView,
    put_at: u64,
    get_at: u64,
    answers: Seq<RecordView>,
)
    requires
        distinct_keys(store),
        put_outcome(store, r, put_at) == PutOutcome::Stored || put_outcome(store, r, put_at)
            == PutOutcome::Replaced,
        get_at < r.expiry,
        lookup(after_put(store, r, put_at), r.key, get_at).is_some() ==> answers.contains(
            lookup(after_put(store, r, put_at), r.key, get_at).unwrap(),
        ),
        forall|j: int|
            0 <= j < answers.len() && usable(#[trigger] answers[j], r.key, get_at) ==> answers[j]
                == r || preferred(r, answers[j]),
    ensures
        lookup(after_put(store, r, put_at), r.key, get_at) == Some(r),
        chosen(answers, r.key, get_at) == Some(r),
{
    lemma_put_then_get(store, r, put_at, get_at);
    lemma_chosen_is_best(answers, r.key, get_at, r);
}

/// An operation as mathematical values.
pub struct QueryView {
    pub local: PeerId,
    pub kind: QueryKind,
    pub key: Seq<u8>,
    pub target: PeerId,
    /// Acknowledgments that a put needs; values after which a get ends.
    pub quorum: nat,
    pub deadline: u64,
    /// Rounds of asking that are left.
    pub hops_left: nat,
    /// How many closest peers are kept.
    pub width: nat,
    /// How many peers are asked in one round.
    pub fanout: nat,
    /// The closest peers known, nearest first.
    pub candidates: Seq<PeerId>,
    /// The peers that were asked.
    pub asked: Seq<PeerId>,
    /// Those of them that answered or were found unreachable.
    pub answered: Seq<PeerId>,
    /// The peers that acknowledged the value.
    pub acks: Seq<PeerId>,
    /// The records that peers returned for the key.
    pub found: Seq<RecordView>,
    pub stage: Stage,
}

impl QueryView {
    /// What holds of every operation.
    pub open spec fn well_formed(self) -> bool {
        &&& self.quorum >= 1
        &&& self.width >= 1
        &&& self.fanout >= 1
        &&& ascending(self.candidates, self.target)
        &&& self.candidates.len() <= self.width
        &&& !self.candidates.contains(self.local)
        &&& self.asked.no_duplicates()
        &&& self.answered.no_duplicates()
        &&& forall|p: PeerId| #[trigger] self.answered.contains(p) ==> self.asked.contains(p)
        &&& self.acks.no_duplicates()
        &&& forall|p: PeerId| #[trigger] self.acks.contains(p) ==> self.candidates.contains(p)
        &&& forall|i: int| 0 <= i < self.found.len() ==> (#[trigger] self.found[i]).key == self.key
        &&& self.stage == Stage::Store ==> self.kind == QueryKind::PutValue
        &&& self.stage == Stage::Lookup ==> self.acks.len() == 0
    }

    /// The known closest peers that were not asked yet, nearest first.
    pub open spec fn pending(self) -> Seq<PeerId> {
        self.candidates.filter(not_among(self.asked))
    }

    /// The peers to ask in the next round.
    pub open spec fn next_batch(self) -> Seq<PeerId> {
        if self.pending().len() <= self.fanout {
            self.pending()
        } else {
            self.pending().subrange(0, self.fanout as int)
        }
    }

    /// Number of usable records returned so far.
    pub open spec fn usable_count(self, now: u64) -> nat {
        self.found.filter(usable_at(self.key, now)).len()
    }

    /// How a get ends at `now`.
    pub open spec fn resolve_get(self, now: u64) -> OutcomeView {
        match chosen(self.found, self.key, now) {
            Some(r) => OutcomeView::Found(r),
            None => OutcomeView::Failed(QueryError::NotFound),
        }
    }

    /// How the operation ends when its deadline has passed.
    pub open spec fn expire(self, now: u64) -> OutcomeView {
        match self.kind {
            QueryKind::FindNode => OutcomeView::Failed(QueryError::Timeout),
            QueryKind::GetValue => self.resolve_get(now),
            QueryKind::PutValue => OutcomeView::Failed(QueryError::QuorumNotMet),
        }
    }

    /// The operation once it has ended.
    pub open spec fn close(self) -> QueryView {
        QueryView { stage: Stage::Done, ..self }
    }

    /// State and step when the lookup has no one left to ask or wait for.
    pub open spec fn finish_lookup(self, now: u64) -> (QueryView, StepView) {
        match self.kind {
            QueryKind::FindNode => (
                self.close(),
                StepView::Done(OutcomeView::Peers(self.candidates)),
            ),
            QueryKind::GetValue => (self.close(), StepView::Done(self.resolve_get(now))),
            QueryKind::PutValue => if self.candidates.len() < self.quorum {
                (self.close(), StepView::Done(OutcomeView::Failed(QueryError::QuorumNotMet)))
            } else {
                (QueryView { stage: Stage::Store, ..self }, StepView::Store(self.candidates))
            },
        }
    }

    /// State and step when the operation is looked at at `now`.
    pub open spec fn advance(self, now: u64) -> (QueryView, StepView) {
        if self.stage == Stage::Done {
            (self, StepView::Closed)
        } else if now >= self.deadline {
            (self.close(), StepView::Done(self.expire(now)))
        } else if self.stage == Stage::Store {
            if self.acks.len() >= self.quorum {
                (self.close(), StepView::Done(OutcomeView::Stored(self.acks.len())))
            } else {
                (self, StepView::Wait)
            }
        } else if self.kind == QueryKind::GetValue && self.usable_count(now) >= self.quorum {
            (self.close(), StepView::Done(self.resolve_get(now)))
        } else if self.hops_left > 0 && self.next_batch().len() > 0 {
            (
                QueryView {
                    asked: self.asked + self.next_batch(),
                    hops_left: (self.hops_left - 1) as nat,
                    ..self
                },
                StepView::Ask(self.next_batch()),
            )
        } else if self.answered.len() < self.asked.len() {
            (self, StepView::Wait)
        } else {
            self.finish_lookup(now)
        }
    }

    /// Whether an answer of `from` is awaited.
    pub open spec fn awaits(self, from: PeerId) -> bool {
        self.stage == Stage::Lookup && self.asked.contains(from) && !self.answered.contains(from)
    }

    /// The state after `from` answered with the peers `closer` and,
    /// perhaps, a record.
    pub open spec fn respond(self, from: PeerId, closer: Seq<PeerId>, record: Option<RecordView>)
        -> QueryView {
        if self.awaits(from) {
            QueryView {
                answered: self.answered.push(from),
                candidates: closest_among(
                    self.candidates + closer.filter(other_than(self.local)),
                    self.target,
                    self.width,
                ),
                found: if self.kind == QueryKind::GetValue && record.is_some() && record.unwrap().key
                    == self.key {
                    self.found.push(record.unwrap())
                } else {
                    self.found
                },
                ..self
            }
        } else {
            self
        }
    }

    /// The state after `from` was found unreachable.
    pub open spec fn unreachable(self, from: PeerId) -> QueryView {
        if self.awaits(from) {
            QueryView {
                answered: self.answered.push(from),
                candidates: drop_value(self.candidates, from),
                ..self
            }
        } else {
            self
        }
    }

    /// Whether an acknowledgment of `from` counts.
    pub open spec fn counts(self, from: PeerId) -> bool {
        self.stage == Stage::Store && self.candidates.contains(from) && !self.acks.contains(from)
    }

    /// The state after `from` acknowledged the value.
    pub open spec fn stored(self, from: PeerId) -> QueryView {
        if self.counts(from) {
            QueryView { acks: self.acks.push(from), ..self }
        } else {
            self
        }
    }
}

/// A put succeeds only with a quorum of acknowledgments, each from
/// another one of the closest peers found, and fails with
/// `QuorumNotMet` when its deadline passes before.
pub proof fn lemma_put_needs_quorum(q: QueryView, now: u64)
    requires
        q.well_formed(),
        q.kind == QueryKind::PutValue,
    ensures
        q.advance(now).1 matches StepView::Done(OutcomeView::Stored(n)) ==> n >= q.quorum && n
            == q.acks.len() && q.acks.no_duplicates() && now < q.deadline,
        q.stage != Stage::Done && now >= q.deadline ==> q.advance(now).1 == StepView::Done(
            OutcomeView::Failed(QueryError::QuorumNotMet),
        ),
        q.stage == Stage::Store && now < q.deadline && q.acks.len() >= q.quorum ==> q.advance(
            now,
        ).1 == StepView::Done(OutcomeView::Stored(q.acks.len())),
{
}

/// A get ends with the record that the conflict rule chooses among the
/// usable ones returned, and with `NotFound` only when none is usable.
pub proof fn lemma_get_outcome(q: QueryView, now: u64)
    requires
        q.well_formed(),
        q.kind == QueryKind::GetValue,
    ensures
        q.advance(now).1 matches StepView::Done(outcome) ==> outcome == q.resolve_get(now),
        q.resolve_get(now) == OutcomeView::Failed(QueryError::NotFound) <==> !any_usable(
            q.found,
            q.key,
            now,
        ),
{
}

/// An operation that has ended stays ended and asks for nothing more.
pub proof fn lemma_done_is_final(q: QueryView, now: u64, later: u64)
    ensures
        q.advance(now).1 is Done ==> q.advance(now).0.advance(later) == (
            q.advance(now).0,
            StepView::Closed,
        ),
{
}

/// No peer is asked twice in one operation.
pub proof fn lemma_asks_once(q: QueryView, now: u64)
    requires
        q.well_formed(),
    ensures
        q.advance(now).1 matches StepView::Ask(batch) ==> batch.no_duplicates() && batch.len()
            <= q.fanout && (forall|p: PeerId| #[trigger]
            batch.contains(p) ==> q.candidates.contains(p) && !q.asked.contains(p))
            && q.advance(now).0.asked.no_duplicates(),
{
    lemma_batch(q);
}

/// The next batch holds pending peers, each once, and is no larger than
/// the fanout; asking it leaves the list of asked peers without
/// duplicates.
pub proof fn lemma_batch(q: QueryView)
    requires
        q.well_formed(),
    ensures
        q.next_batch().no_duplicates(),
        q.next_batch().len() <= q.fanout,
        forall|p: PeerId| #[trigger]
            q.next_batch().contains(p) ==> q.candidates.contains(p) && !q.asked.contains(p),
        (q.asked + q.next_batch()).no_duplicates(),
        forall|p: PeerId| #[trigger]
            (q.asked + q.next_batch()).contains(p) <==> (q.asked.contains(p)
                || q.next_batch().contains(p)),
{
    let pending = q.pending();
    let batch = q.next_batch();
    lemma_ascending_distinct(q.candidates, q.target);
    lemma_filter_facts(q.candidates, not_among(q.asked));
    assert forall|i: int| 0 <= i < batch.len() implies batch[i] == pending[i] by {}
    assert forall|i: int, j: int|
        0 <= i < batch.len() && 0 <= j < batch.len() && i != j implies batch[i] != batch[j] by {
        assert(pending[i] != pending[j]);
    }
    assert forall|p: PeerId| #[trigger] batch.contains(p) implies q.candidates.contains(p)
        && !q.asked.contains(p) by {
        let i = choose|i: int| 0 <= i < batch.len() && batch[i] == p;
        assert(pending[i] == p);
        assert(pending.contains(p));
    }
    let all = q.asked + batch;
    assert forall|p: PeerId| #[trigger] all.contains(p) <==> (q.asked.contains(p) || batch.contains(
        p,
    )) by {
        if all.contains(p) {
            let i = choose|i: int| 0 <= i < all.len() && all[i] == p;
            if i < q.asked.len() {
                assert(q.asked[i] == p);
            } else {
                assert(batch[i - q.asked.len()] == p);
            }
        }
        if q.asked.contains(p) {
            let i = choose|i: int| 0 <= i < q.asked.len() && q.asked[i] == p;
            assert(all[i] == p);
        }
        if batch.contains(p) {
            let i = choose|i: int| 0 <= i < batch.len() && batch[i] == p;
            assert(all[q.asked.len() + i] == p);
        }
    }
    assert forall|i: int, j: int| 0 <= i < all.len() && 0 <= j < all.len() && i != j implies all[i]
        != all[j] by {
        if i < q.asked.len() && j < q.asked.len() {
        } else if i >= q.asked.len() && j >= q.asked.len() {
            assert(batch[i - q.asked.len()] != batch[j - q.asked.len()]);
        } else {
            let a = if i < q.asked.len() { i } else { j };
            let b = if i < q.asked.len() { j } else { i };
            assert(q.asked.contains(q.asked[a]));
            assert(batch.contains(batch[b - q.asked.len()]));
        }
    }
}

/// Looking at an operation leaves it well formed.
pub proof fn lemma_advance_keeps_form(q: QueryView, now: u64)
    requires
        q.well_formed(),
    ensures
        q.advance(now).0.well_formed(),
{
    lemma_batch(q);
}

/// An acknowledgment leaves the operation well formed.
pub proof fn lemma_stored_keeps_form(q: QueryView, from: PeerId)
    requires
        q.well_formed(),
    ensures
        q.stored(from).well_formed(),
{
    if q.counts(from) {
        lemma_push_fresh(q.acks, from);
    }
}

/// Dropping an unreachable peer leaves the operation well formed.
pub proof fn lemma_unreachable_keeps_form(q: QueryView, from: PeerId)
    requires
        q.well_formed(),
    ensures
        q.unreachable(from).well_formed(),
{
    if q.awaits(from) {
        lemma_push_fresh(q.answered, from);
        lemma_ascending_distinct(q.candidates, q.target);
        lemma_drop_value(q.candidates, from);
        let after = drop_value(q.candidates, from);
        if q.candidates.contains(from) {
            let at = q.candidates.index_of(from);
            assert(0 <= at < q.candidates.len());
            assert forall|i: int, j: int| 0 <= i < j < after.len() implies distance(
                q.target,
                #[trigger] after[i],
            ) < distance(q.target, #[trigger] after[j]) by {
                let a = if i < at { i } else { i + 1 };
                let b = if j < at { j } else { j + 1 };
                assert(after[i] == q.candidates[a] && after[j] == q.candidates[b]);
            }
        }
    }
}

/// An operation of the distributed hash table that is under way.
pub struct PendingQuery {
    local: PeerId,
    kind: QueryKind,
    key: Vec<u8>,
    target: PeerId,
    quorum: usize,
    deadline: u64,
    hops_left: u32,
    width: usize,
    fanout: usize,
    candidates: Vec<PeerId>,
    asked: Vec<PeerId>,
    answered: Vec<PeerId>,
    acks: Vec<PeerId>,
    found: Vec<Record>,
    stage: Stage,
}

impl View for PendingQuery {
    type V = QueryView;

    closed spec fn view(&self) -> QueryView {
        QueryView {
            local: self.local,
            kind: self.kind,
            key: self.key@,
            target: self.target,
            quorum: self.quorum as nat,
            deadline: self.deadline,
            hops_left: self.hops_left as nat,
            width: self.width as nat,
            fanout: self.fanout as nat,
            candidates: self.candidates@,
            asked: self.asked@,
            answered: self.answered@,
            acks: self.acks@,
            found: record_views(self.found@),
            stage: self.stage,
        }
    }
}

impl PendingQuery {
    /// What holds of every operation that `start` made and the methods
    /// changed.
    pub open spec fn wf(&self) -> bool {
        self@.well_formed()
    }

    /// Starts an operation of the node `local` for `key`, which lies at
    /// `target`, from the peers `seeds`. It keeps the `width` closest
    /// peers, asks `fanout` of them in a round, for `hop_limit` rounds at
    /// most, and ends at `deadline`. There is none for a quorum, a width
    /// or a fanout of zero.
    pub fn start(
        local: PeerId,
        kind: QueryKind,
        key: Vec<u8>,
        target: PeerId,
        seeds: &Vec<PeerId>,
        quorum: usize,
        deadline: u64,
        hop_limit: u32,
        width: usize,
        fanout: usize,
    ) -> (made: Option<PendingQuery>)
        ensures
            made.is_some() == (quorum >= 1 && width >= 1 && fanout >= 1),
            made.is_some() ==> made.unwrap().wf() && made.unwrap()@ == (QueryView {
                local,
                kind,
                key: key@,
                target,
                quorum: quorum as nat,
                deadline,
                hops_left: hop_limit as nat,
                width: width as nat,
                fanout: fanout as nat,
                candidates: closest_among(
                    seeds@.filter(other_than(local)),
                    target,
                    width as nat,
                ),
                asked: Seq::empty(),
                answered: Seq::empty(),
                acks: Seq::empty(),
                found: Seq::empty(),
                stage: Stage::Lookup,
            }),
    {
        if quorum == 0 || width == 0 || fanout == 0 {
            return None;
        }
        let others = peers_other_than(seeds, &local);
        let candidates = k_closest(&others, &target, width);
        proof {
            lemma_filter_facts(seeds@, other_than(local));
            if candidates@.contains(local) {
                let i = choose|i: int| 0 <= i < candidates@.len() && candidates@[i] == local;
                assert(others@.contains(candidates@[i]));
            }
        }
        let q = PendingQuery {
            local,
            kind,
            key,
            target,
            quorum,
            deadline,
            hops_left: hop_limit,
            width,
            fanout,
            candidates,
            asked: Vec::new(),
            answered: Vec::new(),
            acks: Vec::new(),
            found: Vec::new(),
            stage: Stage::Lookup,
        };
        assert(q@.found =~= Seq::empty());
        Some(q)
    }

    /// What the operation is after.
    pub fn kind(&self) -> (kind: QueryKind)
        ensures
            kind == self@.kind,
    {
        self.kind
    }

    /// How far the operation has come.
    pub fn stage(&self) -> (stage: Stage)
        ensures
            stage == self@.stage,
    {
        self.stage
    }

    /// The key that the operation is for.
    pub fn key(&self) -> (key: &Vec<u8>)
        ensures
            key@ == self@.key,
    {
        &self.key
    }

    /// The place of the key in the identifier space.
    pub fn target(&self) -> (target: PeerId)
        ensures
            target == self@.target,
    {
        self.target
    }

    /// The time at which the operation is given up.
    pub fn deadline(&self) -> (deadline: u64)
        ensures
            deadline == self@.deadline,
    {
        self.deadline
    }

    /// Number of usable records returned so far.
    fn count_usable(&self, now: u64) -> (n: usize)
        ensures
            n == self@.usable_count(now),
    {
        let ghost views = self@.found;
        let ghost keep = usable_at(self@.key, now);
        let mut n: usize = 0;
        let mut i: usize = 0;
        proof {
            lemma_filter_none(views, keep);
        }
        while i < self.found.len()
            invariant
                i <= self.found@.len(),
                views == record_views(self.found@),
                keep == usable_at(self.key@, now),
                n == views.take(i as int).filter(keep).len(),
                n <= i,
            decreases self.found@.len() - i,
        {
            proof {
                lemma_filter_step(views, keep, i as int);
                assert(views[i as int] == self.found@[i as int]@);
            }
            if self.found[i].answers(self.key.as_slice(), now) {
                n += 1;
            }
            i += 1;
        }
        assert(views.take(views.len() as int) =~= views);
        n
    }

    /// How a get ends at `now`.
    fn resolve(&self, now: u64) -> (outcome: Outcome)
        ensures
            outcome@ == self@.resolve_get(now),
    {
        match select_record(&self.found, self.key.as_slice(), now) {
            Some(i) => {
                proof {
                    let answers = self@.found;
                    let c = choose|c: int| is_choice(answers, self@.key, now, c);
                    lemma_choice_unique(answers, self@.key, now, i as int, c);
                    assert(answers[i as int] == self.found@[i as int]@);
                }
                Outcome::Found(self.found[i].clone())
            },
            None => Outcome::Failed(QueryError::NotFound),
        }
    }

    /// The peers to ask in the next round.
    fn batch(&self) -> (batch: Vec<PeerId>)
        ensures
            batch@ == self@.next_batch(),
    {
        let mut batch = peers_not_among(&self.candidates, &self.asked);
        if batch.len() > self.fanout {
            batch.truncate(self.fanout);
        }
        batch
    }

    /// Looks at the operation at `now` and tells what is to be done.
    pub fn advance(&mut self, now: u64) -> (step: Step)
        requires
            old(self).wf(),
        ensures
            final(self).wf(),
            (final(self)@, step@) == old(self)@.advance(now),
    {
        proof {
            lemma_advance_keeps_form(self@, now);
        }
        match self.stage {
            Stage::Done => {
                return Step::Closed;
            },
            _ => {},
        }
        if now >= self.deadline {
            let outcome = match self.kind {
                QueryKind::FindNode => Outcome::Failed(QueryError::Timeout),
                QueryKind::GetValue => self.resolve(now),
                QueryKind::PutValue => Outcome::Failed(QueryError::QuorumNotMet),
            };
            self.stage = Stage::Done;
            return Step::Done(outcome);
        }
        match self.stage {
            Stage::Store => {
                if self.acks.len() >= self.quorum {
                    self.stage = Stage::Done;
                    return Step::Done(Outcome::Stored(self.acks.len()));
                }
                return Step::Wait;
            },
            _ => {},
        }
        let getting = match self.kind {
            QueryKind::GetValue => true,
            _ => false,
        };
        if getting && self.count_usable(now) >= self.quorum {
            let outcome = self.resolve(now);
            self.stage = Stage::Done;
            return Step::Done(outcome);
        }
        if self.hops_left > 0 {
            let batch = self.batch();
            if batch.len() > 0 {
                append_peers(&mut self.asked, &batch);
                self.hops_left = self.hops_left - 1;
                return Step::Ask(batch);
            }
        }
        if self.answered.len() < self.asked.len() {
            return Step::Wait;
        }
        match self.kind {
            QueryKind::FindNode => {
                self.stage = Stage::Done;
                Step::Done(Outcome::Peers(copy_peers(&self.candidates)))
            },
            QueryKind::GetValue => {
                let outcome = self.resolve(now);
                self.stage = Stage::Done;
                Step::Done(outcome)
            },
            QueryKind::PutValue => {
                if self.candidates.len() < self.quorum {
                    self.stage = Stage::Done;
                    Step::Done(Outcome::Failed(QueryError::QuorumNotMet))
                } else {
                    self.stage = Stage::Store;
                    Step::Store(copy_peers(&self.candidates))
                }
            },
        }
    }

    /// Whether an answer of `from` is awaited.
    pub fn awaits(&self, from: &PeerId) -> (r: bool)
        ensures
            r == self@.awaits(*from),
    {
        let looking = match self.stage {
            Stage::Lookup => true,
            _ => false,
        };
        looking && find_peer(&self.asked, from).is_some() && find_peer(
            &self.answered,
            from,
        ).is_none()
    }

    /// Takes in the answer of `from`: the peers it named and, for a get,
    /// the record it returned. An answer that is not awaited changes
    /// nothing.
    pub fn on_response(&mut self, from: &PeerId, closer: &Vec<PeerId>, record: Option<Record>) -> (
        taken: bool
    )
        requires
            old(self).wf(),
        ensures
            final(self).wf(),
            taken == old(self)@.awaits(*from),
            final(self)@ == old(self)@.respond(
                *from,
                closer@,
                match record {
                    Some(r) => Some(r@),
                    None => None,
                },
            ),
    {
        if !self.awaits(from) {
            return false;
        }
        let ghost before = self@;
        proof {
            lemma_push_fresh(self@.answered, *from);
        }
        self.answered.push(*from);
        let others = peers_other_than(closer, &self.local);
        let mut merged = copy_peers(&self.candidates);
        append_peers(&mut merged, &others);
        let candidates = k_closest(&merged, &self.target, self.width);
        proof {
            lemma_filter_facts(closer@, other_than(self.local));
            if candidates@.contains(self.local) {
                let i = choose|i: int| 0 <= i < candidates@.len() && candidates@[i] == self.local;
                assert(merged@.contains(candidates@[i]));
                let j = choose|j: int| 0 <= j < merged@.len() && merged@[j] == self.local;
                if j < before.candidates.len() {
                    assert(before.candidates[j] == self.local);
                } else {
                    assert(others@[j - before.candidates.len()] == self.local);
                    assert(others@.contains(self.local));
                }
            }
        }
        self.candidates = candidates;
        let getting = match self.kind {
            QueryKind::GetValue => true,
            _ => false,
        };
        match record {
            Some(r) => {
                if getting && same_bytes(r.key.as_slice(), self.key.as_slice()) {
                    let ghost rv = r@;
                    self.found.push(r);
                    assert(self@.found =~= before.found.push(rv));
                } else {
                    assert(self@.found =~= before.found);
                }
            },
            None => {
                assert(self@.found =~= before.found);
            },
        }
        true
    }

    /// Notes that `from` could not be reached: it is taken for answered
    /// and leaves the closest peers. If no answer of it is awaited,
    /// nothing changes.
    pub fn on_unreachable(&mut self, from: &PeerId) -> (taken: bool)
        requires
            old(self).wf(),
        ensures
            final(self).wf(),
            taken == old(self)@.awaits(*from),
            final(self)@ == old(self)@.unreachable(*from),
    {
        proof {
            lemma_unreachable_keeps_form(self@, *from);
        }
        if !self.awaits(from) {
            return false;
        }
        self.answered.push(*from);
        match find_peer(&self.candidates, from) {
            Some(i) => {
                proof {
                    lemma_ascending_distinct(self@.candidates, self@.target);
                    lemma_index_of(self@.candidates, i as int);
                }
                self.candidates.remove(i);
            },
            None => {},
        }
        assert(self@.found =~= old(self)@.found);
        true
    }

    /// Notes that `from` acknowledged the value. An acknowledgment that
    /// does not count changes nothing.
    pub fn on_stored(&mut self, from: &PeerId) -> (counted: bool)
        requires
            old(self).wf(),
        ensures
            final(self).wf(),
            counted == old(self)@.counts(*from),
            final(self)@ == old(self)@.stored(*from),
    {
        proof {
            lemma_stored_keeps_form(self@, *from);
        }
        let storing = match self.stage {
            Stage::Store => true,
            _ => false,
        };
        if storing && find_peer(&self.candidates, from).is_some() && find_peer(
            &self.acks,
            from,
        ).is_none() {
            self.acks.push(*from);
            assert(self@.found =~= old(self)@.found);
            true
        } else {
            false
        }
    }
}

} // verus!
