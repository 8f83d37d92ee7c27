//! The routing table of the distributed hash table: known peers in
//! buckets by the length of the prefix that they share with the node.

use crate::closest::{is_closest, k_closest};
use crate::id::{distance, find_peer, shared_prefix, PeerId};
use crate::seqs::{drop_value, lemma_drop_value, lemma_index_of, lemma_push_fresh};
use vstd::prelude::*;

verus! {

/// Number of buckets: one for each length of a shared prefix short of
/// the whole identifier.
pub const BUCKET_COUNT: usize = 256;

/// What became of a peer that was offered to the routing table.
#[derive(Clone, Copy, Debug, PartialEq, Eq)]
pub enum InsertOutcome {
    /// The peer is the node itself: nothing changed.
    Local,
    /// The peer was known and is now the most recently contacted of its
    /// bucket.
    Refreshed,
    /// The peer was added to its bucket.
    Added,
    /// The bucket is full and the peer is closer than its least recently
    /// contacted peer, which is named: whether that one is still alive
    /// decides.
    Full { oldest: PeerId },
    /// The bucket is full and the peer is no closer than its least
    /// recently contacted peer: nothing changed.
    Discarded,
}

/// The routing table as mathematical values.
pub struct RoutingView {
    pub local: PeerId,
    /// How many peers a bucket holds at most.
    pub capacity: nat,
    /// The buckets by shared prefix length, each least recently
    /// contacted peer first.
    pub buckets: Seq<Seq<PeerId>>,
}

impl RoutingView {
    /// What holds of every table.
    pub open spec fn well_formed(self) -> bool {
        &&& self.capacity > 0
        &&& self.buckets.len() == BUCKET_COUNT
        &&& forall|i: int|
            0 <= i < self.buckets.len() ==> (#[trigger] self.buckets[i]).no_duplicates()
                && self.buckets[i].len() <= self.capacity
        &&& forall|i: int, j: int|
            0 <= i < self.buckets.len() && 0 <= j < self.buckets[i].len() ==> shared_prefix(
                self.local,
                #[trigger] self.buckets[i][j],
            ) == i
    }

    /// The bucket that `peer` belongs to.
    pub open spec fn bucket_of(self, peer: PeerId) -> int {
        shared_prefix(self.local, peer) as int
    }

    /// Whether `peer` is in the table.
    pub open spec fn contains(self, peer: PeerId) -> bool {
        exists|i: int| 0 <= i < self.buckets.len() && (#[trigger] self.buckets[i]).contains(peer)
    }

    /// The table with `bucket` in place of the bucket at `i`.
    pub open spec fn with_bucket(self, i: int, bucket: Seq<PeerId>) -> RoutingView {
        RoutingView { buckets: self.buckets.update(i, bucket), ..self }
    }

    /// Table and outcome after `peer` was offered.
    pub open spec fn insert(self, peer: PeerId) -> (RoutingView, InsertOutcome) {
        let i = self.bucket_of(peer);
        if peer == self.local {
            (self, InsertOutcome::Local)
        } else if self.buckets[i].contains(peer) {
            (
                self.with_bucket(i, drop_value(self.buckets[i], peer).push(peer)),
                InsertOutcome::Refreshed,
            )
        } else if self.buckets[i].len() < self.capacity {
            (self.with_bucket(i, self.buckets[i].push(peer)), InsertOutcome::Added)
        } else if distance(self.local, peer) < distance(self.local, self.buckets[i][0]) {
            (self, InsertOutcome::Full { oldest: self.buckets[i][0] })
        } else {
            (self, InsertOutcome::Discarded)
        }
    }

    /// The table after `peer` was contacted: if it is known, it is the
    /// most recently contacted of its bucket.
    pub open spec fn touch(self, peer: PeerId) -> RoutingView {
        let i = self.bucket_of(peer);
        if peer != self.local && self.buckets[i].contains(peer) {
            self.with_bucket(i, drop_value(self.buckets[i], peer).push(peer))
        } else {
            self
        }
    }

    /// The table without `peer`.
    pub open spec fn remove(self, peer: PeerId) -> RoutingView {
        let i = self.bucket_of(peer);
        if peer != self.local && self.buckets[i].contains(peer) {
            self.with_bucket(i, drop_value(self.buckets[i], peer))
        } else {
            self
        }
    }

    /// Table and outcome once it is known whether `oldest` is alive,
    /// which stood in the way of `peer`: a live one stays, as the most
    /// recently contacted, and `peer` is discarded; a dead one leaves and
    /// `peer` is offered again.
    pub open spec fn settle(self, peer: PeerId, oldest: PeerId, alive: bool) -> (
        RoutingView,
        InsertOutcome,
    ) {
        if alive {
            (self.touch(oldest), InsertOutcome::Discarded)
        } else {
            self.remove(oldest).insert(peer)
        }
    }

    /// All peers of the table, bucket after bucket.
    pub open spec fn peers(self) -> Seq<PeerId> {
        flat(self.buckets)
    }
}

/// The buckets one after the other.
pub open spec fn flat(buckets: Seq<Seq<PeerId>>) -> Seq<PeerId>
    decreases buckets.len(),
{
    if buckets.len() == 0 {
        Seq::empty()
    } else {
        flat(buckets.drop_last()) + buckets.last()
    }
}

/// Empty buckets flatten to nothing.
pub proof fn lemma_flat_empty(buckets: Seq<Seq<PeerId>>)
    requires
        forall|i: int| 0 <= i < buckets.len() ==> #[trigger] buckets[i] == Seq::<PeerId>::empty(),
    ensures
        flat(buckets) == Seq::<PeerId>::empty(),
    decreases buckets.len(),
{
    if buckets.len() > 0 {
        lemma_flat_empty(buckets.drop_last());
        assert(buckets.last() == buckets[buckets.len() - 1]);
        assert(flat(buckets) =~= Seq::<PeerId>::empty());
    }
}

/// A peer is in the flattened buckets exactly when it is in one of them.
pub proof fn lemma_flat_contains(buckets: Seq<Seq<PeerId>>, peer: PeerId)
    ensures
        flat(buckets).contains(peer) <==> exists|i: int|
            0 <= i < buckets.len() && (#[trigger] buckets[i]).contains(peer),
    decreases buckets.len(),
{
    if buckets.len() > 0 {
        let front = buckets.drop_last();
        let last = buckets.last();
        lemma_flat_contains(front, peer);
        let f = flat(front);
        let all = flat(buckets);
        if all.contains(peer) {
            let k = choose|k: int| 0 <= k < all.len() && all[k] == peer;
            if k < f.len() {
                assert(f[k] == peer);
                assert(f.contains(peer));
                let i = choose|i: int| 0 <= i < front.len() && (#[trigger] front[i]).contains(peer);
                assert(buckets[i].contains(peer));
            } else {
                assert(last[k - f.len()] == peer);
                assert(buckets[buckets.len() - 1].contains(peer));
            }
        }
        if exists|i: int| 0 <= i < buckets.len() && (#[trigger] buckets[i]).contains(peer) {
            let i = choose|i: int| 0 <= i < buckets.len() && (#[trigger] buckets[i]).contains(peer);
            if i < front.len() {
                assert(front[i].contains(peer));
                assert(f.contains(peer));
                let k = choose|k: int| 0 <= k < f.len() && f[k] == peer;
                assert(all[k] == peer);
            } else {
                let j = choose|j: int| 0 <= j < last.len() && last[j] == peer;
                assert(all[f.len() + j] == peer);
            }
        }
    }
}

/// Buckets without duplicates that share no peer flatten to a sequence
/// without duplicates.
pub proof fn lemma_flat_distinct(buckets: Seq<Seq<PeerId>>)
    requires
        forall|i: int| 0 <= i < buckets.len() ==> (#[trigger] buckets[i]).no_duplicates(),
        forall|i: int, j: int, p: PeerId|
            0 <= i < buckets.len() && 0 <= j < buckets.len() && #[trigger] buckets[i].contains(p)
                && #[trigger] buckets[j].contains(p) ==> i == j,
    ensures
        flat(buckets).no_duplicates(),
    decreases buckets.len(),
{
    if buckets.len() > 0 {
        let front = buckets.drop_last();
        let last = buckets.last();
        assert forall|i: int| 0 <= i < front.len() implies (#[trigger] front[i]).no_duplicates() by {
            assert(buckets[i].no_duplicates());
        }
        assert forall|i: int, j: int, p: PeerId|
            0 <= i < front.len() && 0 <= j < front.len() && #[trigger] front[i].contains(p)
            && #[trigger] front[j].contains(p) implies i == j by {
            assert(buckets[i].contains(p) && buckets[j].contains(p));
        }
        lemma_flat_distinct(front);
        let f = flat(front);
        let all = flat(buckets);
        assert forall|x: int, y: int| 0 <= x < all.len() && 0 <= y < all.len() && x != y implies all[x]
            != all[y] by {
            if x < f.len() && y < f.len() {
            } else if x >= f.len() && y >= f.len() {
                assert(buckets[buckets.len() - 1].no_duplicates());
            } else {
                let a = if x < f.len() { x } else { y };
                let b = if x < f.len() { y } else { x };
                if f[a] == last[b - f.len()] {
                    let p = f[a];
                    assert(f.contains(p));
                    lemma_flat_contains(front, p);
                    let i = choose|i: int| 0 <= i < front.len() && (#[trigger] front[i]).contains(p);
                    assert(buckets[i].contains(p));
                    assert(last.contains(p));
                    assert(buckets[buckets.len() - 1].contains(p));
                }
            }
        }
    }
}

/// A well-formed table holds no peer twice, not in one bucket and not in
/// two, and does not hold the node itself; the peers of bucket `i` are
/// those that share exactly `i` leading bits with the node.
pub proof fn lemma_table_distinct(table: RoutingView)
    requires
        table.well_formed(),
    ensures
        table.peers().no_duplicates(),
        !table.contains(table.local),
        forall|i: int, j: int, p: PeerId|
            0 <= i < table.buckets.len() && 0 <= j < table.buckets.len()
                && #[trigger] table.buckets[i].contains(p) && #[trigger] table.buckets[j].contains(p)
                ==> i == j,
        forall|i: int, a: int, b: int|
            0 <= i < table.buckets.len() && 0 <= a < table.buckets[i].len() && 0 <= b
                < table.buckets[i].len() ==> shared_prefix(
                table.local,
                #[trigger] table.buckets[i][a],
            ) == shared_prefix(table.local, #[trigger] table.buckets[i][b]),
        forall|p: PeerId| table.contains(p) <==> #[trigger] table.peers().contains(p),
{
    assert forall|i: int, j: int, p: PeerId|
        0 <= i < table.buckets.len() && 0 <= j < table.buckets.len()
        && #[trigger] table.buckets[i].contains(p) && #[trigger] table.buckets[j].contains(p)
        implies i == j by {
        let a = choose|a: int| 0 <= a < table.buckets[i].len() && table.buckets[i][a] == p;
        let b = choose|b: int| 0 <= b < table.buckets[j].len() && table.buckets[j][b] == p;
        assert(shared_prefix(table.local, table.buckets[i][a]) == i);
        assert(shared_prefix(table.local, table.buckets[j][b]) == j);
    }
    lemma_flat_distinct(table.buckets);
    if table.contains(table.local) {
        let i = choose|i: int|
            0 <= i < table.buckets.len() && (#[trigger] table.buckets[i]).contains(table.local);
        let a = choose|a: int| 0 <= a < table.buckets[i].len() && table.buckets[i][a] == table.local;
        assert(shared_prefix(table.local, table.buckets[i][a]) == i);
        crate::id::lemma_shared_prefix_full(table.local, table.local);
    }
    assert forall|p: PeerId| table.contains(p) <==> #[trigger] table.peers().contains(p) by {
        lemma_flat_contains(table.buckets, p);
    }
}

/// The buckets are ranges of distance: every peer of a bucket is closer
/// to the node than every peer of the buckets before it.
pub proof fn lemma_buckets_by_distance(table: RoutingView, i: int, a: int, j: int, b: int)
    requires
        table.well_formed(),
        0 <= i < j < table.buckets.len(),
        0 <= a < table.buckets[i].len(),
        0 <= b < table.buckets[j].len(),
    ensures
        distance(table.local, table.buckets[j][b]) < distance(table.local, table.buckets[i][a]),
{
    assert(shared_prefix(table.local, table.buckets[i][a]) == i);
    assert(shared_prefix(table.local, table.buckets[j][b]) == j);
    crate::id::lemma_longer_prefix_is_closer(
        table.local,
        table.buckets[i][a],
        table.buckets[j][b],
    );
}

/// Offering a peer leaves a well-formed table well formed.
pub proof fn lemma_insert_keeps_form(table: RoutingView, peer: PeerId)
    requires
        table.well_formed(),
    ensures
        table.insert(peer).0.well_formed(),
        table.touch(peer).well_formed(),
        table.remove(peer).well_formed(),
        peer != table.local ==> 0 <= table.bucket_of(peer) < BUCKET_COUNT,
{
    crate::id::lemma_shared_prefix_full(table.local, peer);
    if peer != table.local {
        let i = table.bucket_of(peer);
        let b = table.buckets[i];
        lemma_drop_value(b, peer);
        let dropped = drop_value(b, peer);
        assert(dropped.len() <= b.len()) by {
            if b.contains(peer) {
                assert(0 <= b.index_of(peer) < b.len());
            }
        }
        assert forall|j: int| 0 <= j < dropped.len() implies shared_prefix(
            table.local,
            #[trigger] dropped[j],
        ) == i by {
            assert(dropped.contains(dropped[j]));
            assert(b.contains(dropped[j]));
            let k = choose|k: int| 0 <= k < b.len() && b[k] == dropped[j];
            assert(shared_prefix(table.local, table.buckets[i][k]) == i);
        }
        if b.contains(peer) {
            assert(dropped.len() == b.len() - 1) by {
                assert(0 <= b.index_of(peer) < b.len());
            }
            lemma_push_fresh(dropped, peer);
            lemma_bucket_replaced(table, i, dropped.push(peer));
            lemma_bucket_replaced(table, i, dropped);
        } else if b.len() < table.capacity {
            lemma_push_fresh(b, peer);
            lemma_bucket_replaced(table, i, b.push(peer));
        }
    }
}

/// Replacing one bucket by peers of its prefix length, none twice and no
/// more than fit, leaves a well-formed table well formed.
pub proof fn lemma_bucket_replaced(table: RoutingView, i: int, bucket: Seq<PeerId>)
    requires
        table.well_formed(),
        0 <= i < BUCKET_COUNT,
        bucket.no_duplicates(),
        bucket.len() <= table.capacity,
        forall|j: int| 0 <= j < bucket.len() ==> shared_prefix(table.local, #[trigger] bucket[j]) == i,
    ensures
        table.with_bucket(i, bucket).well_formed(),
{
    let after = table.with_bucket(i, bucket);
    assert forall|a: int, j: int|
        0 <= a < after.buckets.len() && 0 <= j < after.buckets[a].len() implies shared_prefix(
        after.local,
        #[trigger] after.buckets[a][j],
    ) == a by {
        if a != i {
            assert(after.buckets[a][j] == table.buckets[a][j]);
        }
    }
}

/// Settling a liveness check leaves a well-formed table well formed.
pub proof fn lemma_settle_keeps_form(table: RoutingView, peer: PeerId, oldest: PeerId, alive: bool)
    requires
        table.well_formed(),
    ensures
        table.settle(peer, oldest, alive).0.well_formed(),
{
    lemma_insert_keeps_form(table, oldest);
    lemma_insert_keeps_form(table.remove(oldest), peer);
}

/// The views of the buckets.
pub open spec fn bucket_views(buckets: Seq<Vec<PeerId>>) -> Seq<Seq<PeerId>> {
    Seq::new(buckets.len(), |i: int| buckets[i]@)
}

/// The routing table of a node.
pub struct RoutingTable {
    local: PeerId,
    capacity: usize,
    buckets: Vec<Vec<PeerId>>,
}

impl View for RoutingTable {
    type V = RoutingView;

    closed spec fn view(&self) -> RoutingView {
        RoutingView {
            local: self.local,
            capacity: self.capacity as nat,
            buckets: bucket_views(self.buckets@),
        }
    }
}

impl RoutingTable {
    /// What holds of every table that `new` made and the methods changed.
    pub open spec fn wf(&self) -> bool {
        self@.well_formed()
    }

    /// An empty table for the node `local` whose buckets hold `capacity`
    /// peers each; there is none for a capacity of zero.
    pub fn new(local: PeerId, capacity: usize) -> (made: Option<RoutingTable>)
        ensures
            made.is_some() == (capacity > 0),
            made.is_some() ==> {
                let t = made.unwrap();
                &&& t.wf()
                &&& t@.local == local
                &&& t@.capacity == capacity
                &&& forall|i: int| 0 <= i < BUCKET_COUNT ==> #[trigger] t@.buckets[i] == Seq::<
                    PeerId,
                >::empty()
            },
    {
        if capacity == 0 {
            return None;
        }
        let mut buckets: Vec<Vec<PeerId>> = Vec::new();
        let mut i: usize = 0;
        while i < 256
            invariant
                i <= 256,
                buckets@.len() == i,
                forall|j: int| 0 <= j < i ==> (#[trigger] buckets@[j])@ == Seq::<PeerId>::empty(),
            decreases 256 - i,
        {
            buckets.push(Vec::new());
            i += 1;
        }
        let t = RoutingTable { local, capacity, buckets };
        assert forall|j: int| 0 <= j < BUCKET_COUNT implies #[trigger] t@.buckets[j] == Seq::<
            PeerId,
        >::empty() by {
            assert(t.buckets@[j]@ == Seq::<PeerId>::empty());
        }
        Some(t)
    }

    /// Whether `peer` is in the table.
    pub fn contains(&self, peer: &PeerId) -> (found: bool)
        requires
            self.wf(),
        ensures
            found == self@.contains(*peer),
    {
        let i = self.local.prefix_len(peer);
        proof {
            lemma_table_distinct(self@);
            if self@.contains(*peer) {
                let a = choose|a: int|
                    0 <= a < self@.buckets.len() && (#[trigger] self@.buckets[a]).contains(*peer);
                let b = choose|b: int| 0 <= b < self@.buckets[a].len() && self@.buckets[a][b] == *peer;
                assert(shared_prefix(self@.local, self@.buckets[a][b]) == a);
            }
        }
        if i == 256 {
            return false;
        }
        let found = find_peer(&self.buckets[i], peer).is_some();
        proof {
            assert(self@.buckets[i as int] == self.buckets@[i as int]@);
        }
        found
    }

    /// Offers a peer that was discovered or contacted.
    pub fn insert(&mut self, peer: PeerId) -> (outcome: InsertOutcome)
        requires
            old(self).wf(),
        ensures
            final(self).wf(),
            (final(self)@, outcome) == old(self)@.insert(peer),
    {
        proof {
            lemma_insert_keeps_form(self@, peer);
        }
        let i = self.local.prefix_len(&peer);
        if i == 256 {
            return InsertOutcome::Local;
        }
        let ghost before = self@;
        let ghost bucket = before.buckets[i as int];
        assert(bucket == self.buckets@[i as int]@);
        match find_peer(&self.buckets[i], &peer) {
            Some(j) => {
                proof {
                    lemma_index_of(bucket, j as int);
                }
                self.buckets[i].remove(j);
                self.buckets[i].push(peer);
                assert(self@.buckets =~= before.buckets.update(
                    i as int,
                    drop_value(bucket, peer).push(peer),
                ));
                InsertOutcome::Refreshed
            },
            None => {
                if self.buckets[i].len() < self.capacity {
                    self.buckets[i].push(peer);
                    assert(self@.buckets =~= before.buckets.update(i as int, bucket.push(peer)));
                    InsertOutcome::Added
                } else {
                    let oldest = self.buckets[i][0];
                    if self.local.closer(&peer, &oldest) {
                        InsertOutcome::Full { oldest }
                    } else {
                        InsertOutcome::Discarded
                    }
                }
            },
        }
    }
    /// Notes that `peer` was contacted: if it is in the table, it becomes
    /// the most recently contacted of its bucket.
    pub fn touch(&mut self, peer: &PeerId) -> (known: bool)
        requires
            old(self).wf(),
        ensures
            final(self).wf(),
            known == old(self)@.contains(*peer),
            final(self)@ == old(self)@.touch(*peer),
    {
        proof {
            lemma_insert_keeps_form(self@, *peer);
            lemma_in_own_bucket(self@, *peer);
        }
        let i = self.local.prefix_len(peer);
        if i == 256 {
            return false;
        }
        let ghost before = self@;
        let ghost bucket = before.buckets[i as int];
        assert(bucket == self.buckets@[i as int]@);
        match find_peer(&self.buckets[i], peer) {
            Some(j) => {
                proof {
                    lemma_index_of(bucket, j as int);
                }
                self.buckets[i].remove(j);
                self.buckets[i].push(*peer);
                assert(self@.buckets =~= before.buckets.update(
                    i as int,
                    drop_value(bucket, *peer).push(*peer),
                ));
                true
            },
            None => false,
        }
    }

    /// Takes `peer` out of the table; tells whether it was there.
    pub fn remove(&mut self, peer: &PeerId) -> (known: bool)
        requires
            old(self).wf(),
        ensures
            final(self).wf(),
            known == old(self)@.contains(*peer),
            final(self)@ == old(self)@.remove(*peer),
    {
        proof {
            lemma_insert_keeps_form(self@, *peer);
            lemma_in_own_bucket(self@, *peer);
        }
        let i = self.local.prefix_len(peer);
        if i == 256 {
            return false;
        }
        let ghost before = self@;
        let ghost bucket = before.buckets[i as int];
        assert(bucket == self.buckets@[i as int]@);
        match find_peer(&self.buckets[i], peer) {
            Some(j) => {
                proof {
                    lemma_index_of(bucket, j as int);
                }
                self.buckets[i].remove(j);
                assert(self@.buckets =~= before.buckets.update(i as int, drop_value(bucket, *peer)));
                true
            },
            None => false,
        }
    }

    /// Settles what `insert` left open with `Full`: `alive` tells whether
    /// the peer `oldest` answered a liveness check.
    pub fn settle(&mut self, peer: PeerId, oldest: PeerId, alive: bool) -> (outcome: InsertOutcome)
        requires
            old(self).wf(),
        ensures
            final(self).wf(),
            (final(self)@, outcome) == old(self)@.settle(peer, oldest, alive),
    {
        if alive {
            self.touch(&oldest);
            InsertOutcome::Discarded
        } else {
            self.remove(&oldest);
            self.insert(peer)
        }
    }

    /// All peers of the table, bucket after bucket.
    pub fn peers(&self) -> (all: Vec<PeerId>)
        ensures
            all@ == self@.peers(),
    {
        let mut all: Vec<PeerId> = Vec::new();
        let ghost buckets = self@.buckets;
        let mut i: usize = 0;
        assert(buckets.take(0) =~= Seq::<Seq<PeerId>>::empty());
        while i < self.buckets.len()
            invariant
                i <= self.buckets@.len(),
                buckets == bucket_views(self.buckets@),
                all@ == flat(buckets.take(i as int)),
            decreases self.buckets@.len() - i,
        {
            let ghost head = all@;
            let mut j: usize = 0;
            while j < self.buckets[i].len()
                invariant
                    i < self.buckets@.len(),
                    j <= self.buckets@[i as int]@.len(),
                    all@ == head + self.buckets@[i as int]@.take(j as int),
                decreases self.buckets@[i as int]@.len() - j,
            {
                all.push(self.buckets[i][j]);
                assert(self.buckets@[i as int]@.take(j + 1) =~= self.buckets@[i as int]@.take(
                    j as int,
                ).push(self.buckets@[i as int]@[j as int]));
                j += 1;
            }
            proof {
                let b = self.buckets@[i as int]@;
                assert(b.take(b.len() as int) =~= b);
                assert(buckets.take(i + 1).drop_last() =~= buckets.take(i as int));
                assert(buckets.take(i + 1).last() == b);
            }
            i += 1;
        }
        assert(buckets.take(buckets.len() as int) =~= buckets);
        all
    }

    /// The `count` peers of the table that are closest to `target`,
    /// nearest first.
    pub fn closest(&self, target: &PeerId, count: usize) -> (out: Vec<PeerId>)
        ensures
            is_closest(out@, self@.peers(), *target, count as nat),
    {
        let all = self.peers();
        k_closest(&all, target, count)
    }
}

/// A peer of a well-formed table is in the bucket of its shared prefix
/// length.
pub proof fn lemma_in_own_bucket(table: RoutingView, peer: PeerId)
    requires
        table.well_formed(),
    ensures
        table.contains(peer) <==> (peer != table.local && table.buckets[table.bucket_of(
            peer,
        )].contains(peer)),
{
    crate::id::lemma_shared_prefix_full(table.local, peer);
    lemma_table_distinct(table);
    if table.contains(peer) {
        let a = choose|a: int|
            0 <= a < table.buckets.len() && (#[trigger] table.buckets[a]).contains(peer);
        let b = choose|b: int| 0 <= b < table.buckets[a].len() && table.buckets[a][b] == peer;
        assert(shared_prefix(table.local, table.buckets[a][b]) == a);
    }
}

} // verus!
