//! Choosing, among known peers, the ones closest to a target.

use crate::id::{distance, lemma_distance_injective, PeerId};
use vstd::prelude::*;

verus! {

/// Each peer is strictly closer to `target` than the peers after it.
pub open spec fn ascending(out: Seq<PeerId>, target: PeerId) -> bool {
    forall|i: int, j: int|
        0 <= i < j < out.len() ==> distance(target, #[trigger] out[i]) < distance(
            target,
            #[trigger] out[j],
        )
}

/// Every peer of `out` is strictly closer to `target` than `peer`.
pub open spec fn all_closer(out: Seq<PeerId>, target: PeerId, peer: PeerId) -> bool {
    forall|i: int| 0 <= i < out.len() ==> distance(target, #[trigger] out[i]) < distance(target, peer)
}

/// `out` holds the peers of `candidates` that are closest to `target`,
/// nearest first: up to `count` of them, and fewer only when there are
/// no more.
pub open spec fn is_closest(
    out: Seq<PeerId>,
    candidates: Seq<PeerId>,
    target: PeerId,
    count: nat,
) -> bool {
    &&& out.len() <= count
    &&& ascending(out, target)
    &&& forall|i: int| 0 <= i < out.len() ==> candidates.contains(#[trigger] out[i])
    &&& forall|p: PeerId|
        #[trigger] candidates.contains(p) && !out.contains(p) ==> out.len() == count && all_closer(
            out,
            target,
            p,
        )
}

/// The choice of the `count` peers of `candidates` closest to `target`.
pub open spec fn closest_among(candidates: Seq<PeerId>, target: PeerId, count: nat) -> Seq<PeerId> {
    choose|out: Seq<PeerId>| is_closest(out, candidates, target, count)
}

/// Peers in ascending order of distance are all different.
pub proof fn lemma_ascending_distinct(out: Seq<PeerId>, target: PeerId)
    requires
        ascending(out, target),
    ensures
        out.no_duplicates(),
{
    assert forall|i: int, j: int| 0 <= i < out.len() && 0 <= j < out.len() && i != j implies out[i]
        != out[j] by {
        if i < j {
            assert(distance(target, out[i]) < distance(target, out[j]));
        } else {
            assert(distance(target, out[j]) < distance(target, out[i]));
        }
    }
}

/// There is only one choice of the closest peers: two sequences that both
/// are one are equal.
pub proof fn lemma_closest_unique(
    a: Seq<PeerId>,
    b: Seq<PeerId>,
    candidates: Seq<PeerId>,
    target: PeerId,
    count: nat,
)
    requires
        is_closest(a, candidates, target, count),
        is_closest(b, candidates, target, count),
    ensures
        a == b,
{
    lemma_closest_prefix(a, b, candidates, target, count, a.len() as int);
    lemma_closest_prefix(b, a, candidates, target, count, b.len() as int);
    if a.len() <= b.len() {
        lemma_closest_prefix(a, b, candidates, target, count, a.len() as int);
    }
    assert(a.len() == b.len());
    assert(a =~= b);
}

/// The first `n` peers of one choice of the closest peers are the first
/// `n` of any other.
proof fn lemma_closest_prefix(
    a: Seq<PeerId>,
    b: Seq<PeerId>,
    candidates: Seq<PeerId>,
    target: PeerId,
    count: nat,
    n: int,
)
    requires
        is_closest(a, candidates, target, count),
        is_closest(b, candidates, target, count),
        0 <= n <= a.len(),
    ensures
        n <= b.len(),
        forall|i: int| 0 <= i < n ==> a[i] == b[i],
    decreases n,
{
    if n > 0 {
        lemma_closest_prefix(a, b, candidates, target, count, n - 1);
        let k = n - 1;
        let x = a[k];
        assert(candidates.contains(x));
        lemma_ascending_distinct(a, target);
        lemma_ascending_distinct(b, target);
        if k >= b.len() {
            if b.contains(x) {
                let j = choose|j: int| 0 <= j < b.len() && b[j] == x;
                assert(a[j] == b[j]);
            }
            assert(b.len() == count);
        }
        let y = b[k];
        assert(candidates.contains(y));
        if y != x {
            if distance(target, y) == distance(target, x) {
                lemma_distance_injective(target, y, x);
            }
            if distance(target, y) < distance(target, x) {
                lemma_misplaced(a, b, target, k);
                assert(all_closer(a, target, y));
                assert(distance(target, a[k]) < distance(target, y));
            } else {
                lemma_misplaced(b, a, target, k);
                assert(all_closer(b, target, x));
                assert(distance(target, b[k]) < distance(target, x));
            }
        }
    }
}

/// Where two ascending sequences agree before position `k` and the
/// second has there a peer closer than the first has, the first does
/// not hold that peer.
proof fn lemma_misplaced(a: Seq<PeerId>, b: Seq<PeerId>, target: PeerId, k: int)
    requires
        ascending(a, target),
        ascending(b, target),
        0 <= k < a.len(),
        k < b.len(),
        forall|i: int| 0 <= i < k ==> a[i] == b[i],
        distance(target, b[k]) < distance(target, a[k]),
    ensures
        !a.contains(b[k]),
{
    let y = b[k];
    if a.contains(y) {
        let m = choose|m: int| 0 <= m < a.len() && a[m] == y;
        if m < k {
            assert(b[m] == a[m]);
            assert(distance(target, b[m]) < distance(target, b[k]));
        } else if m > k {
            assert(distance(target, a[k]) < distance(target, a[m]));
        }
    }
}

/// Putting a peer between the closer and the farther ones keeps the
/// order, and adds that peer and no other.
proof fn lemma_insert_sorted(out: Seq<PeerId>, pos: int, x: PeerId, target: PeerId)
    requires
        ascending(out, target),
        0 <= pos <= out.len(),
        forall|i: int| 0 <= i < pos ==> distance(target, #[trigger] out[i]) < distance(target, x),
        forall|i: int|
            pos <= i < out.len() ==> distance(target, x) < distance(target, #[trigger] out[i]),
    ensures
        ascending(out.insert(pos, x), target),
        forall|p: PeerId| #[trigger] out.insert(pos, x).contains(p) <==> (out.contains(p) || p == x),
{
    let grown = out.insert(pos, x);
    assert forall|i: int, j: int| 0 <= i < j < grown.len() implies distance(
        target,
        #[trigger] grown[i],
    ) < distance(target, #[trigger] grown[j]) by {
        let oi = if i < pos { i } else { i - 1 };
        let oj = if j < pos { j } else { j - 1 };
        if i == pos {
            assert(grown[j] == out[oj]);
        } else if j == pos {
            assert(grown[i] == out[oi]);
        } else {
            assert(grown[i] == out[oi] && grown[j] == out[oj]);
        }
    }
    assert forall|p: PeerId| #[trigger] grown.contains(p) <==> (out.contains(p) || p == x) by {
        if grown.contains(p) {
            let i = choose|i: int| 0 <= i < grown.len() && grown[i] == p;
            if i < pos {
                assert(out[i] == p);
            } else if i > pos {
                assert(out[i - 1] == p);
            }
        }
        if out.contains(p) {
            let i = choose|i: int| 0 <= i < out.len() && out[i] == p;
            if i < pos {
                assert(grown[i] == p);
            } else {
                assert(grown[i + 1] == p);
            }
        }
        if p == x {
            assert(grown[pos] == p);
        }
    }
}

/// Without its last peer an ascending sequence is ascending, all of it
/// closer than that peer, which alone has left.
proof fn lemma_drop_farthest(out: Seq<PeerId>, target: PeerId)
    requires
        ascending(out, target),
        out.len() > 0,
    ensures
        ascending(out.drop_last(), target),
        all_closer(out.drop_last(), target, out.last()),
        forall|p: PeerId| #[trigger]
            out.contains(p) <==> (out.drop_last().contains(p) || p == out.last()),
{
    let cut = out.drop_last();
    assert forall|i: int, j: int| 0 <= i < j < cut.len() implies distance(target, #[trigger] cut[i])
        < distance(target, #[trigger] cut[j]) by {
        assert(cut[i] == out[i] && cut[j] == out[j]);
    }
    assert forall|i: int| 0 <= i < cut.len() implies distance(target, #[trigger] cut[i]) < distance(
        target,
        out.last(),
    ) by {
        assert(cut[i] == out[i]);
        assert(distance(target, out[i]) < distance(target, out[out.len() - 1]));
    }
    assert forall|p: PeerId| #[trigger] out.contains(p) <==> (cut.contains(p) || p == out.last()) by {
        if out.contains(p) {
            let i = choose|i: int| 0 <= i < out.len() && out[i] == p;
            if i < cut.len() {
                assert(cut[i] == p);
            }
        }
        if cut.contains(p) {
            let i = choose|i: int| 0 <= i < cut.len() && cut[i] == p;
            assert(out[i] == p);
        }
        if p == out.last() {
            assert(out[out.len() - 1] == p);
        }
    }
}

/// How a choice of closest peers stands after the peer `x` was offered
/// to it: still in order and within `count`, made of peers it had and
/// `x`, and whoever is left out is farther than all that are in.
pub open spec fn offered(
    before: Seq<PeerId>,
    after: Seq<PeerId>,
    target: PeerId,
    x: PeerId,
    count: nat,
) -> bool {
    &&& before.len() <= after.len() <= count
    &&& ascending(after, target)
    &&& forall|p: PeerId| #[trigger] after.contains(p) ==> before.contains(p) || p == x
    &&& forall|p: PeerId|
        (#[trigger] before.contains(p) || p == x) && !after.contains(p) ==> after.len() == count
            && all_closer(after, target, p)
    &&& !after.contains(x) ==> after.len() == count && all_closer(after, target, x)
    &&& forall|q: PeerId|
        before.len() == count && #[trigger] all_closer(before, target, q) ==> all_closer(
            after,
            target,
            q,
        )
}

/// Offering one more candidate to the choice among the candidates so far
/// gives the choice among all of them.
proof fn lemma_offer_extends(
    before: Seq<PeerId>,
    after: Seq<PeerId>,
    seen: Seq<PeerId>,
    target: PeerId,
    x: PeerId,
    count: nat,
)
    requires
        is_closest(before, seen, target, count),
        offered(before, after, target, x, count),
    ensures
        is_closest(after, seen.push(x), target, count),
{
    let next = seen.push(x);
    assert forall|p: PeerId| #[trigger] next.contains(p) <==> (seen.contains(p) || p == x) by {
        if next.contains(p) {
            let i = choose|i: int| 0 <= i < next.len() && next[i] == p;
            if i < seen.len() {
                assert(seen[i] == p);
            }
        }
        if seen.contains(p) {
            let i = choose|i: int| 0 <= i < seen.len() && seen[i] == p;
            assert(next[i] == p);
        }
        if p == x {
            assert(next[seen.len() as int] == p);
        }
    }
    assert forall|i: int| 0 <= i < after.len() implies next.contains(#[trigger] after[i]) by {
        let p = after[i];
        assert(after.contains(p));
        if before.contains(p) {
            let m = choose|m: int| 0 <= m < before.len() && before[m] == p;
            assert(seen.contains(before[m]));
        }
    }
    assert forall|p: PeerId| #[trigger] next.contains(p) && !after.contains(p) implies after.len()
        == count && all_closer(after, target, p) by {
        if p == x {
        } else if before.contains(p) {
        } else {
            assert(seen.contains(p));
            assert(before.len() == count && all_closer(before, target, p));
        }
    }
}

/// Offers the peer `x` to a choice of at most `count` closest peers.
fn offer(out: &mut Vec<PeerId>, target: &PeerId, x: PeerId, count: usize)
    requires
        count > 0,
        old(out)@.len() <= count,
        ascending(old(out)@, *target),
    ensures
        offered(old(out)@, final(out)@, *target, x, count as nat),
{
    let ghost before = out@;
    let mut pos: usize = 0;
    while pos < out.len() && target.closer(&out[pos], &x)
        invariant
            pos <= out@.len(),
            out@ == before,
            forall|i: int| 0 <= i < pos ==> distance(*target, #[trigger] out@[i]) < distance(
                *target,
                x,
            ),
        decreases out@.len() - pos,
    {
        pos += 1;
    }
    if pos < out.len() && out[pos].same(&x) {
        assert(before.contains(x));
        return ;
    }
    if pos == out.len() && out.len() >= count {
        proof {
            if before.contains(x) {
                let i = choose|i: int| 0 <= i < before.len() && before[i] == x;
                assert(distance(*target, before[i]) < distance(*target, x));
            }
        }
        return ;
    }
    proof {
        if pos < before.len() {
            if distance(*target, before[pos as int]) == distance(*target, x) {
                lemma_distance_injective(*target, before[pos as int], x);
            }
            assert forall|i: int| pos <= i < before.len() implies distance(*target, x) < distance(
                *target,
                #[trigger] before[i],
            ) by {
                if i > pos {
                    assert(distance(*target, before[pos as int]) < distance(*target, before[i]));
                }
            }
        }
        lemma_insert_sorted(before, pos as int, x, *target);
    }
    out.insert(pos, x);
    let ghost grown = out@;
    if out.len() > count {
        proof {
            lemma_drop_farthest(grown, *target);
        }
        let last = out.pop().unwrap();
        proof {
            let cut = out@;
            assert(cut =~= grown.drop_last());
            assert(last == grown.last());
            assert(grown[grown.len() - 1] == before[before.len() - 1]);
            assert(before.contains(last));
            assert(cut.contains(x)) by {
                assert(cut[pos as int] == x);
            }
            assert forall|p: PeerId|
                (#[trigger] before.contains(p) || p == x) && !cut.contains(p) implies cut.len()
                == count && all_closer(cut, *target, p) by {
                assert(grown.contains(p));
                assert(p == last);
            }
            assert forall|q: PeerId|
                before.len() == count && #[trigger] all_closer(before, *target, q) implies all_closer(
                cut,
                *target,
                q,
            ) by {
                assert(distance(*target, before[before.len() - 1]) < distance(*target, q));
            }
        }
    } else {
        proof {
            assert(grown.contains(x));
            assert forall|p: PeerId|
                (#[trigger] before.contains(p) || p == x) && !grown.contains(p) implies grown.len()
                == count && all_closer(grown, *target, p) by {
                assert(grown.contains(p));
            }
            assert forall|q: PeerId|
                before.len() == count && #[trigger] all_closer(before, *target, q) implies all_closer(
                grown,
                *target,
                q,
            ) by {}
        }
    }
}

/// The `count` peers of `candidates` that are closest to `target`,
/// nearest first.
pub fn k_closest(candidates: &Vec<PeerId>, target: &PeerId, count: usize) -> (out: Vec<PeerId>)
    ensures
        is_closest(out@, candidates@, *target, count as nat),
        out@ == closest_among(candidates@, *target, count as nat),
{
    let out = choose_closest(candidates, target, count);
    proof {
        lemma_closest_unique(
            out@,
            closest_among(candidates@, *target, count as nat),
            candidates@,
            *target,
            count as nat,
        );
    }
    out
}

fn choose_closest(candidates: &Vec<PeerId>, target: &PeerId, count: usize) -> (out: Vec<PeerId>)
    ensures
        is_closest(out@, candidates@, *target, count as nat),
{
    let mut out: Vec<PeerId> = Vec::new();
    if count == 0 {
        return out;
    }
    let mut n: usize = 0;
    assert(candidates@.take(0) =~= Seq::<PeerId>::empty());
    while n < candidates.len()
        invariant
            n <= candidates@.len(),
            count > 0,
            is_closest(out@, candidates@.take(n as int), *target, count as nat),
        decreases candidates@.len() - n,
    {
        let ghost before = out@;
        offer(&mut out, target, candidates[n], count);
        proof {
            lemma_offer_extends(
                before,
                out@,
                candidates@.take(n as int),
                *target,
                candidates@[n as int],
                count as nat,
            );
            assert(candidates@.take(n + 1) =~= candidates@.take(n as int).push(
                candidates@[n as int],
            ));
        }
        n += 1;
    }
    assert(candidates@.take(candidates@.len() as int) =~= candidates@);
    out
}

} // verus!
