//! Facts about sequences that several modules use.

use vstd::prelude::*;

verus! {

/// Filtering one element more either appends it or changes nothing.
pub proof fn lemma_filter_step<A>(s: Seq<A>, pred: spec_fn(A) -> bool, k: int)
    requires
        0 <= k < s.len(),
    ensures
        s.take(k + 1).filter(pred) == if pred(s[k]) {
            s.take(k).filter(pred).push(s[k])
        } else {
            s.take(k).filter(pred)
        },
{
    reveal(Seq::filter);
    assert(s.take(k + 1).drop_last() =~= s.take(k));
}

/// Filtering nothing gives nothing.
pub proof fn lemma_filter_none<A>(s: Seq<A>, pred: spec_fn(A) -> bool)
    ensures
        s.take(0).filter(pred) == Seq::<A>::empty(),
{
    reveal(Seq::filter);
    assert(s.take(0).filter(pred) =~= Seq::<A>::empty());
}

/// A filtered sequence holds exactly the elements that pass the filter,
/// in their order, and none twice unless the sequence did.
pub proof fn lemma_filter_facts<A>(s: Seq<A>, pred: spec_fn(A) -> bool)
    ensures
        forall|a: A| #[trigger] s.filter(pred).contains(a) <==> (s.contains(a) && pred(a)),
        s.no_duplicates() ==> s.filter(pred).no_duplicates(),
        s.filter(pred).len() <= s.len(),
    decreases s.len(),
{
    reveal(Seq::filter);
    if s.len() > 0 {
        let front = s.drop_last();
        let last = s.last();
        let f = front.filter(pred);
        lemma_filter_facts(front, pred);
        assert forall|a: A| #[trigger] s.filter(pred).contains(a) <==> (s.contains(a) && pred(a)) by {
            if s.filter(pred).contains(a) {
                let i = choose|i: int| 0 <= i < s.filter(pred).len() && s.filter(pred)[i] == a;
                if i < f.len() {
                    assert(f[i] == a);
                    assert(f.contains(a));
                    let j = choose|j: int| 0 <= j < front.len() && front[j] == a;
                    assert(s[j] == a);
                } else {
                    assert(a == last);
                    assert(s[s.len() - 1] == a);
                }
            }
            if s.contains(a) && pred(a) {
                let j = choose|j: int| 0 <= j < s.len() && s[j] == a;
                if j < front.len() {
                    assert(front[j] == a);
                    assert(front.contains(a));
                    assert(f.contains(a));
                    let i = choose|i: int| 0 <= i < f.len() && f[i] == a;
                    assert(s.filter(pred)[i] == a);
                } else {
                    assert(s.filter(pred)[f.len() as int] == a);
                }
            }
        }
        if s.no_duplicates() {
            assert forall|i: int, j: int|
                0 <= i < front.len() && 0 <= j < front.len() && i != j implies front[i]
                != front[j] by {
                assert(s[i] != s[j]);
            }
            if pred(last) {
                let g = f.push(last);
                assert forall|i: int, j: int|
                    0 <= i < g.len() && 0 <= j < g.len() && i != j implies g[i] != g[j] by {
                    if i < f.len() && j < f.len() {
                    } else {
                        let k = if i < f.len() { i } else { j };
                        if f[k] == last {
                            assert(f.contains(last));
                            assert(front.contains(last));
                            let m = choose|m: int| 0 <= m < front.len() && front[m] == last;
                            assert(s[m] == s[s.len() - 1]);
                        }
                    }
                }
            }
        }
    }
}

/// Appending an element that a sequence without duplicates lacks leaves
/// it without duplicates.
pub proof fn lemma_push_fresh<A>(s: Seq<A>, a: A)
    requires
        s.no_duplicates(),
        !s.contains(a),
    ensures
        s.push(a).no_duplicates(),
        forall|b: A| #[trigger] s.push(a).contains(b) <==> (s.contains(b) || b == a),
{
    let g = s.push(a);
    assert forall|i: int, j: int| 0 <= i < g.len() && 0 <= j < g.len() && i != j implies g[i]
        != g[j] by {
        if i < s.len() && j < s.len() {
        } else {
            let k = if i < s.len() { i } else { j };
            if s[k] == a {
                assert(s.contains(a));
            }
        }
    }
    assert forall|b: A| #[trigger] g.contains(b) <==> (s.contains(b) || b == a) by {
        if g.contains(b) {
            let i = choose|i: int| 0 <= i < g.len() && g[i] == b;
            if i < s.len() {
                assert(s[i] == b);
            }
        }
        if s.contains(b) {
            let i = choose|i: int| 0 <= i < s.len() && s[i] == b;
            assert(g[i] == b);
        }
        if b == a {
            assert(g[s.len() as int] == b);
        }
    }
}

/// Whether two byte strings are equal.
pub fn same_bytes(a: &[u8], b: &[u8]) -> (r: bool)
    ensures
        r == (a@ == b@),
{
    if a.len() != b.len() {
        return false;
    }
    let mut i: usize = 0;
    while i < a.len()
        invariant
            i <= a@.len(),
            a@.len() == b@.len(),
            forall|j: int| 0 <= j < i ==> a@[j] == b@[j],
        decreases a@.len() - i,
    {
        if a[i] != b[i] {
            return false;
        }
        i += 1;
    }
    assert(a@ =~= b@);
    true
}

/// A copy of a byte string.
pub fn copy_bytes(a: &[u8]) -> (out: Vec<u8>)
    ensures
        out@ == a@,
{
    let mut out: Vec<u8> = Vec::new();
    let mut i: usize = 0;
    while i < a.len()
        invariant
            i <= a@.len(),
            out@ == a@.take(i as int),
        decreases a@.len() - i,
    {
        out.push(a[i]);
        assert(a@.take(i + 1) =~= a@.take(i as int).push(a@[i as int]));
        i += 1;
    }
    assert(a@.take(a@.len() as int) =~= a@);
    out
}

/// The sequence without its element `a`, if it has one.
pub open spec fn drop_value<A>(s: Seq<A>, a: A) -> Seq<A> {
    if s.contains(a) {
        s.remove(s.index_of(a))
    } else {
        s
    }
}

/// In a sequence without duplicates an element has one position.
pub proof fn lemma_index_of<A>(s: Seq<A>, i: int)
    requires
        s.no_duplicates(),
        0 <= i < s.len(),
    ensures
        s.contains(s[i]),
        s.index_of(s[i]) == i,
{
    let j = s.index_of(s[i]);
    assert(0 <= j < s.len() && s[j] == s[i]);
}

/// What is left after an element was dropped from a sequence without
/// duplicates: all the others, each once.
pub proof fn lemma_drop_value<A>(s: Seq<A>, a: A)
    requires
        s.no_duplicates(),
    ensures
        drop_value(s, a).no_duplicates(),
        forall|b: A| #[trigger] drop_value(s, a).contains(b) <==> (s.contains(b) && b != a),
{
    if s.contains(a) {
        let i = s.index_of(a);
        let r = s.remove(i);
        assert(0 <= i < s.len() && s[i] == a);
        assert forall|x: int, y: int| 0 <= x < r.len() && 0 <= y < r.len() && x != y implies r[x]
            != r[y] by {
            let sx = if x < i { x } else { x + 1 };
            let sy = if y < i { y } else { y + 1 };
            assert(r[x] == s[sx] && r[y] == s[sy]);
        }
        assert forall|b: A| #[trigger] r.contains(b) <==> (s.contains(b) && b != a) by {
            if r.contains(b) {
                let x = choose|x: int| 0 <= x < r.len() && r[x] == b;
                let sx = if x < i { x } else { x + 1 };
                assert(s[sx] == b);
            }
            if s.contains(b) && b != a {
                let y = choose|y: int| 0 <= y < s.len() && s[y] == b;
                let x = if y < i { y } else { y - 1 };
                assert(r[x] == b);
            }
        }
    } else {
        assert forall|b: A| #[trigger] s.contains(b) <==> (s.contains(b) && b != a) by {}
    }
}

} // verus!
