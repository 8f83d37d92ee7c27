//! Peer identifiers and the XOR metric on them.

use vstd::prelude::*;

verus! {

/// A fixed-length digest that names a peer, or places a key, in the overlay.
#[derive(Clone, Copy, Debug, PartialEq, Eq, PartialOrd, Ord, Hash)]
pub struct PeerId {
    pub bytes: [u8; 32],
}

/// Bytewise XOR of two sequences, as long as the first.
pub open spec fn xor_bytes(a: Seq<u8>, b: Seq<u8>) -> Seq<u8> {
    Seq::new(a.len(), |i: int| a[i] ^ b[i])
}

/// The unsigned integer that a sequence of bytes spells, most significant
/// byte first.
pub open spec fn be_value(s: Seq<u8>) -> nat
    decreases s.len(),
{
    if s.len() == 0 {
        0
    } else {
        be_value(s.drop_last()) * 256 + s.last() as nat
    }
}

/// Number of zero bits above the highest set bit of a byte; 8 for zero.
pub open spec fn byte_leading_zeros(x: u8) -> nat {
    if x >= 128 {
        0
    } else if x >= 64 {
        1
    } else if x >= 32 {
        2
    } else if x >= 16 {
        3
    } else if x >= 8 {
        4
    } else if x >= 4 {
        5
    } else if x >= 2 {
        6
    } else if x >= 1 {
        7
    } else {
        8
    }
}

/// Number of zero bits before the first set bit of a sequence of bytes.
pub open spec fn leading_zeros(s: Seq<u8>) -> nat
    decreases s.len(),
{
    if s.len() == 0 {
        0
    } else if s[0] == 0 {
        8 + leading_zeros(s.skip(1))
    } else {
        byte_leading_zeros(s[0])
    }
}

/// XOR distance between two identifiers, as an unsigned integer.
pub open spec fn distance(a: PeerId, b: PeerId) -> nat {
    be_value(xor_bytes(a.bytes@, b.bytes@))
}

/// Number of leading bits that two identifiers share.
pub open spec fn shared_prefix(a: PeerId, b: PeerId) -> nat {
    leading_zeros(xor_bytes(a.bytes@, b.bytes@))
}

impl PeerId {
    /// The identifier with these bytes.
    pub fn new(bytes: [u8; 32]) -> (id: PeerId)
        ensures
            id.bytes == bytes,
    {
        PeerId { bytes }
    }

    /// Whether two identifiers are equal.
    pub fn same(&self, other: &PeerId) -> (r: bool)
        ensures
            r == (*self == *other),
    {
        let mut i: usize = 0;
        while i < 32
            invariant
                i <= 32,
                forall|j: int| 0 <= j < i ==> self.bytes[j] == other.bytes[j],
            decreases 32 - i,
        {
            if self.bytes[i] != other.bytes[i] {
                return false;
            }
            i += 1;
        }
        assert(self.bytes =~= other.bytes);
        true
    }

    /// Whether `a` is strictly closer to `self` than `b` is.
    pub fn closer(&self, a: &PeerId, b: &PeerId) -> (r: bool)
        ensures
            r == (distance(*self, *a) < distance(*self, *b)),
    {
        let ghost xa = xor_bytes(self.bytes@, a.bytes@);
        let ghost xb = xor_bytes(self.bytes@, b.bytes@);
        let mut i: usize = 0;
        while i < 32
            invariant
                i <= 32,
                xa == xor_bytes(self.bytes@, a.bytes@),
                xb == xor_bytes(self.bytes@, b.bytes@),
                forall|j: int| 0 <= j < i ==> xa[j] == xb[j],
            decreases 32 - i,
        {
            let da: u8 = self.bytes[i] ^ a.bytes[i];
            let db: u8 = self.bytes[i] ^ b.bytes[i];
            if da < db {
                proof {
                    lemma_first_difference_decides(xa, xb, i as int);
                }
                return true;
            }
            if db < da {
                proof {
                    lemma_first_difference_decides(xb, xa, i as int);
                }
                return false;
            }
            i += 1;
        }
        assert(xa =~= xb);
        false
    }

    /// Whether `self` comes before `other` in the order of identifiers,
    /// which is that of the unsigned integers that they spell.
    pub fn precedes(&self, other: &PeerId) -> (r: bool)
        ensures
            r == (be_value(self.bytes@) < be_value(other.bytes@)),
    {
        let mut i: usize = 0;
        while i < 32
            invariant
                i <= 32,
                forall|j: int| 0 <= j < i ==> self.bytes@[j] == other.bytes@[j],
            decreases 32 - i,
        {
            if self.bytes[i] < other.bytes[i] {
                proof {
                    lemma_first_difference_decides(self.bytes@, other.bytes@, i as int);
                }
                return true;
            }
            if other.bytes[i] < self.bytes[i] {
                proof {
                    lemma_first_difference_decides(other.bytes@, self.bytes@, i as int);
                }
                return false;
            }
            i += 1;
        }
        assert(self.bytes@ =~= other.bytes@);
        false
    }

    /// Number of leading bits that `self` and `other` share: 256 exactly
    /// when the two are equal.
    pub fn prefix_len(&self, other: &PeerId) -> (n: usize)
        ensures
            n == shared_prefix(*self, *other),
            n <= 256,
            (n == 256) == (*self == *other),
    {
        let ghost x = xor_bytes(self.bytes@, other.bytes@);
        let mut i: usize = 0;
        while i < 32
            invariant
                i <= 32,
                x == xor_bytes(self.bytes@, other.bytes@),
                forall|j: int| 0 <= j < i ==> x[j] == 0,
            decreases 32 - i,
        {
            let d: u8 = self.bytes[i] ^ other.bytes[i];
            if d != 0 {
                proof {
                    lemma_shared_prefix_full(*self, *other);
                    lemma_leading_zeros_skip(x, i as int);
                    assert(x.skip(i as int)[0] == d);
                }
                return 8 * i + byte_lz(d);
            }
            i += 1;
        }
        proof {
            lemma_shared_prefix_full(*self, *other);
            lemma_leading_zeros_skip(x, 32);
            assert(x.skip(32).len() == 0);
        }
        256
    }
}

/// Position of `id` in `ids`, if it is there.
pub fn find_peer(ids: &Vec<PeerId>, id: &PeerId) -> (found: Option<usize>)
    ensures
        found.is_some() == ids@.contains(*id),
        found.is_some() ==> found.unwrap() < ids@.len() && ids@[found.unwrap() as int] == *id,
{
    let mut i: usize = 0;
    while i < ids.len()
        invariant
            i <= ids@.len(),
            forall|j: int| 0 <= j < i ==> ids@[j] != *id,
        decreases ids@.len() - i,
    {
        if ids[i].same(id) {
            return Some(i);
        }
        i += 1;
    }
    None
}

/// Number of zero bits above the highest set bit of `x`.
pub fn byte_lz(x: u8) -> (n: usize)
    ensures
        n == byte_leading_zeros(x),
        n <= 8,
{
    if x >= 128 {
        0
    } else if x >= 64 {
        1
    } else if x >= 32 {
        2
    } else if x >= 16 {
        3
    } else if x >= 8 {
        4
    } else if x >= 4 {
        5
    } else if x >= 2 {
        6
    } else if x >= 1 {
        7
    } else {
        8
    }
}

/// Two byte strings of one length that agree before position `i`, the
/// first being smaller at `i`, spell numbers in that order.
pub proof fn lemma_first_difference_decides(s: Seq<u8>, t: Seq<u8>, i: int)
    requires
        s.len() == t.len(),
        0 <= i < s.len(),
        forall|j: int| 0 <= j < i ==> s[j] == t[j],
        s[i] < t[i],
    ensures
        be_value(s) < be_value(t),
    decreases s.len(),
{
    if i == s.len() - 1 {
        assert(s.drop_last() =~= t.drop_last());
    } else {
        lemma_first_difference_decides(s.drop_last(), t.drop_last(), i);
    }
}

/// Byte strings of one length that spell the same number are equal.
pub proof fn lemma_be_value_injective(s: Seq<u8>, t: Seq<u8>)
    requires
        s.len() == t.len(),
        be_value(s) == be_value(t),
    ensures
        s == t,
    decreases s.len(),
{
    if s.len() > 0 {
        lemma_be_value_injective(s.drop_last(), t.drop_last());
        assert(s =~= s.drop_last().push(s.last()));
        assert(t =~= t.drop_last().push(t.last()));
    } else {
        assert(s =~= t);
    }
}

/// After `i` zero bytes, the count of leading zero bits is `8 * i` more
/// than that of the rest.
pub proof fn lemma_leading_zeros_skip(s: Seq<u8>, i: int)
    requires
        0 <= i <= s.len(),
        forall|j: int| 0 <= j < i ==> s[j] == 0,
    ensures
        leading_zeros(s) == 8 * i + leading_zeros(s.skip(i)),
    decreases i,
{
    if i == 0 {
        assert(s.skip(0) =~= s);
    } else {
        let rest = s.skip(1);
        assert forall|j: int| 0 <= j < i - 1 implies rest[j] == 0 by {
            assert(rest[j] == s[j + 1]);
        }
        lemma_leading_zeros_skip(rest, i - 1);
        assert(rest.skip(i - 1) =~= s.skip(i));
    }
}

/// A byte string has at most eight leading zero bits per byte, and that
/// many exactly when every byte is zero.
pub proof fn lemma_leading_zeros_bound(s: Seq<u8>)
    ensures
        leading_zeros(s) <= 8 * s.len(),
        (leading_zeros(s) == 8 * s.len()) == (forall|j: int| 0 <= j < s.len() ==> s[j] == 0),
    decreases s.len(),
{
    if s.len() > 0 {
        let rest = s.skip(1);
        lemma_leading_zeros_bound(rest);
        if s[0] == 0 {
            if forall|j: int| 0 <= j < rest.len() ==> rest[j] == 0 {
                assert forall|j: int| 0 <= j < s.len() implies s[j] == 0 by {
                    if j > 0 {
                        assert(rest[j - 1] == s[j]);
                    }
                }
            } else {
                let j = choose|j: int| 0 <= j < rest.len() && rest[j] != 0;
                assert(s[j + 1] == rest[j]);
            }
        }
    }
}

/// XOR of two bytes is zero exactly when they are equal, and does not
/// depend on their order.
pub proof fn lemma_xor_byte(a: u8, b: u8)
    ensures
        (a ^ b == 0) == (a == b),
        a ^ b == b ^ a,
{
    assert((a ^ b == 0) == (a == b)) by (bit_vector);
    assert(a ^ b == b ^ a) by (bit_vector);
}

/// Two identifiers share all 256 bits exactly when they are equal.
pub proof fn lemma_shared_prefix_full(a: PeerId, b: PeerId)
    ensures
        shared_prefix(a, b) <= 256,
        (shared_prefix(a, b) == 256) == (a == b),
{
    let x = xor_bytes(a.bytes@, b.bytes@);
    lemma_leading_zeros_bound(x);
    if a == b {
        assert forall|j: int| 0 <= j < x.len() implies x[j] == 0 by {
            lemma_xor_byte(a.bytes@[j], b.bytes@[j]);
        }
    } else if forall|j: int| 0 <= j < x.len() ==> x[j] == 0 {
        assert forall|j: int| 0 <= j < 32 implies a.bytes[j] == b.bytes[j] by {
            assert(x[j] == 0);
            lemma_xor_byte(a.bytes@[j], b.bytes@[j]);
        }
        assert(a.bytes =~= b.bytes);
    }
}

/// A byte string that is not all zero has a first byte that is not
/// zero, where its leading zero bits end.
pub proof fn lemma_first_set_byte(s: Seq<u8>) -> (i: int)
    requires
        exists|j: int| 0 <= j < s.len() && s[j] != 0,
    ensures
        0 <= i < s.len(),
        forall|j: int| 0 <= j < i ==> s[j] == 0,
        s[i] != 0,
        leading_zeros(s) == 8 * i + byte_leading_zeros(s[i]),
    decreases s.len(),
{
    if s[0] != 0 {
        0
    } else {
        let rest = s.skip(1);
        let j = choose|j: int| 0 <= j < s.len() && s[j] != 0;
        assert(rest[j - 1] == s[j]);
        let i = lemma_first_set_byte(rest);
        assert(rest[i] == s[i + 1]);
        assert forall|k: int| 0 <= k < i + 1 implies s[k] == 0 by {
            if k > 0 {
                assert(rest[k - 1] == s[k]);
            }
        }
        i + 1
    }
}

/// Of two identifiers, the one that shares the longer prefix with a
/// third is the closer to it: the peers of a bucket are closer to the
/// node than those of every bucket before it.
pub proof fn lemma_longer_prefix_is_closer(t: PeerId, a: PeerId, b: PeerId)
    requires
        shared_prefix(t, a) < shared_prefix(t, b),
    ensures
        distance(t, b) < distance(t, a),
{
    let xa = xor_bytes(t.bytes@, a.bytes@);
    let xb = xor_bytes(t.bytes@, b.bytes@);
    lemma_leading_zeros_bound(xa);
    lemma_leading_zeros_bound(xb);
    let i = lemma_first_set_byte(xa);
    if exists|j: int| 0 <= j < xb.len() && xb[j] != 0 {
        let k = lemma_first_set_byte(xb);
        assert(k >= i);
        if k > i {
            assert(xb[i] == 0);
        }
    }
    assert forall|j: int| 0 <= j < i implies xb[j] == xa[j] by {}
    assert(xb[i] < xa[i]);
    lemma_first_difference_decides(xb, xa, i);
}

/// The distance is symmetric.
pub proof fn lemma_distance_symmetric(a: PeerId, b: PeerId)
    ensures
        distance(a, b) == distance(b, a),
{
    let x = xor_bytes(a.bytes@, b.bytes@);
    let y = xor_bytes(b.bytes@, a.bytes@);
    assert forall|j: int| 0 <= j < x.len() implies x[j] == y[j] by {
        lemma_xor_byte(a.bytes@[j], b.bytes@[j]);
    }
    assert(x =~= y);
}

/// From one point, two identifiers at the same distance are the same
/// identifier; in particular only the point itself is at distance zero.
pub proof fn lemma_distance_injective(t: PeerId, a: PeerId, b: PeerId)
    requires
        distance(t, a) == distance(t, b),
    ensures
        a == b,
{
    let x = xor_bytes(t.bytes@, a.bytes@);
    let y = xor_bytes(t.bytes@, b.bytes@);
    lemma_be_value_injective(x, y);
    assert forall|j: int| 0 <= j < 32 implies a.bytes[j] == b.bytes[j] by {
        assert(x[j] == y[j]);
        let tj = t.bytes@[j];
        let aj = a.bytes@[j];
        let bj = b.bytes@[j];
        assert((tj ^ aj) == (tj ^ bj) ==> aj == bj) by (bit_vector);
    }
    assert(a.bytes =~= b.bytes);
}

/// An identifier is at distance zero from itself.
pub proof fn lemma_distance_self(a: PeerId)
    ensures
        distance(a, a) == 0,
{
    let x = xor_bytes(a.bytes@, a.bytes@);
    assert forall|j: int| 0 <= j < x.len() implies x[j] == 0 by {
        lemma_xor_byte(a.bytes@[j], a.bytes@[j]);
    }
    lemma_be_value_zero(x);
}

/// A string of zero bytes spells zero.
pub proof fn lemma_be_value_zero(s: Seq<u8>)
    requires
        forall|j: int| 0 <= j < s.len() ==> s[j] == 0,
    ensures
        be_value(s) == 0,
    decreases s.len(),
{
    if s.len() > 0 {
        lemma_be_value_zero(s.drop_last());
    }
}

} // verus!
