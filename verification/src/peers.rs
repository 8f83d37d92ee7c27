//! Lists of peers.

use crate::id::{find_peer, PeerId};
use crate::seqs::{lemma_filter_none, lemma_filter_step};
use vstd::prelude::*;

verus! {

/// Holds of every peer but `peer`.
pub open spec fn other_than(peer: PeerId) -> spec_fn(PeerId) -> bool {
    |p: PeerId| p != peer
}

/// Holds of the peers that are not in `list`.
pub open spec fn not_among(list: Seq<PeerId>) -> spec_fn(PeerId) -> bool {
    |p: PeerId| !list.contains(p)
}

/// The peers of `src` other than `peer`, in their order.
pub fn peers_other_than(src: &Vec<PeerId>, peer: &PeerId) -> (out: Vec<PeerId>)
    ensures
        out@ == src@.filter(other_than(*peer)),
{
    let ghost keep = other_than(*peer);
    let mut out: Vec<PeerId> = Vec::new();
    let mut i: usize = 0;
    proof {
        lemma_filter_none(src@, keep);
    }
    while i < src.len()
        invariant
            i <= src@.len(),
            keep == other_than(*peer),
            out@ == src@.take(i as int).filter(keep),
        decreases src@.len() - i,
    {
        proof {
            lemma_filter_step(src@, keep, i as int);
        }
        if !src[i].same(peer) {
            out.push(src[i]);
        }
        i += 1;
    }
    assert(src@.take(src@.len() as int) =~= src@);
    out
}

/// The peers of `src` that are not in `excluded`, in their order.
pub fn peers_not_among(src: &Vec<PeerId>, excluded: &Vec<PeerId>) -> (out: Vec<PeerId>)
    ensures
        out@ == src@.filter(not_among(excluded@)),
{
    let ghost keep = not_among(excluded@);
    let mut out: Vec<PeerId> = Vec::new();
    let mut i: usize = 0;
    proof {
        lemma_filter_none(src@, keep);
    }
    while i < src.len()
        invariant
            i <= src@.len(),
            keep == not_among(excluded@),
            out@ == src@.take(i as int).filter(keep),
        decreases src@.len() - i,
    {
        proof {
            lemma_filter_step(src@, keep, i as int);
        }
        if find_peer(excluded, &src[i]).is_none() {
            out.push(src[i]);
        }
        i += 1;
    }
    assert(src@.take(src@.len() as int) =~= src@);
    out
}

/// Appends the peers of `src` to `dst`.
pub fn append_peers(dst: &mut Vec<PeerId>, src: &Vec<PeerId>)
    ensures
        final(dst)@ == old(dst)@ + src@,
{
    let mut i: usize = 0;
    while i < src.len()
        invariant
            i <= src@.len(),
            dst@ == old(dst)@ + src@.take(i as int),
        decreases src@.len() - i,
    {
        dst.push(src[i]);
        assert(src@.take(i + 1) =~= src@.take(i as int).push(src@[i as int]));
        i += 1;
    }
    assert(src@.take(src@.len() as int) =~= src@);
}

/// A copy of a list of peers.
pub fn copy_peers(src: &Vec<PeerId>) -> (out: Vec<PeerId>)
    ensures
        out@ == src@,
{
    let mut out: Vec<PeerId> = Vec::new();
    append_peers(&mut out, src);
    assert(out@ =~= src@);
    out
}

} // verus!
