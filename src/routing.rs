//! The model of a routing-table bucket and the laws of observing a peer into it.
use crate::id::{id_lt, lemma_lt_asymmetric, lemma_lt_transitive, xor_seq};
use crate::message::PeerInfo;
use vstd::prelude::*;

verus! {

/// The distance of a peer from the identifier `me`.
pub open spec fn dist(me: Seq<u8>, p: PeerInfo) -> Seq<u8> {
    xor_seq(me, p.id@)
}

/// Some entry of `s` has the identifier `id`.
pub open spec fn contains_id(s: Seq<PeerInfo>, id: Seq<u8>) -> bool {
    exists|i: int| 0 <= i < s.len() && (#[trigger] s[i]).id@ == id
}

/// No two entries of `s` share an identifier.
pub open spec fn unique_ids(s: Seq<PeerInfo>) -> bool {
    forall|i: int, j: int| 0 <= i < s.len() && 0 <= j < s.len() && i != j ==> (#[trigger] s[i]).id
        != (#[trigger] s[j]).id
}

/// The first entry of `s` that no other entry is farther from `me` than.
pub open spec fn farthest_index(s: Seq<PeerInfo>, me: Seq<u8>) -> int
    decreases s.len(),
{
    if s.len() <= 1 {
        0
    } else {
        let j = farthest_index(s.drop_last(), me);
        if id_lt(dist(me, s[j]), dist(me, s.last())) {
            s.len() - 1
        } else {
            j
        }
    }
}

/// A bucket after `info` has been observed into it by the peer `me`, with
/// capacity `k`: unchanged if `info` is known; otherwise `info` is appended and,
/// when that overflows the bucket, the farthest entry is dropped.
pub open spec fn observed(bucket: Seq<PeerInfo>, info: PeerInfo, me: Seq<u8>, k: nat) -> Seq<
    PeerInfo,
> {
    if contains_id(bucket, info.id@) {
        bucket
    } else if bucket.len() + 1 <= k {
        bucket.push(info)
    } else {
        let all = bucket.push(info);
        all.remove(farthest_index(all, me))
    }
}

/// The farthest index is in range, and no entry is farther from `me` than it.
pub proof fn lemma_farthest_is_max(s: Seq<PeerInfo>, me: Seq<u8>)
    requires
        s.len() >= 1,
    ensures
        0 <= farthest_index(s, me) < s.len(),
        forall|i: int|
            0 <= i < s.len() ==> !id_lt(dist(me, s[farthest_index(s, me)]), #[trigger] dist(me, s[i])),
    decreases s.len(),
{
    if s.len() > 1 {
        let t = s.drop_last();
        lemma_farthest_is_max(t, me);
        let j = farthest_index(t, me);
        assert(t[j] == s[j]);
        let f = farthest_index(s, me);
        assert forall|i: int| 0 <= i < s.len() implies !id_lt(
            dist(me, s[f]),
            #[trigger] dist(me, s[i]),
        ) by {
            if i < s.len() - 1 {
                assert(t[i] == s[i]);
                if f == s.len() - 1 {
                    if id_lt(dist(me, s[f]), dist(me, s[i])) {
                        lemma_lt_transitive(dist(me, s[j]), dist(me, s[f]), dist(me, s[i]));
                    }
                }
            } else if f == s.len() - 1 {
                lemma_lt_asymmetric(dist(me, s[f]), dist(me, s[f]));
            }
        }
    }
}

/// A bucket never grows past `k` by observing, and when an entry has to go it
/// is one that no entry of the old bucket or the new peer is farther than.
pub proof fn lemma_observe_bounded(bucket: Seq<PeerInfo>, info: PeerInfo, me: Seq<u8>, k: nat)
    requires
        bucket.len() <= k,
    ensures
        observed(bucket, info, me, k).len() <= k,
        !contains_id(bucket, info.id@) && bucket.len() == k ==> {
            let all = bucket.push(info);
            exists|j: int|
                #![trigger all.remove(j)]
                0 <= j < all.len() && observed(bucket, info, me, k) == all.remove(j) && forall|
                    i: int,
                |
                    0 <= i < all.len() ==> !id_lt(dist(me, all[j]), #[trigger] dist(me, all[i]))
        },
{
    let all = bucket.push(info);
    lemma_farthest_is_max(all, me);
    if !contains_id(bucket, info.id@) && bucket.len() == k {
        let j = farthest_index(all, me);
        assert(observed(bucket, info, me, k) == all.remove(j));
    }
}

/// Observing the same peer twice leaves the bucket as observing it once.
pub proof fn lemma_observe_idempotent(bucket: Seq<PeerInfo>, info: PeerInfo, me: Seq<u8>, k: nat)
    ensures
        observed(observed(bucket, info, me, k), info, me, k) == observed(bucket, info, me, k),
{
    let once = observed(bucket, info, me, k);
    if !contains_id(bucket, info.id@) {
        let all = bucket.push(info);
        if bucket.len() + 1 <= k {
            assert(once[bucket.len() as int] == info);
        } else {
            lemma_farthest_is_max(all, me);
            let f = farthest_index(all, me);
            if f == bucket.len() {
                assert(once =~= bucket);
            } else {
                assert(once[bucket.len() - 1] == info);
            }
        }
    }
}

} // verus!
