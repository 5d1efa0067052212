//! One peer of the table: its routing table, its store and its pending
//! lookups, driven one inbound message at a time.
use crate::id::{
    bucket_index, bucket_of, compare_ids, id_lt, lemma_distance_to_self, lemma_lt_asymmetric,
    lemma_lt_transitive, lemma_xor_injective, xor_distance, xor_seq, Id,
};
use crate::assoc::{assoc, assoc_find, assoc_put};
use crate::message::{Action, Message, MessageData, PeerInfo};
use crate::prims::{blake2s256, blake2s256_of, next_u64, seeded_rng};
use crate::routing::{
    contains_id, dist, farthest_index, lemma_farthest_is_max, lemma_observe_bounded, observed,
    unique_ids,
};
use std::collections::HashMap;
use vstd::prelude::*;

verus! {

/// Number of buckets in a routing table.
pub const NUM_BUCKETS: usize = 256;

/// Bucket capacity of a new peer.
pub const DEFAULT_K: u32 = 20;

/// A lookup in progress: what is sought, where the outcome goes, and the
/// rounds it has left.
#[derive(Clone, Copy, Debug)]
pub struct PendingFind {
    pub hash: Id,
    pub reply: u64,
    pub ttl: u8,
}

/// The routing table after observing `info`, for the peer `me` with bucket capacity `k`.
pub open spec fn table_observe(t: Seq<Seq<PeerInfo>>, me: Seq<u8>, info: PeerInfo, k: nat) -> Seq<
    Seq<PeerInfo>,
> {
    match bucket_of(xor_seq(me, info.id@)) {
        None => t,
        Some(n) => t.update(n - 1, observed(t[n - 1], info, me, k)),
    }
}

/// `p` is an entry of some bucket of `t`.
pub open spec fn in_table(t: Seq<Seq<PeerInfo>>, p: PeerInfo) -> bool {
    exists|b: int, j: int| 0 <= b < t.len() && 0 <= j < t[b].len() && #[trigger] t[b][j] == p
}

/// The number of entries in the first `b` buckets of `t`.
pub open spec fn size_upto(t: Seq<Seq<PeerInfo>>, b: int) -> nat
    decreases b,
{
    if b <= 0 {
        0
    } else {
        size_upto(t, b - 1) + t[b - 1].len()
    }
}

/// The number of entries in `t`.
pub open spec fn table_size(t: Seq<Seq<PeerInfo>>) -> nat {
    size_upto(t, t.len() as int)
}

/// The entries of `s` are in strictly increasing distance from `target`.
pub open spec fn sorted_by_distance(s: Seq<PeerInfo>, target: Seq<u8>) -> bool {
    forall|i: int, j: int|
        0 <= i < j < s.len() ==> id_lt(#[trigger] dist(target, s[i]), #[trigger] dist(target, s[j]))
}

/// `r` is what a lookup of the `n` candidates nearest to `target` returns, where
/// the candidates are `me` and the entries of `t`: the nearest ones, nearest
/// first, as many as `n` asks and the candidates allow.
pub open spec fn is_closest(
    t: Seq<Seq<PeerInfo>>,
    me: PeerInfo,
    target: Seq<u8>,
    n: nat,
    r: Seq<PeerInfo>,
) -> bool {
    let want = n;
    let have = table_size(t) + 1;
    &&& r.len() == if want < have {
        want
    } else {
        have
    }
    &&& sorted_by_distance(r, target)
    &&& forall|i: int| 0 <= i < r.len() ==> #[trigger] r[i] == me || in_table(t, r[i])
    &&& nearer_than_rest(t, me, target, r)
    &&& r.len() < want ==> has_all_candidates(t, me, r)
}

/// `r` holds `me` and every entry of `t`.
pub open spec fn has_all_candidates(t: Seq<Seq<PeerInfo>>, me: PeerInfo, r: Seq<PeerInfo>) -> bool {
    &&& r.contains(me)
    &&& forall|p: PeerInfo| #[trigger] in_table(t, p) ==> r.contains(p)
}

/// Every candidate (`me` or an entry of `t`) left out of `r` is farther from
/// `target` than every entry of `r`.
pub open spec fn nearer_than_rest(
    t: Seq<Seq<PeerInfo>>,
    me: PeerInfo,
    target: Seq<u8>,
    r: Seq<PeerInfo>,
) -> bool {
    forall|p: PeerInfo, i: int|
        (p == me || in_table(t, p)) && !r.contains(p) && 0 <= i < r.len() ==> id_lt(
            #[trigger] dist(target, r[i]),
            #[trigger] dist(target, p),
        )
}

/// Position `(b2, j2)` of the table comes before position `(b, j)`.
pub open spec fn before(b2: int, j2: int, b: int, j: int) -> bool {
    b2 < b || (b2 == b && j2 < j)
}

/// `p` is `me` or an entry of `t` that comes before position `(b, j)`.
pub open spec fn candidate_before(
    t: Seq<Seq<PeerInfo>>,
    me: PeerInfo,
    p: PeerInfo,
    b: int,
    j: int,
) -> bool {
    p == me || exists|b2: int, j2: int|
        0 <= b2 < t.len() && 0 <= j2 < t[b2].len() && before(b2, j2, b, j) && #[trigger] t[b2][j2]
            == p
}

/// What holds of the nearest candidates found once the table is scanned up to `(b, j)`.
pub open spec fn scan_inv(
    t: Seq<Seq<PeerInfo>>,
    me: PeerInfo,
    target: Seq<u8>,
    n: nat,
    acc: Seq<PeerInfo>,
    b: int,
    j: int,
) -> bool {
    let want: int = if n == 0 {
        1
    } else {
        n as int
    };
    let seen: int = 1 + size_upto(t, b) + j;
    &&& acc.len() >= 1
    &&& acc.len() == if want < seen {
        want
    } else {
        seen
    }
    &&& sorted_by_distance(acc, target)
    &&& forall|i: int| 0 <= i < acc.len() ==> candidate_before(t, me, #[trigger] acc[i], b, j)
    &&& forall|p: PeerInfo|
        #[trigger] candidate_before(t, me, p, b, j) && !acc.contains(p) ==> forall|i: int|
            0 <= i < acc.len() ==> id_lt(#[trigger] dist(target, acc[i]), dist(target, p))
    &&& acc.len() < want ==> forall|p: PeerInfo| #[trigger]
        candidate_before(t, me, p, b, j) ==> acc.contains(p)
}

/// Inserts `x` into `acc`, kept in increasing distance from `target`, and drops
/// the farthest entry when that leaves more than `amount`.
fn insert_bounded(acc: &mut Vec<PeerInfo>, x: PeerInfo, target: &Id, amount: u32)
    requires
        old(acc)@.len() >= 1,
        sorted_by_distance(old(acc)@, target@),
        forall|i: int|
            0 <= i < old(acc)@.len() ==> #[trigger] dist(target@, old(acc)@[i]) != dist(target@, x),
    ensures
        ({
            let (o, n) = (old(acc)@, final(acc)@);
            &&& n.len() == if o.len() + 1 > amount {
                o.len()
            } else {
                o.len() + 1
            }
            &&& sorted_by_distance(n, target@)
            &&& forall|i: int| 0 <= i < n.len() ==> o.contains(#[trigger] n[i]) || n[i] == x
            &&& forall|p: PeerInfo|
                (o.contains(p) || p == x) && !n.contains(p) ==> forall|i: int|
                    0 <= i < n.len() ==> id_lt(#[trigger] dist(target@, n[i]), dist(target@, p))
            &&& o.len() + 1 > amount ==> forall|i: int|
                0 <= i < n.len() ==> #[trigger] n[i] == o.last() || id_lt(
                    dist(target@, n[i]),
                    dist(target@, o.last()),
                )
            &&& n.len() == o.len() + 1 ==> n.contains(x) && forall|i: int|
                0 <= i < o.len() ==> n.contains(#[trigger] o[i])
        }),
{
    let ghost o = acc@;
    let ghost tg = target@;
    let d = xor_distance(target, &x.id);
    let mut pos: usize = 0;
    let mut done = false;
    while !done && pos < acc.len()
        invariant
            acc@ == o,
            pos <= o.len(),
            d@ == dist(tg, x),
            tg == target@,
            forall|i: int| 0 <= i < o.len() ==> #[trigger] dist(tg, o[i]) != dist(tg, x),
            forall|i: int| 0 <= i < pos ==> id_lt(#[trigger] dist(tg, o[i]), d@),
            done ==> pos < o.len() && id_lt(d@, dist(tg, o[pos as int])),
        decreases o.len() - pos + if done {
            0int
        } else {
            1int
        },
    {
        let dp = xor_distance(target, &acc[pos].id);
        if compare_ids(&d, &dp) == -1 {
            done = true;
        } else {
            assert(dist(tg, o[pos as int]) != d@);
            pos = pos + 1;
        }
    }
    acc.insert(pos, x);
    let ghost m = acc@;
    assert(m == o.insert(pos as int, x));
    assert forall|i: int, j: int| 0 <= i < j < m.len() implies id_lt(
        #[trigger] dist(tg, m[i]),
        #[trigger] dist(tg, m[j]),
    ) by {
        if j < pos {
            assert(m[i] == o[i] && m[j] == o[j]);
        } else if j == pos {
            assert(m[i] == o[i]);
        } else if i == pos {
            assert(m[j] == o[j - 1]);
            if j - 1 > pos {
                lemma_lt_transitive(d@, dist(tg, o[pos as int]), dist(tg, o[j - 1]));
            }
        } else if i < pos {
            assert(m[i] == o[i] && m[j] == o[j - 1]);
            lemma_lt_transitive(dist(tg, o[i]), d@, dist(tg, o[pos as int]));
            if j - 1 > pos {
                lemma_lt_transitive(dist(tg, o[i]), dist(tg, o[pos as int]), dist(tg, o[j - 1]));
            }
        } else {
            assert(m[i] == o[i - 1] && m[j] == o[j - 1]);
        }
    }
    assert forall|i: int| 0 <= i < o.len() implies m.contains(#[trigger] o[i]) by {
        if i < pos {
            assert(m[i] == o[i]);
        } else {
            assert(m[i + 1] == o[i]);
        }
    }
    assert(m[pos as int] == x);
    assert forall|i: int| 0 <= i < m.len() implies o.contains(#[trigger] m[i]) || m[i] == x by {
        if i < pos {
            assert(m[i] == o[i]);
        } else if i > pos {
            assert(m[i] == o[i - 1]);
        }
    }
    if acc.len() > amount as usize {
        acc.pop();
        let ghost n = acc@;
        assert(n =~= m.drop_last());
        let ghost y = m.last();
        assert forall|i: int| 0 <= i < n.len() implies #[trigger] n[i] == o.last() || id_lt(
            dist(tg, n[i]),
            dist(tg, o.last()),
        ) by {
            if pos < o.len() {
                assert(m.last() == o.last());
                assert(n[i] == m[i]);
                assert(id_lt(dist(tg, m[i]), dist(tg, m[m.len() - 1])));
            } else {
                assert(n[i] == o[i]);
                if i < o.len() - 1 {
                    assert(id_lt(dist(tg, o[i]), dist(tg, o[o.len() - 1])));
                }
            }
        }
        assert forall|p: PeerInfo| (o.contains(p) || p == x) && !n.contains(p) implies forall|i: int|
            0 <= i < n.len() ==> id_lt(#[trigger] dist(tg, n[i]), dist(tg, p)) by {
            assert(m.contains(p));
            let q = choose|q: int| 0 <= q < m.len() && m[q] == p;
            if q < m.len() - 1 {
                assert(n[q] == p);
            }
            assert forall|i: int| 0 <= i < n.len() implies id_lt(
                #[trigger] dist(tg, n[i]),
                dist(tg, p),
            ) by {
                assert(n[i] == m[i]);
            }
        }
    } else {
        assert forall|p: PeerInfo| (o.contains(p) || p == x) && !m.contains(p) implies forall|i: int|
            0 <= i < m.len() ==> id_lt(#[trigger] dist(tg, m[i]), dist(tg, p)) by {
            if o.contains(p) {
                let q = choose|q: int| 0 <= q < o.len() && o[q] == p;
                assert(m.contains(o[q]));
            }
        }
    }
}

/// `a` hands `reply` the content `data` found under `hash`.
pub open spec fn delivers_found(a: Action, reply: u64, hash: Id, data: Seq<u8>) -> bool {
    match a {
        Action::Deliver { reply: r, result: Some((h, d)) } => r == reply && h == hash && d@ == data,
        _ => false,
    }
}

/// `a` sends `data` from `from` to `to` as found or propagated content.
pub open spec fn sends_data(a: Action, to: PeerInfo, from: PeerInfo, data: Seq<u8>, propagate: bool) -> bool {
    match a {
        Action::Send { to: t, msg } => t == to && msg.from == from && match msg.contents {
            MessageData::FoundData { data: d, propagate: p, .. } => d@ == data && p == propagate,
            _ => false,
        },
        _ => false,
    }
}

/// `a` sends a `Find` for `hash` from `from` to `to`.
pub open spec fn sends_find(a: Action, to: PeerInfo, from: PeerInfo, hash: Id) -> bool {
    match a {
        Action::Send { to: t, msg } => t == to && msg.from == from && match msg.contents {
            MessageData::Find { hash: h, .. } => h == hash,
            _ => false,
        },
        _ => false,
    }
}

/// The message id of a sent `Find` (zero for any other action).
pub open spec fn find_msg_id(a: Action) -> u64 {
    match a {
        Action::Send { msg, .. } => match msg.contents {
            MessageData::Find { id, .. } => id,
            _ => 0,
        },
        _ => 0,
    }
}

/// The entries of `s` whose identifier is not `id`, in order.
pub open spec fn others(s: Seq<PeerInfo>, id: Seq<u8>) -> Seq<PeerInfo>
    decreases s.len(),
{
    if s.len() == 0 {
        Seq::empty()
    } else if s.last().id@ == id {
        others(s.drop_last(), id)
    } else {
        others(s.drop_last(), id).push(s.last())
    }
}

/// `routes` with the message id of each `Find` in `acts` mapped to `fid`.
pub open spec fn route_all(routes: Map<u64, u64>, acts: Seq<Action>, fid: u64) -> Map<u64, u64>
    decreases acts.len(),
{
    if acts.len() == 0 {
        routes
    } else {
        route_all(routes, acts.drop_last(), fid).insert(find_msg_id(acts.last()), fid)
    }
}

/// `routes` without every message that serves the lookup `fid`.
pub open spec fn drop_find(routes: Map<u64, u64>, fid: u64) -> Map<u64, u64> {
    Map::new(|m: u64| routes.contains_key(m) && routes[m] != fid, |m: u64| routes[m])
}

/// The `Find` messages in `acts` carry pairwise distinct ids that `routes` does not hold.
pub open spec fn fresh_finds(routes: Map<u64, u64>, acts: Seq<Action>) -> bool {
    &&& forall|i: int| 0 <= i < acts.len() ==> !routes.contains_key(find_msg_id(#[trigger] acts[i]))
    &&& forall|i: int, j: int|
        0 <= i < j < acts.len() ==> find_msg_id(#[trigger] acts[i]) != find_msg_id(#[trigger] acts[j])
}

/// One round of the lookup `fid`: with an empty routing table the lookup ends
/// unanswered and is dropped with its messages; otherwise a `Find` under a
/// fresh message id goes to each of the three candidates nearest to the target
/// other than `me`, and each is recorded as serving `fid`. `(pend2, routes2,
/// acts)` is the outcome.
pub open spec fn round_outcome(
    t: Seq<Seq<PeerInfo>>,
    me: PeerInfo,
    pend: Map<u64, PendingFind>,
    routes: Map<u64, u64>,
    fid: u64,
    pend2: Map<u64, PendingFind>,
    routes2: Map<u64, u64>,
    acts: Seq<Action>,
) -> bool {
    let pf = pend[fid];
    if table_size(t) == 0 {
        &&& acts == seq![Action::Deliver { reply: pf.reply, result: None }]
        &&& pend2 == pend.remove(fid)
        &&& routes2 == drop_find(routes, fid)
    } else {
        &&& pend2 == pend
        &&& routes2 == route_all(routes, acts, fid)
        &&& fresh_finds(routes, acts)
        &&& exists|r3: Seq<PeerInfo>|
            #![trigger is_closest(t, me, pf.hash@, 3, r3)]
            is_closest(t, me, pf.hash@, 3, r3) && {
                let to = others(r3, me.id@);
                &&& acts.len() == to.len()
                &&& forall|i: int|
                    0 <= i < acts.len() ==> sends_find(#[trigger] acts[i], to[i], me, pf.hash)
            }
    }
}

/// The start of a lookup of `hash` for `reply` with `ttl` rounds: content held
/// locally is handed over at once; otherwise the lookup is registered under
/// a find id not in use and its first round runs.
pub open spec fn lookup_outcome(
    t: Seq<Seq<PeerInfo>>,
    me: PeerInfo,
    stored: Map<Seq<u8>, Vec<u8>>,
    pend: Map<u64, PendingFind>,
    routes: Map<u64, u64>,
    hash: Id,
    reply: u64,
    ttl: u8,
    pend2: Map<u64, PendingFind>,
    routes2: Map<u64, u64>,
    acts: Seq<Action>,
) -> bool {
    if stored.contains_key(hash@) {
        &&& acts.len() == 1
        &&& delivers_found(acts[0], reply, hash, stored[hash@]@)
        &&& pend2 == pend
        &&& routes2 == routes
    } else {
        exists|fid: u64|
            !pend.contains_key(fid) && round_outcome(
                t,
                me,
                pend.insert(fid, PendingFind { hash, reply, ttl }),
                routes,
                fid,
                pend2,
                routes2,
                acts,
            )
    }
}

/// The forwarding step of storing `data`: nothing when `me` is the nearest
/// candidate to its hash, else one push of the data to the nearest one.
pub open spec fn forward_outcome(t: Seq<Seq<PeerInfo>>, me: PeerInfo, data: Seq<u8>, acts: Seq<
    Action,
>) -> bool {
    let h = blake2s256_of(data);
    if is_closest(t, me, h, 1, seq![me]) {
        acts.len() == 0
    } else {
        &&& acts.len() == 1
        &&& exists|p: PeerInfo|
            is_closest(t, me, h, 1, seq![p]) && #[trigger] sends_data(acts[0], p, me, data, true)
    }
}

/// The message id of a `FoundData` send (zero for any other action).
pub open spec fn found_data_id(a: Action) -> u64 {
    match a {
        Action::Send { msg, .. } => match msg.contents {
            MessageData::FoundData { id, .. } => id,
            _ => 0,
        },
        _ => 0,
    }
}

/// `a` answers `to` with the message id `id` and the peers `peers`, from `from`.
pub open spec fn sends_peers(a: Action, to: PeerInfo, from: PeerInfo, id: u64, peers: spec_fn(Seq<PeerInfo>) -> bool) -> bool {
    match a {
        Action::Send { to: t, msg } => t == to && msg.from == from && match msg.contents {
            MessageData::FoundPeers { id: i, peers: p } => i == id && peers(p@),
            _ => false,
        },
        _ => false,
    }
}

/// The routing table after observing each of `peers` in turn.
pub open spec fn table_observe_all(
    t: Seq<Seq<PeerInfo>>,
    me: Seq<u8>,
    peers: Seq<PeerInfo>,
    k: nat,
) -> Seq<Seq<PeerInfo>>
    decreases peers.len(),
{
    if peers.len() == 0 {
        t
    } else {
        table_observe(table_observe_all(t, me, peers.drop_last(), k), me, peers.last(), k)
    }
}

/// How many of `peers` have the identifier `id`.
pub open spec fn count_id(peers: Seq<PeerInfo>, id: Seq<u8>) -> nat
    decreases peers.len(),
{
    if peers.len() == 0 {
        0
    } else {
        count_id(peers.drop_last(), id) + if peers.last().id@ == id {
            1nat
        } else {
            0nat
        }
    }
}

/// A copy of a byte string.
fn copy_bytes(v: &Vec<u8>) -> (r: Vec<u8>)
    ensures
        r@ == v@,
{
    let mut r: Vec<u8> = Vec::new();
    let mut i: usize = 0;
    while i < v.len()
        invariant
            i <= v@.len(),
            r@ == v@.subrange(0, i as int),
        decreases v@.len() - i,
    {
        r.push(v[i]);
        i = i + 1;
    }
    assert(r@ =~= v@);
    r
}

/// The state of one peer.
pub struct Peer {
    store: Vec<(Id, Vec<u8>)>,
    k: u32,
    buckets: Vec<Vec<PeerInfo>>,
    peer_distance: Vec<(Id, i128)>,
    msg_sent_at: HashMap<u64, u64>,
    waiting_finds: HashMap<u64, PendingFind>,
    m_id_to_find_id: HashMap<u64, u64>,
    round_msgs: HashMap<u64, Vec<u64>>,
    id: Id,
    handle: u64,
    rng: rand_chacha::ChaCha20Rng,
}

impl Peer {
    /// This peer's identifier.
    pub open spec fn id_view(&self) -> Seq<u8> {
        self.info_view().id@
    }

    /// This peer's own handle.
    pub closed spec fn info_view(&self) -> PeerInfo {
        PeerInfo { id: self.id, handle: self.handle }
    }

    /// Bucket capacity.
    pub closed spec fn k_view(&self) -> nat {
        self.k as nat
    }

    /// The routing table, bucket by bucket.
    pub closed spec fn table(&self) -> Seq<Seq<PeerInfo>> {
        Seq::new(self.buckets@.len(), |b: int| self.buckets@[b]@)
    }

    /// The store: content by content hash.
    pub closed spec fn stored(&self) -> Map<Seq<u8>, Vec<u8>> {
        assoc(self.store@)
    }

    /// Lookups in progress, by find id.
    pub closed spec fn pending(&self) -> Map<u64, PendingFind> {
        self.waiting_finds@
    }

    /// The lookup that each outstanding `Find` message serves, by message id.
    pub closed spec fn routes(&self) -> Map<u64, u64> {
        self.m_id_to_find_id@
    }

    /// Send times of outstanding pings, by message id.
    pub closed spec fn pings(&self) -> Map<u64, u64> {
        self.msg_sent_at@
    }

    /// Round-trip samples by peer identifier.
    pub closed spec fn latency(&self) -> Map<Seq<u8>, i128> {
        assoc(self.peer_distance@)
    }

    /// Well-formedness: 256 buckets, each entry in the bucket of its distance
    /// from this peer, no bucket over capacity or holding an identifier twice.
    pub closed spec fn wf(&self) -> bool {
        &&& self.buckets@.len() == NUM_BUCKETS
        &&& forall|b: int, j: int|
            0 <= b < NUM_BUCKETS && 0 <= j < self.buckets@[b]@.len() ==> bucket_of(
                xor_seq(self.id@, #[trigger] self.buckets@[b]@[j].id@),
            ) == Some((b + 1) as nat)
        &&& forall|b: int|
            0 <= b < NUM_BUCKETS ==> unique_ids(#[trigger] self.buckets@[b]@)
                && self.buckets@[b]@.len() <= self.k
        &&& self.routes_tracked()
    }

    /// Every outstanding message serves a pending lookup, and is listed among
    /// the messages of that lookup.
    closed spec fn routes_tracked(&self) -> bool {
        forall|m: u64| #[trigger]
            self.m_id_to_find_id@.contains_key(m) ==> {
                let f = self.m_id_to_find_id@[m];
                &&& self.waiting_finds@.contains_key(f)
                &&& self.round_msgs@.contains_key(f)
                &&& self.round_msgs@[f]@.contains(m)
            }
    }

    /// The routing table, the store, the identity and the probe records are as in `other`.
    pub open spec fn same_table_and_store(&self, other: &Peer) -> bool {
        &&& self.table() == other.table()
        &&& self.stored() == other.stored()
        &&& self.info_view() == other.info_view()
        &&& self.k_view() == other.k_view()
        &&& self.pings() == other.pings()
        &&& self.latency() == other.latency()
    }

    /// Everything but the lookup records and the random stream is as in `other`.
    closed spec fn same_but_lookups(&self, other: &Peer) -> bool {
        &&& self.store == other.store
        &&& self.k == other.k
        &&& self.buckets == other.buckets
        &&& self.peer_distance == other.peer_distance
        &&& self.msg_sent_at == other.msg_sent_at
        &&& self.id == other.id
        &&& self.handle == other.handle
    }

    /// Everything but the routing table is as in `other`.
    pub closed spec fn same_but_table(&self, other: &Peer) -> bool {
        &&& self.store == other.store
        &&& self.k == other.k
        &&& self.peer_distance == other.peer_distance
        &&& self.msg_sent_at == other.msg_sent_at
        &&& self.waiting_finds == other.waiting_finds
        &&& self.m_id_to_find_id == other.m_id_to_find_id
        &&& self.round_msgs == other.round_msgs
        &&& self.id == other.id
        &&& self.handle == other.handle
        &&& self.rng == other.rng
    }

    /// What well-formedness gives a caller: 256 buckets, none holding more than
    /// `k` entries or an identifier twice, and a 32-byte identifier.
    pub proof fn lemma_wf_facts(&self)
        requires
            self.wf(),
        ensures
            self.table().len() == NUM_BUCKETS,
            forall|b: int|
                0 <= b < NUM_BUCKETS ==> (#[trigger] self.table()[b]).len() <= self.k_view()
                    && unique_ids(self.table()[b]),
            self.id_view() == self.info_view().id@,
            self.id_view().len() == 32,
    {
        assert forall|b: int| 0 <= b < NUM_BUCKETS implies (#[trigger] self.table()[b]).len()
            <= self.k_view() && unique_ids(self.table()[b]) by {
            assert(self.table()[b] == self.buckets@[b]@);
        }
    }

    /// Two distinct table entries have distinct identifiers, and none is this peer's.
    proof fn lemma_entries_distinct(&self, b1: int, j1: int, b2: int, j2: int)
        requires
            self.wf(),
            0 <= b1 < NUM_BUCKETS,
            0 <= j1 < self.buckets@[b1]@.len(),
            0 <= b2 < NUM_BUCKETS,
            0 <= j2 < self.buckets@[b2]@.len(),
        ensures
            self.buckets@[b1]@[j1].id != self.id,
            (b1 != b2 || j1 != j2) ==> self.buckets@[b1]@[j1].id != self.buckets@[b2]@[j2].id,
    {
        lemma_distance_to_self(self.id);
        assert(unique_ids(self.buckets@[b1]@));
        if self.buckets@[b1]@[j1].id == self.buckets@[b2]@[j2].id {
            assert(self.buckets@[b1]@[j1].id@ == self.buckets@[b2]@[j2].id@);
        }
    }

    /// The distance from this peer to `other`.
    pub fn distance_to(&self, other: &Id) -> (r: Id)
        ensures
            r@ == xor_seq(self.id_view(), other@),
    {
        xor_distance(&self.id, other)
    }

    /// The bucket that a distance from this peer falls in (see `bucket_of`).
    pub fn bucket_num(&mut self, id: &Id) -> (r: Option<usize>)
        ensures
            *final(self) == *old(self),
            r matches Some(n) ==> bucket_of(id@) == Some(n as nat) && 1 <= n <= NUM_BUCKETS,
            r is None <==> bucket_of(id@) is None,
    {
        bucket_index(id)
    }

    /// This peer's handle, as other peers address it.
    pub fn info(&self) -> (r: PeerInfo)
        ensures
            r == self.info_view(),
    {
        PeerInfo { id: self.id, handle: self.handle }
    }

    /// The peers nearest to `hash` among this peer and its routing table,
    /// nearest first: `amount` of them, or all there are. This peer is among them unless `amount` others are nearer.
    pub fn find_closest_peers(&mut self, hash: &Id, amount: &u32) -> (r: Vec<PeerInfo>)
        requires
            old(self).wf(),
        ensures
            *final(self) == *old(self),
            is_closest(old(self).table(), old(self).info_view(), hash@, *amount as nat, r@),
    {
        let me = self.info();
        let ghost t = self.table();
        let ghost tg = hash@;
        let n = *amount;
        let mut acc: Vec<PeerInfo> = Vec::new();
        if n == 0 {
            return acc;
        }
        acc.push(me);
        assert forall|p: PeerInfo| #[trigger] candidate_before(t, me, p, 0, 0) implies acc@.contains(
            p,
        ) by {
            assert(p == me);
            assert(acc@[0] == me);
        }
        let mut b: usize = 0;
        while b < self.buckets.len()
            invariant
                self.wf(),
                *self == *old(self),
                t == self.table(),
                me == self.info_view(),
                tg == hash@,
                b <= NUM_BUCKETS,
                scan_inv(t, me, tg, n as nat, acc@, b as int, 0),
            decreases NUM_BUCKETS - b,
        {
            let mut j: usize = 0;
            while j < self.buckets[b].len()
                invariant
                    self.wf(),
                    *self == *old(self),
                    t == self.table(),
                    me == self.info_view(),
                    tg == hash@,
                    b < NUM_BUCKETS,
                    j <= t[b as int].len(),
                    scan_inv(t, me, tg, n as nat, acc@, b as int, j as int),
                decreases t[b as int].len() - j,
            {
                let x = self.buckets[b][j];
                let ghost o = acc@;
                assert(t[b as int][j as int] == x);
                proof {
                    assert forall|i: int| 0 <= i < o.len() implies #[trigger] dist(tg, o[i]) != dist(
                        tg,
                        x,
                    ) by {
                        assert(candidate_before(t, me, o[i], b as int, j as int));
                        if o[i] == me {
                            self.lemma_entries_distinct(b as int, j as int, b as int, j as int);
                        } else {
                            let (b2, j2) = choose|b2: int, j2: int|
                                0 <= b2 < t.len() && 0 <= j2 < t[b2].len() && before(
                                    b2,
                                    j2,
                                    b as int,
                                    j as int,
                                ) && #[trigger] t[b2][j2] == o[i];
                            self.lemma_entries_distinct(b2, j2, b as int, j as int);
                        }
                        if dist(tg, o[i]) == dist(tg, x) {
                            lemma_xor_injective(tg, o[i].id@, x.id@);
                            assert(o[i].id =~= x.id);
                        }
                    }
                }
                insert_bounded(&mut acc, x, hash, n);
                proof {
                    let nn = acc@;
                    let bi = b as int;
                    let ji = j as int;
                    assert forall|p: PeerInfo|
                        candidate_before(t, me, p, bi, ji + 1) <==> (candidate_before(
                            t,
                            me,
                            p,
                            bi,
                            ji,
                        ) || p == x) by {
                        if p != me && p != x && candidate_before(t, me, p, bi, ji + 1) {
                            let (b2, j2) = choose|b2: int, j2: int|
                                0 <= b2 < t.len() && 0 <= j2 < t[b2].len() && before(
                                    b2,
                                    j2,
                                    bi,
                                    ji + 1,
                                ) && #[trigger] t[b2][j2] == p;
                            assert(before(b2, j2, bi, ji));
                        }
                        if candidate_before(t, me, p, bi, ji) && p != me {
                            let (b2, j2) = choose|b2: int, j2: int|
                                0 <= b2 < t.len() && 0 <= j2 < t[b2].len() && before(
                                    b2,
                                    j2,
                                    bi,
                                    ji,
                                ) && #[trigger] t[b2][j2] == p;
                            assert(before(b2, j2, bi, ji + 1));
                        }
                    }
                    assert forall|i: int| 0 <= i < nn.len() implies candidate_before(
                        t,
                        me,
                        #[trigger] nn[i],
                        bi,
                        ji + 1,
                    ) by {
                        if o.contains(nn[i]) {
                            let q = choose|q: int| 0 <= q < o.len() && o[q] == nn[i];
                            assert(candidate_before(t, me, o[q], bi, ji));
                        }
                    }
                    let want: int = if n == 0 {
                        1
                    } else {
                        n as int
                    };
                    assert forall|p: PeerInfo|
                        #[trigger] candidate_before(t, me, p, bi, ji + 1) && !nn.contains(
                            p,
                        ) implies forall|i: int|
                        0 <= i < nn.len() ==> id_lt(#[trigger] dist(tg, nn[i]), dist(tg, p)) by {
                        if !o.contains(p) && p != x {
                            assert(candidate_before(t, me, p, bi, ji));
                            assert(o.len() == want);
                            assert(id_lt(dist(tg, o[o.len() - 1]), dist(tg, p)));
                            assert forall|i: int| 0 <= i < nn.len() implies id_lt(
                                #[trigger] dist(tg, nn[i]),
                                dist(tg, p),
                            ) by {
                                if nn[i] != o.last() {
                                    lemma_lt_transitive(
                                        dist(tg, nn[i]),
                                        dist(tg, o.last()),
                                        dist(tg, p),
                                    );
                                }
                            }
                        }
                    }
                    if nn.len() < want {
                        assert forall|p: PeerInfo| #[trigger]
                            candidate_before(t, me, p, bi, ji + 1) implies nn.contains(p) by {
                            if p != x {
                                assert(candidate_before(t, me, p, bi, ji));
                                assert(o.contains(p));
                                let q = choose|q: int| 0 <= q < o.len() && o[q] == p;
                                assert(nn.contains(o[q]));
                            }
                        }
                    }
                }
                j = j + 1;
            }
            proof {
                let bi = b as int;
                let len = t[bi].len() as int;
                assert forall|p: PeerInfo|
                    candidate_before(t, me, p, bi, len) <==> #[trigger] candidate_before(
                        t,
                        me,
                        p,
                        bi + 1,
                        0,
                    ) by {
                    if p != me && candidate_before(t, me, p, bi + 1, 0) {
                        let (b2, j2) = choose|b2: int, j2: int|
                            0 <= b2 < t.len() && 0 <= j2 < t[b2].len() && before(b2, j2, bi + 1, 0)
                                && #[trigger] t[b2][j2] == p;
                        assert(before(b2, j2, bi, len));
                    }
                    if p != me && candidate_before(t, me, p, bi, len) {
                        let (b2, j2) = choose|b2: int, j2: int|
                            0 <= b2 < t.len() && 0 <= j2 < t[b2].len() && before(b2, j2, bi, len)
                                && #[trigger] t[b2][j2] == p;
                        assert(before(b2, j2, bi + 1, 0));
                    }
                }
                assert(size_upto(t, bi + 1) == size_upto(t, bi) + len);
                assert forall|i: int| 0 <= i < acc@.len() implies candidate_before(
                    t,
                    me,
                    #[trigger] acc@[i],
                    bi + 1,
                    0,
                ) by {
                    assert(candidate_before(t, me, acc@[i], bi, len));
                }
            }
            b = b + 1;
        }
        proof {
            assert forall|p: PeerInfo|
                (p == me || #[trigger] in_table(t, p)) <==> candidate_before(
                    t,
                    me,
                    p,
                    NUM_BUCKETS as int,
                    0,
                ) by {
                if p != me && in_table(t, p) {
                    let (b2, j2) = choose|b2: int, j2: int|
                        0 <= b2 < t.len() && 0 <= j2 < t[b2].len() && #[trigger] t[b2][j2] == p;
                    assert(before(b2, j2, NUM_BUCKETS as int, 0));
                }
                if p != me && candidate_before(t, me, p, NUM_BUCKETS as int, 0) {
                    let (b2, j2) = choose|b2: int, j2: int|
                        0 <= b2 < t.len() && 0 <= j2 < t[b2].len() && before(
                            b2,
                            j2,
                            NUM_BUCKETS as int,
                            0,
                        ) && #[trigger] t[b2][j2] == p;
                    assert(in_table(t, p));
                }
            }
            assert forall|i: int| 0 <= i < acc@.len() implies #[trigger] acc@[i] == me || in_table(
                t,
                acc@[i],
            ) by {
                assert(candidate_before(t, me, acc@[i], NUM_BUCKETS as int, 0));
            }
            assert(t.len() == NUM_BUCKETS);
            let r = acc@;
            assert forall|p: PeerInfo, i: int|
                (p == me || in_table(t, p)) && !r.contains(p) && 0 <= i < r.len() implies id_lt(
                #[trigger] dist(tg, r[i]),
                #[trigger] dist(tg, p),
            ) by {
                assert(candidate_before(t, me, p, NUM_BUCKETS as int, 0));
            }
            let want: nat = if n == 0 {
                1
            } else {
                n as nat
            };
            if r.len() < want {
                assert(has_all_candidates(t, me, r)) by {
                    assert(candidate_before(t, me, me, NUM_BUCKETS as int, 0));
                    assert forall|p: PeerInfo| #[trigger] in_table(t, p) implies r.contains(p) by {
                        assert(candidate_before(t, me, p, NUM_BUCKETS as int, 0));
                    }
                }
            }
            assert(is_closest(t, me, tg, n as nat, r));
        }
        acc
    }

    /// Observes a peer into the routing table: nothing happens for this peer
    /// itself or a peer already known; otherwise it joins its bucket, and the
    /// farthest entry of an overflowing bucket is dropped.
    pub fn add_peer(&mut self, info: &PeerInfo)
        requires
            old(self).wf(),
        ensures
            final(self).wf(),
            final(self).same_but_table(old(self)),
            final(self).info_view() == old(self).info_view(),
            final(self).k_view() == old(self).k_view(),
            final(self).stored() == old(self).stored(),
            final(self).pending() == old(self).pending(),
            final(self).routes() == old(self).routes(),
            final(self).pings() == old(self).pings(),
            final(self).latency() == old(self).latency(),
            final(self).table() == table_observe(
                old(self).table(),
                old(self).id_view(),
                *info,
                old(self).k_view(),
            ),
    {
        let dist_id = self.distance_to(&info.id);
        if let Some(idx) = self.bucket_num(&dist_id) {
            let b = idx - 1;
            let ghost me = self.id@;
            let ghost old_bucket = self.buckets@[b as int]@;
            let mut bucket: Vec<PeerInfo> = Vec::new();
            self.buckets.set_and_swap(b, &mut bucket);
            assert(bucket@ == old_bucket);
            let mut known = false;
            let mut i: usize = 0;
            while i < bucket.len()
                invariant
                    i <= bucket@.len(),
                    bucket@ == old_bucket,
                    known <==> exists|j: int| 0 <= j < i && (#[trigger] bucket@[j]).id@ == info.id@,
                decreases bucket@.len() - i,
            {
                if compare_ids(&bucket[i].id, &info.id) == 0 {
                    known = true;
                }
                i = i + 1;
            }
            assert(known <==> contains_id(old_bucket, info.id@));
            if !known {
                bucket.push(*info);
                if bucket.len() > self.k as usize {
                    let ghost all = bucket@;
                    let mut far: usize = 0;
                    let mut far_dist = xor_distance(&self.id, &bucket[0].id);
                    let mut i: usize = 1;
                    while i < bucket.len()
                        invariant
                            1 <= i <= all.len(),
                            bucket@ == all,
                            self.id@ == me,
                            far == farthest_index(all.subrange(0, i as int), me),
                            far < i,
                            far_dist@ == dist(me, all[far as int]),
                        decreases all.len() - i,
                    {
                        let d = xor_distance(&self.id, &bucket[i].id);
                        let ghost pre = all.subrange(0, i as int + 1);
                        assert(pre.drop_last() =~= all.subrange(0, i as int));
                        assert(pre[far as int] == all[far as int]);
                        if compare_ids(&far_dist, &d) == -1 {
                            far = i;
                            far_dist = d;
                        }
                        i = i + 1;
                    }
                    assert(all.subrange(0, all.len() as int) =~= all);
                    bucket.remove(far);
                }
            }
            proof {
                lemma_observe_bounded(old_bucket, *info, me, self.k as nat);
                assert(bucket@ == observed(old_bucket, *info, me, self.k as nat));
            }
            self.buckets.set(b, bucket);
            proof {
                let nb = observed(old_bucket, *info, me, self.k as nat);
                assert forall|j: int| 0 <= j < nb.len() implies bucket_of(
                    xor_seq(me, #[trigger] nb[j].id@),
                ) == Some((b + 1) as nat) by {
                    if !contains_id(old_bucket, info.id@) && old_bucket.len() + 1 > self.k {
                        let all = old_bucket.push(*info);
                        let f = farthest_index(all, me);
                        lemma_farthest_is_max(all, me);
                        if j < f {
                            assert(nb[j] == all[j]);
                        } else {
                            assert(nb[j] == all[j + 1]);
                        }
                    } else if !contains_id(old_bucket, info.id@) {
                        assert(nb[j] == old_bucket.push(*info)[j]);
                    }
                }
                assert(unique_ids(nb)) by {
                    if !contains_id(old_bucket, info.id@) {
                        let all = old_bucket.push(*info);
                        assert(unique_ids(all)) by {
                            assert forall|x: int, y: int|
                                0 <= x < all.len() && 0 <= y < all.len() && x != y implies (
                                #[trigger] all[x]).id != (#[trigger] all[y]).id by {
                                if x == old_bucket.len() {
                                    assert(all[y] == old_bucket[y]);
                                    if all[x].id == all[y].id {
                                        assert(old_bucket[y].id@ == info.id@);
                                    }
                                } else if y == old_bucket.len() {
                                    assert(all[x] == old_bucket[x]);
                                    if all[x].id == all[y].id {
                                        assert(old_bucket[x].id@ == info.id@);
                                    }
                                } else {
                                    assert(all[x] == old_bucket[x]);
                                    assert(all[y] == old_bucket[y]);
                                }
                            }
                        }
                        if old_bucket.len() + 1 > self.k {
                            lemma_farthest_is_max(all, me);
                            let f = farthest_index(all, me);
                            assert forall|x: int, y: int|
                                0 <= x < nb.len() && 0 <= y < nb.len() && x != y implies (
                                #[trigger] nb[x]).id != (#[trigger] nb[y]).id by {
                                let xx = if x < f {
                                    x
                                } else {
                                    x + 1
                                };
                                let yy = if y < f {
                                    y
                                } else {
                                    y + 1
                                };
                                assert(nb[x] == all[xx]);
                                assert(nb[y] == all[yy]);
                            }
                        }
                    }
                }
                assert(self.table() =~= table_observe(
                    old(self).table(),
                    me,
                    *info,
                    self.k as nat,
                ));
            }
        } else {
            assert(self.table() =~= old(self).table());
        }
    }
}

/// Observing the same peer twice leaves the routing table as observing it once.
pub proof fn lemma_table_observe_idempotent(t: Seq<Seq<PeerInfo>>, me: Seq<u8>, info: PeerInfo, k: nat)
    requires
        t.len() == NUM_BUCKETS,
        me.len() == 32,
    ensures
        table_observe(table_observe(t, me, info, k), me, info, k) == table_observe(t, me, info, k),
{
    crate::id::lemma_bucket_range(xor_seq(me, info.id@));
    if let Some(n) = bucket_of(xor_seq(me, info.id@)) {
        crate::routing::lemma_observe_idempotent(t[n - 1], info, me, k);
        let once = table_observe(t, me, info, k);
        assert(once[n - 1] == observed(t[n - 1], info, me, k));
        assert(table_observe(once, me, info, k) =~= once);
    }
}

/// Observing a peer keeps every bucket of a routing table within `k`.
pub proof fn lemma_table_observe_bounded(t: Seq<Seq<PeerInfo>>, me: Seq<u8>, info: PeerInfo, k: nat)
    requires
        t.len() == NUM_BUCKETS,
        me.len() == 32,
        forall|b: int| 0 <= b < NUM_BUCKETS ==> (#[trigger] t[b]).len() <= k,
    ensures
        table_observe(t, me, info, k).len() == NUM_BUCKETS,
        forall|b: int|
            0 <= b < NUM_BUCKETS ==> (#[trigger] table_observe(t, me, info, k)[b]).len() <= k,
{
    crate::id::lemma_bucket_range(xor_seq(me, info.id@));
    if let Some(n) = bucket_of(xor_seq(me, info.id@)) {
        lemma_observe_bounded(t[n - 1], info, me, k);
    }
}

/// A lookup of the `n` nearest peers returns at most `n`, and fewer only
/// when there are no more candidates. It leaves this peer out only when it
/// returns `n` peers that are all nearer to the target than this peer; when
/// it holds this peer at position `i`, every table entry nearer to the target
/// than this peer comes before it, so fewer than `n` are nearer.
pub proof fn lemma_closest_bounds(
    t: Seq<Seq<PeerInfo>>,
    me: PeerInfo,
    target: Seq<u8>,
    n: nat,
    r: Seq<PeerInfo>,
)
    requires
        is_closest(t, me, target, n, r),
    ensures
        r.len() <= n,
        r.len() < n ==> r.len() == table_size(t) + 1,
        !r.contains(me) ==> r.len() == n,
        !r.contains(me) ==> forall|i: int|
            0 <= i < r.len() ==> id_lt(#[trigger] dist(target, r[i]), dist(target, me)),
        forall|i: int|
            0 <= i < r.len() && r[i] == me ==> forall|p: PeerInfo|
                #[trigger] in_table(t, p) && id_lt(dist(target, p), dist(target, me)) ==> exists|j: int|
                    0 <= j < i && r[j] == p,
{
    assert forall|i: int, p: PeerInfo|
        0 <= i < r.len() && #[trigger] r[i] == me && #[trigger] in_table(t, p) && id_lt(
            dist(target, p),
            dist(target, me),
        ) implies exists|j: int| 0 <= j < i && r[j] == p by {
        assert(nearer_than_rest(t, me, target, r));
        if !r.contains(p) {
            assert(id_lt(dist(target, r[i]), dist(target, p)));
            lemma_lt_asymmetric(dist(target, p), dist(target, me));
        } else {
            let j = choose|j: int| 0 <= j < r.len() && r[j] == p;
            if j > i {
                assert(id_lt(dist(target, r[i]), dist(target, r[j])));
                lemma_lt_asymmetric(dist(target, p), dist(target, me));
            } else if j == i {
                crate::id::lemma_lt_irreflexive(dist(target, me));
            }
        }
    }
    assert(nearer_than_rest(t, me, target, r));
    if !r.contains(me) && r.len() < n {
        assert(has_all_candidates(t, me, r));
    }
}

/// A forwarding hop moves stored data strictly nearer to its hash: when
/// storing sends the data on, it goes to a peer nearer to the hash than the
/// sender. Repeated stores therefore settle at a peer that is itself the
/// nearest candidate it knows.
pub proof fn lemma_forward_moves_nearer(t: Seq<Seq<PeerInfo>>, me: PeerInfo, data: Seq<u8>, acts: Seq<Action>)
    requires
        forward_outcome(t, me, data, acts),
        acts.len() > 0,
    ensures
        exists|p: PeerInfo|
            #[trigger] sends_data(acts[0], p, me, data, true) && id_lt(
                dist(blake2s256_of(data), p),
                dist(blake2s256_of(data), me),
            ),
{
    let h = blake2s256_of(data);
    let p = choose|p: PeerInfo|
        is_closest(t, me, h, 1, seq![p]) && #[trigger] sends_data(acts[0], p, me, data, true);
    assert(nearer_than_rest(t, me, h, seq![p]));
    if p == me {
        assert(false);
    }
    assert(!seq![p].contains(me));
    assert(seq![p][0] == p);
}

/// Once `data` is stored, a lookup of its hash on the same peer hands it over
/// at once: no message is sent and no lookup is left pending.
pub proof fn lemma_store_then_find(
    t: Seq<Seq<PeerInfo>>,
    me: PeerInfo,
    stored: Map<Seq<u8>, Vec<u8>>,
    data: Vec<u8>,
    pend: Map<u64, PendingFind>,
    routes: Map<u64, u64>,
    hash: Id,
    reply: u64,
    ttl: u8,
    pend2: Map<u64, PendingFind>,
    routes2: Map<u64, u64>,
    acts: Seq<Action>,
)
    requires
        hash@ == blake2s256_of(data@),
        lookup_outcome(
            t,
            me,
            stored.insert(blake2s256_of(data@), data),
            pend,
            routes,
            hash,
            reply,
            ttl,
            pend2,
            routes2,
            acts,
        ),
    ensures
        acts.len() == 1,
        delivers_found(acts[0], reply, hash, data@),
        pend2 == pend,
        routes2 == routes,
{
}

/// A set of `u64` that holds every number below `c` has at least `c` elements.
proof fn lemma_prefix_keys(s: Set<u64>, c: nat)
    requires
        s.finite(),
        c <= 0x1_0000_0000_0000_0000,
        forall|x: u64| (x as nat) < c ==> #[trigger] s.contains(x),
    ensures
        s.len() >= c,
    decreases c,
{
    if c > 0 {
        let y = (c - 1) as u64;
        assert(s.contains(y));
        let s2 = s.remove(y);
        assert forall|x: u64| (x as nat) < c - 1 implies #[trigger] s2.contains(x) by {
            assert(s.contains(x));
        }
        lemma_prefix_keys(s2, (c - 1) as nat);
    }
}

/// A key that `map` does not hold: a random draw, or, should that be taken,
/// the least free number.
fn free_key<V>(rng: &mut rand_chacha::ChaCha20Rng, map: &HashMap<u64, V>) -> (r: u64)
    ensures
        !map@.contains_key(r),
{
    broadcast use vstd::std_specs::hash::group_hash_axioms;

    let m = next_u64(rng);
    if !map.contains_key(&m) {
        return m;
    }
    let n = map.len();
    let mut c: u64 = 0;
    while map.contains_key(&c)
        invariant
            forall|x: u64| x < c ==> #[trigger] map@.contains_key(x),
            c as int <= n as int,
            n == map@.len(),
            map@.dom().finite(),
        decreases n as int - c as int,
    {
        proof {
            assert forall|x: u64| (x as nat) < c as nat + 1 implies #[trigger] map@.dom().contains(x) by {
                assert(map@.contains_key(x));
            }
            lemma_prefix_keys(map@.dom(), c as nat + 1);
        }
        c = c + 1;
    }
    c
}

/// `m` is one of the first `i` entries of `s`.
spec fn in_prefix(s: Seq<u64>, i: int, m: u64) -> bool {
    exists|j: int| 0 <= j < i && s[j] == m
}

proof fn lemma_size_upto_empty(t: Seq<Seq<PeerInfo>>, b: int)
    requires
        0 <= b <= t.len(),
        forall|c: int| 0 <= c < t.len() ==> (#[trigger] t[c]).len() == 0,
    ensures
        size_upto(t, b) == 0,
    decreases b,
{
    if b > 0 {
        lemma_size_upto_empty(t, b - 1);
    }
}

impl Peer {
    /// A table entry never carries this peer's identifier.
    proof fn lemma_not_in_table(&self, p: PeerInfo)
        requires
            self.wf(),
            in_table(self.table(), p),
        ensures
            p.id != self.id,
    {
        let t = self.table();
        let (b, j) = choose|b: int, j: int| 0 <= b < t.len() && 0 <= j < t[b].len() && #[trigger] t[b][j] == p;
        self.lemma_entries_distinct(b, j, b, j);
    }

    /// A peer with identifier `id`, reachable through `handle`, that draws
    /// message ids from a generator seeded with `seed`. Its routing table and
    /// store are empty and its buckets hold twenty peers each.
    pub fn new(id: Id, handle: u64, seed: u64) -> (r: Peer)
        ensures
            r.wf(),
            r.info_view() == (PeerInfo { id, handle }),
            r.k_view() == DEFAULT_K,
            r.table().len() == NUM_BUCKETS,
            table_size(r.table()) == 0,
            r.stored() == Map::<Seq<u8>, Vec<u8>>::empty(),
            r.pending() == Map::<u64, PendingFind>::empty(),
            r.routes() == Map::<u64, u64>::empty(),
            r.pings() == Map::<u64, u64>::empty(),
            r.latency() == Map::<Seq<u8>, i128>::empty(),
    {
        let mut buckets: Vec<Vec<PeerInfo>> = Vec::new();
        let mut b: usize = 0;
        while b < NUM_BUCKETS
            invariant
                b <= NUM_BUCKETS,
                buckets@.len() == b,
                forall|c: int| 0 <= c < b ==> (#[trigger] buckets@[c])@.len() == 0,
            decreases NUM_BUCKETS - b,
        {
            buckets.push(Vec::new());
            b = b + 1;
        }
        let r = Peer {
            store: Vec::new(),
            k: DEFAULT_K,
            buckets,
            peer_distance: Vec::new(),
            msg_sent_at: HashMap::new(),
            waiting_finds: HashMap::new(),
            m_id_to_find_id: HashMap::new(),
            round_msgs: HashMap::new(),
            id,
            handle,
            rng: seeded_rng(seed),
        };
        proof {
            lemma_size_upto_empty(r.table(), NUM_BUCKETS as int);
            assert forall|c: int| 0 <= c < NUM_BUCKETS implies unique_ids(#[trigger] r.buckets@[c]@) by {
            }
        }
        r
    }

    /// How many lookups are in progress, and how many `Find` messages are
    /// still awaiting an answer.
    pub fn outstanding(&self) -> (r: (usize, usize))
        ensures
            r.0 == self.pending().len(),
            r.1 == self.routes().len(),
    {
        broadcast use vstd::std_specs::hash::group_hash_axioms;

        (self.waiting_finds.len(), self.m_id_to_find_id.len())
    }

    /// The content hash of `data` (BLAKE2s-256).
    pub fn hash(&self, data: &[u8]) -> (r: Id)
        ensures
            r@ == blake2s256_of(data@),
    {
        blake2s256(data)
    }

    /// A message from this peer.
    pub fn make_msg(&mut self, msg: MessageData) -> (r: Message)
        ensures
            *final(self) == *old(self),
            r.from == old(self).info_view(),
            r.contents == msg,
    {
        Message { from: self.info(), contents: msg }
    }

    /// Drops every outstanding message of the lookup `fid`, and its list.
    fn drop_routes(&mut self, fid: u64)
        requires
            forall|m: u64| #[trigger]
                old(self).m_id_to_find_id@.contains_key(m) && old(self).m_id_to_find_id@[m] == fid
                    ==> old(self).round_msgs@.contains_key(fid) && old(self).round_msgs@[fid]@.contains(m),
        ensures
            final(self).m_id_to_find_id@ == drop_find(old(self).m_id_to_find_id@, fid),
            final(self).round_msgs@ == old(self).round_msgs@.remove(fid),
            final(self).same_but_lookups(old(self)),
            final(self).waiting_finds == old(self).waiting_finds,
    {
        broadcast use vstd::std_specs::hash::group_hash_axioms;

        let ghost r0 = self.m_id_to_find_id@;
        match self.round_msgs.remove(&fid) {
            None => {
                assert(self.m_id_to_find_id@ =~= drop_find(r0, fid));
            },
            Some(msgs) => {
                let mut i: usize = 0;
                while i < msgs.len()
                    invariant
                        i <= msgs@.len(),
                        msgs@ == old(self).round_msgs@[fid]@,
                        self.round_msgs@ == old(self).round_msgs@.remove(fid),
                        self.same_but_lookups(old(self)),
                        self.waiting_finds == old(self).waiting_finds,
                        forall|m: u64| #[trigger]
                            self.m_id_to_find_id@.contains_key(m) <==> r0.contains_key(m) && !(r0[m]
                                == fid && in_prefix(msgs@, i as int, m)),
                        forall|m: u64|
                            #[trigger] self.m_id_to_find_id@.contains_key(m) ==> self.m_id_to_find_id@[m]
                                == r0[m],
                    decreases msgs@.len() - i,
                {
                    let m = msgs[i];
                    let hit = match self.m_id_to_find_id.get(&m) {
                        Some(v) => *v == fid,
                        None => false,
                    };
                    if hit {
                        self.m_id_to_find_id.remove(&m);
                    }
                    proof {
                        assert forall|x: u64| #[trigger]
                            self.m_id_to_find_id@.contains_key(x) <==> r0.contains_key(x) && !(r0[x]
                                == fid && in_prefix(msgs@, i + 1, x)) by {
                            if in_prefix(msgs@, i as int, x) {
                                let j = choose|j: int| 0 <= j < i && msgs@[j] == x;
                                assert(0 <= j < i + 1 && msgs@[j] == x);
                            }
                            if x == m {
                                assert(msgs@[i as int] == x);
                            }
                            if in_prefix(msgs@, i + 1, x) && x != m {
                                let j = choose|j: int| 0 <= j < i + 1 && msgs@[j] == x;
                                assert(j != i);
                            }
                        }
                    }
                    i = i + 1;
                }
                assert forall|x: u64| #[trigger] self.m_id_to_find_id@.contains_key(x) <==> drop_find(r0, fid).contains_key(x) by {
                    if r0.contains_key(x) && r0[x] == fid {
                        let j = choose|j: int| 0 <= j < msgs@.len() && msgs@[j] == x;
                        assert(in_prefix(msgs@, msgs@.len() as int, x));
                    }
                }
                assert(self.m_id_to_find_id@ =~= drop_find(r0, fid));
            },
        }
    }

    /// Runs one round of the lookup `find_id` (see `round_outcome`).
    pub fn retry_find(&mut self, find_id: u64) -> (r: Vec<Action>)
        requires
            old(self).wf(),
            old(self).pending().contains_key(find_id),
        ensures
            final(self).wf(),
            final(self).same_table_and_store(old(self)),
            round_outcome(
                old(self).table(),
                old(self).info_view(),
                old(self).pending(),
                old(self).routes(),
                find_id,
                final(self).pending(),
                final(self).routes(),
                r@,
            ),
    {
        broadcast use vstd::std_specs::hash::group_hash_axioms;

        let pf = match self.waiting_finds.get(&find_id) {
            Some(p) => *p,
            None => {
                return Vec::new();
            },
        };
        let ghost t = self.table();
        let ghost routes0 = self.routes();
        let peers = self.find_closest_peers(&pf.hash, &3);
        let mut out: Vec<Action> = Vec::new();
        if peers.len() == 1 {
            self.waiting_finds.remove(&find_id);
            self.drop_routes(find_id);
            out.push(Action::Deliver { reply: pf.reply, result: None });
            return out;
        }
        let mut msgs: Vec<u64> = match self.round_msgs.remove(&find_id) {
            Some(v) => v,
            None => Vec::new(),
        };
        let me = self.info();
        let ghost p0 = self.pending();
        let ghost me_id = self.id@;
        let mut i: usize = 0;
        while i < peers.len()
            invariant
                i <= peers@.len(),
                old(self).wf(),
                self.same_but_lookups(old(self)),
                self.waiting_finds == old(self).waiting_finds,
                self.round_msgs@ == old(self).round_msgs@.remove(find_id),
                self.table() == t,
                self.pending() == p0,
                p0.contains_key(find_id),
                me == self.info_view(),
                me_id == self.id@,
                routes0 == old(self).routes(),
                ({
                    let to = others(peers@.subrange(0, i as int), me_id);
                    &&& out@.len() == to.len()
                    &&& forall|j: int|
                        0 <= j < out@.len() ==> sends_find(#[trigger] out@[j], to[j], me, pf.hash)
                }),
                self.routes() == route_all(routes0, out@, find_id),
                fresh_finds(routes0, out@),
                forall|j: int|
                    0 <= j < out@.len() ==> self.routes().contains_key(find_msg_id(#[trigger] out@[j])),
                forall|k: u64| #[trigger] routes0.contains_key(k) ==> self.routes().contains_key(k),
                forall|m: u64| #[trigger]
                    self.routes().contains_key(m) ==> {
                        let f = self.routes()[m];
                        if f == find_id {
                            msgs@.contains(m)
                        } else {
                            &&& self.waiting_finds@.contains_key(f)
                            &&& self.round_msgs@.contains_key(f)
                            &&& self.round_msgs@[f]@.contains(m)
                        }
                    },
            decreases peers@.len() - i,
        {
            let p = peers[i];
            let ghost before = out@;
            let ghost r1 = self.routes();
            let ghost msgs1 = msgs@;
            let ghost pre = peers@.subrange(0, i as int + 1);
            assert(pre.drop_last() =~= peers@.subrange(0, i as int));
            if compare_ids(&p.id, &self.id) != 0 {
                let m_id = free_key(&mut self.rng, &self.m_id_to_find_id);
                self.m_id_to_find_id.insert(m_id, find_id);
                msgs.push(m_id);
                out.push(
                    Action::Send {
                        to: p,
                        msg: Message { from: me, contents: MessageData::Find { id: m_id, hash: pf.hash } },
                    },
                );
                assert(out@.drop_last() =~= before);
                assert(find_msg_id(out@[before.len() as int]) == m_id);
                assert(p.id@ != me_id) by {
                    if p.id@ == me_id {
                        assert(p.id =~= self.id);
                    }
                }
                assert forall|j: int| 0 <= j < before.len() implies find_msg_id(#[trigger] out@[j])
                    != m_id by {
                    assert(out@[j] == before[j]);
                    assert(r1.contains_key(find_msg_id(before[j])));
                }
                assert forall|m: u64| #[trigger] self.routes().contains_key(m) implies {
                    let f = self.routes()[m];
                    if f == find_id {
                        msgs@.contains(m)
                    } else {
                        &&& self.waiting_finds@.contains_key(f)
                        &&& self.round_msgs@.contains_key(f)
                        &&& self.round_msgs@[f]@.contains(m)
                    }
                } by {
                    if m == m_id {
                        assert(msgs@[msgs1.len() as int] == m_id);
                    } else {
                        assert(r1.contains_key(m));
                        if r1[m] == find_id {
                            let q = choose|q: int| 0 <= q < msgs1.len() && msgs1[q] == m;
                            assert(msgs@[q] == m);
                        }
                    }
                }
                assert forall|j: int| 0 <= j < out@.len() implies self.routes().contains_key(
                    find_msg_id(#[trigger] out@[j]),
                ) by {
                    if j < before.len() {
                        assert(out@[j] == before[j]);
                    }
                }
            }
            i = i + 1;
        }
        assert(peers@.subrange(0, peers@.len() as int) =~= peers@);
        self.round_msgs.insert(find_id, msgs);
        proof {
            assert forall|m: u64| #[trigger] self.m_id_to_find_id@.contains_key(m) implies {
                let f = self.m_id_to_find_id@[m];
                &&& self.waiting_finds@.contains_key(f)
                &&& self.round_msgs@.contains_key(f)
                &&& self.round_msgs@[f]@.contains(m)
            } by {
                assert(self.routes().contains_key(m));
            }
            assert(self.routes_tracked());
        }
        out
    }

    /// Starts a lookup of `hash` whose outcome goes to `reply`, with `ttl`
    /// rounds (see `lookup_outcome`).
    pub fn find_with_ttl(&mut self, hash: &Id, reply: u64, ttl: u8) -> (r: Vec<Action>)
        requires
            old(self).wf(),
        ensures
            final(self).wf(),
            final(self).same_table_and_store(old(self)),
            lookup_outcome(
                old(self).table(),
                old(self).info_view(),
                old(self).stored(),
                old(self).pending(),
                old(self).routes(),
                *hash,
                reply,
                ttl,
                final(self).pending(),
                final(self).routes(),
                r@,
            ),
    {
        broadcast use vstd::std_specs::hash::group_hash_axioms;

        match assoc_find(&self.store, hash) {
            Some(i) => {
                let data = copy_bytes(&self.store[i].1);
                let out = vec![Action::Deliver { reply, result: Some((*hash, data)) }];
                out
            },
            None => {
                let f_id = free_key(&mut self.rng, &self.waiting_finds);
                self.waiting_finds.insert(f_id, PendingFind { hash: *hash, reply, ttl });
                self.round_msgs.insert(f_id, Vec::new());
                proof {
                    assert forall|m: u64| #[trigger] self.m_id_to_find_id@.contains_key(m) implies {
                        let f = self.m_id_to_find_id@[m];
                        &&& self.waiting_finds@.contains_key(f)
                        &&& self.round_msgs@.contains_key(f)
                        &&& self.round_msgs@[f]@.contains(m)
                    } by {
                        assert(old(self).m_id_to_find_id@.contains_key(m));
                    }
                    assert(self.routes_tracked());
                }
                self.retry_find(f_id)
            },
        }
    }

    /// Stores `data` under its hash and forwards it to the nearest known
    /// candidate for that hash, unless that is this peer (see `forward_outcome`).
    pub fn store(&mut self, data: Vec<u8>) -> (r: Vec<Action>)
        requires
            old(self).wf(),
        ensures
            final(self).wf(),
            final(self).table() == old(self).table(),
            final(self).info_view() == old(self).info_view(),
            final(self).k_view() == old(self).k_view(),
            final(self).pending() == old(self).pending(),
            final(self).routes() == old(self).routes(),
            final(self).pings() == old(self).pings(),
            final(self).latency() == old(self).latency(),
            final(self).stored() == old(self).stored().insert(blake2s256_of(data@), data),
            forward_outcome(old(self).table(), old(self).info_view(), data@, r@),
    {
        let h = self.hash(data.as_slice());
        let copy = copy_bytes(&data);
        let ghost dv = data@;
        assoc_put(&mut self.store, h, data);
        let ghost t = self.table();
        let me = self.info();
        let peers = self.find_closest_peers(&h, &1);
        let p = peers[0];
        assert(peers@ =~= seq![p]);
        if compare_ids(&p.id, &self.id) != 0 {
            proof {
                if is_closest(t, me, h@, 1, seq![me]) {
                    assert(p != me);
                    assert(in_table(t, p));
                    assert(!seq![me].contains(p));
                    assert(id_lt(dist(h@, seq![me][0]), dist(h@, p)));
                    assert(!seq![p].contains(me));
                    assert(id_lt(dist(h@, seq![p][0]), dist(h@, me)));
                    lemma_lt_asymmetric(dist(h@, me), dist(h@, p));
                }
            }
            let id = next_u64(&mut self.rng);
            let msg = self.make_msg(MessageData::FoundData { id, data: copy, propagate: true });
            let out = vec![Action::Send { to: p, msg }];
            assert(sends_data(out@[0], p, me, dv, true));
            out
        } else {
            proof {
                if p != me {
                    self.lemma_not_in_table(p);
                    assert(p.id =~= self.id);
                }
            }
            Vec::new()
        }
    }

    /// Probes `to`: sends a `Ping` stamped `now` under a fresh message id and
    /// remembers when it went out, so that the `Pong` yields a round trip.
    pub fn ping(&mut self, to: &PeerInfo, now: u64) -> (r: Vec<Action>)
        requires
            old(self).wf(),
        ensures
            final(self).wf(),
            final(self).table() == old(self).table(),
            final(self).stored() == old(self).stored(),
            final(self).info_view() == old(self).info_view(),
            final(self).k_view() == old(self).k_view(),
            final(self).pending() == old(self).pending(),
            final(self).routes() == old(self).routes(),
            final(self).latency() == old(self).latency(),
            r@.len() == 1,
            exists|id: u64|
                final(self).pings() == #[trigger] old(self).pings().insert(id, now) && r@[0] == (
                Action::Send {
                    to: *to,
                    msg: Message { from: old(self).info_view(), contents: MessageData::Ping { id, time: now } },
                }),
    {
        broadcast use vstd::std_specs::hash::group_hash_axioms;

        let id = next_u64(&mut self.rng);
        self.msg_sent_at.insert(id, now);
        let msg = self.make_msg(MessageData::Ping { id, time: now });
        let r = vec![Action::Send { to: *to, msg }];
        assert(self.pings() == old(self).pings().insert(id, now));
        r
    }

    /// Handles one inbound message: its sender is observed into the routing
    /// table first, then the message is answered according to its kind.
    pub fn handle_msg(&mut self, msg: Message) -> (r: Vec<Action>)
        requires
            old(self).wf(),
        ensures
            final(self).wf(),
            final(self).info_view() == old(self).info_view(),
            final(self).k_view() == old(self).k_view(),
            ({
                let me = old(self).info_view();
                let k = old(self).k_view();
                let t1 = table_observe(old(self).table(), me.id@, msg.from, k);
                let stored = old(self).stored();
                let pend = old(self).pending();
                let routes = old(self).routes();
                match msg.contents {
                    MessageData::Ping { id, .. } => {
                        &&& final(self).table() == t1
                        &&& final(self).stored() == stored
                        &&& final(self).pending() == pend
                        &&& final(self).routes() == routes
                        &&& final(self).pings() == old(self).pings()
                        &&& final(self).latency() == old(self).latency()
                        &&& r@ == seq![
                            Action::Send {
                                to: msg.from,
                                msg: Message { from: me, contents: MessageData::Pong { id, time: 0 } },
                            },
                        ]
                    },
                    MessageData::Pong { id, time } => {
                        &&& final(self).table() == t1
                        &&& final(self).stored() == stored
                        &&& final(self).pending() == pend
                        &&& final(self).routes() == routes
                        &&& r@.len() == 0
                        &&& if old(self).pings().contains_key(id) {
                            &&& final(self).pings() == old(self).pings().remove(id)
                            &&& final(self).latency() == old(self).latency().insert(
                                msg.from.id@,
                                (time - old(self).pings()[id]) as i128,
                            )
                        } else {
                            &&& final(self).pings() == old(self).pings()
                            &&& final(self).latency() == old(self).latency()
                        }
                    },
                    MessageData::Find { id, hash } => {
                        &&& final(self).table() == t1
                        &&& final(self).stored() == stored
                        &&& final(self).pending() == pend
                        &&& final(self).routes() == routes
                        &&& final(self).pings() == old(self).pings()
                        &&& final(self).latency() == old(self).latency()
                        &&& r@.len() == 1
                        &&& if stored.contains_key(hash@) {
                            sends_data(r@[0], msg.from, me, stored[hash@]@, false) && found_data_id(r@[0]) == id
                        } else {
                            sends_peers(r@[0], msg.from, me, id, |p: Seq<PeerInfo>| is_closest(t1, me, hash@, k, p))
                        }
                    },
                    MessageData::FoundPeers { id, peers } => {
                        let t2 = table_observe_all(t1, me.id@, peers@, k);
                        let found = count_id(peers@, me.id@);
                        &&& final(self).table() == t2
                        &&& final(self).stored() == stored
                        &&& final(self).pings() == old(self).pings()
                        &&& final(self).latency() == old(self).latency()
                        &&& if routes.contains_key(id) && pend.contains_key(routes[id]) {
                            let fid = routes[id];
                            let pf = pend[fid];
                            if pf.ttl > 0 {
                                let ttl = if found >= pf.ttl { 0u8 } else { (pf.ttl - found) as u8 };
                                lookup_outcome(t2, me, stored, pend.remove(fid), drop_find(routes, fid), pf.hash, pf.reply, ttl, final(self).pending(), final(self).routes(), r@)
                            } else {
                                &&& r@ == seq![Action::Deliver { reply: pf.reply, result: None }]
                                &&& final(self).pending() == pend.remove(fid)
                                &&& final(self).routes() == drop_find(routes, fid)
                            }
                        } else {
                            &&& r@.len() == 0
                            &&& final(self).pending() == pend
                            &&& final(self).routes() == routes.remove(id)
                        }
                    },
                    MessageData::FoundData { id, data, propagate } => {
                        let answered = routes.contains_key(id) && pend.contains_key(routes[id])
                            && pend[routes[id]].hash@ == blake2s256_of(data@);
                        let n: int = if answered { 1 } else { 0 };
                        &&& final(self).table() == t1
                        &&& final(self).pings() == old(self).pings()
                        &&& final(self).latency() == old(self).latency()
                        &&& final(self).routes() == if answered { drop_find(routes, routes[id]) } else { routes.remove(id) }
                        &&& final(self).pending() == if answered { pend.remove(routes[id]) } else { pend }
                        &&& r@.len() >= n
                        &&& answered ==> delivers_found(r@[0], pend[routes[id]].reply, pend[routes[id]].hash, data@)
                        &&& if propagate {
                            &&& final(self).stored() == stored.insert(blake2s256_of(data@), data)
                            &&& forward_outcome(t1, me, data@, r@.subrange(n, r@.len() as int))
                        } else {
                            &&& final(self).stored() == stored
                            &&& r@.len() == n
                        }
                    },
                    MessageData::Stop => {
                        &&& final(self).table() == t1
                        &&& final(self).stored() == stored
                        &&& final(self).pending() == pend
                        &&& final(self).routes() == routes
                        &&& final(self).pings() == old(self).pings()
                        &&& final(self).latency() == old(self).latency()
                        &&& r@ == seq![Action::Stop]
                    },
                }
            }),
    {
        broadcast use vstd::std_specs::hash::group_hash_axioms;

        self.add_peer(&msg.from);
        let from = msg.from;
        let ghost t1 = self.table();
        let ghost me_id = self.id@;
        match msg.contents {
            MessageData::Ping { id, .. } => {
                let reply = self.make_msg(MessageData::Pong { id, time: 0 });
                vec![Action::Send { to: from, msg: reply }]
            },
            MessageData::Pong { id, time } => {
                match self.msg_sent_at.remove(&id) {
                    Some(sent) => {
                        assoc_put(&mut self.peer_distance, from.id, time as i128 - sent as i128);
                    },
                    None => {},
                }
                Vec::new()
            },
            MessageData::Find { id, hash } => {
                match assoc_find(&self.store, &hash) {
                    Some(i) => {
                        let data = copy_bytes(&self.store[i].1);
                        let reply = self.make_msg(MessageData::FoundData { id, data, propagate: false });
                        vec![Action::Send { to: from, msg: reply }]
                    },
                    None => {
                        let k = self.k;
                        let peers = self.find_closest_peers(&hash, &k);
                        let reply = self.make_msg(MessageData::FoundPeers { id, peers });
                        vec![Action::Send { to: from, msg: reply }]
                    },
                }
            },
            MessageData::FoundPeers { id, peers } => {
                let mut found_self: usize = 0;
                let mut i: usize = 0;
                let ghost s0 = self.stored();
                let ghost p0 = self.pending();
                let ghost r0 = self.routes();
                let ghost g0 = self.pings();
                let ghost l0 = self.latency();
                let ghost info0 = self.info_view();
                let ghost k0 = self.k_view();
                while i < peers.len()
                    invariant
                        i <= peers@.len(),
                        found_self <= i,
                        self.wf(),
                        self.id@ == me_id,
                        self.info_view() == info0,
                        self.k_view() == k0,
                        self.stored() == s0,
                        self.pending() == p0,
                        self.routes() == r0,
                        self.pings() == g0,
                        self.latency() == l0,
                        self.table() == table_observe_all(t1, me_id, peers@.subrange(0, i as int), k0),
                        found_self == count_id(peers@.subrange(0, i as int), me_id),
                    decreases peers@.len() - i,
                {
                    let ghost pre = peers@.subrange(0, i as int + 1);
                    assert(pre.drop_last() =~= peers@.subrange(0, i as int));
                    if compare_ids(&peers[i].id, &self.id) == 0 {
                        found_self = found_self + 1;
                    } else {
                        assert(peers@[i as int].id@ != me_id) by {
                            if peers@[i as int].id@ == me_id {
                                assert(peers@[i as int].id =~= self.id);
                            }
                        }
                    }
                    self.add_peer(&peers[i]);
                    i = i + 1;
                }
                assert(peers@.subrange(0, peers@.len() as int) =~= peers@);
                match self.m_id_to_find_id.remove(&id) {
                    Some(fid) => match self.waiting_finds.remove(&fid) {
                        Some(pf) => {
                            self.drop_routes(fid);
                            proof {
                                assert(self.routes() =~= drop_find(r0, fid));
                                assert forall|m: u64| #[trigger] self.m_id_to_find_id@.contains_key(m) implies {
                                    let f = self.m_id_to_find_id@[m];
                                    &&& self.waiting_finds@.contains_key(f)
                                    &&& self.round_msgs@.contains_key(f)
                                    &&& self.round_msgs@[f]@.contains(m)
                                } by {
                                    assert(r0.contains_key(m));
                                }
                                assert(self.routes_tracked());
                            }
                            if pf.ttl > 0 {
                                let ttl: u8 = if found_self >= pf.ttl as usize {
                                    0
                                } else {
                                    pf.ttl - found_self as u8
                                };
                                self.find_with_ttl(&pf.hash, pf.reply, ttl)
                            } else {
                                vec![Action::Deliver { reply: pf.reply, result: None }]
                            }
                        },
                        None => Vec::new(),
                    },
                    None => {
                        assert(self.routes() =~= r0.remove(id));
                        Vec::new()
                    },
                }
            },
            MessageData::FoundData { id, data, propagate } => {
                let mut out: Vec<Action> = Vec::new();
                let ghost r0 = self.routes();
                let ghost p0 = self.pending();
                match self.m_id_to_find_id.remove(&id) {
                    Some(fid) => {
                        match self.waiting_finds.get(&fid) {
                            Some(pf_ref) => {
                                let pf = *pf_ref;
                                let h = self.hash(data.as_slice());
                                if compare_ids(&h, &pf.hash) == 0 {
                                    self.waiting_finds.remove(&fid);
                                    self.drop_routes(fid);
                                    proof {
                                        assert(self.routes() =~= drop_find(r0, fid));
                                        assert forall|m: u64| #[trigger] self.m_id_to_find_id@.contains_key(m) implies {
                                            let f = self.m_id_to_find_id@[m];
                                            &&& self.waiting_finds@.contains_key(f)
                                            &&& self.round_msgs@.contains_key(f)
                                            &&& self.round_msgs@[f]@.contains(m)
                                        } by {
                                            assert(r0.contains_key(m));
                                        }
                                        assert(self.routes_tracked());
                                    }
                                    out.push(Action::Deliver { reply: pf.reply, result: Some((pf.hash, copy_bytes(&data))) });
                                }
                            },
                            None => {},
                        }
                    },
                    None => {
                        assert(self.routes() =~= r0.remove(id));
                    },
                }
                let ghost first = out@;
                if propagate {
                    let mut more = self.store(data);
                    let ghost m = more@;
                    out.append(&mut more);
                    assert(out@.subrange(first.len() as int, out@.len() as int) =~= m);
                }
                out
            },
            MessageData::Stop => vec![Action::Stop],
        }
    }
}

} // verus!
