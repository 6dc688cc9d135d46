use crate::fixed_vec::{FixedVec, BUCKET_SIZE};
use crate::node_id::{common_prefix_length, prefix_len, random_node_id, NodeId, ID_BITS};
use std::ops::Range;
use vstd::prelude::*;

verus! {

/// An IPv4 address (network order) and a port.
#[derive(Debug, Clone, Copy, PartialEq, Eq)]
pub struct ContactAddress {
    pub ip: [u8; 4],
    pub port: u16,
}

/// A peer: its id and where to reach it.
#[derive(Debug, Clone, Copy, PartialEq, Eq)]
pub struct NodeContactInfo {
    pub id: NodeId,
    pub address: ContactAddress,
}

/// Freshness of a routing entry.
#[derive(Debug, Clone, Copy, PartialEq, Eq, Structural)]
pub enum NodeRating {
    Good,
    Questionable,
    Bad,
}

/// How a peer was observed.
#[derive(Debug, Clone, Copy, PartialEq, Eq, Structural)]
pub enum SeenIn {
    Query,
    Response,
    Referral,
}

/// A contact with the times (in seconds) at which it last queried us and last responded.
#[derive(Debug, Clone, Copy, PartialEq, Eq)]
pub struct RoutingEntry {
    pub node: NodeContactInfo,
    pub last_response: Option<u64>,
    pub last_query: Option<u64>,
}

/// Minutes after which silence makes an entry stale.
pub const STALE_MINUTES: u64 = 15;

/// Whole minutes from `t` to `now`; zero if `t` is later than `now`.
pub open spec fn minutes_since(t: u64, now: u64) -> int {
    if now >= t {
        (now - t) / 60
    } else {
        0
    }
}

/// Rating of an entry at time `now`.
pub open spec fn rating_at(e: RoutingEntry, now: u64) -> NodeRating {
    if e.last_response is Some && minutes_since(e.last_response->0, now) <= STALE_MINUTES {
        NodeRating::Good
    } else if e.last_response is Some && e.last_query is Some && minutes_since(
        e.last_query->0,
        now,
    ) <= STALE_MINUTES {
        NodeRating::Good
    } else if e.last_query is None && e.last_response is None {
        NodeRating::Questionable
    } else {
        NodeRating::Bad
    }
}

/// `e` after it was seen at time `now`.
pub open spec fn seen_at(e: RoutingEntry, seen_in: SeenIn, now: u64) -> RoutingEntry {
    match seen_in {
        SeenIn::Query => RoutingEntry { last_query: Some(now), ..e },
        SeenIn::Response => RoutingEntry { last_response: Some(now), ..e },
        SeenIn::Referral => e,
    }
}

/// A new entry for `node`, seen at time `now`.
pub open spec fn fresh_entry(node: NodeContactInfo, seen_in: SeenIn, now: u64) -> RoutingEntry {
    seen_at(RoutingEntry { node, last_response: None, last_query: None }, seen_in, now)
}

/// Rank of a rating, higher is better.
pub open spec fn rating_rank(r: NodeRating) -> int {
    match r {
        NodeRating::Good => 2,
        NodeRating::Questionable => 1,
        NodeRating::Bad => 0,
    }
}

/// As time passes an entry's rating never improves.
pub proof fn lemma_rating_monotone(e: RoutingEntry, now: u64, later: u64)
    requires
        now <= later,
    ensures
        rating_rank(rating_at(e, later)) <= rating_rank(rating_at(e, now)),
{
    if e.last_response is Some {
        let t = e.last_response->0;
        if later >= t {
            assert((later - t) / 60 >= if now >= t { (now - t) / 60 } else { 0 }) by (nonlinear_arith)
                requires
                    now <= later,
                    later >= t,
            ;
        }
    }
    if e.last_query is Some {
        let t = e.last_query->0;
        if later >= t {
            assert((later - t) / 60 >= if now >= t { (now - t) / 60 } else { 0 }) by (nonlinear_arith)
                requires
                    now <= later,
                    later >= t,
            ;
        }
    }
}

fn minutes_between(t: u64, now: u64) -> (r: u64)
    ensures
        r == minutes_since(t, now),
{
    if now >= t {
        (now - t) / 60
    } else {
        0
    }
}

impl RoutingEntry {
    /// An entry for a contact we have not heard from directly.
    pub fn new(node: NodeContactInfo) -> (r: RoutingEntry)
        ensures
            r == (RoutingEntry { node, last_response: None, last_query: None }),
    {
        RoutingEntry { node, last_query: None, last_response: None }
    }

    /// Rating at time `now`.
    pub fn rating(&self, now: u64) -> (r: NodeRating)
        ensures
            r == rating_at(*self, now),
    {
        let response_fresh = match self.last_response {
            Some(t) => minutes_between(t, now) <= STALE_MINUTES,
            None => false,
        };
        let query_fresh = match self.last_query {
            Some(t) => minutes_between(t, now) <= STALE_MINUTES,
            None => false,
        };
        if response_fresh {
            NodeRating::Good
        } else if self.last_response.is_some() && query_fresh {
            NodeRating::Good
        } else if self.last_query.is_none() && self.last_response.is_none() {
            NodeRating::Questionable
        } else {
            NodeRating::Bad
        }
    }

    /// Records that the peer was seen at time `now`.
    pub fn update(&mut self, seen_in: SeenIn, now: u64)
        ensures
            *final(self) == seen_at(*old(self), seen_in, now),
    {
        match seen_in {
            SeenIn::Query => self.last_query = Some(now),
            SeenIn::Response => self.last_response = Some(now),
            SeenIn::Referral => {},
        }
    }
}

/// A group of entries whose common-prefix length with our own id lies in `bounds`.
pub struct Bucket {
    pub entries: FixedVec<RoutingEntry>,
    pub bounds: Range<u32>,
}

/// Model of a bucket: its bounds and its entries.
pub type BucketView = (u32, u32, Seq<RoutingEntry>);

impl View for Bucket {
    type V = BucketView;

    open spec fn view(&self) -> BucketView {
        (self.bounds.start, self.bounds.end, self.entries@)
    }
}

impl Bucket {
    /// An empty bucket covering `bounds`.
    pub fn new(bounds: Range<u32>) -> (r: Bucket)
        ensures
            r@ == (bounds.start, bounds.end, Seq::<RoutingEntry>::empty()),
    {
        Bucket { entries: FixedVec::new(), bounds }
    }
}

/// Buckets ordered by prefix length, with our own id as the reference.
pub struct RoutingTable {
    pub buckets: Vec<Bucket>,
    pub reference_id: NodeId,
}

/// Prefix length of an entry's id with respect to `own`.
pub open spec fn entry_prefix(own: Seq<u8>, e: RoutingEntry) -> int {
    prefix_len(own, e.node.id@) as int
}

pub open spec fn covers(b: BucketView, p: int) -> bool {
    b.0 <= p < b.1
}

/// The bucket ranges are non-empty, adjacent, ascending, and together cover `[0, 160)`.
pub open spec fn partitioned(t: Seq<BucketView>) -> bool {
    &&& t.len() >= 1
    &&& t[0].0 == 0
    &&& t.last().1 == 160
    &&& forall|i: int| 0 <= i < t.len() ==> (#[trigger] t[i]).0 < t[i].1
    &&& forall|i: int, j: int|
        0 <= i && j == i + 1 && j < t.len() ==> (#[trigger] t[i]).1 == (#[trigger] t[j]).0
}

/// No bucket holds more than `BUCKET_SIZE` entries.
pub open spec fn bounded(t: Seq<BucketView>) -> bool {
    forall|i: int| 0 <= i < t.len() ==> (#[trigger] t[i]).2.len() <= BUCKET_SIZE
}

/// Each entry lies in the bucket whose range holds its prefix length.
pub open spec fn placed(t: Seq<BucketView>, own: Seq<u8>) -> bool {
    forall|i: int, j: int|
        0 <= i < t.len() && 0 <= j < t[i].2.len() ==> covers(t[i], #[trigger] entry_prefix(own, t[i].2[j]))
}

/// No two entries of a bucket have the same id.
pub open spec fn distinct_in_buckets(t: Seq<BucketView>) -> bool {
    forall|i: int, j: int, k: int|
        0 <= i < t.len() && 0 <= j < t[i].2.len() && 0 <= k < t[i].2.len() && #[trigger] t[i].2[j].node.id
            == #[trigger] t[i].2[k].node.id ==> j == k
}

pub open spec fn table_wf(t: Seq<BucketView>, own: Seq<u8>) -> bool {
    &&& partitioned(t)
    &&& bounded(t)
    &&& placed(t, own)
    &&& distinct_in_buckets(t)
}

/// The bucket whose range holds `p`.
pub open spec fn bucket_for(t: Seq<BucketView>, p: int) -> int {
    choose|i: int| 0 <= i < t.len() && covers(t[i], p)
}

impl View for RoutingTable {
    type V = Seq<BucketView>;

    open spec fn view(&self) -> Seq<BucketView> {
        self.buckets@.map_values(|b: Bucket| b@)
    }
}

/// Bucket ranges end where later ones start.
pub proof fn lemma_partition_ordered(t: Seq<BucketView>, i: int, j: int)
    requires
        partitioned(t),
        0 <= i < j < t.len(),
    ensures
        t[i].1 <= t[j].0,
    decreases j - i,
{
    if i + 1 < j {
        lemma_partition_ordered(t, i + 1, j);
    }
}

/// Exactly one bucket holds each prefix length in `[0, 160)`.
pub proof fn lemma_bucket_for(t: Seq<BucketView>, p: int)
    requires
        partitioned(t),
        0 <= p < 160,
    ensures
        0 <= bucket_for(t, p) < t.len(),
        covers(t[bucket_for(t, p)], p),
        forall|i: int| 0 <= i < t.len() && covers(t[i], p) ==> i == bucket_for(t, p),
    decreases t.len(),
{
    lemma_bucket_exists(t, p, 0);
    let c = bucket_for(t, p);
    assert forall|i: int| 0 <= i < t.len() && covers(t[i], p) implies i == c by {
        if i < c {
            lemma_partition_ordered(t, i, c);
        } else if c < i {
            lemma_partition_ordered(t, c, i);
        }
    }
}

proof fn lemma_bucket_exists(t: Seq<BucketView>, p: int, i: int)
    requires
        partitioned(t),
        0 <= i < t.len(),
        t[i].0 <= p < 160,
    ensures
        exists|k: int| 0 <= k < t.len() && covers(t[k], p),
    decreases t.len() - i,
{
    if p >= t[i].1 {
        lemma_bucket_exists(t, p, i + 1);
    }
}


/// Every bucket range ends at or before 160.
proof fn lemma_partition_bounds(t: Seq<BucketView>, i: int)
    requires
        partitioned(t),
        0 <= i < t.len(),
    ensures
        t[i].1 <= 160,
{
    if i < t.len() - 1 {
        lemma_partition_ordered(t, i, t.len() - 1);
        assert(t.last() == t[t.len() - 1]);
    } else {
        assert(t.last() == t[t.len() - 1]);
    }
}

/// The contacts of a bucket, in order.
pub open spec fn nodes_of(b: BucketView) -> Seq<NodeContactInfo> {
    b.2.map_values(|e: RoutingEntry| e.node)
}

/// Contacts of the buckets at index distance `k` from bucket `c`: lower one first.
pub open spec fn ring(t: Seq<BucketView>, c: int, k: nat) -> Seq<NodeContactInfo> {
    if k == 0 {
        nodes_of(t[c])
    } else {
        (if c - k >= 0 {
            nodes_of(t[c - k])
        } else {
            seq![]
        }) + (if c + k < t.len() {
            nodes_of(t[c + k])
        } else {
            seq![]
        })
    }
}

/// Contacts of all buckets at index distance at most `k` from bucket `c`, nearest first.
pub open spec fn gathered(t: Seq<BucketView>, c: int, k: nat) -> Seq<NodeContactInfo>
    decreases k,
{
    if k == 0 {
        ring(t, c, 0)
    } else {
        gathered(t, c, (k - 1) as nat) + ring(t, c, k)
    }
}

/// The first `BUCKET_SIZE` items of `s`.
pub open spec fn take_k<A>(s: Seq<A>) -> Seq<A> {
    if s.len() <= BUCKET_SIZE {
        s
    } else {
        s.subrange(0, BUCKET_SIZE as int)
    }
}

/// The contacts that `find_closest` returns: the first `BUCKET_SIZE` gathered outward
/// from bucket `c`.
pub open spec fn closest(t: Seq<BucketView>, c: int) -> Seq<NodeContactInfo> {
    take_k(gathered(t, c, t.len()))
}

/// Number of entries in the buckets `lo..hi`.
pub open spec fn range_count(t: Seq<BucketView>, lo: int, hi: int) -> nat
    decreases hi - lo,
{
    if hi <= lo {
        0
    } else {
        range_count(t, lo, hi - 1) + t[hi - 1].2.len()
    }
}

/// Number of entries in the table.
pub open spec fn total_entries(t: Seq<BucketView>) -> nat {
    range_count(t, 0, t.len() as int)
}

proof fn lemma_range_count_low(t: Seq<BucketView>, lo: int, hi: int)
    requires
        lo < hi,
    ensures
        range_count(t, lo, hi) == t[lo].2.len() + range_count(t, lo + 1, hi),
    decreases hi - lo,
{
    if lo + 1 < hi {
        lemma_range_count_low(t, lo, hi - 1);
        assert(range_count(t, lo + 1, hi) == range_count(t, lo + 1, hi - 1) + t[hi - 1].2.len());
    } else {
        assert(range_count(t, lo, hi - 1) == 0);
        assert(range_count(t, lo + 1, hi) == 0);
    }
}

/// Starts strictly increase from 0 and stay below 160, so there are at most 160 buckets.
pub proof fn lemma_partition_len(t: Seq<BucketView>)
    requires
        partitioned(t),
    ensures
        t.len() <= 160,
{
    lemma_partition_starts(t, t.len() - 1);
    assert(t.last() == t[t.len() - 1]);
}

proof fn lemma_partition_starts(t: Seq<BucketView>, i: int)
    requires
        partitioned(t),
        0 <= i < t.len(),
    ensures
        t[i].0 >= i,
    decreases i,
{
    if i > 0 {
        lemma_partition_starts(t, i - 1);
        assert(t[i - 1].1 == t[i].0);
    }
}

pub open spec fn max(a: int, b: int) -> int {
    if a >= b {
        a
    } else {
        b
    }
}

pub open spec fn min(a: int, b: int) -> int {
    if a <= b {
        a
    } else {
        b
    }
}

proof fn lemma_gathered_len(t: Seq<BucketView>, c: int, k: nat)
    requires
        0 <= c < t.len(),
    ensures
        gathered(t, c, k).len() == range_count(t, max(0, c - k), min(t.len() as int, c + k + 1)),
    decreases k,
{
    if k == 0 {
        lemma_range_count_low(t, c, c + 1);
    } else {
        lemma_gathered_len(t, c, (k - 1) as nat);
        let lo = max(0, c - (k - 1));
        let hi = min(t.len() as int, c + (k - 1) + 1);
        if c - k >= 0 {
            lemma_range_count_low(t, c - k, hi);
        }
        if c + k < t.len() {
            let lo2 = max(0, c - k);
            assert(range_count(t, lo2, c + k + 1) == range_count(t, lo2, c + k) + t[c + k].2.len());
        }
    }
}

/// Gathering stops growing once it has reached both ends of the table.
proof fn lemma_gathered_stable(t: Seq<BucketView>, c: int, k: nat, m: nat)
    requires
        0 <= c < t.len(),
        k <= m,
        c - k < 0 || k >= c,
        c + k >= t.len() - 1,
    ensures
        gathered(t, c, m) == gathered(t, c, k),
    decreases m - k,
{
    if k < m {
        lemma_gathered_stable(t, c, k, (m - 1) as nat);
        assert(ring(t, c, m) =~= Seq::<NodeContactInfo>::empty());
        assert(gathered(t, c, m) =~= gathered(t, c, (m - 1) as nat));
    }
}

/// Earlier gatherings are prefixes of later ones.
proof fn lemma_gathered_prefix(t: Seq<BucketView>, c: int, k: nat, m: nat)
    requires
        k <= m,
    ensures
        gathered(t, c, k).len() <= gathered(t, c, m).len(),
        gathered(t, c, m).subrange(0, gathered(t, c, k).len() as int) == gathered(t, c, k),
    decreases m - k,
{
    if k < m {
        lemma_gathered_prefix(t, c, k, (m - 1) as nat);
        let a = gathered(t, c, (m - 1) as nat);
        let n = gathered(t, c, k).len() as int;
        assert(gathered(t, c, m).subrange(0, n) =~= a.subrange(0, n));
    } else {
        assert(gathered(t, c, m).subrange(0, gathered(t, c, k).len() as int) =~= gathered(t, c, k));
    }
}

proof fn lemma_take_k_absorb<A>(a: Seq<A>, b: Seq<A>)
    ensures
        take_k(take_k(a) + b) == take_k(a + b),
{
    if a.len() > BUCKET_SIZE {
        assert(take_k(a) + b =~= (a + b).subrange(0, BUCKET_SIZE as int) + b);
        assert((take_k(a) + b).subrange(0, BUCKET_SIZE as int) =~= (a + b).subrange(0, BUCKET_SIZE as int));
    } else if a.len() == BUCKET_SIZE {
        assert((a + b).subrange(0, BUCKET_SIZE as int) =~= a);
        if b.len() == 0 {
            assert(a + b =~= a);
        }
    }
}

proof fn lemma_take_k_full<A>(a: Seq<A>, b: Seq<A>)
    requires
        a.len() >= BUCKET_SIZE,
    ensures
        take_k(a + b) == take_k(a),
{
    if a.len() > BUCKET_SIZE {
        assert((a + b).subrange(0, BUCKET_SIZE as int) =~= a.subrange(0, BUCKET_SIZE as int));
    } else {
        assert((a + b).subrange(0, BUCKET_SIZE as int) =~= a);
        if b.len() == 0 {
            assert(a + b =~= a);
        }
    }
}

/// Appends items of `bucket` to `result` while it has room.
fn push_until_full(result: &mut FixedVec<NodeContactInfo>, bucket: &Bucket)
    requires
        old(result)@.len() <= BUCKET_SIZE,
    ensures
        final(result)@ == take_k(old(result)@ + nodes_of(bucket@)),
{
    let ghost start = result@;
    let ghost nodes = nodes_of(bucket@);
    let mut j: usize = 0;
    assert(start + nodes.subrange(0, 0) =~= start);
    while j < bucket.entries.len()
        invariant
            start == old(result)@,
            nodes == nodes_of(bucket@),
            nodes.len() == bucket.entries@.len(),
            start.len() <= BUCKET_SIZE,
            0 <= j <= nodes.len(),
            result@ == take_k(start + nodes.subrange(0, j as int)),
        decreases nodes.len() - j,
    {
        if result.is_full() {
            proof {
                if (start + nodes.subrange(0, j as int)).len() < BUCKET_SIZE {
                    assert(false);
                }
                lemma_take_k_full(start + nodes.subrange(0, j as int), nodes.subrange(j as int, nodes.len() as int));
                assert(start + nodes.subrange(0, j as int) + nodes.subrange(j as int, nodes.len() as int) =~= start + nodes);
            }
            return;
        }
        let e = bucket.entries.get(j);
        result.push(e.node);
        proof {
            assert(start + nodes.subrange(0, j + 1) =~= (start + nodes.subrange(0, j as int)).push(nodes[j as int]));
        }
        j = j + 1;
    }
    assert(nodes.subrange(0, nodes.len() as int) =~= nodes);
}


/// Entries of `es`, in order, whose prefix length is `lo` (when `at`) or is not (otherwise).
pub open spec fn split_part(es: Seq<RoutingEntry>, own: Seq<u8>, lo: int, at: bool) -> Seq<
    RoutingEntry,
>
    decreases es.len(),
{
    if es.len() == 0 {
        seq![]
    } else {
        let rest = split_part(es.drop_last(), own, lo, at);
        if (entry_prefix(own, es.last()) == lo) == at {
            rest.push(es.last())
        } else {
            rest
        }
    }
}

/// No id occurs twice in `es`.
pub open spec fn distinct_ids(es: Seq<RoutingEntry>) -> bool {
    forall|j: int, k: int|
        0 <= j < es.len() && 0 <= k < es.len() && #[trigger] es[j].node.id == #[trigger] es[k].node.id
            ==> j == k
}

pub open spec fn holds_id(es: Seq<RoutingEntry>, id: NodeId) -> bool {
    exists|j: int| 0 <= j < es.len() && es[j].node.id == id
}

/// Index of the entry with id `id`.
pub open spec fn position_of(es: Seq<RoutingEntry>, id: NodeId) -> int {
    choose|j: int| 0 <= j < es.len() && es[j].node.id == id
}

pub open spec fn has_bad(es: Seq<RoutingEntry>, now: u64) -> bool {
    exists|j: int| 0 <= j < es.len() && rating_at(es[j], now) == NodeRating::Bad
}

/// Index of the first entry that is bad at `now`.
pub open spec fn first_bad(es: Seq<RoutingEntry>, now: u64) -> int {
    choose|j: int|
        0 <= j < es.len() && rating_at(es[j], now) == NodeRating::Bad && forall|k: int|
            0 <= k < j ==> rating_at(#[trigger] es[k], now) != NodeRating::Bad
}

/// The table with its last bucket `[lo, hi)` split into `[lo, lo + 1)` and `[lo + 1, hi)`,
/// each entry going to the half that holds its prefix length; `ne` joins its half if
/// that half has room.
pub open spec fn split_model(t: Seq<BucketView>, own: Seq<u8>, ne: RoutingEntry) -> Seq<BucketView> {
    let lo = t.last().0;
    let hi = t.last().1;
    let es = t.last().2;
    let p = entry_prefix(own, ne);
    let low = split_part(es, own, lo as int, true);
    let high = split_part(es, own, lo as int, false);
    let low2 = if p == lo && low.len() < BUCKET_SIZE {
        low.push(ne)
    } else {
        low
    };
    let high2 = if p != lo && high.len() < BUCKET_SIZE {
        high.push(ne)
    } else {
        high
    };
    t.drop_last().push((lo, (lo + 1) as u32, low2)).push(((lo + 1) as u32, hi, high2))
}

/// The table after `node` was seen at time `now`: its entry is refreshed (taking the new
/// address), or a new entry takes a free slot, or replaces the first bad entry, or the
/// bucket holding the ids nearest our own is split in two, the new entry joining its half
/// when that half has room; otherwise the table is unchanged. Our own id is never added.
pub open spec fn update_model(
    t: Seq<BucketView>,
    own: Seq<u8>,
    node: NodeContactInfo,
    seen_in: SeenIn,
    now: u64,
) -> Seq<BucketView> {
    let p = prefix_len(own, node.id@) as int;
    if p >= 160 {
        t
    } else {
        let bi = bucket_for(t, p);
        let lo = t[bi].0;
        let hi = t[bi].1;
        let es = t[bi].2;
        let ne = fresh_entry(node, seen_in, now);
        if holds_id(es, node.id) {
            let j = position_of(es, node.id);
            t.update(bi, (lo, hi, es.update(j, seen_at(RoutingEntry { node, ..es[j] }, seen_in, now))))
        } else if es.len() < BUCKET_SIZE {
            t.update(bi, (lo, hi, es.push(ne)))
        } else if has_bad(es, now) {
            t.update(bi, (lo, hi, es.update(first_bad(es, now), ne)))
        } else if hi == 160 && hi - lo > 1 {
            split_model(t, own, ne)
        } else {
            t
        }
    }
}

/// What `split_part` keeps comes from `es` and meets its condition.
proof fn lemma_split_part(es: Seq<RoutingEntry>, own: Seq<u8>, lo: int, at: bool)
    ensures
        split_part(es, own, lo, at).len() <= es.len(),
        forall|i: int|
            0 <= i < split_part(es, own, lo, at).len() ==> ((entry_prefix(
                own,
                #[trigger] split_part(es, own, lo, at)[i],
            ) == lo) == at) && exists|k: int|
                0 <= k < es.len() && es[k] == split_part(es, own, lo, at)[i],
        distinct_ids(es) ==> distinct_ids(split_part(es, own, lo, at)),
    decreases es.len(),
{
    if es.len() > 0 {
        let rest = es.drop_last();
        lemma_split_part(rest, own, lo, at);
        let r = split_part(rest, own, lo, at);
        let out = split_part(es, own, lo, at);
        assert forall|i: int| 0 <= i < out.len() implies ((entry_prefix(own, #[trigger] out[i]) == lo)
            == at) && exists|k: int| 0 <= k < es.len() && es[k] == out[i] by {
            if i < r.len() {
                assert(out[i] == r[i]);
                let k = choose|k: int| 0 <= k < rest.len() && rest[k] == r[i];
                assert(es[k] == out[i]);
            } else {
                assert(es[es.len() - 1] == out[i]);
            }
        }
        if distinct_ids(es) {
            assert(distinct_ids(rest)) by {
                assert forall|j: int, k: int|
                    0 <= j < rest.len() && 0 <= k < rest.len() && #[trigger] rest[j].node.id
                        == #[trigger] rest[k].node.id implies j == k by {
                    assert(es[j] == rest[j] && es[k] == rest[k]);
                    assert(es[j].node.id == es[k].node.id);
                }
            }
            assert forall|j: int, k: int|
                0 <= j < out.len() && 0 <= k < out.len() && #[trigger] out[j].node.id
                    == #[trigger] out[k].node.id implies j == k by {
                if j < r.len() && k >= r.len() {
                    let m = choose|m: int| 0 <= m < rest.len() && rest[m] == r[j];
                    assert(es[m] == r[j]);
                    assert(out[k] == es[es.len() - 1]);
                    assert(out[j] == r[j]);
                    assert(es[m].node.id == es[es.len() - 1].node.id);
                } else if k < r.len() && j >= r.len() {
                    let m = choose|m: int| 0 <= m < rest.len() && rest[m] == r[k];
                    assert(es[m] == r[k]);
                    assert(out[j] == es[es.len() - 1]);
                    assert(out[k] == r[k]);
                    assert(es[m].node.id == es[es.len() - 1].node.id);
                } else if j < r.len() && k < r.len() {
                    assert(out[j] == r[j] && out[k] == r[k]);
                    assert(r[j].node.id == r[k].node.id);
                }
            }
        }
    }
}

/// Bucket ranges after splitting the last one still partition `[0, 160)`.
proof fn lemma_split_partitioned(t: Seq<BucketView>, low: Seq<RoutingEntry>, high: Seq<RoutingEntry>)
    requires
        partitioned(t),
        t.last().1 - t.last().0 > 1,
    ensures
        partitioned(
            t.drop_last().push((t.last().0, (t.last().0 + 1) as u32, low)).push(
                ((t.last().0 + 1) as u32, t.last().1, high),
            ),
        ),
{
    let n = t.len() as int;
    let lo = t.last().0;
    let hi = t.last().1;
    let r = t.drop_last().push((lo, (lo + 1) as u32, low)).push(((lo + 1) as u32, hi, high));
    assert(r.len() == n + 1);
    assert forall|i: int| 0 <= i < r.len() implies (#[trigger] r[i]).0 < r[i].1 by {
        if i < n - 1 {
            assert(r[i] == t[i]);
        }
    }
    assert forall|i: int, j: int| 0 <= i && j == i + 1 && j < r.len() implies (#[trigger] r[i]).1
        == (#[trigger] r[j]).0 by {
        if j < n - 1 {
            assert(r[i] == t[i] && r[j] == t[j]);
        } else if j == n - 1 {
            assert(r[i] == t[i]);
            assert(t[i].1 == t[j].0);
        }
    }
    if n > 1 {
        assert(r[0] == t[0]);
    }
}


/// Replacing the entries of one bucket by bounded, distinct entries that belong there
/// keeps the table invariant.
proof fn lemma_replace_entries_wf(t: Seq<BucketView>, own: Seq<u8>, bi: int, es: Seq<RoutingEntry>)
    requires
        table_wf(t, own),
        0 <= bi < t.len(),
        es.len() <= BUCKET_SIZE,
        forall|j: int| 0 <= j < es.len() ==> covers(t[bi], #[trigger] entry_prefix(own, es[j])),
        distinct_ids(es),
    ensures
        table_wf(t.update(bi, (t[bi].0, t[bi].1, es)), own),
{
    let r = t.update(bi, (t[bi].0, t[bi].1, es));
    assert(r.last() == r[r.len() - 1]);
    assert(t.last() == t[t.len() - 1]);
    assert forall|i: int, j: int| 0 <= i && j == i + 1 && j < r.len() implies (#[trigger] r[i]).1
        == (#[trigger] r[j]).0 by {
        assert(t[i].1 == t[j].0);
    }
    assert forall|i: int| 0 <= i < r.len() implies (#[trigger] r[i]).0 < r[i].1 by {
        assert(t[i].0 < t[i].1);
    }
    assert(partitioned(r));
    assert forall|i: int| 0 <= i < r.len() implies (#[trigger] r[i]).2.len() <= BUCKET_SIZE by {
        assert(t[i].2.len() <= BUCKET_SIZE);
    }
    assert forall|i: int, j: int| 0 <= i < r.len() && 0 <= j < r[i].2.len() implies covers(
        r[i],
        #[trigger] entry_prefix(own, r[i].2[j]),
    ) by {
        if i != bi {
            assert(covers(t[i], entry_prefix(own, t[i].2[j])));
        }
    }
    assert forall|i: int, j: int, k: int|
        0 <= i < r.len() && 0 <= j < r[i].2.len() && 0 <= k < r[i].2.len() && #[trigger] r[i].2[j].node.id
            == #[trigger] r[i].2[k].node.id implies j == k by {
        if i != bi {
            assert(t[i].2[j].node.id == t[i].2[k].node.id);
        } else {
            assert(es[j].node.id == es[k].node.id);
        }
    }
}


proof fn lemma_part_distinct(
    part: Seq<RoutingEntry>,
    part2: Seq<RoutingEntry>,
    ne: RoutingEntry,
    es: Seq<RoutingEntry>,
    j: int,
    k: int,
)
    requires
        distinct_ids(part),
        part2 == part || part2 == part.push(ne),
        forall|i: int| 0 <= i < part.len() ==> exists|m: int| 0 <= m < es.len() && es[m] == #[trigger] part[i],
        !holds_id(es, ne.node.id),
        0 <= j < part2.len(),
        0 <= k < part2.len(),
        part2[j].node.id == part2[k].node.id,
    ensures
        j == k,
{
    if j < part.len() && k < part.len() {
        assert(part2[j] == part[j] && part2[k] == part[k]);
        assert(part[j].node.id == part[k].node.id);
    } else if j < part.len() && k >= part.len() {
        let m = choose|m: int| 0 <= m < es.len() && es[m] == part[j];
        assert(part2[j] == part[j]);
        assert(es[m].node.id == ne.node.id);
    } else if k < part.len() && j >= part.len() {
        let m = choose|m: int| 0 <= m < es.len() && es[m] == part[k];
        assert(part2[k] == part[k]);
        assert(es[m].node.id == ne.node.id);
    }
}

/// Splitting the last bucket keeps the table invariant.
proof fn lemma_split_wf(t: Seq<BucketView>, own: Seq<u8>, ne: RoutingEntry)
    requires
        table_wf(t, own),
        t.last().1 == 160,
        t.last().1 - t.last().0 > 1,
        t.last().2.len() == BUCKET_SIZE,
        covers(t.last(), entry_prefix(own, ne)),
        !holds_id(t.last().2, ne.node.id),
    ensures
        table_wf(split_model(t, own, ne), own),
{
    let n = t.len() as int;
    let lo = t.last().0;
    let hi = t.last().1;
    let es = t.last().2;
    let p = entry_prefix(own, ne);
    let low = split_part(es, own, lo as int, true);
    let high = split_part(es, own, lo as int, false);
    let r = split_model(t, own, ne);
    let low2 = r[n - 1].2;
    let high2 = r[n].2;
    assert(t.last() == t[n - 1]);
    lemma_split_part(es, own, lo as int, true);
    lemma_split_part(es, own, lo as int, false);
    lemma_split_partitioned(t, low2, high2);
    assert(distinct_ids(es)) by {
        assert forall|j: int, k: int|
            0 <= j < es.len() && 0 <= k < es.len() && #[trigger] es[j].node.id
                == #[trigger] es[k].node.id implies j == k by {
            assert(t[n - 1].2[j].node.id == t[n - 1].2[k].node.id);
        }
    }
    assert forall|i: int| 0 <= i < r.len() implies (#[trigger] r[i]).2.len() <= BUCKET_SIZE by {
        if i < n - 1 {
            assert(r[i] == t[i]);
        }
    }
    assert forall|i: int, j: int| 0 <= i < r.len() && 0 <= j < r[i].2.len() implies covers(
        r[i],
        #[trigger] entry_prefix(own, r[i].2[j]),
    ) by {
        if i < n - 1 {
            assert(r[i] == t[i]);
        } else if i == n - 1 {
            if j < low.len() {
                assert(low2[j] == low[j]);
            }
        } else {
            if j < high.len() {
                assert(high2[j] == high[j]);
                let k = choose|k: int| 0 <= k < es.len() && es[k] == high[j];
                assert(covers(t[n - 1], entry_prefix(own, t[n - 1].2[k])));
            }
        }
    }
    assert forall|i: int, j: int, k: int|
        0 <= i < r.len() && 0 <= j < r[i].2.len() && 0 <= k < r[i].2.len() && #[trigger] r[i].2[j].node.id
            == #[trigger] r[i].2[k].node.id implies j == k by {
        if i < n - 1 {
            assert(r[i] == t[i]);
            assert(t[i].2[j].node.id == t[i].2[k].node.id);
        } else if i == n - 1 {
            lemma_part_distinct(low, r[i].2, ne, es, j, k);
        } else {
            lemma_part_distinct(high, r[i].2, ne, es, j, k);
        }
    }
}


/// Refreshing the entry that has `node`'s id keeps the table invariant and is what
/// `update_model` states.
proof fn lemma_refresh(
    t: Seq<BucketView>,
    own: Seq<u8>,
    node: NodeContactInfo,
    seen_in: SeenIn,
    now: u64,
    bi: int,
    j: int,
)
    requires
        table_wf(t, own),
        prefix_len(own, node.id@) < 160,
        bi == bucket_for(t, prefix_len(own, node.id@) as int),
        0 <= bi < t.len(),
        covers(t[bi], prefix_len(own, node.id@) as int),
        0 <= j < t[bi].2.len(),
        t[bi].2[j].node.id == node.id,
    ensures
        ({
            let es = t[bi].2;
            let es2 = es.update(j, seen_at(RoutingEntry { node, ..es[j] }, seen_in, now));
            &&& update_model(t, own, node, seen_in, now) == t.update(bi, (t[bi].0, t[bi].1, es2))
            &&& table_wf(t.update(bi, (t[bi].0, t[bi].1, es2)), own)
        }),
{
    let es = t[bi].2;
    let refreshed = seen_at(RoutingEntry { node, ..es[j] }, seen_in, now);
    let es2 = es.update(j, refreshed);
    assert(holds_id(es, node.id));
    let c = position_of(es, node.id);
    assert(t[bi].2[c].node.id == t[bi].2[j].node.id);
    assert(c == j);
    assert forall|k: int| 0 <= k < es2.len() implies covers(t[bi], #[trigger] entry_prefix(own, es2[k])) by {
        assert(covers(t[bi], entry_prefix(own, t[bi].2[k])));
    }
    assert forall|a: int, b: int|
        0 <= a < es2.len() && 0 <= b < es2.len() && #[trigger] es2[a].node.id
            == #[trigger] es2[b].node.id implies a == b by {
        assert(t[bi].2[a].node.id == t[bi].2[b].node.id);
    }
    lemma_replace_entries_wf(t, own, bi, es2);
}


/// The table invariant that `RoutingTable::new` establishes and `RoutingTable::update`
/// preserves means: the bucket ranges partition `[0, 160)`, no bucket holds more than
/// `BUCKET_SIZE` entries, and each id appears in at most one entry of the whole table.
pub proof fn lemma_table_invariant(t: Seq<BucketView>, own: Seq<u8>)
    requires
        table_wf(t, own),
    ensures
        partitioned(t),
        forall|i: int| 0 <= i < t.len() ==> (#[trigger] t[i]).2.len() <= BUCKET_SIZE,
        forall|i1: int, j1: int, i2: int, j2: int|
            0 <= i1 < t.len() && 0 <= j1 < t[i1].2.len() && 0 <= i2 < t.len() && 0 <= j2
                < t[i2].2.len() && #[trigger] t[i1].2[j1].node.id == #[trigger] t[i2].2[j2].node.id
                ==> i1 == i2 && j1 == j2,
{
    assert forall|i1: int, j1: int, i2: int, j2: int|
        0 <= i1 < t.len() && 0 <= j1 < t[i1].2.len() && 0 <= i2 < t.len() && 0 <= j2
            < t[i2].2.len() && #[trigger] t[i1].2[j1].node.id == #[trigger] t[i2].2[j2].node.id
            implies i1 == i2 && j1 == j2 by {
        let p = entry_prefix(own, t[i1].2[j1]);
        assert(covers(t[i1], p));
        assert(covers(t[i2], entry_prefix(own, t[i2].2[j2])));
        lemma_partition_bounds(t, i1);
        lemma_bucket_for(t, p);
        assert(t[i2].2[j1].node.id == t[i2].2[j2].node.id ==> j1 == j2);
    }
}

/// Whether two ids are equal.
pub fn ids_equal(a: &NodeId, b: &NodeId) -> (r: bool)
    ensures
        r == (*a == *b),
{
    let mut i: usize = 0;
    while i < 20
        invariant
            0 <= i <= 20,
            forall|j: int| 0 <= j < i ==> a[j] == b[j],
        decreases 20 - i,
    {
        if a[i] != b[i] {
            return false;
        }
        i = i + 1;
    }
    proof {
        assert(a@ =~= b@);
        vstd::array::axiom_array_ext_equal(*a, *b);
    }
    true
}

impl RoutingTable {
    /// A table holding one empty bucket that covers every prefix length.
    pub fn new(reference_id: NodeId) -> (r: RoutingTable)
        ensures
            r.reference_id == reference_id,
            r@ == seq![(0u32, 160u32, Seq::<RoutingEntry>::empty())],
            r.wf(),
    {
        let mut buckets: Vec<Bucket> = Vec::new();
        buckets.push(Bucket::new(0..ID_BITS));
        let r = RoutingTable { buckets, reference_id };
        assert(r@ =~= seq![(0u32, 160u32, Seq::<RoutingEntry>::empty())]);
        r
    }

    /// A table for a random own id, holding one empty bucket.
    pub fn new_random() -> (r: RoutingTable)
        ensures
            r@ == seq![(0u32, 160u32, Seq::<RoutingEntry>::empty())],
            r.wf(),
    {
        RoutingTable::new(random_node_id())
    }

    /// Buckets partition the prefix lengths and each holds at most `BUCKET_SIZE` entries.
    pub open spec fn structure_ok(&self) -> bool {
        &&& partitioned(self@)
        &&& bounded(self@)
    }

    /// The table invariant.
    pub open spec fn wf(&self) -> bool {
        table_wf(self@, self.reference_id@)
    }

    /// The contact with id `node_id`, searched for in the bucket that would hold it.
    pub fn find_node(&self, node_id: &NodeId) -> (r: Option<&NodeContactInfo>)
        requires
            self.structure_ok(),
        ensures
            match r {
                Some(c) => c.id == *node_id && exists|i: int, j: int|
                    0 <= i < self@.len() && 0 <= j < self@[i].2.len() && self@[i].2[j].node == *c,
                None => self.wf() ==> forall|i: int, j: int|
                    0 <= i < self@.len() && 0 <= j < self@[i].2.len() ==> self@[i].2[j].node.id
                        != *node_id,
            },
    {
        let ghost t = self@;
        let ghost own = self.reference_id@;
        let p = common_prefix_length(&self.reference_id, node_id);
        if p >= ID_BITS {
            proof {
                if self.wf() {
                    assert forall|i: int, j: int|
                        0 <= i < t.len() && 0 <= j < t[i].2.len() implies t[i].2[j].node.id
                        != *node_id by {
                        lemma_partition_bounds(t, i);
                        assert(covers(t[i], entry_prefix(own, t[i].2[j])));
                    }
                }
            }
            return None;
        }
        let bi = self.find_bucket(p);
        let bucket = &self.buckets[bi];
        assert(t[bi as int] == bucket@);
        let mut j: usize = 0;
        while j < bucket.entries.len()
            invariant
                t == self@,
                t[bi as int] == bucket@,
                0 <= bi < t.len(),
                0 <= j <= bucket@.2.len(),
                forall|k: int| 0 <= k < j ==> bucket@.2[k].node.id != *node_id,
            decreases bucket@.2.len() - j,
        {
            let e = bucket.entries.get(j);
            if ids_equal(&e.node.id, node_id) {
                assert(t[bi as int].2[j as int].node == e.node);
                return Some(&e.node);
            }
            j = j + 1;
        }
        proof {
            if self.wf() {
                lemma_bucket_for(t, p as int);
                assert forall|i: int, k: int|
                    0 <= i < t.len() && 0 <= k < t[i].2.len() implies t[i].2[k].node.id
                    != *node_id by {
                    assert(covers(t[i], entry_prefix(own, t[i].2[k])));
                }
            }
        }
        None
    }

    /// Up to `BUCKET_SIZE` contacts near `node_id`: those of the bucket that would hold it,
    /// then of the buckets next to it by index, lower first, moving outward.
    pub fn find_closest(&self, node_id: &NodeId) -> (r: FixedVec<NodeContactInfo>)
        requires
            self.structure_ok(),
        ensures
            r@ == closest(
                self@,
                bucket_for(self@, min(prefix_len(self.reference_id@, node_id@) as int, 159)),
            ),
            r@.len() == min(BUCKET_SIZE as int, total_entries(self@) as int),
    {
        let ghost t = self@;
        let p = common_prefix_length(&self.reference_id, node_id);
        let p = if p >= ID_BITS {
            ID_BITS - 1
        } else {
            p
        };
        let c = self.find_bucket(p);
        let n = self.buckets.len();
        proof {
            lemma_partition_len(t);
        }
        let mut result: FixedVec<NodeContactInfo> = FixedVec::new();
        assert(t[c as int] == self.buckets@[c as int]@);
        push_until_full(&mut result, &self.buckets[c]);
        assert(Seq::<NodeContactInfo>::empty() + nodes_of(t[c as int]) =~= gathered(t, c as int, 0));
        let mut offset: usize = 1;
        while result.is_not_full() && (offset <= c || c + offset < n)
            invariant
                t == self@,
                n == t.len(),
                n <= 160,
                0 <= c < n,
                1 <= offset <= n,
                result@ == take_k(gathered(t, c as int, (offset - 1) as nat)),
            decreases n - offset,
        {
            if offset <= c {
                assert(t[c - offset] == self.buckets@[c - offset]@);
                push_until_full(&mut result, &self.buckets[c - offset]);
            }
            let ghost mid = result@;
            if c + offset < n {
                assert(t[c + offset] == self.buckets@[c + offset as int]@);
                push_until_full(&mut result, &self.buckets[c + offset]);
            }
            proof {
                let g = gathered(t, c as int, (offset - 1) as nat);
                let low = if c - offset >= 0 { nodes_of(t[c - offset]) } else { seq![] };
                let high = if c + offset < n { nodes_of(t[c + offset]) } else { seq![] };
                lemma_take_k_absorb(g, low);
                assert(mid == take_k(g + low)) by {
                    if c - offset < 0 {
                        assert(g + low =~= g);
                    }
                }
                lemma_take_k_absorb(g + low, high);
                assert(result@ == take_k(g + low + high)) by {
                    if c + offset >= n {
                        assert(g + low + high =~= g + low);
                    }
                }
                assert(g + low + high =~= gathered(t, c as int, offset as nat));
            }
            offset = offset + 1;
        }
        proof {
            let k = (offset - 1) as nat;
            let g = gathered(t, c as int, k);
            if result@.len() == BUCKET_SIZE {
                lemma_gathered_prefix(t, c as int, k, n as nat);
                let all = gathered(t, c as int, n as nat);
                assert(g.len() >= BUCKET_SIZE);
                lemma_take_k_full(g, all.subrange(g.len() as int, all.len() as int));
                assert(g + all.subrange(g.len() as int, all.len() as int) =~= all);
            } else {
                lemma_gathered_stable(t, c as int, k, n as nat);
            }
            lemma_gathered_len(t, c as int, n as nat);
            assert(max(0, c - n) == 0);
            assert(min(n as int, c + n + 1) == n);
        }
        result
    }

    /// Replaces entry `j` of bucket `bi`.
    fn set_entry(&mut self, bi: usize, j: usize, e: RoutingEntry)
        requires
            bi < old(self)@.len(),
            j < old(self)@[bi as int].2.len(),
        ensures
            final(self).reference_id == old(self).reference_id,
            final(self)@ == old(self)@.update(
                bi as int,
                (old(self)@[bi as int].0, old(self)@[bi as int].1, old(self)@[bi as int].2.update(j as int, e)),
            ),
    {
        let ghost t = self@;
        assert(self.buckets@[bi as int]@ == t[bi as int]);
        self.buckets[bi].entries.set(j, e);
        assert(self@ =~= t.update(bi as int, (t[bi as int].0, t[bi as int].1, t[bi as int].2.update(j as int, e))));
    }

    /// Appends an entry to bucket `bi`.
    fn push_entry(&mut self, bi: usize, e: RoutingEntry)
        requires
            bi < old(self)@.len(),
            old(self)@[bi as int].2.len() < BUCKET_SIZE,
        ensures
            final(self).reference_id == old(self).reference_id,
            final(self)@ == old(self)@.update(
                bi as int,
                (old(self)@[bi as int].0, old(self)@[bi as int].1, old(self)@[bi as int].2.push(e)),
            ),
    {
        let ghost t = self@;
        assert(self.buckets@[bi as int]@ == t[bi as int]);
        self.buckets[bi].entries.push(e);
        assert(self@ =~= t.update(bi as int, (t[bi as int].0, t[bi as int].1, t[bi as int].2.push(e))));
    }

    /// Records that `node` was seen at time `now`, as `update_model` states.
    pub fn update(&mut self, node: NodeContactInfo, seen_in: SeenIn, now: u64)
        requires
            old(self).wf(),
        ensures
            final(self).reference_id == old(self).reference_id,
            final(self)@ == update_model(old(self)@, old(self).reference_id@, node, seen_in, now),
            final(self).wf(),
    {
        let ghost t = self@;
        let ghost own = self.reference_id@;
        let p = common_prefix_length(&self.reference_id, &node.id);
        if p >= ID_BITS {
            return;
        }
        let bi = self.find_bucket(p);
        proof {
            lemma_bucket_for(t, p as int);
            lemma_partition_len(t);
        }
        let ghost es = t[bi as int].2;
        assert(self.buckets@[bi as int]@ == t[bi as int]);
        let count = self.buckets[bi].entries.len();
        assert(distinct_ids(es)) by {
            assert forall|j: int, k: int|
                0 <= j < es.len() && 0 <= k < es.len() && #[trigger] es[j].node.id
                    == #[trigger] es[k].node.id implies j == k by {
                assert(t[bi as int].2[j].node.id == t[bi as int].2[k].node.id);
            }
        }
        assert forall|j: int| 0 <= j < es.len() implies covers(t[bi as int], #[trigger] entry_prefix(own, es[j])) by {
            assert(covers(t[bi as int], entry_prefix(own, t[bi as int].2[j])));
        }
        let mut j: usize = 0;
        while j < count
            invariant
                self@ == t,
                t == old(self)@,
                self.reference_id == old(self).reference_id,
                self.reference_id@ == own,
                table_wf(t, own),
                p == prefix_len(own, node.id@),
                p < 160,
                bi == bucket_for(t, p as int),
                covers(t[bi as int], p as int),
                distinct_ids(es),
                forall|k: int| 0 <= k < es.len() ==> covers(t[bi as int], #[trigger] entry_prefix(own, es[k])),
                0 <= bi < t.len(),
                self.buckets@.len() == t.len(),
                es == t[bi as int].2,
                self.buckets@[bi as int]@ == t[bi as int],
                count == es.len(),
                0 <= j <= count,
                forall|k: int| 0 <= k < j ==> es[k].node.id != node.id,
            decreases count - j,
        {
            let e = *self.buckets[bi].entries.get(j);
            if ids_equal(&e.node.id, &node.id) {
                let mut refreshed = e;
                refreshed.node = node;
                refreshed.update(seen_in, now);
                self.set_entry(bi, j, refreshed);
                proof {
                    lemma_refresh(t, own, node, seen_in, now, bi as int, j as int);
                }
                return;
            }
            j = j + 1;
        }
        let mut new_entry = RoutingEntry::new(node);
        new_entry.update(seen_in, now);
        assert(!holds_id(es, node.id));
        assert(entry_prefix(own, new_entry) == p);
        if self.buckets[bi].entries.is_not_full() {
            self.push_entry(bi, new_entry);
            proof {
                let es2 = es.push(new_entry);
                assert forall|k: int| 0 <= k < es2.len() implies covers(t[bi as int], #[trigger] entry_prefix(own, es2[k])) by {
                    if k < es.len() {
                        assert(covers(t[bi as int], entry_prefix(own, es[k])));
                    }
                }
                assert forall|a: int, b: int|
                    0 <= a < es2.len() && 0 <= b < es2.len() && #[trigger] es2[a].node.id
                        == #[trigger] es2[b].node.id implies a == b by {
                    if a < es.len() && b < es.len() {
                        assert(es[a].node.id == es[b].node.id);
                    }
                }
                lemma_replace_entries_wf(t, own, bi as int, es2);
            }
            return;
        }
        self.replace_bad_or_split(bi, p, new_entry, now);
        proof {
            assert(new_entry == fresh_entry(node, seen_in, now));
        }
    }

    /// In full bucket `bi`, which holds `new_entry`'s prefix length `p` and not its id,
    /// replaces the first bad entry by `new_entry`, or else splits the bucket if it is
    /// the last one and spans more than one prefix length.
    fn replace_bad_or_split(&mut self, bi: usize, p: u32, new_entry: RoutingEntry, now: u64)
        requires
            old(self).wf(),
            bi == bucket_for(old(self)@, p as int),
            p < 160,
            p == entry_prefix(old(self).reference_id@, new_entry),
            old(self)@[bi as int].2.len() == BUCKET_SIZE,
            !holds_id(old(self)@[bi as int].2, new_entry.node.id),
        ensures
            final(self).reference_id == old(self).reference_id,
            final(self).wf(),
            final(self)@ == ({
                let t = old(self)@;
                let es = t[bi as int].2;
                if has_bad(es, now) {
                    t.update(bi as int, (t[bi as int].0, t[bi as int].1, es.update(first_bad(es, now), new_entry)))
                } else if t[bi as int].1 == 160 && t[bi as int].1 - t[bi as int].0 > 1 {
                    split_model(t, old(self).reference_id@, new_entry)
                } else {
                    t
                }
            }),
    {
        let ghost t = self@;
        let ghost own = self.reference_id@;
        proof {
            lemma_bucket_for(t, p as int);
            lemma_partition_len(t);
        }
        let ghost es = t[bi as int].2;
        assert(self.buckets@[bi as int]@ == t[bi as int]);
        let count = self.buckets[bi].entries.len();
        let mut j: usize = 0;
        while j < count
            invariant
                self@ == t,
                t == old(self)@,
                self.reference_id == old(self).reference_id,
                self.reference_id@ == own,
                table_wf(t, own),
                covers(t[bi as int], p as int),
                p == entry_prefix(own, new_entry),
                !holds_id(es, new_entry.node.id),
                0 <= bi < t.len(),
                self.buckets@.len() == t.len(),
                es == t[bi as int].2,
                self.buckets@[bi as int]@ == t[bi as int],
                count == es.len(),
                0 <= j <= count,
                forall|k: int| 0 <= k < j ==> rating_at(#[trigger] es[k], now) != NodeRating::Bad,
            decreases count - j,
        {
            let e = *self.buckets[bi].entries.get(j);
            if e.rating(now) == NodeRating::Bad {
                self.set_entry(bi, j, new_entry);
                proof {
                    let c = first_bad(es, now);
                    assert(rating_at(es[j as int], now) == NodeRating::Bad);
                    assert(has_bad(es, now));
                    if c < j {
                        assert(rating_at(es[c], now) != NodeRating::Bad);
                    } else if c > j {
                        assert(rating_at(es[j as int], now) != NodeRating::Bad);
                    }
                    let es2 = es.update(j as int, new_entry);
                    assert forall|k: int| 0 <= k < es2.len() implies covers(t[bi as int], #[trigger] entry_prefix(own, es2[k])) by {
                        if k != j {
                            assert(covers(t[bi as int], entry_prefix(own, t[bi as int].2[k])));
                        }
                    }
                    assert(distinct_ids(es)) by {
                        assert forall|a: int, b: int|
                            0 <= a < es.len() && 0 <= b < es.len() && #[trigger] es[a].node.id
                                == #[trigger] es[b].node.id implies a == b by {
                            assert(t[bi as int].2[a].node.id == t[bi as int].2[b].node.id);
                        }
                    }
                    assert forall|a: int, b: int|
                        0 <= a < es2.len() && 0 <= b < es2.len() && #[trigger] es2[a].node.id
                            == #[trigger] es2[b].node.id implies a == b by {
                        if a != j && b != j {
                            assert(es[a].node.id == es[b].node.id);
                        } else if a != j {
                            assert(es[a].node.id == new_entry.node.id);
                        } else if b != j {
                            assert(es[b].node.id == new_entry.node.id);
                        }
                    }
                    lemma_replace_entries_wf(t, own, bi as int, es2);
                }
                return;
            }
            j = j + 1;
        }
        assert(!has_bad(es, now));
        let lo = self.buckets[bi].bounds.start;
        let hi = self.buckets[bi].bounds.end;
        if hi == ID_BITS && hi - lo > 1 {
            proof {
                if bi < t.len() - 1 {
                    lemma_partition_ordered(t, bi as int, t.len() - 1);
                    assert(t.last() == t[t.len() - 1]);
                }
                assert(t.last() == t[bi as int]);
            }
            self.split_last(p, new_entry);
        }
    }

    /// Splits the last bucket, which is full, and offers `new_entry` to the half that
    /// would hold it.
    fn split_last(&mut self, p: u32, new_entry: RoutingEntry)
        requires
            old(self).wf(),
            old(self)@.last().1 == 160,
            old(self)@.last().1 - old(self)@.last().0 > 1,
            old(self)@.last().2.len() == BUCKET_SIZE,
            p == entry_prefix(old(self).reference_id@, new_entry),
            covers(old(self)@.last(), p as int),
            !holds_id(old(self)@.last().2, new_entry.node.id),
        ensures
            final(self).reference_id == old(self).reference_id,
            final(self)@ == split_model(old(self)@, old(self).reference_id@, new_entry),
            final(self).wf(),
    {
        let ghost t = self@;
        let ghost own = self.reference_id@;
        let ghost n = t.len();
        let ghost es = t.last().2;
        let bucket = self.buckets.pop().unwrap();
        assert(bucket@ == t.last());
        assert(self@ =~= t.drop_last());
        let lo = bucket.bounds.start;
        let hi = bucket.bounds.end;
        let mut lower: FixedVec<RoutingEntry> = FixedVec::new();
        let mut upper: FixedVec<RoutingEntry> = FixedVec::new();
        let count = bucket.entries.len();
        let mut k: usize = 0;
        assert(es.subrange(0, 0) =~= Seq::<RoutingEntry>::empty());
        while k < count
            invariant
                self@ == t.drop_last(),
                self.reference_id@ == own,
                bucket@ == t.last(),
                es == t.last().2,
                lo == t.last().0,
                count == es.len(),
                count == BUCKET_SIZE,
                0 <= k <= count,
                lower@.len() + upper@.len() == k,
                lower@ == split_part(es.subrange(0, k as int), own, lo as int, true),
                upper@ == split_part(es.subrange(0, k as int), own, lo as int, false),
            decreases count - k,
        {
            let e = *bucket.entries.get(k);
            let q = common_prefix_length(&self.reference_id, &e.node.id);
            assert(es.subrange(0, k + 1).drop_last() =~= es.subrange(0, k as int));
            if q == lo {
                lower.push(e);
            } else {
                upper.push(e);
            }
            k = k + 1;
        }
        assert(es.subrange(0, count as int) =~= es);
        if p == lo {
            if lower.is_not_full() {
                lower.push(new_entry);
            }
        } else {
            if upper.is_not_full() {
                upper.push(new_entry);
            }
        }
        self.buckets.push(Bucket { entries: lower, bounds: lo..lo + 1 });
        self.buckets.push(Bucket { entries: upper, bounds: lo + 1..hi });
        proof {
            let r = split_model(t, own, new_entry);
            assert(self@ =~= r);
            lemma_split_wf(t, own, new_entry);
        }
    }

    /// Index of the bucket whose range holds `p`.
    fn find_bucket(&self, p: u32) -> (r: usize)
        requires
            partitioned(self@),
            p < 160,
        ensures
            r == bucket_for(self@, p as int),
            r < self.buckets@.len(),
    {
        proof {
            lemma_bucket_for(self@, p as int);
        }
        let ghost t = self@;
        let n = self.buckets.len();
        let mut i: usize = 0;
        while p >= self.buckets[i].bounds.end
            invariant
                t == self@,
                n == t.len(),
                partitioned(t),
                0 <= i < t.len(),
                t[i as int].0 <= p < 160,
            decreases t.len() - i,
        {
            assert(t[i as int] == self.buckets@[i as int]@);
            assert(t.last() == t[t.len() - 1]);
            assert(i < t.len() - 1);
            assert(t[i as int].1 == t[i + 1].0);
            i = i + 1;
        }
        proof {
            lemma_bucket_for(t, p as int);
        }
        i
    }
}

} // verus!
