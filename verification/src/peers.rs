//! Kademlia-style routing table: 256 buckets of at most `K_BUCKET_SIZE` peers,
//! each peer filed under the number of leading bits its id shares with ours.

use vstd::prelude::*;
use vstd::std_specs::bits::u8_leading_zeros;

verus! {

broadcast use vstd::array::group_array_axioms;

/// Largest number of peers a bucket holds.
pub const K_BUCKET_SIZE: usize = 20;

/// Number of buckets: one per bit of a node id.
pub const BUCKET_COUNT: usize = 256;

/// A node id: 256 bits.
pub type NodeId = [u8; 32];

/// A peer's network address, as plain values.
#[derive(Clone, Copy, Debug, PartialEq, Eq)]
pub enum PeerAddr {
    V4([u8; 4], u16),
    V6([u8; 16], u16),
}

/// A known peer: its id and the address it was last seen at.
#[derive(Clone, Copy, Debug)]
pub struct PeerInfo {
    pub id: NodeId,
    pub addr: PeerAddr,
}

/// Number of leading bits that `a` and `b` have in common, byte by byte.
pub open spec fn shared_prefix_bits(a: Seq<u8>, b: Seq<u8>) -> nat
    decreases a.len(),
{
    if a.len() == 0 || b.len() == 0 {
        0
    } else if a[0] ^ b[0] == 0 {
        8 + shared_prefix_bits(a.drop_first(), b.drop_first())
    } else {
        u8_leading_zeros(a[0] ^ b[0]) as nat
    }
}

/// The bucket that `other` belongs in, seen from `local`: the shared prefix
/// length, with the full match folded into the last bucket.
pub open spec fn bucket_index_of(local: Seq<u8>, other: Seq<u8>) -> nat {
    let d = shared_prefix_bits(local, other);
    if d >= 255 {
        255
    } else {
        d
    }
}

pub struct RoutingTable {
    pub local_id: NodeId,
    buckets: Vec<Vec<PeerInfo>>,
}

/// What a routing table holds: our own id and the buckets, in order.
#[verifier::ext_equal]
pub struct TableView {
    pub local: Seq<u8>,
    pub buckets: Seq<Seq<PeerInfo>>,
}

impl TableView {
    pub open spec fn wf(self) -> bool {
        table_wf(self.local, self.buckets)
    }
}

impl View for RoutingTable {
    type V = TableView;

    closed spec fn view(&self) -> TableView {
        TableView {
            local: self.local_id@,
            buckets: self.buckets@.map_values(|b: Vec<PeerInfo>| b@),
        }
    }
}

/// What a well-formed table looks like, over its id and its buckets: one
/// bucket per bit, none over capacity, every peer in the bucket its id maps to,
/// our own id nowhere, and no id twice in a bucket.
pub open spec fn table_wf(local: Seq<u8>, v: Seq<Seq<PeerInfo>>) -> bool {
    &&& local.len() == 32
    &&& v.len() == BUCKET_COUNT
    &&& forall|i: int| 0 <= i < v.len() ==> #[trigger] v[i].len() <= K_BUCKET_SIZE
    &&& forall|i: int, j: int|
        0 <= i < v.len() && 0 <= j < v[i].len() ==> {
            &&& bucket_index_of(local, #[trigger] v[i][j].id@) == i
            &&& v[i][j].id@ != local
        }
    &&& forall|i: int, j: int, k: int|
        0 <= i < v.len() && 0 <= j < v[i].len() && 0 <= k < v[i].len() && j != k
            ==> #[trigger] v[i][j].id@ != #[trigger] v[i][k].id@
}

/// A bucket after a peer with `id` was seen at `addr`: a known peer moves to
/// the tail with the new address; a new one is appended while there is room.
pub open spec fn bucket_after_update(b: Seq<PeerInfo>, id: NodeId, addr: PeerAddr) -> Seq<
    PeerInfo,
> {
    let fresh = PeerInfo { id, addr };
    if exists|j: int| 0 <= j < b.len() && #[trigger] b[j].id@ == id@ {
        let j = choose|j: int| 0 <= j < b.len() && #[trigger] b[j].id@ == id@;
        b.remove(j).push(fresh)
    } else if b.len() < K_BUCKET_SIZE {
        b.push(fresh)
    } else {
        b
    }
}

/// The buckets after a peer with `id` was seen at `addr`; our own id changes nothing.
pub open spec fn table_after_update(
    local: Seq<u8>,
    v: Seq<Seq<PeerInfo>>,
    id: NodeId,
    addr: PeerAddr,
) -> Seq<Seq<PeerInfo>> {
    if id@ == local {
        v
    } else {
        let i = bucket_index_of(local, id@) as int;
        v.update(i, bucket_after_update(v[i], id, addr))
    }
}

/// Recording a peer keeps a table well formed: within capacity, every peer
/// in its own bucket, our id absent, no id twice.
pub proof fn law_update_keeps_wf(local: Seq<u8>, v: Seq<Seq<PeerInfo>>, id: NodeId, addr: PeerAddr)
    requires
        table_wf(local, v),
    ensures
        table_wf(local, table_after_update(local, v, id, addr)),
{
    if id@ != local {
        let i = bucket_index_of(local, id@) as int;
        let b = v[i];
        let nb = bucket_after_update(b, id, addr);
        let w = table_after_update(local, v, id, addr);
        assert(w[i] == nb);
        if exists|j: int| 0 <= j < b.len() && #[trigger] b[j].id@ == id@ {
            let j = choose|j: int| 0 <= j < b.len() && #[trigger] b[j].id@ == id@;
            assert(nb == b.remove(j).push(PeerInfo { id, addr }));
            assert forall|k: int| 0 <= k < nb.len() implies #[trigger] nb[k].id@ == (if k
                < j {
                b[k].id@
            } else if k < b.len() - 1 {
                b[k + 1].id@
            } else {
                id@
            }) by {}
        } else if b.len() < K_BUCKET_SIZE {
            assert(nb == b.push(PeerInfo { id, addr }));
        }
        assert forall|p: int, q: int, r: int|
            0 <= p < w.len() && 0 <= q < w[p].len() && 0 <= r < w[p].len() && q != r
            implies #[trigger] w[p][q].id@ != #[trigger] w[p][r].id@ by {
            if p != i {
                assert(w[p] == v[p]);
            }
        }
    }
}

/// Total number of peers in the buckets.
pub open spec fn total_peers(v: Seq<Seq<PeerInfo>>) -> nat
    decreases v.len(),
{
    if v.len() == 0 {
        0
    } else {
        total_peers(v.drop_last()) + v.last().len()
    }
}

/// Whether two ids are the same.
pub fn same_id(a: &NodeId, b: &NodeId) -> (r: bool)
    ensures
        r == (a@ == b@),
{
    let mut i: usize = 0;
    while i < 32
        invariant
            i <= 32,
            a@.len() == 32,
            b@.len() == 32,
            forall|j: int| 0 <= j < i ==> a@[j] == b@[j],
        decreases 32 - i,
    {
        if a[i] != b[i] {
            return false;
        }
        i += 1;
    }
    assert(a@ =~= b@);
    true
}

/// Ids in a bucket are pairwise distinct.
pub open spec fn unique_ids(b: Seq<PeerInfo>) -> bool {
    forall|j: int, k: int|
        0 <= j < b.len() && 0 <= k < b.len() && j != k ==> #[trigger] b[j].id@ != #[trigger] b[k].id@
}

fn update_bucket(bucket: &mut Vec<PeerInfo>, id: NodeId, addr: PeerAddr)
    requires
        unique_ids(old(bucket)@),
    ensures
        final(bucket)@ == bucket_after_update(old(bucket)@, id, addr),
{
    let ghost b0 = bucket@;
    let mut pos: usize = 0;
    while pos < bucket.len()
        invariant
            bucket@ == b0,
            b0 == old(bucket)@,
            unique_ids(b0),
            pos <= b0.len(),
            forall|j: int| 0 <= j < pos ==> (#[trigger] b0[j]).id@ != id@,
        decreases b0.len() - pos,
    {
        if same_id(&bucket[pos].id, &id) {
            let mut peer = bucket.remove(pos);
            peer.addr = addr;
            proof {
                assert(b0[pos as int].id@ == id@);
                let j = choose|j: int| 0 <= j < b0.len() && #[trigger] b0[j].id@ == id@;
                assert(j == pos);
                assert(peer.id =~= id);
                assert(peer == PeerInfo { id, addr });
            }
            bucket.push(peer);
            return;
        }
        pos += 1;
    }
    if bucket.len() < K_BUCKET_SIZE {
        bucket.push(PeerInfo { id, addr });
    }
}

/// The peer count is the length of the list of known peers.
pub proof fn law_count_is_number_of_known_peers(v: Seq<Seq<PeerInfo>>)
    ensures
        total_peers(v) == v.flatten().len(),
    decreases v.len(),
{
    v.lemma_flatten_and_flatten_alt_are_equivalent();
    if v.len() > 0 {
        law_count_is_number_of_known_peers(v.drop_last());
        v.drop_last().lemma_flatten_and_flatten_alt_are_equivalent();
    }
}

proof fn lemma_flatten_alt_member(v: Seq<Seq<PeerInfo>>, k: int)
    requires
        0 <= k < v.flatten_alt().len(),
    ensures
        exists|i: int, j: int| 0 <= i < v.len() && 0 <= j < v[i].len() && #[trigger] v[i][j] == v.flatten_alt()[k],
    decreases v.len(),
{
    if v.len() > 0 {
        let a = v.drop_last().flatten_alt();
        if k < a.len() {
            lemma_flatten_alt_member(v.drop_last(), k);
            let (i, j) = choose|i: int, j: int| 0 <= i < v.drop_last().len() && 0 <= j < v.drop_last()[i].len() && #[trigger] v.drop_last()[i][j] == a[k];
            assert(v[i][j] == v.flatten_alt()[k]);
        } else {
            let j = k - a.len();
            assert(v[v.len() - 1][j] == v.flatten_alt()[k]);
        }
    }
}

proof fn lemma_prefix_ids_distinct(local: Seq<u8>, v: Seq<Seq<PeerInfo>>, n: int)
    requires
        table_wf(local, v),
        0 <= n <= v.len(),
    ensures
        forall|a: int, b: int|
            0 <= a < v.take(n).flatten_alt().len() && 0 <= b < v.take(n).flatten_alt().len() && a != b
                ==> #[trigger] v.take(n).flatten_alt()[a].id@ != #[trigger] v.take(n).flatten_alt()[b].id@,
    decreases n,
{
    if n > 0 {
        let w = v.take(n);
        assert(w.drop_last() =~= v.take(n - 1));
        lemma_prefix_ids_distinct(local, v, n - 1);
        let pre = v.take(n - 1).flatten_alt();
        let f = w.flatten_alt();
        let last = v[n - 1];
        assert(f == pre + last);
        assert forall|a: int, b: int| 0 <= a < f.len() && 0 <= b < f.len() && a != b implies #[trigger] f[a].id@ != #[trigger] f[b].id@ by {
            if a < pre.len() && b < pre.len() {
                assert(f[a] == pre[a] && f[b] == pre[b]);
            } else if a >= pre.len() && b >= pre.len() {
                assert(f[a] == last[a - pre.len()] && f[b] == last[b - pre.len()]);
            } else {
                let (x, y) = if a < pre.len() { (a, b) } else { (b, a) };
                lemma_flatten_alt_member(v.take(n - 1), x);
                let (i, j) = choose|i: int, j: int| 0 <= i < v.take(n - 1).len() && 0 <= j < v.take(n - 1)[i].len() && #[trigger] v.take(n - 1)[i][j] == pre[x];
                assert(v[i][j] == f[x]);
                assert(bucket_index_of(local, f[x].id@) == i);
                assert(f[y] == last[y - pre.len()]);
                assert(bucket_index_of(local, f[y].id@) == n - 1);
            }
        }
    }
}

/// A well-formed table lists every peer once: the known peers have
/// pairwise distinct ids.
pub proof fn law_known_peers_distinct(local: Seq<u8>, v: Seq<Seq<PeerInfo>>)
    requires
        table_wf(local, v),
    ensures
        forall|a: int, b: int|
            0 <= a < v.flatten().len() && 0 <= b < v.flatten().len() && a != b
                ==> #[trigger] v.flatten()[a].id@ != #[trigger] v.flatten()[b].id@,
{
    lemma_prefix_ids_distinct(local, v, v.len() as int);
    assert(v.take(v.len() as int) =~= v);
    v.lemma_flatten_and_flatten_alt_are_equivalent();
}

/// Every prefix of a well-formed table's buckets holds at most
/// `K_BUCKET_SIZE` peers per bucket.
proof fn lemma_total_peers_bound(v: Seq<Seq<PeerInfo>>, n: int)
    requires
        0 <= n <= v.len(),
        forall|i: int| 0 <= i < v.len() ==> #[trigger] v[i].len() <= K_BUCKET_SIZE,
    ensures
        total_peers(v.take(n)) <= n * K_BUCKET_SIZE,
    decreases n,
{
    if n > 0 {
        assert(v.take(n).drop_last() =~= v.take(n - 1));
        lemma_total_peers_bound(v, n - 1);
    }
}

/// A well-formed table never knows more than `BUCKET_COUNT * K_BUCKET_SIZE` peers.
pub proof fn law_table_capacity(local: Seq<u8>, v: Seq<Seq<PeerInfo>>)
    requires
        table_wf(local, v),
    ensures
        total_peers(v) <= BUCKET_COUNT * K_BUCKET_SIZE,
{
    lemma_total_peers_bound(v, v.len() as int);
    assert(v.take(v.len() as int) =~= v);
}

/// The bucket of `b` seen from `a` is the bucket of `a` seen from `b`.
pub proof fn law_bucket_index_symmetric(a: Seq<u8>, b: Seq<u8>)
    ensures
        shared_prefix_bits(a, b) == shared_prefix_bits(b, a),
        bucket_index_of(a, b) == bucket_index_of(b, a),
    decreases a.len(),
{
    if a.len() > 0 && b.len() > 0 {
        let x = a[0];
        let y = b[0];
        assert(x ^ y == y ^ x) by (bit_vector);
        law_bucket_index_symmetric(a.drop_first(), b.drop_first());
    }
}

/// An id is as far as possible from itself: it maps to the last bucket.
pub proof fn law_own_bucket_is_last(a: Seq<u8>)
    requires
        a.len() == 32,
    ensures
        shared_prefix_bits(a, a) == 8 * a.len(),
        bucket_index_of(a, a) == BUCKET_COUNT - 1,
{
    lemma_shared_prefix_self(a);
}

proof fn lemma_shared_prefix_self(a: Seq<u8>)
    ensures
        shared_prefix_bits(a, a) == 8 * a.len(),
    decreases a.len(),
{
    if a.len() > 0 {
        let x = a[0];
        assert(x ^ x == 0) by (bit_vector);
        lemma_shared_prefix_self(a.drop_first());
    }
}

/// Recording a peer: our own id changes nothing; any other id that was known
/// or fits ends up last in its bucket with the new address, the rest of the
/// bucket keeping its order; an unknown id meeting a full bucket changes nothing.
pub proof fn law_update_records_peer(
    local: Seq<u8>,
    v: Seq<Seq<PeerInfo>>,
    id: NodeId,
    addr: PeerAddr,
)
    requires
        table_wf(local, v),
    ensures
        ({
            let w = table_after_update(local, v, id, addr);
            let i = bucket_index_of(local, id@) as int;
            let known = exists|j: int| 0 <= j < v[i].len() && #[trigger] v[i][j].id@ == id@;
            &&& id@ == local ==> w == v
            &&& id@ != local && (known || v[i].len() < K_BUCKET_SIZE) ==> {
                &&& w[i].len() > 0
                &&& w[i].last() == PeerInfo { id, addr }
                &&& w[i].drop_last() == v[i].filter(|p: PeerInfo| p.id@ != id@)
                &&& forall|k: int| 0 <= k < w.len() && k != i ==> w[k] == v[k]
            }
            &&& id@ != local && !known && v[i].len() >= K_BUCKET_SIZE ==> w == v
        }),
{
    let w = table_after_update(local, v, id, addr);
    let i = bucket_index_of(local, id@) as int;
    if id@ != local {
        let b = v[i];
        lemma_bucket_index_bound(local, id@);
        if exists|j: int| 0 <= j < b.len() && #[trigger] b[j].id@ == id@ {
            let j = choose|j: int| 0 <= j < b.len() && #[trigger] b[j].id@ == id@;
            lemma_filter_out_unique(b, id, j);
            assert(w[i].drop_last() =~= b.remove(j));
        } else {
            if b.len() < K_BUCKET_SIZE {
                lemma_filter_out_absent(b, id);
                assert(w[i].drop_last() =~= b);
            } else {
                assert(w =~= v);
            }
        }
    }
}

proof fn lemma_bucket_index_bound(local: Seq<u8>, other: Seq<u8>)
    ensures
        bucket_index_of(local, other) < BUCKET_COUNT,
{
}

proof fn lemma_filter_out_absent(b: Seq<PeerInfo>, id: NodeId)
    requires
        forall|j: int| 0 <= j < b.len() ==> #[trigger] b[j].id@ != id@,
    ensures
        b.filter(|p: PeerInfo| p.id@ != id@) == b,
    decreases b.len(),
{
    reveal_with_fuel(Seq::<_>::filter, 1);
    if b.len() > 0 {
        lemma_filter_out_absent(b.drop_last(), id);
        assert(b.drop_last().push(b.last()) =~= b);
    } else {
        assert(b.filter(|p: PeerInfo| p.id@ != id@) =~= b);
    }
}

proof fn lemma_filter_out_unique(b: Seq<PeerInfo>, id: NodeId, j: int)
    requires
        0 <= j < b.len(),
        b[j].id@ == id@,
        unique_ids(b),
    ensures
        b.filter(|p: PeerInfo| p.id@ != id@) == b.remove(j),
    decreases b.len(),
{
    reveal_with_fuel(Seq::<_>::filter, 1);
    if j == b.len() - 1 {
        assert forall|k: int| 0 <= k < b.drop_last().len() implies #[trigger] b.drop_last()[k].id@
            != id@ by {
            assert(b[k].id@ != b[j].id@);
        }
        lemma_filter_out_absent(b.drop_last(), id);
        assert(b.remove(j) =~= b.drop_last());
    } else {
        let c = b.drop_last();
        assert(unique_ids(c));
        lemma_filter_out_unique(c, id, j);
        assert(b.last().id@ != id@);
        assert(b.remove(j) =~= c.remove(j).push(b.last()));
    }
}

/// Recording the same peer at the same address twice is the same as once.
pub proof fn law_update_idempotent(local: Seq<u8>, v: Seq<Seq<PeerInfo>>, id: NodeId, addr: PeerAddr)
    requires
        table_wf(local, v),
    ensures
        table_after_update(local, table_after_update(local, v, id, addr), id, addr)
            == table_after_update(local, v, id, addr),
{
    let w = table_after_update(local, v, id, addr);
    law_update_keeps_wf(local, v, id, addr);
    if id@ != local {
        let i = bucket_index_of(local, id@) as int;
        lemma_bucket_index_bound(local, id@);
        let b = v[i];
        let nb = w[i];
        let fresh = PeerInfo { id, addr };
        let known = exists|j: int| 0 <= j < b.len() && #[trigger] b[j].id@ == id@;
        if known || b.len() < K_BUCKET_SIZE {
            law_update_records_peer(local, v, id, addr);
            let last = nb.len() - 1;
            assert(nb[last].id@ == id@);
            let j = choose|j: int| 0 <= j < nb.len() && #[trigger] nb[j].id@ == id@;
            assert(j == last);
            assert(nb.remove(last).push(fresh) =~= nb);
            assert(bucket_after_update(nb, id, addr) == nb);
            assert(w.update(i, nb) =~= w);
        } else {
            assert(w =~= v);
        }
    }
}

impl RoutingTable {
    /// An empty table around `local_id`.
    pub fn new(local_id: NodeId) -> (t: Self)
        ensures
            t@.wf(),
            t@.local == local_id@,
            t@.buckets == Seq::new(BUCKET_COUNT as nat, |i: int| Seq::<PeerInfo>::empty()),
    {
        let mut buckets: Vec<Vec<PeerInfo>> = Vec::with_capacity(BUCKET_COUNT);
        let mut n: usize = 0;
        while n < BUCKET_COUNT
            invariant
                n <= BUCKET_COUNT,
                buckets@.len() == n,
                forall|i: int| 0 <= i < n ==> (#[trigger] buckets@[i])@ == Seq::<PeerInfo>::empty(),
            decreases BUCKET_COUNT - n,
        {
            buckets.push(Vec::new());
            n += 1;
        }
        let t = RoutingTable { local_id, buckets };
        assert(t@.buckets =~= Seq::new(BUCKET_COUNT as nat, |i: int| Seq::<PeerInfo>::empty()));
        t
    }

    /// Records that the peer `id` was seen at `addr`: a known peer moves to the
    /// tail of its bucket with the new address, a new one is added while its
    /// bucket has room, and our own id is ignored.
    pub fn update(&mut self, id: NodeId, addr: PeerAddr)
        requires
            old(self)@.wf(),
        ensures
            final(self)@.wf(),
            final(self)@.local == old(self)@.local,
            final(self)@.buckets == table_after_update(old(self)@.local, old(self)@.buckets, id, addr),
    {
        if same_id(&id, &self.local_id) {
            return;
        }
        let idx = self.distance_bucket_index(&id);
        let ghost v0 = self@.buckets;
        let ghost local = self@.local;
        assert(v0[idx as int] == self.buckets@[idx as int]@);
        update_bucket(&mut self.buckets[idx], id, addr);
        proof {
            let v1 = self@.buckets;
            let nb = bucket_after_update(v0[idx as int], id, addr);
            assert(v1 =~= v0.update(idx as int, nb));
            law_update_keeps_wf(local, v0, id, addr);
        }
    }

    /// Every known peer, bucket by bucket, in the order each bucket holds them.
    pub fn known_peers(&self) -> (r: Vec<PeerInfo>)
        ensures
            r@ == self@.buckets.flatten(),
    {
        let ghost v = self@.buckets;
        let mut out: Vec<PeerInfo> = Vec::new();
        let mut i: usize = 0;
        assert(v.take(0) =~= Seq::<Seq<PeerInfo>>::empty());
        while i < self.buckets.len()
            invariant
                v == self@.buckets,
                v.len() == self.buckets@.len(),
                i <= v.len(),
                out@ == v.take(i as int).flatten_alt(),
            decreases v.len() - i,
        {
            let bucket = &self.buckets[i];
            assert(bucket@ == v[i as int]);
            let ghost before = out@;
            let mut j: usize = 0;
            while j < bucket.len()
                invariant
                    j <= bucket@.len(),
                    out@ == before + bucket@.take(j as int),
                decreases bucket@.len() - j,
            {
                out.push(bucket[j]);
                assert(bucket@.take(j + 1) =~= bucket@.take(j as int).push(bucket@[j as int]));
                assert(out@ =~= before + bucket@.take(j + 1));
                j += 1;
            }
            assert(bucket@.take(j as int) =~= bucket@);
            assert(v.take(i + 1).drop_last() =~= v.take(i as int));
            i += 1;
        }
        assert(v.take(v.len() as int) =~= v);
        proof {
            v.lemma_flatten_and_flatten_alt_are_equivalent();
        }
        out
    }

    /// Number of known peers.
    pub fn count(&self) -> (n: usize)
        requires
            self@.wf(),
        ensures
            n == total_peers(self@.buckets),
    {
        let ghost v = self@.buckets;
        let mut n: usize = 0;
        let mut i: usize = 0;
        while i < self.buckets.len()
            invariant
                v == self@.buckets,
                table_wf(self@.local, v),
                v.len() == self.buckets@.len(),
                i <= v.len(),
                n == total_peers(v.take(i as int)),
                n <= i * K_BUCKET_SIZE,
            decreases v.len() - i,
        {
            assert(self.buckets@[i as int]@ == v[i as int]);
            assert(v.take(i + 1).drop_last() =~= v.take(i as int));
            n = n + self.buckets[i].len();
            i += 1;
        }
        assert(v.take(v.len() as int) =~= v);
        n
    }

    /// The bucket that `other` belongs in.
    pub fn distance_bucket_index(&self, other: &NodeId) -> (idx: usize)
        ensures
            idx == bucket_index_of(self@.local, other@),
            idx < BUCKET_COUNT,
    {
        let mut distinct_bits: usize = 0;
        let mut i: usize = 0;
        assert(self.local_id@.skip(0) =~= self.local_id@);
        assert(other@.skip(0) =~= other@);
        while i < 32
            invariant
                i <= 32,
                distinct_bits == 8 * i,
                self.local_id@.len() == 32,
                other@.len() == 32,
                shared_prefix_bits(self.local_id@, other@) == distinct_bits + shared_prefix_bits(
                    self.local_id@.skip(i as int),
                    other@.skip(i as int),
                ),
            decreases 32 - i,
        {
            let xor = self.local_id[i] ^ other[i];
            let ghost a = self.local_id@.skip(i as int);
            let ghost b = other@.skip(i as int);
            assert(a[0] == self.local_id@[i as int]);
            assert(b[0] == other@[i as int]);
            if xor == 0 {
                assert(a.drop_first() =~= self.local_id@.skip(i + 1));
                assert(b.drop_first() =~= other@.skip(i + 1));
                distinct_bits += 8;
            } else {
                proof {
                    vstd::std_specs::bits::axiom_u8_leading_zeros(xor);
                }
                let d = distinct_bits + xor.leading_zeros() as usize;
                return if d >= 255 {
                    255
                } else {
                    d
                };
            }
            i += 1;
        }
        assert(self.local_id@.skip(32) =~= Seq::<u8>::empty());
        if distinct_bits >= 255 {
            255
        } else {
            distinct_bits
        }
    }
}

} // verus!
