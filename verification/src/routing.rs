//! The routing table: a bounded, freshness-ordered view of the network,
//! bucketed by the common-prefix length of each peer's XOR distance from the
//! owning node.
use vstd::multiset::Multiset;
use vstd::prelude::*;

use crate::key::{
    lemma_lex_le_refl, lemma_lex_le_total, lemma_lex_le_trans, lemma_prefix_range, lex_le,
    prefix_of, xor_bytes, Distance, Key,
};
use crate::{KEY_LEN, K_PARAM, N_BUCKETS};

verus! {

/// The mathematical content of a peer descriptor.
pub ghost struct NodeView {
    pub id: Seq<u8>,
    pub addr: Seq<char>,
    pub net_id: Seq<char>,
}

impl NodeView {
    /// A well-formed peer has an identifier of the right width.
    pub open spec fn wf(&self) -> bool {
        self.id.len() == KEY_LEN
    }
}

/// A peer descriptor: identifier, transport address, and the logical network
/// the peer belongs to.
#[derive(Clone, Debug)]
pub struct NodeInfo {
    pub id: Key,
    pub addr: String,
    pub net_id: String,
}

impl View for NodeInfo {
    type V = NodeView;

    open spec fn view(&self) -> NodeView {
        NodeView { id: self.id@, addr: self.addr@, net_id: self.net_id@ }
    }
}

impl DeepView for NodeInfo {
    type V = NodeView;

    open spec fn deep_view(&self) -> NodeView {
        self@
    }
}

impl NodeInfo {
    /// A well-formed descriptor carries a well-formed identifier.
    pub open spec fn wf(&self) -> bool {
        self@.wf()
    }

    /// Builds a descriptor from its parts.
    pub fn new(id: Key, addr: String, net_id: String) -> (r: NodeInfo)
        ensures
            r@ == (NodeView { id: id@, addr: addr@, net_id: net_id@ }),
    {
        NodeInfo { id, addr, net_id }
    }

    /// An independent copy of the descriptor.
    pub fn dup(&self) -> (r: NodeInfo)
        ensures
            r@ == self@,
    {
        NodeInfo { id: self.id.dup(), addr: self.addr.clone(), net_id: self.net_id.clone() }
    }
}

/// A peer descriptor paired with its XOR distance to some target.
#[derive(Clone, Debug)]
pub struct NodeAndDistance(pub NodeInfo, pub Distance);

impl View for NodeAndDistance {
    type V = (NodeView, Seq<u8>);

    open spec fn view(&self) -> (NodeView, Seq<u8>) {
        (self.0@, self.1@)
    }
}

impl DeepView for NodeAndDistance {
    type V = (NodeView, Seq<u8>);

    open spec fn deep_view(&self) -> (NodeView, Seq<u8>) {
        self@
    }
}

impl NodeAndDistance {
    /// Both parts are well-formed.
    pub open spec fn wf(&self) -> bool {
        self.0.wf() && self.1@.len() == KEY_LEN
    }

    /// An independent copy of the pair.
    pub fn dup(&self) -> (r: NodeAndDistance)
        ensures
            r@ == self@,
    {
        NodeAndDistance(self.0.dup(), self.1.dup())
    }
}

/// The bucket that holds a peer at the given XOR distance from the table's
/// owner: the common-prefix length of the two identifiers.
pub open spec fn bucket_index_of(self_id: Seq<u8>, peer_id: Seq<u8>) -> int {
    prefix_of(xor_bytes(self_id, peer_id))
}

/// Index of the first entry of `b` with the given identifier, or `-1`.
pub open spec fn index_of_id(b: Seq<NodeView>, id: Seq<u8>) -> int
    decreases b.len(),
{
    if b.len() == 0 {
        -1
    } else if b[0].id == id {
        0
    } else if index_of_id(b.drop_first(), id) == -1 {
        -1
    } else {
        1 + index_of_id(b.drop_first(), id)
    }
}

/// What updating one bucket with a freshly seen peer does: an entry with the
/// same identifier moves to the tail; otherwise the peer is appended if there
/// is room; a full bucket is left unchanged.
pub open spec fn bucket_update(b: Seq<NodeView>, peer: NodeView) -> Seq<NodeView> {
    let j = index_of_id(b, peer.id);
    if j >= 0 {
        b.remove(j).push(b[j])
    } else if b.len() < K_PARAM {
        b.push(peer)
    } else {
        b
    }
}

/// What removing an identifier from one bucket does.
pub open spec fn bucket_remove(b: Seq<NodeView>, id: Seq<u8>) -> Seq<NodeView> {
    let j = index_of_id(b, id);
    if j >= 0 {
        b.remove(j)
    } else {
        b
    }
}

/// The table of a node that has seen nobody yet.
pub open spec fn empty_model() -> Seq<Seq<NodeView>> {
    Seq::new(N_BUCKETS as nat, |i: int| Seq::<NodeView>::empty())
}

/// What updating the table with a freshly seen peer does: only the peer's own
/// bucket changes, as [`bucket_update`] says.
pub open spec fn update_model(m: Seq<Seq<NodeView>>, self_id: Seq<u8>, peer: NodeView) -> Seq<
    Seq<NodeView>,
> {
    let i = bucket_index_of(self_id, peer.id);
    m.update(i, bucket_update(m[i], peer))
}

/// What removing an identifier from the table does.
pub open spec fn remove_model(m: Seq<Seq<NodeView>>, self_id: Seq<u8>, id: Seq<u8>) -> Seq<
    Seq<NodeView>,
> {
    let i = bucket_index_of(self_id, id);
    m.update(i, bucket_remove(m[i], id))
}

/// The invariant of one bucket: bounded by the replication factor, every
/// entry well-formed and in the bucket its distance selects, and no two
/// entries with the same identifier.
pub open spec fn bucket_wf(b: Seq<NodeView>, self_id: Seq<u8>, i: int) -> bool {
    &&& b.len() <= K_PARAM
    &&& forall|j: int|
        0 <= j < b.len() ==> (#[trigger] b[j]).wf() && bucket_index_of(self_id, b[j].id) == i
    &&& forall|j1: int, j2: int|
        0 <= j1 < j2 < b.len() ==> b[j1].id != b[j2].id
}

/// Whether some bucket of the table holds a peer with this identifier.
pub open spec fn model_contains_id(m: Seq<Seq<NodeView>>, id: Seq<u8>) -> bool {
    exists|bi: int| 0 <= bi < m.len() && index_of_id(#[trigger] m[bi], id) >= 0
}

/// A bucketed nearest-neighbour index over every peer this node has seen.
#[derive(Debug)]
pub struct RoutingTable {
    node_info: NodeInfo,
    buckets: Vec<Vec<NodeInfo>>,
}

impl RoutingTable {
    /// The table's buckets, as sequences of peer views.
    pub closed spec fn model(&self) -> Seq<Seq<NodeView>> {
        self.buckets.deep_view()
    }

    /// The owning node's descriptor.
    pub closed spec fn self_view(&self) -> NodeView {
        self.node_info@
    }

    /// The table invariant: one bucket per prefix length, each obeying
    /// [`bucket_wf`].
    pub open spec fn wf(&self) -> bool {
        &&& self.self_view().wf()
        &&& self.model().len() == N_BUCKETS
        &&& forall|i: int|
            0 <= i < N_BUCKETS ==> bucket_wf(#[trigger] self.model()[i], self.self_view().id, i)
    }

    /// The owning node's descriptor.
    pub fn node_info(&self) -> (r: &NodeInfo)
        ensures
            r@ == self.self_view(),
    {
        &self.node_info
    }

    /// A table for `node_info`, holding only the node itself (in the
    /// terminal bucket, at distance zero).
    pub fn new(node_info: NodeInfo) -> (r: RoutingTable)
        requires
            node_info.wf(),
        ensures
            r.wf(),
            r.self_view() == node_info@,
            r.model() == update_model(empty_model(), node_info@.id, node_info@),
    {
        let mut buckets: Vec<Vec<NodeInfo>> = Vec::new();
        let mut i: usize = 0;
        while i < N_BUCKETS
            invariant
                i <= N_BUCKETS,
                buckets@.len() == i,
                forall|j: int| 0 <= j < i ==> #[trigger] buckets.deep_view()[j].len() == 0,
            decreases N_BUCKETS - i,
        {
            let ghost prev = buckets.deep_view();
            buckets.push(Vec::new());
            proof {
                assert forall|j: int|
                    0 <= j < i + 1 implies #[trigger] buckets.deep_view()[j].len() == 0 by {
                    if j < i {
                        assert(buckets.deep_view()[j] == prev[j]);
                    } else {
                        assert(buckets.deep_view()[j] == buckets@[j].deep_view());
                    }
                }
            }
            i = i + 1;
        }
        let mut rt = RoutingTable { node_info: node_info.dup(), buckets };
        proof {
            assert(rt.model() =~~= empty_model());
        }
        let self_peer = node_info;
        let _ = rt.update(self_peer);
        rt
    }

    /// Records a freshly seen peer: refresh it to the tail of its bucket if
    /// already present, append it if the bucket has room, and otherwise leave
    /// the table unchanged and hand back the bucket's least-recently-seen
    /// head so the caller can run the bucket-full policy.
    pub fn update(&mut self, peer: NodeInfo) -> (r: UpdateOutcome)
        requires
            old(self).wf(),
            peer.wf(),
        ensures
            final(self).wf(),
            final(self).self_view() == old(self).self_view(),
            final(self).model() == update_model(
                old(self).model(),
                old(self).self_view().id,
                peer@,
            ),
            ({
                let i = bucket_index_of(old(self).self_view().id, peer@.id);
                let b = old(self).model()[i];
                &&& ((r is BucketFull) <==> (index_of_id(b, peer@.id) == -1 && b.len()
                    >= K_PARAM))
                &&& (r matches UpdateOutcome::BucketFull(h) ==> h@ == b[0] && h.wf())
            }),
    {
        let d = self.node_info.id.dist(&peer.id);
        let idx = d.zeroes_in_prefix();
        proof {
            lemma_prefix_range(xor_bytes(self.self_view().id, peer@.id));
        }
        let ghost m0 = self.model();
        let mut b: Vec<NodeInfo> = Vec::new();
        self.buckets.set_and_swap(idx, &mut b);
        let ghost b0 = b.deep_view();
        proof {
            assert(b0 == m0[idx as int]);
        }
        let r: UpdateOutcome;
        match find_id(&b, &peer.id) {
            Some(j) => {
                let x = b.remove(j);
                b.push(x);
                r = UpdateOutcome::Done;
                proof {
                    lemma_index_of_id(b0, peer@.id);
                    assert(b.deep_view() =~= bucket_update(b0, peer@));
                }
            },
            None => {
                if b.len() < K_PARAM {
                    b.push(peer);
                    r = UpdateOutcome::Done;
                    proof {
                        assert(b.deep_view() =~= bucket_update(b0, peer@));
                    }
                } else {
                    let head = b[0].dup();
                    r = UpdateOutcome::BucketFull(head);
                    proof {
                        assert(b.deep_view() =~= bucket_update(b0, peer@));
                    }
                }
            },
        }
        self.buckets.set(idx, b);
        proof {
            assert(self.model() =~= update_model(m0, old(self).self_view().id, peer@));
            lemma_index_of_id(b0, peer@.id);
            lemma_bucket_update_wf(b0, old(self).self_view().id, idx as int, peer@);
            assert forall|i: int|
                0 <= i < N_BUCKETS implies bucket_wf(
                #[trigger] self.model()[i],
                self.self_view().id,
                i,
            ) by {
                if i != idx as int {
                    assert(self.model()[i] == m0[i]);
                }
            }
        }
        r
    }

    /// Deletes the peer with this identifier from its bucket, if present.
    pub fn remove(&mut self, peer: &NodeInfo)
        requires
            old(self).wf(),
            peer.wf(),
        ensures
            final(self).wf(),
            final(self).self_view() == old(self).self_view(),
            final(self).model() == remove_model(
                old(self).model(),
                old(self).self_view().id,
                peer@.id,
            ),
    {
        let d = self.node_info.id.dist(&peer.id);
        let idx = d.zeroes_in_prefix();
        proof {
            lemma_prefix_range(xor_bytes(self.self_view().id, peer@.id));
        }
        let ghost m0 = self.model();
        let mut b: Vec<NodeInfo> = Vec::new();
        self.buckets.set_and_swap(idx, &mut b);
        let ghost b0 = b.deep_view();
        proof {
            assert(b0 == m0[idx as int]);
        }
        match find_id(&b, &peer.id) {
            Some(j) => {
                let _ = b.remove(j);
                proof {
                    assert(b.deep_view() =~= bucket_remove(b0, peer@.id));
                }
            },
            None => {
                proof {
                    assert(b.deep_view() =~= bucket_remove(b0, peer@.id));
                }
            },
        }
        self.buckets.set(idx, b);
        proof {
            assert(self.model() =~= remove_model(m0, old(self).self_view().id, peer@.id));
            lemma_index_of_id(b0, peer@.id);
            lemma_bucket_remove_wf(b0, old(self).self_view().id, idx as int, peer@.id);
            assert forall|i: int|
                0 <= i < N_BUCKETS implies bucket_wf(
                #[trigger] self.model()[i],
                self.self_view().id,
                i,
            ) by {
                if i != idx as int {
                    assert(self.model()[i] == m0[i]);
                }
            }
        }
    }

    /// Number of peers in one bucket.
    pub fn bucket_len(&self, i: usize) -> (r: usize)
        requires
            self.wf(),
            i < N_BUCKETS,
        ensures
            r == self.model()[i as int].len(),
    {
        proof {
            assert(self.model()[i as int] == self.buckets@[i as int].deep_view());
        }
        self.buckets[i].len()
    }

    /// A copy of the peer at one slot.
    pub fn peer_at(&self, i: usize, j: usize) -> (r: NodeInfo)
        requires
            self.wf(),
            i < N_BUCKETS,
            j < self.model()[i as int].len(),
        ensures
            r@ == self.model()[i as int][j as int],
    {
        proof {
            assert(self.model()[i as int] == self.buckets@[i as int].deep_view());
            assert(self.model()[i as int][j as int] == self.buckets@[i as int]@[j as int]@);
        }
        self.buckets[i][j].dup()
    }

    /// Whether the table holds a peer with this identifier.
    pub fn contains_id(&self, id: &Key) -> (r: bool)
        requires
            self.wf(),
            id.wf(),
        ensures
            r == model_contains_id(self.model(), id@),
    {
        let d = self.node_info.id.dist(id);
        let idx = d.zeroes_in_prefix();
        proof {
            lemma_prefix_range(xor_bytes(self.self_view().id, id@));
        }
        let r = find_id(&self.buckets[idx], id);
        proof {
            lemma_contained_in_own_bucket(self.model(), self.self_view().id, id@);
        }
        r.is_some()
    }
}

/// The result of recording a peer: either the table took it (or refreshed
/// it), or its bucket was full and the caller must ping the returned
/// least-recently-seen head before deciding.
#[derive(Debug)]
pub enum UpdateOutcome {
    /// The peer was refreshed or appended.
    Done,
    /// The bucket was full; the held descriptor is its current head.
    BucketFull(NodeInfo),
}

/// Finds the position of an identifier in one bucket.
fn find_id(b: &Vec<NodeInfo>, id: &Key) -> (r: Option<usize>)
    ensures
        r matches Some(j) ==> 0 <= j < b@.len() && index_of_id(b.deep_view(), id@) == j,
        r is None ==> index_of_id(b.deep_view(), id@) == -1,
{
    let mut j: usize = 0;
    while j < b.len()
        invariant
            j <= b@.len(),
            forall|j2: int| 0 <= j2 < j ==> b.deep_view()[j2].id != id@,
        decreases b@.len() - j,
    {
        if b[j].id.equals(id) {
            proof {
                assert(b.deep_view()[j as int].id == id@);
                lemma_index_of_id_first(b.deep_view(), id@, j as int);
            }
            return Some(j);
        }
        proof {
            assert(b.deep_view()[j as int].id != id@);
        }
        j = j + 1;
    }
    proof {
        lemma_index_of_id_first(b.deep_view(), id@, b@.len() as int);
    }
    None
}

/// What [`index_of_id`] finds: `-1` exactly when the identifier is absent,
/// and otherwise the first position holding it.
pub proof fn lemma_index_of_id(b: Seq<NodeView>, id: Seq<u8>)
    ensures
        index_of_id(b, id) == -1 ==> forall|j: int| 0 <= j < b.len() ==> b[j].id != id,
        index_of_id(b, id) != -1 ==> 0 <= index_of_id(b, id) < b.len() && b[index_of_id(
            b,
            id,
        )].id == id,
    decreases b.len(),
{
    if b.len() > 0 {
        lemma_index_of_id(b.drop_first(), id);
        if index_of_id(b, id) == -1 {
            assert forall|j: int| 0 <= j < b.len() implies b[j].id != id by {
                if j > 0 {
                    assert(b.drop_first()[j - 1] == b[j]);
                }
            }
        } else if b[0].id != id {
            assert(b.drop_first()[index_of_id(b.drop_first(), id)] == b[index_of_id(b, id)]);
        }
    }
}

/// A scan that rejects every position before `j` and accepts `j` (or runs
/// off the end) computes [`index_of_id`].
pub proof fn lemma_index_of_id_first(b: Seq<NodeView>, id: Seq<u8>, j: int)
    requires
        0 <= j <= b.len(),
        forall|j2: int| 0 <= j2 < j ==> b[j2].id != id,
        j < b.len() ==> b[j].id == id,
    ensures
        j == b.len() ==> index_of_id(b, id) == -1,
        j < b.len() ==> index_of_id(b, id) == j,
    decreases b.len(),
{
    if b.len() > 0 && b[0].id != id {
        assert forall|j2: int| 0 <= j2 < j - 1 implies b.drop_first()[j2].id != id by {
            assert(b.drop_first()[j2] == b[j2 + 1]);
        }
        if j < b.len() {
            assert(b.drop_first()[j - 1] == b[j]);
        }
        lemma_index_of_id_first(b.drop_first(), id, j - 1);
    }
}

/// [`bucket_update`] preserves the bucket invariant.
pub proof fn lemma_bucket_update_wf(b: Seq<NodeView>, self_id: Seq<u8>, i: int, peer: NodeView)
    requires
        bucket_wf(b, self_id, i),
        peer.wf(),
        bucket_index_of(self_id, peer.id) == i,
    ensures
        bucket_wf(bucket_update(b, peer), self_id, i),
{
    lemma_index_of_id(b, peer.id);
    let j = index_of_id(b, peer.id);
    let b2 = bucket_update(b, peer);
    if j >= 0 {
        b.remove_ensures(j);
        assert forall|j1: int, j2: int| 0 <= j1 < j2 < b2.len() implies b2[j1].id != b2[j2].id by {
            lemma_remove_push_index(b, j, j1);
            lemma_remove_push_index(b, j, j2);
        }
        assert forall|j1: int| 0 <= j1 < b2.len() implies (#[trigger] b2[j1]).wf()
            && bucket_index_of(self_id, b2[j1].id) == i by {
            lemma_remove_push_index(b, j, j1);
        }
    } else if b.len() < K_PARAM {
    }
}

/// Where each entry of `b.remove(j).push(b[j])` comes from in `b`.
proof fn lemma_remove_push_index(b: Seq<NodeView>, j: int, k: int)
    requires
        0 <= j < b.len(),
        0 <= k < b.len(),
    ensures
        b.remove(j).push(b[j])[k] == if k < j {
            b[k]
        } else if k < b.len() - 1 {
            b[k + 1]
        } else {
            b[j]
        },
{
    b.remove_ensures(j);
}

/// [`bucket_remove`] preserves the bucket invariant.
pub proof fn lemma_bucket_remove_wf(b: Seq<NodeView>, self_id: Seq<u8>, i: int, id: Seq<u8>)
    requires
        bucket_wf(b, self_id, i),
    ensures
        bucket_wf(bucket_remove(b, id), self_id, i),
{
    lemma_index_of_id(b, id);
    let j = index_of_id(b, id);
    if j >= 0 {
        b.remove_ensures(j);
    }
}

/// Under the table invariant a peer can sit only in the bucket its own
/// distance selects, so a search there decides membership in the whole
/// table.
pub proof fn lemma_contained_in_own_bucket(m: Seq<Seq<NodeView>>, self_id: Seq<u8>, id: Seq<u8>)
    requires
        m.len() == N_BUCKETS,
        forall|i: int| 0 <= i < N_BUCKETS ==> bucket_wf(#[trigger] m[i], self_id, i),
        0 <= bucket_index_of(self_id, id) < N_BUCKETS,
    ensures
        model_contains_id(m, id) == (index_of_id(m[bucket_index_of(self_id, id)], id) >= 0),
{
    let own = bucket_index_of(self_id, id);
    if model_contains_id(m, id) {
        let bi = choose|bi: int| 0 <= bi < m.len() && index_of_id(#[trigger] m[bi], id) >= 0;
        lemma_index_of_id(m[bi], id);
        assert(m[bi][index_of_id(m[bi], id)].id == id);
        assert(bucket_index_of(self_id, id) == bi);
        assert(index_of_id(m[own], id) >= 0);
    }
    if index_of_id(m[own], id) >= 0 {
        assert(model_contains_id(m, id));
    }
}

/// Entries stand in non-decreasing order of distance.
pub open spec fn sorted_by_distance(s: Seq<(NodeView, Seq<u8>)>) -> bool {
    forall|i: int, j: int| 0 <= i < j < s.len() ==> lex_le(s[i].1, s[j].1)
}

/// Every pair holds a well-formed peer and a full-width distance.
pub open spec fn pairs_wf(s: Seq<(NodeView, Seq<u8>)>) -> bool {
    forall|i: int| 0 <= i < s.len() ==> (#[trigger] s[i]).0.wf() && s[i].1.len() == KEY_LEN
}

/// Whether the table model holds this exact peer.
pub open spec fn model_contains_peer(m: Seq<Seq<NodeView>>, p: NodeView) -> bool {
    exists|bi: int, j: int|
        #![trigger m[bi][j]]
        0 <= bi < m.len() && 0 <= j < m[bi].len() && m[bi][j] == p
}

/// Whether a slot before (`bi`, `j`) in bucket-major order holds this peer.
pub open spec fn model_contains_peer_before(
    m: Seq<Seq<NodeView>>,
    p: NodeView,
    bi: int,
    j: int,
) -> bool {
    exists|b2: int, j2: int|
        #![trigger m[b2][j2]]
        0 <= b2 < m.len() && 0 <= j2 < m[b2].len() && (b2 < bi || (b2 == bi && j2 < j)) && m[b2][j2]
            == p
}

/// Whether the collected list holds this peer paired with its distance to
/// `target`.
pub open spec fn col_has_pair(s: Seq<(NodeView, Seq<u8>)>, p: NodeView, target: Seq<u8>) -> bool {
    exists|ci: int| 0 <= ci < s.len() && #[trigger] s[ci] == (p, xor_bytes(p.id, target))
}

/// Whether the result holds a peer with this identifier.
pub open spec fn result_has_id(r: Seq<(NodeView, Seq<u8>)>, id: Seq<u8>) -> bool {
    exists|i: int| 0 <= i < r.len() && (#[trigger] r[i]).0.id == id
}

/// Number of peers in the whole table.
pub open spec fn total_count(m: Seq<Seq<NodeView>>) -> int
    decreases m.len(),
{
    if m.len() == 0 {
        0
    } else {
        total_count(m.drop_last()) + m.last().len()
    }
}

/// The smaller of two integers.
pub open spec fn min_int(a: int, b: int) -> int {
    if a <= b {
        a
    } else {
        b
    }
}

/// What `closest` returns: the `count` peers of the table nearest to
/// `target`, with their true distances, in non-decreasing order, without
/// duplicates, and no omitted peer nearer than a returned one.
pub open spec fn closest_result_ok(
    m: Seq<Seq<NodeView>>,
    target: Seq<u8>,
    count: int,
    r: Seq<(NodeView, Seq<u8>)>,
) -> bool {
    &&& r.len() == min_int(count, total_count(m))
    &&& sorted_by_distance(r)
    &&& forall|i: int|
        0 <= i < r.len() ==> model_contains_peer(m, (#[trigger] r[i]).0) && r[i].1 == xor_bytes(
            r[i].0.id,
            target,
        )
    &&& forall|i: int, j: int| 0 <= i < j < r.len() ==> r[i].0.id != r[j].0.id
    &&& forall|p: NodeView, i: int|
        #![trigger model_contains_peer(m, p), r[i]]
        model_contains_peer(m, p) && 0 <= i < r.len() && !result_has_id(r, p.id) ==> lex_le(
            r[i].1,
            xor_bytes(p.id, target),
        )
}

/// One step of counting the table bucket by bucket.
pub proof fn lemma_total_count_take(m: Seq<Seq<NodeView>>, i: int)
    requires
        0 <= i < m.len(),
    ensures
        total_count(m.take(i + 1)) == total_count(m.take(i)) + m[i].len(),
{
    assert(m.take(i + 1).drop_last() =~= m.take(i));
    assert(m.take(i + 1).last() == m[i]);
}

/// Peers found before some slot are still found before any later slot.
pub proof fn lemma_before_mono(
    m: Seq<Seq<NodeView>>,
    p: NodeView,
    bi1: int,
    j1: int,
    bi2: int,
    j2: int,
)
    requires
        model_contains_peer_before(m, p, bi1, j1),
        bi1 < bi2 || (bi1 == bi2 && j1 <= j2),
    ensures
        model_contains_peer_before(m, p, bi2, j2),
{
    let (b, j): (int, int) = choose|b: int, j: int|
        #![trigger m[b][j]]
        0 <= b < m.len() && 0 <= j < m[b].len() && (b < bi1 || (b == bi1 && j < j1)) && m[b][j]
            == p;
    assert(0 <= b < m.len() && 0 <= j < m[b].len() && (b < bi2 || (b == bi2 && j < j2)) && m[b][j]
        == p);
}

/// Under the table invariant an identifier appears in at most one slot.
pub proof fn lemma_model_global_distinct(
    m: Seq<Seq<NodeView>>,
    self_id: Seq<u8>,
    b1: int,
    j1: int,
    b2: int,
    j2: int,
)
    requires
        m.len() == N_BUCKETS,
        forall|i: int| 0 <= i < N_BUCKETS ==> bucket_wf(#[trigger] m[i], self_id, i),
        0 <= b1 < m.len(),
        0 <= j1 < m[b1].len(),
        0 <= b2 < m.len(),
        0 <= j2 < m[b2].len(),
        b1 != b2 || j1 != j2,
    ensures
        m[b1][j1].id != m[b2][j2].id,
{
    if m[b1][j1].id == m[b2][j2].id {
        assert(bucket_wf(m[b1], self_id, b1));
        assert(bucket_wf(m[b2], self_id, b2));
        assert(bucket_index_of(self_id, m[b1][j1].id) == b1);
        assert(bucket_index_of(self_id, m[b2][j2].id) == b2);
        assert(b1 == b2);
        if j1 < j2 {
            assert(m[b1][j1].id != m[b1][j2].id);
        } else {
            assert(m[b1][j2].id != m[b1][j1].id);
        }
    }
}

/// Two sequences with equal multisets hold the same elements: any element of
/// one appears somewhere in the other.
pub proof fn lemma_multiset_index(
    s: Seq<(NodeView, Seq<u8>)>,
    t: Seq<(NodeView, Seq<u8>)>,
    i: int,
)
    requires
        s.to_multiset() == t.to_multiset(),
        0 <= i < s.len(),
    ensures
        exists|j: int| 0 <= j < t.len() && #[trigger] t[j] == s[i],
{
    s.to_multiset_ensures();
    t.to_multiset_ensures();
    assert(s.contains(s[i]));
    assert(s.to_multiset().count(s[i]) > 0);
    assert(t.contains(s[i]));
    let j = choose|j: int| 0 <= j < t.len() && t[j] == s[i];
    assert(t[j] == s[i]);
}

/// Sorts peer/distance pairs into non-decreasing distance order. The result
/// holds exactly the input pairs: the same multiset.
pub fn sort_by_distance(v: Vec<NodeAndDistance>) -> (r: Vec<NodeAndDistance>)
    requires
        pairs_wf(v.deep_view()),
    ensures
        r.deep_view().to_multiset() == v.deep_view().to_multiset(),
        r.deep_view().len() == v.deep_view().len(),
        sorted_by_distance(r.deep_view()),
        pairs_wf(r.deep_view()),
{
    let ghost orig = v.deep_view();
    let mut v = v;
    let mut out: Vec<NodeAndDistance> = Vec::new();
    proof {
        broadcast use vstd::multiset::group_multiset_axioms;

        orig.to_multiset_ensures();
        out.deep_view().to_multiset_ensures();
        assert(out.deep_view().len() == 0);
        vstd::multiset::lemma_multiset_empty_len(out.deep_view().to_multiset());
        assert(out.deep_view().to_multiset() == Multiset::<(NodeView, Seq<u8>)>::empty());
        assert(out.deep_view().to_multiset().add(v.deep_view().to_multiset()) =~= orig.to_multiset());
    }
    while v.len() > 0
        invariant
            pairs_wf(v.deep_view()),
            pairs_wf(out.deep_view()),
            sorted_by_distance(out.deep_view()),
            out.deep_view().to_multiset().add(v.deep_view().to_multiset()) == orig.to_multiset(),
            out.deep_view().len() + v.deep_view().len() == orig.len(),
            forall|i: int, j: int|
                0 <= i < out.deep_view().len() && 0 <= j < v.deep_view().len() ==> lex_le(
                    out.deep_view()[i].1,
                    v.deep_view()[j].1,
                ),
        decreases v@.len(),
    {
        let ghost vd0 = v.deep_view();
        let ghost outd0 = out.deep_view();
        let mut m: usize = 0;
        let mut t: usize = 1;
        proof {
            lemma_lex_le_refl(vd0[0].1);
        }
        while t < v.len()
            invariant
                pairs_wf(v.deep_view()),
                vd0 == v.deep_view(),
                v@.len() > 0,
                m < v@.len(),
                t <= v@.len(),
                forall|j: int|
                    0 <= j < t ==> lex_le(vd0[m as int].1, (#[trigger] vd0[j]).1),
            decreases v@.len() - t,
        {
            proof {
                assert(vd0[t as int] == v@[t as int]@);
                assert(vd0[m as int] == v@[m as int]@);
            }
            if v[t].1.le(&v[m].1) {
                proof {
                    assert forall|j: int|
                        0 <= j < t + 1 implies lex_le(vd0[t as int].1, (#[trigger] vd0[j]).1) by {
                        if j < t {
                            lemma_lex_le_trans(vd0[t as int].1, vd0[m as int].1, vd0[j].1);
                        } else {
                            lemma_lex_le_refl(vd0[t as int].1);
                        }
                    }
                }
                m = t;
            } else {
                proof {
                    lemma_lex_le_total(vd0[t as int].1, vd0[m as int].1);
                }
            }
            t = t + 1;
        }
        let x = v.remove(m);
        let ghost xd = x.deep_view();
        out.push(x);
        proof {
            broadcast use vstd::multiset::group_multiset_axioms;

            vd0.to_multiset_ensures();
            outd0.to_multiset_ensures();
            assert(v.deep_view() =~= vd0.remove(m as int));
            assert(out.deep_view() =~= outd0.push(xd));
            assert(xd == vd0[m as int]);
            assert(vd0.to_multiset().count(xd) > 0);
            assert(out.deep_view().to_multiset().add(v.deep_view().to_multiset())
                =~= outd0.to_multiset().add(vd0.to_multiset()));
            assert forall|i: int, j: int|
                0 <= i < out.deep_view().len() && 0 <= j < v.deep_view().len() implies lex_le(
                out.deep_view()[i].1,
                v.deep_view()[j].1,
            ) by {
                vd0.remove_ensures(m as int);
                if i < outd0.len() {
                } else {
                }
            }
            assert forall|i: int, j: int|
                0 <= i < j < out.deep_view().len() implies lex_le(
                out.deep_view()[i].1,
                out.deep_view()[j].1,
            ) by {
                if j < outd0.len() {
                }
            }
        }
    }
    proof {
        broadcast use vstd::multiset::group_multiset_axioms;

        v.deep_view().to_multiset_ensures();
        assert(v.deep_view().to_multiset().len() == 0);
        assert(out.deep_view().to_multiset() =~= out.deep_view().to_multiset().add(
            v.deep_view().to_multiset(),
        ));
    }
    out
}

impl RoutingTable {
    /// The `count` peers of the table nearest to `item` in XOR distance,
    /// each with its distance, in non-decreasing order.
    pub fn closest_nodes(&self, item: &Key, count: usize) -> (r: Vec<NodeAndDistance>)
        requires
            self.wf(),
            item.wf(),
        ensures
            closest_result_ok(self.model(), item@, count as int, r.deep_view()),
            forall|i: int| 0 <= i < r.deep_view().len() ==> (#[trigger] r@[i]).wf(),
    {
        let ghost m = self.model();
        let ghost target = item@;
        let mut col: Vec<NodeAndDistance> = Vec::new();
        let mut bi: usize = 0;
        while bi < N_BUCKETS
            invariant
                self.wf(),
                item.wf(),
                m == self.model(),
                target == item@,
                bi <= N_BUCKETS,
                col.deep_view().len() == total_count(m.take(bi as int)),
                pairs_wf(col.deep_view()),
                forall|ci: int|
                    0 <= ci < col.deep_view().len() ==> model_contains_peer_before(
                        m,
                        (#[trigger] col.deep_view()[ci]).0,
                        bi as int,
                        0,
                    ) && col.deep_view()[ci].1 == xor_bytes(col.deep_view()[ci].0.id, target),
                forall|b2: int, j2: int|
                    #![trigger m[b2][j2]]
                    0 <= b2 < bi && 0 <= j2 < m[b2].len() ==> col_has_pair(
                        col.deep_view(),
                        m[b2][j2],
                        target,
                    ),
                forall|c1: int, c2: int|
                    0 <= c1 < c2 < col.deep_view().len() ==> col.deep_view()[c1].0.id
                        != col.deep_view()[c2].0.id,
            decreases N_BUCKETS - bi,
        {
            let blen = self.buckets[bi].len();
            proof {
                assert(m[bi as int] == self.buckets@[bi as int].deep_view());
                assert(m[bi as int].len() == blen);
            }
            let mut j: usize = 0;
            while j < blen
                invariant
                    self.wf(),
                    item.wf(),
                    m == self.model(),
                    target == item@,
                    bi < N_BUCKETS,
                    blen == m[bi as int].len(),
                    j <= blen,
                    col.deep_view().len() == total_count(m.take(bi as int)) + j,
                    pairs_wf(col.deep_view()),
                    forall|ci: int|
                        0 <= ci < col.deep_view().len() ==> model_contains_peer_before(
                            m,
                            (#[trigger] col.deep_view()[ci]).0,
                            bi as int,
                            j as int,
                        ) && col.deep_view()[ci].1 == xor_bytes(col.deep_view()[ci].0.id, target),
                    forall|b2: int, j2: int|
                        #![trigger m[b2][j2]]
                        (0 <= b2 < bi && 0 <= j2 < m[b2].len()) || (b2 == bi && 0 <= j2 < j)
                            ==> col_has_pair(col.deep_view(), m[b2][j2], target),
                    forall|c1: int, c2: int|
                        0 <= c1 < c2 < col.deep_view().len() ==> col.deep_view()[c1].0.id
                            != col.deep_view()[c2].0.id,
                decreases blen - j,
            {
                let ghost cd0 = col.deep_view();
                let ni = &self.buckets[bi][j];
                proof {
                    assert(ni@ == m[bi as int][j as int]);
                    assert(bucket_wf(m[bi as int], self.self_view().id, bi as int));
                    assert(m[bi as int][j as int].wf());
                }
                let d = ni.id.dist(item);
                let pair = NodeAndDistance(ni.dup(), d);
                col.push(pair);
                proof {
                    let p = m[bi as int][j as int];
                    assert(col.deep_view() =~= cd0.push((p, xor_bytes(p.id, target))));
                    assert forall|ci: int|
                        0 <= ci < col.deep_view().len() implies model_contains_peer_before(
                        m,
                        (#[trigger] col.deep_view()[ci]).0,
                        bi as int,
                        j as int + 1,
                    ) && col.deep_view()[ci].1 == xor_bytes(col.deep_view()[ci].0.id, target) by {
                        if ci < cd0.len() {
                            assert(col.deep_view()[ci] == cd0[ci]);
                            lemma_before_mono(
                                m,
                                cd0[ci].0,
                                bi as int,
                                j as int,
                                bi as int,
                                j as int + 1,
                            );
                        } else {
                            assert(col.deep_view()[ci] == (p, xor_bytes(p.id, target)));
                            assert(0 <= bi < m.len() && 0 <= j < m[bi as int].len() && m[bi as
                                int][j as int] == p);
                        }
                    }
                    assert forall|b2: int, j2: int|
                        #![trigger m[b2][j2]]
                        (0 <= b2 < bi && 0 <= j2 < m[b2].len()) || (b2 == bi && 0 <= j2 < j
                            + 1) implies col_has_pair(col.deep_view(), m[b2][j2], target) by {
                        if b2 == bi && j2 == j as int {
                            assert(col.deep_view()[cd0.len() as int] == (p, xor_bytes(
                                p.id,
                                target,
                            )));
                        } else {
                            assert(col_has_pair(cd0, m[b2][j2], target));
                            let ci = choose|ci: int|
                                0 <= ci < cd0.len() && #[trigger] cd0[ci] == (
                                m[b2][j2],
                                xor_bytes(m[b2][j2].id, target),
                                );
                            assert(col.deep_view()[ci] == cd0[ci]);
                        }
                    }
                    assert forall|c1: int, c2: int|
                        0 <= c1 < c2 < col.deep_view().len() implies col.deep_view()[c1].0.id
                        != col.deep_view()[c2].0.id by {
                        if c2 == cd0.len() as int {
                            let q = col.deep_view()[c1].0;
                            let (b3, j3): (int, int) = choose|b3: int, j3: int|
                                #![trigger m[b3][j3]]
                                0 <= b3 < m.len() && 0 <= j3 < m[b3].len() && (b3 < bi as int || (
                                b3 == bi as int && j3 < j as int)) && m[b3][j3] == q;
                            lemma_model_global_distinct(
                                m,
                                self.self_view().id,
                                b3,
                                j3,
                                bi as int,
                                j as int,
                            );
                        } else {
                            assert(col.deep_view()[c1] == cd0[c1]);
                            assert(col.deep_view()[c2] == cd0[c2]);
                        }
                    }
                }
                j = j + 1;
            }
            proof {
                lemma_total_count_take(m, bi as int);
            }
            bi = bi + 1;
        }
        proof {
            assert(m.take(N_BUCKETS as int) =~= m);
        }
        let ghost cold = col.deep_view();
        let sorted = sort_by_distance(col);
        let mut r = sorted;
        r.truncate(count);
        proof {
            let sd = sorted.deep_view();
            let rd = r.deep_view();
            if count as int <= sd.len() {
                assert(rd =~= sd.subrange(0, count as int));
            } else {
                assert(rd =~= sd);
            }
            assert(rd.len() == min_int(count as int, total_count(m)));
            assert forall|i: int|
                0 <= i < rd.len() implies model_contains_peer(m, (#[trigger] rd[i]).0) && rd[i].1
                == xor_bytes(rd[i].0.id, target) by {
                assert(rd[i] == sd[i]);
                lemma_multiset_index(sd, cold, i);
                let ci = choose|ci: int| 0 <= ci < cold.len() && #[trigger] cold[ci] == sd[i];
                let q = cold[ci].0;
                let (b3, j3): (int, int) = choose|b3: int, j3: int|
                    #![trigger m[b3][j3]]
                    0 <= b3 < m.len() && 0 <= j3 < m[b3].len() && (b3 < N_BUCKETS as int || (b3
                        == N_BUCKETS as int && j3 < 0)) && m[b3][j3] == q;
                assert(m[b3][j3] == q);
            }
            assert forall|i: int, j: int| 0 <= i < j < rd.len() implies rd[i].0.id
                != rd[j].0.id by {
                assert(rd[i] == sd[i]);
                assert(rd[j] == sd[j]);
                lemma_col_distinct_transfer(sd, cold, i, j);
            }
            assert forall|p: NodeView, i: int|
                #![trigger model_contains_peer(m, p), rd[i]]
                model_contains_peer(m, p) && 0 <= i < rd.len() && !result_has_id(
                rd,
                p.id,
            ) implies lex_le(rd[i].1, xor_bytes(p.id, target)) by {
                let (b3, j3): (int, int) = choose|b3: int, j3: int|
                    #![trigger m[b3][j3]]
                    0 <= b3 < m.len() && 0 <= j3 < m[b3].len() && m[b3][j3] == p;
                assert(col_has_pair(cold, m[b3][j3], target));
                let ci = choose|ci: int|
                    0 <= ci < cold.len() && #[trigger] cold[ci] == (p, xor_bytes(p.id, target));
                lemma_multiset_index(cold, sd, ci);
                let k = choose|k: int| 0 <= k < sd.len() && #[trigger] sd[k] == cold[ci];
                if k < rd.len() {
                    assert(rd[k] == sd[k]);
                    assert(rd[k].0.id == p.id);
                    assert(result_has_id(rd, p.id));
                }
                assert(rd[i] == sd[i]);
                assert(lex_le(sd[i].1, sd[k].1));
            }
            assert forall|i: int| 0 <= i < r.deep_view().len() implies (#[trigger] r@[i]).wf() by {
                assert(r@[i]@ == rd[i]);
                assert(pairs_wf(sd));
                assert(rd[i] == sd[i]);
            }
        }
        r
    }
}

/// Two entries of the sorted list with distinct positions carry distinct
/// identifiers, inherited from the collected list.
pub(crate) proof fn lemma_col_distinct_transfer(
    sd: Seq<(NodeView, Seq<u8>)>,
    cold: Seq<(NodeView, Seq<u8>)>,
    i: int,
    j: int,
)
    requires
        sd.to_multiset() == cold.to_multiset(),
        forall|c1: int, c2: int| 0 <= c1 < c2 < cold.len() ==> cold[c1].0.id != cold[c2].0.id,
        0 <= i < j < sd.len(),
    ensures
        sd[i].0.id != sd[j].0.id,
{
    sd.to_multiset_ensures();
    cold.to_multiset_ensures();
    if sd[i].0.id == sd[j].0.id {
        if sd[i] == sd[j] {
            // the same pair would occur twice in `sd` but at most once in `cold`
            assert forall|c1: int, c2: int|
                0 <= c1 < cold.len() && 0 <= c2 < cold.len() && c1 != c2 implies cold[c1]
                != cold[c2] by {
                if c1 < c2 {
                    assert(cold[c1].0.id != cold[c2].0.id);
                } else {
                    assert(cold[c2].0.id != cold[c1].0.id);
                }
            }
            assert(cold.no_duplicates());
            cold.lemma_multiset_has_no_duplicates();
            lemma_dup_count(sd, i, j);
            assert(sd.to_multiset().count(sd[i]) >= 2);
            assert(cold.to_multiset().count(sd[i]) <= 1);
        } else {
            lemma_multiset_index(sd, cold, i);
            lemma_multiset_index(sd, cold, j);
            let c1 = choose|c: int| 0 <= c < cold.len() && #[trigger] cold[c] == sd[i];
            let c2 = choose|c: int| 0 <= c < cold.len() && #[trigger] cold[c] == sd[j];
            assert(c1 != c2);
            if c1 < c2 {
                assert(cold[c1].0.id != cold[c2].0.id);
            } else {
                assert(cold[c2].0.id != cold[c1].0.id);
            }
        }
    }
}

/// An element appearing at two positions counts at least twice in the
/// sequence's multiset.
pub(crate) proof fn lemma_dup_count(s: Seq<(NodeView, Seq<u8>)>, i: int, j: int)
    requires
        0 <= i < j < s.len(),
        s[i] == s[j],
    ensures
        s.to_multiset().count(s[i]) >= 2,
{
    s.to_multiset_ensures();
    let s2 = s.remove(i);
    s2.to_multiset_ensures();
    assert(s.remove(i).to_multiset() =~= s.to_multiset().remove(s[i]));
    s.remove_ensures(i);
    assert(s2[j - 1] == s[j]);
    assert(s2.contains(s[i]));
    assert(s2.to_multiset().count(s[i]) > 0);
    broadcast use vstd::multiset::group_multiset_axioms;

    assert(s.to_multiset().count(s[i]) == s2.to_multiset().count(s[i]) + 1);
}

/// Every peer sits in the bucket selected by the prefix length of its
/// distance from the owning node.
pub proof fn lemma_bucket_placement(rt: &RoutingTable, i: int, j: int)
    requires
        rt.wf(),
        0 <= i < N_BUCKETS,
        0 <= j < rt.model()[i].len(),
    ensures
        prefix_of(xor_bytes(rt.self_view().id, rt.model()[i][j].id)) == i,
{
    assert(bucket_wf(rt.model()[i], rt.self_view().id, i));
}

/// Every bucket is bounded by the replication factor and free of duplicate
/// identifiers.
pub proof fn lemma_bucket_bounds(rt: &RoutingTable, i: int)
    requires
        rt.wf(),
        0 <= i < N_BUCKETS,
    ensures
        rt.model()[i].len() <= K_PARAM,
        forall|j1: int, j2: int|
            0 <= j1 < j2 < rt.model()[i].len() ==> rt.model()[i][j1].id != rt.model()[i][j2].id,
{
    assert(bucket_wf(rt.model()[i], rt.self_view().id, i));
}

} // verus!
