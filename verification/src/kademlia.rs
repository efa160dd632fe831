//! The node itself: its routing table, its local key/value store, the
//! handler that serves every inbound request, the decisions taken on each
//! RPC outcome, and the iterative lookup engine. Threads, sockets and
//! timers live outside the library; every decision they carry out is
//! verified here.
use vstd::prelude::*;

use crate::key::{sha1_hex_of, xor_bytes, Key};
use crate::message::{
    FindValueResult, FindValueResultView, Reply, ReplyView, Request, RequestView,
};
use crate::routing::{
    closest_result_ok, remove_model, sort_by_distance, update_model, NodeAndDistance, NodeInfo,
    NodeView, RoutingTable, UpdateOutcome,
};
use crate::{A_PARAM, KEY_LEN, K_PARAM};

verus! {

/// One binding of the local store.
#[derive(Debug)]
pub struct StoreEntry {
    k: String,
    v: String,
}

impl View for StoreEntry {
    type V = (Seq<char>, Seq<char>);

    closed spec fn view(&self) -> (Seq<char>, Seq<char>) {
        (self.k@, self.v@)
    }
}

impl DeepView for StoreEntry {
    type V = (Seq<char>, Seq<char>);

    open spec fn deep_view(&self) -> (Seq<char>, Seq<char>) {
        self@
    }
}

/// The mapping a list of bindings denotes; later bindings win.
pub open spec fn store_map(entries: Seq<(Seq<char>, Seq<char>)>) -> Map<Seq<char>, Seq<char>>
    decreases entries.len(),
{
    if entries.len() == 0 {
        Map::empty()
    } else {
        store_map(entries.drop_last()).insert(entries.last().0, entries.last().1)
    }
}

/// A Kademlia node: who it is, the peers it knows, and the bindings it
/// holds.
#[derive(Debug)]
pub struct Kademlia {
    node_info: NodeInfo,
    routes: RoutingTable,
    store: Vec<StoreEntry>,
}

impl Kademlia {
    /// The node's descriptor.
    pub closed spec fn self_view(&self) -> NodeView {
        self.node_info@
    }

    /// The routing table's buckets.
    pub closed spec fn routes_model(&self) -> Seq<Seq<NodeView>> {
        self.routes.model()
    }

    /// The bindings, in insertion order.
    pub closed spec fn store_entries(&self) -> Seq<(Seq<char>, Seq<char>)> {
        self.store.deep_view()
    }

    /// The mapping the node holds.
    pub open spec fn store_view(&self) -> Map<Seq<char>, Seq<char>> {
        store_map(self.store_entries())
    }

    /// The routing table is well-formed and owned by this node.
    pub closed spec fn routes_ok(&self) -> bool {
        self.routes.wf() && self.routes.self_view() == self.node_info@
    }

    /// The node invariant: a well-formed descriptor, a well-formed routing
    /// table owned by this node, and one binding per key.
    pub open spec fn wf(&self) -> bool {
        &&& self.self_view().wf()
        &&& self.routes_ok()
        &&& forall|i: int, j: int|
            0 <= i < j < self.store_entries().len() ==> self.store_entries()[i].0
                != self.store_entries()[j].0
    }

    /// A node with an empty store, knowing itself and at most one
    /// bootstrap peer.
    pub fn new(node_info: NodeInfo, bootstrap: Option<NodeInfo>) -> (r: Kademlia)
        requires
            node_info.wf(),
            bootstrap matches Some(b) ==> b.wf(),
        ensures
            r.wf(),
            r.self_view() == node_info@,
            r.store_entries() == Seq::<(Seq<char>, Seq<char>)>::empty(),
            ({
                let base = update_model(
                    crate::routing::empty_model(),
                    node_info@.id,
                    node_info@,
                );
                match bootstrap {
                    Option::Some(b) => r.routes_model() == update_model(
                        base,
                        node_info@.id,
                        b@,
                    ),
                    Option::None => r.routes_model() == base,
                }
            }),
    {
        let mut routes = RoutingTable::new(node_info.dup());
        match bootstrap {
            Some(b) => {
                let _ = routes.update(b);
            },
            None => {},
        }
        let r = Kademlia { node_info, routes, store: Vec::new() };
        proof {
            assert(r.store_entries() =~= Seq::<(Seq<char>, Seq<char>)>::empty());
        }
        r
    }

    /// The node's descriptor.
    pub fn node_info(&self) -> (r: &NodeInfo)
        ensures
            r@ == self.self_view(),
    {
        &self.node_info
    }

    /// The node's routing table.
    pub fn routes(&self) -> (r: &RoutingTable)
        ensures
            r.model() == self.routes_model(),
            self.wf() ==> r.wf() && r.self_view() == self.self_view(),
    {
        &self.routes
    }

    /// Position of the binding for `k`, if any.
    fn store_find(&self, k: &String) -> (r: Option<usize>)
        ensures
            r matches Some(i) ==> i < self.store_entries().len() && self.store_entries()[
                i as int].0 == k@,
            r is None ==> forall|j: int|
                0 <= j < self.store_entries().len() ==> (#[trigger] self.store_entries()[j]).0
                    != k@,
    {
        let mut i: usize = 0;
        while i < self.store.len()
            invariant
                i <= self.store@.len(),
                forall|j: int| 0 <= j < i ==> (#[trigger] self.store_entries()[j]).0 != k@,
            decreases self.store@.len() - i,
        {
            if self.store[i].k == *k {
                proof {
                    assert(self.store_entries()[i as int] == self.store@[i as int]@);
                }
                return Some(i);
            }
            proof {
                assert(self.store_entries()[i as int] == self.store@[i as int]@);
            }
            i = i + 1;
        }
        None
    }

    /// Binds `v` to `k` in the local store; the last writer wins.
    pub fn store_insert(&mut self, k: String, v: String)
        requires
            old(self).wf(),
        ensures
            final(self).wf(),
            final(self).self_view() == old(self).self_view(),
            final(self).routes_model() == old(self).routes_model(),
            final(self).store_view() == old(self).store_view().insert(k@, v@),
    {
        let ghost e0 = self.store_entries();
        match self.store_find(&k) {
            Some(i) => {
                self.store.set(i, StoreEntry { k, v });
                proof {
                    assert(self.store_entries() =~= e0.update(i as int, (k@, v@)));
                    lemma_store_map_update(e0, i as int, k@, v@);
                    assert forall|j1: int, j2: int|
                        0 <= j1 < j2 < final(self).store_entries().len() implies final(self).store_entries()[j1].0
                        != final(self).store_entries()[j2].0 by {
                        if j1 != i as int && j2 != i as int {
                            assert(final(self).store_entries()[j1] == e0[j1]);
                            assert(final(self).store_entries()[j2] == e0[j2]);
                        }
                    }
                }
            },
            None => {
                self.store.push(StoreEntry { k, v });
                proof {
                    assert(self.store_entries() =~= e0.push((k@, v@)));
                    assert(self.store_entries().drop_last() =~= e0);
                    assert forall|j1: int, j2: int|
                        0 <= j1 < j2 < final(self).store_entries().len() implies final(self).store_entries()[j1].0
                        != final(self).store_entries()[j2].0 by {
                        if j2 < e0.len() {
                            assert(final(self).store_entries()[j1] == e0[j1]);
                            assert(final(self).store_entries()[j2] == e0[j2]);
                        } else {
                            assert(final(self).store_entries()[j1] == e0[j1]);
                        }
                    }
                }
            },
        }
    }

    /// The value bound to `k`, if any.
    pub fn store_get(&self, k: &String) -> (r: Option<&String>)
        requires
            self.wf(),
        ensures
            r is Some <==> self.store_view().contains_key(k@),
            r matches Some(v) ==> self.store_view()[k@] == v@,
    {
        proof {
            lemma_store_map_keys(self.store_entries(), k@);
        }
        match self.store_find(k) {
            Some(i) => {
                proof {
                    lemma_store_map_found(self.store_entries(), i as int, k@);
                }
                Some(&self.store[i].v)
            },
            None => {
                proof {
                    lemma_store_map_absent(self.store_entries(), k@);
                }
                None
            },
        }
    }

    /// Serves one inbound request, after recording its sender as a live
    /// peer. `Ping` is acknowledged; `Store` binds the pair and
    /// acknowledges; `FindNode` answers with the closest peers to the
    /// target; `FindValue` answers with the bound value, or, without one,
    /// with the closest peers to the key's keyspace location — the store is
    /// never changed by a lookup. The returned outcome reports a full
    /// bucket, for the caller to resolve.
    pub fn handle_req(&mut self, req: Request, src: NodeInfo) -> (r: (Reply, UpdateOutcome))
        requires
            old(self).wf(),
            src.wf(),
            req@.wf(),
        ensures
            final(self).wf(),
            final(self).self_view() == old(self).self_view(),
            final(self).routes_model() == update_model(
                old(self).routes_model(),
                old(self).self_view().id,
                src@,
            ),
            crate::codec::reply_exec_wf(&r.0),
            r.0@.wf(),
            ({
                let m1 = final(self).routes_model();
                match req@ {
                    RequestView::Ping => r.0@ == ReplyView::Ping && final(self).store_view()
                        == old(self).store_view(),
                    RequestView::Store(k, v) => r.0@ == ReplyView::Ping
                        && final(self).store_view() == old(self).store_view().insert(k, v),
                    RequestView::FindNode(id) => final(self).store_view()
                        == old(self).store_view() && (r.0@ matches ReplyView::FindNode(ns)
                        && closest_result_ok(
                        m1,
                        id,
                        K_PARAM as int,
                        ns,
                    )),
                    RequestView::FindValue(k) => final(self).store_view()
                        == old(self).store_view() && (if old(self).store_view().contains_key(k) {
                        r.0@ == ReplyView::FindValue(
                            FindValueResultView::Value(old(self).store_view()[k]),
                        )
                    } else {
                        r.0@ matches ReplyView::FindValue(FindValueResultView::Nodes(ns))
                            && closest_result_ok(
                            m1,
                            sha1_hex_of(k).take(KEY_LEN as int),
                            K_PARAM as int,
                            ns,
                        )
                    }),
                }
            }),
    {
        let outcome = self.routes.update(src);
        let rep = match req {
            Request::Ping => Reply::Ping,
            Request::Store(k, v) => {
                self.store_insert(k, v);
                Reply::Ping
            },
            Request::FindNode(id) => {
                let ns = self.routes.closest_nodes(&id, K_PARAM);
                Reply::FindNode(ns)
            },
            Request::FindValue(k) => {
                match self.store_get(&k) {
                    Some(v) => {
                        let vv = v.clone();
                        Reply::FindValue(FindValueResult::Value(vv))
                    },
                    None => {
                        let hash = Key::hash(k.as_str());
                        let ns = self.routes.closest_nodes(&hash, K_PARAM);
                        Reply::FindValue(FindValueResult::Nodes(ns))
                    },
                }
            },
        };
        (rep, outcome)
    }

    /// Applies the bucket-full policy after the caller pinged the bucket's
    /// head: a live head is refreshed and the new peer discarded; a dead
    /// head is evicted and the new peer recorded in its place.
    pub fn apply_full_policy(&mut self, peer: NodeInfo, head: NodeInfo, head_alive: bool) -> (r:
        UpdateOutcome)
        requires
            old(self).wf(),
            peer.wf(),
            head.wf(),
        ensures
            final(self).wf(),
            final(self).self_view() == old(self).self_view(),
            final(self).store_view() == old(self).store_view(),
            head_alive ==> final(self).routes_model() == update_model(
                old(self).routes_model(),
                old(self).self_view().id,
                head@,
            ),
            !head_alive ==> final(self).routes_model() == update_model(
                remove_model(old(self).routes_model(), old(self).self_view().id, head@.id),
                old(self).self_view().id,
                peer@,
            ),
    {
        let r = if head_alive {
            self.routes.update(head)
        } else {
            self.routes.remove(&head);
            self.routes.update(peer)
        };
        proof {
            assert(self.self_view() == old(self).self_view());
            assert(self.self_view().wf());
            assert(self.routes_ok());
            assert(self.store_entries() == old(self).store_entries());
        }
        r
    }

    /// The decision after a ping: a pong refreshes the peer and reports
    /// success; anything else removes it and reports failure.
    pub fn ping_outcome(&mut self, dst: &NodeInfo, rep: Option<Reply>) -> (r: (
        Option<()>,
        UpdateOutcome,
    ))
        requires
            old(self).wf(),
            dst.wf(),
        ensures
            final(self).wf(),
            final(self).self_view() == old(self).self_view(),
            final(self).store_view() == old(self).store_view(),
            ({
                if rep matches Some(Reply::Ping) {
                    r.0 == Some(()) && final(self).routes_model() == update_model(
                        old(self).routes_model(),
                        old(self).self_view().id,
                        dst@,
                    )
                } else {
                    r.0 is None && final(self).routes_model() == remove_model(
                        old(self).routes_model(),
                        old(self).self_view().id,
                        dst@.id,
                    ) && r.1 is Done
                }
            }),
    {
        let r = match rep {
            Some(Reply::Ping) => {
                let outcome = self.routes.update(dst.dup());
                (Some(()), outcome)
            },
            _ => {
                self.routes.remove(dst);
                (None, UpdateOutcome::Done)
            },
        };
        proof {
            assert(self.self_view() == old(self).self_view());
            assert(self.routes_ok());
            assert(self.store_entries() == old(self).store_entries());
        }
        r
    }

    /// The decision after a store request: a pong refreshes the peer and
    /// reports success; anything else removes it and reports failure.
    pub fn store_outcome(&mut self, dst: &NodeInfo, rep: Option<Reply>) -> (r: (
        Option<()>,
        UpdateOutcome,
    ))
        requires
            old(self).wf(),
            dst.wf(),
        ensures
            final(self).wf(),
            final(self).self_view() == old(self).self_view(),
            final(self).store_view() == old(self).store_view(),
            ({
                if rep matches Some(Reply::Ping) {
                    r.0 == Some(()) && final(self).routes_model() == update_model(
                        old(self).routes_model(),
                        old(self).self_view().id,
                        dst@,
                    )
                } else {
                    r.0 is None && final(self).routes_model() == remove_model(
                        old(self).routes_model(),
                        old(self).self_view().id,
                        dst@.id,
                    ) && r.1 is Done
                }
            }),
    {
        let r = match rep {
            Some(Reply::Ping) => {
                let outcome = self.routes.update(dst.dup());
                (Some(()), outcome)
            },
            _ => {
                self.routes.remove(dst);
                (None, UpdateOutcome::Done)
            },
        };
        proof {
            assert(self.self_view() == old(self).self_view());
            assert(self.routes_ok());
            assert(self.store_entries() == old(self).store_entries());
        }
        r
    }

    /// The decision after a node lookup: a peer list refreshes the peer
    /// and hands the list back; anything else removes the peer.
    pub fn find_node_outcome(&mut self, dst: &NodeInfo, rep: Option<Reply>) -> (r: (
        Option<Vec<NodeAndDistance>>,
        UpdateOutcome,
    ))
        requires
            old(self).wf(),
            dst.wf(),
        ensures
            final(self).wf(),
            final(self).self_view() == old(self).self_view(),
            final(self).store_view() == old(self).store_view(),
            ({
                match rep {
                    Option::Some(Reply::FindNode(ns)) => (r.0 matches Some(v) && v@ == ns@)
                        && final(self).routes_model() == update_model(
                        old(self).routes_model(),
                        old(self).self_view().id,
                        dst@,
                    ),
                    _ => r.0 is None && final(self).routes_model() == remove_model(
                        old(self).routes_model(),
                        old(self).self_view().id,
                        dst@.id,
                    ) && r.1 is Done,
                }
            }),
    {
        let r = match rep {
            Some(Reply::FindNode(ns)) => {
                let outcome = self.routes.update(dst.dup());
                (Some(ns), outcome)
            },
            _ => {
                self.routes.remove(dst);
                (None, UpdateOutcome::Done)
            },
        };
        proof {
            assert(self.self_view() == old(self).self_view());
            assert(self.routes_ok());
            assert(self.store_entries() == old(self).store_entries());
        }
        r
    }

    /// The decision after a value lookup: an answer refreshes the peer and
    /// hands the answer back; anything else removes the peer.
    pub fn find_value_outcome(&mut self, dst: &NodeInfo, rep: Option<Reply>) -> (r: (
        Option<FindValueResult>,
        UpdateOutcome,
    ))
        requires
            old(self).wf(),
            dst.wf(),
        ensures
            final(self).wf(),
            final(self).self_view() == old(self).self_view(),
            final(self).store_view() == old(self).store_view(),
            ({
                match rep {
                    Option::Some(Reply::FindValue(res)) => (r.0 matches Some(f) && f@ == res@)
                        && final(self).routes_model() == update_model(
                        old(self).routes_model(),
                        old(self).self_view().id,
                        dst@,
                    ),
                    _ => r.0 is None && final(self).routes_model() == remove_model(
                        old(self).routes_model(),
                        old(self).self_view().id,
                        dst@.id,
                    ) && r.1 is Done,
                }
            }),
    {
        let r = match rep {
            Some(Reply::FindValue(res)) => {
                let outcome = self.routes.update(dst.dup());
                (Some(res), outcome)
            },
            _ => {
                self.routes.remove(dst);
                (None, UpdateOutcome::Done)
            },
        };
        proof {
            assert(self.self_view() == old(self).self_view());
            assert(self.routes_ok());
            assert(self.store_entries() == old(self).store_entries());
        }
        r
    }
}

/// Looking a key up right after binding it yields the bound value: the
/// store a `Store` leaves behind binds its key to its value, and a
/// `FindValue` on such a store answers with exactly that value.
pub proof fn lemma_store_then_find(m: Map<Seq<char>, Seq<char>>, k: Seq<char>, v: Seq<char>)
    ensures
        m.insert(k, v).contains_key(k),
        m.insert(k, v)[k] == v,
{
}

/// Updating the binding at `i` in place updates the mapping.
proof fn lemma_store_map_update(e: Seq<(Seq<char>, Seq<char>)>, i: int, k: Seq<char>, v: Seq<char>)
    requires
        0 <= i < e.len(),
        e[i].0 == k,
        forall|j1: int, j2: int| 0 <= j1 < j2 < e.len() ==> e[j1].0 != e[j2].0,
    ensures
        store_map(e.update(i, (k, v))) == store_map(e).insert(k, v),
    decreases e.len(),
{
    let e2 = e.update(i, (k, v));
    if i == e.len() - 1 {
        assert(e2.drop_last() =~= e.drop_last());
        assert(store_map(e2) =~= store_map(e).insert(k, v));
    } else {
        assert(e2.drop_last() =~= e.drop_last().update(i, (k, v)));
        assert(e.drop_last()[i].0 == k);
        lemma_store_map_update(e.drop_last(), i, k, v);
        assert(e.last().0 != k);
        assert(store_map(e2) == store_map(e.drop_last()).insert(k, v).insert(
            e.last().0,
            e.last().1,
        ));
        assert(store_map(e2) =~= store_map(e).insert(k, v));
    }
}

/// The mapping binds exactly the keys that occur among the bindings.
proof fn lemma_store_map_keys(e: Seq<(Seq<char>, Seq<char>)>, k: Seq<char>)
    ensures
        store_map(e).contains_key(k) <==> exists|i: int|
            0 <= i < e.len() && (#[trigger] e[i]).0 == k,
    decreases e.len(),
{
    if e.len() > 0 {
        lemma_store_map_keys(e.drop_last(), k);
        if store_map(e).contains_key(k) {
            if e.last().0 == k {
                assert(e[e.len() - 1].0 == k);
            } else {
                let i = choose|i: int| 0 <= i < e.drop_last().len() && (#[trigger] e.drop_last()[
                    i]).0 == k;
                assert(e[i].0 == k);
            }
        }
        if exists|i: int| 0 <= i < e.len() && (#[trigger] e[i]).0 == k {
            let i = choose|i: int| 0 <= i < e.len() && (#[trigger] e[i]).0 == k;
            if i < e.len() - 1 {
                assert(e.drop_last()[i].0 == k);
            }
        }
    }
}

/// A binding found at `i` is what the mapping answers, when keys are
/// unique.
proof fn lemma_store_map_found(e: Seq<(Seq<char>, Seq<char>)>, i: int, k: Seq<char>)
    requires
        0 <= i < e.len(),
        e[i].0 == k,
        forall|j1: int, j2: int| 0 <= j1 < j2 < e.len() ==> e[j1].0 != e[j2].0,
    ensures
        store_map(e).contains_key(k),
        store_map(e)[k] == e[i].1,
    decreases e.len(),
{
    if i == e.len() - 1 {
    } else {
        assert(e.drop_last()[i] == e[i]);
        lemma_store_map_found(e.drop_last(), i, k);
        assert(e.last().0 != k);
    }
}

/// Without a binding for `k` the mapping does not answer it.
proof fn lemma_store_map_absent(e: Seq<(Seq<char>, Seq<char>)>, k: Seq<char>)
    requires
        forall|j: int| 0 <= j < e.len() ==> (#[trigger] e[j]).0 != k,
    ensures
        !store_map(e).contains_key(k),
    decreases e.len(),
{
    if e.len() > 0 {
        assert forall|j: int| 0 <= j < e.drop_last().len() implies (#[trigger] e.drop_last()[
            j]).0 != k by {
            assert(e.drop_last()[j] == e[j]);
        }
        lemma_store_map_absent(e.drop_last(), k);
        assert(e[e.len() - 1].0 != k);
    }
}

/// Whether a pair list holds this exact pair.
pub open spec fn seq_has_pair(s: Seq<(NodeView, Seq<u8>)>, p: (NodeView, Seq<u8>)) -> bool {
    exists|i: int| 0 <= i < s.len() && #[trigger] s[i] == p
}

/// Whether a pair list holds a pair with this identifier.
pub open spec fn seq_has_pair_id(s: Seq<(NodeView, Seq<u8>)>, id: Seq<u8>) -> bool {
    exists|i: int| 0 <= i < s.len() && (#[trigger] s[i]).0.id == id
}

/// What taking the `k` nearest of a list means: sorted, drawn from the
/// list, without duplicate identifiers, and no omitted entry nearer than a
/// taken one.
pub open spec fn topk_ok(src: Seq<(NodeView, Seq<u8>)>, k: int, r: Seq<(NodeView, Seq<u8>)>) -> bool {
    &&& r.len() == crate::routing::min_int(k, src.len() as int)
    &&& crate::routing::sorted_by_distance(r)
    &&& forall|i: int| 0 <= i < r.len() ==> seq_has_pair(src, #[trigger] r[i])
    &&& forall|i: int, j: int| 0 <= i < j < r.len() ==> r[i].0.id != r[j].0.id
    &&& forall|p: (NodeView, Seq<u8>), i: int|
        #![trigger seq_has_pair(src, p), r[i]]
        seq_has_pair(src, p) && 0 <= i < r.len() && !seq_has_pair_id(r, p.0.id)
            ==> crate::key::lex_le(r[i].1, p.1)
}

/// One iterative lookup in flight: the frontier of peers still to ask
/// (nearest first), every identifier ever scheduled, and the peers that
/// answered.
#[derive(Debug)]
pub struct Lookup {
    target: Key,
    to_query: Vec<NodeAndDistance>,
    known: Vec<Key>,
    responded: Vec<NodeAndDistance>,
}

impl Lookup {
    /// The identifier being looked for.
    pub closed spec fn target_view(&self) -> Seq<u8> {
        self.target@
    }

    /// The unasked frontier, nearest first.
    pub closed spec fn frontier(&self) -> Seq<(NodeView, Seq<u8>)> {
        self.to_query.deep_view()
    }

    /// Every identifier ever scheduled or seen.
    pub closed spec fn known_ids(&self) -> Seq<Seq<u8>> {
        self.known.deep_view()
    }

    /// The peers that answered, in the order they did.
    pub closed spec fn responded_view(&self) -> Seq<(NodeView, Seq<u8>)> {
        self.responded.deep_view()
    }

    /// Every pair carries the true distance to the target.
    pub open spec fn dists_ok(&self, s: Seq<(NodeView, Seq<u8>)>) -> bool {
        forall|i: int|
            0 <= i < s.len() ==> (#[trigger] s[i]).1 == xor_bytes(s[i].0.id, self.target_view())
    }

    /// The lookup invariant: well-formed pairs with true distances, a
    /// sorted frontier without duplicate identifiers all of which are
    /// known, well-formed distinct known identifiers, and distinct
    /// responders.
    pub open spec fn wf(&self) -> bool {
        &&& self.target_view().len() == KEY_LEN
        &&& crate::routing::pairs_wf(self.frontier())
        &&& self.dists_ok(self.frontier())
        &&& crate::routing::sorted_by_distance(self.frontier())
        &&& forall|i: int, j: int|
            0 <= i < j < self.frontier().len() ==> self.frontier()[i].0.id
                != self.frontier()[j].0.id
        &&& forall|i: int|
            0 <= i < self.frontier().len() ==> crate::key::has_bytes(
                self.known_ids(),
                (#[trigger] self.frontier()[i]).0.id,
            )
        &&& forall|i: int|
            0 <= i < self.known_ids().len() ==> (#[trigger] self.known_ids()[i]).len() == KEY_LEN
        &&& forall|i: int, j: int|
            0 <= i < j < self.known_ids().len() ==> self.known_ids()[i] != self.known_ids()[j]
        &&& crate::routing::pairs_wf(self.responded_view())
        &&& self.dists_ok(self.responded_view())
        &&& forall|i: int, j: int|
            0 <= i < j < self.responded_view().len() ==> self.responded_view()[i].0.id
                != self.responded_view()[j].0.id
    }

    /// A lookup seeded with the closest peers this node already knows.
    pub fn new(target: Key, seed: Vec<NodeAndDistance>) -> (r: Lookup)
        requires
            target.wf(),
            crate::routing::pairs_wf(seed.deep_view()),
            crate::routing::sorted_by_distance(seed.deep_view()),
            forall|i: int, j: int|
                0 <= i < j < seed.deep_view().len() ==> seed.deep_view()[i].0.id
                    != seed.deep_view()[j].0.id,
            forall|i: int|
                0 <= i < seed.deep_view().len() ==> (#[trigger] seed.deep_view()[i]).1
                    == xor_bytes(seed.deep_view()[i].0.id, target@),
        ensures
            r.wf(),
            r.target_view() == target@,
            r.frontier() == seed.deep_view(),
            r.known_ids().len() == seed.deep_view().len(),
            forall|i: int|
                0 <= i < seed.deep_view().len() ==> #[trigger] r.known_ids()[i]
                    == seed.deep_view()[i].0.id,
            r.responded_view() == Seq::<(NodeView, Seq<u8>)>::empty(),
    {
        let mut known: Vec<Key> = Vec::new();
        let mut i: usize = 0;
        while i < seed.len()
            invariant
                crate::routing::pairs_wf(seed.deep_view()),
                i <= seed@.len(),
                known.deep_view().len() == i,
                forall|j: int|
                    0 <= j < i ==> #[trigger] known.deep_view()[j] == seed.deep_view()[j].0.id,
            decreases seed@.len() - i,
        {
            let ghost k0 = known.deep_view();
            known.push(seed[i].0.id.dup());
            proof {
                assert(seed.deep_view()[i as int] == seed@[i as int]@);
                assert forall|j: int|
                    0 <= j < i + 1 implies #[trigger] known.deep_view()[j]
                    == seed.deep_view()[j].0.id by {
                    assert(known.deep_view()[j] == known@[j]@);
                    if j < i {
                        assert(k0[j] == known@[j]@);
                    }
                }
            }
            i = i + 1;
        }
        let r = Lookup { target, to_query: seed, known, responded: Vec::new() };
        proof {
            assert(r.responded_view() =~= Seq::<(NodeView, Seq<u8>)>::empty());
            assert forall|fi: int|
                0 <= fi < r.frontier().len() implies crate::key::has_bytes(
                r.known_ids(),
                (#[trigger] r.frontier()[fi]).0.id,
            ) by {
                assert(r.known_ids()[fi] == r.frontier()[fi].0.id);
                crate::key::lemma_index_of_bytes(r.known_ids(), r.frontier()[fi].0.id);
            }
        }
        r
    }

    /// Whether the frontier is exhausted, which ends the lookup.
    pub fn done(&self) -> (r: bool)
        ensures
            r == (self.frontier().len() == 0),
    {
        self.to_query.is_empty()
    }

    /// Pops the nearest unasked peers for one round: as many as the
    /// parallelism bound allows, fewer only when the frontier runs out.
    pub fn next_batch(&mut self) -> (r: Vec<NodeAndDistance>)
        requires
            old(self).wf(),
        ensures
            final(self).wf(),
            final(self).target_view() == old(self).target_view(),
            final(self).known_ids() == old(self).known_ids(),
            final(self).responded_view() == old(self).responded_view(),
            ({
                let n = crate::routing::min_int(A_PARAM as int, old(self).frontier().len() as int);
                &&& r.deep_view() == old(self).frontier().take(n)
                &&& final(self).frontier() == old(self).frontier().skip(n)
            }),
            crate::routing::pairs_wf(r.deep_view()),
            forall|i: int|
                0 <= i < r.deep_view().len() ==> (#[trigger] r.deep_view()[i]).1 == xor_bytes(
                    r.deep_view()[i].0.id,
                    old(self).target_view(),
                ),
            forall|i: int| 0 <= i < r@.len() ==> (#[trigger] r@[i]).wf(),
    {
        let ghost f0 = self.frontier();
        let n = if self.to_query.len() < A_PARAM {
            self.to_query.len()
        } else {
            A_PARAM
        };
        let mut r: Vec<NodeAndDistance> = Vec::new();
        let mut i: usize = 0;
        while i < n
            invariant
                old(self).wf(),
                f0 == old(self).frontier(),
                self.known_ids() == old(self).known_ids(),
                self.responded_view() == old(self).responded_view(),
                self.target_view() == old(self).target_view(),
                n <= self.to_query@.len() + i,
                n == crate::routing::min_int(A_PARAM as int, f0.len() as int),
                i <= n,
                r.deep_view() =~= f0.take(i as int),
                self.frontier() =~= f0.skip(i as int),
                forall|j: int| 0 <= j < r@.len() ==> (#[trigger] r@[j]).wf(),
            decreases n - i,
        {
            let ghost fc = self.frontier();
            let ghost rc = r.deep_view();
            let x = self.to_query.remove(0);
            proof {
                assert(x@ == fc[0]);
                assert(x@ == f0[i as int]);
                assert(x.wf());
            }
            r.push(x);
            proof {
                assert(r.deep_view() =~= rc.push(f0[i as int]));
                assert(r.deep_view() =~= f0.take(i + 1));
                assert(self.to_query.deep_view() =~= fc.remove(0));
                assert(self.frontier() =~= f0.skip(i + 1));
            }
            i = i + 1;
        }
        proof {
            let n0 = n as int;
            assert(r.deep_view() == f0.take(n0));
            assert(self.frontier() == f0.skip(n0));
            assert forall|i2: int, j2: int|
                0 <= i2 < j2 < self.frontier().len() implies self.frontier()[i2].0.id
                != self.frontier()[j2].0.id by {
                assert(self.frontier()[i2] == f0[n0 + i2]);
                assert(self.frontier()[j2] == f0[n0 + j2]);
            }
            assert forall|i2: int, j2: int|
                0 <= i2 < j2 < self.frontier().len() implies crate::key::lex_le(
                self.frontier()[i2].1,
                self.frontier()[j2].1,
            ) by {
                assert(self.frontier()[i2] == f0[n0 + i2]);
                assert(self.frontier()[j2] == f0[n0 + j2]);
            }
            assert forall|i2: int|
                0 <= i2 < self.frontier().len() implies crate::key::has_bytes(
                self.known_ids(),
                (#[trigger] self.frontier()[i2]).0.id,
            ) by {
                assert(self.frontier()[i2] == f0[n0 + i2]);
            }
            assert forall|i2: int|
                0 <= i2 < self.frontier().len() implies (#[trigger] self.frontier()[i2]).0.wf()
                && self.frontier()[i2].1.len() == KEY_LEN && self.frontier()[i2].1 == xor_bytes(
                self.frontier()[i2].0.id,
                self.target_view(),
            ) by {
                assert(self.frontier()[i2] == f0[n0 + i2]);
            }
            assert forall|i2: int|
                0 <= i2 < r.deep_view().len() implies (#[trigger] r.deep_view()[i2]).1
                == xor_bytes(r.deep_view()[i2].0.id, old(self).target_view()) && r.deep_view()[
                i2].0.wf() && r.deep_view()[i2].1.len() == KEY_LEN by {
                assert(r.deep_view()[i2] == f0[i2]);
            }
        }
        r
    }
}

/// Inserting into a list adds exactly that pair to its members.
proof fn lemma_insert_membership(s: Seq<(NodeView, Seq<u8>)>, pos: int, p: (NodeView, Seq<u8>))
    requires
        0 <= pos <= s.len(),
    ensures
        forall|q: (NodeView, Seq<u8>)|
            #[trigger] seq_has_pair(s.insert(pos, p), q) <==> (seq_has_pair(s, q) || q == p),
{
    s.insert_ensures(pos, p);
    assert forall|q: (NodeView, Seq<u8>)|
        #[trigger] seq_has_pair(s.insert(pos, p), q) implies (seq_has_pair(s, q) || q == p) by {
        let i = choose|i: int| 0 <= i < s.insert(pos, p).len() && s.insert(pos, p)[i] == q;
        if i < pos {
            assert(s[i] == q);
        } else if i > pos {
            assert(s[i - 1] == q);
        }
    }
    assert forall|q: (NodeView, Seq<u8>)|
        (seq_has_pair(s, q) || q == p) implies #[trigger] seq_has_pair(s.insert(pos, p), q) by {
        if q == p {
            assert(s.insert(pos, p)[pos] == q);
        } else {
            let i = choose|i: int| 0 <= i < s.len() && s[i] == q;
            if i < pos {
                assert(s.insert(pos, p)[i] == q);
            } else {
                assert(s.insert(pos, p)[i + 1] == q);
            }
        }
    }
}

/// Inserts a pair into a distance-sorted list, keeping it sorted.
fn insert_sorted(v: &mut Vec<NodeAndDistance>, p: NodeAndDistance)
    requires
        crate::routing::pairs_wf(old(v).deep_view()),
        crate::routing::sorted_by_distance(old(v).deep_view()),
        p.wf(),
    ensures
        exists|pos: int|
            0 <= pos <= old(v).deep_view().len() && final(v).deep_view() == old(
                v,
            ).deep_view().insert(pos, p@),
        crate::routing::sorted_by_distance(final(v).deep_view()),
        crate::routing::pairs_wf(final(v).deep_view()),
{
    let ghost f0 = v.deep_view();
    proof {
        assert forall|j: int| 0 <= j < v@.len() implies (#[trigger] v@[j]).wf() by {
            assert(f0[j] == v@[j]@);
        }
    }
    let mut i: usize = 0;
    while i < v.len() && v[i].1.le(&p.1)
        invariant
            crate::routing::pairs_wf(f0),
            crate::routing::sorted_by_distance(f0),
            p.wf(),
            f0 == v.deep_view(),
            forall|j: int| 0 <= j < v@.len() ==> (#[trigger] v@[j]).wf(),
            i <= v@.len(),
            forall|j: int| 0 <= j < i ==> crate::key::lex_le((#[trigger] f0[j]).1, p@.1),
        decreases v@.len() - i,
    {
        proof {
            assert(f0[i as int] == v@[i as int]@);
        }
        i = i + 1;
    }
    proof {
        if (i as int) < f0.len() {
            assert(f0[i as int] == v@[i as int]@);
            crate::key::lemma_lex_le_total(f0[i as int].1, p@.1);
        }
    }
    v.insert(i, p);
    proof {
        assert(v.deep_view() =~= f0.insert(i as int, p@));
        f0.insert_ensures(i as int, p@);
        let f1 = v.deep_view();
        let pos = i as int;
        assert forall|a: int, b: int|
            0 <= a < b < f1.len() implies crate::key::lex_le(f1[a].1, f1[b].1) by {
            if a == pos {
                assert(f1[a] == p@);
                assert(f1[b] == f0[b - 1]);
                assert(pos < f0.len());
                crate::key::lemma_lex_le_total(f0[pos].1, p@.1);
                if b - 1 > pos {
                    crate::key::lemma_lex_le_trans(p@.1, f0[pos].1, f0[b - 1].1);
                }
            } else if b == pos {
                assert(f1[a] == f0[a]);
                assert(f1[b] == p@);
            } else {
                let a2: int = if a < pos {
                    a
                } else {
                    a - 1
                };
                let b2: int = if b < pos {
                    b
                } else {
                    b - 1
                };
                assert(f1[a] == f0[a2]);
                assert(f1[b] == f0[b2]);
                if a2 == b2 {
                    crate::key::lemma_lex_le_refl(f0[a2].1);
                }
            }
        }
    }
}

impl Lookup {
    /// Records one round's answer from a queried peer: the peer joins the
    /// responders (once), and every peer it returned that was never seen
    /// before is scheduled on the frontier at its true distance.
    pub fn absorb(&mut self, query: &NodeAndDistance, entries: &Vec<NodeAndDistance>)
        requires
            old(self).wf(),
            query.wf(),
            query@.1 == xor_bytes(query@.0.id, old(self).target_view()),
            forall|i: int| 0 <= i < entries@.len() ==> (#[trigger] entries@[i]).wf(),
        ensures
            final(self).wf(),
            final(self).target_view() == old(self).target_view(),
            ({
                if seq_has_pair_id(old(self).responded_view(), query@.0.id) {
                    final(self).responded_view() == old(self).responded_view()
                } else {
                    final(self).responded_view() == old(self).responded_view().push(query@)
                }
            }),
            forall|id: Seq<u8>|
                #[trigger] crate::key::has_bytes(final(self).known_ids(), id) <==> (
                crate::key::has_bytes(old(self).known_ids(), id) || seq_has_pair_id(
                    entries.deep_view(),
                    id,
                )),
            forall|fi: int|
                0 <= fi < final(self).frontier().len() ==> (seq_has_pair(
                    old(self).frontier(),
                    #[trigger] final(self).frontier()[fi],
                ) || (!crate::key::has_bytes(
                    old(self).known_ids(),
                    final(self).frontier()[fi].0.id,
                ) && seq_has_pair_id(entries.deep_view(), final(self).frontier()[fi].0.id))),
            forall|fi: int|
                0 <= fi < old(self).frontier().len() ==> seq_has_pair(
                    final(self).frontier(),
                    #[trigger] old(self).frontier()[fi],
                ),
    {
        match find_pair_id(&self.responded, &query.0.id) {
            Some(_) => {},
            None => {
                let ghost r0 = self.responded_view();
                self.responded.push(query.dup());
                proof {
                    assert(self.responded_view() =~= r0.push(query@));
                    assert forall|i: int, j: int|
                        0 <= i < j < self.responded_view().len() implies self.responded_view()[
                        i].0.id != self.responded_view()[j].0.id by {
                        if j < r0.len() {
                            assert(self.responded_view()[i] == r0[i]);
                            assert(self.responded_view()[j] == r0[j]);
                        } else {
                            assert(self.responded_view()[i] == r0[i]);
                            assert(!seq_has_pair_id(r0, query@.0.id));
                        }
                    }
                    assert forall|i: int|
                        0 <= i < self.responded_view().len() implies ((
                        #[trigger] self.responded_view()[i]).0.wf() && self.responded_view()[
                        i].1.len() == KEY_LEN && self.responded_view()[i].1 == xor_bytes(
                            self.responded_view()[i].0.id,
                            self.target_view(),
                        )) by {
                        if i < r0.len() {
                            assert(self.responded_view()[i] == r0[i]);
                        } else {
                            assert(self.responded_view()[i] == query@);
                        }
                    }
                }
            },
        }
        let ghost r1 = self.responded_view();
        let ghost k0 = self.known_ids();
        let ghost f0 = self.frontier();
        let mut e: usize = 0;
        while e < entries.len()
            invariant
                old(self).wf(),
                k0 == old(self).known_ids(),
                f0 == old(self).frontier(),
                forall|i: int| 0 <= i < entries@.len() ==> (#[trigger] entries@[i]).wf(),
                e <= entries@.len(),
                self.wf(),
                self.target_view() == old(self).target_view(),
                self.responded_view() == r1,
                forall|id: Seq<u8>|
                    #[trigger] crate::key::has_bytes(self.known_ids(), id) <==> (
                    crate::key::has_bytes(k0, id) || exists|e2: int|
                        0 <= e2 < e && (#[trigger] entries.deep_view()[e2]).0.id == id),
                forall|fi: int|
                    0 <= fi < self.frontier().len() ==> (seq_has_pair(
                        f0,
                        #[trigger] self.frontier()[fi],
                    ) || (!crate::key::has_bytes(k0, self.frontier()[fi].0.id) && exists|e2: int|
                        0 <= e2 < e && (#[trigger] entries.deep_view()[e2]).0.id
                            == self.frontier()[fi].0.id)),
                forall|fi: int|
                    0 <= fi < f0.len() ==> seq_has_pair(self.frontier(), #[trigger] f0[fi]),
            decreases entries@.len() - e,
        {
            let ghost kc = self.known_ids();
            let ghost fc = self.frontier();
            proof {
                assert(entries.deep_view()[e as int] == entries@[e as int]@);
            }
            match find_id_in_keys(&self.known, &entries[e].0.id) {
                Some(_) => {
                    proof {
                        crate::key::lemma_has_bytes_iff(kc, entries.deep_view()[e as int].0.id);
                    }
                },
                None => {
                    proof {
                        crate::key::lemma_has_bytes_iff(kc, entries.deep_view()[e as int].0.id);
                    }
                    self.known.push(entries[e].0.id.dup());
                    let d = entries[e].0.id.dist(&self.target);
                    let pair = NodeAndDistance(entries[e].0.dup(), d);
                    proof {
                        assert(self.known_ids() =~= kc.push(entries.deep_view()[e as int].0.id));
                        assert forall|i: int, j: int|
                            0 <= i < j < self.known_ids().len() implies self.known_ids()[i]
                            != self.known_ids()[j] by {
                            if j < kc.len() {
                                assert(self.known_ids()[i] == kc[i]);
                                assert(self.known_ids()[j] == kc[j]);
                            } else {
                                assert(self.known_ids()[i] == kc[i]);
                                crate::key::lemma_has_bytes_iff(
                                    kc,
                                    entries.deep_view()[e as int].0.id,
                                );
                            }
                        }
                        assert forall|id: Seq<u8>|
                            #[trigger] crate::key::has_bytes(self.known_ids(), id) <==> (
                            crate::key::has_bytes(kc, id) || id == entries.deep_view()[
                            e as int].0.id) by {
                            crate::key::lemma_has_bytes_iff(self.known_ids(), id);
                            crate::key::lemma_has_bytes_iff(kc, id);
                            if crate::key::has_bytes(self.known_ids(), id) {
                                let i = choose|i: int|
                                    0 <= i < self.known_ids().len() && self.known_ids()[i] == id;
                                if i < kc.len() {
                                    assert(kc[i] == id);
                                }
                            }
                            if crate::key::has_bytes(kc, id) {
                                let i = choose|i: int| 0 <= i < kc.len() && kc[i] == id;
                                assert(self.known_ids()[i] == id);
                            }
                            if id == entries.deep_view()[e as int].0.id {
                                assert(self.known_ids()[kc.len() as int] == id);
                            }
                        }
                    }
                    let ghost fpre = self.frontier();
                    insert_sorted(&mut self.to_query, pair);
                    proof {
                        let pos = choose|pos: int|
                            0 <= pos <= fpre.len() && self.frontier() == fpre.insert(
                                pos,
                                (entries.deep_view()[e as int].0, xor_bytes(
                                    entries.deep_view()[e as int].0.id,
                                    self.target_view(),
                                )),
                            );
                        lemma_insert_membership(
                            fpre,
                            pos,
                            (entries.deep_view()[e as int].0, xor_bytes(
                                entries.deep_view()[e as int].0.id,
                                self.target_view(),
                            )),
                        );
                        fpre.insert_ensures(
                            pos,
                            (entries.deep_view()[e as int].0, xor_bytes(
                                entries.deep_view()[e as int].0.id,
                                self.target_view(),
                            )),
                        );
                        assert forall|i: int, j: int|
                            0 <= i < j < self.frontier().len() implies self.frontier()[i].0.id
                            != self.frontier()[j].0.id by {
                            let qi = self.frontier()[i];
                            let qj = self.frontier()[j];
                            if i != pos && j != pos {
                                let i2: int = if i < pos {
                                    i
                                } else {
                                    i - 1
                                };
                                let j2: int = if j < pos {
                                    j
                                } else {
                                    j - 1
                                };
                                assert(qi == fpre[i2]);
                                assert(qj == fpre[j2]);
                            } else if i == pos {
                                let j2: int = if j < pos {
                                    j
                                } else {
                                    j - 1
                                };
                                assert(qj == fpre[j2]);
                                assert(crate::key::has_bytes(kc, fpre[j2].0.id));
                            } else {
                                let i2: int = if i < pos {
                                    i
                                } else {
                                    i - 1
                                };
                                assert(qi == fpre[i2]);
                                assert(crate::key::has_bytes(kc, fpre[i2].0.id));
                            }
                        }
                        assert forall|fi: int|
                            0 <= fi < self.frontier().len() implies crate::key::has_bytes(
                            self.known_ids(),
                            (#[trigger] self.frontier()[fi]).0.id,
                        ) by {
                            if fi != pos {
                                let fi2: int = if fi < pos {
                                    fi
                                } else {
                                    fi - 1
                                };
                                assert(self.frontier()[fi] == fpre[fi2]);
                                crate::key::lemma_has_bytes_iff(kc, fpre[fi2].0.id);
                                crate::key::lemma_has_bytes_iff(
                                    self.known_ids(),
                                    fpre[fi2].0.id,
                                );
                            } else {
                                crate::key::lemma_has_bytes_iff(
                                    self.known_ids(),
                                    self.frontier()[fi].0.id,
                                );
                                assert(self.known_ids()[kc.len() as int] == self.frontier()[
                                fi].0.id);
                            }
                        }
                        assert forall|fi: int|
                            0 <= fi < f0.len() implies seq_has_pair(
                            self.frontier(),
                            #[trigger] f0[fi],
                        ) by {
                            assert(seq_has_pair(fpre, f0[fi]));
                        }
                    }
                },
            }
            e = e + 1;
        }
    }

    /// The lookup's result: the responders sorted by distance, cut to the
    /// replication factor.
    pub fn finish(self) -> (r: Vec<NodeAndDistance>)
        requires
            self.wf(),
        ensures
            topk_ok(self.responded_view(), K_PARAM as int, r.deep_view()),
            forall|i: int| 0 <= i < r@.len() ==> (#[trigger] r@[i]).wf(),
            forall|i: int|
                0 <= i < r.deep_view().len() ==> (#[trigger] r.deep_view()[i]).1 == xor_bytes(
                    r.deep_view()[i].0.id,
                    self.target_view(),
                ),
    {
        let ghost src = self.responded_view();
        let sorted = sort_by_distance(self.responded);
        let mut r = sorted;
        r.truncate(K_PARAM);
        proof {
            let sd = sorted.deep_view();
            let rd = r.deep_view();
            if K_PARAM as int <= sd.len() {
                assert(rd =~= sd.subrange(0, K_PARAM as int));
            } else {
                assert(rd =~= sd);
            }
            assert forall|i: int| 0 <= i < rd.len() implies seq_has_pair(
                src,
                #[trigger] rd[i],
            ) by {
                assert(rd[i] == sd[i]);
                crate::routing::lemma_multiset_index(sd, src, i);
            }
            assert forall|i: int, j: int| 0 <= i < j < rd.len() implies rd[i].0.id
                != rd[j].0.id by {
                assert(rd[i] == sd[i]);
                assert(rd[j] == sd[j]);
                crate::routing::lemma_col_distinct_transfer(sd, src, i, j);
            }
            assert forall|p: (NodeView, Seq<u8>), i: int|
                #![trigger seq_has_pair(src, p), rd[i]]
                seq_has_pair(src, p) && 0 <= i < rd.len() && !seq_has_pair_id(
                rd,
                p.0.id,
            ) implies crate::key::lex_le(rd[i].1, p.1) by {
                let ci = choose|ci: int| 0 <= ci < src.len() && src[ci] == p;
                crate::routing::lemma_multiset_index(src, sd, ci);
                let k = choose|k: int| 0 <= k < sd.len() && #[trigger] sd[k] == src[ci];
                if k < rd.len() {
                    assert(rd[k] == sd[k]);
                    assert(rd[k].0.id == p.0.id);
                    assert(seq_has_pair_id(rd, p.0.id));
                }
                assert(rd[i] == sd[i]);
                assert(crate::key::lex_le(sd[i].1, sd[k].1));
            }
            assert forall|i: int|
                0 <= i < rd.len() implies (#[trigger] rd[i]).1 == xor_bytes(
                rd[i].0.id,
                self.target_view(),
            ) by {
                assert(rd[i] == sd[i]);
                crate::routing::lemma_multiset_index(sd, src, i);
                let ci = choose|ci2: int| 0 <= ci2 < src.len() && #[trigger] src[ci2] == sd[i];
                assert(src[ci].1 == xor_bytes(src[ci].0.id, self.target_view()));
            }
            assert forall|i: int| 0 <= i < r@.len() implies (#[trigger] r@[i]).wf() by {
                assert(r@[i]@ == rd[i]);
                assert(rd[i] == sd[i]);
                assert(sd[i].0.wf() && sd[i].1.len() == KEY_LEN);
            }
        }
        r
    }
}

/// Position of a pair with this identifier among the responders.
fn find_pair_id(v: &Vec<NodeAndDistance>, id: &Key) -> (r: Option<usize>)
    ensures
        r is Some <==> seq_has_pair_id(v.deep_view(), id@),
{
    let mut i: usize = 0;
    while i < v.len()
        invariant
            i <= v@.len(),
            forall|j: int| 0 <= j < i ==> (#[trigger] v.deep_view()[j]).0.id != id@,
        decreases v@.len() - i,
    {
        if v[i].0.id.equals(id) {
            proof {
                assert(v.deep_view()[i as int] == v@[i as int]@);
            }
            return Some(i);
        }
        proof {
            assert(v.deep_view()[i as int] == v@[i as int]@);
        }
        i = i + 1;
    }
    None
}

/// Position of an identifier among the known ones.
fn find_id_in_keys(v: &Vec<Key>, id: &Key) -> (r: Option<usize>)
    ensures
        r is Some <==> exists|i: int| 0 <= i < v.deep_view().len() && #[trigger] v.deep_view()[i]
            == id@,
{
    let mut i: usize = 0;
    while i < v.len()
        invariant
            i <= v@.len(),
            forall|j: int| 0 <= j < i ==> #[trigger] v.deep_view()[j] != id@,
        decreases v@.len() - i,
    {
        if v[i].equals(id) {
            proof {
                assert(v.deep_view()[i as int] == v@[i as int]@);
            }
            return Some(i);
        }
        proof {
            assert(v.deep_view()[i as int] == v@[i as int]@);
        }
        i = i + 1;
    }
    None
}

/// Where a cached copy of a found value goes: the closest responder that
/// did not hold it, the head of the sorted responder list.
pub fn cache_target(nodes: &Vec<NodeAndDistance>) -> (r: Option<NodeInfo>)
    ensures
        nodes@.len() == 0 ==> r is None,
        nodes@.len() > 0 ==> (r matches Some(n) && n@ == nodes.deep_view()[0].0),
{
    if nodes.len() == 0 {
        None
    } else {
        proof {
            assert(nodes.deep_view()[0] == nodes@[0]@);
        }
        Some(nodes[0].0.dup())
    }
}

} // verus!
