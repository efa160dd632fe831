//! The request/reply transport state: the table of outstanding correlation
//! tokens, fresh-token allocation, and the receiver's decision for each
//! inbound datagram. The sockets, threads and timers that carry these
//! decisions live outside the library; everything decided here is verified.
use vstd::prelude::*;

use crate::codec::{decode, spec_decode, u64_be};
use crate::key::Key;
use crate::message::{
    Message, MessageView, Reply, ReplyView, Request, RequestView, RpcMessage, RpcMessageView,
};
use crate::routing::{NodeInfo, NodeView};
use crate::KEY_LEN;

verus! {

/// Index of the first outstanding token equal to `t`, or `-1`.
pub open spec fn token_index(s: Seq<Seq<u8>>, t: Seq<u8>) -> int {
    crate::key::index_of_bytes(s, t)
}

/// Whether a token is outstanding.
pub open spec fn has_token(s: Seq<Seq<u8>>, t: Seq<u8>) -> bool {
    crate::key::has_bytes(s, t)
}

/// The table after settling a token: its first occurrence is gone; without
/// it the table is unchanged.
pub open spec fn remove_token(s: Seq<Seq<u8>>, t: Seq<u8>) -> Seq<Seq<u8>> {
    crate::key::remove_bytes(s, t)
}

/// A bounded family of distinct identifiers cannot all sit in a shorter
/// table.
proof fn lemma_pigeonhole(hits: Seq<int>, n: int)
    requires
        n >= 0,
        hits.no_duplicates(),
        forall|k: int| 0 <= k < hits.len() ==> 0 <= #[trigger] hits[k] < n,
    ensures
        hits.len() <= n,
{
    broadcast use vstd::set::group_set_axioms;

    hits.unique_seq_to_set();
    assert(hits.to_set().subset_of(vstd::set_lib::set_int_range(0, n))) by {
        assert forall|x: int| hits.to_set().contains(x) implies vstd::set_lib::set_int_range(
            0,
            n,
        ).contains(x) by {
            assert(hits.contains(x));
            let k = choose|k: int| 0 <= k < hits.len() && hits[k] == x;
            assert(0 <= hits[k] < n);
        }
    }
    vstd::set_lib::lemma_int_range(0, n);
    vstd::set_lib::lemma_len_subset(hits.to_set(), vstd::set_lib::set_int_range(0, n));
}

/// The candidate token for one retry: a counter stamped over the first
/// bytes of a random base identifier.
pub open spec fn candidate_view(base: Seq<u8>, a: u64) -> Seq<u8> {
    u64_be(a) + base.skip(8)
}

/// Distinct counters give distinct candidates.
proof fn lemma_candidate_inj(base: Seq<u8>, a1: u64, a2: u64)
    requires
        base.len() == KEY_LEN,
        candidate_view(base, a1) == candidate_view(base, a2),
    ensures
        a1 == a2,
{
    crate::codec::lemma_u64_round(a1);
    crate::codec::lemma_u64_round(a2);
    let c1 = candidate_view(base, a1);
    let c2 = candidate_view(base, a2);
    assert forall|i: int| 0 <= i < 8 implies u64_be(a1)[i] == u64_be(a2)[i] by {
        assert(c1[i] == u64_be(a1)[i]);
        assert(c2[i] == u64_be(a2)[i]);
    }
    assert(crate::codec::u64_from(u64_be(a1), 0) == crate::codec::u64_from(u64_be(a2), 0));
}

/// Why an inbound datagram was dropped.
#[derive(Debug)]
pub enum DropReason {
    /// It did not decode to an envelope.
    DecodeError,
    /// Its source belongs to another logical network.
    NetworkMismatch,
    /// Its destination identifier is not this node.
    Misrouted,
    /// A reply whose token no pending request holds.
    UnsolicitedReply,
}

/// An inbound request together with what is needed to answer it: the
/// original correlation token and the source descriptor.
#[derive(Debug)]
pub struct ReqHandle {
    token: Key,
    src: NodeInfo,
    req: Request,
}

impl ReqHandle {
    /// The correlation token the reply must echo.
    pub closed spec fn token_view(&self) -> Seq<u8> {
        self.token@
    }

    /// The request's source, with its address as observed.
    pub closed spec fn src_view(&self) -> NodeView {
        self.src@
    }

    /// The request itself.
    pub closed spec fn req_view(&self) -> RequestView {
        self.req@
    }

    /// All identifiers in the handle are full-width.
    pub open spec fn wf(&self) -> bool {
        self.token_view().len() == KEY_LEN && self.src_view().wf() && self.req_view().wf()
    }

    /// The request to serve.
    pub fn get_req(&self) -> (r: &Request)
        ensures
            r@ == self.req_view(),
    {
        &self.req
    }

    /// The peer that sent the request.
    pub fn get_src(&self) -> (r: &NodeInfo)
        ensures
            r@ == self.src_view(),
    {
        &self.src
    }

    /// The reply envelope: the original token, source and destination
    /// swapped. Consumes the handle, so each request is answered at most
    /// once.
    pub fn rep(self, rep: Reply, self_info: &NodeInfo) -> (r: RpcMessage)
        requires
            self.wf(),
            self_info.wf(),
            crate::codec::reply_exec_wf(&rep),
        ensures
            r@.token == self.token_view(),
            r@.src == self_info@,
            r@.dst == self.src_view(),
            r@.msg == MessageView::Reply(rep@),
            r@.wf(),
            crate::codec::rpc_exec_wf(&r),
    {
        RpcMessage {
            token: self.token,
            src: self_info.dup(),
            dst: self.src,
            msg: Message::Reply(rep),
        }
    }
}

/// What the receiver does with one inbound datagram.
#[derive(Debug)]
pub enum RecvAction {
    /// Dropped, for the given reason.
    Drop(DropReason),
    /// Shut the receiver down.
    Kill,
    /// Hand the request over, with the means to reply.
    Request(ReqHandle),
    /// Deliver the reply to whoever waits on this token.
    Reply(Key, Reply),
}

/// The transport's verified state: who this node is, and which correlation
/// tokens still wait for a reply.
#[derive(Debug)]
pub struct Rpc {
    node_info: NodeInfo,
    pending: Vec<Key>,
}

impl Rpc {
    /// The outstanding tokens, oldest first.
    pub closed spec fn pending_view(&self) -> Seq<Seq<u8>> {
        self.pending.deep_view()
    }

    /// The owning node's descriptor.
    pub closed spec fn self_view(&self) -> NodeView {
        self.node_info@
    }

    /// The transport invariant: a well-formed owner, full-width tokens, no
    /// token outstanding twice.
    pub open spec fn wf(&self) -> bool {
        &&& self.self_view().wf()
        &&& forall|i: int|
            0 <= i < self.pending_view().len() ==> (#[trigger] self.pending_view()[i]).len()
                == KEY_LEN
        &&& forall|i: int, j: int|
            0 <= i < j < self.pending_view().len() ==> self.pending_view()[i]
                != self.pending_view()[j]
    }

    /// A transport for this node, with nothing outstanding.
    pub fn open(node_info: NodeInfo) -> (r: Rpc)
        requires
            node_info.wf(),
        ensures
            r.wf(),
            r.self_view() == node_info@,
            r.pending_view() == Seq::<Seq<u8>>::empty(),
    {
        let r = Rpc { node_info, pending: Vec::new() };
        proof {
            assert(r.pending_view() =~= Seq::<Seq<u8>>::empty());
        }
        r
    }

    /// The owning node's descriptor.
    pub fn node_info(&self) -> (r: &NodeInfo)
        ensures
            r@ == self.self_view(),
    {
        &self.node_info
    }

    /// Position of a token in the pending table.
    fn find_token(&self, t: &Key) -> (r: Option<usize>)
        ensures
            r matches Some(i) ==> i < self.pending_view().len() && token_index(
                self.pending_view(),
                t@,
            ) == i,
            r is None ==> token_index(self.pending_view(), t@) == -1,
    {
        let mut j: usize = 0;
        while j < self.pending.len()
            invariant
                j <= self.pending_view().len(),
                self.pending_view().len() == self.pending@.len(),
                forall|j2: int| 0 <= j2 < j ==> self.pending_view()[j2] != t@,
            decreases self.pending@.len() - j,
        {
            if self.pending[j].equals(t) {
                proof {
                    assert(self.pending_view()[j as int] == t@);
                    crate::key::lemma_index_of_bytes_first(self.pending_view(), t@, j as int);
                }
                return Some(j);
            }
            proof {
                assert(self.pending_view()[j as int] == self.pending@[j as int]@);
            }
            j = j + 1;
        }
        proof {
            crate::key::lemma_index_of_bytes_first(self.pending_view(), t@, self.pending@.len() as int);
        }
        None
    }

    /// Builds the request envelope for `dst`: draws a token that collides
    /// with no outstanding one, registers it, and stamps this node as the
    /// source. The caller sends the envelope and waits on the token.
    pub fn send_req(&mut self, req: Request, dst: NodeInfo) -> (r: RpcMessage)
        requires
            old(self).wf(),
            dst.wf(),
            req@.wf(),
        ensures
            final(self).wf(),
            final(self).self_view() == old(self).self_view(),
            !has_token(old(self).pending_view(), r@.token),
            final(self).pending_view() == old(self).pending_view().push(r@.token),
            r@.token.len() == KEY_LEN,
            r@.src == old(self).self_view(),
            r@.dst == dst@,
            r@.msg == MessageView::Request(req@),
            r@.wf(),
            crate::codec::rpc_exec_wf(&r),
    {
        // tokens are drawn uniformly; a collision with an outstanding one is
        // rejected and the draw repeated
        let mut tok: Option<Key> = None;
        let mut tries: usize = 0;
        while tries < 32 && tok.is_none()
            invariant
                self.wf(),
                tries <= 32,
                tok matches Some(t) ==> t.wf() && !has_token(self.pending_view(), t@),
            decreases 32 - tries, (if tok is None {
                1int
            } else {
                0int
            }),
        {
            let cand = Key::random();
            match self.find_token(&cand) {
                Some(_) => {
                    tries = tries + 1;
                },
                None => {
                    proof {
                        crate::key::lemma_index_of_bytes(self.pending_view(), cand@);
                    }
                    tok = Some(cand);
                },
            }
        }
        // should random draws somehow keep colliding, a counter stamped over
        // a fresh base is guaranteed to leave the outstanding set within
        // one pass (there are more candidates than outstanding tokens)
        let base = Key::random();
        let n = self.pending.len();
        let mut a: u64 = 0;
        let ghost mut hits: Seq<int> = Seq::empty();
        while a <= n as u64 && tok.is_none()
            invariant
                self.wf(),
                base.wf(),
                n == self.pending_view().len(),
                a <= n as u64,
                tok is None ==> hits.len() == a,
                tok is None ==> forall|k: int|
                    0 <= k < a ==> 0 <= #[trigger] hits[k] < n && self.pending_view()[hits[k]]
                        == candidate_view(base@, k as u64),
                tok matches Some(t) ==> t.wf() && !has_token(self.pending_view(), t@),
            decreases n as u64 - a, (if tok is None { 1int } else { 0int }),
        {
            let cand = candidate_token(&base, a);
            match self.find_token(&cand) {
                Some(idx) => {
                    proof {
                        crate::key::lemma_index_of_bytes(self.pending_view(), cand@);
                        hits = hits.push(idx as int);
                    }
                    if a == n as u64 {
                        proof {
                            assert(hits.len() == n + 1);
                            assert(hits.no_duplicates()) by {
                                assert forall|k1: int, k2: int|
                                    0 <= k1 < hits.len() && 0 <= k2 < hits.len() && k1
                                    != k2 implies hits[k1] != hits[k2] by {
                                    if hits[k1] == hits[k2] {
                                        assert(self.pending_view()[hits[k1]] == candidate_view(
                                            base@,
                                            k1 as u64,
                                        ));
                                        assert(self.pending_view()[hits[k2]] == candidate_view(
                                            base@,
                                            k2 as u64,
                                        ));
                                        lemma_candidate_inj(base@, k1 as u64, k2 as u64);
                                    }
                                }
                            }
                            lemma_pigeonhole(hits, n as int);
                            assert(false);
                        }
                        tok = Some(cand);
                    } else {
                        a = a + 1;
                    }
                },
                None => {
                    proof {
                        crate::key::lemma_index_of_bytes(self.pending_view(), cand@);
                    }
                    tok = Some(cand);
                },
            }
        }
        let token = match tok {
            Some(t) => t,
            // never reached: the stamped pass above always finds a free
            // candidate, as its final contradiction shows
            None => Key::random(),
        };
        let ghost p0 = self.pending_view();
        self.pending.push(token.dup());
        proof {
            assert(self.pending_view() =~= p0.push(token@));
            crate::key::lemma_index_of_bytes(p0, token@);
            assert forall|i: int, j: int|
                0 <= i < j < self.pending_view().len() implies self.pending_view()[i]
                != self.pending_view()[j] by {
                if j == p0.len() as int {
                    assert(self.pending_view()[i] == p0[i]);
                }
            }
        }
        RpcMessage {
            token,
            src: self.node_info.dup(),
            dst,
            msg: Message::Request(req),
        }
    }

    /// The receiver's decision for one inbound datagram, exactly as the
    /// protocol prescribes: decode it, overwrite the claimed source address
    /// with the observed one, drop cross-network or misrouted traffic, stop
    /// on a kill order, hand requests over, and deliver replies that match
    /// an outstanding token (settling the token).
    pub fn process_datagram(&mut self, buf: &Vec<u8>, observed_addr: String) -> (r: RecvAction)
        requires
            old(self).wf(),
        ensures
            final(self).wf(),
            final(self).self_view() == old(self).self_view(),
            ({
                let me = old(self).self_view();
                let p0 = old(self).pending_view();
                match spec_decode(buf@) {
                    Option::None => (r matches RecvAction::Drop(DropReason::DecodeError))
                        && final(self).pending_view() == p0,
                    Option::Some(m) => {
                        let src2 = NodeView { addr: observed_addr@, ..m.src };
                        if m.src.net_id != me.net_id {
                            (r matches RecvAction::Drop(DropReason::NetworkMismatch))
                                && final(self).pending_view() == p0
                        } else if m.dst.id != me.id {
                            (r matches RecvAction::Drop(DropReason::Misrouted))
                                && final(self).pending_view() == p0
                        } else {
                            match m.msg {
                                MessageView::Kill => (r is Kill) && final(self).pending_view()
                                    == p0,
                                MessageView::Request(req) => (r matches RecvAction::Request(h)
                                    && h.token_view() == m.token && h.src_view() == src2
                                    && h.req_view() == req && h.wf())
                                    && final(self).pending_view() == p0,
                                MessageView::Reply(rep) => {
                                    if has_token(p0, m.token) {
                                        (r matches RecvAction::Reply(t, rp) && t@ == m.token
                                            && rp@ == rep && crate::codec::reply_exec_wf(&rp))
                                            && final(self).pending_view() == remove_token(
                                            p0,
                                            m.token,
                                        )
                                    } else {
                                        (r matches RecvAction::Drop(
                                            DropReason::UnsolicitedReply,
                                        )) && final(self).pending_view() == p0
                                    }
                                },
                            }
                        }
                    },
                }
            }),
    {
        let decoded = decode(buf);
        match decoded {
            None => RecvAction::Drop(DropReason::DecodeError),
            Some(mut m) => {
                m.src.addr = observed_addr;
                if !(m.src.net_id == self.node_info.net_id) {
                    return RecvAction::Drop(DropReason::NetworkMismatch);
                }
                if !m.dst.id.equals(&self.node_info.id) {
                    return RecvAction::Drop(DropReason::Misrouted);
                }
                match m.msg {
                    Message::Kill => RecvAction::Kill,
                    Message::Request(req) => RecvAction::Request(
                        ReqHandle { token: m.token, src: m.src, req },
                    ),
                    Message::Reply(rep) => {
                        match self.find_token(&m.token) {
                            Some(idx) => {
                                let ghost p0 = self.pending_view();
                                let _ = self.pending.remove(idx);
                                proof {
                                    assert(self.pending_view() =~= p0.remove(idx as int));
                                    crate::key::lemma_index_of_bytes(p0, m.token@);
                                    p0.remove_ensures(idx as int);
                                    assert forall|i: int, j: int|
                                        0 <= i < j < self.pending_view().len() implies self.pending_view()[i]
                                        != self.pending_view()[j] by {}
                                }
                                RecvAction::Reply(m.token, rep)
                            },
                            None => {
                                proof {
                                    crate::key::lemma_index_of_bytes(self.pending_view(), m.token@);
                                }
                                RecvAction::Drop(DropReason::UnsolicitedReply)
                            },
                        }
                    },
                }
            },
        }
    }

    /// Settles a token whose timeout fired: removes it if still
    /// outstanding, and says whether it was.
    pub fn on_timeout(&mut self, token: &Key) -> (r: bool)
        requires
            old(self).wf(),
        ensures
            final(self).wf(),
            final(self).self_view() == old(self).self_view(),
            r == has_token(old(self).pending_view(), token@),
            final(self).pending_view() == remove_token(old(self).pending_view(), token@),
    {
        match self.find_token(token) {
            Some(idx) => {
                let ghost p0 = self.pending_view();
                let _ = self.pending.remove(idx);
                proof {
                    assert(self.pending_view() =~= p0.remove(idx as int));
                    crate::key::lemma_index_of_bytes(p0, token@);
                    p0.remove_ensures(idx as int);
                    assert forall|i: int, j: int|
                        0 <= i < j < self.pending_view().len() implies self.pending_view()[i]
                        != self.pending_view()[j] by {}
                }
                true
            },
            None => false,
        }
    }
}

/// The candidate token for one retry.
fn candidate_token(base: &Key, a: u64) -> (r: Key)
    requires
        base.wf(),
    ensures
        r.wf(),
        r@ == candidate_view(base@, a),
{
    let mut bytes: Vec<u8> = Vec::new();
    bytes.push(#[verifier::truncate] ((a >> 56) as u8));
    bytes.push(#[verifier::truncate] ((a >> 48) as u8));
    bytes.push(#[verifier::truncate] ((a >> 40) as u8));
    bytes.push(#[verifier::truncate] ((a >> 32) as u8));
    bytes.push(#[verifier::truncate] ((a >> 24) as u8));
    bytes.push(#[verifier::truncate] ((a >> 16) as u8));
    bytes.push(#[verifier::truncate] ((a >> 8) as u8));
    bytes.push(#[verifier::truncate] (a as u8));
    let bb = base.as_bytes();
    let mut i: usize = 8;
    while i < KEY_LEN
        invariant
            base.wf(),
            bb@ == base@,
            8 <= i <= KEY_LEN,
            bytes@.len() == i,
            forall|j: int| 0 <= j < 8 ==> bytes@[j] == u64_be(a)[j],
            forall|j: int| 8 <= j < i ==> bytes@[j] == base@[j],
        decreases KEY_LEN - i,
    {
        bytes.push(bb[i]);
        i = i + 1;
    }
    proof {
        assert(bytes@ =~= candidate_view(base@, a));
    }
    match Key::from_bytes(bytes) {
        Some(k) => k,
        None => Key::random(),
    }
}

} // verus!
