//! The wire codec: a stable, self-describing binary encoding of the
//! envelope. Fixed-width identifiers are raw bytes; strings are
//! length-prefixed UTF-8; peer lists are count-prefixed; variants carry a
//! one-byte tag. Decoding rejects anything the encoder cannot produce, and
//! an encoded envelope decodes back to itself.
use vstd::prelude::*;

use vstd::string::StrSliceExecFns;
use vstd::utf8::{decode_utf8, encode_utf8, valid_utf8};

use crate::key::{Distance, Key};
use crate::message::{
    FindValueResult, FindValueResultView, Message, MessageView, Reply, ReplyView, Request,
    RequestView, RpcMessage, RpcMessageView,
};
use crate::routing::{NodeAndDistance, NodeInfo, NodeView};
use crate::KEY_LEN;

verus! {

/// A 64-bit length in big-endian byte order.
pub open spec fn u64_be(n: u64) -> Seq<u8> {
    seq![
        (n >> 56) as u8,
        (n >> 48) as u8,
        (n >> 40) as u8,
        (n >> 32) as u8,
        (n >> 24) as u8,
        (n >> 16) as u8,
        (n >> 8) as u8,
        n as u8,
    ]
}

/// The 64-bit value read from eight big-endian bytes.
pub open spec fn u64_from(b: Seq<u8>, pos: int) -> u64 {
    (((b[pos] as u64) << 56) | ((b[pos + 1] as u64) << 48) | ((b[pos + 2] as u64) << 40) | ((b[pos
        + 3] as u64) << 32) | ((b[pos + 4] as u64) << 24) | ((b[pos + 5] as u64) << 16) | ((b[pos
        + 6] as u64) << 8) | (b[pos + 7] as u64))
}

/// Reads eight big-endian bytes, if present.
pub open spec fn dec_u64(b: Seq<u8>, pos: int) -> Option<(u64, int)> {
    if 0 <= pos && pos + 8 <= b.len() {
        Some((u64_from(b, pos), pos + 8))
    } else {
        None
    }
}

/// A string as its UTF-8 bytes behind their count.
pub open spec fn enc_str(s: Seq<char>) -> Seq<u8> {
    u64_be(encode_utf8(s).len() as u64) + encode_utf8(s)
}

/// Reads a length-prefixed UTF-8 string, if present and valid.
pub open spec fn dec_str(b: Seq<u8>, pos: int) -> Option<(Seq<char>, int)> {
    match dec_u64(b, pos) {
        Some((n, p1)) => {
            if p1 + n <= b.len() {
                let bs = b.subrange(p1, p1 + n);
                if valid_utf8(bs) {
                    Some((decode_utf8(bs), p1 + n))
                } else {
                    None
                }
            } else {
                None
            }
        },
        None => None,
    }
}

/// Reads a raw identifier, if present.
pub open spec fn dec_key(b: Seq<u8>, pos: int) -> Option<(Seq<u8>, int)> {
    if 0 <= pos && pos + KEY_LEN <= b.len() {
        Some((b.subrange(pos, pos + KEY_LEN), pos + KEY_LEN))
    } else {
        None
    }
}

/// Reassembling the eight bytes of a 64-bit value gives it back.
pub proof fn lemma_u64_round(n: u64)
    ensures
        ({
            let e = u64_be(n);
            &&& e.len() == 8
            &&& u64_from(e, 0) == n
        }),
{
    let e = u64_be(n);
    assert(e[0] == (n >> 56) as u8);
    assert(e[1] == (n >> 48) as u8);
    assert(e[2] == (n >> 40) as u8);
    assert(e[3] == (n >> 32) as u8);
    assert(e[4] == (n >> 24) as u8);
    assert(e[5] == (n >> 16) as u8);
    assert(e[6] == (n >> 8) as u8);
    assert(e[7] == n as u8);
    assert(((((n >> 56) as u8 as u64) << 56) | (((n >> 48) as u8 as u64) << 48) | (((n >> 40) as u8
        as u64) << 40) | (((n >> 32) as u8 as u64) << 32) | (((n >> 24) as u8 as u64) << 24) | (((n
        >> 16) as u8 as u64) << 16) | (((n >> 8) as u8 as u64) << 8) | ((n as u8) as u64)) == n)
        by (bit_vector);
}

/// A 64-bit length planted at `pos` inside a larger buffer reads back as
/// itself.
pub proof fn lemma_dec_u64_at(b: Seq<u8>, pos: int, n: u64)
    requires
        0 <= pos,
        pos + 8 <= b.len(),
        b.subrange(pos, pos + 8) == u64_be(n),
    ensures
        dec_u64(b, pos) == Some((n, pos + 8)),
{
    lemma_u64_round(n);
    let e = u64_be(n);
    assert forall|i: int| 0 <= i < 8 implies b[pos + i] == e[i] by {
        assert(b.subrange(pos, pos + 8)[i] == b[pos + i]);
    }
    assert(u64_from(b, pos) == u64_from(e, 0));
}

/// A string encoded at `pos` inside a larger buffer reads back as itself.
pub proof fn lemma_dec_str_at(b: Seq<u8>, pos: int, s: Seq<char>)
    requires
        0 <= pos,
        pos + enc_str(s).len() <= b.len(),
        b.subrange(pos, pos + enc_str(s).len()) == enc_str(s),
        encode_utf8(s).len() <= u64::MAX,
    ensures
        dec_str(b, pos) == Some((s, pos + enc_str(s).len())),
{
    let u = encode_utf8(s);
    let n = u.len() as u64;
    let e = enc_str(s);
    assert(e.len() == 8 + u.len());
    assert(b.subrange(pos, pos + 8) =~= e.subrange(0, 8));
    assert(e.subrange(0, 8) =~= u64_be(n));
    lemma_dec_u64_at(b, pos, n);
    assert(b.subrange(pos + 8, pos + 8 + u.len() as int) =~= e.subrange(8, e.len() as int));
    assert(e.subrange(8, e.len() as int) =~= u);
    vstd::utf8::encode_utf8_valid_utf8(s);
    vstd::utf8::encode_utf8_decode_utf8(s);
}

/// An identifier planted at `pos` inside a larger buffer reads back as
/// itself.
pub proof fn lemma_dec_key_at(b: Seq<u8>, pos: int, k: Seq<u8>)
    requires
        0 <= pos,
        k.len() == KEY_LEN,
        pos + KEY_LEN <= b.len(),
        b.subrange(pos, pos + KEY_LEN) == k,
    ensures
        dec_key(b, pos) == Some((k, pos + KEY_LEN)),
{
}

/// A peer descriptor: identifier, then address and network name.
pub open spec fn enc_node(n: NodeView) -> Seq<u8> {
    n.id + enc_str(n.addr) + enc_str(n.net_id)
}

/// Reads a peer descriptor, if present.
pub open spec fn dec_node(b: Seq<u8>, pos: int) -> Option<(NodeView, int)> {
    match dec_key(b, pos) {
        Some((id, p1)) => match dec_str(b, p1) {
            Some((addr, p2)) => match dec_str(b, p2) {
                Some((net, p3)) => Some((NodeView { id: id, addr: addr, net_id: net }, p3)),
                None => None,
            },
            None => None,
        },
        None => None,
    }
}

/// A peer/distance pair: the descriptor, then the raw distance bytes.
pub open spec fn enc_pair(p: (NodeView, Seq<u8>)) -> Seq<u8> {
    enc_node(p.0) + p.1
}

/// Reads a peer/distance pair, if present.
pub open spec fn dec_pair(b: Seq<u8>, pos: int) -> Option<((NodeView, Seq<u8>), int)> {
    match dec_node(b, pos) {
        Some((n, p1)) => match dec_key(b, p1) {
            Some((d, p2)) => Some(((n, d), p2)),
            None => None,
        },
        None => None,
    }
}

/// The bodies of a peer list, one after another.
pub open spec fn enc_pairs_body(ps: Seq<(NodeView, Seq<u8>)>) -> Seq<u8>
    decreases ps.len(),
{
    if ps.len() == 0 {
        Seq::empty()
    } else {
        enc_pair(ps[0]) + enc_pairs_body(ps.drop_first())
    }
}

/// A peer list: its count, then the pairs.
pub open spec fn enc_pairs(ps: Seq<(NodeView, Seq<u8>)>) -> Seq<u8> {
    u64_be(ps.len() as u64) + enc_pairs_body(ps)
}

/// Reads `n` peer/distance pairs, if present.
pub open spec fn dec_pairs_body(b: Seq<u8>, pos: int, n: int) -> Option<(
    Seq<(NodeView, Seq<u8>)>,
    int,
)>
    decreases n,
{
    if n <= 0 {
        Some((Seq::empty(), pos))
    } else {
        match dec_pair(b, pos) {
            Some((p, p1)) => match dec_pairs_body(b, p1, n - 1) {
                Some((ps, p2)) => Some((seq![p] + ps, p2)),
                None => None,
            },
            None => None,
        }
    }
}

/// Reads a count-prefixed peer list, if present.
pub open spec fn dec_pairs(b: Seq<u8>, pos: int) -> Option<(Seq<(NodeView, Seq<u8>)>, int)> {
    match dec_u64(b, pos) {
        Some((n, p1)) => dec_pairs_body(b, p1, n as int),
        None => None,
    }
}

/// A request behind its one-byte tag.
pub open spec fn enc_request(r: RequestView) -> Seq<u8> {
    match r {
        RequestView::Ping => seq![0u8],
        RequestView::Store(k, v) => seq![1u8] + enc_str(k) + enc_str(v),
        RequestView::FindNode(id) => seq![2u8] + id,
        RequestView::FindValue(k) => seq![3u8] + enc_str(k),
    }
}

/// Reads a request, if present.
pub open spec fn dec_request(b: Seq<u8>, pos: int) -> Option<(RequestView, int)> {
    if 0 <= pos && pos < b.len() {
        let tag = b[pos];
        if tag == 0u8 {
            Some((RequestView::Ping, pos + 1))
        } else if tag == 1u8 {
            match dec_str(b, pos + 1) {
                Some((k, p1)) => match dec_str(b, p1) {
                    Some((v, p2)) => Some((RequestView::Store(k, v), p2)),
                    None => None,
                },
                None => None,
            }
        } else if tag == 2u8 {
            match dec_key(b, pos + 1) {
                Some((id, p1)) => Some((RequestView::FindNode(id), p1)),
                None => None,
            }
        } else if tag == 3u8 {
            match dec_str(b, pos + 1) {
                Some((k, p1)) => Some((RequestView::FindValue(k), p1)),
                None => None,
            }
        } else {
            None
        }
    } else {
        None
    }
}

/// A value-lookup result behind its one-byte tag.
pub open spec fn enc_fvr(r: FindValueResultView) -> Seq<u8> {
    match r {
        FindValueResultView::Nodes(ns) => seq![0u8] + enc_pairs(ns),
        FindValueResultView::Value(v) => seq![1u8] + enc_str(v),
    }
}

/// Reads a value-lookup result, if present.
pub open spec fn dec_fvr(b: Seq<u8>, pos: int) -> Option<(FindValueResultView, int)> {
    if 0 <= pos && pos < b.len() {
        let tag = b[pos];
        if tag == 0u8 {
            match dec_pairs(b, pos + 1) {
                Some((ns, p1)) => Some((FindValueResultView::Nodes(ns), p1)),
                None => None,
            }
        } else if tag == 1u8 {
            match dec_str(b, pos + 1) {
                Some((v, p1)) => Some((FindValueResultView::Value(v), p1)),
                None => None,
            }
        } else {
            None
        }
    } else {
        None
    }
}

/// A reply behind its one-byte tag.
pub open spec fn enc_reply(r: ReplyView) -> Seq<u8> {
    match r {
        ReplyView::Ping => seq![0u8],
        ReplyView::FindNode(ns) => seq![1u8] + enc_pairs(ns),
        ReplyView::FindValue(f) => seq![2u8] + enc_fvr(f),
    }
}

/// Reads a reply, if present.
pub open spec fn dec_reply(b: Seq<u8>, pos: int) -> Option<(ReplyView, int)> {
    if 0 <= pos && pos < b.len() {
        let tag = b[pos];
        if tag == 0u8 {
            Some((ReplyView::Ping, pos + 1))
        } else if tag == 1u8 {
            match dec_pairs(b, pos + 1) {
                Some((ns, p1)) => Some((ReplyView::FindNode(ns), p1)),
                None => None,
            }
        } else if tag == 2u8 {
            match dec_fvr(b, pos + 1) {
                Some((f, p1)) => Some((ReplyView::FindValue(f), p1)),
                None => None,
            }
        } else {
            None
        }
    } else {
        None
    }
}

/// A body behind its one-byte tag.
pub open spec fn enc_message(m: MessageView) -> Seq<u8> {
    match m {
        MessageView::Kill => seq![0u8],
        MessageView::Request(r) => seq![1u8] + enc_request(r),
        MessageView::Reply(r) => seq![2u8] + enc_reply(r),
    }
}

/// Reads a body, if present.
pub open spec fn dec_message(b: Seq<u8>, pos: int) -> Option<(MessageView, int)> {
    if 0 <= pos && pos < b.len() {
        let tag = b[pos];
        if tag == 0u8 {
            Some((MessageView::Kill, pos + 1))
        } else if tag == 1u8 {
            match dec_request(b, pos + 1) {
                Some((r, p1)) => Some((MessageView::Request(r), p1)),
                None => None,
            }
        } else if tag == 2u8 {
            match dec_reply(b, pos + 1) {
                Some((r, p1)) => Some((MessageView::Reply(r), p1)),
                None => None,
            }
        } else {
            None
        }
    } else {
        None
    }
}

/// The whole envelope on the wire: token, source, destination, body.
pub open spec fn spec_encode(m: RpcMessageView) -> Seq<u8> {
    m.token + enc_node(m.src) + enc_node(m.dst) + enc_message(m.msg)
}

/// Reads a whole envelope; the buffer must hold exactly one.
pub open spec fn spec_decode(b: Seq<u8>) -> Option<RpcMessageView> {
    match dec_key(b, 0) {
        Some((token, p1)) => match dec_node(b, p1) {
            Some((src, p2)) => match dec_node(b, p2) {
                Some((dst, p3)) => match dec_message(b, p3) {
                    Some((msg, p4)) => if p4 == b.len() {
                        Some(RpcMessageView { token: token, src: src, dst: dst, msg: msg })
                    } else {
                        None
                    },
                    None => None,
                },
                None => None,
            },
            None => None,
        },
        None => None,
    }
}

/// Every length in the envelope fits the 64-bit counts the wire carries.
pub open spec fn str_bounded(s: Seq<char>) -> bool {
    encode_utf8(s).len() <= u64::MAX
}

/// Bounds for a peer descriptor.
pub open spec fn node_bounded(n: NodeView) -> bool {
    str_bounded(n.addr) && str_bounded(n.net_id)
}

/// Bounds for a peer list.
pub open spec fn pairs_bounded(ps: Seq<(NodeView, Seq<u8>)>) -> bool {
    &&& ps.len() <= u64::MAX
    &&& forall|i: int| 0 <= i < ps.len() ==> node_bounded((#[trigger] ps[i]).0)
}

/// Bounds for a request.
pub open spec fn request_bounded(r: RequestView) -> bool {
    match r {
        RequestView::Ping => true,
        RequestView::Store(k, v) => str_bounded(k) && str_bounded(v),
        RequestView::FindNode(_) => true,
        RequestView::FindValue(k) => str_bounded(k),
    }
}

/// Bounds for a value-lookup result.
pub open spec fn fvr_bounded(r: FindValueResultView) -> bool {
    match r {
        FindValueResultView::Nodes(ns) => pairs_bounded(ns),
        FindValueResultView::Value(v) => str_bounded(v),
    }
}

/// Bounds for a reply.
pub open spec fn reply_bounded(r: ReplyView) -> bool {
    match r {
        ReplyView::Ping => true,
        ReplyView::FindNode(ns) => pairs_bounded(ns),
        ReplyView::FindValue(f) => fvr_bounded(f),
    }
}

/// Bounds for a body.
pub open spec fn message_bounded(m: MessageView) -> bool {
    match m {
        MessageView::Kill => true,
        MessageView::Request(r) => request_bounded(r),
        MessageView::Reply(r) => reply_bounded(r),
    }
}

/// Bounds for a whole envelope.
pub open spec fn rpc_bounded(m: RpcMessageView) -> bool {
    node_bounded(m.src) && node_bounded(m.dst) && message_bounded(m.msg)
}

/// A piece of an encoded run planted inside a larger buffer is itself
/// planted there, at its offset.
pub proof fn lemma_subrange_chunk(b: Seq<u8>, pos: int, e: Seq<u8>, off: int, part: Seq<u8>)
    requires
        0 <= pos,
        pos + e.len() <= b.len(),
        b.subrange(pos, pos + e.len()) == e,
        0 <= off,
        off + part.len() <= e.len(),
        e.subrange(off, off + part.len()) == part,
    ensures
        b.subrange(pos + off, pos + off + part.len()) == part,
{
    assert forall|i: int|
        0 <= i < part.len() implies b.subrange(pos + off, pos + off + part.len())[i]
        == part[i] by {
        assert(b.subrange(pos + off, pos + off + part.len())[i] == b[pos + off + i]);
        assert(b.subrange(pos, pos + e.len())[off + i] == b[pos + off + i]);
        assert(e.subrange(off, off + part.len())[i] == e[off + i]);
    }
    assert(b.subrange(pos + off, pos + off + part.len()) =~= part);
}

/// A peer descriptor encoded at `pos` inside a larger buffer reads back as
/// itself.
pub proof fn lemma_dec_node_at(b: Seq<u8>, pos: int, n: NodeView)
    requires
        0 <= pos,
        n.wf(),
        node_bounded(n),
        pos + enc_node(n).len() <= b.len(),
        b.subrange(pos, pos + enc_node(n).len()) == enc_node(n),
    ensures
        dec_node(b, pos) == Some((n, pos + enc_node(n).len())),
{
    let e = enc_node(n);
    let sa = enc_str(n.addr);
    let sn = enc_str(n.net_id);
    let p1 = pos + KEY_LEN;
    let p2 = p1 + sa.len();
    assert(e.len() == KEY_LEN + sa.len() + sn.len());
    assert(e.subrange(0, KEY_LEN as int) =~= n.id);
    lemma_subrange_chunk(b, pos, e, 0, n.id);
    lemma_dec_key_at(b, pos, n.id);
    assert(e.subrange(KEY_LEN as int, KEY_LEN + sa.len() as int) =~= sa);
    lemma_subrange_chunk(b, pos, e, KEY_LEN as int, sa);
    lemma_dec_str_at(b, p1, n.addr);
    assert(e.subrange(KEY_LEN + sa.len() as int, KEY_LEN + sa.len() + sn.len()) =~= sn);
    lemma_subrange_chunk(b, pos, e, KEY_LEN + sa.len(), sn);
    lemma_dec_str_at(b, p2, n.net_id);
}

/// A peer/distance pair encoded at `pos` inside a larger buffer reads back
/// as itself.
pub proof fn lemma_dec_pair_at(b: Seq<u8>, pos: int, p: (NodeView, Seq<u8>))
    requires
        0 <= pos,
        p.0.wf(),
        p.1.len() == KEY_LEN,
        node_bounded(p.0),
        pos + enc_pair(p).len() <= b.len(),
        b.subrange(pos, pos + enc_pair(p).len()) == enc_pair(p),
    ensures
        dec_pair(b, pos) == Some((p, pos + enc_pair(p).len())),
{
    let e = enc_pair(p);
    let en = enc_node(p.0);
    let p1 = pos + en.len();
    assert(e.subrange(0, en.len() as int) =~= en);
    lemma_subrange_chunk(b, pos, e, 0, en);
    lemma_dec_node_at(b, pos, p.0);
    assert(e.subrange(en.len() as int, en.len() as int + KEY_LEN) =~= p.1);
    lemma_subrange_chunk(b, pos, e, en.len() as int, p.1);
    lemma_dec_key_at(b, p1, p.1);
}

/// A pair list body encoded at `pos` inside a larger buffer reads back as
/// itself.
pub proof fn lemma_dec_pairs_body_at(b: Seq<u8>, pos: int, ps: Seq<(NodeView, Seq<u8>)>)
    requires
        0 <= pos,
        crate::routing::pairs_wf(ps),
        pairs_bounded(ps),
        pos + enc_pairs_body(ps).len() <= b.len(),
        b.subrange(pos, pos + enc_pairs_body(ps).len()) == enc_pairs_body(ps),
    ensures
        dec_pairs_body(b, pos, ps.len() as int) == Some((ps, pos + enc_pairs_body(ps).len())),
    decreases ps.len(),
{
    if ps.len() == 0 {
        assert(ps =~= Seq::<(NodeView, Seq<u8>)>::empty());
    } else {
        let e = enc_pairs_body(ps);
        let e0 = enc_pair(ps[0]);
        let rest = enc_pairs_body(ps.drop_first());
        let p1 = pos + e0.len();
        assert(e == e0 + rest);
        assert(e.subrange(0, e0.len() as int) =~= e0);
        lemma_subrange_chunk(b, pos, e, 0, e0);
        assert(ps[0].0.wf() && ps[0].1.len() == KEY_LEN);
        assert(node_bounded(ps[0].0));
        lemma_dec_pair_at(b, pos, ps[0]);
        assert(e.subrange(e0.len() as int, e0.len() + rest.len() as int) =~= rest);
        lemma_subrange_chunk(b, pos, e, e0.len() as int, rest);
        assert(crate::routing::pairs_wf(ps.drop_first())) by {
            assert forall|i: int|
                0 <= i < ps.drop_first().len() implies (#[trigger] ps.drop_first()[i]).0.wf()
                && ps.drop_first()[i].1.len() == KEY_LEN by {
                assert(ps.drop_first()[i] == ps[i + 1]);
            }
        }
        assert(pairs_bounded(ps.drop_first())) by {
            assert forall|i: int|
                0 <= i < ps.drop_first().len() implies node_bounded(
                (#[trigger] ps.drop_first()[i]).0,
            ) by {
                assert(ps.drop_first()[i] == ps[i + 1]);
            }
        }
        lemma_dec_pairs_body_at(b, p1, ps.drop_first());
        assert(seq![ps[0]] + ps.drop_first() =~= ps);
    }
}

/// A count-prefixed pair list encoded at `pos` inside a larger buffer reads
/// back as itself.
pub proof fn lemma_dec_pairs_at(b: Seq<u8>, pos: int, ps: Seq<(NodeView, Seq<u8>)>)
    requires
        0 <= pos,
        crate::routing::pairs_wf(ps),
        pairs_bounded(ps),
        pos + enc_pairs(ps).len() <= b.len(),
        b.subrange(pos, pos + enc_pairs(ps).len()) == enc_pairs(ps),
    ensures
        dec_pairs(b, pos) == Some((ps, pos + enc_pairs(ps).len())),
{
    let e = enc_pairs(ps);
    let body = enc_pairs_body(ps);
    let n = ps.len() as u64;
    let p1 = pos + 8;
    assert(e == u64_be(n) + body);
    lemma_u64_round(n);
    assert(e.subrange(0, 8) =~= u64_be(n));
    lemma_subrange_chunk(b, pos, e, 0, u64_be(n));
    lemma_dec_u64_at(b, pos, n);
    assert(e.subrange(8, 8 + body.len() as int) =~= body);
    lemma_subrange_chunk(b, pos, e, 8, body);
    lemma_dec_pairs_body_at(b, p1, ps);
}

/// A request encoded at `pos` inside a larger buffer reads back as itself.
pub proof fn lemma_dec_request_at(b: Seq<u8>, pos: int, r: RequestView)
    requires
        0 <= pos,
        r.wf(),
        request_bounded(r),
        pos + enc_request(r).len() <= b.len(),
        b.subrange(pos, pos + enc_request(r).len()) == enc_request(r),
    ensures
        dec_request(b, pos) == Some((r, pos + enc_request(r).len())),
{
    let e = enc_request(r);
    assert(b[pos] == e[0]) by {
        assert(b.subrange(pos, pos + e.len() as int)[0] == b[pos]);
    }
    match r {
        RequestView::Ping => {
        },
        RequestView::Store(k, v) => {
            let sk = enc_str(k);
            let sv = enc_str(v);
            let p1 = pos + 1;
            let p2 = p1 + sk.len();
            assert(e == seq![1u8] + sk + sv);
            assert(e.subrange(1, 1 + sk.len() as int) =~= sk);
            lemma_subrange_chunk(b, pos, e, 1, sk);
            lemma_dec_str_at(b, p1, k);
            assert(e.subrange(1 + sk.len() as int, 1 + sk.len() + sv.len() as int) =~= sv);
            lemma_subrange_chunk(b, pos, e, 1 + sk.len() as int, sv);
            lemma_dec_str_at(b, p2, v);
        },
        RequestView::FindNode(id) => {
            let p1 = pos + 1;
            assert(e == seq![2u8] + id);
            assert(e.subrange(1, 1 + KEY_LEN as int) =~= id);
            lemma_subrange_chunk(b, pos, e, 1, id);
            lemma_dec_key_at(b, p1, id);
        },
        RequestView::FindValue(k) => {
            let sk = enc_str(k);
            let p1 = pos + 1;
            assert(e == seq![3u8] + sk);
            assert(e.subrange(1, 1 + sk.len() as int) =~= sk);
            lemma_subrange_chunk(b, pos, e, 1, sk);
            lemma_dec_str_at(b, p1, k);
        },
    }
}

/// A value-lookup result encoded at `pos` inside a larger buffer reads back
/// as itself.
pub proof fn lemma_dec_fvr_at(b: Seq<u8>, pos: int, r: FindValueResultView)
    requires
        0 <= pos,
        r.wf(),
        fvr_bounded(r),
        pos + enc_fvr(r).len() <= b.len(),
        b.subrange(pos, pos + enc_fvr(r).len()) == enc_fvr(r),
    ensures
        dec_fvr(b, pos) == Some((r, pos + enc_fvr(r).len())),
{
    let e = enc_fvr(r);
    assert(b[pos] == e[0]) by {
        assert(b.subrange(pos, pos + e.len() as int)[0] == b[pos]);
    }
    match r {
        FindValueResultView::Nodes(ns) => {
            let en = enc_pairs(ns);
            let p1 = pos + 1;
            assert(e == seq![0u8] + en);
            assert(e.subrange(1, 1 + en.len() as int) =~= en);
            lemma_subrange_chunk(b, pos, e, 1, en);
            lemma_dec_pairs_at(b, p1, ns);
        },
        FindValueResultView::Value(v) => {
            let sv = enc_str(v);
            let p1 = pos + 1;
            assert(e == seq![1u8] + sv);
            assert(e.subrange(1, 1 + sv.len() as int) =~= sv);
            lemma_subrange_chunk(b, pos, e, 1, sv);
            lemma_dec_str_at(b, p1, v);
        },
    }
}

/// A reply encoded at `pos` inside a larger buffer reads back as itself.
pub proof fn lemma_dec_reply_at(b: Seq<u8>, pos: int, r: ReplyView)
    requires
        0 <= pos,
        r.wf(),
        reply_bounded(r),
        pos + enc_reply(r).len() <= b.len(),
        b.subrange(pos, pos + enc_reply(r).len()) == enc_reply(r),
    ensures
        dec_reply(b, pos) == Some((r, pos + enc_reply(r).len())),
{
    let e = enc_reply(r);
    assert(b[pos] == e[0]) by {
        assert(b.subrange(pos, pos + e.len() as int)[0] == b[pos]);
    }
    match r {
        ReplyView::Ping => {
        },
        ReplyView::FindNode(ns) => {
            let en = enc_pairs(ns);
            let p1 = pos + 1;
            assert(e == seq![1u8] + en);
            assert(e.subrange(1, 1 + en.len() as int) =~= en);
            lemma_subrange_chunk(b, pos, e, 1, en);
            lemma_dec_pairs_at(b, p1, ns);
        },
        ReplyView::FindValue(f) => {
            let ef = enc_fvr(f);
            let p1 = pos + 1;
            assert(e == seq![2u8] + ef);
            assert(e.subrange(1, 1 + ef.len() as int) =~= ef);
            lemma_subrange_chunk(b, pos, e, 1, ef);
            lemma_dec_fvr_at(b, p1, f);
        },
    }
}

/// A body encoded at `pos` inside a larger buffer reads back as itself.
pub proof fn lemma_dec_message_at(b: Seq<u8>, pos: int, m: MessageView)
    requires
        0 <= pos,
        m.wf(),
        message_bounded(m),
        pos + enc_message(m).len() <= b.len(),
        b.subrange(pos, pos + enc_message(m).len()) == enc_message(m),
    ensures
        dec_message(b, pos) == Some((m, pos + enc_message(m).len())),
{
    let e = enc_message(m);
    assert(b[pos] == e[0]) by {
        assert(b.subrange(pos, pos + e.len() as int)[0] == b[pos]);
    }
    match m {
        MessageView::Kill => {
        },
        MessageView::Request(r) => {
            let er = enc_request(r);
            let p1 = pos + 1;
            assert(e == seq![1u8] + er);
            assert(e.subrange(1, 1 + er.len() as int) =~= er);
            lemma_subrange_chunk(b, pos, e, 1, er);
            lemma_dec_request_at(b, p1, r);
        },
        MessageView::Reply(r) => {
            let er = enc_reply(r);
            let p1 = pos + 1;
            assert(e == seq![2u8] + er);
            assert(e.subrange(1, 1 + er.len() as int) =~= er);
            lemma_subrange_chunk(b, pos, e, 1, er);
            lemma_dec_reply_at(b, p1, r);
        },
    }
}

/// Round trip: decoding an encoded envelope gives the envelope back.
pub proof fn lemma_encode_decode(m: RpcMessageView)
    requires
        m.wf(),
        rpc_bounded(m),
    ensures
        spec_decode(spec_encode(m)) == Some(m),
{
    let b = spec_encode(m);
    let es = enc_node(m.src);
    let ed = enc_node(m.dst);
    let em = enc_message(m.msg);
    let p1 = KEY_LEN as int;
    let p2 = p1 + es.len();
    let p3 = p2 + ed.len();
    let p4 = p3 + em.len();
    assert(b.len() == p4);
    assert(b.subrange(0, b.len() as int) =~= b);
    assert(b.subrange(0, p1) =~= m.token);
    lemma_dec_key_at(b, 0, m.token);
    assert(b.subrange(p1, p1 + es.len() as int) =~= es);
    lemma_dec_node_at(b, p1, m.src);
    assert(b.subrange(p2, p2 + ed.len() as int) =~= ed);
    lemma_dec_node_at(b, p2, m.dst);
    assert(b.subrange(p3, p3 + em.len() as int) =~= em);
    lemma_dec_message_at(b, p3, m.msg);
}

/// Appending one pair to a list appends its encoding.
pub proof fn lemma_enc_pairs_body_push(ps: Seq<(NodeView, Seq<u8>)>, p: (NodeView, Seq<u8>))
    ensures
        enc_pairs_body(ps.push(p)) == enc_pairs_body(ps) + enc_pair(p),
    decreases ps.len(),
{
    if ps.len() == 0 {
        assert(ps.push(p)[0] == p);
        assert(ps.push(p).drop_first() =~= Seq::<(NodeView, Seq<u8>)>::empty());
        assert(enc_pairs_body(Seq::<(NodeView, Seq<u8>)>::empty()) =~= Seq::<u8>::empty());
        assert(enc_pairs_body(ps.push(p)) =~= enc_pairs_body(ps) + enc_pair(p));
    } else {
        assert(ps.push(p)[0] == ps[0]);
        assert(ps.push(p).drop_first() =~= ps.drop_first().push(p));
        lemma_enc_pairs_body_push(ps.drop_first(), p);
        assert(enc_pairs_body(ps.push(p)) == enc_pair(ps[0]) + enc_pairs_body(
            ps.drop_first().push(p),
        ));
        assert(enc_pairs_body(ps.push(p)) =~= enc_pairs_body(ps) + enc_pair(p));
    }
}

/// Writes a 64-bit length in big-endian order.
fn put_u64(out: &mut Vec<u8>, n: u64)
    ensures
        final(out)@ == old(out)@ + u64_be(n),
{
    out.push(#[verifier::truncate] ((n >> 56) as u8));
    out.push(#[verifier::truncate] ((n >> 48) as u8));
    out.push(#[verifier::truncate] ((n >> 40) as u8));
    out.push(#[verifier::truncate] ((n >> 32) as u8));
    out.push(#[verifier::truncate] ((n >> 24) as u8));
    out.push(#[verifier::truncate] ((n >> 16) as u8));
    out.push(#[verifier::truncate] ((n >> 8) as u8));
    out.push(#[verifier::truncate] (n as u8));
    proof {
        assert(out@ =~= old(out)@ + u64_be(n));
    }
}

/// Writes raw bytes.
fn put_bytes(out: &mut Vec<u8>, b: &Vec<u8>)
    ensures
        final(out)@ == old(out)@ + b@,
{
    let mut i: usize = 0;
    while i < b.len()
        invariant
            i <= b@.len(),
            out@ == old(out)@ + b@.take(i as int),
        decreases b@.len() - i,
    {
        out.push(b[i]);
        proof {
            assert(out@ =~= old(out)@ + b@.take(i + 1));
        }
        i = i + 1;
    }
    proof {
        assert(b@.take(b@.len() as int) =~= b@);
    }
}

/// Writes a length-prefixed UTF-8 string.
fn put_str(out: &mut Vec<u8>, s: &String)
    ensures
        final(out)@ == old(out)@ + enc_str(s@),
{
    let bs = s.as_str().as_bytes_vec();
    put_u64(out, bs.len() as u64);
    put_bytes(out, &bs);
    proof {
        assert(out@ =~= old(out)@ + enc_str(s@));
    }
}

/// Writes a peer descriptor.
fn put_node(out: &mut Vec<u8>, n: &NodeInfo)
    requires
        n.wf(),
    ensures
        final(out)@ == old(out)@ + enc_node(n@),
{
    put_bytes(out, n.id.as_bytes());
    put_str(out, &n.addr);
    put_str(out, &n.net_id);
    proof {
        assert(out@ =~= old(out)@ + enc_node(n@));
    }
}

/// Writes a count-prefixed peer list.
fn put_pairs(out: &mut Vec<u8>, ns: &Vec<NodeAndDistance>)
    requires
        forall|i: int| 0 <= i < ns@.len() ==> (#[trigger] ns@[i]).wf(),
    ensures
        final(out)@ == old(out)@ + enc_pairs(ns.deep_view()),
{
    put_u64(out, ns.len() as u64);
    let ghost ps = ns.deep_view();
    let mut i: usize = 0;
    proof {
        assert(ps.take(0) =~= Seq::<(NodeView, Seq<u8>)>::empty());
    }
    while i < ns.len()
        invariant
            forall|j: int| 0 <= j < ns@.len() ==> (#[trigger] ns@[j]).wf(),
            ps == ns.deep_view(),
            i <= ns@.len(),
            out@ == old(out)@ + u64_be(ps.len() as u64) + enc_pairs_body(ps.take(i as int)),
        decreases ns@.len() - i,
    {
        let ghost before = out@;
        put_node(out, &ns[i].0);
        put_bytes(out, ns[i].1.as_bytes());
        proof {
            assert(ps[i as int] == ns@[i as int]@);
            assert(out@ =~= before + enc_pair(ps[i as int]));
            assert(ps.take(i + 1) =~= ps.take(i as int).push(ps[i as int]));
            lemma_enc_pairs_body_push(ps.take(i as int), ps[i as int]);
            assert(out@ =~= old(out)@ + u64_be(ps.len() as u64) + enc_pairs_body(ps.take(i + 1)));
        }
        i = i + 1;
    }
    proof {
        assert(ps.take(ps.len() as int) =~= ps);
        assert(out@ =~= old(out)@ + enc_pairs(ps));
    }
}

/// Writes a tagged request.
fn put_request(out: &mut Vec<u8>, r: &Request)
    requires
        r@.wf(),
    ensures
        final(out)@ == old(out)@ + enc_request(r@),
{
    match r {
        Request::Ping => {
            out.push(0u8);
            proof {
                assert(out@ =~= old(out)@ + enc_request(r@));
            }
        },
        Request::Store(k, v) => {
            out.push(1u8);
            put_str(out, k);
            put_str(out, v);
            proof {
                assert(out@ =~= old(out)@ + enc_request(r@));
            }
        },
        Request::FindNode(id) => {
            out.push(2u8);
            put_bytes(out, id.as_bytes());
            proof {
                assert(out@ =~= old(out)@ + enc_request(r@));
            }
        },
        Request::FindValue(k) => {
            out.push(3u8);
            put_str(out, k);
            proof {
                assert(out@ =~= old(out)@ + enc_request(r@));
            }
        },
    }
}

/// Writes a tagged value-lookup result.
fn put_fvr(out: &mut Vec<u8>, r: &FindValueResult)
    requires
        fvr_exec_wf(r),
    ensures
        final(out)@ == old(out)@ + enc_fvr(r@),
{
    match r {
        FindValueResult::Nodes(ns) => {
            out.push(0u8);
            put_pairs(out, ns);
            proof {
                assert(out@ =~= old(out)@ + enc_fvr(r@));
            }
        },
        FindValueResult::Value(v) => {
            out.push(1u8);
            put_str(out, v);
            proof {
                assert(out@ =~= old(out)@ + enc_fvr(r@));
            }
        },
    }
}

/// Identifiers inside the exec value are full-width.
pub open spec fn fvr_exec_wf(r: &FindValueResult) -> bool {
    match r {
        FindValueResult::Nodes(ns) => forall|i: int|
            0 <= i < ns@.len() ==> (#[trigger] ns@[i]).wf(),
        FindValueResult::Value(_) => true,
    }
}

/// Identifiers inside the exec reply are full-width.
pub open spec fn reply_exec_wf(r: &Reply) -> bool {
    match r {
        Reply::Ping => true,
        Reply::FindNode(ns) => forall|i: int| 0 <= i < ns@.len() ==> (#[trigger] ns@[i]).wf(),
        Reply::FindValue(f) => fvr_exec_wf(f),
    }
}

/// Identifiers inside the exec body are full-width.
pub open spec fn message_exec_wf(m: &Message) -> bool {
    match m {
        Message::Kill => true,
        Message::Request(r) => r@.wf(),
        Message::Reply(r) => reply_exec_wf(r),
    }
}

/// Identifiers inside the exec envelope are full-width.
pub open spec fn rpc_exec_wf(m: &RpcMessage) -> bool {
    &&& m.token.wf()
    &&& m.src.wf()
    &&& m.dst.wf()
    &&& message_exec_wf(&m.msg)
}

/// Writes a tagged reply.
fn put_reply(out: &mut Vec<u8>, r: &Reply)
    requires
        reply_exec_wf(r),
    ensures
        final(out)@ == old(out)@ + enc_reply(r@),
{
    match r {
        Reply::Ping => {
            out.push(0u8);
            proof {
                assert(out@ =~= old(out)@ + enc_reply(r@));
            }
        },
        Reply::FindNode(ns) => {
            out.push(1u8);
            put_pairs(out, ns);
            proof {
                assert(out@ =~= old(out)@ + enc_reply(r@));
            }
        },
        Reply::FindValue(f) => {
            out.push(2u8);
            put_fvr(out, f);
            proof {
                assert(out@ =~= old(out)@ + enc_reply(r@));
            }
        },
    }
}

/// Writes a tagged body.
fn put_message(out: &mut Vec<u8>, m: &Message)
    requires
        message_exec_wf(m),
    ensures
        final(out)@ == old(out)@ + enc_message(m@),
{
    match m {
        Message::Kill => {
            out.push(0u8);
            proof {
                assert(out@ =~= old(out)@ + enc_message(m@));
            }
        },
        Message::Request(r) => {
            out.push(1u8);
            put_request(out, r);
            proof {
                assert(out@ =~= old(out)@ + enc_message(m@));
            }
        },
        Message::Reply(r) => {
            out.push(2u8);
            put_reply(out, r);
            proof {
                assert(out@ =~= old(out)@ + enc_message(m@));
            }
        },
    }
}

/// Serialises an envelope for the wire.
pub fn encode(m: &RpcMessage) -> (r: Vec<u8>)
    requires
        rpc_exec_wf(m),
    ensures
        r@ == spec_encode(m@),
{
    let mut out: Vec<u8> = Vec::new();
    put_bytes(&mut out, m.token.as_bytes());
    put_node(&mut out, &m.src);
    put_node(&mut out, &m.dst);
    put_message(&mut out, &m.msg);
    proof {
        assert(out@ =~= spec_encode(m@));
    }
    out
}

/// Relies on String::from_utf8: it returns the string whose UTF-8 encoding
/// is the given bytes exactly when they are valid UTF-8, and an error
/// otherwise.
#[verifier::external_body]
fn bytes_to_string(v: Vec<u8>) -> (r: Option<String>)
    ensures
        r is Some <==> valid_utf8(v@),
        r matches Some(s) ==> s@ == decode_utf8(v@),
{
    String::from_utf8(v).ok()
}

/// Reads a 64-bit big-endian length.
fn get_u64(b: &Vec<u8>, pos: usize) -> (r: Option<(u64, usize)>)
    ensures
        r is Some <==> dec_u64(b@, pos as int) is Some,
        r matches Some((n, p)) ==> dec_u64(b@, pos as int) == Some((n, p as int)),
{
    if b.len() >= 8 && pos <= b.len() - 8 {
        let n = ((b[pos] as u64) << 56) | ((b[pos + 1] as u64) << 48) | ((b[pos + 2] as u64) << 40)
            | ((b[pos + 3] as u64) << 32) | ((b[pos + 4] as u64) << 24) | ((b[pos + 5] as u64)
            << 16) | ((b[pos + 6] as u64) << 8) | (b[pos + 7] as u64);
        Some((n, pos + 8))
    } else {
        None
    }
}

/// Reads a raw identifier.
fn get_key(b: &Vec<u8>, pos: usize) -> (r: Option<(Key, usize)>)
    ensures
        r is Some <==> dec_key(b@, pos as int) is Some,
        r matches Some((k, p)) ==> dec_key(b@, pos as int) == Some((k@, p as int)) && k.wf(),
{
    match get_raw(b, pos) {
        Some((v, p)) => match Key::from_bytes(v) {
            Some(k) => Some((k, p)),
            None => None,
        },
        None => None,
    }
}

/// Reads raw distance bytes.
fn get_dist(b: &Vec<u8>, pos: usize) -> (r: Option<(Distance, usize)>)
    ensures
        r is Some <==> dec_key(b@, pos as int) is Some,
        r matches Some((d, p)) ==> dec_key(b@, pos as int) == Some((d@, p as int)) && d.wf(),
{
    match get_raw(b, pos) {
        Some((v, p)) => match Distance::from_bytes(v) {
            Some(d) => Some((d, p)),
            None => None,
        },
        None => None,
    }
}

/// Reads an identifier's worth of raw bytes.
fn get_raw(b: &Vec<u8>, pos: usize) -> (r: Option<(Vec<u8>, usize)>)
    ensures
        r is Some <==> dec_key(b@, pos as int) is Some,
        r matches Some((v, p)) ==> dec_key(b@, pos as int) == Some((v@, p as int)),
{
    if b.len() >= KEY_LEN && pos <= b.len() - KEY_LEN {
        let mut v: Vec<u8> = Vec::new();
        let mut i: usize = 0;
        while i < KEY_LEN
            invariant
                pos + KEY_LEN <= b@.len() <= usize::MAX,
                i <= KEY_LEN,
                v@.len() == i,
                forall|j: int| 0 <= j < i ==> v@[j] == b@[pos + j],
            decreases KEY_LEN - i,
        {
            v.push(b[pos + i]);
            i = i + 1;
        }
        proof {
            assert(v@ =~= b@.subrange(pos as int, pos + KEY_LEN));
        }
        Some((v, pos + KEY_LEN))
    } else {
        None
    }
}

/// Reads a length-prefixed UTF-8 string.
fn get_str(b: &Vec<u8>, pos: usize) -> (r: Option<(String, usize)>)
    ensures
        r is Some <==> dec_str(b@, pos as int) is Some,
        r matches Some((s, p)) ==> dec_str(b@, pos as int) == Some((s@, p as int)),
{
    match get_u64(b, pos) {
        Some((n, p1)) => {
            if n <= (b.len() - p1) as u64 {
                let nn = n as usize;
                let mut v: Vec<u8> = Vec::new();
                let mut i: usize = 0;
                while i < nn
                    invariant
                        p1 + nn <= b@.len() <= usize::MAX,
                        i <= nn,
                        v@.len() == i,
                        forall|j: int| 0 <= j < i ==> v@[j] == b@[p1 + j],
                    decreases nn - i,
                {
                    v.push(b[p1 + i]);
                    i = i + 1;
                }
                proof {
                    assert(v@ =~= b@.subrange(p1 as int, p1 + nn));
                }
                match bytes_to_string(v) {
                    Some(s) => Some((s, p1 + nn)),
                    None => None,
                }
            } else {
                None
            }
        },
        None => None,
    }
}

/// Reads a peer descriptor.
fn get_node(b: &Vec<u8>, pos: usize) -> (r: Option<(NodeInfo, usize)>)
    ensures
        r is Some <==> dec_node(b@, pos as int) is Some,
        r matches Some((n, p)) ==> dec_node(b@, pos as int) == Some((n@, p as int)) && n.wf(),
{
    match get_key(b, pos) {
        Some((id, p1)) => match get_str(b, p1) {
            Some((addr, p2)) => match get_str(b, p2) {
                Some((net, p3)) => Some((NodeInfo::new(id, addr, net), p3)),
                None => None,
            },
            None => None,
        },
        None => None,
    }
}

/// Reads a peer/distance pair.
fn get_pair(b: &Vec<u8>, pos: usize) -> (r: Option<(NodeAndDistance, usize)>)
    ensures
        r is Some <==> dec_pair(b@, pos as int) is Some,
        r matches Some((q, p)) ==> dec_pair(b@, pos as int) == Some((q@, p as int)) && q.wf(),
{
    match get_node(b, pos) {
        Some((n, p1)) => match get_dist(b, p1) {
            Some((d, p2)) => Some((NodeAndDistance(n, d), p2)),
            None => None,
        },
        None => None,
    }
}

/// Reads a count-prefixed peer list.
fn get_pairs(b: &Vec<u8>, pos: usize) -> (r: Option<(Vec<NodeAndDistance>, usize)>)
    ensures
        r is Some <==> dec_pairs(b@, pos as int) is Some,
        r matches Some((v, p)) ==> dec_pairs(b@, pos as int) == Some((v.deep_view(), p as int))
            && (forall|i: int| 0 <= i < v@.len() ==> (#[trigger] v@[i]).wf())
            && crate::routing::pairs_wf(v.deep_view()),
{
    match get_u64(b, pos) {
        Some((n, p1)) => {
            let mut acc: Vec<NodeAndDistance> = Vec::new();
            let mut cur: usize = p1;
            let mut i: u64 = 0;
            proof {
                assert(acc.deep_view() =~= Seq::<(NodeView, Seq<u8>)>::empty());
            }
            while i < n
                invariant
                    dec_u64(b@, pos as int) == Some((n, p1 as int)),
                    i <= n,
                    cur <= b@.len(),
                    forall|j: int| 0 <= j < acc@.len() ==> (#[trigger] acc@[j]).wf(),
                    dec_pairs_body(b@, p1 as int, n as int) == (match dec_pairs_body(
                        b@,
                        cur as int,
                        n - i,
                    ) {
                        Some(t) => Some((acc.deep_view() + t.0, t.1)),
                        None => None::<(Seq<(NodeView, Seq<u8>)>, int)>,
                    }),
                decreases n - i,
            {
                let ghost acc0 = acc.deep_view();
                match get_pair(b, cur) {
                    Some((q, p2)) => {
                        proof {
                            lemma_dec_pair_bounds(b@, cur as int);
                        }
                        acc.push(q);
                        proof {
                            assert(acc.deep_view() =~= acc0.push(q@));
                            assert forall|t0: Seq<(NodeView, Seq<u8>)>|
                                acc0 + (seq![q@] + t0) =~= acc.deep_view() + t0 by {}
                        }
                        cur = p2;
                    },
                    None => {
                        proof {
                            assert(dec_pairs_body(b@, cur as int, n - i) is None);
                            assert(dec_pairs_body(b@, p1 as int, n as int) is None);
                            assert(dec_pairs(b@, pos as int) is None);
                        }
                        return None;
                    },
                }
                i = i + 1;
            }
            proof {
                assert(dec_pairs_body(b@, cur as int, 0) == Some((
                    Seq::<(NodeView, Seq<u8>)>::empty(),
                    cur as int,
                )));
                assert(acc.deep_view() + Seq::<(NodeView, Seq<u8>)>::empty() =~= acc.deep_view());
                assert forall|i: int|
                    0 <= i < acc.deep_view().len() implies (#[trigger] acc.deep_view()[i]).0.wf()
                    && acc.deep_view()[i].1.len() == KEY_LEN by {
                    assert(acc.deep_view()[i] == acc@[i]@);
                    assert(acc@[i].wf());
                }
            }
            Some((acc, cur))
        },
        None => None,
    }
}

/// A successful pair parse lands inside the buffer.
proof fn lemma_dec_pair_bounds(b: Seq<u8>, pos: int)
    requires
        dec_pair(b, pos) is Some,
    ensures
        ({
            let (q, p) = dec_pair(b, pos)->Some_0;
            pos < p <= b.len()
        }),
{
}

/// Reads a tagged request.
fn get_request(b: &Vec<u8>, pos: usize) -> (r: Option<(Request, usize)>)
    ensures
        r is Some <==> dec_request(b@, pos as int) is Some,
        r matches Some((q, p)) ==> dec_request(b@, pos as int) == Some((q@, p as int))
            && q@.wf(),
{
    if pos < b.len() {
        let tag = b[pos];
        if tag == 0u8 {
            Some((Request::Ping, pos + 1))
        } else if tag == 1u8 {
            match get_str(b, pos + 1) {
                Some((k, p1)) => match get_str(b, p1) {
                    Some((v, p2)) => Some((Request::Store(k, v), p2)),
                    None => None,
                },
                None => None,
            }
        } else if tag == 2u8 {
            match get_key(b, pos + 1) {
                Some((id, p1)) => Some((Request::FindNode(id), p1)),
                None => None,
            }
        } else if tag == 3u8 {
            match get_str(b, pos + 1) {
                Some((k, p1)) => Some((Request::FindValue(k), p1)),
                None => None,
            }
        } else {
            None
        }
    } else {
        None
    }
}

/// Reads a tagged value-lookup result.
fn get_fvr(b: &Vec<u8>, pos: usize) -> (r: Option<(FindValueResult, usize)>)
    ensures
        r is Some <==> dec_fvr(b@, pos as int) is Some,
        r matches Some((q, p)) ==> dec_fvr(b@, pos as int) == Some((q@, p as int)) && q@.wf()
            && fvr_exec_wf(&q),
{
    if pos < b.len() {
        let tag = b[pos];
        if tag == 0u8 {
            match get_pairs(b, pos + 1) {
                Some((ns, p1)) => Some((FindValueResult::Nodes(ns), p1)),
                None => None,
            }
        } else if tag == 1u8 {
            match get_str(b, pos + 1) {
                Some((v, p1)) => Some((FindValueResult::Value(v), p1)),
                None => None,
            }
        } else {
            None
        }
    } else {
        None
    }
}

/// Reads a tagged reply.
fn get_reply(b: &Vec<u8>, pos: usize) -> (r: Option<(Reply, usize)>)
    ensures
        r is Some <==> dec_reply(b@, pos as int) is Some,
        r matches Some((q, p)) ==> dec_reply(b@, pos as int) == Some((q@, p as int)) && q@.wf()
            && reply_exec_wf(&q),
{
    if pos < b.len() {
        let tag = b[pos];
        if tag == 0u8 {
            Some((Reply::Ping, pos + 1))
        } else if tag == 1u8 {
            match get_pairs(b, pos + 1) {
                Some((ns, p1)) => Some((Reply::FindNode(ns), p1)),
                None => None,
            }
        } else if tag == 2u8 {
            match get_fvr(b, pos + 1) {
                Some((f, p1)) => Some((Reply::FindValue(f), p1)),
                None => None,
            }
        } else {
            None
        }
    } else {
        None
    }
}

/// Reads a tagged body.
fn get_message(b: &Vec<u8>, pos: usize) -> (r: Option<(Message, usize)>)
    ensures
        r is Some <==> dec_message(b@, pos as int) is Some,
        r matches Some((q, p)) ==> dec_message(b@, pos as int) == Some((q@, p as int))
            && q@.wf() && message_exec_wf(&q),
{
    if pos < b.len() {
        let tag = b[pos];
        if tag == 0u8 {
            Some((Message::Kill, pos + 1))
        } else if tag == 1u8 {
            match get_request(b, pos + 1) {
                Some((r1, p1)) => Some((Message::Request(r1), p1)),
                None => None,
            }
        } else if tag == 2u8 {
            match get_reply(b, pos + 1) {
                Some((r1, p1)) => Some((Message::Reply(r1), p1)),
                None => None,
            }
        } else {
            None
        }
    } else {
        None
    }
}

/// Parses a whole envelope from one datagram; rejects trailing bytes and
/// anything the encoder cannot produce.
pub fn decode(b: &Vec<u8>) -> (r: Option<RpcMessage>)
    ensures
        r is Some <==> spec_decode(b@) is Some,
        r matches Some(m) ==> spec_decode(b@) == Some(m@) && m@.wf() && rpc_exec_wf(&m),
{
    match get_key(b, 0) {
        Some((token, p1)) => match get_node(b, p1) {
            Some((src, p2)) => match get_node(b, p2) {
                Some((dst, p3)) => match get_message(b, p3) {
                    Some((msg, p4)) => {
                        if p4 == b.len() {
                            Some(RpcMessage { token, src, dst, msg })
                        } else {
                            None
                        }
                    },
                    None => None,
                },
                None => None,
            },
            None => None,
        },
        None => None,
    }
}

} // verus!
